use baml_optimize::applier::{
    apply_class_description, apply_prompt_change, detect_common_indent, find_function_start,
    find_keyword_after, find_keyword_in_block, find_raw_string_close, indent_non_empty_lines, reindent_prompt,
    replace_prompt_in_file, strip_common_indent, Applier,
};
use baml_optimize::candidate::{Candidate, CandidateMethod, ClassDefinition, OptimizableFunction};
use baml_optimize::sources::SourceFile;

fn sample_candidate(prompt: &str) -> Candidate {
    Candidate {
        id: 0,
        iteration: 0,
        parent_ids: vec![],
        method: CandidateMethod::Initial,
        function: OptimizableFunction {
            function_name: "ExtractSubject".into(),
            prompt_text: prompt.into(),
            classes: vec![],
            enums: vec![],
            function_source: None,
        },
        scores: None,
        rationale: None,
    }
}

const RESUME_BAML: &str = r##"class Person { name string }

function ExtractSubject(sentence: string) -> Person? {
  client GPT5
  prompt #"
  Extract the subject from this sentence: {{ sentence }}
"#
}

function OtherFunc(x: string) -> string {
  client GPT5
  prompt #"unchanged"#
}
"##;

fn file(path: &str, content: &str) -> SourceFile {
    SourceFile { path: path.to_string(), content: content.to_string() }
}

fn class_with_description(name: &str, desc: &str) -> ClassDefinition {
    ClassDefinition {
        class_name: name.to_string(),
        description: Some(desc.to_string()),
        fields: vec![],
    }
}

#[test]
fn rewrites_prompt_preserving_other_functions() {
    let applier = Applier::new("/tmp/x".to_string());
    let sources = vec![file("r.baml", RESUME_BAML)];
    let modified = applier.generate_modified_files(
        &sample_candidate("IMPROVED prompt for {{ sentence }}."),
        &sources,
    );
    assert_eq!(modified.len(), 1);
    assert_eq!(modified[0].path, "r.baml");
    let content = &modified[0].content;
    assert!(
        content.contains("IMPROVED prompt for {{ sentence }}."),
        "new prompt should be present; got:\n{content}"
    );
    assert!(
        !content.contains("Extract the subject from this sentence"),
        "old prompt should be removed; got:\n{content}"
    );
    assert!(
        content.contains(r##"prompt #"unchanged"#"##),
        "OtherFunc's prompt should not change"
    );
}

#[test]
fn no_change_when_function_absent() {
    let applier = Applier::new("/tmp/x".to_string());
    let sources = vec![file("other.baml", "class Foo { name string }")];
    let modified = applier.generate_modified_files(&sample_candidate("new"), &sources);
    assert_eq!(modified.len(), sources.len());
    assert_eq!(modified[0].path, sources[0].path);
    assert_eq!(modified[0].content, sources[0].content);
}

#[test]
fn handles_double_hash_raw_strings() {
    let src = r####"function ExtractSubject(x: string) -> string {
  client GPT5
  prompt ##"contains #" inside"##
}
"####;
    let out = replace_prompt_in_file(src, "ExtractSubject", "replaced").unwrap();
    let expected = r####"prompt ##"replaced"##"####;
    assert!(out.contains(expected), "got:\n{out}");
    assert!(!out.contains("contains #\" inside"));
}

#[test]
fn ignores_function_prefix_collisions() {
    let src = r##"function ExtractSubjectExt(x: string) -> string {
  client GPT5
  prompt #"don't touch me"#
}

function ExtractSubject(x: string) -> string {
  client GPT5
  prompt #"target"#
}
"##;
    let out = replace_prompt_in_file(src, "ExtractSubject", "NEW").unwrap();
    assert!(out.contains(r##"prompt #"don't touch me"#"##));
    assert!(out.contains(r##"prompt #"NEW"#"##));
}

#[test]
fn an_indented_line_that_is_proposed_anew_is_left_alone() {
    let src = "function F() { prompt #\"  \u{a0}same text \"# }";
    assert!(replace_prompt_in_file(src, "F", "  \u{a0}same text ").is_none());
    let blank = "function F() { prompt #\"   \"# }";
    assert!(replace_prompt_in_file(blank, "F", "   ").is_none());
}

#[test]
fn returns_none_when_prompt_unchanged() {
    let src = r##"function F(x: string) -> string { client GPT5 prompt #"same"# }"##;
    assert!(replace_prompt_in_file(src, "F", "same").is_none());
}

#[test]
fn preserves_indentation_of_original_prompt() {
    let src = r##"function F(x: string) -> string {
  client GPT5
  prompt #"
    Old prompt line.
    Second line.
  "#
}
"##;
    let new_prompt = "New line one.\nNew line two.";
    let out = replace_prompt_in_file(src, "F", new_prompt).unwrap();
    assert!(
        out.contains("\n    New line one.\n    New line two.\n  \"#"),
        "got:\n{out}"
    );
}

#[test]
fn normalizes_already_indented_new_prompt() {
    let src = r##"function F(x: string) -> string {
  client GPT5
  prompt #"
    Original.
  "#
}
"##;
    let new_prompt = "  Line A.\n  Line B.";
    let out = replace_prompt_in_file(src, "F", new_prompt).unwrap();
    assert!(
        out.contains("\n    Line A.\n    Line B.\n  \"#"),
        "got:\n{out}"
    );
    assert!(!out.contains("      Line A"));
}

#[test]
fn single_line_prompt_has_no_indent_to_preserve() {
    let src = r##"function F(x: string) -> string { client GPT5 prompt #"old"# }"##;
    let out = replace_prompt_in_file(src, "F", "new single").unwrap();
    assert!(out.contains(r##"prompt #"new single"#"##), "got:\n{out}");
}

#[test]
fn adds_doc_comment_above_class_without_one() {
    let src = "class Person {\n  name string\n}\n";
    let out = apply_class_description(src, &class_with_description("Person", "A person."))
        .expect("should rewrite");
    assert_eq!(out, "/// A person.\nclass Person {\n  name string\n}\n");
}

#[test]
fn replaces_existing_doc_comment() {
    let src = "/// Outdated.\nclass Person {\n  name string\n}\n";
    let out = apply_class_description(src, &class_with_description("Person", "A person."))
        .expect("should rewrite");
    assert_eq!(out, "/// A person.\nclass Person {\n  name string\n}\n");
}

#[test]
fn preserves_indent_for_nested_class_definitions() {
    let src = "  class Person {\n    name string\n  }\n";
    let out = apply_class_description(src, &class_with_description("Person", "Doc."))
        .expect("should rewrite");
    assert!(out.starts_with("  /// Doc.\n"), "got:\n{out}");
}

#[test]
fn no_change_when_description_matches_existing() {
    let src = "/// A person.\nclass Person {\n  name string\n}\n";
    assert!(
        apply_class_description(src, &class_with_description("Person", "A person.")).is_none()
    );
}

#[test]
fn skips_when_class_absent_from_file() {
    let src = "class Other {\n  x int\n}\n";
    assert!(
        apply_class_description(src, &class_with_description("Person", "Doc.")).is_none()
    );
}

#[test]
fn multiline_description_emits_multiple_doc_lines() {
    let src = "class Person {\n  name string\n}\n";
    let out =
        apply_class_description(src, &class_with_description("Person", "Line one.\nLine two."))
            .expect("should rewrite");
    assert_eq!(
        out,
        "/// Line one.\n/// Line two.\nclass Person {\n  name string\n}\n"
    );
}

#[test]
fn missing_pieces_leave_the_text_alone() {
    assert!(replace_prompt_in_file("function G() {}", "F", "x").is_none());
    assert!(replace_prompt_in_file("function F() { client A }", "F", "x").is_none());
    assert!(replace_prompt_in_file("function F() { prompt \"x\" }", "F", "y").is_none());
    assert!(replace_prompt_in_file("function F() { prompt #\"x }", "F", "y").is_none());
    assert!(replace_prompt_in_file("function F() { prompt #\"x\"## }", "F", "y").is_none());
    assert!(replace_prompt_in_file("functionF() { prompt #\"x\"# }", "F", "y").is_none());
    assert!(replace_prompt_in_file("my_function F() { prompt #\"x\"# }", "F", "y").is_none());
}

#[test]
fn a_replaced_prompt_reads_back() {
    let src = "function F() {\n  prompt ##\"\n    old\n  \"##\n}\n";
    let out = replace_prompt_in_file(src, "F", "new \"# text").unwrap();
    assert_eq!(out, "function F() {\n  prompt ##\"\n    new \"# text\n  \"##\n}\n");
    assert!(replace_prompt_in_file(&out, "F", "new \"# text").is_none());
}

#[test]
fn prompts_beyond_ascii_keep_their_indent() {
    let src = "function F() { prompt #\"\n\u{3000}alt\n\"# }";
    let out = replace_prompt_in_file(src, "F", "größer\n\n  tiefer").unwrap();
    assert_eq!(out, "function F() { prompt #\"\n\u{3000}größer\n\n\u{3000}  tiefer\n\"# }");
}

#[test]
fn uniform_indentation_of_the_new_prompt_does_not_matter() {
    let src = "function F() {\n  prompt #\"\n    old\n  \"#\n}\n";
    let plain = replace_prompt_in_file(src, "F", "a\n  b\n\nc").unwrap();
    let shifted = replace_prompt_in_file(src, "F", "\t a\n\t   b\n\n\t c").unwrap();
    assert_eq!(plain, shifted);
    assert_eq!(plain, "function F() {\n  prompt #\"\n    a\n      b\n\n    c\n  \"#\n}\n");
}

#[test]
fn a_description_reads_back() {
    let src = "enum E {}\n\n\t/// old\n\t/// older\n\tclass Person<T> {}\n";
    let class = class_with_description("Person", "one\ntwo");
    let out = apply_class_description(src, &class).unwrap();
    assert_eq!(out, "enum E {}\n\n\t/// one\n\t/// two\n\tclass Person<T> {}\n");
    assert!(apply_class_description(&out, &class).is_none());
}

#[test]
fn a_class_without_description_is_left_alone() {
    let class = ClassDefinition { class_name: "P".into(), description: None, fields: vec![] };
    assert!(apply_class_description("class P {}", &class).is_none());
}

#[test]
fn prompt_and_descriptions_change_together() {
    let func = OptimizableFunction {
        function_name: "F".into(),
        prompt_text: "new".into(),
        classes: vec![class_with_description("A", "first"), class_with_description("B", "second")],
        enums: vec![],
        function_source: None,
    };
    let src = "class A {}\nfunction F() { prompt #\"old\"# }\n";
    assert_eq!(
        apply_prompt_change(src, &func).unwrap(),
        "/// first\nclass A {}\nfunction F() { prompt #\"new\"# }\n"
    );
    assert!(apply_prompt_change("class C {}\n", &func).is_none());
    assert_eq!(apply_prompt_change("class B {}\n", &func).unwrap(), "/// second\nclass B {}\n");
}

#[test]
fn files_that_do_not_declare_the_function_are_copied_unchanged() {
    let mut candidate = sample_candidate("new");
    candidate.function.classes.push(class_with_description("Foo", "A foo."));
    let sources = vec![
        file("foo.baml", "class Foo {}\n"),
        file("f.baml", "class Foo {}\nfunction ExtractSubject() { prompt #\"old\"# }\n"),
    ];
    let modified = Applier::new("/r".into()).generate_modified_files(&candidate, &sources);
    assert_eq!(modified[0].content, "class Foo {}\n");
    assert_eq!(
        modified[1].content,
        "/// A foo.\nclass Foo {}\nfunction ExtractSubject() { prompt #\"new\"# }\n"
    );
}

fn chars(text: &str) -> Vec<char> {
    text.chars().collect()
}

fn text(chars: Vec<char>) -> String {
    chars.into_iter().collect()
}

#[test]
fn the_prompt_of_another_function_is_never_touched() {
    let src = "function F(x: int) -> int { x }\n\
               function G() -> string { client C prompt #\"g\"# }";
    assert_eq!(replace_prompt_in_file(src, "F", "new"), None);
    assert_eq!(
        replace_prompt_in_file(src, "G", "new").as_deref(),
        Some(
            "function F(x: int) -> int { x }\n\
             function G() -> string { client C prompt #\"new\"# }"
        )
    );
    let src = "// function F { prompt #\"c\"# }\nfunction G { prompt #\"g\"# }";
    assert_eq!(replace_prompt_in_file(src, "F", "new"), None);
}

#[test]
fn the_prompt_is_looked_for_in_the_body() {
    let src = "function F(prompt: string) -> string {\n\
               \x20 // a brace {\n\
               \x20 client \"a}\\\"}\"\n\
               \x20 other ##\"} #\"no\"# \"##\n\
               \x20 prompt #\"{{ old }} }\"#\n\
               }";
    let out = replace_prompt_in_file(src, "F", "new").unwrap();
    assert_eq!(out, src.replace("{{ old }} }", "new"));
    let src = "function F { // prompt\n prompt #\"a\"# }";
    assert_eq!(replace_prompt_in_file(src, "F", "new"), None);
    let src = "function F { x #\"y\"#prompt #\"a\"# }";
    let out = replace_prompt_in_file(src, "F", "new").unwrap();
    assert_eq!(out, "function F { x #\"y\"#prompt #\"new\"# }");
    let s = chars("a / b { prompt } prompt");
    assert_eq!(find_keyword_in_block(&s, 0, &chars("prompt")), Some(8));
    assert_eq!(find_keyword_in_block(&s, 0, &chars("b")), None);
    assert_eq!(find_keyword_in_block(&s, 9, &chars("prompt")), None);
    assert_eq!(find_keyword_in_block(&s, 100, &chars("prompt")), None);
    assert_eq!(find_keyword_after(&s, 0, &chars("b")), Some(4));
    assert_eq!(find_keyword_after(&s, 9, &chars("prompt")), Some(17));
    assert_eq!(find_keyword_after(&s, 18, &chars("prompt")), None);
    assert_eq!(find_keyword_after(&s, 100, &chars("prompt")), None);
}

#[test]
fn braces_in_round_brackets_are_no_body() {
    let src = "function F() -> A @assert(ok, {{ this }}) { prompt #\"a\"# }";
    assert_eq!(
        replace_prompt_in_file(src, "F", "b").as_deref(),
        Some("function F() -> A @assert(ok, {{ this }}) { prompt #\"b\"# }")
    );
    let src = "function F(x: A @check(n, {{ f(this) }})) -> A { y }\nfunction G { prompt #\"g\"# }";
    assert_eq!(replace_prompt_in_file(src, "F", "b"), None);
}

#[test]
fn slashes_in_a_string_are_no_comment() {
    let class = class_with_description("A", "d");
    assert_eq!(
        apply_class_description("\"//\" class A", &class).as_deref(),
        Some("/// d\n\"//\" class A")
    );
    assert_eq!(find_function_start(&chars("\"//\" function F"), &chars("F")), Some(5));
    assert_eq!(find_function_start(&chars("// function F"), &chars("F")), Some(3));
    assert_eq!(find_function_start(&chars("// function Fx"), &chars("F")), None);
    let src = "\"http://x\" function F { prompt #\"a\"# }";
    assert_eq!(
        replace_prompt_in_file(src, "F", "b").as_deref(),
        Some("\"http://x\" function F { prompt #\"b\"# }")
    );
}

#[test]
fn a_file_that_mentions_the_function_is_changed() {
    let mut candidate = sample_candidate("p");
    candidate.function.function_name = "F".into();
    candidate.function.classes = vec![class_with_description("A", "d")];
    let sources = vec![file("a.baml", "// function F\nclass A"), file("b.baml", "class A")];
    let modified = Applier::new("/p".into()).generate_modified_files(&candidate, &sources);
    assert_eq!(modified[0].content, "// function F\n/// d\nclass A");
    assert_eq!(modified[1].content, "class A");
}

#[test]
fn a_raw_string_closes_at_the_same_number_of_hashes() {
    let s = chars("a\"b\"#c\"##");
    assert_eq!(find_raw_string_close(&s, 0, 2), Some(6));
    assert_eq!(find_raw_string_close(&s, 0, 1), Some(3));
    assert_eq!(find_raw_string_close(&s, 0, 0), Some(1));
    assert_eq!(find_raw_string_close(&s, 7, 1), None);
    assert_eq!(find_raw_string_close(&s, 9, 1), None);
    assert_eq!(find_raw_string_close(&s, 100, 1), None);
}

#[test]
fn a_comment_declares_no_class() {
    let class = class_with_description("Person", "A person.");
    assert_eq!(
        apply_class_description("/// The class Person.\nclass Person {\n}\n", &class).as_deref(),
        Some("/// A person.\nclass Person {\n}\n")
    );
    assert_eq!(apply_class_description("x // class Person {}\n", &class), None);
    assert_eq!(
        apply_class_description("enum E {} class Person {}\n", &class).as_deref(),
        Some("/// A person.\nenum E {} class Person {}\n")
    );
}

#[test]
fn a_description_that_names_the_class_is_applied_once() {
    let class = class_with_description("Person", "The\nclass Person\nof class Person");
    let out = apply_class_description("class Person {\n}\n", &class).unwrap();
    assert_eq!(out, "/// The\n/// class Person\n/// of class Person\nclass Person {\n}\n");
    assert_eq!(apply_class_description(&out, &class), None);
}

#[test]
fn rewriting_again_changes_nothing() {
    let src = "function F {\n  prompt #\"\n    old\n      text\n  \"#\n}";
    let new = "  a\n\n    b\n  c";
    let out = replace_prompt_in_file(src, "F", new).unwrap();
    assert_eq!(out, "function F {\n  prompt #\"\n    a\n\n      b\n    c\n  \"#\n}");
    assert_eq!(replace_prompt_in_file(&out, "F", new), None);
}

#[test]
fn an_old_line_restores_the_file() {
    let src = "function F { prompt #\"  old one \"# }";
    let out = replace_prompt_in_file(src, "F", "\tnew one").unwrap();
    assert_eq!(out, "function F { prompt #\"  new one\"# }");
    assert_eq!(replace_prompt_in_file(&out, "F", "  old one ").as_deref(), Some(src));
}

#[test]
fn stripping_undoes_indenting() {
    let plain = "a\n  b\n\n \nc";
    let more = indent_non_empty_lines(&chars(plain), &chars("\t "));
    assert_eq!(text(more.clone()), "\t a\n\t   b\n\n\t  \n\t c");
    assert_eq!(text(detect_common_indent(&more)), "\t ");
    assert_eq!(text(strip_common_indent(&more)), plain);
    assert_eq!(text(reindent_prompt(&chars("\n  x\n "), &more)), "\n  a\n    b\n\n   \n  c\n ");
}
