use baml_optimize::schema_extractor::{
    collect_from_type, extract_optimizable_function, format_type, strip_string_literal, Attribute,
    Class, Collector, Enum, Field, Function, ItemTree, LlmMeta, TypeExpr, Variant,
};

fn path(name: &str) -> TypeExpr {
    TypeExpr::Path { segments: vec![name.to_string()], generic_args: vec![] }
}

fn optional(inner: TypeExpr) -> TypeExpr {
    TypeExpr::Optional { inner: Box::new(inner) }
}

fn list(inner: TypeExpr) -> TypeExpr {
    TypeExpr::List { inner: Box::new(inner) }
}

fn attribute(name: &str, arg: &str) -> Attribute {
    Attribute { name: name.to_string(), args: vec![arg.to_string()] }
}

fn field(name: &str, ty: TypeExpr) -> Field {
    Field { name: name.to_string(), type_expr: Some(ty), attributes: vec![] }
}

fn class(name: &str, fields: Vec<Field>) -> Class {
    Class { name: name.to_string(), fields, attributes: vec![] }
}

fn function(name: &str, ret: TypeExpr, prompt: &str) -> Function {
    Function {
        name: name.to_string(),
        params: vec![Some(TypeExpr::Text)],
        return_type: Some(ret),
        declarative_meta: Some(LlmMeta { prompt: Some(prompt.to_string()) }),
    }
}

fn person() -> Class {
    class("Person", vec![field("name", TypeExpr::Text), field("age", optional(TypeExpr::Int))])
}

#[test]
fn extracts_prompt_text_from_function() {
    let prompt = "\n              Extract the subject from this sentence: {{ sentence }}\n              {{ ctx.output_format }}\n              ";
    let items = ItemTree {
        classes: vec![person()],
        enums: vec![],
        functions: vec![function("ExtractSubject", optional(path("Person")), prompt)],
    };
    let f = extract_optimizable_function(&items, "ExtractSubject").unwrap();
    assert!(f.prompt_text.contains("Extract the subject from this sentence"));
    assert!(f.prompt_text.contains("{{ sentence }}"));
    assert!(f.prompt_text.contains("{{ ctx.output_format }}"));
}

#[test]
fn collects_referenced_class_from_return_type() {
    let items = ItemTree {
        classes: vec![person()],
        enums: vec![],
        functions: vec![function("ExtractSubject", optional(path("Person")), "p")],
    };
    let f = extract_optimizable_function(&items, "ExtractSubject").unwrap();
    assert_eq!(f.classes.len(), 1);
    let person = &f.classes[0];
    assert_eq!(person.class_name, "Person");
    assert_eq!(person.fields.len(), 2);
    assert_eq!(person.fields[0].field_name, "name");
    assert_eq!(person.fields[0].field_type, "string");
    assert_eq!(person.fields[1].field_name, "age");
    assert_eq!(person.fields[1].field_type, "int?");
}

#[test]
fn extracts_field_descriptions_and_aliases() {
    let mut name = field("name", TypeExpr::Text);
    name.attributes.push(attribute("description", "\"The person's given name\""));
    name.attributes.push(attribute("alias", "\"full_name\""));
    let mut age = field("age", optional(TypeExpr::Int));
    age.attributes.push(attribute("description", "\"Age in years\""));
    let items = ItemTree {
        classes: vec![class("Person", vec![name, age])],
        enums: vec![],
        functions: vec![function("ExtractSubject", path("Person"), "p")],
    };
    let f = extract_optimizable_function(&items, "ExtractSubject").unwrap();
    let person = &f.classes[0];
    assert_eq!(
        person.fields[0].description.as_deref(),
        Some("The person's given name")
    );
    assert_eq!(person.fields[0].alias.as_deref(), Some("full_name"));
    assert_eq!(person.fields[1].description.as_deref(), Some("Age in years"));
}

#[test]
fn collects_referenced_enum_with_variant_descriptions() {
    let items = ItemTree {
        classes: vec![],
        enums: vec![Enum {
            name: "Mood".to_string(),
            variants: vec![
                Variant {
                    name: "Happy".to_string(),
                    attributes: vec![attribute("description", "\"feeling good\"")],
                },
                Variant { name: "Sad".to_string(), attributes: vec![] },
            ],
        }],
        functions: vec![function("Classify", path("Mood"), "p")],
    };
    let f = extract_optimizable_function(&items, "Classify").unwrap();
    assert_eq!(f.enums.len(), 1);
    let mood = &f.enums[0];
    assert_eq!(mood.enum_name, "Mood");
    assert_eq!(mood.values, vec!["Happy".to_string(), "Sad".to_string()]);
    assert_eq!(mood.value_descriptions, vec![("Happy".to_string(), "feeling good".to_string())]);
}

#[test]
fn recurses_into_nested_types() {
    let items = ItemTree {
        classes: vec![
            class("Owner", vec![field("pet", path("Pet"))]),
            class("Pet", vec![field("name", TypeExpr::Text)]),
        ],
        enums: vec![],
        functions: vec![function("GetOwner", path("Owner"), "p")],
    };
    let f = extract_optimizable_function(&items, "GetOwner").unwrap();
    let names: Vec<&str> = f.classes.iter().map(|c| c.class_name.as_str()).collect();
    assert!(names.contains(&"Owner"));
    assert!(names.contains(&"Pet"));
}

#[test]
fn handles_lists_and_optionals() {
    let items = ItemTree {
        classes: vec![class("Item", vec![field("name", TypeExpr::Text)])],
        enums: vec![],
        functions: vec![function("List", optional(list(path("Item"))), "p")],
    };
    let f = extract_optimizable_function(&items, "List").unwrap();
    assert_eq!(f.classes.len(), 1);
    assert_eq!(f.classes[0].class_name, "Item");
}

#[test]
fn missing_function_returns_error() {
    let items = ItemTree {
        classes: vec![class("C", vec![field("x", TypeExpr::Int)])],
        enums: vec![],
        functions: vec![],
    };
    let err = extract_optimizable_function(&items, "Nope").unwrap_err();
    assert!(err.message().contains("Nope"));
    assert_eq!(err.message(), "function 'Nope' not found");
}

#[test]
fn strip_string_literal_handles_escapes() {
    assert_eq!(strip_string_literal(r#""hello""#).as_deref(), Some("hello"));
    assert_eq!(
        strip_string_literal(r#""a\"b""#).as_deref(),
        Some("a\"b")
    );
    assert_eq!(strip_string_literal(r#""line\nbreak""#).as_deref(), Some("line\nbreak"));
    assert_eq!(strip_string_literal("no-quotes"), None);
}

#[test]
fn literals_at_the_edge() {
    assert_eq!(strip_string_literal("\""), None);
    assert_eq!(strip_string_literal("\"\"").as_deref(), Some(""));
    assert_eq!(strip_string_literal("\"a"), None);
    assert_eq!(strip_string_literal(r#""\\ \t \q""#).as_deref(), Some("\\ \\t \\q"));
    assert_eq!(strip_string_literal(r#""a\tb""#).as_deref(), Some(r"a\tb"));
    assert_eq!(strip_string_literal("\"ab\\\"").as_deref(), Some("ab\\"));
}

#[test]
fn types_are_written_short() {
    let map = TypeExpr::Mapping { key: Box::new(TypeExpr::Text), value: Box::new(TypeExpr::Int) };
    assert_eq!(format_type(&map), "map<string, int>");
    let generic = TypeExpr::Path {
        segments: vec!["a".into(), "B".into()],
        generic_args: vec![TypeExpr::Bool, list(TypeExpr::Null)],
    };
    assert_eq!(format_type(&generic), "a.B<bool, null[]>");
    let union = TypeExpr::Union { variants: vec![path("X"), optional(TypeExpr::Float)] };
    assert_eq!(format_type(&union), "X | float?");
    assert_eq!(format_type(&TypeExpr::Media { kind: "Image".into() }), "image");
    assert_eq!(format_type(&TypeExpr::Literal { text: "String(\"a\")".into() }), "String(\"a\")");
    let function = TypeExpr::Function { params: vec![], ret: Box::new(TypeExpr::Void) };
    assert_eq!(format_type(&function), "function");
    assert_eq!(format_type(&TypeExpr::Never), "never");
    assert_eq!(format_type(&TypeExpr::Void), "void");
    assert_eq!(format_type(&TypeExpr::Uint8Array), "Uint8Array");
    assert_eq!(format_type(&TypeExpr::BuiltinUnknown), "unknown");
    assert_eq!(format_type(&TypeExpr::Unknown), "unknown");
    assert_eq!(format_type(&TypeExpr::Type), "type");
    assert_eq!(format_type(&TypeExpr::Rust), "rust");
    assert_eq!(format_type(&TypeExpr::Error), "<error>");
}

#[test]
fn each_reachable_type_is_collected_once_inner_types_first() {
    let function_type =
        TypeExpr::Function { params: vec![path("C")], ret: Box::new(path("Mood")) };
    let pair = TypeExpr::Path {
        segments: vec!["builtin".into(), "Pair".into()],
        generic_args: vec![path("B"), path("A")],
    };
    let mut untyped = field("u", TypeExpr::Int);
    untyped.type_expr = None;
    let items = ItemTree {
        classes: vec![
            class("A", vec![field("next", optional(path("A"))), field("b", path("B"))]),
            class("B", vec![field("a", list(path("A"))), field("f", function_type)]),
            class("C", vec![untyped]),
            class("Unused", vec![]),
            class("A", vec![]),
        ],
        enums: vec![
            Enum { name: "Mood".into(), variants: vec![] },
            Enum { name: "A".into(), variants: vec![] },
        ],
        functions: vec![Function {
            name: "F".into(),
            params: vec![None, Some(pair)],
            return_type: Some(path("Missing")),
            declarative_meta: None,
        }],
    };
    let f = extract_optimizable_function(&items, "F").unwrap();
    assert_eq!(f.prompt_text, "");
    let names: Vec<&str> = f.classes.iter().map(|c| c.class_name.as_str()).collect();
    assert_eq!(names, vec!["A", "C", "B"]);
    assert_eq!(f.classes[0].fields.len(), 2);
    assert_eq!(f.classes[1].fields[0].field_type, "unknown");
    let enums: Vec<&str> = f.enums.iter().map(|e| e.enum_name.as_str()).collect();
    assert_eq!(enums, vec!["Mood"]);
}

#[test]
fn the_last_function_of_a_name_and_the_first_attribute_count() {
    let mut described = class("C", vec![]);
    described.attributes.push(attribute("description", "\"first\""));
    described.attributes.push(attribute("description", "\"second\""));
    let items = ItemTree {
        classes: vec![described],
        enums: vec![],
        functions: vec![function("F", TypeExpr::Int, "one"), function("F", path("C"), "two")],
    };
    let f = extract_optimizable_function(&items, "F").unwrap();
    assert_eq!(f.prompt_text, "two");
    assert_eq!(f.classes[0].description.as_deref(), Some("first"));
}

#[test]
fn a_value_that_occurs_twice_is_described_once() {
    let variant = |description: &str| Variant {
        name: "V".to_string(),
        attributes: vec![attribute("description", description)],
    };
    let items = ItemTree {
        classes: vec![],
        enums: vec![Enum {
            name: "E".to_string(),
            variants: vec![variant("\"one\""), variant("two"), variant("\"three\"")],
        }],
        functions: vec![function("F", path("E"), "p")],
    };
    let f = extract_optimizable_function(&items, "F").unwrap();
    assert_eq!(f.enums[0].values, vec!["V", "V", "V"]);
    assert_eq!(f.enums[0].value_descriptions, vec![("V".to_string(), "three".to_string())]);
}

#[test]
fn collecting_again_changes_nothing() {
    let items = ItemTree {
        classes: vec![
            class("A", vec![field("b", list(path("B"))), field("c", path("Color"))]),
            class("B", vec![field("a", optional(path("A")))]),
        ],
        enums: vec![Enum { name: "Color".into(), variants: vec![] }],
        functions: vec![],
    };
    let mut out = Collector { classes: vec![], enums: vec![], entered: vec![] };
    let names = |out: &Collector| {
        let classes: Vec<String> = out.classes.iter().map(|c| c.class_name.clone()).collect();
        let enums: Vec<String> = out.enums.iter().map(|e| e.enum_name.clone()).collect();
        (classes, enums)
    };
    collect_from_type(&path("B"), &items, &mut out);
    let once = names(&out);
    assert_eq!(once, (vec!["A".to_string(), "B".to_string()], vec!["Color".to_string()]));
    collect_from_type(&path("B"), &items, &mut out);
    collect_from_type(&path("A"), &items, &mut out);
    assert_eq!(names(&out), once);
    // What stands there already need not be of the project.
    let other = Collector { classes: out.classes, enums: vec![], entered: vec!["Z".into()] };
    let mut out = Collector { classes: vec![], ..other };
    collect_from_type(&path("B"), &items, &mut out);
    assert_eq!(names(&out), once);
    assert_eq!(out.entered, vec!["Z", "B", "A"]);
}
