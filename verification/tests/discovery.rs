use baml_optimize::discovery::{
    discover_all_tests, group_by_testset, DiscoveredTest, TestFile, TestItem, TestKind,
};
use baml_optimize::engine_build::{collect_errors, compilation_failure, take_first, Diagnostic};
use baml_optimize::workspace::{
    discover_baml_files, has_baml_extension, should_traverse, WalkedEntry,
};

fn item(name: &str, refs: &[&str]) -> TestItem {
    TestItem {
        name: name.to_string(),
        function_refs: refs.iter().map(|r| r.to_string()).collect(),
    }
}

fn discovered(function: &str, test: &str, testset: Option<&str>) -> DiscoveredTest {
    DiscoveredTest {
        function_name: function.to_string(),
        test_name: test.to_string(),
        testset_name: testset.map(ToString::to_string),
        file_path: "f.baml".to_string(),
        kind: TestKind::Legacy,
        test_source: None,
    }
}

fn names(tests: &Vec<DiscoveredTest>) -> Vec<(&str, &str, &str)> {
    tests
        .iter()
        .map(|t| (t.function_name.as_str(), t.test_name.as_str(), t.file_path.as_str()))
        .collect()
}

fn entry(path: &str, depth: usize, is_file: bool) -> WalkedEntry {
    WalkedEntry {
        path: path.to_string(),
        name: path.rsplit('/').next().unwrap_or("").to_string(),
        depth,
        is_dir: !is_file,
        is_file,
    }
}

#[test]
fn tests_are_found_once_for_each_function() {
    let files = vec![
        TestFile {
            path: "a.baml".into(),
            tests: vec![item("T", &["F", "", "G", "F"]), item("U", &["F"])],
        },
        TestFile { path: "b.baml".into(), tests: vec![item("T", &["F", "H"])] },
    ];
    let tests = discover_all_tests(&files, &vec![]);
    assert_eq!(
        names(&tests),
        vec![
            ("F", "T", "a.baml"),
            ("G", "T", "a.baml"),
            ("F", "U", "a.baml"),
            ("H", "T", "b.baml"),
        ]
    );
    assert!(tests.iter().all(|t| t.testset_name.is_none()));
    assert!(tests.iter().all(|t| t.test_source.is_none()));
    assert!(tests.iter().all(|t| matches!(t.kind, TestKind::Legacy)));
}

#[test]
fn the_filter_matches_parts_of_function_names() {
    let files = vec![TestFile {
        path: "a.baml".into(),
        tests: vec![item("T", &["ExtractName", "Classify", "Name"])],
    }];
    let tests = discover_all_tests(&files, &vec!["Name".to_string(), "zz".to_string()]);
    assert_eq!(names(&tests), vec![("ExtractName", "T", "a.baml"), ("Name", "T", "a.baml")]);
    assert!(discover_all_tests(&files, &vec!["name".to_string()]).is_empty());
    assert_eq!(discover_all_tests(&files, &vec![String::new()]).len(), 3);
}

#[test]
fn tests_group_by_testset_with_a_default() {
    let tests = vec![
        discovered("F", "1", Some("b")),
        discovered("F", "2", None),
        discovered("F", "3", Some("b")),
        discovered("F", "4", Some("default")),
    ];
    let groups = group_by_testset(&tests);
    let groups: Vec<(&str, Vec<&str>)> = groups
        .iter()
        .map(|(name, tests)| {
            (name.as_str(), tests.iter().map(|t| t.test_name.as_str()).collect())
        })
        .collect();
    assert_eq!(groups, vec![("b", vec!["1", "3"]), ("default", vec!["2", "4"])]);
    assert!(group_by_testset(&vec![]).is_empty());
}

#[test]
fn baml_files_are_found_and_sorted() {
    let entries = vec![
        entry("/p", 0, false),
        entry("/p/test2.baml", 1, true),
        entry("/p/dir.baml", 1, false),
        entry("/p/test1.baml", 1, true),
        entry("/p/notes.txt", 1, true),
        entry("/p/.baml", 1, true),
    ];
    let files = discover_baml_files(&entries);
    assert_eq!(files.len(), 2);
    assert_eq!(files, vec!["/p/test1.baml", "/p/test2.baml"]);
}

#[test]
fn hidden_subtrees_are_fully_pruned() {
    let entries = vec![
        entry("/.p", 0, false),
        entry("/.p/.baml_optimize", 1, false),
        entry("/.p/.baml_optimize/candidates", 2, false),
        entry("/.p/.baml_optimize/candidates/c0.baml", 3, true),
        entry("/.p/.baml_optimize/candidates/c1.baml", 3, true),
        entry("/.p/.baml_optimize/c2.baml", 2, true),
        entry("/.p/visible.baml", 1, true),
    ];
    assert_eq!(discover_baml_files(&entries), vec!["/.p/visible.baml"]);
}

#[test]
fn generated_subtrees_are_fully_pruned() {
    let entries = vec![
        entry("/p", 0, false),
        entry("/p/node_modules", 1, false),
        entry("/p/node_modules/pkg", 2, false),
        entry("/p/node_modules/pkg/skip.baml", 3, true),
        entry("/p/keep.baml", 1, true),
        entry("/p/sub", 1, false),
        entry("/p/sub/target", 2, false),
        entry("/p/sub/target/deps", 3, false),
        entry("/p/sub/target/deps/skip.baml", 4, true),
        entry("/p/sub/target.baml", 2, true),
    ];
    assert_eq!(discover_baml_files(&entries), vec!["/p/keep.baml", "/p/sub/target.baml"]);
}

#[test]
fn hidden_and_generated_directories_are_pruned() {
    assert!(should_traverse(0, true, ".baml_src"));
    assert!(should_traverse(0, true, "target"));
    assert!(!should_traverse(1, true, ".baml_optimize"));
    assert!(!should_traverse(2, true, "node_modules"));
    assert!(!should_traverse(3, true, "target"));
    assert!(should_traverse(1, true, "targets"));
    assert!(should_traverse(1, true, ""));
    assert!(should_traverse(1, false, ".hidden.baml"));
    assert!(should_traverse(1, false, "target"));
}

#[test]
fn the_extension_is_that_of_the_last_component() {
    for path in [
        "a.baml", "a.b.baml", "/x/a.baml", "a.baml/", "a.baml/.", "a.baml/..", ".baml", "..baml",
        "a.BAML", "baml", "a.baml.txt", "x.baml/a", "", "/", "..", "a.", "é.baml", "a.baml//",
    ] {
        let want =
            std::path::Path::new(path).extension().and_then(|s| s.to_str()) == Some("baml");
        assert_eq!(has_baml_extension(path), want, "{path:?}");
    }
}

#[test]
fn only_errors_fail_a_compilation() {
    let warning = Diagnostic { is_error: false, message: "w".into() };
    assert!(compilation_failure(&vec![warning]).is_none());
    assert!(compilation_failure(&vec![]).is_none());
    let diagnostics = vec![
        Diagnostic { is_error: true, message: "a".into() },
        Diagnostic { is_error: false, message: "w".into() },
        Diagnostic { is_error: true, message: "b".into() },
    ];
    assert_eq!(collect_errors(&diagnostics), vec!["a", "b"]);
    assert_eq!(
        compilation_failure(&diagnostics).unwrap(),
        "compilation failed (2 error(s)): a; b"
    );
}

#[test]
fn at_most_ten_errors_are_listed() {
    let many = |n: usize| -> Vec<Diagnostic> {
        (0..n).map(|i| Diagnostic { is_error: true, message: format!("e{i}") }).collect()
    };
    assert_eq!(
        compilation_failure(&many(10)).unwrap(),
        "compilation failed (10 error(s)): e0; e1; e2; e3; e4; e5; e6; e7; e8; e9"
    );
    assert_eq!(
        compilation_failure(&many(12)).unwrap(),
        "compilation failed (12 error(s)): e0; e1; e2; e3; e4; e5; e6; e7; e8; e9 ... and 2 more"
    );
    let words = vec!["a".to_string(), "b".to_string()];
    assert_eq!(take_first(&words, 1), vec!["a"]);
    assert_eq!(take_first(&words, 5), vec!["a", "b"]);
}
