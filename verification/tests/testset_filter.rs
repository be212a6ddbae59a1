use baml_optimize::discovery::{DiscoveredTest, TestKind};
use baml_optimize::testset_filter::{
    check_ranges, find_definition, retain_tests_calling_function, NodeKind, ParsedFile, Site,
    Symbol, SyntaxNode,
};

fn node(kind: NodeKind, text: &str, start: usize, end: usize, children: Vec<SyntaxNode>) -> SyntaxNode {
    SyntaxNode { kind, text: text.to_string(), start, end, children }
}

fn literal(text: &str) -> SyntaxNode {
    node(NodeKind::StringLiteral, text, 0, 0, vec![])
}

fn other(children: Vec<SyntaxNode>) -> SyntaxNode {
    node(NodeKind::Other, "", 0, 0, children)
}

fn test_node(name: SyntaxNode, start: usize, end: usize) -> SyntaxNode {
    node(NodeKind::TestExprDef, "", start, end, vec![name, other(vec![])])
}

fn testset(name: SyntaxNode, mut inner: Vec<SyntaxNode>) -> SyntaxNode {
    let mut children = vec![name];
    children.append(&mut inner);
    node(NodeKind::TestsetDef, "", 0, 0, children)
}

fn file(text: &str, children: Vec<SyntaxNode>) -> ParsedFile {
    ParsedFile { text: text.to_string(), tree: other(children) }
}

fn function(name: &str) -> Symbol {
    Symbol { name: name.to_string(), container_name: None, is_function: true }
}

fn registered(path: &str) -> DiscoveredTest {
    DiscoveredTest {
        function_name: "F".into(),
        test_name: path.to_string(),
        testset_name: None,
        file_path: String::new(),
        kind: TestKind::Testset { full_path: path.to_string() },
        test_source: None,
    }
}

fn legacy(name: &str) -> DiscoveredTest {
    let mut test = registered(name);
    test.kind = TestKind::Legacy;
    test
}

fn retain(
    symbols: Vec<Symbol>,
    usages: Vec<Site>,
    files: Vec<ParsedFile>,
    tests: Vec<DiscoveredTest>,
) -> (Vec<(String, Option<String>)>, usize) {
    assert!(check_ranges(&symbols, &usages, &files, &tests, "F"));
    let (kept, dropped) = retain_tests_calling_function(&symbols, &usages, &files, tests, "F");
    (kept.into_iter().map(|t| (t.test_name, t.test_source)).collect(), dropped)
}

#[test]
fn tests_that_do_not_call_the_function_are_dropped() {
    let text = "0123456789abcdefghij";
    let tree = vec![other(vec![testset(
        literal("\"g\""),
        vec![
            test_node(literal("\"uses\""), 2, 6),
            test_node(other(vec![other(vec![literal("\"idle\"")])]), 8, 12),
            testset(literal("\"in\""), vec![test_node(literal("\"deep\""), 14, 20)]),
        ],
    )])];
    let usages = vec![
        Site { file: 0, start: 3, end: 6 },
        Site { file: 1, start: 9, end: 10 },
        Site { file: 0, start: 11, end: 13 },
        Site { file: 0, start: 14, end: 20 },
    ];
    let tests = vec![
        legacy("g/idle"),
        registered("g/uses"),
        registered("g/idle"),
        registered("g/in/deep"),
        registered("g/unknown"),
    ];
    let (kept, dropped) = retain(vec![function("F")], usages, vec![file(text, tree)], tests);
    assert_eq!(dropped, 1);
    assert_eq!(
        kept,
        vec![
            ("g/idle".to_string(), None),
            ("g/uses".to_string(), Some("2345".to_string())),
            ("g/in/deep".to_string(), Some("efghij".to_string())),
            ("g/unknown".to_string(), None),
        ]
    );
}

#[test]
fn without_the_function_every_test_stays() {
    let tree = vec![test_node(literal("\"t\""), 0, 1)];
    let method = Symbol { name: "F".into(), container_name: Some("C".into()), is_function: true };
    let class = Symbol { name: "F".into(), container_name: None, is_function: false };
    let (kept, dropped) = retain(
        vec![method, class, function("G")],
        vec![],
        vec![file("xyz", tree)],
        vec![registered("t"), legacy("u")],
    );
    assert_eq!(dropped, 0);
    assert_eq!(kept, vec![("t".to_string(), None), ("u".to_string(), None)]);
}

#[test]
fn tests_under_computed_names_stay() {
    let computed = other(vec![literal("\"a\""), other(vec![])]);
    let tree = vec![
        testset(computed, vec![test_node(literal("\"t\""), 0, 1)]),
        testset(other(vec![]), vec![test_node(literal("\"u\""), 0, 1)]),
        test_node(other(vec![literal("\"v\""), literal("\"w\"")]), 0, 1),
    ];
    let tests = vec![registered("t"), registered("a/t"), registered("u"), registered("v")];
    let (kept, dropped) = retain(vec![function("F")], vec![], vec![file("x", tree)], tests);
    assert_eq!((kept.len(), dropped), (4, 0));
}

#[test]
fn the_last_test_of_a_path_counts() {
    let first = file("ab", vec![test_node(literal("\"t\""), 0, 1)]);
    let second = file("cd", vec![test_node(literal("\"t\""), 1, 2)]);
    let usages = vec![Site { file: 1, start: 1, end: 2 }];
    let (kept, dropped) =
        retain(vec![function("F")], usages, vec![first, second], vec![registered("t")]);
    assert_eq!(dropped, 0);
    assert_eq!(kept, vec![("t".to_string(), Some("d".to_string()))]);
}

#[test]
fn ranges_count_bytes_and_may_end_outside_the_file() {
    let tree = vec![test_node(literal("\"t\""), 2, 5), test_node(literal("bare"), 0, 99)];
    let usages = vec![Site { file: 0, start: 3, end: 3 }];
    let (kept, _) = retain(
        vec![function("F")],
        usages,
        vec![file("é€", tree)],
        vec![registered("t"), registered("bare")],
    );
    assert_eq!(
        kept,
        vec![("t".to_string(), Some("€".to_string())), ("bare".to_string(), None)]
    );
}

#[test]
fn ranges_inside_a_character_are_noticed() {
    let usages = vec![Site { file: 0, start: 3, end: 3 }];
    let symbols = vec![function("F")];
    let files = vec![file("é€", vec![test_node(literal("\"t\""), 2, 4)])];
    let tests = vec![registered("t")];
    assert!(!check_ranges(&symbols, &usages, &files, &tests, "F"));
    assert!(check_ranges(&symbols, &vec![], &files, &tests, "F"));
    assert!(check_ranges(&symbols, &usages, &files, &tests, "G"));
}

#[test]
fn the_first_matching_definition_is_found() {
    let symbols = vec![function("G"), function("F"), function("F")];
    assert_eq!(find_definition(&symbols, "F"), Some(1));
    assert_eq!(find_definition(&symbols, "H"), None);
}
