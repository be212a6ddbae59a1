//! Filter testset tests to the ones that actually call a target function.
//!
//! A project may define testsets that exercise other functions than the one
//! that is being optimised; running those would be wasted work and drag the
//! accuracy score with irrelevant tests.
//!
//! A test `testset "g" { test "t" { ... } }` is known by its path `g/t`, read
//! off the syntax trees where every name is a string literal. It is relevant
//! if a use of the target function lies inside its range.
//!
//! Tests whose path cannot be read off (a testset named by a loop variable)
//! are kept: nothing shows that they do not call the target.
//!
//! Ranges count bytes.

use vstd::prelude::*;
use vstd::string::*;
use vstd::utf8::*;

use crate::assoc::{find_key, lookup, put, put_pair};
use crate::discovery::{DiscoveredTest, TestKind, TestKindModel, TestModel};
use crate::text::{chars_of, same_text, string_of};

verus! {

// ---------------------------------------------------------------------------
// Syntax trees
// ---------------------------------------------------------------------------

/// The kinds of syntax nodes that the filter tells apart.
#[derive(Clone, Copy, Debug, PartialEq, Eq, Structural)]
pub enum NodeKind {
    TestsetDef,
    TestExprDef,
    StringLiteral,
    Other,
}

/// A node of a syntax tree: its text, its range in the file and its child
/// nodes.
#[derive(Debug)]
pub struct SyntaxNode {
    pub kind: NodeKind,
    pub text: String,
    pub start: usize,
    pub end: usize,
    pub children: Vec<SyntaxNode>,
}

/// A source file with the syntax tree of its text.
#[derive(Debug)]
pub struct ParsedFile {
    pub text: String,
    pub tree: SyntaxNode,
}

/// A symbol of the project.
#[derive(Debug)]
pub struct Symbol {
    pub name: String,
    pub container_name: Option<String>,
    pub is_function: bool,
}

/// A range in a file, by the file's place among the project's files.
#[derive(Clone, Copy, Debug, PartialEq, Eq, Structural)]
pub struct Site {
    pub file: usize,
    pub start: usize,
    pub end: usize,
}

impl DeepView for Site {
    type V = Site;

    open spec fn deep_view(&self) -> Site {
        *self
    }
}

// ---------------------------------------------------------------------------
// Names
// ---------------------------------------------------------------------------

/// A text without the quotes around it, where it has them.
pub open spec fn unquoted(s: Seq<char>) -> Seq<char> {
    if s.len() >= 2 && s[0] == '"' && s.last() == '"' {
        s.subrange(1, s.len() - 1)
    } else {
        s
    }
}

/// Strips the quotes around a text, where it has them.
fn strip_quotes(s: &str) -> (r: String)
    ensures
        r@ == unquoted(s@),
{
    let v = chars_of(s);
    if v.len() >= 2 && v[0] == '"' && v[v.len() - 1] == '"' {
        string_of(&v, 1, v.len() - 1)
    } else {
        String::from_str(s)
    }
}

/// The contents of the string literal that is all there is to a node, through
/// any number of nodes with one child.
pub open spec fn sole_literal(node: SyntaxNode) -> Option<Seq<char>>
    decreases node,
{
    if node.kind == NodeKind::StringLiteral {
        Some(unquoted(node.text@))
    } else if node.children@.len() == 1 {
        sole_literal(node.children@[0])
    } else {
        None
    }
}

/// Finds the string literal that is the *sole* expression content of `node`
/// and returns its text without quotes.
fn first_string_literal(node: &SyntaxNode) -> (r: Option<String>)
    ensures
        r.deep_view() == sole_literal(*node),
    decreases node,
{
    if node.kind == NodeKind::StringLiteral {
        return Some(strip_quotes(node.text.as_str()));
    }
    if node.children.len() == 1 {
        return first_string_literal(&node.children[0]);
    }
    None
}

/// The name of a test or testset: the string literal that its first child is.
pub open spec fn literal_name(node: SyntaxNode) -> Option<Seq<char>> {
    if node.children@.len() == 0 {
        None
    } else {
        sole_literal(node.children@[0])
    }
}

/// Pulls a string literal's contents out of the first child of a test or
/// testset node. Returns `None` if the name is anything other than a single
/// bare string literal (e.g. `"a" + b`, `topic`, `count.to_string()`).
fn extract_name_literal(node: &SyntaxNode) -> (r: Option<String>)
    ensures
        r.deep_view() == literal_name(*node),
{
    if node.children.len() == 0 {
        None
    } else {
        first_string_literal(&node.children[0])
    }
}

// ---------------------------------------------------------------------------
// Paths
// ---------------------------------------------------------------------------

/// A path one name longer.
pub open spec fn path_join(prefix: Seq<char>, name: Seq<char>) -> Seq<char> {
    if prefix.len() == 0 {
        name
    } else {
        prefix + "/"@ + name
    }
}

/// A path one name longer.
fn join_names(prefix: &str, name: &str) -> (r: String)
    ensures
        r@ == path_join(prefix@, name@),
{
    if prefix.is_empty() {
        String::from_str(name)
    } else {
        let mut out = String::from_str(prefix);
        out.append("/");
        out.append(name);
        out
    }
}

/// The paths of the tests below some nodes, added to `before`; the last test
/// of a path counts. `prefix` is the path of the testsets around the nodes.
/// What is below a testset without a literal name has no path.
pub open spec fn static_paths(
    nodes: Seq<SyntaxNode>,
    file: usize,
    prefix: Seq<char>,
    before: Seq<(Seq<char>, Site)>,
) -> Seq<(Seq<char>, Site)>
    decreases nodes,
{
    if nodes.len() == 0 {
        before
    } else {
        let front = static_paths(nodes.drop_last(), file, prefix, before);
        let node = nodes.last();
        match node.kind {
            NodeKind::TestsetDef => match literal_name(node) {
                Some(name) => static_paths(node.children@, file, path_join(prefix, name), front),
                None => front,
            },
            NodeKind::TestExprDef => match literal_name(node) {
                Some(name) => put(
                    front,
                    path_join(prefix, name),
                    Site { file, start: node.start, end: node.end },
                ),
                None => front,
            },
            _ => static_paths(node.children@, file, prefix, front),
        }
    }
}

/// Walks nodes recursively and populates `out` with every test that is named
/// by string literals, keyed by its full slash-joined path.
fn collect_static_test_paths(
    nodes: &Vec<SyntaxNode>,
    file: usize,
    prefix: &str,
    out: &mut Vec<(String, Site)>,
)
    ensures
        final(out).deep_view() == static_paths(nodes@, file, prefix@, old(out).deep_view()),
    decreases nodes,
{
    let ghost start = out.deep_view();
    let mut k: usize = 0;
    proof {
        assert(nodes@.take(0) =~= Seq::<SyntaxNode>::empty());
    }
    while k < nodes.len()
        invariant
            k <= nodes.len(),
            out.deep_view() == static_paths(nodes@.take(k as int), file, prefix@, start),
        decreases nodes.len() - k,
    {
        let node = &nodes[k];
        proof {
            assert(nodes@.take(k + 1).drop_last() =~= nodes@.take(k as int));
            assert(nodes@.take(k + 1).last() == *node);
        }
        match node.kind {
            NodeKind::TestsetDef => {
                match extract_name_literal(node) {
                    Some(name) => {
                        let inner = join_names(prefix, name.as_str());
                        collect_static_test_paths(&node.children, file, inner.as_str(), out);
                    },
                    None => {},
                }
            },
            NodeKind::TestExprDef => {
                match extract_name_literal(node) {
                    Some(name) => {
                        let path = join_names(prefix, name.as_str());
                        put_pair(out, path, Site { file, start: node.start, end: node.end });
                    },
                    None => {},
                }
            },
            _ => {
                collect_static_test_paths(&node.children, file, prefix, out);
            },
        }
        k = k + 1;
    }
    assert(nodes@.take(nodes@.len() as int) =~= nodes@);
}

/// The paths of the tests of all files, each file by its place.
pub open spec fn project_paths(files: Seq<ParsedFile>) -> Seq<(Seq<char>, Site)>
    decreases files.len(),
{
    if files.len() == 0 {
        Seq::empty()
    } else {
        static_paths(
            files.last().tree.children@,
            (files.len() - 1) as usize,
            Seq::empty(),
            project_paths(files.drop_last()),
        )
    }
}

/// Reads off the paths of all tests that have one.
fn all_static_paths(files: &Vec<ParsedFile>) -> (r: Vec<(String, Site)>)
    ensures
        r.deep_view() == project_paths(files@),
{
    let mut out: Vec<(String, Site)> = Vec::new();
    let mut k: usize = 0;
    proof {
        reveal_strlit("");
        assert(""@ =~= Seq::<char>::empty());
        assert(files@.take(0) =~= Seq::<ParsedFile>::empty());
        assert(out.deep_view() =~= Seq::<(Seq<char>, Site)>::empty());
    }
    while k < files.len()
        invariant
            k <= files.len(),
            ""@ == Seq::<char>::empty(),
            out.deep_view() == project_paths(files@.take(k as int)),
        decreases files.len() - k,
    {
        proof {
            assert(files@.take(k + 1).drop_last() =~= files@.take(k as int));
            assert(files@.take(k + 1).last() == files@[k as int]);
        }
        collect_static_test_paths(&files[k].tree.children, k, "", &mut out);
        k = k + 1;
    }
    assert(files@.take(files@.len() as int) =~= files@);
    out
}

// ---------------------------------------------------------------------------
// Source text
// ---------------------------------------------------------------------------

/// The bytes `start..end` of a text are whole characters of it.
pub open spec fn sliceable(text: Seq<char>, start: int, end: int) -> bool {
    &&& start <= end <= encode_utf8(text).len()
    &&& is_char_boundary(encode_utf8(text), start)
    &&& is_char_boundary(encode_utf8(text), end)
}

/// The bytes `start..end` of a text, as text.
pub open spec fn byte_range(text: Seq<char>, start: int, end: int) -> Seq<char> {
    decode_utf8(encode_utf8(text).subrange(start, end))
}

/// The bytes `start..end` of a text, as text.
fn byte_slice(text: &str, start: usize, end: usize) -> (r: String)
    requires
        sliceable(text@, start as int, end as int),
    ensures
        r@ == byte_range(text@, start as int, end as int),
{
    let ghost bytes = encode_utf8(text@);
    let (_, rest) = text.split_at(start);
    proof {
        encode_utf8_valid_utf8(text@);
        encode_utf8_valid_utf8(rest@);
        assert(rest.spec_bytes() =~= bytes.subrange(start as int, bytes.len() as int));
        if end < bytes.len() {
            is_char_boundary_iff_not_is_continuation_byte(bytes, end as int);
            is_char_boundary_iff_not_is_continuation_byte(rest.spec_bytes(), end - start);
        } else {
            is_char_boundary_start_end_of_seq(rest.spec_bytes());
        }
    }
    let (piece, _) = rest.split_at(end - start);
    proof {
        assert(piece.spec_bytes() =~= bytes.subrange(start as int, end as int));
        encode_utf8_decode_utf8(piece@);
    }
    String::from_str(piece)
}

// ---------------------------------------------------------------------------
// Filtering
// ---------------------------------------------------------------------------

/// Holds at the top-level functions of that name.
pub open spec fn defines(symbols: Seq<Symbol>, target: Seq<char>) -> spec_fn(int) -> bool {
    |i: int|
        symbols[i].name@ == target && symbols[i].container_name is None && symbols[i].is_function
}

/// Where the target function stands among the symbols.
pub open spec fn definition(symbols: Seq<Symbol>, target: Seq<char>) -> Option<int> {
    crate::text::first_in(defines(symbols, target), 0, symbols.len() as int)
}

/// Finds the top-level function with exactly this name.
pub fn find_definition(symbols: &Vec<Symbol>, target: &str) -> (r: Option<usize>)
    ensures
        crate::text::position(r) == definition(symbols@, target@),
        r is None <==> forall|j: int|
            0 <= j < symbols@.len() ==> !((#[trigger] symbols@[j]).name@ == target@
                && symbols@[j].container_name is None && symbols@[j].is_function),
        r matches Some(i) ==> i < symbols@.len() && symbols@[i as int].name@ == target@
            && symbols@[i as int].container_name is None && symbols@[i as int].is_function
            && forall|j: int|
            0 <= j < i ==> !((#[trigger] symbols@[j]).name@ == target@
                && symbols@[j].container_name is None && symbols@[j].is_function),
{
    let ghost p = defines(symbols@, target@);
    let mut i: usize = 0;
    while i < symbols.len()
        invariant
            i <= symbols.len(),
            p == defines(symbols@, target@),
            forall|j: int| 0 <= j < i ==> !#[trigger] p(j),
            forall|j: int|
                0 <= j < i ==> !((#[trigger] symbols@[j]).name@ == target@
                    && symbols@[j].container_name is None && symbols@[j].is_function),
        decreases symbols.len() - i,
    {
        if same_text(symbols[i].name.as_str(), target) && symbols[i].container_name.is_none()
            && symbols[i].is_function {
            proof {
                assert(p(i as int));
                crate::text::lemma_seek_is(p, 0, symbols@.len() as int, i as int);
            }
            return Some(i);
        }
        assert(!p(i as int));
        i = i + 1;
    }
    proof {
        crate::text::lemma_seek_is(p, 0, symbols@.len() as int, i as int);
    }
    None
}

/// The second range lies inside the first.
pub open spec fn covers(outer: Site, inner: Site) -> bool {
    outer.file == inner.file && outer.start <= inner.start && inner.end <= outer.end
}

/// A use of the target lies inside the site.
pub open spec fn used_in(site: Site, usages: Seq<Site>) -> bool {
    exists|i: int| 0 <= i < usages.len() && covers(site, #[trigger] usages[i])
}

/// Whether the second range lies inside the first.
fn range_contains_range(outer: &Site, inner: &Site) -> (r: bool)
    ensures
        r == (outer.start <= inner.start && inner.end <= outer.end),
{
    outer.start <= inner.start && inner.end <= outer.end
}

/// Whether a use of the target lies inside the site.
fn is_used_in(site: &Site, usages: &Vec<Site>) -> (r: bool)
    ensures
        r == used_in(*site, usages@),
{
    let mut i: usize = 0;
    while i < usages.len()
        invariant
            i <= usages.len(),
            forall|j: int| 0 <= j < i ==> !covers(*site, #[trigger] usages@[j]),
        decreases usages.len() - i,
    {
        if usages[i].file == site.file && range_contains_range(site, &usages[i]) {
            assert(covers(*site, usages@[i as int]));
            return true;
        }
        i = i + 1;
    }
    false
}

/// A test stays: one that lists its functions, one without a known site, or
/// one with a use of the target inside its site.
pub open spec fn stays(
    test: TestModel,
    paths: Seq<(Seq<char>, Site)>,
    usages: Seq<Site>,
) -> bool {
    match test.kind {
        TestKindModel::Legacy => true,
        TestKindModel::Testset { full_path } => match lookup(paths, full_path) {
            Some(site) => used_in(site, usages),
            None => true,
        },
    }
}

/// A test with the source text of its site, where that is known and lies
/// inside the file.
pub open spec fn with_source(
    test: TestModel,
    paths: Seq<(Seq<char>, Site)>,
    files: Seq<ParsedFile>,
) -> TestModel {
    match test.kind {
        TestKindModel::Legacy => test,
        TestKindModel::Testset { full_path } => match lookup(paths, full_path) {
            Some(site) => if site.end <= encode_utf8(files[site.file as int].text@).len() {
                TestModel {
                    test_source: Some(
                        byte_range(
                            files[site.file as int].text@,
                            site.start as int,
                            site.end as int,
                        ),
                    ),
                    ..test
                }
            } else {
                test
            },
            None => test,
        },
    }
}

/// The tests that stay, with their sources.
pub open spec fn retained(
    tests: Seq<TestModel>,
    paths: Seq<(Seq<char>, Site)>,
    usages: Seq<Site>,
    files: Seq<ParsedFile>,
) -> Seq<TestModel>
    decreases tests.len(),
{
    if tests.len() == 0 {
        Seq::empty()
    } else {
        let front = retained(tests.drop_last(), paths, usages, files);
        if stays(tests.last(), paths, usages) {
            front.push(with_source(tests.last(), paths, files))
        } else {
            front
        }
    }
}

/// A range that ends inside its file is made of whole characters.
pub open spec fn fits(site: Site, files: Seq<ParsedFile>) -> bool {
    let text = files[site.file as int].text@;
    site.end <= encode_utf8(text).len() ==> sliceable(text, site.start as int, site.end as int)
}

/// The source text of every test that stays can be cut out of its file.
pub open spec fn sources_fit(
    tests: Seq<TestModel>,
    paths: Seq<(Seq<char>, Site)>,
    usages: Seq<Site>,
    files: Seq<ParsedFile>,
) -> bool {
    forall|i: int|
        0 <= i < tests.len() && stays(#[trigger] tests[i], paths, usages) ==> match tests[i].kind {
            TestKindModel::Legacy => true,
            TestKindModel::Testset { full_path } => match lookup(paths, full_path) {
                Some(site) => fits(site, files),
                None => true,
            },
        }
}

/// Every path leads into one of the first `n` files.
pub open spec fn in_files(paths: Seq<(Seq<char>, Site)>, n: int) -> bool {
    forall|i: int| 0 <= i < paths.len() ==> (#[trigger] paths[i]).1.file < n
}

/// Paths lead into the files that they were read off.
proof fn lemma_static_files(
    nodes: Seq<SyntaxNode>,
    file: usize,
    prefix: Seq<char>,
    before: Seq<(Seq<char>, Site)>,
    n: int,
)
    requires
        file < n,
        in_files(before, n),
    ensures
        in_files(static_paths(nodes, file, prefix, before), n),
    decreases nodes,
{
    if nodes.len() > 0 {
        lemma_static_files(nodes.drop_last(), file, prefix, before, n);
        let front = static_paths(nodes.drop_last(), file, prefix, before);
        let node = nodes.last();
        match node.kind {
            NodeKind::TestsetDef => match literal_name(node) {
                Some(name) => {
                    lemma_static_files(node.children@, file, path_join(prefix, name), front, n);
                },
                None => {},
            },
            NodeKind::TestExprDef => match literal_name(node) {
                Some(name) => {
                    crate::assoc::lemma_key_position(front, path_join(prefix, name));
                },
                None => {},
            },
            _ => {
                lemma_static_files(node.children@, file, prefix, front, n);
            },
        }
    }
}

/// Paths lead into the project's files.
proof fn lemma_project_files(files: Seq<ParsedFile>)
    requires
        files.len() <= usize::MAX,
    ensures
        in_files(project_paths(files), files.len() as int),
    decreases files.len(),
{
    if files.len() > 0 {
        lemma_project_files(files.drop_last());
        assert(in_files(project_paths(files.drop_last()), files.len() as int));
        lemma_static_files(
            files.last().tree.children@,
            (files.len() - 1) as usize,
            Seq::empty(),
            project_paths(files.drop_last()),
            files.len() as int,
        );
    }
}

/// Whether the source text of every test that stays can be cut out of its
/// file.
pub fn check_ranges(
    symbols: &Vec<Symbol>,
    usages: &Vec<Site>,
    files: &Vec<ParsedFile>,
    tests: &Vec<DiscoveredTest>,
    target_function: &str,
) -> (r: bool)
    ensures
        r == (definition(symbols@, target_function@) is Some ==> sources_fit(
            tests.deep_view(),
            project_paths(files@),
            usages@,
            files@,
        )),
{
    if find_definition(symbols, target_function).is_none() {
        return true;
    }
    let paths = all_static_paths(files);
    let ghost known = paths.deep_view();
    let ghost all = tests.deep_view();
    let file_count: usize = files.len();
    proof {
        assert(file_count == files@.len());
        lemma_project_files(files@);
    }
    let mut k: usize = 0;
    while k < tests.len()
        invariant
            k <= tests.len(),
            all == tests.deep_view(),
            known == paths.deep_view(),
            known == project_paths(files@),
            in_files(known, files@.len() as int),
            definition(symbols@, target_function@) is Some,
            forall|i: int|
                0 <= i < k && stays(#[trigger] all[i], known, usages@) ==> match all[i].kind {
                    TestKindModel::Legacy => true,
                    TestKindModel::Testset { full_path } => match lookup(known, full_path) {
                        Some(site) => fits(site, files@),
                        None => true,
                    },
                },
        decreases tests.len() - k,
    {
        assert(all[k as int] == tests@[k as int].deep_view());
        let found: Option<usize> = match &tests[k].kind {
            TestKind::Legacy => None,
            TestKind::Testset { full_path } => find_key(&paths, full_path.as_str()),
        };
        match found {
            Some(i) => {
                let site: Site = paths[i].1;
                assert(known[i as int] == paths@[i as int].deep_view());
                if is_used_in(&site, usages) {
                    let text = files[site.file].text.as_str();
                    if site.end <= text.as_bytes().len() && (site.start > site.end
                        || !text.is_char_boundary(site.start) || !text.is_char_boundary(site.end)) {
                        assert(stays(all[k as int], known, usages@));
                        assert(!fits(site, files@));
                        return false;
                    }
                }
            },
            None => {},
        }
        k = k + 1;
    }
    true
}

/// Drops testset tests whose body does not call `target_function`. Tests that
/// list their functions are passed through unchanged: they already declare
/// their target. Where the project has no such top-level function, every test
/// is passed through unchanged.
///
/// `usages` are the uses of the function across the project. Returns the
/// filtered list plus the number of testset tests that were dropped.
pub fn retain_tests_calling_function(
    symbols: &Vec<Symbol>,
    usages: &Vec<Site>,
    files: &Vec<ParsedFile>,
    tests: Vec<DiscoveredTest>,
    target_function: &str,
) -> (r: (Vec<DiscoveredTest>, usize))
    requires
        definition(symbols@, target_function@) is Some ==> sources_fit(
            tests.deep_view(),
            project_paths(files@),
            usages@,
            files@,
        ),
    ensures
        definition(symbols@, target_function@) is None ==> r.0.deep_view() == tests.deep_view()
            && r.1 == 0,
        definition(symbols@, target_function@) is Some ==> r.0.deep_view() == retained(
            tests.deep_view(),
            project_paths(files@),
            usages@,
            files@,
        ) && r.1 == tests@.len() - r.0@.len(),
{
    if find_definition(symbols, target_function).is_none() {
        return (tests, 0);
    }
    let paths = all_static_paths(files);
    let ghost known = paths.deep_view();
    let ghost all = tests.deep_view();
    let mut kept: Vec<DiscoveredTest> = Vec::new();
    let mut dropped: usize = 0;
    let mut k: usize = 0;
    let file_count: usize = files.len();
    proof {
        assert(file_count == files@.len());
        lemma_project_files(files@);
        assert(all.take(0) =~= Seq::<TestModel>::empty());
        assert(kept.deep_view() =~= Seq::<TestModel>::empty());
    }
    while k < tests.len()
        invariant
            k <= tests.len(),
            all == tests.deep_view(),
            known == paths.deep_view(),
            known == project_paths(files@),
            sources_fit(all, known, usages@, files@),
            in_files(known, files@.len() as int),
            kept.deep_view() == retained(all.take(k as int), known, usages@, files@),
            dropped + kept@.len() == k,
        decreases tests.len() - k,
    {
        let mut test = tests[k].clone();
        let ghost model = all[k as int];
        let ghost before = kept.deep_view();
        proof {
            assert(model == tests@[k as int].deep_view());
            assert(test.deep_view() == model);
            assert(all.take(k + 1).drop_last() =~= all.take(k as int));
            assert(all.take(k + 1).last() == model);
        }
        let found: Option<usize> = match &test.kind {
            TestKind::Legacy => None,
            TestKind::Testset { full_path } => find_key(&paths, full_path.as_str()),
        };
        let keep: bool = match found {
            None => true,
            Some(i) => is_used_in(&paths[i].1, usages),
        };
        proof {
            if found is Some {
                let i = found->0 as int;
                assert(known[i] == paths@[i].deep_view());
            }
            assert(keep == stays(model, known, usages@));
        }
        if keep {
            match found {
                Some(i) => {
                    let site: Site = paths[i].1;
                    proof {
                        assert(known[i as int].1 == site);
                        assert(stays(all[k as int], known, usages@));
                    }
                    let text = files[site.file].text.as_str();
                    if site.end <= text.as_bytes().len() {
                        test.test_source = Some(byte_slice(text, site.start, site.end));
                    }
                },
                None => {},
            }
            assert(test.deep_view() == with_source(model, known, files@));
            kept.push(test);
            assert(kept.deep_view() =~= before.push(with_source(model, known, files@)));
        } else {
            dropped = dropped + 1;
        }
        k = k + 1;
    }
    assert(all.take(all.len() as int) =~= all);
    (kept, dropped)
}

// ---------------------------------------------------------------------------
// Laws
// ---------------------------------------------------------------------------

/// A test that stays is retained, with its source; a test that lists its
/// functions stays as it is; a test whose path is not known stays as it is.
pub proof fn law_staying_tests_are_retained(
    tests: Seq<TestModel>,
    paths: Seq<(Seq<char>, Site)>,
    usages: Seq<Site>,
    files: Seq<ParsedFile>,
    i: int,
)
    requires
        0 <= i < tests.len(),
    ensures
        stays(tests[i], paths, usages) ==> retained(tests, paths, usages, files).contains(
            with_source(tests[i], paths, files),
        ),
        (tests[i].kind is Legacy || (tests[i].kind matches TestKindModel::Testset { full_path }
            && lookup(paths, full_path) is None)) ==> retained(
            tests,
            paths,
            usages,
            files,
        ).contains(tests[i]),
    decreases tests.len(),
{
    let front = tests.drop_last();
    let before = retained(front, paths, usages, files);
    let after = retained(tests, paths, usages, files);
    if i < front.len() {
        law_staying_tests_are_retained(front, paths, usages, files, i);
        if stays(tests[i], paths, usages) {
            let j = choose|j: int|
                0 <= j < before.len() && before[j] == with_source(front[i], paths, files);
            assert(after[j] == with_source(tests[i], paths, files));
        }
    } else if stays(tests[i], paths, usages) {
        assert(after[before.len() as int] == with_source(tests[i], paths, files));
    }
}

/// Only tests that stay are retained.
pub proof fn law_retained_tests_stay(
    tests: Seq<TestModel>,
    paths: Seq<(Seq<char>, Site)>,
    usages: Seq<Site>,
    files: Seq<ParsedFile>,
    j: int,
)
    requires
        0 <= j < retained(tests, paths, usages, files).len(),
    ensures
        exists|i: int|
            0 <= i < tests.len() && stays(#[trigger] tests[i], paths, usages) && retained(
                tests,
                paths,
                usages,
                files,
            )[j] == with_source(tests[i], paths, files),
    decreases tests.len(),
{
    let front = tests.drop_last();
    let before = retained(front, paths, usages, files);
    if j < before.len() {
        law_retained_tests_stay(front, paths, usages, files, j);
        let i = choose|i: int|
            0 <= i < front.len() && stays(#[trigger] front[i], paths, usages) && before[j]
                == with_source(front[i], paths, files);
        assert(tests[i] == front[i]);
    } else {
        assert(stays(tests[tests.len() - 1], paths, usages));
    }
}

} // verus!
