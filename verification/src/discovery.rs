//! Test discovery for optimisation.
//!
//! Discovers `test { }` declarations and the functions they refer to.

use vstd::prelude::*;
use vstd::string::*;

use crate::text::{contains, has_text, occurs, same_text};

verus! {

/// How a test is declared: with a list of functions, or inside a testset under
/// a slash-joined path.
#[derive(Debug)]
pub enum TestKind {
    Legacy,
    Testset { full_path: String },
}

/// A discovered test with its metadata.
#[derive(Debug)]
pub struct DiscoveredTest {
    pub function_name: String,
    pub test_name: String,
    pub testset_name: Option<String>,
    pub file_path: String,
    pub kind: TestKind,
    /// The source text of the test, where it is known.
    pub test_source: Option<String>,
}

/// What a [`TestKind`] says.
pub ghost enum TestKindModel {
    Legacy,
    Testset { full_path: Seq<char> },
}

/// What a [`DiscoveredTest`] says.
pub ghost struct TestModel {
    pub function_name: Seq<char>,
    pub test_name: Seq<char>,
    pub testset_name: Option<Seq<char>>,
    pub file_path: Seq<char>,
    pub kind: TestKindModel,
    pub test_source: Option<Seq<char>>,
}

impl DeepView for TestKind {
    type V = TestKindModel;

    open spec fn deep_view(&self) -> TestKindModel {
        match self {
            TestKind::Legacy => TestKindModel::Legacy,
            TestKind::Testset { full_path } => TestKindModel::Testset { full_path: full_path@ },
        }
    }
}

impl DeepView for DiscoveredTest {
    type V = TestModel;

    open spec fn deep_view(&self) -> TestModel {
        TestModel {
            function_name: self.function_name@,
            test_name: self.test_name@,
            testset_name: self.testset_name.deep_view(),
            file_path: self.file_path@,
            kind: self.kind.deep_view(),
            test_source: self.test_source.deep_view(),
        }
    }
}

impl Clone for TestKind {
    fn clone(&self) -> (r: Self)
        ensures
            r.deep_view() == self.deep_view(),
    {
        match self {
            TestKind::Legacy => TestKind::Legacy,
            TestKind::Testset { full_path } => TestKind::Testset { full_path: full_path.clone() },
        }
    }
}

impl Clone for DiscoveredTest {
    fn clone(&self) -> (r: Self)
        ensures
            r.deep_view() == self.deep_view(),
    {
        DiscoveredTest {
            function_name: self.function_name.clone(),
            test_name: self.test_name.clone(),
            testset_name: self.testset_name.clone(),
            file_path: self.file_path.clone(),
            kind: self.kind.clone(),
            test_source: self.test_source.clone(),
        }
    }
}

// ---------------------------------------------------------------------------
// Discovery
// ---------------------------------------------------------------------------

/// A `test { }` declaration: its name and the functions it refers to.
#[derive(Debug)]
pub struct TestItem {
    pub name: String,
    pub function_refs: Vec<String>,
}

/// The tests that a source file declares.
#[derive(Debug)]
pub struct TestFile {
    pub path: String,
    pub tests: Vec<TestItem>,
}

/// The filter lets a function through: it is empty, or one of its strings
/// stands in the function's name.
pub open spec fn lets_through(filter: Seq<Seq<char>>, func: Seq<char>) -> bool {
    filter.len() == 0 || exists|i: int| 0 <= i < filter.len() && occurs(func, #[trigger] filter[i])
}

/// A test of that function and name is among the tests.
pub open spec fn known(tests: Seq<TestModel>, func: Seq<char>, name: Seq<char>) -> bool {
    exists|i: int|
        0 <= i < tests.len() && (#[trigger] tests[i]).function_name == func && tests[i].test_name
            == name
}

/// The tests after test `name` in file `path` referred to `func`.
pub open spec fn after_ref(
    before: Seq<TestModel>,
    func: Seq<char>,
    name: Seq<char>,
    path: Seq<char>,
    filter: Seq<Seq<char>>,
) -> Seq<TestModel> {
    if func.len() == 0 || !lets_through(filter, func) || known(before, func, name) {
        before
    } else {
        before.push(
            TestModel {
                function_name: func,
                test_name: name,
                testset_name: None,
                file_path: path,
                kind: TestKindModel::Legacy,
                test_source: None,
            },
        )
    }
}

/// The tests after each reference of a test.
pub open spec fn after_refs(
    before: Seq<TestModel>,
    refs: Seq<Seq<char>>,
    name: Seq<char>,
    path: Seq<char>,
    filter: Seq<Seq<char>>,
) -> Seq<TestModel>
    decreases refs.len(),
{
    if refs.len() == 0 {
        before
    } else {
        after_ref(
            after_refs(before, refs.drop_last(), name, path, filter),
            refs.last(),
            name,
            path,
            filter,
        )
    }
}

/// The tests after each test of a file.
pub open spec fn after_tests(
    before: Seq<TestModel>,
    tests: Seq<TestItem>,
    path: Seq<char>,
    filter: Seq<Seq<char>>,
) -> Seq<TestModel>
    decreases tests.len(),
{
    if tests.len() == 0 {
        before
    } else {
        after_refs(
            after_tests(before, tests.drop_last(), path, filter),
            tests.last().function_refs.deep_view(),
            tests.last().name@,
            path,
            filter,
        )
    }
}

/// The tests of all files.
pub open spec fn discovered(files: Seq<TestFile>, filter: Seq<Seq<char>>) -> Seq<TestModel>
    decreases files.len(),
{
    if files.len() == 0 {
        Seq::empty()
    } else {
        after_tests(
            discovered(files.drop_last(), filter),
            files.last().tests@,
            files.last().path@,
            filter,
        )
    }
}

/// Whether the filter lets a function through.
fn filter_allows(filter: &Vec<String>, func: &str) -> (r: bool)
    ensures
        r == lets_through(filter.deep_view(), func@),
{
    if filter.len() == 0 {
        return true;
    }
    let ghost all = filter.deep_view();
    let mut i: usize = 0;
    while i < filter.len()
        invariant
            i <= filter.len(),
            all == filter.deep_view(),
            forall|j: int| 0 <= j < i ==> !occurs(func@, #[trigger] all[j]),
        decreases filter.len() - i,
    {
        assert(all[i as int] == filter@[i as int]@);
        if contains(func, filter[i].as_str()) {
            return true;
        }
        i = i + 1;
    }
    false
}

/// Whether a test of that function and name is among the tests.
fn is_known(tests: &Vec<DiscoveredTest>, func: &str, name: &str) -> (r: bool)
    ensures
        r == known(tests.deep_view(), func@, name@),
{
    let ghost all = tests.deep_view();
    let mut i: usize = 0;
    while i < tests.len()
        invariant
            i <= tests.len(),
            all == tests.deep_view(),
            forall|j: int|
                0 <= j < i ==> !((#[trigger] all[j]).function_name == func@ && all[j].test_name
                    == name@),
        decreases tests.len() - i,
    {
        assert(all[i as int] == tests@[i as int].deep_view());
        if same_text(tests[i].function_name.as_str(), func) && same_text(
            tests[i].test_name.as_str(),
            name,
        ) {
            return true;
        }
        i = i + 1;
    }
    false
}

/// Adds what a test refers to.
fn add_refs(out: &mut Vec<DiscoveredTest>, test: &TestItem, path: &str, filter: &Vec<String>)
    ensures
        final(out).deep_view() == after_refs(
            old(out).deep_view(),
            test.function_refs.deep_view(),
            test.name@,
            path@,
            filter.deep_view(),
        ),
{
    let ghost refs = test.function_refs.deep_view();
    let ghost start = out.deep_view();
    let mut k: usize = 0;
    proof {
        assert(refs.take(0) =~= Seq::<Seq<char>>::empty());
    }
    while k < test.function_refs.len()
        invariant
            k <= test.function_refs.len(),
            refs == test.function_refs.deep_view(),
            out.deep_view() == after_refs(
                start,
                refs.take(k as int),
                test.name@,
                path@,
                filter.deep_view(),
            ),
        decreases test.function_refs.len() - k,
    {
        let func = &test.function_refs[k];
        let ghost before = out.deep_view();
        proof {
            assert(refs.take(k + 1).drop_last() =~= refs.take(k as int));
            assert(refs.take(k + 1).last() == func@);
        }
        if !func.as_str().is_empty() && filter_allows(filter, func.as_str()) && !is_known(
            out,
            func.as_str(),
            test.name.as_str(),
        ) {
            let found = DiscoveredTest {
                function_name: func.clone(),
                test_name: test.name.clone(),
                testset_name: None,
                file_path: String::from_str(path),
                kind: TestKind::Legacy,
                test_source: None,
            };
            out.push(found);
            assert(out.deep_view() =~= before.push(found.deep_view()));
        }
        k = k + 1;
    }
    assert(refs.take(refs.len() as int) =~= refs);
}

/// Discovers all tests for functions matching the filter.
///
/// If `function_filter` is non-empty, only tests of functions whose name
/// includes one of the filter strings are returned. Deduplicates by function
/// name and test name across files.
pub fn discover_all_tests(files: &Vec<TestFile>, function_filter: &Vec<String>) -> (r: Vec<
    DiscoveredTest,
>)
    ensures
        r.deep_view() == discovered(files@, function_filter.deep_view()),
{
    let ghost filter = function_filter.deep_view();
    let mut out: Vec<DiscoveredTest> = Vec::new();
    let mut k: usize = 0;
    proof {
        assert(files@.take(0) =~= Seq::<TestFile>::empty());
        assert(out.deep_view() =~= Seq::<TestModel>::empty());
    }
    while k < files.len()
        invariant
            k <= files.len(),
            filter == function_filter.deep_view(),
            out.deep_view() == discovered(files@.take(k as int), filter),
        decreases files.len() - k,
    {
        let file = &files[k];
        let ghost start = out.deep_view();
        let ghost tests = file.tests@;
        let mut t: usize = 0;
        proof {
            assert(files@.take(k + 1).drop_last() =~= files@.take(k as int));
            assert(files@.take(k + 1).last() == *file);
            assert(tests.take(0) =~= Seq::<TestItem>::empty());
        }
        while t < file.tests.len()
            invariant
                t <= file.tests.len(),
                tests == file.tests@,
                filter == function_filter.deep_view(),
                out.deep_view() == after_tests(start, tests.take(t as int), file.path@, filter),
            decreases file.tests.len() - t,
        {
            proof {
                assert(tests.take(t + 1).drop_last() =~= tests.take(t as int));
                assert(tests.take(t + 1).last() == file.tests@[t as int]);
            }
            add_refs(&mut out, &file.tests[t], file.path.as_str(), function_filter);
            t = t + 1;
        }
        assert(tests.take(tests.len() as int) =~= tests);
        k = k + 1;
    }
    assert(files@.take(files@.len() as int) =~= files@);
    out
}

// ---------------------------------------------------------------------------
// Grouping
// ---------------------------------------------------------------------------

/// The testset that a test belongs to.
pub open spec fn group_of(test: DiscoveredTest) -> Seq<char> {
    match test.testset_name {
        Some(name) => name@,
        None => "default"@,
    }
}

/// The testsets in the order in which they first appear.
pub open spec fn group_names(tests: Seq<DiscoveredTest>) -> Seq<Seq<char>>
    decreases tests.len(),
{
    if tests.len() == 0 {
        Seq::empty()
    } else {
        let before = group_names(tests.drop_last());
        if before.contains(group_of(tests.last())) {
            before
        } else {
            before.push(group_of(tests.last()))
        }
    }
}

/// The tests of a testset, in order.
pub open spec fn group(tests: Seq<DiscoveredTest>, name: Seq<char>) -> Seq<DiscoveredTest>
    decreases tests.len(),
{
    if tests.len() == 0 {
        Seq::empty()
    } else if group_of(tests.last()) == name {
        group(tests.drop_last(), name).push(tests.last())
    } else {
        group(tests.drop_last(), name)
    }
}

/// `groups` are the tests by testset.
pub open spec fn grouped(
    groups: Seq<(String, Vec<&DiscoveredTest>)>,
    tests: Seq<DiscoveredTest>,
) -> bool {
    &&& groups.len() == group_names(tests).len()
    &&& forall|i: int|
        0 <= i < groups.len() ==> {
            &&& (#[trigger] groups[i]).0@ == group_names(tests)[i]
            &&& groups[i].1@.unref() == group(tests, group_names(tests)[i])
        }
}

/// The testset that a test belongs to; `"default"` where it names none.
fn group_key(test: &DiscoveredTest) -> (key: String)
    ensures
        key@ == group_of(*test),
{
    match &test.testset_name {
        Some(name) => name.clone(),
        None => String::from_str("default"),
    }
}

/// The tests of a testset, in order.
fn members<'a>(tests: &'a Vec<DiscoveredTest>, name: &str) -> (r: Vec<&'a DiscoveredTest>)
    ensures
        r@.unref() == group(tests@, name@),
{
    let mut out: Vec<&'a DiscoveredTest> = Vec::new();
    let mut k: usize = 0;
    proof {
        assert(tests@.take(0) =~= Seq::<DiscoveredTest>::empty());
        assert(out@.unref() =~= Seq::<DiscoveredTest>::empty());
    }
    while k < tests.len()
        invariant
            k <= tests.len(),
            out@.unref() == group(tests@.take(k as int), name@),
        decreases tests.len() - k,
    {
        let ghost before = out@;
        proof {
            assert(tests@.take(k + 1).drop_last() =~= tests@.take(k as int));
        }
        if same_text(group_key(&tests[k]).as_str(), name) {
            out.push(&tests[k]);
            assert(out@.unref() =~= before.unref().push(tests@[k as int]));
        }
        k = k + 1;
    }
    assert(tests@.take(tests@.len() as int) =~= tests@);
    out
}

/// Groups tests by testset name for per-testset pass rate tracking.
///
/// Tests without a `testset_name` are grouped under `"default"`. The groups
/// stand in the order in which their names first appear.
pub fn group_by_testset<'a>(tests: &'a Vec<DiscoveredTest>) -> (r: Vec<
    (String, Vec<&'a DiscoveredTest>),
>)
    ensures
        grouped(r@, tests@),
        r@.len() == group_names(tests@).len(),
        forall|i: int|
            0 <= i < r@.len() ==> (#[trigger] r@[i]).0@ == group_names(tests@)[i]
                && r@[i].1@.unref() == group(tests@, r@[i].0@),
{
    let mut names: Vec<String> = Vec::new();
    let mut k: usize = 0;
    proof {
        assert(tests@.take(0) =~= Seq::<DiscoveredTest>::empty());
        assert(names.deep_view() =~= Seq::<Seq<char>>::empty());
    }
    while k < tests.len()
        invariant
            k <= tests.len(),
            names.deep_view() == group_names(tests@.take(k as int)),
        decreases tests.len() - k,
    {
        let key = group_key(&tests[k]);
        let ghost before = names.deep_view();
        proof {
            assert(tests@.take(k + 1).drop_last() =~= tests@.take(k as int));
        }
        if !has_text(&names, key.as_str()) {
            names.push(key);
            assert(names.deep_view() =~= before.push(key@));
        }
        k = k + 1;
    }
    assert(tests@.take(tests@.len() as int) =~= tests@);
    let mut groups: Vec<(String, Vec<&'a DiscoveredTest>)> = Vec::new();
    let mut g: usize = 0;
    while g < names.len()
        invariant
            g <= names.len(),
            names.deep_view() == group_names(tests@),
            groups@.len() == g,
            forall|i: int|
                0 <= i < g ==> {
                    &&& (#[trigger] groups@[i]).0@ == group_names(tests@)[i]
                    &&& groups@[i].1@.unref() == group(tests@, group_names(tests@)[i])
                },
        decreases names.len() - g,
    {
        assert(names.deep_view()[g as int] == names@[g as int]@);
        groups.push((names[g].clone(), members(tests, names[g].as_str())));
        g = g + 1;
    }
    groups
}

// ---------------------------------------------------------------------------
// Laws
// ---------------------------------------------------------------------------

/// The names of the groups are distinct, and every test is in the group of its
/// testset.
pub proof fn law_groups_hold_every_test(tests: Seq<DiscoveredTest>, test: DiscoveredTest)
    requires
        tests.contains(test),
    ensures
        group_names(tests).no_duplicates(),
        group_names(tests).contains(group_of(test)),
        group(tests, group_of(test)).contains(test),
    decreases tests.len(),
{
    lemma_group_names(tests);
    let front = tests.drop_last();
    let last = tests.last();
    let i = choose|i: int| 0 <= i < tests.len() && tests[i] == test;
    let names = group_names(front);
    if i < front.len() {
        assert(front[i] == test);
        law_groups_hold_every_test(front, test);
        let j = choose|j: int| 0 <= j < names.len() && names[j] == group_of(test);
        assert(group_names(tests)[j] == group_of(test));
        let before = group(front, group_of(test));
        let k = choose|k: int| 0 <= k < before.len() && before[k] == test;
        assert(group(tests, group_of(test))[k] == test);
    } else {
        if names.contains(group_of(last)) {
        } else {
            assert(group_names(tests)[names.len() as int] == group_of(test));
        }
        let before = group(front, group_of(test));
        assert(group(tests, group_of(test))[before.len() as int] == test);
    }
}

/// A group holds only tests of its testset.
pub proof fn law_groups_hold_only_their_tests(tests: Seq<DiscoveredTest>, name: Seq<char>)
    ensures
        forall|i: int|
            0 <= i < group(tests, name).len() ==> group_of(#[trigger] group(tests, name)[i]) == name
                && tests.contains(group(tests, name)[i]),
    decreases tests.len(),
{
    if tests.len() > 0 {
        let front = tests.drop_last();
        law_groups_hold_only_their_tests(front, name);
        assert forall|i: int| 0 <= i < group(tests, name).len() implies group_of(
            #[trigger] group(tests, name)[i],
        ) == name && tests.contains(group(tests, name)[i]) by {
            if i < group(front, name).len() {
                let test = group(front, name)[i];
                assert(front.contains(test));
                let j = choose|j: int| 0 <= j < front.len() && front[j] == test;
                assert(tests[j] == test);
            } else {
                assert(tests[tests.len() - 1] == tests.last());
            }
        }
    }
}

proof fn lemma_group_names(tests: Seq<DiscoveredTest>)
    ensures
        group_names(tests).no_duplicates(),
    decreases tests.len(),
{
    if tests.len() > 0 {
        lemma_group_names(tests.drop_last());
    }
}

/// No function and test name are discovered together twice.
pub open spec fn distinct_tests(tests: Seq<TestModel>) -> bool {
    forall|i: int, j: int|
        0 <= i < j < tests.len() ==> !((#[trigger] tests[i]).function_name == (
        #[trigger] tests[j]).function_name && tests[i].test_name == tests[j].test_name)
}

/// Every test is of a function with a name that the filter lets through.
pub open spec fn all_let_through(tests: Seq<TestModel>, filter: Seq<Seq<char>>) -> bool {
    forall|i: int|
        0 <= i < tests.len() ==> (#[trigger] tests[i]).function_name.len() > 0 && lets_through(
            filter,
            tests[i].function_name,
        )
}

/// Discovered tests are distinct by function and test name, and the filter
/// lets their functions through.
pub proof fn law_discovered_is_distinct_and_filtered(
    files: Seq<TestFile>,
    filter: Seq<Seq<char>>,
)
    ensures
        distinct_tests(discovered(files, filter)),
        all_let_through(discovered(files, filter), filter),
    decreases files.len(),
{
    if files.len() > 0 {
        law_discovered_is_distinct_and_filtered(files.drop_last(), filter);
        lemma_after_tests(
            discovered(files.drop_last(), filter),
            files.last().tests@,
            files.last().path@,
            filter,
        );
    }
}

/// Every reference that the filter lets through is discovered.
pub proof fn law_discovered_is_complete(
    files: Seq<TestFile>,
    filter: Seq<Seq<char>>,
    file: int,
    test: int,
    reference: int,
)
    requires
        0 <= file < files.len(),
        0 <= test < files[file].tests@.len(),
        0 <= reference < files[file].tests@[test].function_refs@.len(),
        files[file].tests@[test].function_refs@[reference]@.len() > 0,
        lets_through(filter, files[file].tests@[test].function_refs@[reference]@),
    ensures
        known(
            discovered(files, filter),
            files[file].tests@[test].function_refs@[reference]@,
            files[file].tests@[test].name@,
        ),
    decreases files.len(),
{
    let item = files[file].tests@[test];
    let func = item.function_refs@[reference]@;
    let front = files.drop_last();
    let last = files.last();
    let before = discovered(front, filter);
    if file < front.len() {
        law_discovered_is_complete(front, filter, file, test, reference);
        lemma_tests_keep(before, last.tests@, last.path@, filter, func, item.name@);
    } else {
        let upto = last.tests@.take(test + 1);
        assert(upto.drop_last() =~= last.tests@.take(test));
        let start = after_tests(before, last.tests@.take(test), last.path@, filter);
        let refs = item.function_refs.deep_view();
        assert(refs[reference] == func);
        lemma_ref_found(start, refs, item.name@, last.path@, filter, reference);
        assert(known(after_tests(before, upto, last.path@, filter), func, item.name@));
        lemma_rest_keep(before, last.tests@, last.path@, filter, func, item.name@, test + 1);
    }
}

proof fn lemma_known_push(tests: Seq<TestModel>, more: TestModel, func: Seq<char>, name: Seq<char>)
    requires
        known(tests, func, name),
    ensures
        known(tests.push(more), func, name),
{
    let i = choose|i: int|
        0 <= i < tests.len() && (#[trigger] tests[i]).function_name == func && tests[i].test_name
            == name;
    assert(tests.push(more)[i] == tests[i]);
}

proof fn lemma_ref_keeps(
    before: Seq<TestModel>,
    r: Seq<char>,
    test: Seq<char>,
    path: Seq<char>,
    filter: Seq<Seq<char>>,
    func: Seq<char>,
    name: Seq<char>,
)
    requires
        known(before, func, name),
    ensures
        known(after_ref(before, r, test, path, filter), func, name),
{
    let after = after_ref(before, r, test, path, filter);
    if after != before {
        lemma_known_push(before, after.last(), func, name);
        assert(after =~= before.push(after.last()));
    }
}

proof fn lemma_refs_keep(
    before: Seq<TestModel>,
    refs: Seq<Seq<char>>,
    test: Seq<char>,
    path: Seq<char>,
    filter: Seq<Seq<char>>,
    func: Seq<char>,
    name: Seq<char>,
)
    requires
        known(before, func, name),
    ensures
        known(after_refs(before, refs, test, path, filter), func, name),
    decreases refs.len(),
{
    if refs.len() > 0 {
        lemma_refs_keep(before, refs.drop_last(), test, path, filter, func, name);
        lemma_ref_keeps(
            after_refs(before, refs.drop_last(), test, path, filter),
            refs.last(),
            test,
            path,
            filter,
            func,
            name,
        );
    }
}

proof fn lemma_tests_keep(
    before: Seq<TestModel>,
    tests: Seq<TestItem>,
    path: Seq<char>,
    filter: Seq<Seq<char>>,
    func: Seq<char>,
    name: Seq<char>,
)
    requires
        known(before, func, name),
    ensures
        known(after_tests(before, tests, path, filter), func, name),
    decreases tests.len(),
{
    if tests.len() > 0 {
        lemma_tests_keep(before, tests.drop_last(), path, filter, func, name);
        lemma_refs_keep(
            after_tests(before, tests.drop_last(), path, filter),
            tests.last().function_refs.deep_view(),
            tests.last().name@,
            path,
            filter,
            func,
            name,
        );
    }
}

proof fn lemma_rest_keep(
    before: Seq<TestModel>,
    tests: Seq<TestItem>,
    path: Seq<char>,
    filter: Seq<Seq<char>>,
    func: Seq<char>,
    name: Seq<char>,
    n: int,
)
    requires
        0 <= n <= tests.len(),
        known(after_tests(before, tests.take(n), path, filter), func, name),
    ensures
        known(after_tests(before, tests, path, filter), func, name),
    decreases tests.len() - n,
{
    if n < tests.len() {
        let more = tests.take(n + 1);
        assert(more.drop_last() =~= tests.take(n));
        lemma_refs_keep(
            after_tests(before, tests.take(n), path, filter),
            more.last().function_refs.deep_view(),
            more.last().name@,
            path,
            filter,
            func,
            name,
        );
        lemma_rest_keep(before, tests, path, filter, func, name, n + 1);
    } else {
        assert(tests.take(n) =~= tests);
    }
}

proof fn lemma_ref_found(
    before: Seq<TestModel>,
    refs: Seq<Seq<char>>,
    test: Seq<char>,
    path: Seq<char>,
    filter: Seq<Seq<char>>,
    reference: int,
)
    requires
        0 <= reference < refs.len(),
        refs[reference].len() > 0,
        lets_through(filter, refs[reference]),
    ensures
        known(after_refs(before, refs, test, path, filter), refs[reference], test),
    decreases refs.len(),
{
    let front = refs.drop_last();
    let start = after_refs(before, front, test, path, filter);
    if reference < front.len() {
        lemma_ref_found(before, front, test, path, filter, reference);
        lemma_ref_keeps(start, refs.last(), test, path, filter, refs[reference], test);
    } else {
        let after = after_refs(before, refs, test, path, filter);
        if !known(start, refs[reference], test) {
            assert(after[start.len() as int].function_name == refs[reference]);
        }
    }
}

proof fn lemma_after_tests(
    before: Seq<TestModel>,
    tests: Seq<TestItem>,
    path: Seq<char>,
    filter: Seq<Seq<char>>,
)
    requires
        distinct_tests(before),
        all_let_through(before, filter),
    ensures
        distinct_tests(after_tests(before, tests, path, filter)),
        all_let_through(after_tests(before, tests, path, filter), filter),
    decreases tests.len(),
{
    if tests.len() > 0 {
        lemma_after_tests(before, tests.drop_last(), path, filter);
        lemma_after_refs(
            after_tests(before, tests.drop_last(), path, filter),
            tests.last().function_refs.deep_view(),
            tests.last().name@,
            path,
            filter,
        );
    }
}

proof fn lemma_after_refs(
    before: Seq<TestModel>,
    refs: Seq<Seq<char>>,
    test: Seq<char>,
    path: Seq<char>,
    filter: Seq<Seq<char>>,
)
    requires
        distinct_tests(before),
        all_let_through(before, filter),
    ensures
        distinct_tests(after_refs(before, refs, test, path, filter)),
        all_let_through(after_refs(before, refs, test, path, filter), filter),
    decreases refs.len(),
{
    if refs.len() > 0 {
        lemma_after_refs(before, refs.drop_last(), test, path, filter);
        let start = after_refs(before, refs.drop_last(), test, path, filter);
        let after = after_refs(before, refs, test, path, filter);
        if after != start {
            assert forall|i: int, j: int| 0 <= i < j < after.len() implies !((
            #[trigger] after[i]).function_name == (#[trigger] after[j]).function_name
                && after[i].test_name == after[j].test_name) by {
                assert(after[i] == start[i]);
                if j < start.len() {
                    assert(after[j] == start[j]);
                }
            }
            assert forall|i: int| 0 <= i < after.len() implies (
            #[trigger] after[i]).function_name.len() > 0 && lets_through(
                filter,
                after[i].function_name,
            ) by {
                if i < start.len() {
                    assert(after[i] == start[i]);
                }
            }
        }
    }
}

/// A filter lets through exactly the functions that it names a part of; an
/// empty one lets all through. Every reference to such a function is discovered
/// as a test of that function, under the name of the test that refers to it.
pub proof fn law_every_reference_is_discovered(
    files: Seq<TestFile>,
    filter: Seq<Seq<char>>,
    file: int,
    test: int,
    reference: int,
    part: int,
)
    requires
        0 <= file < files.len(),
        0 <= test < files[file].tests@.len(),
        0 <= reference < files[file].tests@[test].function_refs@.len(),
        files[file].tests@[test].function_refs@[reference]@.len() > 0,
        filter.len() == 0 || (0 <= part < filter.len() && occurs(
            files[file].tests@[test].function_refs@[reference]@,
            filter[part],
        )),
    ensures
        exists|k: int|
            0 <= k < discovered(files, filter).len() && (
            #[trigger] discovered(files, filter)[k]).function_name
                == files[file].tests@[test].function_refs@[reference]@ && discovered(
                files,
                filter,
            )[k].test_name == files[file].tests@[test].name@,
{
    law_discovered_is_complete(files, filter, file, test, reference);
    let func = files[file].tests@[test].function_refs@[reference]@;
    let name = files[file].tests@[test].name@;
    let all = discovered(files, filter);
    let k = choose|k: int|
        0 <= k < all.len() && (#[trigger] all[k]).function_name == func && all[k].test_name
            == name;
    assert(discovered(files, filter)[k].function_name == func);
}

/// No test is discovered of a function without a name, or of one that a filter
/// names no part of.
pub proof fn law_only_filtered_functions_are_discovered(
    files: Seq<TestFile>,
    filter: Seq<Seq<char>>,
    k: int,
)
    requires
        0 <= k < discovered(files, filter).len(),
    ensures
        discovered(files, filter)[k].function_name.len() > 0,
        filter.len() > 0 ==> exists|i: int|
            0 <= i < filter.len() && occurs(
                discovered(files, filter)[k].function_name,
                #[trigger] filter[i],
            ),
{
    law_discovered_is_distinct_and_filtered(files, filter);
}

} // verus!
