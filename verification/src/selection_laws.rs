//! What is picked out of lists, counted and summed: which items, and in which
//! order.

use vstd::prelude::*;

use crate::assoc::{key_position, lemma_key_position, lookup, put};
use crate::candidate::ExampleModel;
use crate::discovery::{
    after_refs, after_tests, discovered, group, group_names, group_of, known, DiscoveredTest,
    TestFile, TestItem, TestKindModel, TestModel,
};
use crate::engine_build::{error_messages, failure_text, first_of, Diagnostic};
use crate::evaluator::{
    count_passed, of_testset, testset_names, testset_of, token_count, token_sum, RenderedValue,
    TestResult,
};
use crate::filters::{fractions, whole_sum, SumItem};
use crate::measure::Measure;
use crate::optimize::{combined, to_write, unchanged};
use crate::orchestrator::results_of;
use crate::pareto::{
    default_direction, objective_part, objectives_of, parts_of, Direction, ObjectiveModel,
};
use crate::paths::{joined, path_key};
use crate::reflection::{example_of, examples_of, rendered, rendered_args};
use crate::sources::FileModel;
use crate::testset_filter::{with_source, ParsedFile, Site};
use crate::text::{is_space, join, occurs, occurs_at};
use crate::workspace::{
    baml_paths, is_baml, law_pruned_subtrees_are_skipped, lies_in, open_entry, WalkedEntry,
};

verus! {

// ---------------------------------------------------------------------------
// Results
// ---------------------------------------------------------------------------

/// As many tests passed as there are results that passed.
pub proof fn law_passed_results_are_counted(results: Seq<TestResult>)
    ensures
        count_passed(results) == results.filter(|r: TestResult| r.passed).len(),
    decreases results.len(),
{
    reveal(Seq::filter);
    if results.len() > 0 {
        law_passed_results_are_counted(results.drop_last());
    }
}

/// The result belongs to the testset of that name; one without a testset
/// belongs to `default`.
pub open spec fn belongs(r: TestResult, name: Seq<char>) -> bool {
    (r.testset_name matches Some(own) && own@ == name) || (r.testset_name is None && name
        == "default"@)
}

/// The results of a testset are all that belong to it, in order.
pub proof fn law_a_testset_has_all_its_results(results: Seq<TestResult>, name: Seq<char>)
    ensures
        of_testset(results, name) == results.filter(|r: TestResult| belongs(r, name)),
    decreases results.len(),
{
    reveal(Seq::filter);
    if results.len() > 0 {
        law_a_testset_has_all_its_results(results.drop_last(), name);
    }
}

/// The testsets are those that some result belongs to, each once, in the order
/// in which they first appear.
pub proof fn law_testsets_are_those_of_the_results(results: Seq<TestResult>, name: Seq<char>, n: int)
    requires
        0 <= n <= results.len(),
    ensures
        testset_names(results).contains(name) <==> exists|i: int|
            0 <= i < results.len() && belongs(#[trigger] results[i], name),
        testset_names(results).no_duplicates(),
        testset_names(results.take(n)).is_prefix_of(testset_names(results)),
    decreases results.len(),
{
    if results.len() > 0 {
        let front = results.drop_last();
        let before = testset_names(front);
        let names = testset_names(results);
        let own = testset_of(results.last());
        law_testsets_are_those_of_the_results(
            front,
            name,
            if n < results.len() {
                n
            } else {
                n - 1
            },
        );
        assert(results[results.len() - 1] == results.last());
        assert(belongs(results.last(), name) <==> own == name);
        if before.contains(name) {
            let k = choose|k: int| 0 <= k < before.len() && before[k] == name;
            assert(names[k] == name);
            let i = choose|i: int| 0 <= i < front.len() && belongs(#[trigger] front[i], name);
            assert(results[i] == front[i]);
        }
        if !before.contains(own) {
            assert(names[before.len() as int] == own);
        } else if own == name {
            assert(names.contains(name));
        }
        if exists|i: int| 0 <= i < results.len() && belongs(#[trigger] results[i], name) {
            let i = choose|i: int| 0 <= i < results.len() && belongs(#[trigger] results[i], name);
            if i < front.len() {
                assert(front[i] == results[i]);
            }
        }
        if names.contains(name) && !before.contains(name) {
            let k = choose|k: int| 0 <= k < names.len() && names[k] == name;
            assert(k == before.len());
        }
        assert(before.is_prefix_of(names));
        if n < results.len() {
            assert(front.take(n) =~= results.take(n));
        } else {
            assert(results.take(n) =~= results);
        }
    } else {
        assert(results.take(n) =~= results);
    }
}

/// Token counts add up: the sum over two lists is the sum of their sums, and
/// what is not known counts for nothing.
pub proof fn law_token_counts_add_up(a: Seq<Option<i64>>, b: Seq<Option<i64>>, t: i64)
    ensures
        token_sum(a + b) == token_sum(a) + token_sum(b),
        token_count(a + b) == token_count(a) + token_count(b),
        token_sum(seq![Some(t)]) == t,
        token_count(seq![Some(t)]) == 1,
        token_sum(seq![None::<i64>]) == 0,
        token_count(seq![None::<i64>]) == 0,
    decreases b.len(),
{
    let one = seq![Some(t)];
    let none = seq![None::<i64>];
    assert(one.drop_last() =~= Seq::<Option<i64>>::empty());
    assert(none.drop_last() =~= Seq::<Option<i64>>::empty());
    assert(token_sum(one.drop_last()) == 0 && token_count(one.drop_last()) == 0);
    if b.len() == 0 {
        assert(a + b =~= a);
    } else {
        law_token_counts_add_up(a, b.drop_last(), t);
        assert((a + b).drop_last() =~= a + b.drop_last());
        assert((a + b).last() == b.last());
    }
}

// ---------------------------------------------------------------------------
// Examples
// ---------------------------------------------------------------------------

/// The examples are made of all results that passed, or of all that failed, in
/// order.
pub proof fn law_examples_are_made_of_all_such_results(results: Seq<TestResult>, passed: bool)
    ensures
        examples_of(results, passed) == results.filter(
            |r: TestResult| r.passed == passed,
        ).map_values(|r: TestResult| example_of(r)),
    decreases results.len(),
{
    reveal(Seq::filter);
    let keep = |r: TestResult| r.passed == passed;
    let f = |r: TestResult| example_of(r);
    if results.len() > 0 {
        let front = results.drop_last();
        law_examples_are_made_of_all_such_results(front, passed);
        if keep(results.last()) {
            assert(results.filter(keep) == front.filter(keep).push(results.last()));
            assert(results.filter(keep).map_values(f) =~= front.filter(keep).map_values(f).push(
                example_of(results.last()),
            ));
        }
    } else {
        assert(results.filter(keep).map_values(f) =~= Seq::<ExampleModel>::empty());
    }
}

/// An example tells what the result holds: the test, its tokens and latency,
/// the error where there is one, and the output where there is one.
pub proof fn law_an_example_tells_its_result(r: TestResult)
    ensures
        example_of(r).test_name == Some(r.test_name@),
        example_of(r).prompt_tokens == r.input_tokens,
        example_of(r).completion_tokens == r.output_tokens,
        example_of(r).latency_ms == Some(r.latency_ms),
        example_of(r).test_source is None,
        example_of(r).failure_location == if r.passed {
            None
        } else {
            Some("assertion"@)
        },
        r.error matches Some(error) ==> example_of(r).feedback == error@,
        r.error is None && r.passed ==> example_of(r).feedback == "ok"@,
        r.error is None && !r.passed ==> example_of(r).feedback
            == "test failed without a specific error"@,
        r.output matches Some(value) ==> example_of(r).generated_outputs == seq![
            ("result"@, rendered(value)),
        ],
        r.output is None ==> example_of(r).generated_outputs.len() == 0,
        example_of(r).inputs == rendered_args(r.input_args@),
{
}

/// Every argument is told: under its name stands the argument, and where a name
/// is given more than once, the last. Nothing else is told.
pub proof fn law_every_argument_is_told(args: Seq<(String, RenderedValue)>, i: int, name: Seq<char>)
    requires
        0 <= i < args.len(),
        forall|j: int| i < j < args.len() ==> (#[trigger] args[j]).0@ != args[i].0@,
    ensures
        lookup(rendered_args(args), args[i].0@) == Some(rendered(args[i].1)),
        (forall|j: int| 0 <= j < args.len() ==> (#[trigger] args[j]).0@ != name) ==> lookup(
            rendered_args(args),
            name,
        ) is None,
    decreases args.len(),
{
    lemma_untold(args, name);
    let front = args.drop_last();
    let before = rendered_args(front);
    let last = args.last();
    lemma_put_lookup(before, last.0@, rendered(last.1), args[i].0@);
    if i < front.len() {
        assert forall|j: int| i < j < front.len() implies (#[trigger] front[j]).0@
            != front[i].0@ by {
            assert(front[j] == args[j]);
        }
        assert(front[i] == args[i]);
        law_every_argument_is_told(front, i, name);
        assert(args[args.len() - 1].0@ != args[i].0@);
    }
}

/// A name that is not given is not told.
proof fn lemma_untold(args: Seq<(String, RenderedValue)>, name: Seq<char>)
    ensures
        (forall|j: int| 0 <= j < args.len() ==> (#[trigger] args[j]).0@ != name) ==> lookup(
            rendered_args(args),
            name,
        ) is None,
    decreases args.len(),
{
    if forall|j: int| 0 <= j < args.len() ==> (#[trigger] args[j]).0@ != name {
        if args.len() > 0 {
            let front = args.drop_last();
            assert forall|j: int| 0 <= j < front.len() implies (#[trigger] front[j]).0@ != name by {
                assert(front[j] == args[j]);
            }
            lemma_untold(front, name);
            assert(args[args.len() - 1].0@ != name);
            lemma_put_lookup(rendered_args(front), args.last().0@, rendered(args.last().1), name);
        } else {
            lemma_key_position(rendered_args(args), name);
        }
    }
}

/// What is put under a key is found there, and what is under another key stays.
pub proof fn lemma_put_lookup<V>(
    pairs: Seq<(Seq<char>, V)>,
    key: Seq<char>,
    value: V,
    other: Seq<char>,
)
    ensures
        lookup(put(pairs, key, value), other) == if other == key {
            Some(value)
        } else {
            lookup(pairs, other)
        },
{
    let after = put(pairs, key, value);
    crate::assoc::lemma_first_key(pairs, key);
    crate::assoc::lemma_first_key(pairs, other);
    crate::assoc::lemma_first_key(after, other);
    match key_position(pairs, key) {
        Some(i) => {
            assert(after =~= pairs.update(i, (key, value)));
            if other == key {
                assert(after[i].0 == other);
                assert(key_position(after, other) == Some(i)) by {
                    let k = key_position(after, other)->0;
                    if k < i {
                        assert(pairs[k].0 == other);
                    }
                }
            } else {
                match key_position(pairs, other) {
                    Some(j) => {
                        assert(after[j].0 == other);
                        let k = key_position(after, other)->0;
                        assert(k == j) by {
                            if k < j {
                                assert(pairs[k].0 == other);
                            }
                        }
                    },
                    None => {
                        if key_position(after, other) is Some {
                            let k = key_position(after, other)->0;
                            assert(pairs[k].0 == other);
                        }
                    },
                }
            }
        },
        None => {
            let n = pairs.len() as int;
            assert(after[n] == (key, value));
            if other == key {
                assert(after[n].0 == other);
                let k = key_position(after, other)->0;
                assert(k == n) by {
                    if k < n {
                        assert(pairs[k].0 == other);
                    }
                }
            } else {
                match key_position(pairs, other) {
                    Some(j) => {
                        assert(after[j].0 == other);
                        let k = key_position(after, other)->0;
                        assert(k == j) by {
                            if k < j {
                                assert(pairs[k].0 == other);
                            }
                        }
                    },
                    None => {
                        if key_position(after, other) is Some {
                            let k = key_position(after, other)->0;
                            assert(k < n);
                            assert(pairs[k].0 == other);
                        }
                    },
                }
            }
        },
    }
}

// ---------------------------------------------------------------------------
// Tests
// ---------------------------------------------------------------------------

/// A group holds all tests of its testset, in order.
pub proof fn law_a_group_has_all_its_tests(tests: Seq<DiscoveredTest>, name: Seq<char>)
    ensures
        group(tests, name) == tests.filter(
            |t: DiscoveredTest|
                (t.testset_name matches Some(own) && own@ == name) || (t.testset_name is None
                    && name == "default"@),
        ),
    decreases tests.len(),
{
    reveal(Seq::filter);
    if tests.len() > 0 {
        law_a_group_has_all_its_tests(tests.drop_last(), name);
    }
}

/// The groups are those that some test belongs to, in the order in which they
/// first appear.
pub proof fn law_groups_are_those_of_the_tests(tests: Seq<DiscoveredTest>, name: Seq<char>, n: int)
    requires
        0 <= n <= tests.len(),
    ensures
        group_names(tests).contains(name) ==> exists|i: int|
            0 <= i < tests.len() && group_of(#[trigger] tests[i]) == name,
        group_names(tests.take(n)).is_prefix_of(group_names(tests)),
    decreases tests.len(),
{
    if tests.len() > 0 {
        let front = tests.drop_last();
        let before = group_names(front);
        let names = group_names(tests);
        law_groups_are_those_of_the_tests(
            front,
            name,
            if n < tests.len() {
                n
            } else {
                n - 1
            },
        );
        assert(tests[tests.len() - 1] == tests.last());
        assert(before.is_prefix_of(names));
        if before.contains(name) {
            let i = choose|i: int| 0 <= i < front.len() && group_of(#[trigger] front[i]) == name;
            assert(tests[i] == front[i]);
        } else if names.contains(name) {
            let k = choose|k: int| 0 <= k < names.len() && names[k] == name;
            if k < before.len() {
                assert(before[k] == name);
            }
        }
        if n < tests.len() {
            assert(front.take(n) =~= tests.take(n));
        } else {
            assert(tests.take(n) =~= tests);
        }
    } else {
        assert(tests.take(n) =~= tests);
    }
}

/// A test was found: it is that of a function reference of a test of a file.
pub open spec fn found_in(files: Seq<TestFile>, t: TestModel, file: int, test: int) -> bool {
    &&& 0 <= file < files.len()
    &&& 0 <= test < files[file].tests@.len()
    &&& files[file].tests@[test].function_refs.deep_view().contains(t.function_name)
    &&& files[file].tests@[test].name@ == t.test_name
    &&& files[file].path@ == t.file_path
}

/// Only what stands in the files is discovered, with the path of the file, as a
/// test that lists its functions; and what earlier files hold comes first.
pub proof fn law_discovered_stands_in_the_files(
    files: Seq<TestFile>,
    filter: Seq<Seq<char>>,
    k: int,
    n: int,
)
    requires
        0 <= k < discovered(files, filter).len(),
        0 <= n <= files.len(),
    ensures
        ({
            let t = discovered(files, filter)[k];
            &&& t.kind is Legacy
            &&& t.testset_name is None
            &&& t.test_source is None
            &&& exists|file: int, test: int| found_in(files, t, file, test)
        }),
        discovered(files.take(n), filter).is_prefix_of(discovered(files, filter)),
    decreases files.len(),
{
    lemma_discovered_prefix(files, filter, n);
    if files.len() > 0 {
        let front = files.drop_last();
        let before = discovered(front, filter);
        let last = files.last();
        let t = discovered(files, filter)[k];
        lemma_tests_from(before, last.tests@, last.path@, filter, k);
        if k < before.len() {
            law_discovered_stands_in_the_files(front, filter, k, front.len() as int);
            let (file, test) = choose|file: int, test: int|
                found_in(front, before[k], file, test);
            assert(files[file] == front[file]);
            assert(found_in(files, t, file, test));
        } else {
            let test = choose|test: int|
                0 <= test < last.tests@.len() && (
                #[trigger] last.tests@[test]).function_refs.deep_view().contains(t.function_name)
                    && last.tests@[test].name@ == t.test_name;
            assert(files[files.len() - 1] == last);
            assert(found_in(files, t, files.len() - 1, test));
        }
    }
}

proof fn lemma_discovered_prefix(files: Seq<TestFile>, filter: Seq<Seq<char>>, n: int)
    requires
        0 <= n <= files.len(),
    ensures
        discovered(files.take(n), filter).is_prefix_of(discovered(files, filter)),
    decreases files.len(),
{
    if n < files.len() {
        let front = files.drop_last();
        let before = discovered(front, filter);
        lemma_discovered_prefix(front, filter, n);
        assert(front.take(n) =~= files.take(n));
        lemma_tests_grow(before, files.last().tests@, files.last().path@, filter);
    } else {
        assert(files.take(n) =~= files);
    }
}

proof fn lemma_refs_grow(
    before: Seq<TestModel>,
    refs: Seq<Seq<char>>,
    name: Seq<char>,
    path: Seq<char>,
    filter: Seq<Seq<char>>,
)
    ensures
        before.is_prefix_of(after_refs(before, refs, name, path, filter)),
        forall|k: int|
            before.len() <= k < after_refs(before, refs, name, path, filter).len() ==> {
                let t = #[trigger] after_refs(before, refs, name, path, filter)[k];
                &&& refs.contains(t.function_name)
                &&& t.test_name == name
                &&& t.file_path == path
                &&& t.kind is Legacy
                &&& t.testset_name is None
                &&& t.test_source is None
            },
    decreases refs.len(),
{
    if refs.len() > 0 {
        let front = refs.drop_last();
        lemma_refs_grow(before, front, name, path, filter);
        let mid = after_refs(before, front, name, path, filter);
        let after = after_refs(before, refs, name, path, filter);
        assert(refs[refs.len() - 1] == refs.last());
        assert forall|k: int| before.len() <= k < after.len() implies {
            let t = #[trigger] after[k];
            &&& refs.contains(t.function_name)
            &&& t.test_name == name
            &&& t.file_path == path
            &&& t.kind is Legacy
            &&& t.testset_name is None
            &&& t.test_source is None
        } by {
            if k < mid.len() {
                assert(after[k] == mid[k]);
                let i = choose|i: int| 0 <= i < front.len() && front[i] == mid[k].function_name;
                assert(refs[i] == front[i]);
            }
        }
    }
}

proof fn lemma_tests_grow(
    before: Seq<TestModel>,
    tests: Seq<TestItem>,
    path: Seq<char>,
    filter: Seq<Seq<char>>,
)
    ensures
        before.is_prefix_of(after_tests(before, tests, path, filter)),
    decreases tests.len(),
{
    if tests.len() > 0 {
        let mid = after_tests(before, tests.drop_last(), path, filter);
        lemma_tests_grow(before, tests.drop_last(), path, filter);
        lemma_refs_grow(
            mid,
            tests.last().function_refs.deep_view(),
            tests.last().name@,
            path,
            filter,
        );
    }
}

proof fn lemma_tests_from(
    before: Seq<TestModel>,
    tests: Seq<TestItem>,
    path: Seq<char>,
    filter: Seq<Seq<char>>,
    k: int,
)
    requires
        0 <= k < after_tests(before, tests, path, filter).len(),
    ensures
        ({
            let t = after_tests(before, tests, path, filter)[k];
            if k < before.len() {
                t == before[k]
            } else {
                &&& t.file_path == path
                &&& t.kind is Legacy
                &&& t.testset_name is None
                &&& t.test_source is None
                &&& exists|test: int|
                    0 <= test < tests.len() && (
                    #[trigger] tests[test]).function_refs.deep_view().contains(t.function_name)
                        && tests[test].name@ == t.test_name
            }
        }),
    decreases tests.len(),
{
    lemma_tests_grow(before, tests, path, filter);
    if tests.len() > 0 {
        let front = tests.drop_last();
        let mid = after_tests(before, front, path, filter);
        let after = after_tests(before, tests, path, filter);
        lemma_refs_grow(
            mid,
            tests.last().function_refs.deep_view(),
            tests.last().name@,
            path,
            filter,
        );
        assert(tests[tests.len() - 1] == tests.last());
        if k < mid.len() {
            lemma_tests_from(before, front, path, filter, k);
            assert(after[k] == mid[k]);
            if k >= before.len() {
                let test = choose|test: int|
                    0 <= test < front.len() && (
                    #[trigger] front[test]).function_refs.deep_view().contains(
                        mid[k].function_name,
                    ) && front[test].name@ == mid[k].test_name;
                assert(tests[test] == front[test]);
            }
        }
    }
}

/// Cutting out the source of a test changes nothing else of it.
pub proof fn law_only_the_source_is_added(
    test: TestModel,
    paths: Seq<(Seq<char>, Site)>,
    files: Seq<ParsedFile>,
)
    ensures
        with_source(test, paths, files).function_name == test.function_name,
        with_source(test, paths, files).test_name == test.test_name,
        with_source(test, paths, files).testset_name == test.testset_name,
        with_source(test, paths, files).file_path == test.file_path,
        with_source(test, paths, files).kind == test.kind,
        test.kind matches TestKindModel::Testset { full_path } && (lookup(
            paths,
            full_path,
        ) matches Some(site) && site.end <= vstd::utf8::encode_utf8(
            files[site.file as int].text@,
        ).len()) ==> with_source(test, paths, files).test_source == Some(
            vstd::utf8::decode_utf8(
                vstd::utf8::encode_utf8(
                    files[lookup(paths, test.kind->full_path)->0.file as int].text@,
                ).subrange(
                    lookup(paths, test.kind->full_path)->0.start as int,
                    lookup(paths, test.kind->full_path)->0.end as int,
                ),
            ),
        ),
{
}

/// Testset tests join the others, behind them, as tests of the function, and
/// are otherwise as they were.
pub proof fn law_combined_tests_keep_their_data(
    tests: Seq<TestModel>,
    testset_tests: Seq<TestModel>,
    function: Seq<char>,
    i: int,
)
    ensures
        combined(tests, testset_tests, function).len() == tests.len() + testset_tests.len(),
        0 <= i < tests.len() ==> combined(tests, testset_tests, function)[i] == tests[i],
        0 <= i < testset_tests.len() ==> {
            let t = combined(tests, testset_tests, function)[tests.len() + i];
            &&& t.function_name == function
            &&& t.test_name == testset_tests[i].test_name
            &&& t.testset_name == testset_tests[i].testset_name
            &&& t.file_path == testset_tests[i].file_path
            &&& t.kind == testset_tests[i].kind
            &&& t.test_source == testset_tests[i].test_source
        },
{
}

// ---------------------------------------------------------------------------
// Diagnostics, objectives, numbers
// ---------------------------------------------------------------------------

/// The messages are those of all errors, in order.
pub proof fn law_every_error_is_told(diagnostics: Seq<Diagnostic>)
    ensures
        error_messages(diagnostics) == diagnostics.filter(
            |d: Diagnostic| d.is_error,
        ).map_values(|d: Diagnostic| d.message@),
    decreases diagnostics.len(),
{
    reveal(Seq::filter);
    let keep = |d: Diagnostic| d.is_error;
    let f = |d: Diagnostic| d.message@;
    if diagnostics.len() > 0 {
        let front = diagnostics.drop_last();
        law_every_error_is_told(front);
        if keep(diagnostics.last()) {
            assert(diagnostics.filter(keep) == front.filter(keep).push(diagnostics.last()));
            assert(diagnostics.filter(keep).map_values(f) =~= front.filter(keep).map_values(f).push(
                diagnostics.last().message@,
            ));
        }
    } else {
        assert(diagnostics.filter(keep).map_values(f) =~= Seq::<Seq<char>>::empty());
    }
}

/// Each of the first ten errors stands in what is told of a compilation that
/// failed.
pub proof fn law_the_first_errors_are_shown(errors: Seq<Seq<char>>, k: int)
    requires
        0 <= k < errors.len(),
        k < 10,
    ensures
        occurs(failure_text(errors), errors[k]),
{
    let shown = first_of(errors, 10);
    assert(shown[k] == errors[k]);
    lemma_join_holds(shown, "; "@, k);
    let all = join(shown, "; "@);
    let head = "compilation failed ("@ + crate::text::decimal(errors.len()) + " error(s)): "@;
    let i = choose|i: int| occurs_at(all, errors[k], i);
    let text = failure_text(errors);
    let n = errors[k].len() as int;
    assert(text.subrange(head.len() + i, head.len() + i + n) =~= all.subrange(i, i + n));
    assert(occurs_at(text, errors[k], head.len() + i));
}

/// Each part stands in the joined text.
pub proof fn lemma_join_holds(parts: Seq<Seq<char>>, sep: Seq<char>, k: int)
    requires
        0 <= k < parts.len(),
    ensures
        occurs(join(parts, sep), parts[k]),
    decreases parts.len(),
{
    let whole = join(parts, sep);
    let n = parts[k].len() as int;
    if parts.len() == 1 {
        assert(whole.subrange(0, n) =~= parts[k]);
        assert(occurs_at(whole, parts[k], 0));
    } else {
        let front = parts.drop_last();
        let head = join(front, sep);
        if k < front.len() {
            lemma_join_holds(front, sep, k);
            let i = choose|i: int| occurs_at(head, parts[k], i);
            assert(whole.subrange(i, i + n) =~= head.subrange(i, i + n));
            assert(occurs_at(whole, parts[k], i));
        } else {
            let at = (head.len() + sep.len()) as int;
            assert(whole.subrange(at, at + n) =~= parts[k]);
            assert(occurs_at(whole, parts[k], at));
        }
    }
}

/// Every part of an objective list with a `=` is read, in order; the others are
/// passed over.
pub proof fn law_every_objective_part_is_read(parts: Seq<Seq<char>>)
    ensures
        parts_of(parts) == parts.filter(
            |part: Seq<char>| objective_part(part) is Some,
        ).map_values(|part: Seq<char>| objective_part(part)->0),
    decreases parts.len(),
{
    reveal(Seq::filter);
    let keep = |part: Seq<char>| objective_part(part) is Some;
    let f = |part: Seq<char>| objective_part(part)->0;
    if parts.len() > 0 {
        let front = parts.drop_last();
        law_every_objective_part_is_read(front);
        if keep(parts.last()) {
            assert(parts.filter(keep) == front.filter(keep).push(parts.last()));
            assert(parts.filter(keep).map_values(f) =~= front.filter(keep).map_values(f).push(
                objective_part(parts.last())->0,
            ));
        }
    } else {
        assert(parts.filter(keep).map_values(f) =~= Seq::<(Seq<char>, Seq<char>)>::empty());
    }
}

/// A part `name=weight`, with or without white space around either, is read as
/// that name and that weight. `a` to `d` are the white space.
pub proof fn law_a_part_is_read_as_written(
    a: Seq<char>,
    name: Seq<char>,
    b: Seq<char>,
    c: Seq<char>,
    weight: Seq<char>,
    d: Seq<char>,
)
    requires
        !name.contains('='),
        name.len() > 0,
        weight.len() > 0,
        !is_space(name[0]),
        !is_space(name.last()),
        !is_space(weight[0]),
        !is_space(weight.last()),
        forall|i: int| 0 <= i < a.len() ==> is_space(#[trigger] a[i]),
        forall|i: int| 0 <= i < b.len() ==> is_space(#[trigger] b[i]),
        forall|i: int| 0 <= i < c.len() ==> is_space(#[trigger] c[i]),
        forall|i: int| 0 <= i < d.len() ==> is_space(#[trigger] d[i]),
    ensures
        objective_part(a + (name + b + seq!['='] + (c + weight)) + d) == Some((name, weight)),
{
    let part = name + b + seq!['='] + (c + weight);
    let none = Seq::<char>::empty();
    assert(part[0] == name[0]);
    assert(part.last() == weight.last());
    lemma_trim_around(a, part, d);
    lemma_trim_around(none, name, b);
    lemma_trim_around(c, weight, none);
    assert(none + name + b =~= name + b);
    assert(c + weight + none =~= c + weight);
    let n = (name.len() + b.len()) as int;
    let p = crate::text::stands(part, '=');
    assert(part[n] == '=');
    assert forall|j: int| 0 <= j < n implies !#[trigger] p(j) by {
        if j < name.len() {
            assert(part[j] == name[j]);
        } else {
            assert(part[j] == b[j - name.len()]);
        }
    }
    assert(p(n));
    crate::text::lemma_seek_is(p, 0, part.len() as int, n);
    assert(part.take(n) =~= name + b);
    assert(part.skip(n + 1) =~= c + weight);
}

/// Trimming takes off the white space around a text that has none at its ends.
proof fn lemma_trim_around(a: Seq<char>, text: Seq<char>, b: Seq<char>)
    requires
        text.len() > 0,
        !is_space(text[0]),
        !is_space(text.last()),
        forall|i: int| 0 <= i < a.len() ==> is_space(#[trigger] a[i]),
        forall|i: int| 0 <= i < b.len() ==> is_space(#[trigger] b[i]),
    ensures
        crate::text::trim(a + text + b) == text,
{
    let s = a + text + b;
    let n = a.len() as int;
    let m = n + text.len();
    crate::text::law_trimming_takes_white_space_off(s);
    let (c, d) = choose|c: int, d: int|
        0 <= c <= d <= s.len() && #[trigger] s.subrange(c, d) == crate::text::trim(s) && (forall|
            i: int,
        |
            0 <= i < c || d <= i < s.len() ==> is_space(#[trigger] s[i]));
    let cut = s.subrange(c, d);
    assert(s[n] == text[0]);
    assert(s[m - 1] == text.last());
    assert(c <= n && m <= d);
    assert(cut[0] == s[c]);
    assert(cut.last() == s[d - 1]);
    assert(c == n) by {
        if c < n {
            assert(s[c] == a[c]);
        }
    }
    assert(d == m) by {
        if d > m {
            assert(s[d - 1] == b[d - 1 - m]);
        }
    }
    assert(cut =~= text);
}

/// Every objective with a name and a weight is kept, in order: adding a part
/// adds its objective behind the others, or nothing.
pub proof fn law_every_weighted_objective_is_kept(
    parts: Seq<(Seq<char>, Seq<char>)>,
    weights: Seq<Option<Measure>>,
    i: int,
)
    requires
        0 <= i < parts.len() <= weights.len(),
    ensures
        parts[i].0.len() > 0 && (weights[i] matches Some(weight)) ==> objectives_of(
            parts,
            weights,
        ).contains(
            (ObjectiveModel {
                name: parts[i].0,
                direction: if parts[i].0 == "tokens"@ || parts[i].0 == "latency"@ {
                    crate::pareto::Direction::Minimize
                } else {
                    crate::pareto::Direction::Maximize
                },
                weight: weights[i]->0,
            }),
        ),
        objectives_of(parts.take(i), weights).is_prefix_of(objectives_of(parts, weights)),
        objectives_of(parts, weights).len() <= parts.len(),
    decreases parts.len(),
{
    let front = parts.drop_last();
    let before = objectives_of(front, weights);
    let after = objectives_of(parts, weights);
    assert(before.is_prefix_of(after));
    if i < front.len() {
        law_every_weighted_objective_is_kept(front, weights, i);
        assert(front.take(i) =~= parts.take(i));
        if parts[i].0.len() > 0 && weights[i] is Some {
            let o = ObjectiveModel {
                name: parts[i].0,
                direction: default_direction(parts[i].0),
                weight: weights[i]->0,
            };
            assert(before.contains(o));
            let k = choose|k: int| 0 <= k < before.len() && before[k] == o;
            assert(after[k] == o);
        }
    } else {
        assert(parts.take(i) =~= front);
        if front.len() > 0 {
            law_every_weighted_objective_is_kept(front, weights, front.len() - 1);
        }
        if parts[i].0.len() > 0 && weights[i] is Some {
            assert(after[before.len() as int].name == parts[i].0);
        }
    }
}

/// Sums add up: the whole numbers of two lists add up to the sum of both sums,
/// the other numbers follow each other, and what is no number does not count.
pub proof fn law_sums_add_up(a: Seq<SumItem>, b: Seq<SumItem>, n: i64, x: Measure)
    ensures
        whole_sum(a + b) == whole_sum(a) + whole_sum(b),
        fractions(a + b) == fractions(a) + fractions(b),
        whole_sum(seq![SumItem::Whole(n)]) == n,
        fractions(seq![SumItem::Whole(n)]).len() == 0,
        whole_sum(seq![SumItem::Fraction(x)]) == 0,
        fractions(seq![SumItem::Fraction(x)]) == seq![x],
        whole_sum(seq![SumItem::Other]) == 0,
        fractions(seq![SumItem::Other]).len() == 0,
    decreases b.len(),
{
    let none = Seq::<SumItem>::empty();
    assert(seq![SumItem::Whole(n)].drop_last() =~= none);
    assert(seq![SumItem::Fraction(x)].drop_last() =~= none);
    assert(seq![SumItem::Other].drop_last() =~= none);
    assert(whole_sum(none) == 0 && fractions(none) =~= Seq::<Measure>::empty());
    assert(fractions(seq![SumItem::Fraction(x)]) =~= seq![x]);
    if b.len() == 0 {
        assert(a + b =~= a);
        assert(fractions(a) + fractions(b) =~= fractions(a));
    } else {
        law_sums_add_up(a, b.drop_last(), n, x);
        assert((a + b).drop_last() =~= a + b.drop_last());
        assert((a + b).last() == b.last());
        assert(fractions(a + b) =~= fractions(a) + fractions(b));
    }
}

// ---------------------------------------------------------------------------
// Files
// ---------------------------------------------------------------------------

/// The files that are written are all that have changed, in order, each below
/// the root with its new text.
pub proof fn law_every_changed_file_is_written(
    root: Seq<char>,
    sources: Seq<FileModel>,
    modified: Seq<FileModel>,
)
    ensures
        to_write(root, sources, modified) == modified.filter(
            |file: FileModel| !unchanged(sources, file),
        ).map_values(
            |file: FileModel| FileModel { path: joined(root, file.path), content: file.content },
        ),
    decreases modified.len(),
{
    reveal(Seq::filter);
    let keep = |file: FileModel| !unchanged(sources, file);
    let f = |file: FileModel| FileModel { path: joined(root, file.path), content: file.content };
    if modified.len() > 0 {
        let front = modified.drop_last();
        law_every_changed_file_is_written(root, sources, front);
        if keep(modified.last()) {
            assert(modified.filter(keep) == front.filter(keep).push(modified.last()));
            assert(modified.filter(keep).map_values(f) =~= front.filter(keep).map_values(f).push(
                f(modified.last()),
            ));
        }
    } else {
        assert(modified.filter(keep).map_values(f) =~= Seq::<FileModel>::empty());
    }
}

/// A file is unchanged exactly if the first source with its path has its text.
pub proof fn law_unchanged_files_have_the_old_text(sources: Seq<FileModel>, file: FileModel, i: int)
    requires
        0 <= i < sources.len(),
        path_key(sources[i].path) == path_key(file.path),
        forall|j: int| 0 <= j < i ==> path_key((#[trigger] sources[j]).path) != path_key(file.path),
    ensures
        unchanged(sources, file) <==> sources[i].content == file.content,
{
    let p = crate::storage::file_at(sources, file.path);
    assert(p(i));
    assert forall|j: int| 0 <= j < i implies !#[trigger] p(j) by {
        assert(path_key(sources[j].path) != path_key(file.path));
    }
    crate::text::lemma_seek_is(p, 0, sources.len() as int, i);
}

/// Every entry is looked at: a BAML file is listed, in the order of the walk,
/// exactly if it and all that it lies in are traversed.
pub proof fn law_every_traversed_baml_file_is_listed(entries: Seq<WalkedEntry>, i: int)
    requires
        0 <= i < entries.len(),
    ensures
        baml_paths(entries.take(i + 1)) == baml_paths(entries.take(i)) + if entries[i].is_file
            && is_baml(entries[i].path@) && (forall|j: int|
            #![trigger entries[j]]
            lies_in(entries, i, j) ==> open_entry(entries[j])) {
            seq![entries[i].path@]
        } else {
            Seq::empty()
        },
{
    law_pruned_subtrees_are_skipped(entries, i);
    let upto = entries.take(i + 1);
    assert(upto.drop_last() =~= entries.take(i));
    assert(upto.last() == entries[i]);
    let before = baml_paths(entries.take(i));
    assert(before + Seq::<Seq<char>>::empty() =~= before);
    assert(before + seq![entries[i].path@] =~= before.push(entries[i].path@));
}

// ---------------------------------------------------------------------------
// Recorded results
// ---------------------------------------------------------------------------

/// The results of a candidate are those that were recorded last: recording
/// results makes them the candidate's, and leaves those of the others.
pub proof fn law_recorded_results_are_found(
    last_results: Seq<(usize, Vec<TestResult>)>,
    id: usize,
    results: Vec<TestResult>,
    other: usize,
)
    ensures
        results_of(last_results.push((id, results)), id) == Some(results@),
        other != id ==> results_of(last_results.push((id, results)), other) == results_of(
            last_results,
            other,
        ),
        results_of(Seq::empty(), id) is None,
{
    let more = last_results.push((id, results));
    assert(more.drop_last() =~= last_results);
}

/// Fewer tokens and less latency are better; of anything else more is.
pub proof fn law_tokens_and_latency_are_minimized(name: Seq<char>)
    ensures
        default_direction("tokens"@) == Direction::Minimize,
        default_direction("latency"@) == Direction::Minimize,
        name != "tokens"@ && name != "latency"@ ==> default_direction(name) == Direction::Maximize,
{
}

/// Tests are discovered in the order in which they stand in a file, and those of
/// one test in the order of its references: what is discovered of the first of
/// them comes first.
pub proof fn law_discovery_keeps_the_order_of_a_file(
    before: Seq<TestModel>,
    tests: Seq<TestItem>,
    refs: Seq<Seq<char>>,
    name: Seq<char>,
    path: Seq<char>,
    filter: Seq<Seq<char>>,
    n: int,
)
    ensures
        0 <= n <= tests.len() ==> after_tests(before, tests.take(n), path, filter).is_prefix_of(
            after_tests(before, tests, path, filter),
        ),
        0 <= n <= refs.len() ==> after_refs(before, refs.take(n), name, path, filter).is_prefix_of(
            after_refs(before, refs, name, path, filter),
        ),
    decreases tests.len() + refs.len(),
{
    if 0 <= n < tests.len() {
        let front = tests.drop_last();
        law_discovery_keeps_the_order_of_a_file(before, front, Seq::empty(), name, path, filter, n);
        assert(front.take(n) =~= tests.take(n));
        lemma_refs_grow(
            after_tests(before, front, path, filter),
            tests.last().function_refs.deep_view(),
            tests.last().name@,
            path,
            filter,
        );
    } else if n == tests.len() {
        assert(tests.take(n) =~= tests);
    }
    if 0 <= n < refs.len() {
        let front = refs.drop_last();
        law_discovery_keeps_the_order_of_a_file(before, Seq::empty(), front, name, path, filter, n);
        assert(front.take(n) =~= refs.take(n));
        let mid = after_refs(before, front, name, path, filter);
        assert(mid.is_prefix_of(after_refs(before, refs, name, path, filter)));
    } else if n == refs.len() {
        assert(refs.take(n) =~= refs);
    }
}

} // verus!
