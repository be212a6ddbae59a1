//! Evaluator: what one test run and a batch of test runs amount to.
//!
//! The caller executes tests, at most [`Evaluator::parallel`] at a time, and
//! does the floating-point divisions; the tallies, the order of arguments and
//! the outcome of a run are decided here.

use vstd::prelude::*;
use vstd::string::*;

use crate::candidate::{CandidateScores, ScoresModel};
use crate::measure::Measure;
use crate::text::same_text;
use crate::value_bridge::BexExternalValue;

verus! {

/// A runtime value with the name of its type and the texts of the doubles in
/// it.
#[derive(Debug)]
pub struct RenderedValue {
    pub value: BexExternalValue,
    pub kind: String,
    pub float_texts: Vec<(Measure, String)>,
}

/// Result of a single test execution.
#[derive(Debug)]
pub struct TestResult {
    pub function_name: String,
    pub test_name: String,
    pub testset_name: Option<String>,
    pub passed: bool,
    pub error: Option<String>,
    pub latency_ms: Measure,
    pub input_tokens: Option<i64>,
    pub output_tokens: Option<i64>,
    pub input_args: Vec<(String, RenderedValue)>,
    pub output: Option<RenderedValue>,
}

/// Runs tests in parallel and aggregates scores.
#[derive(Debug)]
pub struct Evaluator {
    pub parallel: usize,
}

impl Evaluator {
    /// An evaluator that runs `parallel` tests at a time, and at least one.
    pub fn new(parallel: usize) -> (r: Self)
        ensures
            r.parallel == if parallel >= 1 {
                parallel
            } else {
                1
            },
    {
        if parallel >= 1 {
            Evaluator { parallel }
        } else {
            Evaluator { parallel: 1 }
        }
    }
}

// ---------------------------------------------------------------------------
// Tallies
// ---------------------------------------------------------------------------

/// How many of the results passed.
pub open spec fn count_passed(results: Seq<TestResult>) -> nat
    decreases results.len(),
{
    if results.len() == 0 {
        0
    } else {
        count_passed(results.drop_last()) + if results.last().passed {
            1nat
        } else {
            0nat
        }
    }
}

/// The input tokens of each result.
pub open spec fn input_tokens(results: Seq<TestResult>) -> Seq<Option<i64>> {
    results.map_values(|r: TestResult| r.input_tokens)
}

/// The output tokens of each result.
pub open spec fn output_tokens(results: Seq<TestResult>) -> Seq<Option<i64>> {
    results.map_values(|r: TestResult| r.output_tokens)
}

/// The sum of the counts that are known.
pub open spec fn token_sum(tokens: Seq<Option<i64>>) -> int
    decreases tokens.len(),
{
    if tokens.len() == 0 {
        0
    } else {
        token_sum(tokens.drop_last()) + match tokens.last() {
            Some(t) => t as int,
            None => 0,
        }
    }
}

/// How many of the counts are known.
pub open spec fn token_count(tokens: Seq<Option<i64>>) -> nat
    decreases tokens.len(),
{
    if tokens.len() == 0 {
        0
    } else {
        token_count(tokens.drop_last()) + match tokens.last() {
            Some(t) => 1nat,
            None => 0nat,
        }
    }
}

/// Every running sum of the known counts fits a signed word.
pub open spec fn sums_fit(tokens: Seq<Option<i64>>) -> bool {
    forall|k: int|
        0 <= k <= tokens.len() ==> i64::MIN <= #[trigger] token_sum(tokens.take(k)) <= i64::MAX
}

/// The testset that a result counts for.
pub open spec fn testset_of(r: TestResult) -> Seq<char> {
    match r.testset_name {
        Some(name) => name@,
        None => "default"@,
    }
}

/// The testsets in the order in which they first appear.
pub open spec fn testset_names(results: Seq<TestResult>) -> Seq<Seq<char>>
    decreases results.len(),
{
    if results.len() == 0 {
        Seq::empty()
    } else {
        let before = testset_names(results.drop_last());
        if before.contains(testset_of(results.last())) {
            before
        } else {
            before.push(testset_of(results.last()))
        }
    }
}

/// The results that count for a testset.
pub open spec fn of_testset(results: Seq<TestResult>, name: Seq<char>) -> Seq<TestResult>
    decreases results.len(),
{
    if results.len() == 0 {
        Seq::empty()
    } else if testset_of(results.last()) == name {
        of_testset(results.drop_last(), name).push(results.last())
    } else {
        of_testset(results.drop_last(), name)
    }
}

/// A sum of token counts and how many went into it.
#[derive(Clone, Copy, Debug, PartialEq, Eq, Structural)]
pub struct TokenTally {
    pub sum: i64,
    pub count: usize,
}

/// How many tests of a testset passed, and how many there are.
#[derive(Debug)]
pub struct TestsetTally {
    pub name: String,
    pub passed: usize,
    pub total: usize,
}

/// The whole numbers behind the scores of a batch.
#[derive(Debug)]
pub struct Tally {
    pub total: usize,
    pub passed: usize,
    pub input: TokenTally,
    pub output: TokenTally,
    pub testsets: Vec<TestsetTally>,
}

/// The tally of each testset.
pub open spec fn testsets_tallied(
    testsets: Seq<TestsetTally>,
    results: Seq<TestResult>,
) -> bool {
    &&& testsets.len() == testset_names(results).len()
    &&& forall|i: int|
        0 <= i < testsets.len() ==> {
            let name = testset_names(results)[i];
            &&& (#[trigger] testsets[i]).name@ == name
            &&& testsets[i].passed == count_passed(of_testset(results, name))
            &&& testsets[i].total == of_testset(results, name).len()
        }
}

/// `tally` is the tally of `results`.
pub open spec fn tallied(tally: Tally, results: Seq<TestResult>) -> bool {
    &&& tally.total == results.len()
    &&& tally.passed == count_passed(results)
    &&& tally.input.sum == token_sum(input_tokens(results))
    &&& tally.input.count == token_count(input_tokens(results))
    &&& tally.output.sum == token_sum(output_tokens(results))
    &&& tally.output.count == token_count(output_tokens(results))
    &&& testsets_tallied(tally.testsets@, results)
}

/// No more pass than there are.
proof fn lemma_count_passed(results: Seq<TestResult>)
    ensures
        count_passed(results) <= results.len(),
    decreases results.len(),
{
    if results.len() > 0 {
        lemma_count_passed(results.drop_last());
    }
}

/// A testset has no more results than there are, and has one exactly if it is
/// among the names; the names are distinct.
proof fn lemma_testsets(results: Seq<TestResult>, name: Seq<char>)
    ensures
        of_testset(results, name).len() <= results.len(),
        testset_names(results).contains(name) <==> of_testset(results, name).len() > 0,
        testset_names(results).no_duplicates(),
        testset_names(results).len() <= results.len(),
    decreases results.len(),
{
    if results.len() > 0 {
        let front = results.drop_last();
        let last = testset_of(results.last());
        let before = testset_names(front);
        lemma_testsets(front, name);
        lemma_testsets(front, last);
        if !before.contains(last) {
            assert forall|x: Seq<char>| before.push(last).contains(x) <==> before.contains(x) || x
                == last by {
                if before.contains(x) {
                    let i = choose|i: int| 0 <= i < before.len() && before[i] == x;
                    assert(before.push(last)[i] == x);
                }
                assert(before.push(last)[before.len() as int] == last);
            }
        }
    }
}

/// Adds up the counts that are known.
fn tally_tokens(results: &Vec<TestResult>, input: bool) -> (r: TokenTally)
    requires
        input ==> sums_fit(input_tokens(results@)),
        !input ==> sums_fit(output_tokens(results@)),
    ensures
        input ==> r.sum == token_sum(input_tokens(results@)) && r.count == token_count(
            input_tokens(results@),
        ),
        !input ==> r.sum == token_sum(output_tokens(results@)) && r.count == token_count(
            output_tokens(results@),
        ),
{
    let ghost tokens = if input {
        input_tokens(results@)
    } else {
        output_tokens(results@)
    };
    let mut sum: i64 = 0;
    let mut count: usize = 0;
    let mut k: usize = 0;
    proof {
        assert(tokens.take(0) =~= Seq::<Option<i64>>::empty());
    }
    while k < results.len()
        invariant
            k <= results.len(),
            tokens == if input {
                input_tokens(results@)
            } else {
                output_tokens(results@)
            },
            sums_fit(tokens),
            count <= k,
            sum == token_sum(tokens.take(k as int)),
            count == token_count(tokens.take(k as int)),
        decreases results.len() - k,
    {
        let t = if input {
            results[k].input_tokens
        } else {
            results[k].output_tokens
        };
        proof {
            assert(tokens.take(k + 1).drop_last() =~= tokens.take(k as int));
            assert(tokens.take(k + 1).last() == t);
            assert(i64::MIN <= token_sum(tokens.take(k + 1)) <= i64::MAX);
        }
        match t {
            Some(n) => {
                sum = sum + n;
                count = count + 1;
            },
            None => {},
        }
        k = k + 1;
    }
    assert(tokens.take(tokens.len() as int) =~= tokens);
    TokenTally { sum, count }
}

/// Whether every running sum of the input tokens, and of the output tokens,
/// fits a signed word.
pub fn token_sums_fit(results: &Vec<TestResult>) -> (r: bool)
    ensures
        r == (sums_fit(input_tokens(results@)) && sums_fit(output_tokens(results@))),
{
    let ghost inputs = input_tokens(results@);
    let ghost outputs = output_tokens(results@);
    let mut input: i64 = 0;
    let mut output: i64 = 0;
    let mut k: usize = 0;
    proof {
        assert(inputs.take(0) =~= Seq::<Option<i64>>::empty());
        assert(outputs.take(0) =~= Seq::<Option<i64>>::empty());
    }
    while k < results.len()
        invariant
            k <= results.len(),
            inputs == input_tokens(results@),
            outputs == output_tokens(results@),
            input == token_sum(inputs.take(k as int)),
            output == token_sum(outputs.take(k as int)),
            forall|j: int|
                0 <= j <= k ==> i64::MIN <= #[trigger] token_sum(inputs.take(j)) <= i64::MAX,
            forall|j: int|
                0 <= j <= k ==> i64::MIN <= #[trigger] token_sum(outputs.take(j)) <= i64::MAX,
        decreases results.len() - k,
    {
        proof {
            assert(inputs.take(k + 1).drop_last() =~= inputs.take(k as int));
            assert(inputs.take(k + 1).last() == results@[k as int].input_tokens);
            assert(outputs.take(k + 1).drop_last() =~= outputs.take(k as int));
            assert(outputs.take(k + 1).last() == results@[k as int].output_tokens);
        }
        match results[k].input_tokens {
            Some(n) => {
                match input.checked_add(n) {
                    Some(sum) => {
                        input = sum;
                    },
                    None => {
                        assert(!(i64::MIN <= token_sum(inputs.take(k + 1)) <= i64::MAX));
                        return false;
                    },
                }
            },
            None => {},
        }
        match results[k].output_tokens {
            Some(n) => {
                match output.checked_add(n) {
                    Some(sum) => {
                        output = sum;
                    },
                    None => {
                        assert(!(i64::MIN <= token_sum(outputs.take(k + 1)) <= i64::MAX));
                        return false;
                    },
                }
            },
            None => {},
        }
        k = k + 1;
    }
    true
}

/// The testset that a result counts for; `"default"` where it names none.
fn testset_key(r: &TestResult) -> (key: String)
    ensures
        key@ == testset_of(*r),
{
    match &r.testset_name {
        Some(name) => name.clone(),
        None => String::from_str("default"),
    }
}

/// Where the tally of a testset stands.
fn find_testset(testsets: &Vec<TestsetTally>, name: &str) -> (r: Option<usize>)
    ensures
        match r {
            Some(i) => i < testsets.len() && testsets@[i as int].name@ == name@,
            None => forall|j: int|
                0 <= j < testsets@.len() ==> (#[trigger] testsets@[j]).name@ != name@,
        },
{
    let mut i: usize = 0;
    while i < testsets.len()
        invariant
            i <= testsets.len(),
            forall|j: int| 0 <= j < i ==> (#[trigger] testsets@[j]).name@ != name@,
        decreases testsets.len() - i,
    {
        if same_text(testsets[i].name.as_str(), name) {
            return Some(i);
        }
        i = i + 1;
    }
    None
}

/// Counts, for each testset, the tests and those that passed.
fn tally_testsets(results: &Vec<TestResult>) -> (r: Vec<TestsetTally>)
    ensures
        testsets_tallied(r@, results@),
{
    let mut testsets: Vec<TestsetTally> = Vec::new();
    let mut k: usize = 0;
    proof {
        assert(results@.take(0) =~= Seq::<TestResult>::empty());
    }
    while k < results.len()
        invariant
            k <= results.len(),
            testsets_tallied(testsets@, results@.take(k as int)),
        decreases results.len() - k,
    {
        let ghost seen = results@.take(k as int);
        let ghost now = results@.take(k + 1);
        let ghost before = testsets@;
        let ghost names = testset_names(seen);
        let key = testset_key(&results[k]);
        let ghost name = key@;
        let one: usize = if results[k].passed {
            1
        } else {
            0
        };
        proof {
            assert(now.drop_last() =~= seen);
            assert(now.last() == results@[k as int]);
            lemma_testsets(seen, name);
            lemma_count_passed(of_testset(seen, name));
            let more = of_testset(seen, name).push(results@[k as int]);
            assert(more.drop_last() =~= of_testset(seen, name));
            assert(of_testset(now, name) == more);
            assert(count_passed(more) == count_passed(of_testset(seen, name)) + one);
        }
        match find_testset(&testsets, key.as_str()) {
            Some(i) => {
                assert(names[i as int] == name);
                let passed: usize = testsets[i].passed + one;
                let total: usize = testsets[i].total + 1;
                testsets.set(i, TestsetTally { name: key, passed, total });
                proof {
                    assert(names.contains(name));
                    assert forall|j: int| 0 <= j < testsets@.len() implies {
                        let n = testset_names(now)[j];
                        &&& (#[trigger] testsets@[j]).name@ == n
                        &&& testsets@[j].passed == count_passed(of_testset(now, n))
                        &&& testsets@[j].total == of_testset(now, n).len()
                    } by {
                        assert(before[j].name@ == names[j]);
                        if j != i {
                            assert(names[j] != names[i as int]);
                        }
                    }
                }
            },
            None => {
                proof {
                    assert(!names.contains(name)) by {
                        if names.contains(name) {
                            let j = choose|j: int| 0 <= j < names.len() && names[j] == name;
                            assert(before[j].name@ == name);
                        }
                    }
                }
                testsets.push(TestsetTally { name: key, passed: one, total: 1 });
                proof {
                    assert(of_testset(seen, name).len() == 0);
                    assert forall|j: int| 0 <= j < testsets@.len() implies {
                        let n = testset_names(now)[j];
                        &&& (#[trigger] testsets@[j]).name@ == n
                        &&& testsets@[j].passed == count_passed(of_testset(now, n))
                        &&& testsets@[j].total == of_testset(now, n).len()
                    } by {
                        if j < before.len() {
                            assert(before[j].name@ == names[j]);
                        }
                    }
                }
            },
        }
        k = k + 1;
    }
    assert(results@.take(results@.len() as int) =~= results@);
    testsets
}

/// Tallies a batch of results.
pub fn tally(results: &Vec<TestResult>) -> (r: Tally)
    requires
        sums_fit(input_tokens(results@)),
        sums_fit(output_tokens(results@)),
    ensures
        tallied(r, results@),
        r.total == results@.len(),
        r.passed == results@.filter(|x: TestResult| x.passed).len(),
{
    proof {
        lemma_passed_filter(results@);
    }
    let mut passed: usize = 0;
    let mut k: usize = 0;
    proof {
        assert(results@.take(0) =~= Seq::<TestResult>::empty());
    }
    while k < results.len()
        invariant
            k <= results.len(),
            passed <= k,
            passed == count_passed(results@.take(k as int)),
        decreases results.len() - k,
    {
        proof {
            assert(results@.take(k + 1).drop_last() =~= results@.take(k as int));
        }
        if results[k].passed {
            passed = passed + 1;
        }
        k = k + 1;
    }
    assert(results@.take(results@.len() as int) =~= results@);
    Tally {
        total: results.len(),
        passed,
        input: tally_tokens(results, true),
        output: tally_tokens(results, false),
        testsets: tally_testsets(results),
    }
}

// ---------------------------------------------------------------------------
// Scores
// ---------------------------------------------------------------------------

/// What floating-point division makes of a tally: passed by total, each token
/// sum by its count and the sum of these two, the mean latency, and for each
/// testset passed by total. A quotient by zero does not count.
#[derive(Debug)]
pub struct Quotients {
    pub pass_rate: Measure,
    pub prompt_tokens: Measure,
    pub completion_tokens: Measure,
    pub total_tokens: Measure,
    pub latency_ms: Measure,
    pub testset_rates: Vec<Measure>,
}

/// `x` where there is something to divide by, else zero.
pub open spec fn over(count: nat, x: Measure) -> Measure {
    if count > 0 {
        x
    } else {
        Measure { bits: 0 }
    }
}

/// The scores of a batch.
pub open spec fn scored(results: Seq<TestResult>, quotients: Quotients) -> ScoresModel {
    let prompts = token_count(input_tokens(results));
    let completions = token_count(output_tokens(results));
    ScoresModel {
        test_pass_rate: over(results.len(), quotients.pass_rate),
        tests_passed: count_passed(results) as usize,
        tests_total: results.len() as usize,
        avg_prompt_tokens: over(prompts, quotients.prompt_tokens),
        avg_completion_tokens: over(completions, quotients.completion_tokens),
        avg_total_tokens: over(prompts + completions, quotients.total_tokens),
        avg_latency_ms: over(results.len(), quotients.latency_ms),
        per_testset_scores: Seq::new(
            testset_names(results).len(),
            |i: int| (testset_names(results)[i], quotients.testset_rates@[i]),
        ),
    }
}

/// `x` where there is something to divide by, else zero.
fn rate(count: usize, x: Measure) -> (r: Measure)
    ensures
        r == over(count as nat, x),
{
    if count > 0 {
        x
    } else {
        Measure::zero()
    }
}

impl CandidateScores {
    /// Computes aggregate scores from individual test results. Tests without a
    /// testset are grouped under `"default"`.
    pub fn from_test_results(results: &Vec<TestResult>, quotients: &Quotients) -> (r: Self)
        requires
            sums_fit(input_tokens(results@)),
            sums_fit(output_tokens(results@)),
            quotients.testset_rates@.len() == testset_names(results@).len(),
        ensures
            r.deep_view() == scored(results@, *quotients),
            r.tests_total == results@.len(),
            r.tests_passed == results@.filter(|x: TestResult| x.passed).len(),
            r.test_pass_rate == if results@.len() > 0 {
                quotients.pass_rate
            } else {
                Measure { bits: 0 }
            },
            r.avg_latency_ms == if results@.len() > 0 {
                quotients.latency_ms
            } else {
                Measure { bits: 0 }
            },
            r.avg_prompt_tokens == if exists|i: int|
                0 <= i < results@.len() && (#[trigger] results@[i]).input_tokens is Some {
                quotients.prompt_tokens
            } else {
                Measure { bits: 0 }
            },
            r.avg_completion_tokens == if exists|i: int|
                0 <= i < results@.len() && (#[trigger] results@[i]).output_tokens is Some {
                quotients.completion_tokens
            } else {
                Measure { bits: 0 }
            },
            r.avg_total_tokens == if exists|i: int|
                0 <= i < results@.len() && ((#[trigger] results@[i]).input_tokens is Some
                    || results@[i].output_tokens is Some) {
                quotients.total_tokens
            } else {
                Measure { bits: 0 }
            },
            r.per_testset_scores@.len() == testset_names(results@).len(),
            forall|i: int|
                0 <= i < r.per_testset_scores@.len() ==> (#[trigger] r.per_testset_scores@[i]).0@
                    == testset_names(results@)[i] && r.per_testset_scores@[i].1
                    == quotients.testset_rates@[i],
    {
        proof {
            lemma_passed_filter(results@);
            lemma_some_tokens(input_tokens(results@));
            lemma_some_tokens(output_tokens(results@));
            assert forall|i: int| 0 <= i < results@.len() implies input_tokens(results@)[i] == (
            #[trigger] results@[i]).input_tokens && output_tokens(results@)[i]
                == results@[i].output_tokens by {}
        }
        let t = tally(results);
        let ghost names = testset_names(results@);
        let mut per_testset_scores: Vec<(String, Measure)> = Vec::new();
        let mut k: usize = 0;
        while k < t.testsets.len()
            invariant
                k <= t.testsets.len(),
                tallied(t, results@),
                names == testset_names(results@),
                quotients.testset_rates@.len() == names.len(),
                per_testset_scores.len() == k,
                forall|j: int|
                    0 <= j < k ==> (#[trigger] per_testset_scores@[j]).deep_view() == (
                        names[j],
                        quotients.testset_rates@[j],
                    ),
            decreases t.testsets.len() - k,
        {
            proof {
                lemma_testsets(results@, names[k as int]);
                assert(t.testsets@[k as int].name@ == names[k as int]);
                assert(names.contains(names[k as int]));
            }
            let score: Measure = rate(t.testsets[k].total, quotients.testset_rates[k]);
            per_testset_scores.push((t.testsets[k].name.clone(), score));
            k = k + 1;
        }
        let ghost prompts = token_count(input_tokens(results@));
        let ghost completions = token_count(output_tokens(results@));
        let any: usize = if t.input.count > 0 || t.output.count > 0 {
            1
        } else {
            0
        };
        let r = CandidateScores {
            test_pass_rate: rate(t.total, quotients.pass_rate),
            tests_passed: t.passed,
            tests_total: t.total,
            avg_prompt_tokens: rate(t.input.count, quotients.prompt_tokens),
            avg_completion_tokens: rate(t.output.count, quotients.completion_tokens),
            avg_total_tokens: rate(any, quotients.total_tokens),
            avg_latency_ms: rate(t.total, quotients.latency_ms),
            per_testset_scores,
        };
        proof {
            assert(r.per_testset_scores.deep_view() =~= scored(
                results@,
                *quotients,
            ).per_testset_scores);
        }
        r
    }
}

// ---------------------------------------------------------------------------
// One test
// ---------------------------------------------------------------------------

/// Why a test could not be run.
#[derive(Debug)]
pub enum TestError {
    /// The engine has no such test case.
    TestCaseNotFound { function_name: String, test_name: String },
    /// The engine could not tell the function's parameters.
    NoParams { function_name: String, reason: String },
    /// The test case gives a parameter no argument.
    MissingArgument { name: String, function_name: String },
}

impl TestError {
    /// What to tell the user.
    pub fn message(&self) -> (r: String)
        ensures
            r@ == match self {
                TestError::TestCaseNotFound { function_name, test_name }
                    => "test case not found: "@ + function_name@ + "::"@ + test_name@,
                TestError::NoParams { function_name, reason } => "failed to get params for "@
                    + function_name@ + ": "@ + reason@,
                TestError::MissingArgument { name, function_name } => "missing argument '"@ + name@
                    + "' for "@ + function_name@,
            },
    {
        match self {
            TestError::TestCaseNotFound { function_name, test_name } => {
                let mut out = String::from_str("test case not found: ");
                out.append(function_name.as_str());
                out.append("::");
                out.append(test_name.as_str());
                out
            },
            TestError::NoParams { function_name, reason } => {
                let mut out = String::from_str("failed to get params for ");
                out.append(function_name.as_str());
                out.append(": ");
                out.append(reason.as_str());
                out
            },
            TestError::MissingArgument { name, function_name } => {
                let mut out = String::from_str("missing argument '");
                out.append(name.as_str());
                out.append("' for ");
                out.append(function_name.as_str());
                out
            },
        }
    }
}

/// The argument `name` is the one at `i`, the first of that name.
pub open spec fn takes(args: Seq<String>, name: Seq<char>, i: int) -> bool {
    &&& 0 <= i < args.len()
    &&& args[i]@ == name
    &&& forall|j: int| 0 <= j < i ==> (#[trigger] args[j])@ != name
}

/// Holds at the parameters without an argument.
pub open spec fn lacking(params: Seq<Seq<char>>, args: Seq<Seq<char>>) -> spec_fn(int) -> bool {
    |i: int| !args.contains(params[i])
}

/// Finds, for each parameter in order, which of the test case's arguments it
/// takes, or the first parameter that has none.
pub fn ordered_arguments(function_name: &str, params: &Vec<String>, args: &Vec<String>) -> (r: Result<
    Vec<usize>,
    TestError,
>)
    ensures
        match r {
            Ok(order) => order@.len() == params@.len() && forall|i: int|
                0 <= i < order@.len() ==> takes(args@, params@[i]@, #[trigger] order@[i] as int),
            Err(TestError::MissingArgument { name, function_name: f }) => {
                &&& crate::text::first_in(
                    lacking(params.deep_view(), args.deep_view()),
                    0,
                    params@.len() as int,
                ) matches Some(i) && name@ == params@[i]@
                &&& f@ == function_name@
            },
            Err(_) => false,
        },
        r is Ok <==> forall|i: int|
            0 <= i < params@.len() ==> args.deep_view().contains((#[trigger] params@[i])@),
        r matches Ok(order) ==> forall|i: int|
            0 <= i < params@.len() ==> (#[trigger] order@[i]) < args@.len()
                && args@[order@[i] as int]@ == params@[i]@ && forall|j: int|
                0 <= j < order@[i] ==> (#[trigger] args@[j])@ != params@[i]@,
        r matches Err(TestError::MissingArgument { name, function_name: f }) ==> exists|k: int|
            #![trigger params@[k]]
            0 <= k < params@.len() && params@[k]@ == name@ && !args.deep_view().contains(name@)
                && forall|i: int|
                0 <= i < k ==> args.deep_view().contains((#[trigger] params@[i])@),
{
    let ghost p = lacking(params.deep_view(), args.deep_view());
    let mut order: Vec<usize> = Vec::new();
    let mut k: usize = 0;
    while k < params.len()
        invariant
            k <= params.len(),
            order@.len() == k,
            p == lacking(params.deep_view(), args.deep_view()),
            forall|j: int| 0 <= j < k ==> !#[trigger] p(j),
            forall|j: int|
                0 <= j < k ==> args.deep_view().contains((#[trigger] params@[j])@),
            forall|i: int|
                0 <= i < k ==> takes(args@, params@[i]@, #[trigger] order@[i] as int),
        decreases params.len() - k,
    {
        let name = &params[k];
        assert(params.deep_view()[k as int] == name@);
        match crate::text::find_text(args, name.as_str()) {
            Some(i) => {
                assert(args.deep_view()[i as int] == name@);
                assert(!p(k as int));
                order.push(i);
            },
            None => {
                proof {
                    assert(p(k as int));
                    assert(!args.deep_view().contains(params@[k as int]@));
                    crate::text::lemma_seek_is(p, 0, params@.len() as int, k as int);
                }
                return Err(
                    TestError::MissingArgument {
                        name: name.clone(),
                        function_name: String::from_str(function_name),
                    },
                );
            },
        }
        k = k + 1;
    }
    Ok(order)
}

/// What a run of the engine came to, with what was measured on the way.
#[derive(Debug)]
pub struct Run {
    /// The value that the function returned, or why the call failed.
    pub outcome: Result<RenderedValue, String>,
    pub latency_ms: Measure,
    pub input_tokens: Option<i64>,
    pub output_tokens: Option<i64>,
}

/// The result of a test: it passes exactly if the call went through.
pub fn test_result(
    function_name: String,
    test_name: String,
    testset_name: Option<String>,
    input_args: Vec<(String, RenderedValue)>,
    run: Run,
) -> (r: TestResult)
    ensures
        r.function_name == function_name,
        r.test_name == test_name,
        r.testset_name == testset_name,
        r.input_args == input_args,
        r.latency_ms == run.latency_ms,
        r.input_tokens == run.input_tokens,
        r.output_tokens == run.output_tokens,
        match run.outcome {
            Ok(value) => r.passed && r.error is None && r.output == Some(value),
            Err(reason) => !r.passed && r.error == Some(reason) && r.output is None,
        },
{
    let (passed, error, output) = match run.outcome {
        Ok(value) => (true, None, Some(value)),
        Err(reason) => (false, Some(reason), None),
    };
    TestResult {
        function_name,
        test_name,
        testset_name,
        passed,
        error,
        latency_ms: run.latency_ms,
        input_tokens: run.input_tokens,
        output_tokens: run.output_tokens,
        input_args,
        output,
    }
}

// ---------------------------------------------------------------------------
// Laws
// ---------------------------------------------------------------------------

/// How many results count for some testsets, taken together.
pub open spec fn total_over(names: Seq<Seq<char>>, results: Seq<TestResult>) -> nat
    decreases names.len(),
{
    if names.len() == 0 {
        0
    } else {
        total_over(names.drop_last(), results) + of_testset(results, names.last()).len()
    }
}

/// How many results of some testsets passed, taken together.
pub open spec fn passed_over(names: Seq<Seq<char>>, results: Seq<TestResult>) -> nat
    decreases names.len(),
{
    if names.len() == 0 {
        0
    } else {
        passed_over(names.drop_last(), results) + count_passed(of_testset(results, names.last()))
    }
}

/// One more result adds one to the testset that it counts for.
proof fn lemma_over_one_more(names: Seq<Seq<char>>, results: Seq<TestResult>)
    requires
        results.len() > 0,
        names.no_duplicates(),
    ensures
        ({
            let hit = names.contains(testset_of(results.last()));
            let one: nat = if hit {
                1
            } else {
                0
            };
            let win: nat = if hit && results.last().passed {
                1
            } else {
                0
            };
            &&& total_over(names, results) == total_over(names, results.drop_last()) + one
            &&& passed_over(names, results) == passed_over(names, results.drop_last()) + win
        }),
    decreases names.len(),
{
    if names.len() > 0 {
        let front = names.drop_last();
        let name = names.last();
        let key = testset_of(results.last());
        lemma_over_one_more(front, results);
        assert(names[names.len() - 1] == name);
        assert(names.contains(key) <==> front.contains(key) || key == name) by {
            if front.contains(key) {
                let i = choose|i: int| 0 <= i < front.len() && front[i] == key;
                assert(names[i] == key);
            }
            if names.contains(key) && key != name {
                let i = choose|i: int| 0 <= i < names.len() && names[i] == key;
                assert(front[i] == key);
            }
        }
        if key == name {
            assert(!front.contains(key)) by {
                if front.contains(key) {
                    let i = choose|i: int| 0 <= i < front.len() && front[i] == key;
                    assert(names[i] == names[names.len() - 1]);
                }
            }
            let before = of_testset(results.drop_last(), name);
            let after = before.push(results.last());
            assert(of_testset(results, name) == after);
            assert(after.drop_last() =~= before);
        }
    }
}

/// As many passed as are left when the others are taken out.
proof fn lemma_passed_filter(results: Seq<TestResult>)
    ensures
        count_passed(results) == results.filter(|x: TestResult| x.passed).len(),
    decreases results.len(),
{
    reveal(Seq::filter);
    if results.len() > 0 {
        lemma_passed_filter(results.drop_last());
    }
}

/// Some count is known exactly if one is.
proof fn lemma_some_tokens(tokens: Seq<Option<i64>>)
    ensures
        token_count(tokens) > 0 <==> exists|i: int|
            0 <= i < tokens.len() && #[trigger] tokens[i] is Some,
    decreases tokens.len(),
{
    if tokens.len() > 0 {
        let front = tokens.drop_last();
        lemma_some_tokens(front);
        assert(tokens[tokens.len() - 1] == tokens.last());
        if exists|i: int| 0 <= i < front.len() && #[trigger] front[i] is Some {
            let i = choose|i: int| 0 <= i < front.len() && #[trigger] front[i] is Some;
            assert(tokens[i] == front[i]);
        }
        if exists|i: int| 0 <= i < tokens.len() && #[trigger] tokens[i] is Some {
            let i = choose|i: int| 0 <= i < tokens.len() && #[trigger] tokens[i] is Some;
            if i < front.len() {
                assert(front[i] == tokens[i]);
            }
        }
    }
}

/// The testsets divide the results: taken together they hold every result, and
/// every result that passed.
pub proof fn law_testsets_partition_results(results: Seq<TestResult>)
    ensures
        total_over(testset_names(results), results) == results.len(),
        passed_over(testset_names(results), results) == count_passed(results),
    decreases results.len(),
{
    if results.len() > 0 {
        let front = results.drop_last();
        let key = testset_of(results.last());
        let before = testset_names(front);
        let names = testset_names(results);
        law_testsets_partition_results(front);
        lemma_testsets(front, key);
        lemma_testsets(results, key);
        lemma_over_one_more(names, results);
        if before.contains(key) {
            assert(names == before);
        } else {
            assert(names.drop_last() =~= before);
            assert(names[names.len() - 1] == key);
            assert(of_testset(front, key).len() == 0);
            assert(names.contains(key));
        }
    }
}

} // verus!
