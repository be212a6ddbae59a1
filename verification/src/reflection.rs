//! What a reflection is shown: examples, objectives, metrics and strengths.

use vstd::prelude::*;
use vstd::string::*;

use crate::assoc::{find_key, lookup, put, put_pair};
use crate::candidate::{
    Candidate, CandidateScores, CurrentMetrics, ExampleModel, ObjectiveStatus,
    OptimizationObjectives, ReflectiveExample, ScoresModel, StatusModel,
};
use crate::evaluator::{RenderedValue, TestResult};
use crate::json_text::{json_text, write_json};
use crate::measure::Measure;
use crate::pareto::{Direction, Objective, ObjectiveModel};
use crate::text::{char_position, chars_of, find_char, same_text, string_of};
use crate::value_bridge::{bex_model, bex_to_json_value, lift};

verus! {

// ---------------------------------------------------------------------------
// Examples
// ---------------------------------------------------------------------------

/// A value as text: its JSON, or the name of its type where it has no JSON
/// form.
pub open spec fn rendered(value: RenderedValue) -> Seq<char> {
    match lift(bex_model(value.value)) {
        Ok(json) => json_text(json, value.float_texts.deep_view()),
        Err(_) => "<unrenderable:"@ + value.kind@ + ">"@,
    }
}

/// Renders a value to a short string for the reflection prompt. JSON is a
/// stable, type-agnostic form; primitives pass through cleanly.
pub fn render_value(value: &RenderedValue) -> (r: String)
    ensures
        r@ == rendered(*value),
        r@ == match lift(bex_model(value.value)) {
            Ok(json) => json_text(json, value.float_texts.deep_view()),
            Err(_) => "<unrenderable:"@ + value.kind@ + ">"@,
        },
{
    match bex_to_json_value(&value.value) {
        Ok(json) => write_json(&json, &value.float_texts),
        Err(_) => {
            let mut out = String::from_str("<unrenderable:");
            out.append(value.kind.as_str());
            out.append(">");
            out
        },
    }
}

/// The arguments of a test, rendered; the last argument of a name counts.
pub open spec fn rendered_args(args: Seq<(String, RenderedValue)>) -> Seq<(Seq<char>, Seq<char>)>
    decreases args.len(),
{
    if args.len() == 0 {
        Seq::empty()
    } else {
        put(rendered_args(args.drop_last()), args.last().0@, rendered(args.last().1))
    }
}

/// The example that a test result makes.
pub open spec fn example_of(r: TestResult) -> ExampleModel {
    ExampleModel {
        inputs: rendered_args(r.input_args@),
        generated_outputs: match r.output {
            Some(value) => seq![("result"@, rendered(value))],
            None => Seq::empty(),
        },
        feedback: match r.error {
            Some(error) => error@,
            None => if r.passed {
                "ok"@
            } else {
                "test failed without a specific error"@
            },
        },
        failure_location: if r.passed {
            None
        } else {
            Some("assertion"@)
        },
        test_source: None,
        test_name: Some(r.test_name@),
        prompt_tokens: r.input_tokens,
        completion_tokens: r.output_tokens,
        latency_ms: Some(r.latency_ms),
    }
}

/// The examples that the passed, or the failed, results make.
pub open spec fn examples_of(results: Seq<TestResult>, passed: bool) -> Seq<ExampleModel>
    decreases results.len(),
{
    if results.len() == 0 {
        Seq::empty()
    } else if results.last().passed == passed {
        examples_of(results.drop_last(), passed).push(example_of(results.last()))
    } else {
        examples_of(results.drop_last(), passed)
    }
}

/// The example that a test result makes.
fn build_example(r: &TestResult) -> (example: ReflectiveExample)
    ensures
        example.deep_view() == example_of(*r),
{
    let mut inputs: Vec<(String, String)> = Vec::new();
    let mut k: usize = 0;
    proof {
        assert(r.input_args@.take(0) =~= Seq::<(String, RenderedValue)>::empty());
        assert(inputs.deep_view() =~= Seq::<(Seq<char>, Seq<char>)>::empty());
    }
    while k < r.input_args.len()
        invariant
            k <= r.input_args.len(),
            inputs.deep_view() == rendered_args(r.input_args@.take(k as int)),
        decreases r.input_args.len() - k,
    {
        proof {
            assert(r.input_args@.take(k + 1).drop_last() =~= r.input_args@.take(k as int));
            assert(r.input_args@.take(k + 1).last() == r.input_args@[k as int]);
        }
        let text = render_value(&r.input_args[k].1);
        put_pair(&mut inputs, r.input_args[k].0.clone(), text);
        k = k + 1;
    }
    assert(r.input_args@.take(r.input_args@.len() as int) =~= r.input_args@);
    let mut generated_outputs: Vec<(String, String)> = Vec::new();
    match &r.output {
        Some(value) => {
            generated_outputs.push((String::from_str("result"), render_value(value)));
            assert(generated_outputs.deep_view() =~= seq![("result"@, rendered(*value))]);
        },
        None => {
            assert(generated_outputs.deep_view() =~= Seq::<(Seq<char>, Seq<char>)>::empty());
        },
    }
    let feedback = match &r.error {
        Some(error) => error.clone(),
        None => if r.passed {
            String::from_str("ok")
        } else {
            String::from_str("test failed without a specific error")
        },
    };
    let failure_location = if r.passed {
        None
    } else {
        Some(String::from_str("assertion"))
    };
    ReflectiveExample {
        inputs,
        generated_outputs,
        feedback,
        failure_location,
        test_source: None,
        test_name: Some(r.test_name.clone()),
        prompt_tokens: r.input_tokens,
        completion_tokens: r.output_tokens,
        latency_ms: Some(r.latency_ms),
    }
}

/// Builds reflection examples from recent test results, selecting either
/// failures or successes.
pub fn build_examples(results: &Vec<TestResult>, successes_only: bool) -> (r: Vec<
    ReflectiveExample,
>)
    ensures
        r.deep_view() == examples_of(results@, successes_only),
{
    let mut out: Vec<ReflectiveExample> = Vec::new();
    let mut k: usize = 0;
    proof {
        assert(results@.take(0) =~= Seq::<TestResult>::empty());
        assert(out.deep_view() =~= Seq::<ExampleModel>::empty());
    }
    while k < results.len()
        invariant
            k <= results.len(),
            out.deep_view() == examples_of(results@.take(k as int), successes_only),
        decreases results.len() - k,
    {
        let ghost before = out.deep_view();
        proof {
            assert(results@.take(k + 1).drop_last() =~= results@.take(k as int));
            assert(results@.take(k + 1).last() == results@[k as int]);
        }
        if results[k].passed == successes_only {
            let example = build_example(&results[k]);
            out.push(example);
            assert(out.deep_view() =~= before.push(example.deep_view()));
        }
        k = k + 1;
    }
    assert(results@.take(results@.len() as int) =~= results@);
    out
}

/// Every result makes an example, either among the failures or among the
/// successes.
pub proof fn law_examples_partition_results(results: Seq<TestResult>)
    ensures
        examples_of(results, true).len() + examples_of(results, false).len() == results.len(),
    decreases results.len(),
{
    if results.len() > 0 {
        law_examples_partition_results(results.drop_last());
    }
}

// ---------------------------------------------------------------------------
// Objectives
// ---------------------------------------------------------------------------

/// The testset that an objective's name ends with: what stands behind the
/// first colon.
pub open spec fn named_testset(name: Seq<char>) -> Option<Seq<char>> {
    match char_position(name, ':') {
        Some(i) => Some(name.skip(i + 1)),
        None => None,
    }
}

/// The value that is reported of an objective.
pub open spec fn reported(name: Seq<char>, scores: ScoresModel) -> Measure {
    if name == "accuracy"@ {
        scores.test_pass_rate
    } else if name == "tokens"@ {
        scores.avg_total_tokens
    } else if name == "latency"@ {
        scores.avg_latency_ms
    } else {
        match named_testset(name) {
            Some(testset) => match lookup(scores.per_testset_scores, testset) {
                Some(x) => x,
                None => Measure { bits: 0 },
            },
            None => Measure { bits: 0 },
        }
    }
}

/// The testset that an objective's name ends with.
fn find_testset_name(name: &str) -> (r: Option<String>)
    ensures
        r.deep_view() == named_testset(name@),
{
    let chars = chars_of(name);
    let end: usize = chars.len();
    match find_char(&chars, ':') {
        Some(i) => {
            let testset = string_of(&chars, i + 1, end);
            assert(testset@ =~= name@.skip(i + 1));
            Some(testset)
        },
        None => None,
    }
}

/// The value that is reported of an objective.
pub fn report_value(name: &str, scores: &CandidateScores) -> (r: Measure)
    ensures
        r == reported(name@, scores.deep_view()),
{
    if same_text(name, "accuracy") {
        return scores.test_pass_rate;
    }
    if same_text(name, "tokens") {
        return scores.avg_total_tokens;
    }
    if same_text(name, "latency") {
        return scores.avg_latency_ms;
    }
    match find_testset_name(name) {
        Some(testset) => match find_key(&scores.per_testset_scores, testset.as_str()) {
            Some(i) => scores.per_testset_scores[i].1,
            None => Measure::zero(),
        },
        None => Measure::zero(),
    }
}

/// A direction in lower case.
pub open spec fn direction_word(direction: Direction) -> Seq<char> {
    match direction {
        Direction::Maximize => "maximize"@,
        Direction::Minimize => "minimize"@,
    }
}

/// Where a candidate with `scores` stands on an objective.
pub open spec fn status_of(o: ObjectiveModel, scores: Option<ScoresModel>) -> StatusModel {
    StatusModel {
        name: o.name,
        weight: o.weight,
        direction: direction_word(o.direction),
        current_value: match scores {
            Some(s) => reported(o.name, s),
            None => Measure { bits: 0 },
        },
        status: ""@,
    }
}

/// Builds the view of the objectives for the current parent candidate.
pub fn build_objectives(objectives: &Vec<Objective>, parent: &Candidate) -> (r: OptimizationObjectives)
    ensures
        r.objectives.deep_view() == objectives.deep_view().map_values(
            |o: ObjectiveModel| status_of(o, parent.deep_view().scores),
        ),
{
    let ghost scores = parent.deep_view().scores;
    let mut out: Vec<ObjectiveStatus> = Vec::new();
    let mut k: usize = 0;
    while k < objectives.len()
        invariant
            k <= objectives.len(),
            scores == parent.scores.deep_view(),
            out@.len() == k,
            forall|j: int|
                0 <= j < k ==> (#[trigger] out@[j]).deep_view() == status_of(
                    objectives@[j].deep_view(),
                    scores,
                ),
        decreases objectives.len() - k,
    {
        let o = &objectives[k];
        let current_value: Measure = match &parent.scores {
            Some(s) => report_value(o.name.as_str(), s),
            None => Measure::zero(),
        };
        let direction = match o.direction {
            Direction::Maximize => String::from_str("maximize"),
            Direction::Minimize => String::from_str("minimize"),
        };
        out.push(
            ObjectiveStatus {
                name: o.name.clone(),
                weight: o.weight,
                direction,
                current_value,
                status: String::from_str(""),
            },
        );
        k = k + 1;
    }
    assert(out.deep_view() =~= objectives.deep_view().map_values(
        |o: ObjectiveModel| status_of(o, parent.deep_view().scores),
    ));
    OptimizationObjectives { objectives: out }
}

/// The scores of a candidate as the reflection sees them.
pub fn build_metrics(scores: &CandidateScores) -> (r: CurrentMetrics)
    ensures
        r == (CurrentMetrics {
            test_pass_rate: scores.test_pass_rate,
            tests_passed: scores.tests_passed as i64,
            tests_total: scores.tests_total as i64,
            avg_prompt_tokens: scores.avg_prompt_tokens,
            avg_completion_tokens: scores.avg_completion_tokens,
            avg_total_tokens: scores.avg_total_tokens,
            avg_latency_ms: scores.avg_latency_ms,
        }),
{
    CurrentMetrics {
        test_pass_rate: scores.test_pass_rate,
        tests_passed: #[verifier::truncate]
        (scores.tests_passed as i64),
        tests_total: #[verifier::truncate]
        (scores.tests_total as i64),
        avg_prompt_tokens: scores.avg_prompt_tokens,
        avg_completion_tokens: scores.avg_completion_tokens,
        avg_total_tokens: scores.avg_total_tokens,
        avg_latency_ms: scores.avg_latency_ms,
    }
}

// ---------------------------------------------------------------------------
// Strengths
// ---------------------------------------------------------------------------

/// How the number of a strength is written.
#[derive(Clone, Copy, Debug, PartialEq, Eq, Structural)]
pub enum NumberFormat {
    /// A hundred times the value, with one decimal.
    Percent,
    /// No decimals.
    Whole,
    /// Two decimals.
    Hundredths,
    /// No number is written.
    Fixed,
}

/// A value and how it is written.
#[derive(Clone, Copy, Debug, PartialEq, Eq, Structural)]
pub struct StrengthNumber {
    pub value: Measure,
    pub format: NumberFormat,
}

/// The number that a strength shows.
pub open spec fn strength_number(name: Seq<char>, scores: ScoresModel) -> StrengthNumber {
    StrengthNumber {
        value: reported(name, scores),
        format: if name == "accuracy"@ {
            NumberFormat::Percent
        } else if name == "tokens"@ || name == "latency"@ {
            NumberFormat::Whole
        } else if named_testset(name) is Some {
            NumberFormat::Hundredths
        } else {
            NumberFormat::Fixed
        },
    }
}

/// The text of a strength with its number written out.
pub open spec fn strength_text(name: Seq<char>, number: Seq<char>) -> Seq<char> {
    if name == "accuracy"@ {
        "accuracy="@ + number + "%"@
    } else if name == "tokens"@ {
        "tokens="@ + number
    } else if name == "latency"@ {
        "latency="@ + number + "ms"@
    } else if named_testset(name) is Some {
        name + "="@ + number
    } else {
        name + "=0"@
    }
}

/// The numbers that a candidate's strengths show, one for each objective; none
/// where the candidate has no scores.
pub fn strength_numbers(candidate: &Candidate, objectives: &Vec<Objective>) -> (r: Vec<
    StrengthNumber,
>)
    ensures
        match candidate.deep_view().scores {
            Some(scores) => r@ == objectives.deep_view().map_values(
                |o: ObjectiveModel| strength_number(o.name, scores),
            ),
            None => r@.len() == 0,
        },
{
    let mut out: Vec<StrengthNumber> = Vec::new();
    match &candidate.scores {
        Some(scores) => {
            let mut k: usize = 0;
            while k < objectives.len()
                invariant
                    k <= objectives.len(),
                    out@.len() == k,
                    forall|j: int|
                        0 <= j < k ==> #[trigger] out@[j] == strength_number(
                            objectives@[j].name@,
                            scores.deep_view(),
                        ),
                decreases objectives.len() - k,
            {
                let name = objectives[k].name.as_str();
                let format = if same_text(name, "accuracy") {
                    NumberFormat::Percent
                } else if same_text(name, "tokens") || same_text(name, "latency") {
                    NumberFormat::Whole
                } else if find_testset_name(name).is_some() {
                    NumberFormat::Hundredths
                } else {
                    NumberFormat::Fixed
                };
                out.push(StrengthNumber { value: report_value(name, scores), format });
                k = k + 1;
            }
            assert(out@ =~= objectives.deep_view().map_values(
                |o: ObjectiveModel| strength_number(o.name, scores.deep_view()),
            ));
        },
        None => {},
    }
    out
}

/// The text of a strength with its number written out.
fn write_strength(name: &str, number: &str) -> (r: String)
    ensures
        r@ == strength_text(name@, number@),
{
    let mut out = String::new();
    if same_text(name, "accuracy") {
        out.append("accuracy=");
        out.append(number);
        out.append("%");
        assert(out@ =~= "accuracy="@ + number@ + "%"@);
    } else if same_text(name, "tokens") {
        out.append("tokens=");
        out.append(number);
        assert(out@ =~= "tokens="@ + number@);
    } else if same_text(name, "latency") {
        out.append("latency=");
        out.append(number);
        out.append("ms");
        assert(out@ =~= "latency="@ + number@ + "ms"@);
    } else if find_testset_name(name).is_some() {
        out.append(name);
        out.append("=");
        out.append(number);
        assert(out@ =~= name@ + "="@ + number@);
    } else {
        out.append(name);
        out.append("=0");
        assert(out@ =~= name@ + "=0"@);
    }
    out
}

/// Builds a short list of human-readable "strengths" for a candidate: one for
/// each objective, naming it and the candidate's current value for it. Without
/// scores there are none. `numbers` holds the [`strength_numbers`], written
/// out.
pub fn candidate_strengths(
    candidate: &Candidate,
    objectives: &Vec<Objective>,
    numbers: &Vec<String>,
) -> (r: Vec<String>)
    requires
        candidate.scores is Some ==> numbers@.len() == objectives@.len(),
    ensures
        r.deep_view() == if candidate.scores is Some {
            Seq::new(
                objectives@.len(),
                |i: int| strength_text(objectives@[i].name@, numbers@[i]@),
            )
        } else {
            Seq::empty()
        },
{
    let mut out: Vec<String> = Vec::new();
    if candidate.scores.is_none() {
        assert(out.deep_view() =~= Seq::<Seq<char>>::empty());
        return out;
    }
    let mut k: usize = 0;
    while k < objectives.len()
        invariant
            k <= objectives.len(),
            numbers@.len() == objectives@.len(),
            out@.len() == k,
            forall|j: int|
                0 <= j < k ==> (#[trigger] out@[j])@ == strength_text(
                    objectives@[j].name@,
                    numbers@[j]@,
                ),
        decreases objectives.len() - k,
    {
        out.push(write_strength(objectives[k].name.as_str(), numbers[k].as_str()));
        k = k + 1;
    }
    assert(out.deep_view() =~= Seq::new(
        objectives@.len(),
        |i: int| strength_text(objectives@[i].name@, numbers@[i]@),
    ));
    out
}

// ---------------------------------------------------------------------------
// Laws
// ---------------------------------------------------------------------------

/// What is reported of an objective: of `accuracy` the pass rate, of `tokens` and
/// `latency` the averages, of a name with a colon the pass rate of the testset
/// behind it.
pub proof fn law_objectives_report_their_scores(
    scores: ScoresModel,
    head: Seq<char>,
    testset: Seq<char>,
)
    requires
        !head.contains(':'),
    ensures
        reported("accuracy"@, scores) == scores.test_pass_rate,
        reported("tokens"@, scores) == scores.avg_total_tokens,
        reported("latency"@, scores) == scores.avg_latency_ms,
        reported(head.push(':') + testset, scores) == match lookup(
            scores.per_testset_scores,
            testset,
        ) {
            Some(rate) => rate,
            None => Measure { bits: 0 },
        },
{
    reveal_strlit("accuracy");
    reveal_strlit("tokens");
    reveal_strlit("latency");
    let name = head.push(':') + testset;
    let n = head.len() as int;
    assert("accuracy"@.len() == 8 && "tokens"@.len() == 6 && "latency"@.len() == 7);
    assert(name[n] == ':');
    assert(name != "accuracy"@);
    assert(name != "tokens"@);
    assert(name != "latency"@);
    let p = crate::text::stands(name, ':');
    assert forall|j: int| 0 <= j < n implies !#[trigger] p(j) by {
        assert(name[j] == head[j]);
    }
    assert(p(n));
    crate::text::lemma_seek_is(p, 0, name.len() as int, n);
    assert(name.skip(n + 1) =~= testset);
}

/// A strength names its objective, in front of the sign of equality, and shows
/// the number behind it, where the objective has one.
pub proof fn law_strengths_name_their_objective(name: Seq<char>, number: Seq<char>)
    ensures
        strength_text(name, number).len() > name.len(),
        strength_text(name, number).take(name.len() as int) == name,
        strength_text(name, number)[name.len() as int] == '=',
        name.contains(':') || name == "accuracy"@ || name == "tokens"@ || name == "latency"@
            ==> crate::text::occurs_at(
            strength_text(name, number),
            number,
            (name.len() + 1) as int,
        ),
{
    reveal_strlit("accuracy");
    reveal_strlit("tokens");
    reveal_strlit("latency");
    reveal_strlit("accuracy=");
    reveal_strlit("tokens=");
    reveal_strlit("latency=");
    reveal_strlit("=");
    reveal_strlit("=0");
    let text = strength_text(name, number);
    let n = name.len() as int;
    let p = crate::text::stands(name, ':');
    crate::text::lemma_seek(p, 0, n);
    if name.contains(':') && named_testset(name) is None {
        let i = choose|i: int| 0 <= i < n && name[i] == ':';
        assert(!p(i));
    }
    assert(text.take(n) =~= name);
    assert(text[n] == '=');
    if name.contains(':') || name == "accuracy"@ || name == "tokens"@ || name == "latency"@ {
        assert(text.subrange(n + 1, n + 1 + number.len()) =~= number);
    }
}

/// The status of an objective names it, with its weight and direction, and tells
/// the parent's value for it, or zero where the parent has no scores.
pub proof fn law_every_objective_has_its_status(o: ObjectiveModel, scores: ScoresModel)
    ensures
        status_of(o, Some(scores)).name == o.name,
        status_of(o, Some(scores)).weight == o.weight,
        status_of(o, Some(scores)).current_value == reported(o.name, scores),
        status_of(o, None).current_value == (Measure { bits: 0 }),
        status_of(o, None).name == o.name,
        o.direction == Direction::Maximize <==> status_of(o, Some(scores)).direction
            == "maximize"@,
{
    reveal_strlit("maximize");
    reveal_strlit("minimize");
    assert("maximize"@[1] != "minimize"@[1]);
}

/// The number of a strength is the value that is reported of its objective:
/// accuracy in percent, tokens and latency whole, a testset in hundredths.
pub proof fn law_strengths_show_what_is_reported(
    name: Seq<char>,
    scores: ScoresModel,
    head: Seq<char>,
    testset: Seq<char>,
)
    requires
        !head.contains(':'),
    ensures
        strength_number(name, scores).value == reported(name, scores),
        strength_number("accuracy"@, scores).format == NumberFormat::Percent,
        strength_number("tokens"@, scores).format == NumberFormat::Whole,
        strength_number("latency"@, scores).format == NumberFormat::Whole,
        strength_number(head.push(':') + testset, scores).format == NumberFormat::Hundredths,
{
    reveal_strlit("accuracy");
    reveal_strlit("tokens");
    reveal_strlit("latency");
    assert("accuracy"@.len() == 8 && "tokens"@.len() == 6 && "latency"@.len() == 7);
    let whole = head.push(':') + testset;
    let n = head.len() as int;
    assert(whole[n] == ':');
    let p = crate::text::stands(whole, ':');
    assert(p(n));
    crate::text::lemma_seek(p, 0, whole.len() as int);
}

} // verus!
