use baml_optimize::candidate::CandidateScores;
use baml_optimize::evaluator::{
    ordered_arguments, tally, test_result, token_sums_fit, Evaluator, Quotients, RenderedValue, Run,
    TestError, TestResult,
};
use baml_optimize::measure::Measure;
use baml_optimize::value_bridge::BexExternalValue;

fn measure(x: f64) -> Measure {
    Measure::from_bits(x.to_bits())
}

fn number(m: Measure) -> f64 {
    f64::from_bits(m.bits)
}

fn mk(
    func: &str,
    test: &str,
    testset: Option<&str>,
    passed: bool,
    latency_ms: f64,
    input: Option<i64>,
    output: Option<i64>,
) -> TestResult {
    TestResult {
        function_name: func.to_string(),
        test_name: test.to_string(),
        testset_name: testset.map(ToString::to_string),
        passed,
        error: if passed { None } else { Some("x".into()) },
        latency_ms: measure(latency_ms),
        input_tokens: input,
        output_tokens: output,
        input_args: vec![],
        output: None,
    }
}

fn divide(results: &Vec<TestResult>) -> Quotients {
    let t = tally(results);
    let latency: f64 = results.iter().map(|r| number(r.latency_ms)).sum();
    let prompt = t.input.sum as f64 / t.input.count as f64;
    let completion = t.output.sum as f64 / t.output.count as f64;
    Quotients {
        pass_rate: measure(t.passed as f64 / t.total as f64),
        prompt_tokens: measure(prompt),
        completion_tokens: measure(completion),
        total_tokens: measure(prompt + completion),
        latency_ms: measure(latency / t.total as f64),
        testset_rates: t.testsets.iter().map(|s| measure(s.passed as f64 / s.total as f64)).collect(),
    }
}

fn scores_of(results: &Vec<TestResult>) -> CandidateScores {
    CandidateScores::from_test_results(results, &divide(results))
}

fn testset_score(scores: &CandidateScores, name: &str) -> f64 {
    number(scores.per_testset_scores.iter().find(|p| p.0 == name).unwrap().1)
}

#[test]
fn empty_results_yield_zero_scores() {
    let scores = scores_of(&vec![]);
    assert_eq!(scores.tests_total, 0);
    assert_eq!(scores.tests_passed, 0);
    assert!((number(scores.test_pass_rate) - 0.0).abs() < f64::EPSILON);
    assert!(scores.per_testset_scores.is_empty());
    assert_eq!(number(scores.avg_latency_ms), 0.0);
    assert_eq!(number(scores.avg_prompt_tokens), 0.0);
    assert_eq!(number(scores.avg_completion_tokens), 0.0);
    assert_eq!(number(scores.avg_total_tokens), 0.0);
}

#[test]
fn aggregate_scores_computed_correctly() {
    let results = vec![
        mk("F", "t1", Some("a"), true, 100.0, Some(10), Some(20)),
        mk("F", "t2", Some("a"), false, 200.0, Some(30), Some(40)),
        mk("F", "t3", Some("b"), true, 300.0, None, None),
    ];

    let scores = scores_of(&results);
    assert_eq!(scores.tests_total, 3);
    assert_eq!(scores.tests_passed, 2);
    assert!((number(scores.test_pass_rate) - 2.0 / 3.0).abs() < 1e-9);
    assert!((number(scores.avg_latency_ms) - 200.0).abs() < 1e-9);
    // Only two results have tokens; averages are over the known counts.
    assert!((number(scores.avg_prompt_tokens) - 20.0).abs() < 1e-9);
    assert!((number(scores.avg_completion_tokens) - 30.0).abs() < 1e-9);

    assert!((testset_score(&scores, "a") - 0.5).abs() < 1e-9);
    assert!((testset_score(&scores, "b") - 1.0).abs() < 1e-9);
}

#[test]
fn missing_testset_groups_under_default() {
    let results = vec![
        mk("F", "t1", None, true, 10.0, None, None),
        mk("F", "t2", None, false, 10.0, None, None),
    ];
    let scores = scores_of(&results);
    assert!((testset_score(&scores, "default") - 0.5).abs() < 1e-9);
}

#[test]
fn unknown_counts_on_one_side_average_to_zero() {
    let results = vec![
        mk("F", "t1", None, true, 1.0, Some(8), None),
        mk("F", "t2", Some("default"), true, 3.0, Some(4), None),
    ];
    let mut quotients = divide(&results);
    quotients.total_tokens = measure(6.0);
    let scores = CandidateScores::from_test_results(&results, &quotients);
    assert_eq!(number(scores.avg_prompt_tokens), 6.0);
    assert_eq!(number(scores.avg_completion_tokens), 0.0);
    assert_eq!(number(scores.avg_total_tokens), 6.0);
    assert_eq!(scores.per_testset_scores.len(), 1);
    assert_eq!(testset_score(&scores, "default"), 1.0);
}

#[test]
fn tallies_count_each_testset_in_order_of_appearance() {
    let results = vec![
        mk("F", "t1", Some("b"), false, 1.0, Some(-5), Some(1)),
        mk("F", "t2", None, true, 1.0, Some(7), None),
        mk("F", "t3", Some("b"), true, 1.0, None, Some(2)),
    ];
    let t = tally(&results);
    assert_eq!((t.total, t.passed), (3, 2));
    assert_eq!((t.input.sum, t.input.count), (2, 2));
    assert_eq!((t.output.sum, t.output.count), (3, 2));
    let testsets: Vec<(&str, usize, usize)> =
        t.testsets.iter().map(|s| (s.name.as_str(), s.passed, s.total)).collect();
    assert_eq!(testsets, vec![("b", 1, 2), ("default", 1, 1)]);
}

#[test]
fn token_sums_are_checked_step_by_step() {
    let fits = vec![
        mk("F", "t1", None, true, 1.0, Some(i64::MAX), None),
        mk("F", "t2", None, true, 1.0, Some(-1), Some(i64::MIN)),
        mk("F", "t3", None, true, 1.0, Some(1), None),
    ];
    assert!(token_sums_fit(&fits));
    let overflows = vec![
        mk("F", "t1", None, true, 1.0, Some(i64::MAX), None),
        mk("F", "t2", None, true, 1.0, Some(1), None),
        mk("F", "t3", None, true, 1.0, Some(-1), None),
    ];
    assert!(!token_sums_fit(&overflows));
    let underflows = vec![
        mk("F", "t1", None, true, 1.0, None, Some(i64::MIN)),
        mk("F", "t2", None, true, 1.0, None, Some(-1)),
    ];
    assert!(!token_sums_fit(&underflows));
}

#[test]
fn an_evaluator_runs_at_least_one_test_at_a_time() {
    assert_eq!(Evaluator::new(0).parallel, 1);
    assert_eq!(Evaluator::new(1).parallel, 1);
    assert_eq!(Evaluator::new(8).parallel, 8);
}

#[test]
fn arguments_follow_the_parameters() {
    let params = vec!["b".to_string(), "a".to_string()];
    let args = vec!["a".to_string(), "x".to_string(), "b".to_string(), "a".to_string()];
    assert_eq!(ordered_arguments("F", &params, &args).unwrap(), vec![2, 0]);
    assert_eq!(ordered_arguments("F", &vec![], &args).unwrap(), Vec::<usize>::new());
}

#[test]
fn the_first_parameter_without_an_argument_is_reported() {
    let params = vec!["a".to_string(), "b".to_string(), "c".to_string()];
    let e = ordered_arguments("F", &params, &vec!["a".to_string()]).unwrap_err();
    assert_eq!(e.message(), "missing argument 'b' for F");
}

#[test]
fn other_test_errors_name_function_and_reason() {
    let e = TestError::TestCaseNotFound { function_name: "F".into(), test_name: "t".into() };
    assert_eq!(e.message(), "test case not found: F::t");
    let e = TestError::NoParams { function_name: "F".into(), reason: "gone".into() };
    assert_eq!(e.message(), "failed to get params for F: gone");
}

#[test]
fn a_test_passes_exactly_if_the_call_went_through() {
    let value = RenderedValue {
        value: BexExternalValue::Int(4),
        kind: "int".into(),
        float_texts: vec![],
    };
    let run = Run {
        outcome: Ok(value),
        latency_ms: measure(1.5),
        input_tokens: Some(3),
        output_tokens: None,
    };
    let r = test_result("F".into(), "t".into(), Some("s".into()), vec![], run);
    assert!(r.passed);
    assert!(r.error.is_none());
    assert!(matches!(r.output.unwrap().value, BexExternalValue::Int(4)));
    assert_eq!((r.function_name.as_str(), r.test_name.as_str()), ("F", "t"));
    assert_eq!(r.testset_name.as_deref(), Some("s"));
    assert_eq!(number(r.latency_ms), 1.5);
    assert_eq!((r.input_tokens, r.output_tokens), (Some(3), None));

    let run = Run {
        outcome: Err("boom".into()),
        latency_ms: measure(2.0),
        input_tokens: None,
        output_tokens: None,
    };
    let r = test_result("F".into(), "t".into(), None, vec![], run);
    assert!(!r.passed);
    assert_eq!(r.error.as_deref(), Some("boom"));
    assert!(r.output.is_none());
}

#[test]
fn testsets_divide_the_results() {
    let names = [Some("a"), None, Some("b"), Some("a"), Some("default"), Some("c"), None];
    let results: Vec<TestResult> = names
        .iter()
        .enumerate()
        .map(|(i, name)| mk("F", "t", *name, i % 3 == 0, 1.0, None, None))
        .collect();
    let t = tally(&results);
    assert_eq!(t.testsets.iter().map(|s| s.total).sum::<usize>(), t.total);
    assert_eq!(t.testsets.iter().map(|s| s.passed).sum::<usize>(), t.passed);
    assert_eq!(t.testsets.len(), 4);
}
