use baml_optimize::candidate::{Candidate, CandidateMethod, CandidateScores, OptimizableFunction};
use baml_optimize::evaluator::{RenderedValue, TestResult};
use baml_optimize::measure::Measure;
use baml_optimize::pareto::{Direction, Objective};
use baml_optimize::reflection::{
    build_examples, build_metrics, build_objectives, candidate_strengths, render_value,
    strength_numbers, NumberFormat,
};
use baml_optimize::value_bridge::{BexExternalValue, ValueType};

fn measure(x: f64) -> Measure {
    Measure::from_bits(x.to_bits())
}

fn number(m: Measure) -> f64 {
    f64::from_bits(m.bits)
}

fn text_value(text: &str) -> RenderedValue {
    RenderedValue {
        value: BexExternalValue::Text(text.to_string()),
        kind: "string".into(),
        float_texts: vec![],
    }
}

fn result(passed: bool, sentence: &str, error: Option<&str>) -> TestResult {
    TestResult {
        function_name: "ExtractSubject".into(),
        test_name: "Test1".into(),
        testset_name: None,
        passed,
        error: error.map(ToString::to_string),
        latency_ms: measure(120.0),
        input_tokens: Some(30),
        output_tokens: Some(12),
        input_args: vec![("sentence".to_string(), text_value(sentence))],
        output: if passed { Some(text_value("Meg")) } else { None },
    }
}

fn candidate(id: usize, scores: Option<CandidateScores>) -> Candidate {
    Candidate {
        id,
        iteration: 0,
        parent_ids: vec![],
        method: CandidateMethod::Initial,
        function: OptimizableFunction {
            function_name: "F".into(),
            prompt_text: String::new(),
            classes: vec![],
            enums: vec![],
            function_source: None,
        },
        scores,
        rationale: None,
    }
}

fn scores(rate: f64, passed: usize, total: usize, prompt: f64, completion: f64, latency: f64) -> CandidateScores {
    CandidateScores {
        test_pass_rate: measure(rate),
        tests_passed: passed,
        tests_total: total,
        avg_prompt_tokens: measure(prompt),
        avg_completion_tokens: measure(completion),
        avg_total_tokens: measure(prompt + completion),
        avg_latency_ms: measure(latency),
        per_testset_scores: vec![],
    }
}

fn written(candidate: &Candidate, objectives: &Vec<Objective>) -> Vec<String> {
    strength_numbers(candidate, objectives)
        .iter()
        .map(|n| match n.format {
            NumberFormat::Percent => format!("{:.1}", number(n.value) * 100.0),
            NumberFormat::Whole => format!("{:.0}", number(n.value)),
            NumberFormat::Hundredths => format!("{:.2}", number(n.value)),
            NumberFormat::Fixed => String::new(),
        })
        .collect()
}

fn lookup<'a>(pairs: &'a Vec<(String, String)>, key: &str) -> Option<&'a str> {
    pairs.iter().find(|p| p.0 == key).map(|p| p.1.as_str())
}

#[test]
fn build_examples_partitions_by_pass_fail() {
    let results = vec![
        result(false, "failing input", Some("assert failed: this != null")),
        result(true, "successful input", None),
    ];
    let failures = build_examples(&results, false);
    let successes = build_examples(&results, true);

    assert_eq!(failures.len(), 1);
    assert_eq!(lookup(&failures[0].inputs, "sentence").unwrap(), "\"failing input\"");
    assert_eq!(
        failures[0].feedback,
        "assert failed: this != null"
    );
    assert_eq!(failures[0].failure_location.as_deref(), Some("assertion"));
    assert!(failures[0].generated_outputs.is_empty());

    assert_eq!(successes.len(), 1);
    assert_eq!(successes[0].feedback, "ok");
    assert_eq!(
        lookup(&successes[0].generated_outputs, "result").unwrap(),
        "\"Meg\""
    );
    assert_eq!(failures.len() + successes.len(), results.len());
}

#[test]
fn build_objectives_reflects_parent_scores() {
    let objectives = vec![
        Objective::new("accuracy", Direction::Maximize, measure(1.0)),
        Objective::new("latency", Direction::Minimize, measure(0.5)),
    ];
    let parent = candidate(0, Some(scores(0.75, 3, 4, 50.0, 20.0, 180.0)));
    let out = build_objectives(&objectives, &parent);
    assert_eq!(out.objectives.len(), 2);
    assert_eq!(out.objectives[0].name, "accuracy");
    assert!((number(out.objectives[0].current_value) - 0.75).abs() < 1e-9);
    assert_eq!(out.objectives[0].direction, "maximize");
    assert_eq!(out.objectives[1].name, "latency");
    assert!((number(out.objectives[1].current_value) - 180.0).abs() < 1e-9);
    assert_eq!(out.objectives[1].direction, "minimize");
    assert_eq!(number(out.objectives[1].weight), 0.5);
    assert_eq!(out.objectives[1].status, "");
}

#[test]
fn candidate_strengths_names_configured_objectives() {
    let objectives = vec![
        Objective::new("accuracy", Direction::Maximize, measure(1.0)),
        Objective::new("latency", Direction::Minimize, measure(0.5)),
        Objective::new("tokens", Direction::Minimize, measure(0.2)),
    ];
    let candidate = candidate(1, Some(scores(0.8, 4, 5, 40.0, 10.0, 250.0)));
    let strengths =
        candidate_strengths(&candidate, &objectives, &written(&candidate, &objectives));
    assert_eq!(
        strengths,
        vec![
            "accuracy=80.0%".to_string(),
            "latency=250ms".to_string(),
            "tokens=50".to_string(),
        ]
    );
}

#[test]
fn build_metrics_sums_tokens() {
    let scores = scores(0.5, 2, 4, 100.0, 50.0, 250.0);
    let m = build_metrics(&scores);
    assert_eq!(m.tests_passed, 2);
    assert_eq!(m.tests_total, 4);
    assert!((number(m.avg_total_tokens) - 150.0).abs() < 1e-9);
}

#[test]
fn examples_keep_what_was_measured() {
    let mut r = result(false, "x", None);
    r.input_args.push(("sentence".to_string(), text_value("y")));
    r.input_args.push(("other".to_string(), text_value("z")));
    let examples = build_examples(&vec![r], false);
    let e = &examples[0];
    assert_eq!(e.feedback, "test failed without a specific error");
    assert_eq!(e.inputs.len(), 2);
    assert_eq!(lookup(&e.inputs, "sentence"), Some("\"y\""));
    assert_eq!(lookup(&e.inputs, "other"), Some("\"z\""));
    assert_eq!(e.test_name.as_deref(), Some("Test1"));
    assert!(e.test_source.is_none());
    assert_eq!((e.prompt_tokens, e.completion_tokens), (Some(30), Some(12)));
    assert_eq!(e.latency_ms.map(number), Some(120.0));
}

#[test]
fn values_without_a_json_form_show_their_type() {
    let value = RenderedValue {
        value: BexExternalValue::Opaque { kind: "image".into() },
        kind: "image".into(),
        float_texts: vec![],
    };
    assert_eq!(render_value(&value), "<unrenderable:image>");
    assert_eq!(render_value(&text_value("a")), "\"a\"");
    let infinite = RenderedValue {
        value: BexExternalValue::Float(measure(f64::INFINITY)),
        kind: "float".into(),
        float_texts: vec![(measure(f64::INFINITY), "inf".into())],
    };
    assert_eq!(render_value(&infinite), "<unrenderable:float>");
}

#[test]
fn values_are_rendered_as_compact_json() {
    let value = BexExternalValue::Instance {
        class_name: "C".into(),
        fields: vec![
            ("b".into(), BexExternalValue::Float(measure(0.5))),
            ("a\u{1f}".into(), BexExternalValue::Text("\"\\\u{8}\t\n\u{c}\r\u{7f}\u{e9}/".into())),
            ("c".into(), BexExternalValue::Int(i64::MIN)),
            (
                "B".into(),
                BexExternalValue::Array {
                    element_type: ValueType::Unknown,
                    items: vec![
                        BexExternalValue::Null,
                        BexExternalValue::Bool(true),
                        BexExternalValue::Bool(false),
                        BexExternalValue::Int(12),
                    ],
                },
            ),
            (
                "a".into(),
                BexExternalValue::Mapping {
                    key_type: ValueType::Text,
                    value_type: ValueType::Unknown,
                    entries: vec![],
                },
            ),
        ],
    };
    let json = serde_json::to_string(&serde_json::Value::Object(serde_json::Map::from_iter([
        ("b".to_string(), serde_json::Value::from(0.5)),
        (
            "a\u{1f}".to_string(),
            serde_json::Value::from("\"\\\u{8}\t\n\u{c}\r\u{7f}\u{e9}/"),
        ),
        ("c".to_string(), serde_json::Value::from(i64::MIN)),
        (
            "B".to_string(),
            serde_json::Value::Array(vec![
                serde_json::Value::Null,
                serde_json::Value::from(true),
                serde_json::Value::from(false),
                serde_json::Value::from(12),
            ]),
        ),
        ("a".to_string(), serde_json::Value::Object(serde_json::Map::new())),
    ])))
    .unwrap();
    let rendered = RenderedValue {
        value,
        kind: "C".into(),
        float_texts: vec![(measure(0.5), "0.5".into())],
    };
    assert_eq!(render_value(&rendered), json);
    assert!(json.starts_with(r#"{"B":[null,true,false,12],"a":{},"a\u001f":"#), "{json}");
}

#[test]
fn a_double_without_a_text_is_null() {
    let value = RenderedValue {
        value: BexExternalValue::Float(measure(0.5)),
        kind: "float".into(),
        float_texts: vec![(measure(1.5), "1.5".into())],
    };
    assert_eq!(render_value(&value), "null");
}

#[test]
fn testset_objectives_are_reported_by_the_name_behind_the_colon() {
    let objectives = vec![
        Objective::new("accuracy:a", Direction::Maximize, measure(1.0)),
        Objective::new("rate:a", Direction::Maximize, measure(1.0)),
        Objective::new("accuracy:missing", Direction::Maximize, measure(1.0)),
        Objective::new("speed", Direction::Maximize, measure(1.0)),
    ];
    let mut s = scores(0.8, 4, 5, 40.0, 10.0, 250.0);
    s.per_testset_scores.push(("a".into(), measure(0.125)));
    let c = candidate(0, Some(s));
    let out = build_objectives(&objectives, &c);
    let values: Vec<f64> = out.objectives.iter().map(|o| number(o.current_value)).collect();
    assert_eq!(values, vec![0.125, 0.125, 0.0, 0.0]);
    assert_eq!(
        candidate_strengths(&c, &objectives, &written(&c, &objectives)),
        vec!["accuracy:a=0.12", "rate:a=0.12", "accuracy:missing=0.00", "speed=0"]
    );
}

#[test]
fn without_scores_there_is_nothing_to_show() {
    let objectives = vec![Objective::new("accuracy", Direction::Maximize, measure(1.0))];
    let c = candidate(0, None);
    assert_eq!(number(build_objectives(&objectives, &c).objectives[0].current_value), 0.0);
    assert!(strength_numbers(&c, &objectives).is_empty());
    assert!(candidate_strengths(&c, &objectives, &vec![]).is_empty());
}
