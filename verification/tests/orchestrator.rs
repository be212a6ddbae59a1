use baml_optimize::candidate::{
    CandidateMethod, CandidateScores, ImprovedFunction, OptimizableFunction,
};
use baml_optimize::discovery::{DiscoveredTest, TestKind};
use baml_optimize::evaluator::TestResult;
use baml_optimize::gepa_runtime::{call_failure, merge_variants, propose_improvements};
use baml_optimize::measure::Measure;
use baml_optimize::orchestrator::{
    initial_function_from_db, run_config, GEPAOrchestrator, IterationError, OrchestratorConfig,
    Step,
};
use baml_optimize::pareto::{Direction, Objective};
use baml_optimize::progress::Progress;
use baml_optimize::schema_extractor::{Function, ItemTree, LlmMeta};
use baml_optimize::sources::SourceFile;
use baml_optimize::value_bridge::BexExternalValue;

fn measure(x: f64) -> Measure {
    Measure::from_bits(x.to_bits())
}

fn config(max_iterations: u32, merge_every: u32) -> OrchestratorConfig {
    OrchestratorConfig {
        function_name: "F".into(),
        max_iterations,
        parallel: 4,
        objectives: vec![
            Objective::new("accuracy", Direction::Maximize, measure(0.5)),
            Objective::new("tokens", Direction::Minimize, measure(0.5)),
        ],
        merge_every,
        verbose: false,
    }
}

fn function(prompt: &str) -> OptimizableFunction {
    OptimizableFunction {
        function_name: "F".into(),
        prompt_text: prompt.into(),
        classes: vec![],
        enums: vec![],
        function_source: Some("main.baml".into()),
    }
}

fn test() -> DiscoveredTest {
    DiscoveredTest {
        function_name: "F".into(),
        test_name: "t".into(),
        testset_name: None,
        file_path: "main.baml".into(),
        kind: TestKind::Legacy,
        test_source: None,
    }
}

fn orchestrator(max_iterations: u32, merge_every: u32) -> GEPAOrchestrator {
    let sources = vec![SourceFile {
        path: "main.baml".into(),
        content: "function F() { prompt #\"old\"# }\n".into(),
    }];
    GEPAOrchestrator::new(
        config(max_iterations, merge_every),
        "/p".into(),
        12,
        sources,
        vec![test(), test()],
        function("old"),
    )
}

fn scores(accuracy: f64, tokens: f64) -> CandidateScores {
    CandidateScores {
        test_pass_rate: measure(accuracy),
        tests_passed: 1,
        tests_total: 2,
        avg_prompt_tokens: measure(tokens),
        avg_completion_tokens: measure(0.0),
        avg_total_tokens: measure(tokens),
        avg_latency_ms: measure(5.0),
        per_testset_scores: vec![],
    }
}

fn result(passed: bool) -> TestResult {
    TestResult {
        function_name: "F".into(),
        test_name: "t".into(),
        testset_name: None,
        passed,
        error: None,
        latency_ms: measure(5.0),
        input_tokens: None,
        output_tokens: None,
        input_args: vec![],
        output: None,
    }
}

fn improved(prompt: &str) -> ImprovedFunction {
    ImprovedFunction {
        prompt_text: prompt.into(),
        classes: vec![],
        enums: vec![],
        rationale: "because".into(),
    }
}

#[test]
fn defaults_are_those_of_the_command() {
    let d = OrchestratorConfig::default();
    assert_eq!(d.function_name, "");
    assert_eq!((d.max_iterations, d.parallel, d.merge_every), (50, 8, 3));
    assert!(d.objectives.is_empty());
    assert!(!d.verbose);
}

#[test]
fn the_configuration_is_written_down() {
    let c = run_config(&config(9, 3));
    assert_eq!((c.function_name.as_str(), c.max_iterations, c.parallel), ("F", 9, 4));
    let objectives: Vec<(&str, &str, f64)> = c
        .objectives
        .iter()
        .map(|o| (o.name.as_str(), o.direction.as_str(), f64::from_bits(o.weight.bits)))
        .collect();
    assert_eq!(objectives, vec![("accuracy", "Maximize", 0.5), ("tokens", "Minimize", 0.5)]);
}

#[test]
fn a_run_goes_through_its_steps() {
    let mut o = orchestrator(4, 3);
    assert_eq!(o.state().evaluator.parallel, 4);
    assert_eq!(o.state().applier.root_path, "/p");
    assert_eq!(o.state().storage.run_dir(), "/p/.baml_optimize/run_12");

    o.begin();
    assert_eq!(o.state().candidates.len(), 1);
    assert_eq!(o.state().candidates[0].method, CandidateMethod::Initial);
    assert_eq!(o.state().candidates[0].rationale.as_deref(), Some("Baseline from source"));
    assert!(o.record_evaluation(0, scores(0.5, 100.0), vec![result(true), result(false)]));
    assert_eq!(o.state().total_evals, 2);

    // A reflection that changes the prompt and trades tokens for accuracy.
    assert_eq!(o.next_step(), Step::Reflect);
    let plan = o.plan_reflection(&vec![measure(1.0)]).unwrap();
    assert_eq!(plan.parent_id, 0);
    assert_eq!((plan.failures.len(), plan.successes.len()), (1, 1));
    assert_eq!(plan.objectives.objectives.len(), 2);
    assert_eq!(plan.metrics.unwrap().tests_total, 2);
    let candidate = o.propose_reflection(plan.parent_id, improved("new"));
    assert_eq!((candidate.id, candidate.iteration), (1, 1));
    assert_eq!(candidate.parent_ids, vec![0]);
    assert_eq!(candidate.method, CandidateMethod::Reflection);
    assert_eq!(candidate.function.function_source.as_deref(), Some("main.baml"));
    assert_eq!(candidate.rationale.as_deref(), Some("because"));
    let modified = o.stage(candidate).expect("sources change");
    assert_eq!(modified[0].content, "function F() { prompt #\"new\"# }\n");
    assert!(o.record_evaluation(1, scores(0.9, 200.0), vec![result(true)]));
    assert_eq!(o.state().pareto.frontier(), &[0, 1]);

    // A reflection that changes nothing is not evaluated.
    assert_eq!(o.next_step(), Step::Reflect);
    let plan = o.plan_reflection(&vec![measure(0.1), measure(0.2)]).unwrap();
    assert_eq!(plan.parent_id, 1);
    let same = o.propose_reflection(1, improved("old"));
    assert!(o.stage(same).is_none());
    assert_eq!(o.state().candidates.len(), 3);
    assert_eq!(o.state().pareto.frontier(), &[0, 1]);

    // The third iteration merges.
    assert_eq!(o.next_step(), Step::Merge);
    assert!(o.should_merge_this_iteration());
    let zero = || measure(0.0);
    let diversity = vec![vec![zero(), measure(100.4)], vec![measure(100.4), zero()]];
    assert_eq!(o.plan_merge(&diversity), Ok((0, 1)));
    let merged = o.propose_merge(0, 1, improved("both"));
    assert_eq!((merged.id, merged.iteration), (3, 3));
    assert_eq!(merged.parent_ids, vec![0, 1]);
    assert_eq!(merged.method, CandidateMethod::Merge);
    assert!(o.stage(merged).is_some());
    assert!(o.record_evaluation(3, scores(0.95, 90.0), vec![]));
    assert_eq!(o.state().pareto.frontier(), &[3]);

    // A parent without results cannot be reflected on; the frontier stays.
    assert_eq!(o.next_step(), Step::Reflect);
    assert_eq!(
        o.plan_reflection(&vec![measure(1.0)]).unwrap_err(),
        IterationError::NoResults
    );

    assert_eq!(o.next_step(), Step::Finish);
    let state = o.checkpoint();
    assert_eq!(state.function_name, "F");
    assert_eq!((state.current_iteration, state.total_evals), (4, 6));
    assert_eq!(state.candidate_ids, vec![0, 1, 2, 3]);
    assert_eq!(state.pareto_frontier, vec![3]);
    let end = o.finalize(&vec![measure(1.0)]);
    assert_eq!(end.best_candidate_id, 3);
    assert_eq!(f64::from_bits(end.best_scores.test_pass_rate.bits), 0.95);
    assert_eq!((end.total_iterations, end.total_evaluations), (4, 6));
    assert_eq!(end.pareto_frontier_size, 1);
}

#[test]
fn a_dominated_candidate_is_kept_off_the_frontier() {
    let mut o = orchestrator(2, 0);
    o.begin();
    assert!(o.record_evaluation(0, scores(0.5, 100.0), vec![result(true)]));
    assert_eq!(o.next_step(), Step::Reflect);
    let worse = o.propose_reflection(0, improved("worse"));
    assert!(o.stage(worse).is_some());
    assert!(!o.record_evaluation(1, scores(0.4, 150.0), vec![result(false)]));
    assert_eq!(o.state().pareto.frontier(), &[0]);
}

#[test]
fn merging_can_be_disabled_and_needs_two_members() {
    let mut o = orchestrator(3, 0);
    o.begin();
    o.record_evaluation(0, scores(0.5, 100.0), vec![result(true)]);
    let rest = vec![o.next_step(), o.next_step(), o.next_step(), o.next_step()];
    assert_eq!(rest, vec![Step::Reflect, Step::Reflect, Step::Reflect, Step::Finish]);

    let mut o = orchestrator(1, 1);
    o.begin();
    o.record_evaluation(0, scores(0.5, 100.0), vec![result(true)]);
    assert_eq!(o.next_step(), Step::Reflect);
    assert_eq!(
        o.plan_merge(&vec![vec![measure(0.0)]]).unwrap_err(),
        IterationError::TooFewToMerge
    );
}

#[test]
fn an_empty_frontier_is_reported() {
    let mut o = orchestrator(1, 3);
    o.begin();
    let e = o.plan_reflection(&vec![]).unwrap_err();
    assert_eq!(e, IterationError::EmptyFrontier);
    assert_eq!(e.message(), "pareto frontier is empty — nothing to reflect on");
    assert_eq!(
        IterationError::NoResults.message(),
        "no test results recorded for parent candidate"
    );
    assert_eq!(
        IterationError::TooFewToMerge.message(),
        "cannot merge: fewer than two frontier members"
    );
    let end = o.finalize(&vec![]);
    assert_eq!(end.best_candidate_id, 0);
    assert_eq!(end.best_scores.tests_total, 0);
    assert_eq!(f64::from_bits(end.best_scores.test_pass_rate.bits), 0.0);
}

#[test]
fn the_initial_function_comes_from_the_declarations() {
    let items = ItemTree {
        classes: vec![],
        enums: vec![],
        functions: vec![Function {
            name: "F".into(),
            params: vec![],
            return_type: None,
            declarative_meta: Some(LlmMeta { prompt: Some("hi".into()) }),
        }],
    };
    assert_eq!(initial_function_from_db(&items, "F").unwrap().prompt_text, "hi");
    assert_eq!(
        initial_function_from_db(&items, "G").unwrap_err().message(),
        "function 'G' not found"
    );
}

#[test]
fn reflection_calls_name_their_arguments() {
    let int = BexExternalValue::Int;
    let call = propose_improvements(int(1), int(2), int(3), int(4), None);
    assert_eq!(call.function_name, "ProposeImprovements");
    let names: Vec<&str> = call.args.iter().map(|a| a.0.as_str()).collect();
    assert_eq!(
        names,
        vec![
            "current_function",
            "failed_examples",
            "successful_examples",
            "optimization_objectives",
            "current_metrics",
        ]
    );
    assert!(matches!(call.args[3].1, BexExternalValue::Int(4)));
    assert!(matches!(call.args[4].1, BexExternalValue::Null));
    let call = propose_improvements(int(1), int(2), int(3), int(4), Some(int(5)));
    assert!(matches!(call.args[4].1, BexExternalValue::Int(5)));

    let call = merge_variants(int(1), int(2), int(3), int(4));
    assert_eq!(call.function_name, "MergeVariants");
    let args: Vec<String> = call.args.iter().map(|a| format!("{}={:?}", a.0, a.1)).collect();
    assert_eq!(
        args,
        vec![
            "variant_a=Int(1)",
            "variant_b=Int(2)",
            "variant_a_strengths=Int(3)",
            "variant_b_strengths=Int(4)",
        ]
    );
    assert_eq!(call_failure("MergeVariants", "timeout"), "MergeVariants call failed: timeout");
}

#[test]
fn progress_is_told() {
    let said = |p: Progress| p.message();
    assert_eq!(
        said(Progress::Started { function_name: "F".into() }),
        "Initializing optimization for function: F"
    );
    assert_eq!(
        said(Progress::EvaluatingBaseline { tests: 12, parallel: 8 }),
        "Evaluating baseline on 12 tests (8 in parallel)..."
    );
    let (pass_rate, latency) = ("75.0".to_string(), "120".to_string());
    assert_eq!(
        said(Progress::BaselineScored {
            pass_rate: pass_rate.clone(),
            passed: 3,
            total: 4,
            latency: latency.clone(),
        }),
        "Baseline: 75.0% pass rate (3/4), 120ms avg latency"
    );
    assert_eq!(
        said(Progress::CandidateScored { id: 2, pass_rate, passed: 3, total: 4, latency }),
        "Candidate #2: 75.0% pass rate (3/4), 120ms avg latency"
    );
    assert_eq!(
        said(Progress::Iteration { iteration: 1, max_iterations: 50 }),
        "\n--- Iteration 1/50 ---"
    );
    assert_eq!(
        said(Progress::MergeIteration { iteration: 3, max_iterations: 50 }),
        "\n--- Iteration 3/50 (merge) ---"
    );
    assert_eq!(
        said(Progress::ParentSelected { parent_id: 7 }),
        "Selected parent candidate #7 for reflection"
    );
    assert_eq!(said(Progress::Merging { id_a: 1, id_b: 2 }), "Merging candidates #1 and #2");
    assert_eq!(said(Progress::Reflected { rationale: "r".into() }), "Reflection rationale: r");
    assert_eq!(said(Progress::Merged { rationale: "r".into() }), "Merge rationale: r");
    assert_eq!(
        said(Progress::NoSourceChanges { id: 4 }),
        "Candidate #4 produced no source changes — skipping re-evaluation"
    );
    assert_eq!(said(Progress::Frontier { members: vec![2, 10] }), "Pareto frontier: [2, 10]");
    assert_eq!(
        said(Progress::IterationFailed { iteration: 5, reason: "boom".into() }),
        "iteration 5 failed: boom — continuing with prior frontier"
    );
}
