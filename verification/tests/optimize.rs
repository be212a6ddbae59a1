use baml_optimize::candidate::{Candidate, CandidateMethod, CandidateScores, OptimizableFunction};
use baml_optimize::discovery::{DiscoveredTest, TestKind};
use baml_optimize::measure::Measure;
use baml_optimize::optimize::{
    choose_candidate, combine_tests, files_to_write, find_candidate, objectives_or_default,
    read_results, report_applied, report_dropped, report_errors, report_files, report_objectives,
    report_result, report_selection, resume_from_run_dir, ApplyChoice, ConfigFile, FinalFile, Mode,
    OptimizeArgs, OutputLine, StateFile, Stream,
};
use baml_optimize::orchestrator::OptimizationResult;
use baml_optimize::pareto::{Direction, Objective};
use baml_optimize::sources::SourceFile;
use baml_optimize::storage::{ObjectiveConfig, RunConfig, RunState};

fn args() -> OptimizeArgs {
    OptimizeArgs {
        function: "F".into(),
        from: ".".into(),
        max_iterations: 7,
        parallel: 2,
        weights: "accuracy=1.0".into(),
        include_tests: vec![],
        exclude: vec![],
        resume: None,
        view: None,
        no_ui: true,
        yes: false,
        verbose: true,
    }
}

fn texts(lines: &Vec<OutputLine>, stream: Stream) -> Vec<&str> {
    lines.iter().filter(|l| l.stream == stream).map(|l| l.text.as_str()).collect()
}

fn strings(n: usize, prefix: &str) -> Vec<String> {
    (0..n).map(|i| format!("{prefix}{i}")).collect()
}

fn file(path: &str, content: &str) -> SourceFile {
    SourceFile { path: path.to_string(), content: content.to_string() }
}

fn candidate(id: usize) -> Candidate {
    Candidate {
        id,
        iteration: 0,
        parent_ids: vec![],
        method: CandidateMethod::Initial,
        function: OptimizableFunction {
            function_name: "F".into(),
            prompt_text: String::new(),
            classes: vec![],
            enums: vec![],
            function_source: None,
        },
        scores: None,
        rationale: None,
    }
}

#[test]
fn viewing_comes_before_resuming() {
    let mut a = args();
    assert!(matches!(a.mode(), Mode::Optimize));
    a.resume = Some("r".into());
    match a.mode() {
        Mode::Resume { run_dir } => assert_eq!(run_dir, "r"),
        other => panic!("expected to resume, got {other:?}"),
    }
    a.view = Some("v".into());
    match a.mode() {
        Mode::View { run_dir } => assert_eq!(run_dir, "v"),
        other => panic!("expected to view, got {other:?}"),
    }
}

#[test]
fn arguments_configure_the_run() {
    let c = args().orchestrator_config(objectives_or_default(vec![]));
    assert_eq!((c.function_name.as_str(), c.max_iterations, c.parallel), ("F", 7, 2));
    assert_eq!(c.merge_every, 3);
    assert!(c.verbose);
    assert_eq!(c.objectives.len(), 1);
    assert_eq!(c.objectives[0].name, "accuracy");
    assert_eq!(c.objectives[0].direction, Direction::Maximize);
    assert_eq!(f64::from_bits(c.objectives[0].weight.bits), 1.0);
    let parsed = vec![Objective::new("tokens", Direction::Minimize, Measure::zero())];
    assert_eq!(objectives_or_default(parsed)[0].name, "tokens");
}

#[test]
fn files_are_listed_up_to_ten() {
    let e = report_files(&vec![], "/p", true).unwrap_err();
    assert_eq!((e.stream, e.text.as_str()), (Stream::Stderr, "No .baml files found in /p"));
    assert!(report_files(&strings(1, "f"), "/p", false).unwrap().is_empty());
    let lines = report_files(&strings(2, "f"), "/p", true).unwrap();
    assert_eq!(
        texts(&lines, Stream::Stdout),
        vec!["Discovered 2 .baml file(s) under /p", "  [0] f0", "  [1] f1"]
    );
    let lines = report_files(&strings(13, "f"), "/p", true).unwrap();
    assert_eq!(lines.len(), 12);
    assert_eq!(lines[10].text, "  [9] f9");
    assert_eq!(lines[11].text, "  ... and 3 more");
}

#[test]
fn errors_are_listed_up_to_twenty() {
    assert!(report_errors(&vec![]).is_none());
    let lines = report_errors(&strings(1, "e")).unwrap();
    assert_eq!(
        texts(&lines, Stream::Stderr),
        vec!["Compilation errors found (1):", "  error: e0"]
    );
    let lines = report_errors(&strings(20, "e")).unwrap();
    assert_eq!(lines.len(), 21);
    let lines = report_errors(&strings(25, "e")).unwrap();
    assert_eq!(lines.len(), 22);
    assert_eq!(lines[20].text, "  error: e19");
    assert_eq!(lines[21].text, "  ... and 5 more errors");
}

#[test]
fn testset_tests_take_on_the_function() {
    let test = |function: &str, name: &str| DiscoveredTest {
        function_name: function.to_string(),
        test_name: name.to_string(),
        testset_name: None,
        file_path: String::new(),
        kind: TestKind::Legacy,
        test_source: None,
    };
    let all = combine_tests(vec![test("F2", "a")], &vec![test("", "b"), test("x", "c")], "F");
    let all: Vec<(&str, &str)> =
        all.iter().map(|t| (t.function_name.as_str(), t.test_name.as_str())).collect();
    assert_eq!(all, vec![("F2", "a"), ("F", "b"), ("F", "c")]);
}

#[test]
fn selections_are_reported() {
    assert!(report_dropped(0, "F", true).is_none());
    assert!(report_dropped(2, "F", false).is_none());
    assert_eq!(
        report_dropped(2, "F", true).unwrap().text,
        "Dropped 2 testset test(s) that don't reference F"
    );
    assert_eq!(report_selection("F", 3, 3).unwrap().text, "Found 3 tests for function 'F'");
    assert_eq!(
        report_selection("F", 3, 1).unwrap().text,
        "Found 3 tests for function 'F' (1 selected after filters)"
    );
    assert_eq!(
        report_selection("F", 0, 0).unwrap_err().text,
        "No tests found for function: F"
    );
    let e = report_selection("F", 3, 0).unwrap_err();
    assert_eq!(e.stream, Stream::Stderr);
    assert_eq!(e.text, "No tests selected for function 'F' — all 3 were filtered out.");
}

#[test]
fn objectives_and_results_are_reported() {
    let objectives = vec![
        Objective::new("accuracy", Direction::Maximize, Measure::one()),
        Objective::new("tokens", Direction::Minimize, Measure::zero()),
    ];
    let lines = report_objectives(&objectives, &vec!["1".into(), "0.25".into()]);
    assert_eq!(
        texts(&lines, Stream::Stdout),
        vec![
            "Objectives:",
            "  - accuracy (Maximize, weight=1)",
            "  - tokens (Minimize, weight=0.25)",
        ]
    );
    let mut best_scores = CandidateScores::default();
    best_scores.tests_passed = 3;
    best_scores.tests_total = 4;
    let result = OptimizationResult {
        function_name: "F".into(),
        best_candidate_id: 2,
        best_scores,
        total_iterations: 5,
        total_evaluations: 24,
        pareto_frontier_size: 1,
    };
    let lines = report_result(&result, false, "75.0", "120", "/run");
    assert_eq!(
        lines,
        vec![
            "\n=== Optimization Complete ===",
            "Function: F",
            "Best candidate: #2",
            "Pass rate: 75.0% (3/4)",
            "Avg latency: 120ms",
            "Total iterations: 5",
            "Total evaluations: 24",
            "Pareto frontier size: 1",
            "Run dir: /run",
        ]
    );
    let lines = report_result(&result, true, "75.0", "120", "/run");
    assert_eq!(lines[1], "(stopped early via TUI signal)");
    assert_eq!(lines.len(), 10);
}

#[test]
fn the_candidate_to_apply_is_chosen() {
    assert_eq!(choose_candidate(Some(4), true, false, true, 1), ApplyChoice::Apply(4));
    assert_eq!(choose_candidate(None, true, true, true, 1), ApplyChoice::Nothing);
    assert_eq!(choose_candidate(None, false, true, true, 1), ApplyChoice::Apply(1));
    assert_eq!(choose_candidate(None, false, false, true, 1), ApplyChoice::Ask);
    assert_eq!(choose_candidate(None, false, false, false, 1), ApplyChoice::Apply(1));
    let candidates = vec![candidate(3), candidate(5), candidate(5)];
    assert_eq!(find_candidate(&candidates, 5), Ok(1));
    assert_eq!(find_candidate(&candidates, 4), Err("candidate #4 not found".to_string()));
}

#[test]
fn only_changed_files_are_written() {
    let sources = vec![file("s/./a.baml", "a"), file("b.baml", "b")];
    let modified = vec![file("b.baml", "B"), file("s/./a.baml", "a"), file("c.baml", "")];
    let files = files_to_write("/p", &sources, &modified);
    let files: Vec<(&str, &str)> =
        files.iter().map(|f| (f.path.as_str(), f.content.as_str())).collect();
    assert_eq!(files, vec![("/p/b.baml", "B"), ("/p/c.baml", "")]);
}

#[test]
fn the_end_is_reported() {
    assert_eq!(report_applied(Some(3), "/p", "/run"), vec!["Applied candidate #3 to /p"]);
    assert_eq!(
        report_applied(None, "/p", "/run"),
        vec!["No candidate applied. Inspect the run with:", "  baml-cli optimize --view /run"]
    );
}

#[test]
fn a_prior_run_is_summarised() {
    let config = ConfigFile::Parsed {
        config: RunConfig {
            function_name: "F".into(),
            max_iterations: 50,
            parallel: 8,
            objectives: vec![ObjectiveConfig {
                name: "accuracy".into(),
                direction: "Maximize".into(),
                weight: Measure::one(),
            }],
        },
        weights: vec!["1".into()],
    };
    let state = StateFile::Parsed { state: RunState {
        function_name: "F".into(),
        current_iteration: 7,
        total_evals: 42,
        candidate_ids: vec![1, 2, 3],
        pareto_frontier: vec![2, 3],
    } };
    let results = read_results("{}");
    let lines = resume_from_run_dir("/run", &config, &state, &results);
    assert!(texts(&lines, Stream::Stderr).is_empty());
    assert_eq!(
        texts(&lines, Stream::Stdout),
        vec![
            "=== Resuming from /run ===",
            "Function: F",
            "Max iterations: 50",
            "Parallel: 8",
            "Objectives:",
            "  - accuracy (Maximize, weight=1)",
            "\nLast checkpoint: iteration 7, 3 candidate(s), 42 evaluation(s)",
            "Pareto frontier: [2, 3]",
            "\nFinal results:",
            "{}",
            "\nResume is read-only in this phase. The reflection loop will pick up from this checkpoint once Phase 10 lands.",
        ]
    );
}

#[test]
fn missing_pieces_of_a_prior_run_are_told() {
    let lines = resume_from_run_dir("/run", &ConfigFile::Missing, &StateFile::Missing, &FinalFile::Missing);
    assert_eq!(
        texts(&lines, Stream::Stderr),
        vec![
            "warning: config.json not found in /run",
            "warning: no state.json in run directory — run did not checkpoint",
        ]
    );
    assert_eq!(lines[3].text, "\n(No final_results.json — run may not have finished.)");
    let config = ConfigFile::Unparsable { reason: "eof".into() };
    let lines = resume_from_run_dir("/run", &config, &StateFile::Missing, &FinalFile::Unparsable);
    assert_eq!(lines[1].text, "warning: could not parse config.json: eof");
    assert_eq!(lines[3].text, "warning: could not parse final_results.json");
    let config = ConfigFile::Parsed {
        config: RunConfig {
            function_name: "F".into(),
            max_iterations: 1,
            parallel: 1,
            objectives: vec![],
        },
        weights: vec![],
    };
    let state = StateFile::Parsed { state: RunState {
        function_name: "F".into(),
        current_iteration: 0,
        total_evals: 0,
        candidate_ids: vec![],
        pareto_frontier: vec![],
    } };
    let lines = resume_from_run_dir("/run", &config, &state, &FinalFile::Missing);
    assert!(!lines.iter().any(|l| l.text == "Objectives:"));
    assert_eq!(lines[5].text, "Pareto frontier: []");
}

#[test]
fn final_results_are_printed_anew() {
    match read_results("{\"b\":[1,2.50],\"a\":{}}") {
        FinalFile::Parsed { text } => {
            assert_eq!(text, "{\n  \"a\": {},\n  \"b\": [\n    1,\n    2.5\n  ]\n}");
        }
        other => panic!("expected a text, got {other:?}"),
    }
    assert!(matches!(read_results("{"), FinalFile::Unparsable));
    assert!(matches!(read_results(""), FinalFile::Unparsable));
}

#[test]
fn a_checkpoint_that_cannot_be_read_ends_the_summary() {
    let config = ConfigFile::Missing;
    let lines =
        resume_from_run_dir("/run", &config, &StateFile::Unreadable, &FinalFile::Missing);
    assert_eq!(lines.len(), 2);
    assert_eq!(lines[0].text, "=== Resuming from /run ===");
    assert_eq!(lines[1].text, "warning: config.json not found in /run");
}
