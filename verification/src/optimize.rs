//! The `optimize` command: what it decides and what it says.
//!
//! The caller resolves paths, reads files, compiles, runs the optimisation and
//! prints; formatted doubles come in as texts.

use vstd::prelude::*;
use vstd::string::*;

use crate::candidate::Candidate;
use crate::discovery::{DiscoveredTest, TestModel};
use crate::engine_build::first_of;
use crate::measure::{Measure, ONE};
use crate::orchestrator::{direction_name, OptimizationResult, OrchestratorConfig};
use crate::pareto::{Direction, Objective, ObjectiveModel};
use crate::paths::{join_path, joined};
use crate::progress::{id_list, write_ids};
use crate::sources::{FileModel, SourceFile};
use crate::storage::{file_at, RunConfig, RunState};
use crate::text::{decimal, first_in, lemma_seek_is, same_text, to_decimal};

verus! {

/// Arguments of the command.
#[derive(Debug)]
pub struct OptimizeArgs {
    /// Function to optimise.
    pub function: String,
    /// Path to the `baml_src` directory.
    pub from: String,
    /// Maximum number of optimisation iterations.
    pub max_iterations: u32,
    /// Number of tests to run in parallel.
    pub parallel: usize,
    /// Objective weights, e.g. `"accuracy=0.8,tokens=0.2"` or
    /// `"accuracy:testset_a=0.5"` (per-testset objective).
    pub weights: String,
    /// Test filter patterns.
    pub include_tests: Vec<String>,
    /// Tests to exclude; takes precedence.
    pub exclude: Vec<String>,
    /// Resume from an existing run directory: print the saved summary.
    pub resume: Option<String>,
    /// Open the viewer on an existing run directory.
    pub view: Option<String>,
    /// Disable the live viewer.
    pub no_ui: bool,
    /// Apply the best candidate at the end of a run without prompting.
    pub yes: bool,
    /// Verbose progress output.
    pub verbose: bool,
}

/// What the command is asked to do.
#[derive(Debug)]
pub enum Mode {
    View { run_dir: String },
    Resume { run_dir: String },
    Optimize,
}

/// What a [`Mode`] says.
pub ghost enum ModeModel {
    View { run_dir: Seq<char> },
    Resume { run_dir: Seq<char> },
    Optimize,
}

impl DeepView for Mode {
    type V = ModeModel;

    open spec fn deep_view(&self) -> ModeModel {
        match self {
            Mode::View { run_dir } => ModeModel::View { run_dir: run_dir@ },
            Mode::Resume { run_dir } => ModeModel::Resume { run_dir: run_dir@ },
            Mode::Optimize => ModeModel::Optimize,
        }
    }
}

impl OptimizeArgs {
    /// Viewing comes first, then resuming.
    pub fn mode(&self) -> (r: Mode)
        ensures
            r.deep_view() == match self.view {
                Some(run_dir) => ModeModel::View { run_dir: run_dir@ },
                None => match self.resume {
                    Some(run_dir) => ModeModel::Resume { run_dir: run_dir@ },
                    None => ModeModel::Optimize,
                },
            },
    {
        match &self.view {
            Some(run_dir) => Mode::View { run_dir: run_dir.clone() },
            None => match &self.resume {
                Some(run_dir) => Mode::Resume { run_dir: run_dir.clone() },
                None => Mode::Optimize,
            },
        }
    }

    /// The configuration of the run.
    pub fn orchestrator_config(&self, objectives: Vec<Objective>) -> (r: OrchestratorConfig)
        ensures
            r.function_name@ == self.function@,
            r.max_iterations == self.max_iterations,
            r.parallel == self.parallel,
            r.objectives == objectives,
            r.merge_every == 3,
            r.verbose == self.verbose,
    {
        OrchestratorConfig {
            function_name: self.function.clone(),
            max_iterations: self.max_iterations,
            parallel: self.parallel,
            objectives,
            merge_every: 3,
            verbose: self.verbose,
        }
    }
}

// ---------------------------------------------------------------------------
// Output
// ---------------------------------------------------------------------------

/// Where a line goes.
#[derive(Clone, Copy, Debug, PartialEq, Eq, Structural)]
pub enum Stream {
    Stdout,
    Stderr,
}

/// A line of output.
#[derive(Debug)]
pub struct OutputLine {
    pub stream: Stream,
    pub text: String,
}

impl DeepView for OutputLine {
    type V = (Stream, Seq<char>);

    open spec fn deep_view(&self) -> (Stream, Seq<char>) {
        (self.stream, self.text@)
    }
}

/// Appends a line.
fn say(out: &mut Vec<OutputLine>, stream: Stream, text: String)
    ensures
        final(out).deep_view() == old(out).deep_view().push((stream, text@)),
{
    let ghost before = out.deep_view();
    out.push(OutputLine { stream, text });
    assert(out.deep_view() =~= before.push((stream, text@)));
}

/// Two texts, one after the other.
fn cat2(a: &str, b: &str) -> (r: String)
    ensures
        r@ == a@ + b@,
{
    let mut out = String::from_str(a);
    out.append(b);
    out
}

/// Three texts, one after another.
fn cat3(a: &str, b: &str, c: &str) -> (r: String)
    ensures
        r@ == a@ + b@ + c@,
{
    let mut out = cat2(a, b);
    out.append(c);
    out
}

/// Five texts, one after another.
fn cat5(a: &str, b: &str, c: &str, d: &str, e: &str) -> (r: String)
    ensures
        r@ == a@ + b@ + c@ + d@ + e@,
{
    let mut out = cat3(a, b, c);
    out.append(d);
    out.append(e);
    out
}

/// A count in decimal digits.
fn count(n: usize) -> (r: String)
    ensures
        r@ == decimal(n as nat),
{
    to_decimal(n as u64)
}

/// The numbered lines of the first `n` of some paths.
pub open spec fn numbered(paths: Seq<Seq<char>>) -> Seq<(Stream, Seq<char>)> {
    Seq::new(
        paths.len(),
        |i: int| (Stream::Stdout, "  ["@ + decimal(i as nat) + "] "@ + paths[i]),
    )
}

/// What is said of the files that were found.
pub open spec fn files_text(files: Seq<Seq<char>>, root: Seq<char>) -> Seq<(Stream, Seq<char>)> {
    seq![
        (
            Stream::Stdout,
            "Discovered "@ + decimal(files.len()) + " .baml file(s) under "@ + root,
        ),
    ] + numbered(first_of(files, 10)) + if files.len() > 10 {
        seq![(Stream::Stdout, "  ... and "@ + decimal((files.len() - 10) as nat) + " more"@)]
    } else {
        Seq::empty()
    }
}

/// What is said of the files that were found. Without a file the command ends.
pub fn report_files(files: &Vec<String>, root: &str, verbose: bool) -> (r: Result<
    Vec<OutputLine>,
    OutputLine,
>)
    ensures
        match r {
            Ok(lines) => files@.len() > 0 && lines.deep_view() == if verbose {
                files_text(files.deep_view(), root@)
            } else {
                Seq::empty()
            },
            Err(line) => files@.len() == 0 && line.deep_view() == (
                Stream::Stderr,
                "No .baml files found in "@ + root@,
            ),
        },
{
    if files.len() == 0 {
        return Err(
            OutputLine { stream: Stream::Stderr, text: cat2("No .baml files found in ", root) },
        );
    }
    let mut out: Vec<OutputLine> = Vec::new();
    if !verbose {
        assert(out.deep_view() =~= Seq::<(Stream, Seq<char>)>::empty());
        return Ok(out);
    }
    let ghost paths = first_of(files.deep_view(), 10);
    let n = count(files.len());
    let mut head = cat3("Discovered ", n.as_str(), " .baml file(s) under ");
    head.append(root);
    say(&mut out, Stream::Stdout, head);
    let ghost first = out.deep_view();
    let mut k: usize = 0;
    proof {
        assert(first =~= seq![
            (
                Stream::Stdout,
                "Discovered "@ + decimal(files@.len()) + " .baml file(s) under "@ + root@,
            ),
        ]);
        assert(first + numbered(paths).take(0) =~= first);
    }
    while k < files.len() && k < 10
        invariant
            k <= files.len(),
            k <= 10,
            paths == first_of(files.deep_view(), 10),
            out.deep_view() == first + numbered(paths).take(k as int),
        decreases files.len() - k,
    {
        let i = count(k);
        let mut line = cat3("  [", i.as_str(), "] ");
        line.append(files[k].as_str());
        proof {
            assert(paths[k as int] == files@[k as int]@);
        }
        say(&mut out, Stream::Stdout, line);
        assert(out.deep_view() =~= first + numbered(paths).take(k + 1));
        k = k + 1;
    }
    assert(numbered(paths).take(paths.len() as int) =~= numbered(paths));
    if files.len() > 10 {
        let more = count(files.len() - 10);
        say(&mut out, Stream::Stdout, cat3("  ... and ", more.as_str(), " more"));
    }
    assert(out.deep_view() =~= files_text(files.deep_view(), root@));
    Ok(out)
}

/// The lines of some errors.
pub open spec fn error_lines(errors: Seq<Seq<char>>) -> Seq<(Stream, Seq<char>)> {
    errors.map_values(|message: Seq<char>| (Stream::Stderr, "  error: "@ + message))
}

/// What is said of compilation errors: how many there are, the first twenty,
/// and how many more.
pub open spec fn errors_text(errors: Seq<Seq<char>>) -> Seq<(Stream, Seq<char>)> {
    seq![(Stream::Stderr, "Compilation errors found ("@ + decimal(errors.len()) + "):"@)]
        + error_lines(first_of(errors, 20)) + if errors.len() > 20 {
        seq![(Stream::Stderr, "  ... and "@ + decimal((errors.len() - 20) as nat) + " more errors"@)]
    } else {
        Seq::empty()
    }
}

/// What is said of compilation errors; with any, the command ends.
pub fn report_errors(errors: &Vec<String>) -> (r: Option<Vec<OutputLine>>)
    ensures
        match r {
            Some(lines) => errors@.len() > 0 && lines.deep_view() == errors_text(
                errors.deep_view(),
            ),
            None => errors@.len() == 0,
        },
{
    if errors.len() == 0 {
        return None;
    }
    let ghost shown = first_of(errors.deep_view(), 20);
    let mut out: Vec<OutputLine> = Vec::new();
    let n = count(errors.len());
    say(&mut out, Stream::Stderr, cat3("Compilation errors found (", n.as_str(), "):"));
    let ghost first = out.deep_view();
    let mut k: usize = 0;
    proof {
        assert(first =~= seq![
            (Stream::Stderr, "Compilation errors found ("@ + decimal(errors@.len()) + "):"@),
        ]);
        assert(first + error_lines(shown).take(0) =~= first);
    }
    while k < errors.len() && k < 20
        invariant
            k <= errors.len(),
            k <= 20,
            shown == first_of(errors.deep_view(), 20),
            out.deep_view() == first + error_lines(shown).take(k as int),
        decreases errors.len() - k,
    {
        proof {
            assert(shown[k as int] == errors@[k as int]@);
        }
        say(&mut out, Stream::Stderr, cat2("  error: ", errors[k].as_str()));
        assert(out.deep_view() =~= first + error_lines(shown).take(k + 1));
        k = k + 1;
    }
    assert(error_lines(shown).take(shown.len() as int) =~= error_lines(shown));
    if errors.len() > 20 {
        let more = count(errors.len() - 20);
        say(&mut out, Stream::Stderr, cat3("  ... and ", more.as_str(), " more errors"));
    }
    assert(out.deep_view() =~= errors_text(errors.deep_view()));
    Some(out)
}

// ---------------------------------------------------------------------------
// Tests
// ---------------------------------------------------------------------------

/// The tests that list their functions, then the testset tests as tests of the
/// function that is optimised.
pub open spec fn combined(
    tests: Seq<TestModel>,
    testset_tests: Seq<TestModel>,
    function: Seq<char>,
) -> Seq<TestModel> {
    tests + testset_tests.map_values(
        |t: TestModel| TestModel { function_name: function, ..t },
    )
}

/// Joins both kinds of tests. Testset tests don't carry a target function in
/// their path, so the function that is optimised is stamped onto them.
pub fn combine_tests(
    tests: Vec<DiscoveredTest>,
    testset_tests: &Vec<DiscoveredTest>,
    function: &str,
) -> (r: Vec<DiscoveredTest>)
    ensures
        r.deep_view() == combined(tests.deep_view(), testset_tests.deep_view(), function@),
{
    let ghost start = tests.deep_view();
    let ghost want = combined(start, testset_tests.deep_view(), function@);
    let mut out = tests;
    let mut k: usize = 0;
    proof {
        assert(want.take(start.len() as int) =~= start);
    }
    while k < testset_tests.len()
        invariant
            k <= testset_tests.len(),
            want == combined(start, testset_tests.deep_view(), function@),
            out.deep_view() == want.take(start.len() + k),
        decreases testset_tests.len() - k,
    {
        let ghost before = out.deep_view();
        let mut test = testset_tests[k].clone();
        test.function_name = String::from_str(function);
        out.push(test);
        proof {
            assert(want[start.len() + k] == test.deep_view());
            assert(out.deep_view() =~= before.push(test.deep_view()));
            assert(out.deep_view() =~= want.take(start.len() + k + 1));
        }
        k = k + 1;
    }
    assert(want.take(want.len() as int) =~= want);
    out
}

/// What is said of dropped tests.
pub fn report_dropped(dropped: usize, function: &str, verbose: bool) -> (r: Option<OutputLine>)
    ensures
        r.deep_view() == if dropped > 0 && verbose {
            Some(
                (
                    Stream::Stdout,
                    "Dropped "@ + decimal(dropped as nat)
                        + " testset test(s) that don't reference "@ + function@,
                ),
            )
        } else {
            None
        },
{
    if dropped > 0 && verbose {
        let n = count(dropped);
        let mut text = cat3("Dropped ", n.as_str(), " testset test(s) that don't reference ");
        text.append(function);
        Some(OutputLine { stream: Stream::Stdout, text })
    } else {
        None
    }
}

/// What is said of the tests that were selected, out of those discovered.
/// Without a test the command ends.
pub fn report_selection(function: &str, discovered: usize, selected: usize) -> (r: Result<
    OutputLine,
    OutputLine,
>)
    ensures
        match r {
            Ok(line) => selected > 0 && line.deep_view() == (
                Stream::Stdout,
                if selected < discovered {
                    "Found "@ + decimal(discovered as nat) + " tests for function '"@ + function@
                        + "' ("@ + decimal(selected as nat) + " selected after filters)"@
                } else {
                    "Found "@ + decimal(selected as nat) + " tests for function '"@ + function@
                        + "'"@
                },
            ),
            Err(line) => selected == 0 && line.deep_view() == (
                Stream::Stderr,
                if discovered == 0 {
                    "No tests found for function: "@ + function@
                } else {
                    "No tests selected for function '"@ + function@ + "' — all "@ + decimal(
                        discovered as nat,
                    ) + " were filtered out."@
                },
            ),
        },
{
    let all = count(discovered);
    let some = count(selected);
    if selected == 0 {
        let text = if discovered == 0 {
            cat2("No tests found for function: ", function)
        } else {
            cat5(
                "No tests selected for function '",
                function,
                "' — all ",
                all.as_str(),
                " were filtered out.",
            )
        };
        return Err(OutputLine { stream: Stream::Stderr, text });
    }
    let text = if selected < discovered {
        let mut text = cat5(
            "Found ",
            all.as_str(),
            " tests for function '",
            function,
            "' (",
        );
        text.append(some.as_str());
        text.append(" selected after filters)");
        text
    } else {
        cat5("Found ", some.as_str(), " tests for function '", function, "'")
    };
    Ok(OutputLine { stream: Stream::Stdout, text })
}

// ---------------------------------------------------------------------------
// Objectives
// ---------------------------------------------------------------------------

/// The objectives that were parsed, or accuracy alone where there are none.
pub fn objectives_or_default(parsed: Vec<Objective>) -> (r: Vec<Objective>)
    ensures
        r.deep_view() == if parsed@.len() > 0 {
            parsed.deep_view()
        } else {
            seq![
                ObjectiveModel {
                    name: "accuracy"@,
                    direction: Direction::Maximize,
                    weight: Measure { bits: ONE },
                },
            ]
        },
{
    if parsed.len() > 0 {
        return parsed;
    }
    let mut out: Vec<Objective> = Vec::new();
    out.push(Objective::new("accuracy", Direction::Maximize, Measure::one()));
    assert(out.deep_view() =~= seq![
        ObjectiveModel {
            name: "accuracy"@,
            direction: Direction::Maximize,
            weight: Measure { bits: ONE },
        },
    ]);
    out
}

/// The line of an objective, with its direction and weight written out.
pub open spec fn objective_line(
    name: Seq<char>,
    direction: Seq<char>,
    weight: Seq<char>,
) -> Seq<char> {
    "  - "@ + name + " ("@ + direction + ", weight="@ + weight + ")"@
}

/// The line of an objective.
fn write_objective(name: &str, direction: &str, weight: &str) -> (r: String)
    ensures
        r@ == objective_line(name@, direction@, weight@),
{
    let mut out = cat5("  - ", name, " (", direction, ", weight=");
    out.append(weight);
    out.append(")");
    out
}

/// What is said of the objectives; `weights` holds their weights, written out.
pub fn report_objectives(objectives: &Vec<Objective>, weights: &Vec<String>) -> (r: Vec<OutputLine>)
    requires
        weights@.len() == objectives@.len(),
    ensures
        r.deep_view() == seq![(Stream::Stdout, "Objectives:"@)] + Seq::new(
            objectives@.len(),
            |i: int|
                (
                    Stream::Stdout,
                    objective_line(
                        objectives@[i].name@,
                        direction_name(objectives@[i].direction),
                        weights@[i]@,
                    ),
                ),
        ),
{
    let ghost lines = Seq::new(
        objectives@.len(),
        |i: int|
            (
                Stream::Stdout,
                objective_line(
                    objectives@[i].name@,
                    direction_name(objectives@[i].direction),
                    weights@[i]@,
                ),
            ),
    );
    let mut out: Vec<OutputLine> = Vec::new();
    say(&mut out, Stream::Stdout, String::from_str("Objectives:"));
    let ghost first = out.deep_view();
    let mut k: usize = 0;
    proof {
        assert(first =~= seq![(Stream::Stdout, "Objectives:"@)]);
        assert(first + lines.take(0) =~= first);
    }
    while k < objectives.len()
        invariant
            k <= objectives.len(),
            weights@.len() == objectives@.len(),
            lines.len() == objectives@.len(),
            forall|i: int|
                0 <= i < lines.len() ==> #[trigger] lines[i] == (
                    Stream::Stdout,
                    objective_line(
                        objectives@[i].name@,
                        direction_name(objectives@[i].direction),
                        weights@[i]@,
                    ),
                ),
            out.deep_view() == first + lines.take(k as int),
        decreases objectives.len() - k,
    {
        let o = &objectives[k];
        let direction = match o.direction {
            Direction::Maximize => "Maximize",
            Direction::Minimize => "Minimize",
        };
        let line = write_objective(o.name.as_str(), direction, weights[k].as_str());
        assert(lines[k as int] == (Stream::Stdout, line@));
        say(&mut out, Stream::Stdout, line);
        assert(out.deep_view() =~= first + lines.take(k + 1));
        k = k + 1;
    }
    assert(lines.take(lines.len() as int) =~= lines);
    out
}

// ---------------------------------------------------------------------------
// Results
// ---------------------------------------------------------------------------

/// What is said of a finished run. `pass_rate` is the best pass rate in percent
/// with one decimal and `latency` the best average latency without decimals.
pub open spec fn result_text(
    result: OptimizationResult,
    stopped_early: bool,
    pass_rate: Seq<char>,
    latency: Seq<char>,
    run_dir: Seq<char>,
) -> Seq<Seq<char>> {
    seq!["\n=== Optimization Complete ==="@] + if stopped_early {
        seq!["(stopped early via TUI signal)"@]
    } else {
        Seq::empty()
    } + seq![
        "Function: "@ + result.function_name@,
        "Best candidate: #"@ + decimal(result.best_candidate_id as nat),
        "Pass rate: "@ + pass_rate + "% ("@ + decimal(result.best_scores.tests_passed as nat) + "/"@
            + decimal(result.best_scores.tests_total as nat) + ")"@,
        "Avg latency: "@ + latency + "ms"@,
        "Total iterations: "@ + decimal(result.total_iterations as nat),
        "Total evaluations: "@ + decimal(result.total_evaluations as nat),
        "Pareto frontier size: "@ + decimal(result.pareto_frontier_size as nat),
        "Run dir: "@ + run_dir,
    ]
}

/// What is said of a finished run.
pub fn report_result(
    result: &OptimizationResult,
    stopped_early: bool,
    pass_rate: &str,
    latency: &str,
    run_dir: &str,
) -> (r: Vec<String>)
    ensures
        r.deep_view() == result_text(*result, stopped_early, pass_rate@, latency@, run_dir@),
{
    let mut out: Vec<String> = Vec::new();
    out.push(String::from_str("\n=== Optimization Complete ==="));
    if stopped_early {
        out.push(String::from_str("(stopped early via TUI signal)"));
    }
    out.push(cat2("Function: ", result.function_name.as_str()));
    out.push(cat2("Best candidate: #", count(result.best_candidate_id).as_str()));
    let passed = count(result.best_scores.tests_passed);
    let total = count(result.best_scores.tests_total);
    let mut rate = cat5("Pass rate: ", pass_rate, "% (", passed.as_str(), "/");
    rate.append(total.as_str());
    rate.append(")");
    out.push(rate);
    out.push(cat3("Avg latency: ", latency, "ms"));
    out.push(cat2("Total iterations: ", count(result.total_iterations).as_str()));
    out.push(cat2("Total evaluations: ", count(result.total_evaluations).as_str()));
    out.push(cat2("Pareto frontier size: ", count(result.pareto_frontier_size).as_str()));
    out.push(cat2("Run dir: ", run_dir));
    assert(out.deep_view() =~= result_text(
        *result,
        stopped_early,
        pass_rate@,
        latency@,
        run_dir@,
    ));
    out
}

/// Which candidate is written back into the sources.
#[derive(Clone, Copy, Debug, PartialEq, Eq, Structural)]
pub enum ApplyChoice {
    Apply(usize),
    Nothing,
    Ask,
}

/// Decides which candidate to apply: the one that was asked for, if any; none
/// with an empty frontier; the best without prompting, which `yes` asks for and
/// a context that is not interactive implies; else the user chooses.
pub fn choose_candidate(
    request: Option<usize>,
    frontier_is_empty: bool,
    yes: bool,
    interactive: bool,
    best_candidate_id: usize,
) -> (r: ApplyChoice)
    ensures
        r == match request {
            Some(id) => ApplyChoice::Apply(id),
            None => if frontier_is_empty {
                ApplyChoice::Nothing
            } else if yes || !interactive {
                ApplyChoice::Apply(best_candidate_id)
            } else {
                ApplyChoice::Ask
            },
        },
{
    match request {
        Some(id) => ApplyChoice::Apply(id),
        None => if frontier_is_empty {
            ApplyChoice::Nothing
        } else if yes || !interactive {
            ApplyChoice::Apply(best_candidate_id)
        } else {
            ApplyChoice::Ask
        },
    }
}

/// Holds at the candidates with the given id.
pub open spec fn candidate_with(candidates: Seq<Candidate>, id: usize) -> spec_fn(int) -> bool {
    |i: int| candidates[i].id == id
}

/// Finds the candidate with the given id, or says that there is none.
pub fn find_candidate(candidates: &Vec<Candidate>, id: usize) -> (r: Result<usize, String>)
    ensures
        match r {
            Ok(i) => first_in(candidate_with(candidates@, id), 0, candidates@.len() as int) == Some(
                i as int,
            ) && i < candidates@.len(),
            Err(message) => first_in(
                candidate_with(candidates@, id),
                0,
                candidates@.len() as int,
            ) is None && message@ == "candidate #"@ + decimal(id as nat) + " not found"@,
        },
        r is Err <==> forall|j: int|
            0 <= j < candidates@.len() ==> (#[trigger] candidates@[j]).id != id,
        r matches Ok(i) ==> candidates@[i as int].id == id && forall|j: int|
            0 <= j < i ==> (#[trigger] candidates@[j]).id != id,
{
    let ghost p = candidate_with(candidates@, id);
    let mut i: usize = 0;
    while i < candidates.len()
        invariant
            i <= candidates.len(),
            p == candidate_with(candidates@, id),
            forall|j: int| 0 <= j < i ==> !#[trigger] p(j),
            forall|j: int| 0 <= j < i ==> (#[trigger] candidates@[j]).id != id,
        decreases candidates.len() - i,
    {
        if candidates[i].id == id {
            proof {
                assert(p(i as int));
                lemma_seek_is(p, 0, candidates@.len() as int, i as int);
            }
            return Ok(i);
        }
        assert(!p(i as int));
        i = i + 1;
    }
    proof {
        lemma_seek_is(p, 0, candidates@.len() as int, i as int);
    }
    Err(cat3("candidate #", count(id).as_str(), " not found"))
}

/// A file is as it was.
pub open spec fn unchanged(sources: Seq<FileModel>, file: FileModel) -> bool {
    match first_in(file_at(sources, file.path), 0, sources.len() as int) {
        Some(i) => sources[i].content == file.content,
        None => false,
    }
}

/// The files that changed, with their paths below `root`.
pub open spec fn to_write(
    root: Seq<char>,
    sources: Seq<FileModel>,
    modified: Seq<FileModel>,
) -> Seq<FileModel>
    decreases modified.len(),
{
    if modified.len() == 0 {
        Seq::empty()
    } else {
        let front = to_write(root, sources, modified.drop_last());
        let file = modified.last();
        if unchanged(sources, file) {
            front
        } else {
            front.push(FileModel { path: joined(root, file.path), content: file.content })
        }
    }
}

/// Picks the files that a candidate changed, with the paths to write them to.
pub fn files_to_write(
    root: &str,
    sources: &Vec<SourceFile>,
    modified: &Vec<SourceFile>,
) -> (r: Vec<SourceFile>)
    ensures
        r.deep_view() == to_write(root@, sources.deep_view(), modified.deep_view()),
{
    let ghost old_files = sources.deep_view();
    let ghost all = modified.deep_view();
    let mut out: Vec<SourceFile> = Vec::new();
    let mut k: usize = 0;
    proof {
        assert(all.take(0) =~= Seq::<FileModel>::empty());
        assert(out.deep_view() =~= Seq::<FileModel>::empty());
    }
    while k < modified.len()
        invariant
            k <= modified.len(),
            old_files == sources.deep_view(),
            all == modified.deep_view(),
            out.deep_view() == to_write(root@, old_files, all.take(k as int)),
        decreases modified.len() - k,
    {
        let file = &modified[k];
        let ghost before = out.deep_view();
        proof {
            assert(all.take(k + 1).drop_last() =~= all.take(k as int));
            assert(all.take(k + 1).last() == file.deep_view());
        }
        let same = match crate::storage::find_file(sources, file.path.as_str()) {
            Some(i) => {
                assert(old_files[i as int] == sources@[i as int].deep_view());
                same_text(sources[i].content.as_str(), file.content.as_str())
            },
            None => false,
        };
        if !same {
            let path = join_path(root, file.path.as_str());
            let written = SourceFile { path, content: file.content.clone() };
            out.push(written);
            assert(out.deep_view() =~= before.push(written.deep_view()));
        }
        k = k + 1;
    }
    assert(all.take(all.len() as int) =~= all);
    out
}

/// What is said once it is clear what became of the candidate.
pub fn report_applied(applied: Option<usize>, root: &str, run_dir: &str) -> (r: Vec<String>)
    ensures
        r.deep_view() == match applied {
            Some(id) => seq!["Applied candidate #"@ + decimal(id as nat) + " to "@ + root@],
            None => seq![
                "No candidate applied. Inspect the run with:"@,
                "  baml-cli optimize --view "@ + run_dir@,
            ],
        },
{
    let mut out: Vec<String> = Vec::new();
    match applied {
        Some(id) => {
            let n = count(id);
            let mut line = cat3("Applied candidate #", n.as_str(), " to ");
            line.append(root);
            out.push(line);
            assert(out.deep_view() =~= seq![
                "Applied candidate #"@ + decimal(id as nat) + " to "@ + root@,
            ]);
        },
        None => {
            out.push(String::from_str("No candidate applied. Inspect the run with:"));
            out.push(cat2("  baml-cli optimize --view ", run_dir));
            assert(out.deep_view() =~= seq![
                "No candidate applied. Inspect the run with:"@,
                "  baml-cli optimize --view "@ + run_dir@,
            ]);
        },
    }
    out
}

// ---------------------------------------------------------------------------
// Prior runs
// ---------------------------------------------------------------------------

/// What became of reading a run's configuration. `weights` holds the weights
/// of its objectives, written out.
#[derive(Debug)]
pub enum ConfigFile {
    Parsed { config: RunConfig, weights: Vec<String> },
    Unparsable { reason: String },
    Missing,
}

/// What became of reading a run's last checkpoint.
#[derive(Debug)]
pub enum StateFile {
    Parsed { state: RunState },
    Unreadable,
    Missing,
}

/// What became of reading a run's final results; `text` is their JSON, pretty
/// printed.
#[derive(Debug)]
pub enum FinalFile {
    Parsed { text: String },
    Unparsable,
    Missing,
}

/// The JSON value that `text` holds, pretty printed; none where the text is not
/// JSON.
pub uninterp spec fn pretty_json(text: Seq<char>) -> Option<Seq<char>>;

/// Outside functions: `serde_json::from_str`, which reads a JSON value, and
/// `serde_json::to_string_pretty`, which writes it on indented lines. The
/// contract claims that whether the text can be read, and what is then written,
/// is a function of the text. What it looks like is left unsaid.
#[verifier::external_body]
fn reprint_json(text: &str) -> (r: Option<String>)
    ensures
        r.deep_view() == pretty_json(text@),
{
    let value = serde_json::from_str::<serde_json::Value>(text).ok()?;
    Some(serde_json::to_string_pretty(&value).unwrap_or_default())
}

/// Reads the text of a run's final results.
pub fn read_results(text: &str) -> (r: FinalFile)
    ensures
        match pretty_json(text@) {
            Some(pretty) => r matches FinalFile::Parsed { text: shown } && shown@ == pretty,
            None => r is Unparsable,
        },
{
    match reprint_json(text) {
        Some(text) => FinalFile::Parsed { text },
        None => FinalFile::Unparsable,
    }
}

/// The lines of the objectives of a configuration.
pub open spec fn configured_lines(config: RunConfig, weights: Seq<String>) -> Seq<
    (Stream, Seq<char>),
> {
    Seq::new(
        config.objectives@.len(),
        |i: int|
            (
                Stream::Stdout,
                objective_line(
                    config.objectives@[i].name@,
                    config.objectives@[i].direction@,
                    weights[i]@,
                ),
            ),
    )
}

/// What is said of a run's configuration.
pub open spec fn config_text(file: ConfigFile, run_dir: Seq<char>) -> Seq<(Stream, Seq<char>)> {
    match file {
        ConfigFile::Parsed { config, weights } => seq![
            (Stream::Stdout, "Function: "@ + config.function_name@),
            (Stream::Stdout, "Max iterations: "@ + decimal(config.max_iterations as nat)),
            (Stream::Stdout, "Parallel: "@ + decimal(config.parallel as nat)),
        ] + if config.objectives@.len() > 0 {
            seq![(Stream::Stdout, "Objectives:"@)] + configured_lines(config, weights@)
        } else {
            Seq::empty()
        },
        ConfigFile::Unparsable { reason } => seq![
            (Stream::Stderr, "warning: could not parse config.json: "@ + reason@),
        ],
        ConfigFile::Missing => seq![
            (Stream::Stderr, "warning: config.json not found in "@ + run_dir),
        ],
    }
}

/// What is said of a run's last checkpoint.
pub open spec fn state_text(file: StateFile) -> Seq<(Stream, Seq<char>)> {
    match file {
        StateFile::Parsed { state } => seq![
            (
                Stream::Stdout,
                "\nLast checkpoint: iteration "@ + decimal(state.current_iteration as nat) + ", "@
                    + decimal(state.candidate_ids@.len()) + " candidate(s), "@ + decimal(
                    state.total_evals as nat,
                ) + " evaluation(s)"@,
            ),
            (Stream::Stdout, "Pareto frontier: "@ + id_list(state.pareto_frontier@)),
        ],
        StateFile::Unreadable => Seq::empty(),
        StateFile::Missing => seq![
            (
                Stream::Stderr,
                "warning: no state.json in run directory — run did not checkpoint"@,
            ),
        ],
    }
}

/// What is said of a run's final results.
pub open spec fn final_text(file: FinalFile) -> Seq<(Stream, Seq<char>)> {
    match file {
        FinalFile::Parsed { text } => seq![
            (Stream::Stdout, "\nFinal results:"@),
            (Stream::Stdout, text@),
        ],
        FinalFile::Unparsable => seq![
            (Stream::Stderr, "warning: could not parse final_results.json"@),
        ],
        FinalFile::Missing => seq![
            (Stream::Stdout, "\n(No final_results.json — run may not have finished.)"@),
        ],
    }
}

/// The closing remark on a prior run.
pub open spec fn resume_remark() -> Seq<char> {
    "\nResume is read-only in this phase. The reflection loop will pick up from this checkpoint once Phase 10 lands."@
}

/// What is said of a prior run. A checkpoint that cannot be read ends it.
pub open spec fn resume_text(
    run_dir: Seq<char>,
    config: ConfigFile,
    state: StateFile,
    results: FinalFile,
) -> Seq<(Stream, Seq<char>)> {
    let opening = seq![(Stream::Stdout, "=== Resuming from "@ + run_dir + " ==="@)] + config_text(
        config,
        run_dir,
    );
    if state is Unreadable {
        opening
    } else {
        opening + state_text(state) + final_text(results) + seq![(Stream::Stdout, resume_remark())]
    }
}

/// Says what there is to say of a run's configuration.
fn say_config(out: &mut Vec<OutputLine>, file: &ConfigFile, run_dir: &str)
    requires
        file matches ConfigFile::Parsed { config, weights } ==> weights@.len()
            == config.objectives@.len(),
    ensures
        final(out).deep_view() == old(out).deep_view() + config_text(*file, run_dir@),
{
    let ghost start = out.deep_view();
    match file {
        ConfigFile::Parsed { config, weights } => {
            say(out, Stream::Stdout, cat2("Function: ", config.function_name.as_str()));
            let iterations = to_decimal(config.max_iterations as u64);
            say(out, Stream::Stdout, cat2("Max iterations: ", iterations.as_str()));
            say(out, Stream::Stdout, cat2("Parallel: ", count(config.parallel).as_str()));
            let ghost head = out.deep_view();
            if config.objectives.len() > 0 {
                say(out, Stream::Stdout, String::from_str("Objectives:"));
                let ghost first = out.deep_view();
                let ghost lines = configured_lines(*config, weights@);
                let mut k: usize = 0;
                assert(first + lines.take(0) =~= first);
                while k < config.objectives.len()
                    invariant
                        k <= config.objectives.len(),
                        weights@.len() == config.objectives@.len(),
                        lines == configured_lines(*config, weights@),
                        out.deep_view() == first + lines.take(k as int),
                    decreases config.objectives.len() - k,
                {
                    let o = &config.objectives[k];
                    let line = write_objective(
                        o.name.as_str(),
                        o.direction.as_str(),
                        weights[k].as_str(),
                    );
                    say(out, Stream::Stdout, line);
                    assert(out.deep_view() =~= first + lines.take(k + 1));
                    k = k + 1;
                }
                assert(lines.take(lines.len() as int) =~= lines);
            }
        },
        ConfigFile::Unparsable { reason } => {
            say(
                out,
                Stream::Stderr,
                cat2("warning: could not parse config.json: ", reason.as_str()),
            );
        },
        ConfigFile::Missing => {
            say(out, Stream::Stderr, cat2("warning: config.json not found in ", run_dir));
        },
    }
    assert(out.deep_view() =~= start + config_text(*file, run_dir@));
}

/// Says what there is to say of a run's last checkpoint.
fn say_state(out: &mut Vec<OutputLine>, file: &StateFile)
    ensures
        final(out).deep_view() == old(out).deep_view() + state_text(*file),
{
    let ghost start = out.deep_view();
    match file {
        StateFile::Parsed { state } => {
            let iteration = count(state.current_iteration);
            let ids = count(state.candidate_ids.len());
            let evals = count(state.total_evals);
            let mut line = cat5(
                "\nLast checkpoint: iteration ",
                iteration.as_str(),
                ", ",
                ids.as_str(),
                " candidate(s), ",
            );
            line.append(evals.as_str());
            line.append(" evaluation(s)");
            say(out, Stream::Stdout, line);
            let frontier = write_ids(&state.pareto_frontier);
            say(out, Stream::Stdout, cat2("Pareto frontier: ", frontier.as_str()));
        },
        StateFile::Unreadable => {},
        StateFile::Missing => {
            say(
                out,
                Stream::Stderr,
                String::from_str(
                    "warning: no state.json in run directory — run did not checkpoint",
                ),
            );
        },
    }
    assert(out.deep_view() =~= start + state_text(*file));
}

/// Says what there is to say of a run's final results.
fn say_results(out: &mut Vec<OutputLine>, file: &FinalFile)
    ensures
        final(out).deep_view() == old(out).deep_view() + final_text(*file),
{
    let ghost start = out.deep_view();
    match file {
        FinalFile::Parsed { text } => {
            say(out, Stream::Stdout, String::from_str("\nFinal results:"));
            say(out, Stream::Stdout, text.clone());
        },
        FinalFile::Unparsable => {
            say(
                out,
                Stream::Stderr,
                String::from_str("warning: could not parse final_results.json"),
            );
        },
        FinalFile::Missing => {
            say(
                out,
                Stream::Stdout,
                String::from_str("\n(No final_results.json — run may not have finished.)"),
            );
        },
    }
    assert(out.deep_view() =~= start + final_text(*file));
}

/// A summary of where a prior run ended up. It ends with the configuration
/// where the checkpoint cannot be read, which the caller then reports.
pub fn resume_from_run_dir(
    run_dir: &str,
    config: &ConfigFile,
    state: &StateFile,
    results: &FinalFile,
) -> (r: Vec<OutputLine>)
    requires
        config matches ConfigFile::Parsed { config, weights } ==> weights@.len()
            == config.objectives@.len(),
    ensures
        r.deep_view() == resume_text(run_dir@, *config, *state, *results),
{
    let mut out: Vec<OutputLine> = Vec::new();
    proof {
        assert(out.deep_view() =~= Seq::<(Stream, Seq<char>)>::empty());
    }
    say(&mut out, Stream::Stdout, cat3("=== Resuming from ", run_dir, " ==="));
    assert(out.deep_view() =~= seq![
        (Stream::Stdout, "=== Resuming from "@ + run_dir@ + " ==="@),
    ]);
    say_config(&mut out, config, run_dir);
    match state {
        StateFile::Unreadable => {
            return out;
        },
        _ => {},
    }
    say_state(&mut out, state);
    say_results(&mut out, results);
    say(
        &mut out,
        Stream::Stdout,
        String::from_str(
            "\nResume is read-only in this phase. The reflection loop will pick up from this checkpoint once Phase 10 lands.",
        ),
    );
    assert(out.deep_view() =~= resume_text(run_dir@, *config, *state, *results));
    out
}

/// The first ten files are listed, each on a line of its own behind the line
/// that tells how many there are, and a last line tells how many are left out.
pub proof fn law_the_first_files_are_listed(files: Seq<Seq<char>>, root: Seq<char>, i: int)
    ensures
        files.len() <= 10 ==> files_text(files, root).len() == files.len() + 1,
        files.len() > 10 ==> files_text(files, root).len() == 12 && files_text(files, root)[11].1
            == "  ... and "@ + decimal((files.len() - 10) as nat) + " more"@,
        0 <= i < files.len() && i < 10 ==> files_text(files, root)[i + 1].1 == "  ["@ + decimal(
            i as nat,
        ) + "] "@ + files[i],
{
}

/// The first twenty errors are told, each on a line of its own behind the line
/// that tells how many there are, and a last line tells how many are left out.
pub proof fn law_the_first_errors_are_listed(errors: Seq<Seq<char>>, i: int)
    ensures
        errors.len() <= 20 ==> errors_text(errors).len() == errors.len() + 1,
        errors.len() > 20 ==> errors_text(errors).len() == 22 && errors_text(errors)[21].1
            == "  ... and "@ + decimal((errors.len() - 20) as nat) + " more errors"@,
        0 <= i < errors.len() && i < 20 ==> errors_text(errors)[i + 1].1 == "  error: "@
            + errors[i],
{
}

/// Every objective of a configuration is told, with its direction and weight,
/// in order, behind the three lines on the run and a heading.
pub proof fn law_every_configured_objective_is_told(
    config: RunConfig,
    weights: Vec<String>,
    run_dir: Seq<char>,
    i: int,
)
    requires
        0 <= i < config.objectives@.len(),
    ensures
        config_text(ConfigFile::Parsed { config, weights }, run_dir).len() == 4
            + config.objectives@.len(),
        config_text(ConfigFile::Parsed { config, weights }, run_dir)[4 + i].1 == "  - "@
            + config.objectives@[i].name@ + " ("@ + config.objectives@[i].direction@ + ", weight="@
            + weights@[i]@ + ")"@,
{
}

/// The summary of a run tells every figure of its result.
pub proof fn law_every_figure_is_told(
    result: OptimizationResult,
    stopped_early: bool,
    pass_rate: Seq<char>,
    latency: Seq<char>,
    run_dir: Seq<char>,
)
    ensures
        ({
            let lines = result_text(result, stopped_early, pass_rate, latency, run_dir);
            &&& lines.len() == if stopped_early {
                10
            } else {
                9nat
            }
            &&& lines.contains("Function: "@ + result.function_name@)
            &&& lines.contains("Best candidate: #"@ + decimal(result.best_candidate_id as nat))
            &&& lines.contains(
                "Pass rate: "@ + pass_rate + "% ("@ + decimal(
                    result.best_scores.tests_passed as nat,
                ) + "/"@ + decimal(result.best_scores.tests_total as nat) + ")"@,
            )
            &&& lines.contains("Avg latency: "@ + latency + "ms"@)
            &&& lines.contains("Total iterations: "@ + decimal(result.total_iterations as nat))
            &&& lines.contains("Total evaluations: "@ + decimal(result.total_evaluations as nat))
            &&& lines.contains(
                "Pareto frontier size: "@ + decimal(result.pareto_frontier_size as nat),
            )
            &&& lines.last() == "Run dir: "@ + run_dir
        }),
{
    let lines = result_text(result, stopped_early, pass_rate, latency, run_dir);
    let n = lines.len() as int;
    assert(lines[n - 8] == "Function: "@ + result.function_name@);
    assert(lines[n - 7] == "Best candidate: #"@ + decimal(result.best_candidate_id as nat));
    assert(lines[n - 6] == "Pass rate: "@ + pass_rate + "% ("@ + decimal(
        result.best_scores.tests_passed as nat,
    ) + "/"@ + decimal(result.best_scores.tests_total as nat) + ")"@);
    assert(lines[n - 5] == "Avg latency: "@ + latency + "ms"@);
    assert(lines[n - 4] == "Total iterations: "@ + decimal(result.total_iterations as nat));
    assert(lines[n - 3] == "Total evaluations: "@ + decimal(result.total_evaluations as nat));
    assert(lines[n - 2] == "Pareto frontier size: "@ + decimal(
        result.pareto_frontier_size as nat,
    ));
}

/// Resuming tells the configuration, then the checkpoint and the results, and
/// stops behind the configuration where the checkpoint cannot be read.
pub proof fn law_resuming_tells_what_was_found(
    run_dir: Seq<char>,
    config: ConfigFile,
    state: StateFile,
    results: FinalFile,
)
    ensures
        ({
            let lines = resume_text(run_dir, config, state, results);
            let opening = config_text(config, run_dir);
            &&& lines.len() > opening.len()
            &&& lines.subrange(1, (1 + opening.len()) as int) == opening
            &&& state is Unreadable ==> lines.len() == 1 + opening.len()
            &&& !(state is Unreadable) ==> {
                &&& lines.len() == 2 + opening.len() + state_text(state).len() + final_text(
                    results,
                ).len()
                &&& lines.skip((1 + opening.len()) as int) == state_text(state) + final_text(
                    results,
                ) + seq![lines.last()]
            }
        }),
{
    let lines = resume_text(run_dir, config, state, results);
    let opening = config_text(config, run_dir);
    assert(lines.subrange(1, (1 + opening.len()) as int) =~= opening);
    if !(state is Unreadable) {
        assert(lines.skip((1 + opening.len()) as int) =~= state_text(state) + final_text(results)
            + seq![lines.last()]);
    }
}

} // verus!
