//! The optimisation loop as a machine of steps.
//!
//! 1. Evaluate the baseline candidate.
//! 2. Until `max_iterations`:
//!    - Select a parent from the Pareto frontier (or two, for a merge).
//!    - Build examples from the parent's recent test results.
//!    - Ask the reflection for an improved function.
//!    - Apply the improvement to the project sources.
//!    - Rebuild the engine and re-run the tests; score the new candidate.
//!    - Offer the new candidate to the Pareto frontier.
//!    - Save a checkpoint.
//! 3. Pick the best frontier member.
//!
//! The caller calls the reflection, builds engines, runs tests, does the
//! floating-point arithmetic and writes files; every decision between these is
//! made here.

use vstd::prelude::*;
use vstd::string::*;

use crate::applier::{modified_file, Applier};
use crate::candidate::{
    zero_scores, Candidate, CandidateMethod, CandidateModel, CandidateScores, CurrentMetrics,
    FunctionModel, ImprovedFunction, OptimizableFunction, OptimizationObjectives, ReflectiveExample,
    ScoresModel,
};
use crate::discovery::DiscoveredTest;
use crate::evaluator::{Evaluator, TestResult};
use crate::measure::Measure;
use crate::pareto::{
    last_best, most_diverse, offered, scores_of, table, Direction, Objective, ObjectiveModel,
    ParetoFrontier,
};
use crate::pareto_laws::{all_measured, frontier_of, law_offering_keeps_frontier};
use crate::paths::joined;
use crate::reflection::{build_examples, build_metrics, build_objectives, examples_of, status_of};
use crate::schema_extractor::{
    extract_optimizable_function, extracted_function, function_named, ExtractError, ItemTree,
};
use crate::sources::{FileModel, SourceFile};
use crate::storage::{ObjectiveConfig, ObjectiveConfigModel, RunConfig, RunState, Storage};
use crate::text::{decimal, same_text};

verus! {

// ---------------------------------------------------------------------------
// Configuration
// ---------------------------------------------------------------------------

/// Caller-supplied configuration for an optimisation run.
///
/// A merge is attempted every `merge_every` iterations when the Pareto
/// frontier has at least two members; `0` disables merging entirely.
#[derive(Debug)]
pub struct OrchestratorConfig {
    pub function_name: String,
    pub max_iterations: u32,
    pub parallel: usize,
    pub objectives: Vec<Objective>,
    pub merge_every: u32,
    pub verbose: bool,
}

impl Default for OrchestratorConfig {
    fn default() -> (r: Self)
        ensures
            r.function_name@ == ""@,
            r.max_iterations == 50,
            r.parallel == 8,
            r.objectives@.len() == 0,
            r.merge_every == 3,
            !r.verbose,
    {
        OrchestratorConfig {
            function_name: String::from_str(""),
            max_iterations: 50,
            parallel: 8,
            objectives: Vec::new(),
            merge_every: 3,
            verbose: false,
        }
    }
}

/// A direction as it is written down.
pub open spec fn direction_name(direction: Direction) -> Seq<char> {
    match direction {
        Direction::Maximize => "Maximize"@,
        Direction::Minimize => "Minimize"@,
    }
}

/// The configuration as it is written down.
pub fn run_config(config: &OrchestratorConfig) -> (r: RunConfig)
    ensures
        r.function_name@ == config.function_name@,
        r.max_iterations == config.max_iterations,
        r.parallel == config.parallel,
        r.objectives.deep_view() == config.objectives.deep_view().map_values(
            |o: ObjectiveModel|
                ObjectiveConfigModel {
                    name: o.name,
                    direction: direction_name(o.direction),
                    weight: o.weight,
                },
        ),
{
    let mut objectives: Vec<ObjectiveConfig> = Vec::new();
    let mut k: usize = 0;
    while k < config.objectives.len()
        invariant
            k <= config.objectives.len(),
            objectives@.len() == k,
            forall|j: int|
                0 <= j < k ==> (#[trigger] objectives@[j]).deep_view() == (ObjectiveConfigModel {
                    name: config.objectives@[j].name@,
                    direction: direction_name(config.objectives@[j].direction),
                    weight: config.objectives@[j].weight,
                }),
        decreases config.objectives.len() - k,
    {
        let o = &config.objectives[k];
        let direction = match o.direction {
            Direction::Maximize => String::from_str("Maximize"),
            Direction::Minimize => String::from_str("Minimize"),
        };
        objectives.push(ObjectiveConfig { name: o.name.clone(), direction, weight: o.weight });
        k = k + 1;
    }
    assert(objectives.deep_view() =~= config.objectives.deep_view().map_values(
        |o: ObjectiveModel|
            ObjectiveConfigModel {
                name: o.name,
                direction: direction_name(o.direction),
                weight: o.weight,
            },
    ));
    RunConfig {
        function_name: config.function_name.clone(),
        max_iterations: config.max_iterations,
        parallel: config.parallel,
        objectives,
    }
}

/// A copy of some objectives.
fn copy_objectives(objectives: &Vec<Objective>) -> (r: Vec<Objective>)
    ensures
        r.deep_view() == objectives.deep_view(),
{
    let r = objectives.clone();
    assert(r.deep_view() =~= objectives.deep_view());
    r
}

// ---------------------------------------------------------------------------
// Steps
// ---------------------------------------------------------------------------

/// What an iteration is to attempt.
#[derive(Clone, Copy, Debug, PartialEq, Eq, Structural)]
pub enum Step {
    Reflect,
    Merge,
    Finish,
}

/// Why an iteration could not begin.
#[derive(Clone, Copy, Debug, PartialEq, Eq, Structural)]
pub enum IterationError {
    EmptyFrontier,
    NoResults,
    TooFewToMerge,
}

impl IterationError {
    /// What to tell the user.
    pub fn message(&self) -> (r: String)
        ensures
            r@ == match self {
                IterationError::EmptyFrontier => "pareto frontier is empty — nothing to reflect on"@,
                IterationError::NoResults => "no test results recorded for parent candidate"@,
                IterationError::TooFewToMerge => "cannot merge: fewer than two frontier members"@,
            },
    {
        match self {
            IterationError::EmptyFrontier => String::from_str(
                "pareto frontier is empty — nothing to reflect on",
            ),
            IterationError::NoResults => String::from_str(
                "no test results recorded for parent candidate",
            ),
            IterationError::TooFewToMerge => String::from_str(
                "cannot merge: fewer than two frontier members",
            ),
        }
    }
}

/// What a reflection is asked with.
#[derive(Debug)]
pub struct ReflectionPlan {
    pub parent_id: usize,
    pub failures: Vec<ReflectiveExample>,
    pub successes: Vec<ReflectiveExample>,
    pub objectives: OptimizationObjectives,
    pub metrics: Option<CurrentMetrics>,
}

/// Summary produced when a run finishes.
#[derive(Debug)]
pub struct OptimizationResult {
    pub function_name: String,
    pub best_candidate_id: usize,
    pub best_scores: CandidateScores,
    pub total_iterations: usize,
    pub total_evaluations: usize,
    pub pareto_frontier_size: usize,
}

/// Where a run stands.
///
/// `last_results` pairs a candidate's id with its test results, in the order
/// of evaluation.
#[derive(Debug)]
pub struct OptimizerState {
    pub config: OrchestratorConfig,
    pub root_path: String,
    pub base_sources: Vec<SourceFile>,
    pub evaluator: Evaluator,
    pub applier: Applier,
    pub pareto: ParetoFrontier,
    pub storage: Storage,
    pub candidates: Vec<Candidate>,
    pub last_results: Vec<(usize, Vec<TestResult>)>,
    pub tests: Vec<DiscoveredTest>,
    pub initial_function: OptimizableFunction,
    pub current_iteration: usize,
    pub total_evals: usize,
}

/// Main orchestrator. Its state can be read, and only its steps change it.
#[derive(Debug)]
pub struct GEPAOrchestrator {
    state: OptimizerState,
}

impl View for GEPAOrchestrator {
    type V = OptimizerState;

    closed spec fn view(&self) -> OptimizerState {
        self.state
    }
}

/// The candidates that have been evaluated, in order.
pub open spec fn evaluated(last_results: Seq<(usize, Vec<TestResult>)>) -> Seq<usize> {
    last_results.map_values(|pair: (usize, Vec<TestResult>)| pair.0)
}

/// The most recent results of a candidate, if there are any.
pub open spec fn results_of(last_results: Seq<(usize, Vec<TestResult>)>, id: usize) -> Option<
    Seq<TestResult>,
>
    decreases last_results.len(),
{
    if last_results.len() == 0 {
        None
    } else if last_results.last().0 == id {
        Some(last_results.last().1@)
    } else {
        results_of(last_results.drop_last(), id)
    }
}

/// The baseline candidate.
pub open spec fn baseline(function: FunctionModel) -> CandidateModel {
    CandidateModel {
        id: 0,
        iteration: 0,
        parent_ids: Seq::empty(),
        method: CandidateMethod::Initial,
        function,
        scores: None,
        rationale: Some("Baseline from source"@),
    }
}

/// A function with an improvement in place.
pub open spec fn improved_function(
    parent: FunctionModel,
    improved: ImprovedFunction,
) -> FunctionModel {
    FunctionModel {
        function_name: parent.function_name,
        prompt_text: improved.prompt_text@,
        classes: improved.classes.deep_view(),
        enums: improved.enums.deep_view(),
        function_source: parent.function_source,
    }
}

/// The candidate that an improvement makes.
pub open spec fn proposed(
    id: usize,
    iteration: usize,
    parent_ids: Seq<usize>,
    method: CandidateMethod,
    parent: FunctionModel,
    improved: ImprovedFunction,
) -> CandidateModel {
    CandidateModel {
        id,
        iteration,
        parent_ids,
        method,
        function: improved_function(parent, improved),
        scores: None,
        rationale: Some(improved.rationale@),
    }
}

impl OptimizerState {
    /// What every step keeps: a candidate's id is its place; exactly the
    /// evaluated candidates have scores, and none is evaluated twice; the
    /// frontier is made of evaluated candidates, and where all scores are
    /// numbers it is the frontier of those; no more iterations have begun than
    /// are allowed.
    pub open spec fn wf(&self) -> bool {
        let known = scores_of(self.candidates@);
        let ids = evaluated(self.last_results@);
        let objectives = self.pareto.objectives.deep_view();
        &&& objectives == self.config.objectives.deep_view()
        &&& forall|i: int|
            0 <= i < self.candidates@.len() ==> (#[trigger] self.candidates@[i]).id == i
        &&& ids.no_duplicates()
        &&& forall|i: int|
            #![trigger self.candidates@[i]]
            0 <= i < self.candidates@.len() ==> (self.candidates@[i].scores is Some
                <==> ids.contains(i as usize))
        &&& forall|i: int| 0 <= i < ids.len() ==> #[trigger] ids[i] < self.candidates@.len()
        &&& forall|i: int|
            0 <= i < self.pareto.members@.len() ==> ids.contains(#[trigger] self.pareto.members@[i])
        &&& all_measured(objectives, known, ids) ==> frontier_of(
            self.pareto.members@,
            objectives,
            known,
            ids,
        )
        &&& self.current_iteration <= self.config.max_iterations
    }

    /// What no step changes.
    pub open spec fn same_setup(&self, other: OptimizerState) -> bool {
        &&& self.config == other.config
        &&& self.root_path == other.root_path
        &&& self.base_sources == other.base_sources
        &&& self.evaluator == other.evaluator
        &&& self.applier == other.applier
        &&& self.storage == other.storage
        &&& self.tests == other.tests
        &&& self.initial_function == other.initial_function
    }

    /// Whether this iteration attempts a merge: `merge_every` is not zero, the
    /// iteration is a multiple of it, and the frontier has two members to
    /// merge.
    pub open spec fn merges(&self, iteration: int) -> bool {
        &&& self.config.merge_every > 0
        &&& iteration % (self.config.merge_every as int) == 0
        &&& self.pareto.members@.len() >= 2
    }

    /// An iteration merges exactly if it is a multiple of `merge_every` and there
    /// are two to merge.
    proof fn lemma_merges(&self, iteration: int)
        ensures
            self.config.merge_every == 0 || self.pareto.members@.len() < 2 ==> !self.merges(
                iteration,
            ),
            self.config.merge_every > 0 && self.pareto.members@.len() >= 2 ==> (self.merges(
                iteration,
            ) <==> exists|k: int| #[trigger] (k * self.config.merge_every) == iteration),
    {
        let every = self.config.merge_every as int;
        if every > 0 && self.pareto.members@.len() >= 2 {
            if iteration % every == 0 {
                vstd::arithmetic::div_mod::lemma_fundamental_div_mod(iteration, every);
                assert((iteration / every) * every == every * (iteration / every)) by (nonlinear_arith);
                assert((iteration / every) * self.config.merge_every == iteration);
            }
            if exists|k: int| #[trigger] (k * self.config.merge_every) == iteration {
                let k = choose|k: int| #[trigger] (k * self.config.merge_every) == iteration;
                vstd::arithmetic::div_mod::lemma_mod_multiples_basic(k, every);
            }
        }
    }

    /// The results of candidate `id`, empty where there are none.
    pub open spec fn known_results(&self, id: usize) -> Seq<TestResult> {
        match results_of(self.last_results@, id) {
            Some(results) => results,
            None => Seq::empty(),
        }
    }

    /// The candidate that a finished run ends with: the frontier member with
    /// the highest weighted score, the baseline where the frontier is empty.
    pub open spec fn best_id(&self, weighted: Seq<Measure>) -> usize {
        if self.pareto.members@.len() == 0 {
            0
        } else {
            self.pareto.members@[last_best(weighted)]
        }
    }

    /// A frontier member is a candidate.
    proof fn lemma_member(&self, i: int)
        requires
            self.wf(),
            0 <= i < self.pareto.members@.len(),
        ensures
            self.pareto.members@[i] < self.candidates@.len(),
    {
        let ids = evaluated(self.last_results@);
        assert(ids.contains(self.pareto.members@[i]));
        let j = choose|j: int| 0 <= j < ids.len() && ids[j] == self.pareto.members@[i];
        assert(ids[j] < self.candidates@.len());
    }
}

impl GEPAOrchestrator {
    /// A run that has not begun.
    pub fn new(
        config: OrchestratorConfig,
        root_path: String,
        epoch_secs: u64,
        base_sources: Vec<SourceFile>,
        tests: Vec<DiscoveredTest>,
        initial_function: OptimizableFunction,
    ) -> (r: Self)
        ensures
            r@.wf(),
            r@.config == config,
            r@.root_path@ == root_path@,
            r@.base_sources == base_sources,
            r@.tests == tests,
            r@.initial_function == initial_function,
            r@.evaluator.parallel == if config.parallel >= 1 {
                config.parallel
            } else {
                1
            },
            r@.applier.root_path@ == root_path@,
            r@.storage.run_dir@ == joined(
                joined(root_path@, ".baml_optimize"@),
                "run_"@ + decimal(epoch_secs as nat),
            ),
            r@.pareto.members@.len() == 0,
            r@.candidates@.len() == 0,
            r@.last_results@.len() == 0,
            r@.current_iteration == 0,
            r@.total_evals == 0,
    {
        let evaluator = Evaluator::new(config.parallel);
        let applier = Applier::new(root_path.clone());
        let pareto = ParetoFrontier::new(copy_objectives(&config.objectives));
        let storage = Storage::new(root_path.as_str(), epoch_secs);
        let state = OptimizerState {
            config,
            root_path,
            base_sources,
            evaluator,
            applier,
            pareto,
            storage,
            candidates: Vec::new(),
            last_results: Vec::new(),
            tests,
            initial_function,
            current_iteration: 0,
            total_evals: 0,
        };
        assert(evaluated(state.last_results@) =~= Seq::<usize>::empty());
        GEPAOrchestrator { state }
    }

    /// Where the run stands.
    pub fn state(&self) -> (r: &OptimizerState)
        ensures
            *r == self@,
    {
        &self.state
    }

    /// Where the run has come to, for good.
    pub fn into_state(self) -> (r: OptimizerState)
        ensures
            r == self@,
    {
        self.state
    }

    /// Seeds the run with the baseline candidate, which is then to be
    /// evaluated.
    pub fn begin(&mut self)
        requires
            old(self)@.wf(),
            old(self)@.candidates@.len() == 0,
        ensures
            final(self)@.wf(),
            final(self)@.candidates@.len() == 1,
            final(self)@.candidates@[0].deep_view() == baseline(
                old(self)@.initial_function.deep_view(),
            ),
            final(self)@.candidates@[0].id == 0,
            final(self)@.candidates@[0].iteration == 0,
            final(self)@.candidates@[0].parent_ids@.len() == 0,
            final(self)@.candidates@[0].method == CandidateMethod::Initial,
            final(self)@.candidates@[0].function.deep_view()
                == old(self)@.initial_function.deep_view(),
            final(self)@.candidates@[0].scores is None,
            final(self)@.same_setup(old(self)@),
            final(self)@.pareto == old(self)@.pareto,
            final(self)@.last_results == old(self)@.last_results,
            final(self)@.current_iteration == old(self)@.current_iteration,
            final(self)@.total_evals == old(self)@.total_evals,
    {
        let candidate = Candidate {
            id: 0,
            iteration: 0,
            parent_ids: Vec::new(),
            method: CandidateMethod::Initial,
            function: self.state.initial_function.clone(),
            scores: None,
            rationale: Some(String::from_str("Baseline from source")),
        };
        let ghost ids = evaluated(self.state.last_results@);
        let ghost members = self.state.pareto.members@;
        proof {
            assert(ids.len() == 0) by {
                if ids.len() > 0 {
                    assert(ids[0] < self.state.candidates@.len());
                }
            }
            assert(members.len() == 0) by {
                if members.len() > 0 {
                    assert(ids.contains(members[0]));
                }
            }
        }
        self.state.candidates.push(candidate);
        assert(candidate.deep_view().parent_ids =~= Seq::<usize>::empty());
    }

    /// Takes in the evaluation of candidate `id`: its scores and results are
    /// recorded and it is offered to the frontier. Returns whether it is on the
    /// frontier now, so that its engine is the one to keep.
    pub fn record_evaluation(
        &mut self,
        id: usize,
        scores: CandidateScores,
        results: Vec<TestResult>,
    ) -> (r: bool)
        requires
            old(self)@.wf(),
            id < old(self)@.candidates@.len(),
            old(self)@.candidates@[id as int].scores is None,
            old(self)@.total_evals + old(self)@.tests@.len() <= usize::MAX,
        ensures
            final(self)@.wf(),
            final(self)@.same_setup(old(self)@),
            final(self)@.candidates@.len() == old(self)@.candidates@.len(),
            final(self)@.candidates@[id as int].deep_view() == (CandidateModel {
                scores: Some(scores.deep_view()),
                ..old(self)@.candidates@[id as int].deep_view()
            }),
            forall|i: int|
                0 <= i < old(self)@.candidates@.len() && i != id
                    ==> #[trigger] final(self)@.candidates@[i] == old(self)@.candidates@[i],
            final(self)@.pareto.objectives == old(self)@.pareto.objectives,
            final(self)@.pareto.members@ == offered(
                old(self)@.pareto.members@,
                old(self)@.pareto.objectives.deep_view(),
                scores_of(final(self)@.candidates@),
                id,
                scores.deep_view(),
            ),
            final(self)@.last_results@ == old(self)@.last_results@.push((id, results)),
            final(self)@.total_evals == old(self)@.total_evals + old(self)@.tests@.len(),
            final(self)@.current_iteration == old(self)@.current_iteration,
            r == final(self)@.pareto.members@.contains(id),
    {
        let ghost start = self.state;
        let ghost ids = evaluated(self.state.last_results@);
        let ghost known = scores_of(self.state.candidates@);
        let ghost objectives = self.state.pareto.objectives.deep_view();
        let ghost members = self.state.pareto.members@;
        let mut candidate = self.state.candidates[id].clone();
        candidate.scores = Some(scores.clone());
        self.state.candidates.set(id, candidate);
        let ghost now = scores_of(self.state.candidates@);
        proof {
            assert(!ids.contains(id)) by {
                assert(start.candidates@[id as int].scores is None);
            }
            assert forall|i: int| 0 <= i < members.len() implies #[trigger] members[i]
                < self.state.candidates@.len() by {
                assert(ids.contains(members[i]));
                let j = choose|j: int| 0 <= j < ids.len() && ids[j] == members[i];
                assert(ids[j] < start.candidates@.len());
            }
            assert(self.state.pareto.indexes(self.state.candidates@));
            assert(now =~= known.update(id as int, Some(scores.deep_view())));
        }
        self.state.pareto.add(id, &scores, &self.state.candidates);
        self.state.total_evals = self.state.total_evals + self.state.tests.len();
        self.state.last_results.push((id, results));
        proof {
            let more = evaluated(self.state.last_results@);
            assert(more =~= ids.push(id));
            lemma_push_contains(ids, id);
            lemma_push_distinct(ids, id);
            lemma_offered_members(members, objectives, now, id, scores.deep_view());
            assert forall|i: int|
                #![trigger self.state.candidates@[i]]
                0 <= i < self.state.candidates@.len() implies (self.state.candidates@[i].scores is Some
                <==> more.contains(i as usize)) by {
                if i != id {
                    assert(self.state.candidates@[i] == start.candidates@[i]);
                }
            }
            assert forall|i: int| 0 <= i < more.len() implies #[trigger] more[i]
                < self.state.candidates@.len() by {
                if i < ids.len() {
                    assert(ids[i] < start.candidates@.len());
                }
            }
            assert forall|i: int| 0 <= i < self.state.pareto.members@.len() implies more.contains(
                #[trigger] self.state.pareto.members@[i],
            ) by {
                let m = self.state.pareto.members@[i];
                assert(self.state.pareto.members@.contains(m));
                if m != id {
                    assert(members.contains(m));
                    let j = choose|j: int| 0 <= j < members.len() && members[j] == m;
                    assert(ids.contains(members[j]));
                }
            }
            if all_measured(objectives, now, more) {
                lemma_frontier_kept(members, objectives, known, now, ids, id, scores.deep_view());
            }
        }
        let on_frontier = contains_id(&self.state.pareto.members, id);
        on_frontier
    }

    /// Decides whether this iteration should attempt a merge.
    pub fn should_merge_this_iteration(&self) -> (r: bool)
        ensures
            r == self@.merges(self@.current_iteration as int),
            self@.config.merge_every == 0 || self@.pareto.members@.len() < 2 ==> !r,
            self@.config.merge_every > 0 && self@.pareto.members@.len() >= 2 ==> (r <==> exists|
                k: int,
            | #[trigger] (k * self@.config.merge_every) == self@.current_iteration),
    {
        proof {
            self@.lemma_merges(self@.current_iteration as int);
        }
        let every: usize = self.state.config.merge_every as usize;
        every > 0 && self.state.current_iteration % every == 0 && self.state.pareto.members.len() >= 2
    }

    /// Begins the next iteration, unless there are none left.
    pub fn next_step(&mut self) -> (r: Step)
        requires
            old(self)@.wf(),
        ensures
            final(self)@.wf(),
            final(self)@.same_setup(old(self)@),
            final(self)@.pareto == old(self)@.pareto,
            final(self)@.candidates == old(self)@.candidates,
            final(self)@.last_results == old(self)@.last_results,
            final(self)@.total_evals == old(self)@.total_evals,
            r == Step::Finish <==> old(self)@.current_iteration >= old(self)@.config.max_iterations,
            r == Step::Merge <==> old(self)@.current_iteration < old(self)@.config.max_iterations
                && old(self)@.config.merge_every > 0 && old(self)@.pareto.members@.len() >= 2
                && exists|k: int| #[trigger] (k * old(self)@.config.merge_every)
                == old(self)@.current_iteration + 1,
            if old(self)@.current_iteration < old(self)@.config.max_iterations {
                &&& final(self)@.current_iteration == old(self)@.current_iteration + 1
                &&& r == if old(self)@.merges(old(self)@.current_iteration + 1) {
                    Step::Merge
                } else {
                    Step::Reflect
                }
            } else {
                &&& final(self)@.current_iteration == old(self)@.current_iteration
                &&& r == Step::Finish
            },
    {
        if self.state.current_iteration < self.state.config.max_iterations as usize {
            self.state.current_iteration = self.state.current_iteration + 1;
            if self.should_merge_this_iteration() {
                Step::Merge
            } else {
                Step::Reflect
            }
        } else {
            Step::Finish
        }
    }

    /// Plans a reflection: the frontier member with the highest weighted score
    /// is the parent, and its results are the examples.
    pub fn plan_reflection(&self, weighted: &Vec<Measure>) -> (r: Result<
        ReflectionPlan,
        IterationError,
    >)
        requires
            self@.wf(),
            weighted@.len() == self@.pareto.members@.len(),
        ensures
            match r {
                Ok(plan) => {
                    &&& self@.pareto.members@.len() > 0
                    &&& plan.parent_id == self@.pareto.members@[last_best(weighted@)]
                    &&& plan.parent_id < self@.candidates@.len()
                    &&& self@.known_results(plan.parent_id).len() > 0
                    &&& plan.failures.deep_view() == examples_of(
                        self@.known_results(plan.parent_id),
                        false,
                    )
                    &&& plan.successes.deep_view() == examples_of(
                        self@.known_results(plan.parent_id),
                        true,
                    )
                    &&& plan.objectives.objectives.deep_view()
                        == self@.config.objectives.deep_view().map_values(
                        |o: ObjectiveModel|
                            status_of(
                                o,
                                self@.candidates@[plan.parent_id as int].deep_view().scores,
                            ),
                    )
                    &&& match self@.candidates@[plan.parent_id as int].scores {
                        Some(scores) => plan.metrics == Some(metrics_of(scores)),
                        None => plan.metrics is None,
                    }
                },
                Err(IterationError::EmptyFrontier) => self@.pareto.members@.len() == 0,
                Err(IterationError::NoResults) => self@.pareto.members@.len() > 0
                    && self@.known_results(self@.pareto.members@[last_best(weighted@)]).len() == 0,
                Err(_) => false,
            },
    {
        let parent_id: usize = match self.state.pareto.select_for_reflection(weighted) {
            Some(id) => id,
            None => {
                return Err(IterationError::EmptyFrontier);
            },
        };
        proof {
            lemma_last_best(weighted@);
            self.state.lemma_member(last_best(weighted@));
        }
        let none: Vec<TestResult> = Vec::new();
        let results = match find_results(&self.state.last_results, parent_id) {
            Some(results) => results,
            None => &none,
        };
        assert(results@ =~= self.state.known_results(parent_id));
        let failures = build_examples(results, false);
        let successes = build_examples(results, true);
        proof {
            crate::reflection::law_examples_partition_results(results@);
            assert(failures@.len() == failures.deep_view().len());
            assert(successes@.len() == successes.deep_view().len());
        }
        if failures.len() == 0 && successes.len() == 0 {
            return Err(IterationError::NoResults);
        }
        let parent = &self.state.candidates[parent_id];
        let objectives = build_objectives(&self.state.config.objectives, parent);
        let metrics = match &parent.scores {
            Some(scores) => Some(build_metrics(scores)),
            None => None,
        };
        Ok(ReflectionPlan { parent_id, failures, successes, objectives, metrics })
    }

    /// Plans a merge: the two most diverse frontier members are the parents.
    pub fn plan_merge(&self, diversity: &Vec<Vec<Measure>>) -> (r: Result<
        (usize, usize),
        IterationError,
    >)
        requires
            self@.wf(),
            diversity@.len() == self@.pareto.members@.len(),
            forall|i: int|
                0 <= i < diversity@.len() ==> (#[trigger] diversity@[i])@.len()
                    == self@.pareto.members@.len(),
        ensures
            match r {
                Ok(parents) => {
                    let (i, j) = most_diverse(
                        table(diversity@),
                        self@.pareto.members@.len() as int,
                    );
                    &&& self@.pareto.members@.len() >= 2
                    &&& parents == (self@.pareto.members@[i], self@.pareto.members@[j])
                    &&& parents.0 < self@.candidates@.len()
                    &&& parents.1 < self@.candidates@.len()
                },
                Err(e) => e == IterationError::TooFewToMerge && self@.pareto.members@.len() < 2,
            },
    {
        match self.state.pareto.select_for_merge(diversity) {
            Some(parents) => {
                proof {
                    let n = self.state.pareto.members@.len() as int;
                    lemma_pair_in_range(table(diversity@), n, n);
                    let (i, j) = most_diverse(table(diversity@), n);
                    self.state.lemma_member(i);
                    self.state.lemma_member(j);
                }
                Ok(parents)
            },
            None => Err(IterationError::TooFewToMerge),
        }
    }

    /// The candidate that a reflection on `parent_id` makes.
    pub fn propose_reflection(&self, parent_id: usize, improved: ImprovedFunction) -> (r: Candidate)
        requires
            parent_id < self@.candidates@.len(),
        ensures
            r.deep_view() == proposed(
                self@.candidates@.len() as usize,
                self@.current_iteration,
                seq![parent_id],
                CandidateMethod::Reflection,
                self@.candidates@[parent_id as int].function.deep_view(),
                improved,
            ),
            r.id == self@.candidates@.len(),
            r.iteration == self@.current_iteration,
            r.method == CandidateMethod::Reflection,
            r.parent_ids@ == seq![parent_id],
            r.function.function_name@ == self@.candidates@[parent_id as int].function.function_name@,
            r.function.prompt_text@ == improved.prompt_text@,
            r.function.classes.deep_view() == improved.classes.deep_view(),
            r.function.enums.deep_view() == improved.enums.deep_view(),
            r.function.function_source.deep_view()
                == self@.candidates@[parent_id as int].function.function_source.deep_view(),
            r.scores is None,
            r.rationale matches Some(text) && text@ == improved.rationale@,
    {
        let mut parent_ids: Vec<usize> = Vec::new();
        parent_ids.push(parent_id);
        assert(parent_ids@ =~= seq![parent_id]);
        let parent = &self.state.candidates[parent_id].function;
        make_candidate(
            self.state.candidates.len(),
            self.state.current_iteration,
            parent_ids,
            CandidateMethod::Reflection,
            parent,
            improved,
        )
    }

    /// The candidate that a merge makes. It targets the same source location
    /// as the first parent.
    pub fn propose_merge(&self, id_a: usize, id_b: usize, improved: ImprovedFunction) -> (r: Candidate)
        requires
            id_a < self@.candidates@.len(),
            id_b < self@.candidates@.len(),
        ensures
            r.deep_view() == proposed(
                self@.candidates@.len() as usize,
                self@.current_iteration,
                seq![id_a, id_b],
                CandidateMethod::Merge,
                self@.candidates@[id_a as int].function.deep_view(),
                improved,
            ),
            r.id == self@.candidates@.len(),
            r.iteration == self@.current_iteration,
            r.method == CandidateMethod::Merge,
            r.parent_ids@ == seq![id_a, id_b],
            r.function.function_name@ == self@.candidates@[id_a as int].function.function_name@,
            r.function.prompt_text@ == improved.prompt_text@,
            r.function.classes.deep_view() == improved.classes.deep_view(),
            r.function.enums.deep_view() == improved.enums.deep_view(),
            r.function.function_source.deep_view()
                == self@.candidates@[id_a as int].function.function_source.deep_view(),
            r.scores is None,
            r.rationale matches Some(text) && text@ == improved.rationale@,
    {
        let mut parent_ids: Vec<usize> = Vec::new();
        parent_ids.push(id_a);
        parent_ids.push(id_b);
        assert(parent_ids@ =~= seq![id_a, id_b]);
        let parent = &self.state.candidates[id_a].function;
        make_candidate(
            self.state.candidates.len(),
            self.state.current_iteration,
            parent_ids,
            CandidateMethod::Merge,
            parent,
            improved,
        )
    }

    /// Takes in a new candidate and rewrites the sources for it. Returns the
    /// modified sources, or `None` where the candidate changes nothing and is
    /// not to be evaluated.
    pub fn stage(&mut self, candidate: Candidate) -> (r: Option<Vec<SourceFile>>)
        requires
            old(self)@.wf(),
            candidate.id == old(self)@.candidates@.len(),
            candidate.scores is None,
        ensures
            final(self)@.wf(),
            final(self)@.same_setup(old(self)@),
            final(self)@.candidates@ == old(self)@.candidates@.push(candidate),
            final(self)@.pareto == old(self)@.pareto,
            final(self)@.last_results == old(self)@.last_results,
            final(self)@.current_iteration == old(self)@.current_iteration,
            final(self)@.total_evals == old(self)@.total_evals,
            match r {
                Some(modified) => modified.deep_view() == staged(
                    old(self)@.base_sources.deep_view(),
                    candidate.deep_view().function,
                ) && modified.deep_view() != old(self)@.base_sources.deep_view(),
                None => staged(
                    old(self)@.base_sources.deep_view(),
                    candidate.deep_view().function,
                ) == old(self)@.base_sources.deep_view(),
            },
    {
        let ghost start = self.state;
        let modified = self.state.applier.generate_modified_files(&candidate, &self.state.base_sources);
        let ghost function = candidate.deep_view().function;
        proof {
            assert(modified.deep_view() =~= staged(self.state.base_sources.deep_view(), function));
        }
        self.state.candidates.push(candidate);
        proof {
            let ids = evaluated(start.last_results@);
            let known = scores_of(start.candidates@);
            let now = scores_of(self.state.candidates@);
            let objectives = start.pareto.objectives.deep_view();
            assert(!ids.contains(candidate.id)) by {
                if ids.contains(candidate.id) {
                    let j = choose|j: int| 0 <= j < ids.len() && ids[j] == candidate.id;
                    assert(ids[j] < start.candidates@.len());
                }
            }
            assert forall|i: int|
                #![trigger self.state.candidates@[i]]
                0 <= i < self.state.candidates@.len() implies (self.state.candidates@[i].scores is Some
                <==> ids.contains(i as usize)) by {
                if i < start.candidates@.len() {
                    assert(self.state.candidates@[i] == start.candidates@[i]);
                }
            }
            assert forall|i: int| 0 <= i < self.state.candidates@.len() implies (
            #[trigger] self.state.candidates@[i]).id == i by {
                if i < start.candidates@.len() {
                    assert(self.state.candidates@[i] == start.candidates@[i]);
                }
            }
            assert(now =~= known.push(None));
            if all_measured(objectives, now, ids) {
                lemma_frontier_of_known(start.pareto.members@, objectives, known, now, ids);
            }
        }
        if sources_changed(&self.state.base_sources, &modified) {
            Some(modified)
        } else {
            None
        }
    }

    /// Where the run is.
    pub fn checkpoint(&self) -> (r: RunState)
        ensures
            r.function_name@ == self@.config.function_name@,
            r.current_iteration == self@.current_iteration,
            r.total_evals == self@.total_evals,
            r.candidate_ids@ == Seq::new(self@.candidates@.len(), |i: int| i as usize),
            r.pareto_frontier@ == self@.pareto.members@,
    {
        let mut candidate_ids: Vec<usize> = Vec::new();
        let mut k: usize = 0;
        while k < self.state.candidates.len()
            invariant
                k <= self.state.candidates.len(),
                candidate_ids@.len() == k,
                forall|j: int| 0 <= j < k ==> #[trigger] candidate_ids@[j] == j,
            decreases self.state.candidates.len() - k,
        {
            candidate_ids.push(k);
            k = k + 1;
        }
        assert(candidate_ids@ =~= Seq::new(self.state.candidates@.len(), |i: int| i as usize));
        let pareto_frontier = self.state.pareto.members.clone();
        assert(pareto_frontier@ =~= self.state.pareto.members@);
        RunState {
            function_name: self.state.config.function_name.clone(),
            current_iteration: self.state.current_iteration,
            total_evals: self.state.total_evals,
            candidate_ids,
            pareto_frontier,
        }
    }

    /// The summary of a finished run.
    pub fn finalize(&self, weighted: &Vec<Measure>) -> (r: OptimizationResult)
        requires
            weighted@.len() == self@.pareto.members@.len(),
        ensures
            r.function_name@ == self@.config.function_name@,
            r.best_candidate_id == self@.best_id(weighted@),
            r.best_scores.deep_view() == if self@.best_id(weighted@) < self@.candidates@.len() {
                match self@.candidates@[self@.best_id(weighted@) as int].deep_view().scores {
                    Some(scores) => scores,
                    None => zero_scores(),
                }
            } else {
                zero_scores()
            },
            r.total_iterations == self@.current_iteration,
            r.total_evaluations == self@.total_evals,
            r.pareto_frontier_size == self@.pareto.members@.len(),
    {
        let best: usize = match self.state.pareto.select_for_reflection(weighted) {
            Some(id) => id,
            None => 0,
        };
        let best_scores = if best < self.state.candidates.len() {
            match &self.state.candidates[best].scores {
                Some(scores) => scores.clone(),
                None => CandidateScores::default(),
            }
        } else {
            CandidateScores::default()
        };
        OptimizationResult {
            function_name: self.state.config.function_name.clone(),
            best_candidate_id: best,
            best_scores,
            total_iterations: self.state.current_iteration,
            total_evaluations: self.state.total_evals,
            pareto_frontier_size: self.state.pareto.members.len(),
        }
    }
}

/// Merging is regular: with two members or more on the frontier, every
/// `merge_every`-th iteration merges and no other does, so that of any
/// `merge_every` iterations in a row exactly one is a merge.
pub proof fn law_merges_are_regular(state: OptimizerState, k: int, from: int)
    requires
        state.config.merge_every > 0,
        state.pareto.members@.len() >= 2,
    ensures
        state.merges(k * state.config.merge_every),
        forall|d: int| 0 < d < state.config.merge_every ==> !state.merges(
            #[trigger] (k * state.config.merge_every + d),
        ),
        exists|i: int|
            from <= i < from + state.config.merge_every && #[trigger] state.merges(i) && forall|
                j: int,
            |
                from <= j < from + state.config.merge_every && #[trigger] state.merges(j) ==> i == j,
{
    let every = state.config.merge_every as int;
    vstd::arithmetic::div_mod::lemma_mod_multiples_basic(k, every);
    assert forall|d: int| 0 < d < every implies !state.merges(#[trigger] (k * every + d)) by {
        vstd::arithmetic::div_mod::lemma_fundamental_div_mod_converse(k * every + d, every, k, d);
    }
    let r = from % every;
    let q = from / every;
    vstd::arithmetic::div_mod::lemma_fundamental_div_mod(from, every);
    let first = if r == 0 {
        from
    } else {
        from - r + every
    };
    assert(first % every == 0) by {
        assert(first == (if r == 0 { q } else { q + 1 }) * every) by (nonlinear_arith)
            requires
                from == every * q + r,
                first == (if r == 0 {
                    from
                } else {
                    from - r + every
                }),
        ;
        vstd::arithmetic::div_mod::lemma_mod_multiples_basic(
            if r == 0 {
                q
            } else {
                q + 1
            },
            every,
        );
    }
    assert(state.merges(first));
    assert forall|j: int| from <= j < from + every && #[trigger] state.merges(j) implies first
        == j by {
        vstd::arithmetic::div_mod::lemma_fundamental_div_mod(first, every);
        vstd::arithmetic::div_mod::lemma_fundamental_div_mod(j, every);
        let a = first / every;
        let b = j / every;
        assert(a == b) by (nonlinear_arith)
            requires
                every > 0,
                -every < every * a - every * b < every,
        ;
    }
}

/// The initial function of a run, out of the project's declarations.
pub fn initial_function_from_db(items: &ItemTree, function_name: &str) -> (r: Result<
    OptimizableFunction,
    ExtractError,
>)
    ensures
        match r {
            Ok(extracted) => function_named(items.functions@, function_name@) is Some
                && extracted.deep_view() == extracted_function(*items, function_name@),
            Err(ExtractError::FunctionNotFound { name }) => function_named(
                items.functions@,
                function_name@,
            ) is None && name@ == function_name@,
        },
{
    extract_optimizable_function(items, function_name)
}

// ---------------------------------------------------------------------------
// Parts of the steps
// ---------------------------------------------------------------------------

/// The metrics of some scores.
pub open spec fn metrics_of(scores: CandidateScores) -> CurrentMetrics {
    CurrentMetrics {
        test_pass_rate: scores.test_pass_rate,
        tests_passed: scores.tests_passed as i64,
        tests_total: scores.tests_total as i64,
        avg_prompt_tokens: scores.avg_prompt_tokens,
        avg_completion_tokens: scores.avg_completion_tokens,
        avg_total_tokens: scores.avg_total_tokens,
        avg_latency_ms: scores.avg_latency_ms,
    }
}

/// The sources with a function's changes applied.
pub open spec fn staged(sources: Seq<FileModel>, function: FunctionModel) -> Seq<FileModel> {
    sources.map_values(|file: FileModel| modified_file(file, function))
}

/// The candidate that an improvement makes.
fn make_candidate(
    id: usize,
    iteration: usize,
    parent_ids: Vec<usize>,
    method: CandidateMethod,
    parent: &OptimizableFunction,
    improved: ImprovedFunction,
) -> (r: Candidate)
    ensures
        r.deep_view() == proposed(
            id,
            iteration,
            parent_ids@,
            method,
            parent.deep_view(),
            improved,
        ),
        r.id == id,
        r.iteration == iteration,
        r.parent_ids@ == parent_ids@,
        r.method == method,
        r.function.function_name@ == parent.function_name@,
        r.function.prompt_text@ == improved.prompt_text@,
        r.function.classes.deep_view() == improved.classes.deep_view(),
        r.function.enums.deep_view() == improved.enums.deep_view(),
        r.function.function_source.deep_view() == parent.function_source.deep_view(),
        r.scores is None,
        r.rationale matches Some(text) && text@ == improved.rationale@,
{
    let function = OptimizableFunction {
        function_name: parent.function_name.clone(),
        prompt_text: improved.prompt_text,
        classes: improved.classes,
        enums: improved.enums,
        function_source: parent.function_source.clone(),
    };
    Candidate {
        id,
        iteration,
        parent_ids,
        method,
        function,
        scores: None,
        rationale: Some(improved.rationale),
    }
}

/// Whether `id` is among `ids`.
fn contains_id(ids: &Vec<usize>, id: usize) -> (r: bool)
    ensures
        r == ids@.contains(id),
{
    let mut i: usize = 0;
    while i < ids.len()
        invariant
            i <= ids.len(),
            forall|j: int| 0 <= j < i ==> ids@[j] != id,
        decreases ids.len() - i,
    {
        if ids[i] == id {
            return true;
        }
        i = i + 1;
    }
    false
}

/// The most recent results of a candidate.
fn find_results<'a>(last_results: &'a Vec<(usize, Vec<TestResult>)>, id: usize) -> (r: Option<
    &'a Vec<TestResult>,
>)
    ensures
        match r {
            Some(results) => results_of(last_results@, id) == Some(results@),
            None => results_of(last_results@, id) is None,
        },
{
    let mut i: usize = last_results.len();
    proof {
        assert(last_results@.take(last_results@.len() as int) =~= last_results@);
    }
    while i > 0
        invariant
            i <= last_results.len(),
            results_of(last_results@, id) == results_of(last_results@.take(i as int), id),
        decreases i,
    {
        proof {
            assert(last_results@.take(i as int).drop_last() =~= last_results@.take(i - 1));
        }
        i = i - 1;
        if last_results[i].0 == id {
            return Some(&last_results[i].1);
        }
    }
    None
}

/// Whether a text of the modified sources differs from the base.
fn sources_changed(base: &Vec<SourceFile>, modified: &Vec<SourceFile>) -> (r: bool)
    requires
        base@.len() == modified@.len(),
        forall|k: int| 0 <= k < base@.len() ==> base@[k].path@ == (#[trigger] modified@[k]).path@,
    ensures
        r == (modified.deep_view() != base.deep_view()),
{
    let mut k: usize = 0;
    while k < base.len()
        invariant
            k <= base.len(),
            base@.len() == modified@.len(),
            forall|j: int|
                0 <= j < base@.len() ==> base@[j].path@ == (#[trigger] modified@[j]).path@,
            forall|j: int| 0 <= j < k ==> base@[j].content@ == (#[trigger] modified@[j]).content@,
        decreases base.len() - k,
    {
        if !same_text(base[k].content.as_str(), modified[k].content.as_str()) {
            assert(modified.deep_view()[k as int] != base.deep_view()[k as int]);
            return true;
        }
        k = k + 1;
    }
    assert(modified.deep_view() =~= base.deep_view());
    false
}

proof fn lemma_push_contains(ids: Seq<usize>, id: usize)
    ensures
        forall|c: usize| #[trigger] ids.push(id).contains(c) <==> ids.contains(c) || c == id,
{
    let more = ids.push(id);
    assert forall|c: usize| #[trigger] more.contains(c) <==> ids.contains(c) || c == id by {
        if ids.contains(c) {
            let i = choose|i: int| 0 <= i < ids.len() && ids[i] == c;
            assert(more[i] == c);
        }
        assert(more[ids.len() as int] == id);
    }
}

proof fn lemma_push_distinct(ids: Seq<usize>, id: usize)
    requires
        ids.no_duplicates(),
        !ids.contains(id),
    ensures
        ids.push(id).no_duplicates(),
{
}

/// Only members and the candidate itself are on the frontier after an offer.
proof fn lemma_offered_members(
    members: Seq<usize>,
    objectives: Seq<ObjectiveModel>,
    known: Seq<Option<ScoresModel>>,
    id: usize,
    scores: ScoresModel,
)
    ensures
        forall|m: usize| #[trigger]
            offered(members, objectives, known, id, scores).contains(m) ==> members.contains(m) || m
                == id,
{
    let keep = |m: usize| !crate::pareto::beaten(objectives, known, m, scores);
    crate::pareto_laws::lemma_filter(members, keep);
    lemma_push_contains(members.filter(keep), id);
}

/// A frontier depends only on the scores of the candidates that it is of.
proof fn lemma_frontier_of_known(
    members: Seq<usize>,
    objectives: Seq<ObjectiveModel>,
    known: Seq<Option<ScoresModel>>,
    now: Seq<Option<ScoresModel>>,
    ids: Seq<usize>,
)
    requires
        forall|i: int| 0 <= i < ids.len() ==> known[#[trigger] ids[i] as int] == now[ids[i] as int],
        all_measured(objectives, now, ids),
        all_measured(objectives, known, ids) ==> frontier_of(members, objectives, known, ids),
    ensures
        frontier_of(members, objectives, now, ids),
{
    assert(all_measured(objectives, known, ids));
    assert forall|m: usize, n: usize| ids.contains(m) && ids.contains(n) implies (
    #[trigger] crate::pareto_laws::outranks(objectives, known, m, n)
        == crate::pareto_laws::outranks(objectives, now, m, n)) by {
        let i = choose|i: int| 0 <= i < ids.len() && ids[i] == m;
        let j = choose|j: int| 0 <= j < ids.len() && ids[j] == n;
        assert(known[ids[i] as int] == now[ids[i] as int]);
        assert(known[ids[j] as int] == now[ids[j] as int]);
    }
    assert forall|m: usize, n: usize|
        members.contains(m) && members.contains(n) implies !#[trigger] crate::pareto_laws::outranks(
        objectives,
        now,
        m,
        n,
    ) by {
        assert(!crate::pareto_laws::outranks(objectives, known, m, n));
    }
    assert forall|c: usize| #[trigger]
        ids.contains(c) && !members.contains(c) implies exists|m: usize|
        members.contains(m) && #[trigger] crate::pareto_laws::outranks(objectives, now, m, c) by {
        let m = choose|m: usize|
            members.contains(m) && #[trigger] crate::pareto_laws::outranks(objectives, known, m, c);
        assert(crate::pareto_laws::outranks(objectives, now, m, c));
    }
}

/// The frontier stays the frontier of the evaluated candidates when one more is
/// evaluated and offered.
proof fn lemma_frontier_kept(
    members: Seq<usize>,
    objectives: Seq<ObjectiveModel>,
    known: Seq<Option<ScoresModel>>,
    now: Seq<Option<ScoresModel>>,
    ids: Seq<usize>,
    id: usize,
    scores: ScoresModel,
)
    requires
        id < known.len(),
        forall|i: int| 0 <= i < ids.len() ==> #[trigger] ids[i] < known.len(),
        now == known.update(id as int, Some(scores)),
        !ids.contains(id),
        all_measured(objectives, now, ids.push(id)),
        all_measured(objectives, known, ids) ==> frontier_of(members, objectives, known, ids),
    ensures
        frontier_of(
            offered(members, objectives, now, id, scores),
            objectives,
            now,
            ids.push(id),
        ),
{
    assert forall|i: int| 0 <= i < ids.len() implies known[#[trigger] ids[i] as int]
        == now[ids[i] as int] by {
        assert(ids.contains(ids[i]));
    }
    assert forall|i: int| 0 <= i < ids.len() implies (now[#[trigger] ids[i] as int] matches Some(s)
        && crate::pareto_laws::measured(objectives, s)) by {
        assert(ids.push(id)[i] == ids[i]);
    }
    lemma_frontier_of_known(members, objectives, known, now, ids);
    law_offering_keeps_frontier(members, objectives, now, ids, id, scores);
}

/// The greatest measure stands among the measures.
proof fn lemma_last_best(weighted: Seq<Measure>)
    ensures
        weighted.len() > 0 ==> 0 <= last_best(weighted) < weighted.len(),
    decreases weighted.len(),
{
    if weighted.len() > 1 {
        lemma_last_best(weighted.drop_last());
    }
}

proof fn lemma_row_in_range(
    d: spec_fn(int, int) -> Measure,
    n: int,
    i: int,
    j: int,
    start: (int, int),
)
    requires
        0 <= i < n,
        j <= n,
        0 <= start.0 < start.1 < n,
    ensures
        0 <= crate::pareto::over_row(d, i, j, start).0 < crate::pareto::over_row(d, i, j, start).1
            < n,
    decreases j,
{
    if j > i + 1 {
        lemma_row_in_range(d, n, i, j - 1, start);
    }
}

/// The leading pair is a pair of members.
proof fn lemma_pair_in_range(d: spec_fn(int, int) -> Measure, n: int, i: int)
    requires
        n >= 2,
        0 <= i <= n,
    ensures
        0 <= crate::pareto::over_rows(d, n, i).0 < crate::pareto::over_rows(d, n, i).1 < n,
    decreases i,
{
    if i > 0 {
        lemma_pair_in_range(d, n, i - 1);
        lemma_row_in_range(d, n, i - 1, n, crate::pareto::over_rows(d, n, i - 1));
    }
}

/// What is known of a candidate are the results that were recorded for it last;
/// of one that none were recorded for, nothing.
pub proof fn law_the_last_results_are_known(state: OptimizerState, id: usize, i: int)
    ensures
        0 <= i < state.last_results@.len() && state.last_results@[i].0 == id && (forall|j: int|
            i < j < state.last_results@.len() ==> (#[trigger] state.last_results@[j]).0 != id)
            ==> state.known_results(id) == state.last_results@[i].1@,
        (forall|j: int|
            0 <= j < state.last_results@.len() ==> (#[trigger] state.last_results@[j]).0 != id)
            ==> state.known_results(id).len() == 0,
{
    lemma_last_results(state.last_results@, id, i);
}

proof fn lemma_last_results(last_results: Seq<(usize, Vec<TestResult>)>, id: usize, i: int)
    ensures
        0 <= i < last_results.len() && last_results[i].0 == id && (forall|j: int|
            i < j < last_results.len() ==> (#[trigger] last_results[j]).0 != id) ==> results_of(
            last_results,
            id,
        ) == Some(last_results[i].1@),
        (forall|j: int| 0 <= j < last_results.len() ==> (#[trigger] last_results[j]).0 != id)
            ==> results_of(last_results, id) is None,
    decreases last_results.len(),
{
    if last_results.len() > 0 {
        let front = last_results.drop_last();
        let n = last_results.len() - 1;
        lemma_last_results(front, id, i);
        assert(last_results[n] == last_results.last());
        assert forall|j: int| 0 <= j < n implies #[trigger] front[j] == last_results[j] by {}
        if 0 <= i < n && last_results[i].0 == id && (forall|j: int|
            i < j < last_results.len() ==> (#[trigger] last_results[j]).0 != id) {
            assert(last_results[n].0 != id);
            assert forall|j: int| i < j < front.len() implies (#[trigger] front[j]).0 != id by {
                assert(last_results[j].0 != id);
            }
        }
        if forall|j: int| 0 <= j < last_results.len() ==> (#[trigger] last_results[j]).0 != id {
            assert(last_results[n].0 != id);
            assert forall|j: int| 0 <= j < front.len() implies (#[trigger] front[j]).0 != id by {
                assert(last_results[j].0 != id);
            }
        }
    }
}

/// The best candidate is a member of the frontier, and no member has a higher
/// weighted score, as long as every weighted score is a number.
pub proof fn law_the_best_has_the_highest_score(state: OptimizerState, weighted: Seq<Measure>)
    requires
        state.pareto.members@.len() > 0,
        weighted.len() == state.pareto.members@.len(),
        forall|i: int| 0 <= i < weighted.len() ==> !(#[trigger] weighted[i]).nan(),
    ensures
        exists|i: int|
            0 <= i < weighted.len() && state.pareto.members@[i] == state.best_id(weighted)
                && forall|j: int|
                0 <= j < weighted.len() ==> !(#[trigger] weighted[i]).below(#[trigger] weighted[j]),
{
    crate::pareto_laws::law_reflection_choice_is_best(weighted);
    let i = last_best(weighted);
    assert(0 <= i < weighted.len());
    assert(state.pareto.members@[i] == state.best_id(weighted));
    assert forall|j: int| 0 <= j < weighted.len() implies !(#[trigger] weighted[i]).below(
        #[trigger] weighted[j],
    ) by {}
}

/// Rewriting the sources for a candidate keeps every file at its place, under
/// its path, and changes it as it changes by itself.
pub proof fn law_every_source_is_rewritten(
    sources: Seq<FileModel>,
    function: FunctionModel,
    i: int,
)
    requires
        0 <= i < sources.len(),
    ensures
        staged(sources, function).len() == sources.len(),
        staged(sources, function)[i].path == sources[i].path,
        crate::applier::declaration(sources[i].content, "function"@, function.function_name) is Some
            ==> staged(sources, function)[i].content == crate::applier_laws::after_change(
            sources[i].content,
            function,
        ),
{
    crate::applier_laws::law_files_change_by_their_text(sources[i], function);
}

/// A candidate says what was improved: its prompt, classes and enums are those
/// of the improvement, whatever those of the parent are, and only the function's
/// name and place come from the parent. So improvements with different prompts,
/// classes or enums make different candidates.
pub proof fn law_candidates_say_what_was_improved(
    id: usize,
    iteration: usize,
    parent_ids: Seq<usize>,
    method: CandidateMethod,
    parent: FunctionModel,
    other: FunctionModel,
    improved: ImprovedFunction,
)
    ensures
        ({
            let made = proposed(id, iteration, parent_ids, method, parent, improved);
            let same = proposed(id, iteration, parent_ids, method, other, improved);
            &&& made.function.prompt_text == improved.prompt_text@
            &&& made.function.classes == improved.classes.deep_view()
            &&& made.function.enums == improved.enums.deep_view()
            &&& made.function.function_name == parent.function_name
            &&& made.function.function_source == parent.function_source
            &&& made.rationale == Some(improved.rationale@)
            &&& made.parent_ids == parent_ids
            &&& made.scores is None
            &&& parent.function_name == other.function_name && parent.function_source
                == other.function_source ==> made == same
        }),
{
}

} // verus!
