//! What a run says while it goes on.
//!
//! Formatted doubles come in as texts: pass rates in percent with one decimal,
//! latencies without decimals.

use vstd::prelude::*;
use vstd::string::*;

use crate::text::{decimal, join, join_strings, to_decimal};

verus! {

/// Something to tell the user about.
#[derive(Debug)]
pub enum Progress {
    Started { function_name: String },
    EvaluatingBaseline { tests: usize, parallel: usize },
    BaselineScored { pass_rate: String, passed: usize, total: usize, latency: String },
    Iteration { iteration: usize, max_iterations: u32 },
    MergeIteration { iteration: usize, max_iterations: u32 },
    ParentSelected { parent_id: usize },
    Merging { id_a: usize, id_b: usize },
    Reflected { rationale: String },
    Merged { rationale: String },
    NoSourceChanges { id: usize },
    CandidateScored {
        id: usize,
        pass_rate: String,
        passed: usize,
        total: usize,
        latency: String,
    },
    Frontier { members: Vec<usize> },
    IterationFailed { iteration: usize, reason: String },
}

/// The scores of a candidate in one line.
pub open spec fn scores_text(
    pass_rate: Seq<char>,
    passed: usize,
    total: usize,
    latency: Seq<char>,
) -> Seq<char> {
    pass_rate + "% pass rate ("@ + decimal(passed as nat) + "/"@ + decimal(total as nat) + "), "@
        + latency + "ms avg latency"@
}

/// A list of ids.
pub open spec fn id_list(ids: Seq<usize>) -> Seq<char> {
    "["@ + join(ids.map_values(|id: usize| decimal(id as nat)), ", "@) + "]"@
}

/// What is said.
pub open spec fn progress_text(progress: Progress) -> Seq<char> {
    match progress {
        Progress::Started { function_name } => "Initializing optimization for function: "@
            + function_name@,
        Progress::EvaluatingBaseline { tests, parallel } => "Evaluating baseline on "@ + decimal(
            tests as nat,
        ) + " tests ("@ + decimal(parallel as nat) + " in parallel)..."@,
        Progress::BaselineScored { pass_rate, passed, total, latency } => "Baseline: "@
            + scores_text(pass_rate@, passed, total, latency@),
        Progress::Iteration { iteration, max_iterations } => "\n--- Iteration "@ + decimal(
            iteration as nat,
        ) + "/"@ + decimal(max_iterations as nat) + " ---"@,
        Progress::MergeIteration { iteration, max_iterations } => "\n--- Iteration "@ + decimal(
            iteration as nat,
        ) + "/"@ + decimal(max_iterations as nat) + " (merge) ---"@,
        Progress::ParentSelected { parent_id } => "Selected parent candidate #"@ + decimal(
            parent_id as nat,
        ) + " for reflection"@,
        Progress::Merging { id_a, id_b } => "Merging candidates #"@ + decimal(id_a as nat)
            + " and #"@ + decimal(id_b as nat),
        Progress::Reflected { rationale } => "Reflection rationale: "@ + rationale@,
        Progress::Merged { rationale } => "Merge rationale: "@ + rationale@,
        Progress::NoSourceChanges { id } => "Candidate #"@ + decimal(id as nat)
            + " produced no source changes — skipping re-evaluation"@,
        Progress::CandidateScored { id, pass_rate, passed, total, latency } => "Candidate #"@
            + decimal(id as nat) + ": "@ + scores_text(pass_rate@, passed, total, latency@),
        Progress::Frontier { members } => "Pareto frontier: "@ + id_list(members@),
        Progress::IterationFailed { iteration, reason } => "iteration "@ + decimal(iteration as nat)
            + " failed: "@ + reason@ + " — continuing with prior frontier"@,
    }
}

/// Appends a count.
fn append_count(out: &mut String, n: usize)
    ensures
        final(out)@ == old(out)@ + decimal(n as nat),
{
    out.append(to_decimal(n as u64).as_str());
}

/// A list of ids.
pub fn write_ids(ids: &Vec<usize>) -> (r: String)
    ensures
        r@ == id_list(ids@),
{
    let mut texts: Vec<String> = Vec::new();
    let mut k: usize = 0;
    while k < ids.len()
        invariant
            k <= ids.len(),
            texts@.len() == k,
            forall|j: int| 0 <= j < k ==> (#[trigger] texts@[j])@ == decimal(ids@[j] as nat),
        decreases ids.len() - k,
    {
        texts.push(to_decimal(ids[k] as u64));
        k = k + 1;
    }
    assert(texts.deep_view() =~= ids@.map_values(|id: usize| decimal(id as nat)));
    let mut out = String::from_str("[");
    out.append(join_strings(&texts, ", ").as_str());
    out.append("]");
    out
}

/// Appends the scores of a candidate.
fn append_scores(out: &mut String, pass_rate: &str, passed: usize, total: usize, latency: &str)
    ensures
        final(out)@ == old(out)@ + scores_text(pass_rate@, passed, total, latency@),
{
    let ghost start = out@;
    out.append(pass_rate);
    out.append("% pass rate (");
    append_count(out, passed);
    out.append("/");
    append_count(out, total);
    out.append("), ");
    out.append(latency);
    out.append("ms avg latency");
    assert(out@ =~= start + scores_text(pass_rate@, passed, total, latency@));
}

impl Progress {
    /// What is said.
    pub fn message(&self) -> (r: String)
        ensures
            r@ == progress_text(*self),
    {
        match self {
            Progress::Started { function_name } => {
                let mut out = String::from_str("Initializing optimization for function: ");
                out.append(function_name.as_str());
                out
            },
            Progress::EvaluatingBaseline { tests, parallel } => {
                let mut out = String::from_str("Evaluating baseline on ");
                append_count(&mut out, *tests);
                out.append(" tests (");
                append_count(&mut out, *parallel);
                out.append(" in parallel)...");
                out
            },
            Progress::BaselineScored { pass_rate, passed, total, latency } => {
                let mut out = String::from_str("Baseline: ");
                append_scores(&mut out, pass_rate.as_str(), *passed, *total, latency.as_str());
                out
            },
            Progress::Iteration { iteration, max_iterations } => {
                let mut out = String::from_str("\n--- Iteration ");
                append_count(&mut out, *iteration);
                out.append("/");
                append_count(&mut out, *max_iterations as usize);
                out.append(" ---");
                out
            },
            Progress::MergeIteration { iteration, max_iterations } => {
                let mut out = String::from_str("\n--- Iteration ");
                append_count(&mut out, *iteration);
                out.append("/");
                append_count(&mut out, *max_iterations as usize);
                out.append(" (merge) ---");
                out
            },
            Progress::ParentSelected { parent_id } => {
                let mut out = String::from_str("Selected parent candidate #");
                append_count(&mut out, *parent_id);
                out.append(" for reflection");
                out
            },
            Progress::Merging { id_a, id_b } => {
                let mut out = String::from_str("Merging candidates #");
                append_count(&mut out, *id_a);
                out.append(" and #");
                append_count(&mut out, *id_b);
                out
            },
            Progress::Reflected { rationale } => {
                let mut out = String::from_str("Reflection rationale: ");
                out.append(rationale.as_str());
                out
            },
            Progress::Merged { rationale } => {
                let mut out = String::from_str("Merge rationale: ");
                out.append(rationale.as_str());
                out
            },
            Progress::NoSourceChanges { id } => {
                let mut out = String::from_str("Candidate #");
                append_count(&mut out, *id);
                out.append(" produced no source changes — skipping re-evaluation");
                out
            },
            Progress::CandidateScored { id, pass_rate, passed, total, latency } => {
                let mut out = String::from_str("Candidate #");
                append_count(&mut out, *id);
                out.append(": ");
                append_scores(&mut out, pass_rate.as_str(), *passed, *total, latency.as_str());
                out
            },
            Progress::Frontier { members } => {
                let mut out = String::from_str("Pareto frontier: ");
                out.append(write_ids(members).as_str());
                out
            },
            Progress::IterationFailed { iteration, reason } => {
                let mut out = String::from_str("iteration ");
                append_count(&mut out, *iteration);
                out.append(" failed: ");
                out.append(reason.as_str());
                out.append(" — continuing with prior frontier");
                out
            },
        }
    }
}

/// A list of ids shows each, in order: one more follows a comma, in front of
/// the closing bracket, and the rest stays.
pub proof fn law_every_id_is_listed(ids: Seq<usize>, id: usize)
    ensures
        id_list(Seq::empty()) == seq!['[', ']'],
        id_list(seq![id]) == seq!['['] + decimal(id as nat) + seq![']'],
        ids.len() > 0 ==> id_list(ids.push(id)) == id_list(ids).drop_last() + seq![',', ' ']
            + decimal(id as nat) + seq![']'],
{
    reveal_strlit("[");
    reveal_strlit("]");
    reveal_strlit(", ");
    let f = |id: usize| decimal(id as nat);
    let none = Seq::<usize>::empty();
    let one = seq![id];
    let more = ids.push(id);
    assert("["@ =~= seq!['['] && "]"@ =~= seq![']'] && ", "@ =~= seq![',', ' ']);
    assert(none.map_values(f) =~= Seq::<Seq<char>>::empty());
    assert(id_list(none) =~= seq!['[', ']']);
    assert(one.map_values(f) =~= seq![decimal(id as nat)]);
    assert(join(one.map_values(f), ", "@) == decimal(id as nat));
    if ids.len() > 0 {
        let texts = ids.map_values(f);
        let longer = more.map_values(f);
        assert(longer =~= texts.push(decimal(id as nat)));
        assert(longer.drop_last() =~= texts);
        assert(join(longer, ", "@) == join(texts, ", "@) + ", "@ + decimal(id as nat));
        assert(id_list(ids).drop_last() =~= "["@ + join(texts, ", "@));
        assert(id_list(more) =~= id_list(ids).drop_last() + seq![',', ' '] + decimal(id as nat)
            + seq![']']);
    }
}

} // verus!
