//! Pareto frontier tracking for multi-objective candidate selection.
//!
//! The frontier maintains the set of *non-dominated* candidate indices given
//! a list of [`Objective`]s. A candidate `a` dominates `b` if `a` is no worse
//! than `b` on every objective and strictly better on at least one.
//!
//! Weighted scores and diversities are sums of products of doubles: the caller
//! computes them, and the choices between them are made here.

use vstd::prelude::*;
use vstd::string::*;

use crate::assoc::{find_key, lookup};
use crate::candidate::{Candidate, CandidateScores, ScoresModel};
use crate::measure::Measure;
use crate::text::{
    char_position, chars_of, find_char, matches_at, occurs_at, same_text, slice_of, split,
    split_chars, string_of, texts, trim, trim_chars,
};

verus! {

/// Whether an objective is to be maximised or minimised.
#[derive(Clone, Copy, Debug, PartialEq, Eq, Structural)]
pub enum Direction {
    Maximize,
    Minimize,
}

/// A single optimisation objective with a weight and extraction rule.
#[derive(Debug)]
pub struct Objective {
    pub name: String,
    pub direction: Direction,
    pub weight: Measure,
}

/// What an [`Objective`] says.
pub ghost struct ObjectiveModel {
    pub name: Seq<char>,
    pub direction: Direction,
    pub weight: Measure,
}

impl DeepView for Objective {
    type V = ObjectiveModel;

    open spec fn deep_view(&self) -> ObjectiveModel {
        ObjectiveModel { name: self.name@, direction: self.direction, weight: self.weight }
    }
}

impl Clone for Objective {
    fn clone(&self) -> (r: Self)
        ensures
            r.deep_view() == self.deep_view(),
    {
        Objective { name: self.name.clone(), direction: self.direction, weight: self.weight }
    }
}

/// The value of the objective `name` in some scores: `accuracy`, `tokens`,
/// `latency`, and `accuracy:<testset>` for the pass rate of a testset. Unknown
/// names and testsets have the value zero.
pub open spec fn extracted(name: Seq<char>, scores: ScoresModel) -> Measure {
    if name == "accuracy"@ {
        scores.test_pass_rate
    } else if name == "tokens"@ {
        scores.avg_total_tokens
    } else if name == "latency"@ {
        scores.avg_latency_ms
    } else if occurs_at(name, "accuracy:"@, 0) {
        match lookup(scores.per_testset_scores, name.skip("accuracy:"@.len() as int)) {
            Some(x) => x,
            None => Measure { bits: 0 },
        }
    } else {
        Measure { bits: 0 }
    }
}

impl Objective {
    /// An objective.
    pub fn new(name: &str, direction: Direction, weight: Measure) -> (r: Self)
        ensures
            r.deep_view() == (ObjectiveModel { name: name@, direction, weight }),
    {
        Objective { name: String::from_str(name), direction, weight }
    }

    /// Pulls this objective's scalar value out of a candidate's scores.
    pub fn extract(&self, scores: &CandidateScores) -> (r: Measure)
        ensures
            r == extracted(self.name@, scores.deep_view()),
    {
        let name = self.name.as_str();
        if same_text(name, "accuracy") {
            return scores.test_pass_rate;
        }
        if same_text(name, "tokens") {
            return scores.avg_total_tokens;
        }
        if same_text(name, "latency") {
            return scores.avg_latency_ms;
        }
        let chars = chars_of(name);
        let prefix = chars_of("accuracy:");
        if matches_at(&chars, &prefix, 0) {
            let testset = string_of(&chars, prefix.len(), chars.len());
            assert(testset@ =~= self.name@.skip("accuracy:"@.len() as int));
            return match find_key(&scores.per_testset_scores, testset.as_str()) {
                Some(i) => scores.per_testset_scores[i].1,
                None => Measure::zero(),
            };
        }
        Measure::zero()
    }
}

// ---------------------------------------------------------------------------
// Dominance
// ---------------------------------------------------------------------------

/// `a` is better than `b` on the objective.
pub open spec fn better(o: ObjectiveModel, a: ScoresModel, b: ScoresModel) -> bool {
    match o.direction {
        Direction::Maximize => extracted(o.name, b).below(extracted(o.name, a)),
        Direction::Minimize => extracted(o.name, a).below(extracted(o.name, b)),
    }
}

/// `a` dominates `b`: it is worse on no objective and better on at least one.
pub open spec fn dominates(
    objectives: Seq<ObjectiveModel>,
    a: ScoresModel,
    b: ScoresModel,
) -> bool {
    &&& forall|i: int| 0 <= i < objectives.len() ==> !better(#[trigger] objectives[i], b, a)
    &&& exists|i: int| 0 <= i < objectives.len() && better(#[trigger] objectives[i], a, b)
}

// ---------------------------------------------------------------------------
// The frontier
// ---------------------------------------------------------------------------

/// The scores of the candidates, where they have been evaluated.
pub open spec fn scores_of(candidates: Seq<Candidate>) -> Seq<Option<ScoresModel>> {
    candidates.map_values(|c: Candidate| c.scores.deep_view())
}

/// A member whose scores dominate `scores`.
pub open spec fn beats(
    objectives: Seq<ObjectiveModel>,
    known: Seq<Option<ScoresModel>>,
    member: usize,
    scores: ScoresModel,
) -> bool {
    match known[member as int] {
        Some(s) => dominates(objectives, s, scores),
        None => false,
    }
}

/// A member whose scores `scores` dominate.
pub open spec fn beaten(
    objectives: Seq<ObjectiveModel>,
    known: Seq<Option<ScoresModel>>,
    member: usize,
    scores: ScoresModel,
) -> bool {
    match known[member as int] {
        Some(s) => dominates(objectives, scores, s),
        None => false,
    }
}

/// The frontier after candidate `id` with `scores` was offered: unchanged
/// where a member dominates it; else without the members that it dominates,
/// and with it at the end.
pub open spec fn offered(
    frontier: Seq<usize>,
    objectives: Seq<ObjectiveModel>,
    known: Seq<Option<ScoresModel>>,
    id: usize,
    scores: ScoresModel,
) -> Seq<usize> {
    if exists|i: int|
        0 <= i < frontier.len() && beats(objectives, known, #[trigger] frontier[i], scores) {
        frontier
    } else {
        frontier.filter(|m: usize| !beaten(objectives, known, m, scores)).push(id)
    }
}

/// A summand of a weighted score.
#[derive(Clone, Copy, Debug, PartialEq, Eq, Structural)]
pub struct ScoreTerm {
    pub value: Measure,
    pub direction: Direction,
    pub weight: Measure,
}

/// Tracks non-dominated candidate indices under a set of objectives.
#[derive(Debug)]
pub struct ParetoFrontier {
    pub members: Vec<usize>,
    pub objectives: Vec<Objective>,
}

impl ParetoFrontier {
    /// Every member is the index of a candidate.
    pub open spec fn indexes(&self, candidates: Seq<Candidate>) -> bool {
        forall|i: int| 0 <= i < self.members@.len() ==> #[trigger] self.members@[i] < candidates.len()
    }

    /// An empty frontier.
    pub fn new(objectives: Vec<Objective>) -> (r: Self)
        ensures
            r.members@ == Seq::<usize>::empty(),
            r.objectives.deep_view() == objectives.deep_view(),
    {
        ParetoFrontier { members: Vec::new(), objectives }
    }

    /// Whether `a` dominates `b`.
    pub fn dominates(&self, a: &CandidateScores, b: &CandidateScores) -> (r: bool)
        ensures
            r == dominates(self.objectives.deep_view(), a.deep_view(), b.deep_view()),
    {
        let ghost models = self.objectives.deep_view();
        let mut strictly_better_once: bool = false;
        let mut k: usize = 0;
        while k < self.objectives.len()
            invariant
                k <= self.objectives.len(),
                models == self.objectives.deep_view(),
                forall|i: int|
                    0 <= i < k ==> !better(#[trigger] models[i], b.deep_view(), a.deep_view()),
                strictly_better_once == exists|i: int|
                    0 <= i < k && better(#[trigger] models[i], a.deep_view(), b.deep_view()),
            decreases self.objectives.len() - k,
        {
            let o = &self.objectives[k];
            let va: Measure = o.extract(a);
            let vb: Measure = o.extract(b);
            assert(models[k as int] == o.deep_view());
            let (is_better, is_worse) = match o.direction {
                Direction::Maximize => (vb.less_than(va), va.less_than(vb)),
                Direction::Minimize => (va.less_than(vb), vb.less_than(va)),
            };
            assert(is_worse == better(models[k as int], b.deep_view(), a.deep_view()));
            assert(is_better == better(models[k as int], a.deep_view(), b.deep_view()));
            if is_worse {
                return false;
            }
            if is_better {
                strictly_better_once = true;
            }
            k = k + 1;
        }
        strictly_better_once
    }

    /// Considers adding candidate `id` to the frontier. If it's dominated by a
    /// current frontier member, it's skipped. Frontier members that the new
    /// candidate dominates are removed.
    pub fn add(&mut self, id: usize, scores: &CandidateScores, candidates: &Vec<Candidate>)
        requires
            old(self).indexes(candidates@),
        ensures
            final(self).objectives == old(self).objectives,
            final(self).members@ == offered(
                old(self).members@,
                old(self).objectives.deep_view(),
                scores_of(candidates@),
                id,
                scores.deep_view(),
            ),
    {
        let ghost objectives = self.objectives.deep_view();
        let ghost known = scores_of(candidates@);
        let ghost new = scores.deep_view();
        let ghost frontier = self.members@;
        let mut i: usize = 0;
        while i < self.members.len()
            invariant
                i <= self.members.len(),
                *self == *old(self),
                self.indexes(candidates@),
                frontier == self.members@,
                objectives == self.objectives.deep_view(),
                known == scores_of(candidates@),
                new == scores.deep_view(),
                forall|j: int|
                    0 <= j < i ==> !beats(objectives, known, #[trigger] frontier[j], new),
            decreases self.members.len() - i,
        {
            let member: usize = self.members[i];
            assert(frontier[i as int] < candidates@.len());
            assert(known[member as int] == candidates@[member as int].scores.deep_view());
            match &candidates[member].scores {
                Some(s) => {
                    if self.dominates(s, scores) {
                        assert(beats(objectives, known, frontier[i as int], new));
                        return;
                    }
                },
                None => {},
            }
            i = i + 1;
        }
        let ghost keep = |m: usize| !beaten(objectives, known, m, new);
        let mut kept: Vec<usize> = Vec::new();
        let mut k: usize = 0;
        proof {
            assert(frontier.take(0) =~= Seq::<usize>::empty());
            reveal(Seq::filter);
            assert(frontier.take(0).filter(keep) =~= Seq::<usize>::empty());
        }
        while k < self.members.len()
            invariant
                k <= self.members.len(),
                *self == *old(self),
                self.indexes(candidates@),
                frontier == self.members@,
                objectives == self.objectives.deep_view(),
                known == scores_of(candidates@),
                new == scores.deep_view(),
                keep == (|m: usize| !beaten(objectives, known, m, new)),
                kept@ == frontier.take(k as int).filter(keep),
            decreases self.members.len() - k,
        {
            let member: usize = self.members[k];
            assert(frontier[k as int] < candidates@.len());
            assert(known[member as int] == candidates@[member as int].scores.deep_view());
            proof {
                reveal(Seq::filter);
                assert(frontier.take(k + 1).drop_last() =~= frontier.take(k as int));
                assert(frontier.take(k + 1).last() == member);
            }
            let stays = match &candidates[member].scores {
                Some(s) => !self.dominates(scores, s),
                None => true,
            };
            assert(stays == keep(member));
            if stays {
                kept.push(member);
            }
            k = k + 1;
        }
        proof {
            assert(frontier.take(frontier.len() as int) =~= frontier);
        }
        self.members = kept;
        self.members.push(id);
    }

    /// Current frontier indices.
    pub fn frontier(&self) -> (r: &Vec<usize>)
        ensures
            r@ == self.members@,
    {
        &self.members
    }

    /// What the weighted score of some scores is the sum over: for each
    /// objective its value, direction and weight.
    pub fn score_terms(&self, scores: &CandidateScores) -> (r: Vec<ScoreTerm>)
        ensures
            r@ == self.objectives.deep_view().map_values(
                |o: ObjectiveModel|
                    ScoreTerm {
                        value: extracted(o.name, scores.deep_view()),
                        direction: o.direction,
                        weight: o.weight,
                    },
            ),
    {
        let mut out: Vec<ScoreTerm> = Vec::new();
        let mut k: usize = 0;
        while k < self.objectives.len()
            invariant
                k <= self.objectives.len(),
                out@.len() == k,
                forall|j: int|
                    0 <= j < k ==> #[trigger] out@[j] == (ScoreTerm {
                        value: extracted(self.objectives@[j].name@, scores.deep_view()),
                        direction: self.objectives@[j].direction,
                        weight: self.objectives@[j].weight,
                    }),
            decreases self.objectives.len() - k,
        {
            let o = &self.objectives[k];
            out.push(
                ScoreTerm { value: o.extract(scores), direction: o.direction, weight: o.weight },
            );
            k = k + 1;
        }
        assert(out@ =~= self.objectives.deep_view().map_values(
            |o: ObjectiveModel|
                ScoreTerm {
                    value: extracted(o.name, scores.deep_view()),
                    direction: o.direction,
                    weight: o.weight,
                },
        ));
        out
    }

    /// What the diversity of two candidates is the sum over: for each
    /// objective the values of both.
    pub fn value_pairs(&self, a: &CandidateScores, b: &CandidateScores) -> (r: Vec<
        (Measure, Measure),
    >)
        ensures
            r@ == self.objectives.deep_view().map_values(
                |o: ObjectiveModel|
                    (extracted(o.name, a.deep_view()), extracted(o.name, b.deep_view())),
            ),
    {
        let mut out: Vec<(Measure, Measure)> = Vec::new();
        let mut k: usize = 0;
        while k < self.objectives.len()
            invariant
                k <= self.objectives.len(),
                out@.len() == k,
                forall|j: int|
                    0 <= j < k ==> #[trigger] out@[j] == (
                        extracted(self.objectives@[j].name@, a.deep_view()),
                        extracted(self.objectives@[j].name@, b.deep_view()),
                    ),
            decreases self.objectives.len() - k,
        {
            let o = &self.objectives[k];
            out.push((o.extract(a), o.extract(b)));
            k = k + 1;
        }
        assert(out@ =~= self.objectives.deep_view().map_values(
            |o: ObjectiveModel|
                (extracted(o.name, a.deep_view()), extracted(o.name, b.deep_view())),
        ));
        out
    }

    /// Picks the frontier member with the highest weighted score, the last of
    /// them: the parent for the next reflection step. `weighted` holds the
    /// weighted score of each member.
    pub fn select_for_reflection(&self, weighted: &Vec<Measure>) -> (r: Option<usize>)
        requires
            weighted@.len() == self.members@.len(),
        ensures
            r == if self.members@.len() == 0 {
                None
            } else {
                Some(self.members@[last_best(weighted@)])
            },
    {
        if self.members.len() == 0 {
            return None;
        }
        let mut best: usize = 0;
        let mut k: usize = 1;
        proof {
            assert(weighted@.take(1).len() == 1);
        }
        while k < self.members.len()
            invariant
                1 <= k <= self.members.len(),
                weighted@.len() == self.members@.len(),
                best < k,
                best == last_best(weighted@.take(k as int)),
            decreases self.members.len() - k,
        {
            proof {
                assert(weighted@.take(k + 1).drop_last() =~= weighted@.take(k as int));
                assert(weighted@.take(k + 1).last() == weighted@[k as int]);
            }
            if !weighted[k].less_than(weighted[best]) {
                best = k;
            }
            k = k + 1;
        }
        assert(weighted@.take(weighted@.len() as int) =~= weighted@);
        Some(self.members[best])
    }

    /// Picks the most diverse pair on the frontier: the parents of a merge.
    /// Returns `None` only when the frontier has fewer than two members; if
    /// no pair is more diverse than the first, the first pair is returned.
    /// `diversity[i][j]` is how far the members `i` and `j` are apart.
    pub fn select_for_merge(&self, diversity: &Vec<Vec<Measure>>) -> (r: Option<(usize, usize)>)
        requires
            diversity@.len() == self.members@.len(),
            forall|i: int|
                0 <= i < diversity@.len() ==> (#[trigger] diversity@[i])@.len()
                    == self.members@.len(),
        ensures
            r == if self.members@.len() < 2 {
                None
            } else {
                let (i, j) = most_diverse(table(diversity@), self.members@.len() as int);
                Some((self.members@[i], self.members@[j]))
            },
    {
        let n: usize = self.members.len();
        if n < 2 {
            return None;
        }
        let ghost d = table(diversity@);
        let mut a: usize = 0;
        let mut b: usize = 1;
        let mut i: usize = 0;
        while i < n
            invariant
                n == self.members@.len(),
                n >= 2,
                i <= n,
                a < b < n,
                d == table(diversity@),
                diversity@.len() == n,
                forall|x: int| 0 <= x < diversity@.len() ==> (#[trigger] diversity@[x])@.len() == n,
                (a as int, b as int) == over_rows(d, n as int, i as int),
            decreases n - i,
        {
            let mut j: usize = i + 1;
            let ghost start = over_rows(d, n as int, i as int);
            while j < n
                invariant
                    n == self.members@.len(),
                    i < n,
                    i < j <= n,
                    a < b < n,
                    d == table(diversity@),
                    diversity@.len() == n,
                    forall|x: int|
                        0 <= x < diversity@.len() ==> (#[trigger] diversity@[x])@.len() == n,
                    (a as int, b as int) == over_row(d, i as int, j as int, start),
                decreases n - j,
            {
                assert(diversity@[i as int]@.len() == n);
                assert(diversity@[a as int]@.len() == n);
                if diversity[a][b].less_than(diversity[i][j]) {
                    a = i;
                    b = j;
                }
                j = j + 1;
            }
            i = i + 1;
        }
        Some((self.members[a], self.members[b]))
    }
}

// ---------------------------------------------------------------------------
// Choices
// ---------------------------------------------------------------------------

/// Where the greatest of the measures stands, the last of them: each measure
/// takes the lead unless it is below the one that has it.
pub open spec fn last_best(weighted: Seq<Measure>) -> int
    decreases weighted.len(),
{
    if weighted.len() <= 1 {
        0
    } else {
        let best = last_best(weighted.drop_last());
        if weighted.last().below(weighted[best]) {
            best
        } else {
            weighted.len() - 1
        }
    }
}

/// A square of measures as a function of row and column.
pub open spec fn table(rows: Seq<Vec<Measure>>) -> spec_fn(int, int) -> Measure {
    |i: int, j: int| rows[i]@[j]
}

/// The leading pair after row `i` was looked through up to column `j`: a pair
/// takes the lead if it is more diverse than the one that has it.
pub open spec fn over_row(
    d: spec_fn(int, int) -> Measure,
    i: int,
    j: int,
    start: (int, int),
) -> (int, int)
    decreases j,
{
    if j <= i + 1 || j <= 0 {
        start
    } else {
        let (a, b) = over_row(d, i, j - 1, start);
        if d(a, b).below(d(i, j - 1)) {
            (i, j - 1)
        } else {
            (a, b)
        }
    }
}

/// The leading pair after the first `i` rows of `n`, which starts as the first
/// pair.
pub open spec fn over_rows(d: spec_fn(int, int) -> Measure, n: int, i: int) -> (int, int)
    decreases i,
{
    if i <= 0 {
        (0, 1)
    } else {
        over_row(d, i - 1, n, over_rows(d, n, i - 1))
    }
}

/// The pair that leads in the end.
pub open spec fn most_diverse(d: spec_fn(int, int) -> Measure, n: int) -> (int, int) {
    over_rows(d, n, n)
}

// ---------------------------------------------------------------------------
// Objectives from text
// ---------------------------------------------------------------------------

/// A part `name=weight` of an objective list, with the weight as it is written.
#[derive(Debug)]
pub struct ObjectivePart {
    pub name: String,
    pub weight_text: String,
}

impl DeepView for ObjectivePart {
    type V = (Seq<char>, Seq<char>);

    open spec fn deep_view(&self) -> (Seq<char>, Seq<char>) {
        (self.name@, self.weight_text@)
    }
}

/// The name and the weight of a part: what stands before and behind its first
/// `=`, without white space around; none without a `=`.
pub open spec fn objective_part(part: Seq<char>) -> Option<(Seq<char>, Seq<char>)> {
    let text = trim(part);
    match char_position(text, '=') {
        Some(i) => Some((trim(text.take(i)), trim(text.skip(i + 1)))),
        None => None,
    }
}

/// The names and weights of those parts that have a `=`.
pub open spec fn parts_of(parts: Seq<Seq<char>>) -> Seq<(Seq<char>, Seq<char>)>
    decreases parts.len(),
{
    if parts.len() == 0 {
        Seq::empty()
    } else {
        match objective_part(parts.last()) {
            Some(part) => parts_of(parts.drop_last()).push(part),
            None => parts_of(parts.drop_last()),
        }
    }
}

/// Takes an objective list apart at its commas. The weights are for the caller
/// to read.
pub fn objective_parts(weights_str: &str) -> (r: Vec<ObjectivePart>)
    ensures
        r.deep_view() == parts_of(split(weights_str@, ',')),
{
    let parts = split_chars(&chars_of(weights_str), ',');
    let ghost all = texts(parts@);
    let mut out: Vec<ObjectivePart> = Vec::new();
    let mut k: usize = 0;
    proof {
        assert(all.take(0) =~= Seq::<Seq<char>>::empty());
        assert(out.deep_view() =~= Seq::<(Seq<char>, Seq<char>)>::empty());
    }
    while k < parts.len()
        invariant
            k <= parts.len(),
            all == texts(parts@),
            out.deep_view() == parts_of(all.take(k as int)),
        decreases parts.len() - k,
    {
        let text = trim_chars(&parts[k]);
        let ghost before = out.deep_view();
        proof {
            assert(all.take(k + 1).drop_last() =~= all.take(k as int));
            assert(all.take(k + 1).last() == parts@[k as int]@);
        }
        match find_char(&text, '=') {
            Some(i) => {
                let name = trim_chars(&slice_of(&text, 0, i));
                let weight = trim_chars(&slice_of(&text, i + 1, text.len()));
                let part = ObjectivePart {
                    name: string_of(&name, 0, name.len()),
                    weight_text: string_of(&weight, 0, weight.len()),
                };
                proof {
                    assert(text@.subrange(0, i as int) =~= text@.take(i as int));
                    assert(text@.subrange(i + 1, text@.len() as int) =~= text@.skip(i + 1));
                    assert(part.name@ =~= name@);
                    assert(part.weight_text@ =~= weight@);
                }
                out.push(part);
                assert(out.deep_view() =~= before.push(part.deep_view()));
            },
            None => {},
        }
        k = k + 1;
    }
    assert(all.take(all.len() as int) =~= all);
    out
}

/// `tokens` and `latency` are minimised, everything else is maximised.
pub open spec fn default_direction(name: Seq<char>) -> Direction {
    if name == "tokens"@ || name == "latency"@ {
        Direction::Minimize
    } else {
        Direction::Maximize
    }
}

/// The objectives of some parts with the weights that could be read; a part
/// whose weight could not be read, or without a name, is left out.
pub open spec fn objectives_of(
    parts: Seq<(Seq<char>, Seq<char>)>,
    weights: Seq<Option<Measure>>,
) -> Seq<ObjectiveModel>
    decreases parts.len(),
{
    if parts.len() == 0 {
        Seq::empty()
    } else {
        let front = objectives_of(parts.drop_last(), weights);
        let name = parts.last().0;
        match weights[parts.len() - 1] {
            Some(weight) => if name.len() == 0 {
                front
            } else {
                front.push(ObjectiveModel { name, direction: default_direction(name), weight })
            },
            None => front,
        }
    }
}

/// Parses objective-weight strings like `"accuracy=0.8,tokens=0.2"` or
/// `"accuracy:testset_a=0.5,latency=0.3"`. `weights` holds what each of the
/// [`objective_parts`] has as its weight, none where that is not a number.
pub fn parse_objectives(weights_str: &str, weights: &Vec<Option<Measure>>) -> (r: Vec<Objective>)
    requires
        weights@.len() == parts_of(split(weights_str@, ',')).len(),
    ensures
        r.deep_view() == objectives_of(parts_of(split(weights_str@, ',')), weights@),
{
    let parts = objective_parts(weights_str);
    let ghost all = parts.deep_view();
    let mut out: Vec<Objective> = Vec::new();
    let mut k: usize = 0;
    proof {
        assert(all.take(0) =~= Seq::<(Seq<char>, Seq<char>)>::empty());
        assert(out.deep_view() =~= Seq::<ObjectiveModel>::empty());
    }
    while k < parts.len()
        invariant
            k <= parts.len(),
            all == parts.deep_view(),
            weights@.len() == parts@.len(),
            out.deep_view() == objectives_of(all.take(k as int), weights@),
        decreases parts.len() - k,
    {
        let name = parts[k].name.as_str();
        let ghost before = out.deep_view();
        proof {
            assert(all.take(k + 1).drop_last() =~= all.take(k as int));
            assert(all.take(k + 1).last() == parts@[k as int].deep_view());
        }
        match weights[k] {
            Some(weight) => {
                if !same_text(name, "") {
                    proof {
                        reveal_strlit("");
                        assert(name@.len() > 0) by {
                            if name@.len() == 0 {
                                assert(name@ =~= ""@);
                            }
                        }
                    }
                    let direction = if same_text(name, "tokens") || same_text(name, "latency") {
                        Direction::Minimize
                    } else {
                        Direction::Maximize
                    };
                    let objective = Objective::new(name, direction, weight);
                    out.push(objective);
                    assert(out.deep_view() =~= before.push(objective.deep_view()));
                } else {
                    proof {
                        reveal_strlit("");
                    }
                }
            },
            None => {},
        }
        k = k + 1;
    }
    assert(all.take(all.len() as int) =~= all);
    out
}

} // verus!
