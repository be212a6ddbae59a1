//! What holds of dominance, of the frontier and of the choices from it.

use vstd::prelude::*;

use crate::assoc::lookup;
use crate::candidate::{Candidate, ScoresModel};
use crate::measure::Measure;
use crate::pareto::{
    beaten, beats, better, dominates, extracted, last_best, most_diverse, offered, over_row,
    over_rows, scores_of, table, Direction, ObjectiveModel,
};

verus! {

// ---------------------------------------------------------------------------
// Dominance
// ---------------------------------------------------------------------------

/// The scores have a number for every objective.
pub open spec fn measured(objectives: Seq<ObjectiveModel>, scores: ScoresModel) -> bool {
    forall|i: int|
        0 <= i < objectives.len() ==> !extracted((#[trigger] objectives[i]).name, scores).nan()
}

/// Dominance is irreflexive and asymmetric.
pub proof fn law_dominance_is_asymmetric(
    objectives: Seq<ObjectiveModel>,
    a: ScoresModel,
    b: ScoresModel,
)
    ensures
        !dominates(objectives, a, a),
        dominates(objectives, a, b) ==> !dominates(objectives, b, a),
{
    if dominates(objectives, a, a) {
        let i = choose|i: int| 0 <= i < objectives.len() && better(#[trigger] objectives[i], a, a);
        assert(!better(objectives[i], a, a));
    }
    if dominates(objectives, a, b) && dominates(objectives, b, a) {
        let i = choose|i: int| 0 <= i < objectives.len() && better(#[trigger] objectives[i], a, b);
        assert(!better(objectives[i], a, b));
    }
}

/// Dominance is transitive among scores that are numbers.
pub proof fn law_dominance_is_transitive(
    objectives: Seq<ObjectiveModel>,
    a: ScoresModel,
    b: ScoresModel,
    c: ScoresModel,
)
    requires
        measured(objectives, a),
        measured(objectives, b),
        measured(objectives, c),
        dominates(objectives, a, b),
        dominates(objectives, b, c),
    ensures
        dominates(objectives, a, c),
{
    assert forall|i: int| 0 <= i < objectives.len() implies !better(
        #[trigger] objectives[i],
        c,
        a,
    ) by {
        assert(!better(objectives[i], b, a));
        assert(!better(objectives[i], c, b));
        assert(!extracted(objectives[i].name, b).nan());
    }
    let i = choose|i: int| 0 <= i < objectives.len() && better(#[trigger] objectives[i], a, b);
    assert(!better(objectives[i], c, b));
    assert(!extracted(objectives[i].name, c).nan());
    assert(better(objectives[i], a, c));
}

// ---------------------------------------------------------------------------
// The frontier
// ---------------------------------------------------------------------------

/// Every candidate among `ids` has scores that are numbers.
pub open spec fn all_measured(
    objectives: Seq<ObjectiveModel>,
    known: Seq<Option<ScoresModel>>,
    ids: Seq<usize>,
) -> bool {
    forall|i: int|
        0 <= i < ids.len() ==> (known[#[trigger] ids[i] as int] matches Some(s) && measured(
            objectives,
            s,
        ))
}

/// Candidate `a` dominates candidate `b`.
pub open spec fn outranks(
    objectives: Seq<ObjectiveModel>,
    known: Seq<Option<ScoresModel>>,
    a: usize,
    b: usize,
) -> bool {
    match (known[a as int], known[b as int]) {
        (Some(s), Some(t)) => dominates(objectives, s, t),
        _ => false,
    }
}

/// `frontier` is made of candidates among `ids`, none of which dominates
/// another or occurs twice, and every other candidate among `ids` is dominated
/// by one of them.
pub open spec fn frontier_of(
    frontier: Seq<usize>,
    objectives: Seq<ObjectiveModel>,
    known: Seq<Option<ScoresModel>>,
    ids: Seq<usize>,
) -> bool {
    &&& frontier.no_duplicates()
    &&& forall|m: usize| #[trigger] frontier.contains(m) ==> ids.contains(m)
    &&& forall|m: usize, n: usize|
        frontier.contains(m) && frontier.contains(n) ==> !#[trigger] outranks(
            objectives,
            known,
            m,
            n,
        )
    &&& forall|c: usize| #[trigger]
        ids.contains(c) && !frontier.contains(c) ==> exists|m: usize|
            frontier.contains(m) && #[trigger] outranks(objectives, known, m, c)
}

/// A frontier is exactly the candidates that no candidate dominates.
pub proof fn law_frontier_is_non_dominated(
    frontier: Seq<usize>,
    objectives: Seq<ObjectiveModel>,
    known: Seq<Option<ScoresModel>>,
    ids: Seq<usize>,
    id: usize,
)
    requires
        frontier_of(frontier, objectives, known, ids),
        all_measured(objectives, known, ids),
        ids.contains(id),
    ensures
        frontier.contains(id) <==> forall|c: usize|
            ids.contains(c) ==> !#[trigger] outranks(objectives, known, c, id),
{
    if frontier.contains(id) {
        assert forall|c: usize| ids.contains(c) implies !#[trigger] outranks(
            objectives,
            known,
            c,
            id,
        ) by {
            if outranks(objectives, known, c, id) && !frontier.contains(c) {
                let m = choose|m: usize|
                    frontier.contains(m) && #[trigger] outranks(objectives, known, m, c);
                lemma_outranks_trans(objectives, known, ids, m, c, id);
            }
        }
    }
}

proof fn lemma_outranks_trans(
    objectives: Seq<ObjectiveModel>,
    known: Seq<Option<ScoresModel>>,
    ids: Seq<usize>,
    a: usize,
    b: usize,
    c: usize,
)
    requires
        all_measured(objectives, known, ids),
        ids.contains(a),
        ids.contains(b),
        ids.contains(c),
        outranks(objectives, known, a, b),
        outranks(objectives, known, b, c),
    ensures
        outranks(objectives, known, a, c),
{
    let i = choose|i: int| 0 <= i < ids.len() && ids[i] == a;
    let j = choose|j: int| 0 <= j < ids.len() && ids[j] == b;
    let k = choose|k: int| 0 <= k < ids.len() && ids[k] == c;
    assert(known[ids[i] as int] is Some);
    assert(known[ids[j] as int] is Some);
    assert(known[ids[k] as int] is Some);
    law_dominance_is_transitive(
        objectives,
        known[a as int]->0,
        known[b as int]->0,
        known[c as int]->0,
    );
}

/// Offering one more candidate keeps the frontier a frontier, of one candidate
/// more.
pub proof fn law_offering_keeps_frontier(
    frontier: Seq<usize>,
    objectives: Seq<ObjectiveModel>,
    known: Seq<Option<ScoresModel>>,
    ids: Seq<usize>,
    id: usize,
    scores: ScoresModel,
)
    requires
        frontier_of(frontier, objectives, known, ids),
        all_measured(objectives, known, ids.push(id)),
        known[id as int] == Some(scores),
        !ids.contains(id),
    ensures
        frontier_of(
            offered(frontier, objectives, known, id, scores),
            objectives,
            known,
            ids.push(id),
        ),
{
    let after = offered(frontier, objectives, known, id, scores);
    let more = ids.push(id);
    assert forall|c: usize| #[trigger] more.contains(c) <==> ids.contains(c) || c == id by {
        if ids.contains(c) {
            let i = choose|i: int| 0 <= i < ids.len() && ids[i] == c;
            assert(more[i] == c);
        }
        assert(more[ids.len() as int] == id);
    }
    if exists|i: int|
        0 <= i < frontier.len() && beats(objectives, known, #[trigger] frontier[i], scores) {
        let i = choose|i: int|
            0 <= i < frontier.len() && beats(objectives, known, #[trigger] frontier[i], scores);
        let m = frontier[i];
        assert(frontier.contains(m));
        assert(outranks(objectives, known, m, id));
    } else {
        let keep = |m: usize| !beaten(objectives, known, m, scores);
        let kept = frontier.filter(keep);
        assert(after == kept.push(id));
        lemma_filter(frontier, keep);
        assert forall|c: usize| #[trigger] after.contains(c) <==> kept.contains(c) || c == id by {
            if kept.contains(c) {
                let i = choose|i: int| 0 <= i < kept.len() && kept[i] == c;
                assert(after[i] == c);
            }
            assert(after[kept.len() as int] == id);
        }
        assert(!kept.contains(id));
        assert(after.no_duplicates()) by {
            assert forall|i: int, j: int|
                0 <= i < after.len() && 0 <= j < after.len() && i != j implies after[i]
                != after[j] by {
                if i == kept.len() {
                    assert(kept.contains(kept[j]));
                } else if j == kept.len() {
                    assert(kept.contains(kept[i]));
                }
            }
        }
        assert forall|m: usize, n: usize|
            after.contains(m) && after.contains(n) implies !#[trigger] outranks(
            objectives,
            known,
            m,
            n,
        ) by {
            law_dominance_is_asymmetric(objectives, scores, scores);
            if m == id && n != id {
                assert(keep(n));
            } else if n == id && m != id {
                assert(frontier.contains(m));
                let i = choose|i: int| 0 <= i < frontier.len() && frontier[i] == m;
                assert(!beats(objectives, known, frontier[i], scores));
            }
        }
        assert forall|c: usize| #[trigger]
            more.contains(c) && !after.contains(c) implies exists|m: usize|
            after.contains(m) && #[trigger] outranks(objectives, known, m, c) by {
            if frontier.contains(c) {
                assert(!keep(c));
                assert(outranks(objectives, known, id, c));
                assert(after.contains(id));
            } else {
                let m = choose|m: usize|
                    frontier.contains(m) && #[trigger] outranks(objectives, known, m, c);
                if keep(m) {
                    assert(after.contains(m));
                } else {
                    assert(outranks(objectives, known, id, m));
                    lemma_outranks_trans(objectives, known, more, id, m, c);
                    assert(after.contains(id));
                }
            }
        }
    }
}

/// What is left of distinct things: those that are to be kept, distinct still.
pub proof fn lemma_filter(s: Seq<usize>, keep: spec_fn(usize) -> bool)
    ensures
        forall|x: usize| #[trigger] s.filter(keep).contains(x) <==> s.contains(x) && keep(x),
        s.no_duplicates() ==> s.filter(keep).no_duplicates(),
    decreases s.len(),
{
    reveal(Seq::filter);
    if s.len() > 0 {
        let front = s.drop_last();
        let last = s.last();
        lemma_filter(front, keep);
        let before = front.filter(keep);
        let kept = s.filter(keep);
        assert forall|x: usize| s.contains(x) <==> front.contains(x) || x == last by {
            if front.contains(x) {
                let i = choose|i: int| 0 <= i < front.len() && front[i] == x;
                assert(s[i] == x);
            }
            assert(s[s.len() - 1] == last);
            if s.contains(x) && x != last {
                let i = choose|i: int| 0 <= i < s.len() && s[i] == x;
                assert(front[i] == x);
            }
        }
        assert forall|x: usize| #[trigger] kept.contains(x) <==> before.contains(x) || (keep(last)
            && x == last) by {
            if before.contains(x) {
                let i = choose|i: int| 0 <= i < before.len() && before[i] == x;
                assert(kept[i] == x);
            }
            if keep(last) {
                assert(kept[before.len() as int] == last);
            }
        }
        if s.no_duplicates() {
            assert(front.no_duplicates());
            if keep(last) {
                assert(!front.contains(last)) by {
                    if front.contains(last) {
                        let i = choose|i: int| 0 <= i < front.len() && front[i] == last;
                        assert(s[i] == s[s.len() - 1]);
                    }
                }
                assert forall|i: int, j: int|
                    0 <= i < kept.len() && 0 <= j < kept.len() && i != j implies kept[i]
                    != kept[j] by {
                    if i == before.len() {
                        assert(before.contains(before[j]));
                    } else if j == before.len() {
                        assert(before.contains(before[i]));
                    }
                }
            }
        }
    }
}

// ---------------------------------------------------------------------------
// Choices
// ---------------------------------------------------------------------------

/// The member chosen for reflection has the highest weighted score, and of
/// those the last place, as long as every weighted score is a number.
pub proof fn law_reflection_choice_is_best(weighted: Seq<Measure>)
    requires
        weighted.len() > 0,
        forall|i: int| 0 <= i < weighted.len() ==> !(#[trigger] weighted[i]).nan(),
    ensures
        0 <= last_best(weighted) < weighted.len(),
        forall|i: int|
            0 <= i < weighted.len() ==> !weighted[last_best(weighted)].below(
                #[trigger] weighted[i],
            ),
        forall|i: int|
            last_best(weighted) < i < weighted.len() ==> (#[trigger] weighted[i]).below(
                weighted[last_best(weighted)],
            ),
    decreases weighted.len(),
{
    if weighted.len() > 1 {
        let front = weighted.drop_last();
        assert forall|i: int| 0 <= i < front.len() implies !(#[trigger] front[i]).nan() by {
            assert(front[i] == weighted[i]);
        }
        law_reflection_choice_is_best(front);
        let best = last_best(front);
        assert(front[best] == weighted[best]);
        assert(!weighted[weighted.len() - 1].nan());
        assert forall|i: int| 0 <= i < weighted.len() implies !weighted[last_best(weighted)].below(
            #[trigger] weighted[i],
        ) by {
            if i < front.len() {
                assert(front[i] == weighted[i]);
                assert(!front[best].below(front[i]));
            }
        }
        assert forall|i: int| last_best(weighted) < i < weighted.len() implies (
        #[trigger] weighted[i]).below(weighted[last_best(weighted)]) by {
            if i < front.len() {
                assert(front[i] == weighted[i]);
            }
        }
    }
}

spec fn numbers(d: spec_fn(int, int) -> Measure, n: int) -> bool {
    forall|i: int, j: int| 0 <= i < j < n ==> !(#[trigger] d(i, j)).nan()
}

/// The pair chosen for a merge is a pair of two members, no pair is more
/// diverse, and every pair that stands before it, in the order of the first and
/// then of the second member, is less diverse, as long as every diversity is a
/// number.
pub proof fn law_merge_choice_is_most_diverse(d: spec_fn(int, int) -> Measure, n: int)
    requires
        n >= 2,
        forall|i: int, j: int| 0 <= i < j < n ==> !(#[trigger] d(i, j)).nan(),
    ensures
        0 <= most_diverse(d, n).0 < most_diverse(d, n).1 < n,
        forall|i: int, j: int|
            0 <= i < j < n ==> !d(most_diverse(d, n).0, most_diverse(d, n).1).below(
                #[trigger] d(i, j),
            ),
        forall|i: int, j: int|
            0 <= i < j < n && stands_before((i, j), most_diverse(d, n)) ==> (#[trigger] d(
                i,
                j,
            )).below(d(most_diverse(d, n).0, most_diverse(d, n).1)),
{
    lemma_over_rows(d, n, n);
}

/// A pair stands before another, in the order of the first and then of the
/// second member.
pub open spec fn stands_before(p: (int, int), q: (int, int)) -> bool {
    p.0 < q.0 || (p.0 == q.0 && p.1 < q.1)
}

proof fn lemma_over_row(
    d: spec_fn(int, int) -> Measure,
    n: int,
    i: int,
    j: int,
    start: (int, int),
)
    requires
        numbers(d, n),
        0 <= i < n,
        j <= n,
        0 <= start.0 < start.1 < n,
    ensures
        ({
            let (a, b) = over_row(d, i, j, start);
            &&& 0 <= a < b < n
            &&& !d(a, b).below(d(start.0, start.1))
            &&& forall|y: int| i < y < j ==> !d(a, b).below(#[trigger] d(i, y))
            &&& (a, b) == start || (a == i && i < b < j && d(start.0, start.1).below(d(a, b))
                && forall|y: int| i < y < b ==> (#[trigger] d(i, y)).below(d(a, b)))
        }),
    decreases j,
{
    assert(!d(start.0, start.1).nan());
    if j > i + 1 {
        lemma_over_row(d, n, i, j - 1, start);
        let (a, b) = over_row(d, i, j - 1, start);
        assert(!d(a, b).nan());
        assert(!d(i, j - 1).nan());
        let (x, z) = over_row(d, i, j, start);
        assert forall|y: int| i < y < j implies !d(x, z).below(#[trigger] d(i, y)) by {
            assert(!d(i, y).nan());
            if y < j - 1 {
                assert(!d(a, b).below(d(i, y)));
            }
        }
    }
}

proof fn lemma_over_rows(d: spec_fn(int, int) -> Measure, n: int, i: int)
    requires
        numbers(d, n),
        n >= 2,
        0 <= i <= n,
    ensures
        ({
            let (a, b) = over_rows(d, n, i);
            &&& 0 <= a < b < n
            &&& forall|x: int, y: int|
                0 <= x < i && x < y < n ==> !d(a, b).below(#[trigger] d(x, y))
            &&& forall|x: int, y: int|
                0 <= x < y < n && stands_before((x, y), (a, b)) ==> (#[trigger] d(x, y)).below(
                    d(a, b),
                )
        }),
    decreases i,
{
    if i > 0 {
        lemma_over_rows(d, n, i - 1);
        let start = over_rows(d, n, i - 1);
        lemma_over_row(d, n, i - 1, n, start);
        let (a, b) = over_rows(d, n, i);
        assert(!d(a, b).nan());
        assert(!d(start.0, start.1).nan());
        assert forall|x: int, y: int| 0 <= x < i && x < y < n implies !d(a, b).below(
            #[trigger] d(x, y),
        ) by {
            assert(!d(x, y).nan());
            if x < i - 1 {
                assert(!d(start.0, start.1).below(d(x, y)));
            }
        }
    }
}

/// On one objective, `x` is as good a value as `y`.
pub open spec fn as_good(direction: Direction, x: Measure, y: Measure) -> bool {
    match direction {
        Direction::Maximize => x.rank() >= y.rank(),
        Direction::Minimize => x.rank() <= y.rank(),
    }
}

/// Scores dominate others exactly if they are as good on every objective and the
/// others are not as good on some objective.
pub proof fn law_dominance_is_as_good_everywhere_and_better_somewhere(
    objectives: Seq<ObjectiveModel>,
    a: ScoresModel,
    b: ScoresModel,
)
    requires
        measured(objectives, a),
        measured(objectives, b),
    ensures
        dominates(objectives, a, b) <==> (forall|i: int|
            0 <= i < objectives.len() ==> as_good(
                (#[trigger] objectives[i]).direction,
                extracted(objectives[i].name, a),
                extracted(objectives[i].name, b),
            )) && (exists|i: int|
            0 <= i < objectives.len() && !as_good(
                (#[trigger] objectives[i]).direction,
                extracted(objectives[i].name, b),
                extracted(objectives[i].name, a),
            )),
{
    assert forall|i: int| 0 <= i < objectives.len() implies better(#[trigger] objectives[i], a, b)
        == !as_good(
        objectives[i].direction,
        extracted(objectives[i].name, b),
        extracted(objectives[i].name, a),
    ) && better(objectives[i], b, a) == !as_good(
        objectives[i].direction,
        extracted(objectives[i].name, a),
        extracted(objectives[i].name, b),
    ) by {}
    if dominates(objectives, a, b) {
        let i = choose|i: int| 0 <= i < objectives.len() && better(#[trigger] objectives[i], a, b);
        assert(!as_good(
            objectives[i].direction,
            extracted(objectives[i].name, b),
            extracted(objectives[i].name, a),
        ));
        assert forall|i: int| 0 <= i < objectives.len() implies as_good(
            (#[trigger] objectives[i]).direction,
            extracted(objectives[i].name, a),
            extracted(objectives[i].name, b),
        ) by {
            assert(!better(objectives[i], b, a));
        }
    }
}

/// Each objective reads its own score: `accuracy` the pass rate, `tokens` and
/// `latency` the averages, and `accuracy:` with the name of a testset the pass
/// rate of that testset.
pub proof fn law_objectives_read_their_scores(scores: ScoresModel, testset: Seq<char>)
    ensures
        extracted("accuracy"@, scores) == scores.test_pass_rate,
        extracted("tokens"@, scores) == scores.avg_total_tokens,
        extracted("latency"@, scores) == scores.avg_latency_ms,
        extracted("accuracy:"@ + testset, scores) == match lookup(
            scores.per_testset_scores,
            testset,
        ) {
            Some(rate) => rate,
            None => Measure { bits: 0 },
        },
{
    reveal_strlit("accuracy");
    reveal_strlit("tokens");
    reveal_strlit("latency");
    reveal_strlit("accuracy:");
    let name = "accuracy:"@ + testset;
    let n = "accuracy:"@.len() as int;
    assert("accuracy"@.len() == 8 && "tokens"@.len() == 6 && "latency"@.len() == 7);
    assert("tokens"@[0] != "accuracy"@[0]);
    assert("latency"@[0] != "accuracy"@[0]);
    assert("latency"@[0] != "tokens"@[0]);
    assert(name.subrange(0, n) =~= "accuracy:"@);
    assert(name.skip(n) =~= testset);
    assert(name.len() > 8);
}

/// Offering a candidate leaves the members that stay in their order, with the
/// candidate behind them.
pub proof fn law_offering_keeps_the_order(
    frontier: Seq<usize>,
    objectives: Seq<ObjectiveModel>,
    known: Seq<Option<ScoresModel>>,
    id: usize,
    scores: ScoresModel,
)
    ensures
        offered(frontier, objectives, known, id, scores) == frontier || exists|
            keep: spec_fn(usize) -> bool,
        |
            offered(frontier, objectives, known, id, scores) == #[trigger] frontier.filter(
                keep,
            ).push(id),
{
    let keep = |m: usize| !beaten(objectives, known, m, scores);
    assert(offered(frontier, objectives, known, id, scores) == frontier || offered(
        frontier,
        objectives,
        known,
        id,
        scores,
    ) == frontier.filter(keep).push(id));
}

/// The diversity of two members stands in the row of the first, at the second,
/// and what is known of a candidate are its own scores.
pub proof fn law_rows_and_scores_are_those_given(
    rows: Seq<Vec<Measure>>,
    candidates: Seq<Candidate>,
    i: int,
    j: int,
)
    ensures
        table(rows)(i, j) == rows[i]@[j],
        scores_of(candidates).len() == candidates.len(),
        0 <= i < candidates.len() ==> scores_of(candidates)[i] == candidates[i].scores.deep_view(),
{
}

} // verus!
