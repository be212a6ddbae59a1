use baml_optimize::candidate::{Candidate, CandidateMethod, CandidateScores, OptimizableFunction};
use baml_optimize::measure::Measure;
use baml_optimize::pareto::{
    objective_parts, parse_objectives, Direction, Objective, ParetoFrontier,
};

fn measure(x: f64) -> Measure {
    Measure::from_bits(x.to_bits())
}

fn number(m: Measure) -> f64 {
    f64::from_bits(m.bits)
}

fn parse(text: &str) -> Vec<Objective> {
    let weights: Vec<Option<Measure>> = objective_parts(text)
        .iter()
        .map(|p| p.weight_text.parse::<f64>().ok().map(measure))
        .collect();
    parse_objectives(text, &weights)
}

fn weighted(frontier: &ParetoFrontier, candidates: &Vec<Candidate>) -> Vec<Measure> {
    frontier
        .frontier()
        .iter()
        .map(|id| {
            let terms = frontier.score_terms(candidates[*id].scores.as_ref().unwrap());
            measure(
                terms
                    .iter()
                    .map(|t| match t.direction {
                        Direction::Maximize => number(t.value) * number(t.weight),
                        Direction::Minimize => 1.0 / (1.0 + number(t.value)) * number(t.weight),
                    })
                    .sum(),
            )
        })
        .collect()
}

fn diversity(frontier: &ParetoFrontier, candidates: &Vec<Candidate>) -> Vec<Vec<Measure>> {
    let score = |id: &usize| candidates[*id].scores.as_ref().unwrap();
    frontier
        .frontier()
        .iter()
        .map(|a| {
            frontier
                .frontier()
                .iter()
                .map(|b| {
                    let pairs = frontier.value_pairs(score(a), score(b));
                    measure(pairs.iter().map(|p| (number(p.0) - number(p.1)).abs()).sum())
                })
                .collect()
        })
        .collect()
}

fn candidate_with_scores(id: usize, scores: CandidateScores) -> Candidate {
    Candidate {
        id,
        iteration: 0,
        parent_ids: vec![],
        method: CandidateMethod::Initial,
        function: OptimizableFunction {
            function_name: "F".into(),
            prompt_text: String::new(),
            classes: vec![],
            enums: vec![],
            function_source: None,
        },
        scores: Some(scores),
        rationale: None,
    }
}

fn scores(accuracy: f64, tokens: f64, latency: f64) -> CandidateScores {
    CandidateScores {
        test_pass_rate: measure(accuracy),
        tests_passed: 0,
        tests_total: 0,
        avg_prompt_tokens: measure(tokens),
        avg_completion_tokens: measure(0.0),
        avg_total_tokens: measure(tokens + 0.0),
        avg_latency_ms: measure(latency),
        per_testset_scores: vec![],
    }
}

#[test]
fn parse_objectives_defaults_direction_by_name() {
    let objs = parse("accuracy=0.8,tokens=0.2");
    assert_eq!(objs.len(), 2);
    assert_eq!(objs[0].name, "accuracy");
    assert_eq!(objs[0].direction, Direction::Maximize);
    assert!((number(objs[0].weight) - 0.8).abs() < 1e-9);
    assert_eq!(objs[1].name, "tokens");
    assert_eq!(objs[1].direction, Direction::Minimize);
}

#[test]
fn parse_objectives_handles_per_testset_names() {
    let objs = parse("accuracy:set_a=0.5,latency=0.3");
    assert_eq!(objs[0].name, "accuracy:set_a");
    assert_eq!(objs[0].direction, Direction::Maximize);
    assert_eq!(objs[1].direction, Direction::Minimize);
}

#[test]
fn parse_objectives_skips_malformed() {
    let objs = parse("accuracy=0.8,garbage,tokens=not_a_number,=0.5");
    assert_eq!(objs.len(), 1);
    assert_eq!(objs[0].name, "accuracy");
}

#[test]
fn dominated_candidate_is_not_added() {
    let objectives = parse("accuracy=0.5,tokens=0.5");
    let mut frontier = ParetoFrontier::new(objectives);

    let a = candidate_with_scores(0, scores(0.9, 100.0, 0.0));
    let b = candidate_with_scores(1, scores(0.5, 200.0, 0.0));
    let candidates = vec![a, b];

    frontier.add(0, candidates[0].scores.as_ref().unwrap(), &candidates);
    frontier.add(1, candidates[1].scores.as_ref().unwrap(), &candidates);

    // b is strictly worse on both axes (lower accuracy, higher tokens)
    assert_eq!(frontier.frontier(), &[0]);
}

#[test]
fn dominating_candidate_evicts_dominated_members() {
    let objectives = parse("accuracy=0.5,tokens=0.5");
    let mut frontier = ParetoFrontier::new(objectives);

    let weak = candidate_with_scores(0, scores(0.5, 200.0, 0.0));
    let strong = candidate_with_scores(1, scores(0.9, 100.0, 0.0));
    let candidates = vec![weak, strong];

    frontier.add(0, candidates[0].scores.as_ref().unwrap(), &candidates);
    assert_eq!(frontier.frontier(), &[0]);

    frontier.add(1, candidates[1].scores.as_ref().unwrap(), &candidates);
    assert_eq!(frontier.frontier(), &[1], "strong evicts weak");
}

#[test]
fn non_comparable_candidates_both_stay() {
    let objectives = parse("accuracy=0.5,tokens=0.5");
    let mut frontier = ParetoFrontier::new(objectives);

    // Each candidate wins on one axis, loses on the other: neither dominates.
    let a = candidate_with_scores(0, scores(0.9, 200.0, 0.0));
    let b = candidate_with_scores(1, scores(0.7, 100.0, 0.0));
    let candidates = vec![a, b];

    frontier.add(0, candidates[0].scores.as_ref().unwrap(), &candidates);
    frontier.add(1, candidates[1].scores.as_ref().unwrap(), &candidates);

    let mut f = frontier.frontier().to_vec();
    f.sort_unstable();
    assert_eq!(f, vec![0, 1]);
}

#[test]
fn select_for_reflection_picks_best_weighted() {
    let objectives = parse("accuracy=1.0");
    let mut frontier = ParetoFrontier::new(objectives);

    let lo = candidate_with_scores(0, scores(0.5, 0.0, 0.0));
    let hi = candidate_with_scores(1, scores(0.9, 0.0, 0.0));
    let candidates = vec![lo, hi];

    frontier.add(0, candidates[0].scores.as_ref().unwrap(), &candidates);
    frontier.add(1, candidates[1].scores.as_ref().unwrap(), &candidates);

    assert_eq!(frontier.select_for_reflection(&weighted(&frontier, &candidates)), Some(1));
}

#[test]
fn select_for_merge_needs_two_members() {
    let objectives = parse("accuracy=1.0");
    let mut frontier = ParetoFrontier::new(objectives);

    let only = candidate_with_scores(0, scores(0.5, 0.0, 0.0));
    let candidates = vec![only];

    frontier.add(0, candidates[0].scores.as_ref().unwrap(), &candidates);
    assert_eq!(frontier.select_for_merge(&diversity(&frontier, &candidates)), None);
}

#[test]
fn objective_lists_tolerate_white_space_and_keep_the_first_sign() {
    let parts = objective_parts(" accuracy = 0.5 ,, a=b=c , \u{a0}x=\u{2003}1");
    let parts: Vec<(&str, &str)> =
        parts.iter().map(|p| (p.name.as_str(), p.weight_text.as_str())).collect();
    assert_eq!(parts, vec![("accuracy", "0.5"), ("a", "b=c"), ("x", "1")]);
    assert_eq!(objective_parts("").len(), 0);
    assert_eq!(parse(" latency = -2 ")[0].name, "latency");
}

#[test]
fn objectives_pull_their_value_out_of_the_scores() {
    let mut s = scores(0.9, 100.0, 30.0);
    s.per_testset_scores.push(("a".into(), measure(0.25)));
    let value = |name: &str| number(Objective::new(name, Direction::Maximize, Measure::one()).extract(&s));
    assert_eq!(value("accuracy"), 0.9);
    assert_eq!(value("tokens"), 100.0);
    assert_eq!(value("latency"), 30.0);
    assert_eq!(value("accuracy:a"), 0.25);
    assert_eq!(value("accuracy:b"), 0.0);
    assert_eq!(value("speed:a"), 0.0);
    assert_eq!(value("speed"), 0.0);
}

#[test]
fn dominance_is_a_strict_order_on_numbers() {
    let frontier = ParetoFrontier::new(parse("accuracy=1,tokens=1"));
    let a = scores(0.9, 10.0, 0.0);
    let b = scores(0.9, 20.0, 0.0);
    let c = scores(0.8, 30.0, 0.0);
    assert!(frontier.dominates(&a, &b));
    assert!(frontier.dominates(&b, &c));
    assert!(frontier.dominates(&a, &c));
    assert!(!frontier.dominates(&b, &a));
    assert!(!frontier.dominates(&a, &a));
    let nan = scores(f64::NAN, 20.0, 0.0);
    assert!(frontier.dominates(&a, &nan));
    assert!(!ParetoFrontier::new(vec![]).dominates(&a, &c));
}

#[test]
fn equal_candidates_and_unscored_members_stay() {
    let mut frontier = ParetoFrontier::new(parse("accuracy=1"));
    let mut unscored = candidate_with_scores(2, scores(0.0, 0.0, 0.0));
    unscored.scores = None;
    let candidates = vec![
        candidate_with_scores(0, scores(0.5, 1.0, 0.0)),
        candidate_with_scores(1, scores(0.5, 2.0, 0.0)),
        unscored,
    ];
    frontier.members = vec![2];
    frontier.add(0, candidates[0].scores.as_ref().unwrap(), &candidates);
    frontier.add(1, candidates[1].scores.as_ref().unwrap(), &candidates);
    assert_eq!(frontier.frontier(), &[2, 0, 1]);
}

#[test]
fn the_last_of_equally_good_members_is_chosen() {
    let mut frontier = ParetoFrontier::new(parse("accuracy=1"));
    frontier.members = vec![4, 7, 9];
    let weights = vec![measure(0.5), measure(0.5), measure(-1.0)];
    assert_eq!(frontier.select_for_reflection(&weights), Some(7));
    frontier.members = vec![];
    assert_eq!(frontier.select_for_reflection(&vec![]), None);
}

#[test]
fn the_most_diverse_pair_is_merged() {
    let mut frontier = ParetoFrontier::new(parse("accuracy=0.5,tokens=0.5"));
    let candidates = vec![
        candidate_with_scores(0, scores(0.9, 200.0, 0.0)),
        candidate_with_scores(1, scores(0.7, 100.0, 0.0)),
        candidate_with_scores(2, scores(0.8, 150.0, 0.0)),
    ];
    frontier.add(2, candidates[2].scores.as_ref().unwrap(), &candidates);
    frontier.add(0, candidates[0].scores.as_ref().unwrap(), &candidates);
    frontier.add(1, candidates[1].scores.as_ref().unwrap(), &candidates);
    assert_eq!(frontier.frontier(), &[2, 0, 1]);
    assert_eq!(frontier.select_for_merge(&diversity(&frontier, &candidates)), Some((0, 1)));
}

#[test]
fn the_first_pair_is_merged_where_none_is_more_diverse() {
    let mut frontier = ParetoFrontier::new(parse("accuracy=1"));
    frontier.members = vec![5, 6, 8];
    let zero = || measure(0.0);
    let table = vec![
        vec![zero(), zero(), zero()],
        vec![zero(), zero(), zero()],
        vec![zero(), zero(), zero()],
    ];
    assert_eq!(frontier.select_for_merge(&table), Some((5, 6)));
}

#[test]
fn measures_compare_as_numbers() {
    let values = [
        f64::NEG_INFINITY, -2.5, -0.0, 0.0, 5e-324, 1.0, 1.5, f64::MAX, f64::INFINITY, f64::NAN,
    ];
    for a in values {
        assert_eq!(measure(a).is_nan(), a.is_nan());
        assert_eq!(measure(a).is_finite(), a.is_finite());
        assert_eq!(measure(a).is_negative(), a.is_sign_negative());
        for b in values {
            assert_eq!(measure(a).less_than(measure(b)), a < b, "{a} < {b}");
        }
    }
    assert_eq!(number(Measure::one()), 1.0);
    assert_eq!(number(Measure::zero()), 0.0);
}
