use table_seating::action::{ActionError, ActionResult};
use table_seating::anneal::{judge, SwapGenerator, Verdict};
use table_seating::action::{Action, Position};
use table_seating::model::{Constraint, Fraction, Group, Member, Range, RelationPenalty};
use table_seating::tally::TagCounter;

fn tags(list: &[&str]) -> Vec<String> {
    list.iter().map(|t| t.to_string()).collect()
}

#[test]
fn pair_penalty_is_symmetric_with_default() {
    let mut penalty = RelationPenalty::new(-3);
    assert!(penalty.scores.is_empty());
    assert_eq!(penalty.default, -3);
    penalty.set_pair([7, 2], 11);
    assert_eq!(penalty.get_pair([7, 2]), 11);
    assert_eq!(penalty.get_pair([2, 7]), 11);
    assert_eq!(penalty.get_pair([2, 8]), -3);
    penalty.set_pair([2, 7], 4);
    assert_eq!(penalty.get_pair([7, 2]), 4);
    penalty.set_pair([u32::MAX, 0], 9);
    assert_eq!(penalty.get_pair([0, u32::MAX]), 9);
    assert_eq!(penalty.get_pair([1, u32::MAX]), -3);
}

#[test]
fn calc_score_sums_every_pair_once() {
    let mut penalty = RelationPenalty::new(1);
    penalty.set_pair([0, 1], 10);
    penalty.set_pair([2, 3], -4);
    let members: Vec<Member> = (0..4).map(|id| Member { id, tags: Vec::new() }).collect();
    // six pairs: 10 + (-4) + four at the default 1
    assert_eq!(Group { members }.calc_score(&penalty), 10);
    assert_eq!(Group { members: Vec::new() }.calc_score(&penalty), 0);
    let one = vec![Member { id: 0, tags: Vec::new() }];
    assert_eq!(Group { members: one }.calc_score(&penalty), 0);
}

#[test]
fn tag_counter_counts_each_member_once() {
    let mut counter = TagCounter::new();
    counter.add_tags(&tags(&["a", "b", "a"]));
    counter.add_tags(&tags(&["a"]));
    assert_eq!(counter.get(&"a".to_string()), 2);
    assert_eq!(counter.get(&"b".to_string()), 1);
    assert_eq!(counter.get(&"z".to_string()), 0);
    counter.remove_tags(&tags(&["a", "a"]));
    assert_eq!(counter.get(&"a".to_string()), 1);
    let copy = counter.duplicate();
    counter.remove_tags(&tags(&["b"]));
    assert_eq!(copy.get(&"b".to_string()), 1);
    assert_eq!(counter.get(&"b".to_string()), 0);
}

#[test]
fn constraint_lists_every_violated_tag() {
    let mut constraint = Constraint::new();
    constraint.insert("a".to_string(), Range::Count { min: 1, max: 2 });
    constraint.insert("b".to_string(), Range::Count { min: 0, max: 0 });
    constraint.insert("c".to_string(), Range::Count { min: 1, max: 5 });
    let mut counter = TagCounter::new();
    counter.add_tags(&tags(&["b"]));
    counter.add_tags(&tags(&["c"]));
    assert_eq!(constraint.check(&counter, 2), Err(tags(&["a", "b"])));
    constraint.insert("b".to_string(), Range::Count { min: 0, max: 1 });
    assert_eq!(constraint.check(&counter, 2), Err(tags(&["a"])));
    counter.add_tags(&tags(&["a"]));
    assert_eq!(constraint.check(&counter, 3), Ok(()));
    assert_eq!(Constraint::new().check(&counter, 3), Ok(()));
}

#[test]
fn ratio_range_scales_with_group_size() {
    // between a quarter and a half of the members
    let range = Range::Ratio {
        min: Fraction { num: 1, den: 4 },
        max: Fraction { num: 1, den: 2 },
    };
    assert!(!range.allows(0, 4));
    assert!(range.allows(1, 4));
    assert!(range.allows(2, 4));
    assert!(!range.allows(3, 4));
    assert!(range.allows(3, 8));
    assert!(!range.allows(5, 8));
    assert!(range.allows(0, 0));
    let counted = Range::Count { min: 2, max: 3 };
    assert!(!counted.allows(1, 10));
    assert!(counted.allows(3, 10));
    assert!(!counted.allows(4, 10));
}

#[test]
fn action_results_combine() {
    let failed = |n: usize| ActionResult::Failed(vec![ActionError::InvalidPosition; n]);
    assert_eq!(ActionResult::ScoreDiff(2).add(ActionResult::ScoreDiff(-5)), ActionResult::ScoreDiff(-3));
    assert_eq!(
        ActionResult::ScoreDiff(2).add(ActionResult::UnsatisfiedScoreDiff(1)),
        ActionResult::UnsatisfiedScoreDiff(3)
    );
    assert_eq!(
        ActionResult::UnsatisfiedScoreDiff(1).add(ActionResult::ScoreDiff(2)),
        ActionResult::UnsatisfiedScoreDiff(3)
    );
    assert_eq!(
        ActionResult::UnsatisfiedScoreDiff(1).add(ActionResult::UnsatisfiedScoreDiff(1)),
        ActionResult::UnsatisfiedScoreDiff(2)
    );
    assert_eq!(ActionResult::ScoreDiff(2).add(failed(1)), failed(1));
    assert_eq!(failed(1).add(ActionResult::UnsatisfiedScoreDiff(4)), failed(1));
    assert_eq!(failed(1).add(failed(1)), failed(2));
}

#[test]
fn judge_follows_the_acceptance_rule() {
    let failed = ActionResult::Failed(vec![ActionError::InvalidPosition]);
    assert_eq!(judge(&failed, 100), Verdict::Redraw);
    assert_eq!(judge(&ActionResult::ScoreDiff(-4), 100), Verdict::Accept);
    assert_eq!(judge(&ActionResult::ScoreDiff(0), 100), Verdict::Accept);
    assert_eq!(judge(&ActionResult::ScoreDiff(7), 100), Verdict::Chance { cost: 7 });
    assert_eq!(judge(&ActionResult::UnsatisfiedScoreDiff(-4), 100), Verdict::Chance { cost: 96 });
    assert_eq!(judge(&ActionResult::UnsatisfiedScoreDiff(-400), 100), Verdict::Accept);
    assert_eq!(
        judge(&ActionResult::UnsatisfiedScoreDiff(i64::MAX), i64::MAX),
        Verdict::Chance { cost: 2 * (i64::MAX as i128) }
    );
}

#[test]
fn generator_needs_two_non_empty_groups() {
    assert!(SwapGenerator::new(vec![], 1).is_none());
    assert!(SwapGenerator::new(vec![4], 1).is_none());
    assert!(SwapGenerator::new(vec![4, 0, 2], 1).is_none());
    assert!(SwapGenerator::new(vec![1, 1], 1).is_some());
}

#[test]
fn generator_offers_cross_group_swaps() {
    let sizes = vec![3, 1, 2];
    let mut generator = SwapGenerator::new(sizes.clone(), 42).unwrap();
    for _ in 0..200 {
        match generator.next() {
            Action::Swap(p1, p2) => {
                assert_ne!(p1.group_index, p2.group_index);
                assert!(p1.member_index < sizes[p1.group_index]);
                assert!(p2.member_index < sizes[p2.group_index]);
            }
            other => panic!("not a swap: {:?}", other),
        }
    }
}

#[test]
fn generator_sweep_is_shuffled() {
    // Unshuffled, the first draw would pair the last positions of the two
    // groups.
    let mut generator = SwapGenerator::new(vec![50, 50], 3).unwrap();
    let unshuffled = Action::Swap(
        Position { group_index: 1, member_index: 49 },
        Position { group_index: 0, member_index: 49 },
    );
    let first = generator.next();
    assert_ne!(format!("{:?}", first), format!("{:?}", unshuffled));
}

#[test]
fn generator_draws_from_the_end_of_the_pool() {
    let mut generator = SwapGenerator::new(vec![3, 2, 2], 11).unwrap();
    for _ in 0..40 {
        let pool: Vec<Position> = generator.pending_positions().clone();
        let action = generator.next();
        let (p1, p2) = match action {
            Action::Swap(p1, p2) => (p1, p2),
            other => panic!("not a swap: {:?}", other),
        };
        if pool.is_empty() {
            // a fresh sweep of all seven positions was started
            assert!(generator.pending_positions().len() < 6);
            continue;
        }
        assert_eq!(p1, *pool.last().unwrap());
        let rest = &pool[..pool.len() - 1];
        match rest.iter().rposition(|p| p.group_index != p1.group_index) {
            Some(k) => {
                assert_eq!(p2, rest[k]);
                assert_eq!(generator.pending_positions().as_slice(), &rest[..k]);
            }
            None => {
                assert_ne!(p2.group_index, p1.group_index);
                assert!(generator.pending_positions().len() < 7);
            }
        }
    }
}
