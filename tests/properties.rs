use table_seating::action::{Action, ActionError, ActionResult, Position};
use table_seating::cache::{GroupCache, TableCache};
use table_seating::model::{Condition, Constraint, Group, Member, Range, RelationPenalty, Table};

fn member(id: u32, tags: &[&str]) -> Member {
    Member { id, tags: tags.iter().map(|t| t.to_string()).collect() }
}

fn chain_table() -> Table {
    Table {
        groups: vec![
            Group { members: vec![member(0, &["a"]), member(1, &["b"]), member(2, &["c"])] },
            Group {
                members: vec![
                    member(3, &["a", "b"]),
                    member(4, &["a", "c"]),
                    member(5, &["b", "c"]),
                ],
            },
        ],
    }
}

fn chain_condition() -> Condition {
    let mut penalty = RelationPenalty::new(0);
    penalty.set_pair([0, 1], 1);
    penalty.set_pair([1, 2], 2);
    penalty.set_pair([2, 3], 3);
    penalty.set_pair([3, 4], 4);
    penalty.set_pair([4, 5], 5);
    let mut constraint = Constraint::new();
    for tag in ["a", "b", "c"] {
        constraint.insert(tag.to_string(), Range::Count { min: 1, max: 2 });
    }
    Condition { penalty, constraint }
}

fn scratch_score(members: &[Member], penalty: &RelationPenalty) -> i64 {
    let mut total = 0i64;
    for i in 0..members.len() {
        for j in (i + 1)..members.len() {
            total += penalty.get_pair([members[i].id, members[j].id]) as i64;
        }
    }
    total
}

fn scratch_count(members: &[Member], tag: &str) -> usize {
    members.iter().filter(|m| m.tags.iter().any(|t| t == tag)).count()
}

fn assert_group_exact(group: &GroupCache, penalty: &RelationPenalty) {
    let members = group.members();
    assert_eq!(group.penalty_score(), scratch_score(members, penalty));
    let from_scratch = Group { members: members.clone() }.calc_score(penalty);
    assert_eq!(group.penalty_score(), from_scratch);
    for i in 0..members.len() {
        let others: i64 = (0..members.len())
            .filter(|j| *j != i)
            .map(|j| penalty.get_pair([members[i].id, members[j].id]) as i64)
            .sum();
        assert_eq!(group.cached_penalty(i), others);
    }
    for tag in ["a", "b", "c", "d"] {
        assert_eq!(group.tagcounts().get(&tag.to_string()), scratch_count(members, tag));
    }
}

fn assert_table_exact(table: &TableCache, penalty: &RelationPenalty) {
    let mut sum = 0i128;
    for group in table.groups() {
        assert_group_exact(group, penalty);
        sum += group.penalty_score() as i128;
    }
    assert_eq!(table.penalty_score(), sum);
}

fn pos(group_index: usize, member_index: usize) -> Position {
    Position { group_index, member_index }
}

fn moves() -> Vec<Action> {
    vec![
        Action::Swap(pos(0, 0), pos(1, 2)),
        Action::Add { member: member(6, &["a", "d"]), group_index: 0 },
        Action::Move { from: pos(1, 0), to_group: 0 },
        Action::Remove(pos(0, 1)),
        Action::Swap(pos(0, 0), pos(0, 3)),
        Action::Move { from: pos(0, 2), to_group: 0 },
        Action::Add { member: member(7, &["c", "c"]), group_index: 1 },
        Action::Swap(pos(1, 1), pos(0, 0)),
    ]
}

#[test]
fn caches_stay_exact_after_acts() {
    let condition = chain_condition();
    let mut table = TableCache::create(&chain_table(), &condition.penalty);
    assert_table_exact(&table, &condition.penalty);
    for action in moves() {
        table.act(action, &condition).unwrap();
        assert_table_exact(&table, &condition.penalty);
    }
}

#[test]
fn table_score_is_sum_of_groups() {
    let condition = chain_condition();
    let mut table = TableCache::create(&chain_table(), &condition.penalty);
    table.act(Action::Swap(pos(0, 2), pos(1, 0)), &condition).unwrap();
    let sum: i128 = table.groups().iter().map(|g| g.penalty_score() as i128).sum();
    assert_eq!(table.penalty_score(), sum);
    assert_eq!(table.penalty_score(), 6);
}

#[test]
fn simulated_delta_is_realized() {
    let condition = chain_condition();
    let mut table = TableCache::create(&chain_table(), &condition.penalty);
    for action in moves() {
        let before = table.penalty_score();
        let simulated = table.simulate(&action, &condition);
        table.act(action, &condition).unwrap();
        let realized = table.penalty_score() - before;
        match simulated {
            ActionResult::ScoreDiff(d) | ActionResult::UnsatisfiedScoreDiff(d) => {
                assert_eq!(d as i128, realized)
            }
            ActionResult::Failed(_) => panic!("valid move evaluated as failed"),
        }
    }
}

#[test]
fn simulate_twice_agrees() {
    let condition = chain_condition();
    let table = TableCache::create(&chain_table(), &condition.penalty);
    for action in moves() {
        let first = table.simulate(&action, &condition);
        let second = table.simulate(&action, &condition);
        assert_eq!(first, second);
    }
    assert_eq!(table.penalty_score(), 12);
}

#[test]
fn remove_then_add_restores() {
    let condition = chain_condition();
    let mut table = TableCache::create(&chain_table(), &condition.penalty);
    let before_score = table.penalty_score();
    let before_group = table.groups()[1].penalty_score();
    let removed = table.act(Action::Remove(pos(1, 1)), &condition).unwrap().unwrap();
    assert_eq!(removed.id, 4);
    assert_eq!(table.penalty_score(), before_score - 9);
    table.act(Action::Add { member: removed, group_index: 1 }, &condition).unwrap();
    assert_eq!(table.penalty_score(), before_score);
    assert_eq!(table.groups()[1].penalty_score(), before_group);
    for (tag, count) in [("a", 2), ("b", 2), ("c", 2)] {
        assert_eq!(table.groups()[1].tagcounts().get(&tag.to_string()), count);
    }
    let ids: Vec<u32> = table.groups()[1].members().iter().map(|m| m.id).collect();
    assert_eq!(ids, vec![3, 5, 4]);
}

#[test]
fn invalid_positions_fail_without_change() {
    let condition = chain_condition();
    let mut table = TableCache::create(&chain_table(), &condition.penalty);
    let failed = ActionResult::Failed(vec![ActionError::InvalidPosition]);
    let bad = vec![
        Action::Remove(pos(0, 3)),
        Action::Remove(pos(2, 0)),
        Action::Add { member: member(9, &[]), group_index: 2 },
        Action::Swap(pos(0, 0), pos(1, 3)),
        Action::Swap(pos(2, 0), pos(0, 0)),
        Action::Move { from: pos(1, 5), to_group: 0 },
        Action::Move { from: pos(1, 0), to_group: 2 },
    ];
    for action in bad {
        assert_eq!(table.simulate(&action, &condition), failed);
        assert_eq!(table.act(action, &condition), Err(ActionError::InvalidPosition));
        assert_eq!(table.penalty_score(), 12);
        let ids: Vec<Vec<u32>> = table
            .groups()
            .iter()
            .map(|g| g.members().iter().map(|m| m.id).collect())
            .collect();
        assert_eq!(ids, vec![vec![0, 1, 2], vec![3, 4, 5]]);
    }
}

#[test]
fn scenario_chain_penalties() {
    let condition = chain_condition();
    let table = TableCache::create(&chain_table(), &condition.penalty);
    assert_eq!(table.penalty_score(), 12);
    assert_eq!(table.groups()[0].penalty_score(), 3);
    assert_eq!(table.groups()[1].penalty_score(), 9);
    assert_eq!(
        table.simulate(&Action::Remove(pos(0, 0)), &condition),
        ActionResult::UnsatisfiedScoreDiff(-1)
    );
    assert_eq!(table.simulate(&Action::Remove(pos(1, 1)), &condition), ActionResult::ScoreDiff(-9));
}

#[test]
fn same_group_swap_changes_no_penalty() {
    let condition = chain_condition();
    let mut table = TableCache::create(&chain_table(), &condition.penalty);
    let action = Action::Swap(pos(1, 0), pos(1, 2));
    assert_eq!(table.simulate(&action, &condition), ActionResult::ScoreDiff(0));
    assert_eq!(table.act(action, &condition), Ok(None));
    let ids: Vec<u32> = table.groups()[1].members().iter().map(|m| m.id).collect();
    assert_eq!(ids, vec![5, 4, 3]);
    assert_eq!(table.penalty_score(), 12);
    assert_table_exact(&table, &condition.penalty);
}

#[test]
fn same_group_move_goes_to_the_end() {
    let condition = chain_condition();
    let mut table = TableCache::create(&chain_table(), &condition.penalty);
    let action = Action::Move { from: pos(0, 0), to_group: 0 };
    assert_eq!(table.simulate(&action, &condition), ActionResult::ScoreDiff(0));
    let moved = table.act(action, &condition).unwrap().unwrap();
    assert_eq!(moved.id, 0);
    let ids: Vec<u32> = table.groups()[0].members().iter().map(|m| m.id).collect();
    assert_eq!(ids, vec![1, 2, 0]);
    assert_table_exact(&table, &condition.penalty);
}

#[test]
fn move_returns_the_moved_member() {
    let condition = chain_condition();
    let mut table = TableCache::create(&chain_table(), &condition.penalty);
    let moved = table.act(Action::Move { from: pos(1, 0), to_group: 0 }, &condition).unwrap();
    assert_eq!(moved, Some(member(3, &["a", "b"])));
    assert_eq!(table.penalty_score(), 11);
    assert_eq!(table.groups()[0].members().len(), 4);
    assert_eq!(table.groups()[1].members().len(), 2);
}

#[test]
fn swap_across_groups_exchanges_members() {
    let condition = chain_condition();
    let mut table = TableCache::create(&chain_table(), &condition.penalty);
    assert_eq!(table.act(Action::Swap(pos(0, 1), pos(1, 2)), &condition), Ok(None));
    let ids: Vec<Vec<u32>> =
        table.groups().iter().map(|g| g.members().iter().map(|m| m.id).collect()).collect();
    assert_eq!(ids, vec![vec![0, 5, 2], vec![3, 4, 1]]);
    assert_eq!(table.penalty_score(), 4);
}

#[test]
fn get_member_and_group() {
    let condition = chain_condition();
    let table = TableCache::create(&chain_table(), &condition.penalty);
    assert_eq!(table.get_member(&pos(1, 2)).map(|m| m.id), Some(5));
    assert!(table.get_member(&pos(1, 3)).is_none());
    assert!(table.get_member(&pos(2, 0)).is_none());
    assert_eq!(table.get_group(&pos(1, 9)).map(|g| g.penalty_score()), Some(9));
    assert!(table.get_group(&pos(2, 0)).is_none());
}
