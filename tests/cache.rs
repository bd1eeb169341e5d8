use table_seating::action::{Action, ActionError, ActionResult, Position};
use table_seating::cache::TableCache;
use table_seating::model::{Condition, Constraint, Group, Member, Range, RelationPenalty, Table};

fn member(id: u32, tags: &[&str]) -> Member {
    Member { id, tags: tags.iter().map(|t| t.to_string()).collect() }
}

fn table_fixture() -> Table {
    let groups = vec![
        Group { members: vec![member(0, &["a"]), member(1, &["b"]), member(2, &["c"])] },
        Group {
            members: vec![member(3, &["a", "b"]), member(4, &["a", "c"]), member(5, &["b", "c"])],
        },
    ];
    Table { groups }
}

fn condition_fixture() -> Condition {
    let mut penalty = RelationPenalty::new(0);
    penalty.set_pair([0, 1], 1);
    penalty.set_pair([1, 2], 2);
    penalty.set_pair([2, 3], 3);
    penalty.set_pair([3, 4], 4);
    penalty.set_pair([4, 5], 5);
    penalty.set_pair([5, 6], 6);
    let mut constraint = Constraint::new();
    constraint.insert("a".to_string(), Range::Count { min: 1, max: 2 });
    constraint.insert("b".to_string(), Range::Count { min: 1, max: 2 });
    constraint.insert("c".to_string(), Range::Count { min: 1, max: 2 });
    Condition { penalty, constraint }
}

fn tablecache_fixture() -> TableCache {
    TableCache::create(&table_fixture(), &condition_fixture().penalty)
}

#[test]
fn test_create_table() {
    let table = TableCache::create(&table_fixture(), &condition_fixture().penalty);
    assert_eq!(table.groups().len(), 2);
    assert_eq!(table.penalty_score(), 12);
    assert_eq!(table.groups()[0].members().len(), 3);
    assert_eq!(table.groups()[1].members().len(), 3);
    assert_eq!(table.groups()[0].penalty_score(), 3);
    assert_eq!(table.groups()[1].penalty_score(), 9);
}

#[test]
fn test_simulate_add() {
    let table = tablecache_fixture();
    let condition = &condition_fixture();
    let idx_tags_result = [
        (0, Vec::new(), ActionResult::ScoreDiff(0)),
        (1, Vec::new(), ActionResult::ScoreDiff(6)),
        (0, vec!["a".to_string()], ActionResult::ScoreDiff(0)),
        (1, vec!["a".to_string()], ActionResult::UnsatisfiedScoreDiff(6)),
        (2, vec!["a".to_string()], ActionResult::Failed(vec![ActionError::InvalidPosition])),
    ];

    for (group_index, tags, result) in idx_tags_result {
        let member = Member { id: 6, tags };
        let action = Action::Add { group_index, member };
        assert_eq!(table.simulate(&action, condition), result);
    }
}

#[test]
fn test_simulate_remove() {
    let table = tablecache_fixture();
    let condition = &condition_fixture();
    let idx_tags_result = [
        (0, 0, ActionResult::UnsatisfiedScoreDiff(-1)),
        (0, 1, ActionResult::UnsatisfiedScoreDiff(-3)),
        (0, 2, ActionResult::UnsatisfiedScoreDiff(-2)),
        (1, 0, ActionResult::ScoreDiff(-4)),
        (1, 1, ActionResult::ScoreDiff(-9)),
        (1, 2, ActionResult::ScoreDiff(-5)),
        (0, 3, ActionResult::Failed(vec![ActionError::InvalidPosition])),
        (1, 3, ActionResult::Failed(vec![ActionError::InvalidPosition])),
    ];

    for (group_index, member_index, result) in idx_tags_result {
        let position = Position { group_index, member_index };
        let action = Action::Remove(position);
        assert_eq!(table.simulate(&action, condition), result);
    }
}

#[test]
fn test_simulate_swap() {
    let table = tablecache_fixture();
    let condition = &condition_fixture();
    let idx_tags_result = [
        (0, 0, 1, 0, ActionResult::ScoreDiff(-2)),
        (0, 0, 1, 1, ActionResult::ScoreDiff(-10)),
        (0, 0, 1, 2, ActionResult::UnsatisfiedScoreDiff(-6)),
        (0, 1, 1, 0, ActionResult::ScoreDiff(-4)),
        (0, 1, 1, 1, ActionResult::UnsatisfiedScoreDiff(-12)),
        (0, 1, 1, 2, ActionResult::ScoreDiff(-8)),
        (0, 2, 1, 0, ActionResult::UnsatisfiedScoreDiff(-6)),
        (0, 2, 1, 1, ActionResult::ScoreDiff(-8)),
        (0, 2, 1, 2, ActionResult::ScoreDiff(-4)),
        (1, 0, 0, 0, ActionResult::ScoreDiff(-2)),
        (1, 1, 0, 0, ActionResult::ScoreDiff(-10)),
        (1, 2, 0, 0, ActionResult::UnsatisfiedScoreDiff(-6)),
        (1, 0, 0, 1, ActionResult::ScoreDiff(-4)),
        (1, 1, 0, 1, ActionResult::UnsatisfiedScoreDiff(-12)),
        (1, 2, 0, 1, ActionResult::ScoreDiff(-8)),
        (1, 0, 0, 2, ActionResult::UnsatisfiedScoreDiff(-6)),
        (1, 1, 0, 2, ActionResult::ScoreDiff(-8)),
        (1, 2, 0, 2, ActionResult::ScoreDiff(-4)),
        (0, 3, 1, 0, ActionResult::Failed(vec![ActionError::InvalidPosition])),
        (0, 3, 1, 1, ActionResult::Failed(vec![ActionError::InvalidPosition])),
    ];

    for (group_index, member_index, other_group_index, other_member_index, result) in
        idx_tags_result
    {
        let position = Position { group_index, member_index };
        let other_position =
            Position { group_index: other_group_index, member_index: other_member_index };
        let action = Action::Swap(position, other_position);
        assert_eq!(table.simulate(&action, condition), result);
    }
}

#[test]
fn test_simulate_move() {
    let table = tablecache_fixture();
    let condition = &condition_fixture();
    let idx_tags_result = [
        (0, 0, 1, ActionResult::UnsatisfiedScoreDiff(-1)),
        (0, 1, 1, ActionResult::UnsatisfiedScoreDiff(-3)),
        (0, 2, 1, ActionResult::UnsatisfiedScoreDiff(1)),
        (1, 0, 0, ActionResult::ScoreDiff(-1)),
        (1, 1, 0, ActionResult::ScoreDiff(-9)),
        (1, 2, 0, ActionResult::ScoreDiff(-5)),
        (0, 3, 1, ActionResult::Failed(vec![ActionError::InvalidPosition])),
    ];

    for (group_index, member_index, target_group, result) in idx_tags_result {
        let source_position = Position { group_index, member_index };
        let action = Action::Move { from: source_position, to_group: target_group };
        assert_eq!(table.simulate(&action, condition), result);
    }
}
