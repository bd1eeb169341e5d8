//! The moves that can be made on a table, and the evaluation of a move.

use crate::model::Member;
use vstd::prelude::*;

verus! {

/// An index into a table's groups, or into a group's members.
pub type Index = usize;

/// A change of penalty.
pub type Score = i64;

/// A member's address: its group, and its place in that group.
#[derive(Debug, Clone, Copy, PartialEq, Eq)]
pub struct Position {
    pub group_index: Index,
    pub member_index: Index,
}

/// A move confined to one group.
#[derive(Debug, Clone)]
pub enum GroupAction {
    Add(Member),
    Remove(Index),
    Replace(Index, Member),
}

/// A move on a table.
#[derive(Debug, Clone)]
pub enum Action {
    /// Exchange the members at two positions.
    Swap(Position, Position),
    /// Take the member at `from` out of its group and append it to
    /// group `to_group`.
    Move { from: Position, to_group: Index },
    /// Append `member` to group `group_index`.
    Add { member: Member, group_index: Index },
    /// Take the member at a position out of its group.
    Remove(Position),
}

/// Why a move could not be made.
#[derive(Debug, Clone, Copy, PartialEq, Eq)]
pub enum ActionError {
    /// A position that addresses no existing group or member.
    InvalidPosition,
}

/// The evaluation of a move: its change of penalty, whether the groups it
/// touches then meet the tag quotas, or why it cannot be made.
#[derive(Debug, Clone, PartialEq)]
pub enum ActionResult {
    ScoreDiff(Score),
    UnsatisfiedScoreDiff(Score),
    Failed(Vec<ActionError>),
}

impl ActionResult {
    /// The change of penalty; 0 for a failure.
    pub open spec fn delta(&self) -> int {
        match *self {
            ActionResult::ScoreDiff(d) => d as int,
            ActionResult::UnsatisfiedScoreDiff(d) => d as int,
            ActionResult::Failed(_) => 0,
        }
    }

    /// The errors of a failure; none otherwise.
    pub open spec fn errors(&self) -> Seq<ActionError> {
        match *self {
            ActionResult::Failed(e) => e@,
            _ => Seq::empty(),
        }
    }

    /// This is the evaluation of a move that changes the penalty by `delta`
    /// and after which the quotas hold exactly when `satisfied`.
    pub open spec fn is_outcome(&self, delta: int, satisfied: bool) -> bool {
        match *self {
            ActionResult::ScoreDiff(d) => satisfied && d == delta,
            ActionResult::UnsatisfiedScoreDiff(d) => !satisfied && d == delta,
            ActionResult::Failed(_) => false,
        }
    }

    /// This is a failure with the single error `InvalidPosition`.
    pub open spec fn is_invalid_position(&self) -> bool {
        &&& self is Failed
        &&& self.errors() == seq![ActionError::InvalidPosition]
    }

    /// The failure of a move at a position that addresses nothing.
    pub fn invalid_position() -> (r: ActionResult)
        ensures
            r.is_invalid_position(),
    {
        let mut e: Vec<ActionError> = Vec::new();
        e.push(ActionError::InvalidPosition);
        proof {
            assert(e@ == seq![ActionError::InvalidPosition]);
        }
        ActionResult::Failed(e)
    }

    /// The evaluation of a move that changes the penalty by `delta`.
    pub fn classify(delta: Score, satisfied: bool) -> (r: ActionResult)
        ensures
            r.is_outcome(delta as int, satisfied),
    {
        if satisfied {
            ActionResult::ScoreDiff(delta)
        } else {
            ActionResult::UnsatisfiedScoreDiff(delta)
        }
    }

    /// Combines the evaluations of two parts of one move: a failure of
    /// either part fails the whole with the errors of both; otherwise the
    /// changes add up, and the whole is satisfied only where both parts are.
    pub fn add(self, rhs: ActionResult) -> (r: ActionResult)
        requires
            i64::MIN <= self.delta() + rhs.delta() <= i64::MAX,
        ensures
            self is Failed || rhs is Failed ==> r is Failed && r.errors() == self.errors()
                + rhs.errors(),
            !(self is Failed || rhs is Failed) ==> r.is_outcome(
                self.delta() + rhs.delta(),
                self is ScoreDiff && rhs is ScoreDiff,
            ),
    {
        match (self, rhs) {
            (ActionResult::Failed(e1), ActionResult::Failed(e2)) => {
                let mut e1 = e1;
                let mut e2 = e2;
                e1.append(&mut e2);
                ActionResult::Failed(e1)
            },
            (ActionResult::Failed(e), _) => ActionResult::Failed(e),
            (_, ActionResult::Failed(e)) => {
                proof {
                    assert(e@ == Seq::<ActionError>::empty() + e@);
                }
                ActionResult::Failed(e)
            },
            (ActionResult::ScoreDiff(a), ActionResult::ScoreDiff(b)) => ActionResult::ScoreDiff(
                a + b,
            ),
            (ActionResult::ScoreDiff(a), ActionResult::UnsatisfiedScoreDiff(b)) =>
                ActionResult::UnsatisfiedScoreDiff(a + b),
            (ActionResult::UnsatisfiedScoreDiff(a), ActionResult::ScoreDiff(b)) =>
                ActionResult::UnsatisfiedScoreDiff(a + b),
            (ActionResult::UnsatisfiedScoreDiff(a), ActionResult::UnsatisfiedScoreDiff(b)) =>
                ActionResult::UnsatisfiedScoreDiff(a + b),
        }
    }
}

} // verus!
