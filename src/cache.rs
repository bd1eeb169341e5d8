//! Cached penalty and tag state of each group and of the whole table,
//! kept exact under moves without recomputing sums from scratch.

use crate::action::{Action, ActionError, ActionResult, Index, Position, Score};
use crate::model::{
    same_member, same_members, Condition, Group, Id, Member, RelationPenalty, Table,
};
use crate::score::{
    exchanged, group_score, lemma_exchange, lemma_exchange_row, lemma_row_push, lemma_row_remove,
    lemma_row_update, lemma_same_members, lemma_score_bound, lemma_score_push, lemma_score_remove,
    lemma_score_update, lemma_sum_bound, lemma_sum_remove, lemma_tally_bound, lemma_tally_push,
    lemma_tally_remove, row, row_bound, sum_against, tally, MAX_GROUP_SIZE,
};
use crate::tally::{indicator, TagCounter};
use vstd::prelude::*;

verus! {

/// Whether the tag quotas of `cond` hold for a group whose members are `ms`.
pub open spec fn quotas_met(cond: Condition, ms: Seq<Member>) -> bool {
    cond.constraint.holds(|t: Seq<char>| tally(ms, t), ms.len())
}

proof fn lemma_quotas(cond: Condition, tc: TagCounter, ms: Seq<Member>)
    requires
        forall|t: Seq<char>| #[trigger] tc.count(t) == tally(ms, t),
    ensures
        cond.constraint.holds(|t: Seq<char>| tc.count(t), ms.len()) == quotas_met(cond, ms),
{
    assert((|t: Seq<char>| tc.count(t)) =~= (|t: Seq<char>| tally(ms, t)));
}

proof fn lemma_quotas_same(cond: Condition, a: Seq<Member>, b: Seq<Member>)
    requires
        a.len() == b.len(),
        forall|t: Seq<char>| #[trigger] tally(a, t) == tally(b, t),
    ensures
        quotas_met(cond, a) == quotas_met(cond, b),
{
    assert((|t: Seq<char>| tally(a, t)) =~= (|t: Seq<char>| tally(b, t)));
}

/// The sum of the penalties between `id` and each member of `ms`.
fn sum_with(p: &RelationPenalty, ms: &Vec<Member>, id: Id) -> (r: Score)
    requires
        ms@.len() <= MAX_GROUP_SIZE,
    ensures
        r as int == sum_against(*p, ms@, id),
{
    let mut s: Score = 0;
    let mut j: usize = 0;
    while j < ms.len()
        invariant
            j <= ms@.len() <= MAX_GROUP_SIZE,
            s as int == sum_against(*p, ms@.take(j as int), id),
        decreases ms@.len() - j,
    {
        proof {
            lemma_sum_bound(*p, ms@.take(j as int), id);
            assert(ms@.take(j + 1).drop_last() == ms@.take(j as int));
        }
        let v = p.get_pair([id, ms[j].id]);
        s = s + v as Score;
        j = j + 1;
    }
    proof {
        assert(ms@.take(ms@.len() as int) == ms@);
    }
    s
}

/// The members of one group with the state derived from them: each
/// member's penalty against the others, the tag tally, and the group's
/// penalty.
pub struct GroupCache {
    members: Vec<Member>,
    cached: Vec<Score>,
    tagcounts: TagCounter,
    penalty_score: Score,
}

impl View for GroupCache {
    type V = Seq<Member>;

    closed spec fn view(&self) -> Seq<Member> {
        self.members@
    }
}

impl GroupCache {
    /// The derived state agrees with the members under penalty `p`.
    pub closed spec fn wf(&self, p: RelationPenalty) -> bool {
        &&& self.members@.len() == self.cached@.len()
        &&& self.members@.len() <= MAX_GROUP_SIZE
        &&& forall|i: int|
            0 <= i < self.members@.len() ==> (#[trigger] self.cached@[i]) as int == row(
                p,
                self.members@,
                i,
            )
        &&& self.penalty_score as int == group_score(p, self.members@)
        &&& self.tagcounts.wf()
        &&& forall|t: Seq<char>| #[trigger] self.tagcounts.count(t) == tally(self.members@, t)
    }

    /// The cached penalty of the group.
    pub closed spec fn score(&self) -> int {
        self.penalty_score as int
    }

    /// The cached penalty of the member at `i` against the others.
    pub closed spec fn cached_row(&self, i: int) -> int {
        self.cached@[i] as int
    }

    /// The cached number of members carrying tag `t`.
    pub closed spec fn tag_count(&self, t: Seq<char>) -> nat {
        self.tagcounts.count(t)
    }

    /// The number of members.
    pub fn len(&self) -> (r: usize)
        ensures
            r == self@.len(),
    {
        self.members.len()
    }

    /// The cached penalty of the group.
    pub fn penalty_score(&self) -> (r: Score)
        ensures
            r as int == self.score(),
    {
        self.penalty_score
    }

    /// The members, in order.
    pub fn members(&self) -> (r: &Vec<Member>)
        ensures
            r@ == self@,
    {
        &self.members
    }

    /// The cached penalty of the member at `i` against the others.
    pub fn cached_penalty(&self, i: Index) -> (r: Score)
        requires
            exists|p: RelationPenalty| #[trigger] self.wf(p),
            i < self@.len(),
        ensures
            r as int == self.cached_row(i as int),
    {
        self.cached[i]
    }

    /// The tag tally.
    pub fn tagcounts(&self) -> (r: &TagCounter)
        ensures
            forall|t: Seq<char>| #[trigger] r.count(t) == self.tag_count(t),
            forall|p: RelationPenalty| #[trigger] self.wf(p) ==> r.wf(),
    {
        &self.tagcounts
    }

    /// The member at `i`.
    pub fn member(&self, i: Index) -> (r: &Member)
        requires
            i < self@.len(),
        ensures
            *r == self@[i as int],
    {
        &self.members[i]
    }

    /// A group with no members.
    pub fn empty() -> (r: GroupCache)
        ensures
            forall|p: RelationPenalty| r.wf(p),
            r@ == Seq::<Member>::empty(),
    {
        GroupCache {
            members: Vec::new(),
            cached: Vec::new(),
            tagcounts: TagCounter::new(),
            penalty_score: 0,
        }
    }

    /// The cache of `group` under `penalty`, built by appending its members
    /// one at a time.
    pub fn create(group: &Group, penalty: &RelationPenalty) -> (r: GroupCache)
        requires
            group.members@.len() <= MAX_GROUP_SIZE,
        ensures
            r.wf(*penalty),
            same_members(r@, group.members@),
            r.score() == group_score(*penalty, group.members@),
            forall|t: Seq<char>| #[trigger] r.tag_count(t) == tally(group.members@, t),
    {
        let mut r = GroupCache::empty();
        let mut i: usize = 0;
        while i < group.members.len()
            invariant
                i <= group.members@.len() <= MAX_GROUP_SIZE,
                r.wf(*penalty),
                same_members(r@, group.members@.take(i as int)),
            decreases group.members@.len() - i,
        {
            let m = group.members[i].duplicate();
            r.append(m, penalty);
            proof {
                assert forall|j: int| 0 <= j < r@.len() implies same_member(
                    #[trigger] r@[j],
                    group.members@.take(i + 1)[j],
                ) by {
                    if j < i {
                        assert(group.members@.take(i + 1)[j] == group.members@.take(i as int)[j]);
                    }
                }
            }
            i = i + 1;
        }
        proof {
            assert(group.members@.take(group.members@.len() as int) == group.members@);
            lemma_same_members(*penalty, r@, group.members@, Seq::empty());
            assert forall|t: Seq<char>| #[trigger] r.tag_count(t) == tally(group.members@, t) by {
                lemma_same_members(*penalty, r@, group.members@, t);
            }
        }
        r
    }

    /// Appends `member`: its penalty against the current members is added
    /// to each of theirs, to the group's penalty and, with its tags, to the
    /// tally. Always succeeds.
    pub fn add(&mut self, member: Member, condition: &Condition) -> (r: Result<(), ActionError>)
        requires
            old(self).wf(condition.penalty),
            old(self)@.len() < MAX_GROUP_SIZE,
        ensures
            final(self).wf(condition.penalty),
            final(self)@ == old(self)@.push(member),
            final(self).score() == old(self).score() + sum_against(
                condition.penalty,
                old(self)@,
                member.id,
            ),
            forall|t: Seq<char>| #[trigger]
                final(self).tag_count(t) == old(self).tag_count(t) + indicator(member.tags@, t),
            r is Ok,
    {
        self.append(member, &condition.penalty);
        proof {
            lemma_score_push(condition.penalty, old(self)@, member);
            assert forall|t: Seq<char>| #[trigger]
                self.tag_count(t) == old(self).tag_count(t) + indicator(member.tags@, t) by {
                lemma_tally_push(old(self)@, member, t);
            }
        }
        Ok(())
    }

    fn append(&mut self, member: Member, penalty: &RelationPenalty)
        requires
            old(self).wf(*penalty),
            old(self)@.len() < MAX_GROUP_SIZE,
        ensures
            final(self).wf(*penalty),
            final(self)@ == old(self)@.push(member),
    {
        let ghost p = *penalty;
        let ghost ms = self.members@;
        let ghost old_cached = self.cached@;
        let s = sum_with(penalty, &self.members, member.id);
        let n = self.members.len();
        let mut i: usize = 0;
        while i < n
            invariant
                n == ms.len() == self.members@.len(),
                ms == self.members@,
                n < MAX_GROUP_SIZE,
                self.cached@.len() == n,
                i <= n,
                old_cached.len() == n,
                forall|j: int| 0 <= j < n ==> (#[trigger] old_cached[j]) as int == row(p, ms, j),
                forall|j: int|
                    0 <= j < i ==> (#[trigger] self.cached@[j]) as int == row(p, ms, j)
                        + p.pair_value(ms[j].id, member.id),
                self.tagcounts == old(self).tagcounts,
                self.penalty_score == old(self).penalty_score,
                forall|j: int| i <= j < n ==> #[trigger] self.cached@[j] == old_cached[j],
                p == *penalty,
            decreases n - i,
        {
            proof {
                lemma_sum_bound(p, ms.remove(i as int), ms[i as int].id);
            }
            let v = penalty.get_pair([self.members[i].id, member.id]);
            let c = self.cached[i] + v as Score;
            self.cached.set(i, c);
            i = i + 1;
        }
        proof {
            lemma_score_bound(p, ms.push(member));
            lemma_score_push(p, ms, member);
        }
        self.penalty_score = self.penalty_score + s;
        proof {
            assert forall|t: Seq<char>| #[trigger] self.tagcounts.count(t) < usize::MAX by {
                lemma_tally_bound(ms, t);
            }
        }
        self.tagcounts.add_tags(&member.tags);
        self.members.push(member);
        self.cached.push(s);
        proof {
            assert forall|j: int| 0 <= j < self.members@.len() implies (
            #[trigger] self.cached@[j]) as int == row(p, self.members@, j) by {
                lemma_row_push(p, ms, member, j);
            }
            assert forall|t: Seq<char>| #[trigger]
                self.tagcounts.count(t) == tally(self.members@, t) by {
                lemma_tally_push(ms, member, t);
            }
        }
    }

    /// Takes out the member at `index`: its penalty is taken out of each
    /// remaining member's, and the group's penalty falls by its own.
    pub fn remove(&mut self, index: Index, condition: &Condition) -> (r: Result<
        Member,
        ActionError,
    >)
        requires
            old(self).wf(condition.penalty),
        ensures
            final(self).wf(condition.penalty),
            index < old(self)@.len() ==> r == Ok::<Member, ActionError>(old(self)@[index as int])
                && final(self)@ == old(self)@.remove(index as int) && final(self).score()
                == old(self).score() - row(condition.penalty, old(self)@, index as int) && forall|
                t: Seq<char>,
            | #[trigger] final(self).tag_count(t) + indicator(old(self)@[index as int].tags@, t)
                == old(self).tag_count(t),
            index >= old(self)@.len() ==> r == Err::<Member, ActionError>(
                ActionError::InvalidPosition,
            ) && *final(self) == *old(self),
    {
        if index >= self.members.len() {
            return Err(ActionError::InvalidPosition);
        }
        let ghost p = condition.penalty;
        let ghost ms = self.members@;
        let ghost k = index as int;
        proof {
            assert(self.cached@[k] as int == row(p, ms, k));
        }
        let member = self.members.remove(index);
        let c = self.cached.remove(index);
        let ghost shifted = self.cached@;
        let n = self.members.len();
        let mut i: usize = 0;
        while i < n
            invariant
                ms.len() == n + 1,
                0 <= k < ms.len(),
                self.members@ == ms.remove(k),
                member == ms[k],
                n < MAX_GROUP_SIZE,
                self.cached@.len() == n,
                shifted.len() == n,
                i <= n,
                forall|j: int|
                    0 <= j < n ==> (#[trigger] shifted[j]) as int == row(
                        p,
                        ms,
                        if j < k {
                            j
                        } else {
                            j + 1
                        },
                    ),
                forall|j: int|
                    0 <= j < i ==> (#[trigger] self.cached@[j]) as int == row(p, ms.remove(k), j),
                forall|j: int| i <= j < n ==> #[trigger] self.cached@[j] == shifted[j],
                self.tagcounts == old(self).tagcounts,
                self.penalty_score == old(self).penalty_score,
                p == condition.penalty,
            decreases n - i,
        {
            proof {
                let oj = if i < k {
                    i as int
                } else {
                    i + 1
                };
                lemma_row_remove(p, ms, k, oj);
                lemma_sum_bound(p, ms.remove(k).remove(i as int), ms.remove(k)[i as int].id);
                assert(ms.remove(k)[i as int] == ms[oj]);
            }
            let v = condition.penalty.get_pair([self.members[i].id, member.id]);
            let c2 = self.cached[i] - v as Score;
            self.cached.set(i, c2);
            i = i + 1;
        }
        proof {
            lemma_score_remove(p, ms, k);
            lemma_score_bound(p, ms.remove(k));
            assert forall|t: Seq<char>| #[trigger]
                self.tagcounts.count(t) >= indicator(member.tags@, t) by {
                lemma_tally_remove(ms, k, t);
            }
        }
        self.penalty_score = self.penalty_score - c;
        self.tagcounts.remove_tags(&member.tags);
        proof {
            assert forall|t: Seq<char>| #[trigger]
                self.tagcounts.count(t) == tally(self.members@, t) by {
                lemma_tally_remove(ms, k, t);
            }
        }
        Ok(member)
    }

    /// Puts `member` in place of the member at `index` and returns the one
    /// displaced; the order of the others is kept.
    pub fn swap(&mut self, index: Index, member: Member, condition: &Condition) -> (r: Result<
        Member,
        ActionError,
    >)
        requires
            old(self).wf(condition.penalty),
        ensures
            final(self).wf(condition.penalty),
            index < old(self)@.len() ==> r == Ok::<Member, ActionError>(old(self)@[index as int])
                && final(self)@ == old(self)@.update(index as int, member) && final(self).score()
                == old(self).score() - row(condition.penalty, old(self)@, index as int)
                + sum_against(condition.penalty, old(self)@.remove(index as int), member.id)
                && forall|t: Seq<char>| #[trigger]
                final(self).tag_count(t) + indicator(old(self)@[index as int].tags@, t)
                == old(self).tag_count(t) + indicator(member.tags@, t),
            index >= old(self)@.len() ==> r == Err::<Member, ActionError>(
                ActionError::InvalidPosition,
            ) && *final(self) == *old(self),
    {
        if index >= self.members.len() {
            return Err(ActionError::InvalidPosition);
        }
        let ghost p = condition.penalty;
        let ghost ms = self.members@;
        let ghost k = index as int;
        let ghost old_cached = self.cached@;
        let n = self.members.len();
        let removed_id = self.members[index].id;
        let all = sum_with(&condition.penalty, &self.members, member.id);
        proof {
            lemma_sum_remove(p, ms, k, member.id);
            lemma_sum_bound(p, ms.remove(k), member.id);
        }
        let fresh = all - condition.penalty.get_pair([member.id, removed_id]) as Score;
        let mut i: usize = 0;
        while i < n
            invariant
                ms.len() == n,
                0 <= k < n,
                k == index as int,
                self.members@ == ms,
                removed_id == ms[k].id,
                n <= MAX_GROUP_SIZE,
                self.cached@.len() == n,
                old_cached.len() == n,
                i <= n,
                forall|j: int| 0 <= j < n ==> (#[trigger] old_cached[j]) as int == row(p, ms, j),
                forall|j: int|
                    0 <= j < i && j != k ==> (#[trigger] self.cached@[j]) as int == row(
                        p,
                        ms.update(k, member),
                        j,
                    ),
                forall|j: int| (i <= j < n || j == k) ==> #[trigger] self.cached@[j]
                    == old_cached[j],
                self.tagcounts == old(self).tagcounts,
                self.penalty_score == old(self).penalty_score,
                p == condition.penalty,
            decreases n - i,
        {
            if i != index {
                proof {
                    lemma_row_update(p, ms, k, member, i as int);
                    lemma_sum_bound(p, ms.remove(i as int), ms[i as int].id);
                    assert(ms.update(k, member).remove(i as int).len() == n - 1);
                    lemma_sum_bound(p, ms.update(k, member).remove(i as int), ms[i as int].id);
                    assert(ms.update(k, member)[i as int] == ms[i as int]);
                }
                let id = self.members[i].id;
                let out = condition.penalty.get_pair([id, removed_id]);
                let inn = condition.penalty.get_pair([id, member.id]);
                let c = self.cached[i] - out as Score + inn as Score;
                self.cached.set(i, c);
            }
            i = i + 1;
        }
        let old_row = self.cached[index];
        self.cached.set(index, fresh);
        proof {
            lemma_score_update(p, ms, k, member);
            lemma_score_bound(p, ms.update(k, member));
            assert(ms.update(k, member).remove(k) == ms.remove(k));
        }
        self.penalty_score = self.penalty_score - old_row + fresh;
        let removed = self.members.remove(index);
        proof {
            assert forall|t: Seq<char>| #[trigger]
                self.tagcounts.count(t) >= indicator(removed.tags@, t) by {
                lemma_tally_remove(ms, k, t);
            }
        }
        self.tagcounts.remove_tags(&removed.tags);
        proof {
            assert forall|t: Seq<char>| #[trigger] self.tagcounts.count(t) < usize::MAX by {
                lemma_tally_remove(ms, k, t);
                lemma_tally_bound(ms, t);
            }
        }
        self.tagcounts.add_tags(&member.tags);
        self.members.insert(index, member);
        proof {
            assert(self.members@ == ms.update(k, member));
            assert forall|t: Seq<char>| #[trigger]
                self.tagcounts.count(t) == tally(self.members@, t) by {
                lemma_tally_remove(ms, k, t);
                lemma_tally_remove(ms.update(k, member), k, t);
            }
        }
        Ok(removed)
    }

    /// Evaluates appending `member`: the change of the group's penalty and
    /// whether the quotas would then hold. Changes nothing.
    pub fn simulate_add(&self, member: &Member, condition: &Condition) -> (r: ActionResult)
        requires
            self.wf(condition.penalty),
        ensures
            r.is_outcome(
                group_score(condition.penalty, self@.push(*member)) - group_score(
                    condition.penalty,
                    self@,
                ),
                quotas_met(*condition, self@.push(*member)),
            ),
    {
        let ghost ms = self.members@;
        let delta = sum_with(&condition.penalty, &self.members, member.id);
        proof {
            lemma_score_push(condition.penalty, ms, *member);
        }
        let mut projected = self.tagcounts.duplicate();
        proof {
            assert forall|t: Seq<char>| #[trigger] projected.count(t) < usize::MAX by {
                lemma_tally_bound(ms, t);
            }
        }
        projected.add_tags(&member.tags);
        proof {
            assert forall|t: Seq<char>| #[trigger]
                projected.count(t) == tally(ms.push(*member), t) by {
                lemma_tally_push(ms, *member, t);
            }
            lemma_quotas(*condition, projected, ms.push(*member));
        }
        let ok = condition.constraint.check(&projected, self.members.len() + 1).is_ok();
        ActionResult::classify(delta, ok)
    }

    /// Evaluates taking out the member at `index`; fails with
    /// `InvalidPosition` where there is none. Changes nothing.
    pub fn simulate_remove(&self, index: Index, condition: &Condition) -> (r: ActionResult)
        requires
            self.wf(condition.penalty),
        ensures
            index < self@.len() ==> r.is_outcome(
                group_score(condition.penalty, self@.remove(index as int)) - group_score(
                    condition.penalty,
                    self@,
                ),
                quotas_met(*condition, self@.remove(index as int)),
            ),
            index >= self@.len() ==> r.is_invalid_position(),
    {
        if index >= self.members.len() {
            return ActionResult::invalid_position();
        }
        let ghost ms = self.members@;
        let ghost k = index as int;
        proof {
            lemma_score_remove(condition.penalty, ms, k);
            lemma_sum_bound(condition.penalty, ms.remove(k), ms[k].id);
        }
        let delta = -self.cached[index];
        let mut projected = self.tagcounts.duplicate();
        proof {
            assert forall|t: Seq<char>| #[trigger]
                projected.count(t) >= indicator(ms[k].tags@, t) by {
                lemma_tally_remove(ms, k, t);
            }
        }
        projected.remove_tags(&self.members[index].tags);
        proof {
            assert forall|t: Seq<char>| #[trigger]
                projected.count(t) == tally(ms.remove(k), t) by {
                lemma_tally_remove(ms, k, t);
            }
            lemma_quotas(*condition, projected, ms.remove(k));
        }
        let ok = condition.constraint.check(&projected, self.members.len() - 1).is_ok();
        ActionResult::classify(delta, ok)
    }

    /// Evaluates putting `member` in place of the member at `index`; fails
    /// with `InvalidPosition` where there is none. Changes nothing.
    pub fn simulate_swap(&self, index: Index, member: &Member, condition: &Condition) -> (r:
        ActionResult)
        requires
            self.wf(condition.penalty),
        ensures
            index < self@.len() ==> r.is_outcome(
                group_score(condition.penalty, self@.update(index as int, *member))
                    - group_score(condition.penalty, self@),
                quotas_met(*condition, self@.update(index as int, *member)),
            ),
            index >= self@.len() ==> r.is_invalid_position(),
    {
        if index >= self.members.len() {
            return ActionResult::invalid_position();
        }
        let ghost p = condition.penalty;
        let ghost ms = self.members@;
        let ghost k = index as int;
        let ghost u = ms.update(k, *member);
        let removed = &self.members[index];
        let all = sum_with(&condition.penalty, &self.members, member.id);
        proof {
            lemma_sum_remove(p, ms, k, member.id);
            lemma_sum_bound(p, ms.remove(k), member.id);
            lemma_sum_bound(p, ms.remove(k), ms[k].id);
            lemma_score_update(p, ms, k, *member);
        }
        let fresh = all - condition.penalty.get_pair([member.id, removed.id]) as Score;
        let delta = fresh - self.cached[index];
        let mut projected = self.tagcounts.duplicate();
        proof {
            assert forall|t: Seq<char>| #[trigger]
                projected.count(t) >= indicator(ms[k].tags@, t) by {
                lemma_tally_remove(ms, k, t);
            }
        }
        projected.remove_tags(&removed.tags);
        proof {
            assert forall|t: Seq<char>| #[trigger] projected.count(t) < usize::MAX by {
                lemma_tally_remove(ms, k, t);
                lemma_tally_bound(ms, t);
            }
        }
        projected.add_tags(&member.tags);
        proof {
            assert forall|t: Seq<char>| #[trigger] projected.count(t) == tally(u, t) by {
                lemma_tally_remove(ms, k, t);
                lemma_tally_remove(u, k, t);
                assert(u.remove(k) == ms.remove(k));
            }
            lemma_quotas(*condition, projected, u);
        }
        let ok = condition.constraint.check(&projected, self.members.len()).is_ok();
        ActionResult::classify(delta, ok)
    }

    /// Lets the members at `i` and `j` trade places; the penalty and tally
    /// stay as they are.
    pub fn exchange(&mut self, i: Index, j: Index, condition: &Condition)
        requires
            old(self).wf(condition.penalty),
            i < old(self)@.len(),
            j < old(self)@.len(),
        ensures
            final(self).wf(condition.penalty),
            final(self)@ == exchanged(old(self)@, i as int, j as int),
            final(self).score() == old(self).score(),
    {
        let ghost p = condition.penalty;
        let ghost ms = self.members@;
        if i == j {
            proof {
                assert(exchanged(ms, i as int, j as int) == ms);
            }
            return;
        }
        let mut held = Member { id: 0, tags: Vec::new() };
        std::mem::swap(&mut self.members[i], &mut held);
        assert(held == ms[i as int]);
        std::mem::swap(&mut self.members[j], &mut held);
        assert(held == ms[j as int]);
        std::mem::swap(&mut self.members[i], &mut held);
        let ci = self.cached[i];
        let cj = self.cached[j];
        self.cached.set(i, cj);
        self.cached.set(j, ci);
        proof {
            assert(self.members@ == exchanged(ms, i as int, j as int));
            assert forall|x: int| 0 <= x < self.members@.len() implies (
            #[trigger] self.cached@[x]) as int == row(p, self.members@, x) by {
                lemma_exchange(p, ms, i as int, j as int, Seq::empty());
                if x != i && x != j {
                    lemma_exchange_row(p, ms, i as int, j as int, x);
                }
            }
            assert forall|t: Seq<char>| #[trigger]
                self.tagcounts.count(t) == tally(self.members@, t) by {
                lemma_exchange(p, ms, i as int, j as int, t);
            }
            lemma_exchange(p, ms, i as int, j as int, Seq::empty());
        }
    }

    /// Evaluates a move that leaves the group's members as they are, up to
    /// order: no change of penalty, and whether the quotas hold now.
    pub fn simulate_unchanged(&self, condition: &Condition) -> (r: ActionResult)
        requires
            self.wf(condition.penalty),
        ensures
            r.is_outcome(0, quotas_met(*condition, self@)),
    {
        proof {
            lemma_quotas(*condition, self.tagcounts, self.members@);
        }
        let ok = condition.constraint.check(&self.tagcounts, self.members.len()).is_ok();
        ActionResult::classify(0, ok)
    }
}

/// The penalty of a whole table: the sum of its groups' penalties.
pub open spec fn table_score(p: RelationPenalty, t: Seq<Seq<Member>>) -> int
    decreases t.len(),
{
    if t.len() == 0 {
        0
    } else {
        table_score(p, t.drop_last()) + group_score(p, t.last())
    }
}

proof fn lemma_table_update(p: RelationPenalty, t: Seq<Seq<Member>>, g: int, ms: Seq<Member>)
    requires
        0 <= g < t.len(),
    ensures
        table_score(p, t.update(g, ms)) == table_score(p, t) - group_score(p, t[g]) + group_score(
            p,
            ms,
        ),
    decreases t.len(),
{
    if g < t.len() - 1 {
        assert(t.update(g, ms).drop_last() == t.drop_last().update(g, ms));
        lemma_table_update(p, t.drop_last(), g, ms);
    } else {
        assert(t.update(g, ms).drop_last() == t.drop_last());
    }
}

/// The bound on a whole group's penalty.
pub open spec fn group_bound() -> int {
    0x2000_0000_0000_0000
}

proof fn lemma_table_bound(p: RelationPenalty, t: Seq<Seq<Member>>)
    requires
        forall|g: int| 0 <= g < t.len() ==> (#[trigger] t[g]).len() <= MAX_GROUP_SIZE,
    ensures
        -(t.len() * group_bound()) <= table_score(p, t) <= t.len() * group_bound(),
    decreases t.len(),
{
    if t.len() > 0 {
        assert forall|g: int| 0 <= g < t.drop_last().len() implies (
        #[trigger] t.drop_last()[g]).len() <= MAX_GROUP_SIZE by {
            assert(t.drop_last()[g] == t[g]);
        }
        lemma_table_bound(p, t.drop_last());
        assert(t.last() == t[t.len() - 1]);
        lemma_score_bound(p, t.last());
    }
}

/// `pos` addresses a member of `t`.
pub open spec fn valid_position(t: Seq<Seq<Member>>, pos: Position) -> bool {
    pos.group_index < t.len() && pos.member_index < t[pos.group_index as int].len()
}

/// Every position and group index of `a` addresses something in `t`.
pub open spec fn action_valid(t: Seq<Seq<Member>>, a: Action) -> bool {
    match a {
        Action::Add { member, group_index } => group_index < t.len(),
        Action::Remove(pos) => valid_position(t, pos),
        Action::Swap(p1, p2) => valid_position(t, p1) && valid_position(t, p2),
        Action::Move { from, to_group } => valid_position(t, from) && to_group < t.len(),
    }
}

/// The member at `pos`.
pub open spec fn at(t: Seq<Seq<Member>>, pos: Position) -> Member {
    t[pos.group_index as int][pos.member_index as int]
}

/// The members of each group once the valid move `a` is made on `t`.
pub open spec fn apply(t: Seq<Seq<Member>>, a: Action) -> Seq<Seq<Member>> {
    match a {
        Action::Add { member, group_index } => {
            let g = group_index as int;
            t.update(g, t[g].push(member))
        },
        Action::Remove(pos) => {
            let g = pos.group_index as int;
            t.update(g, t[g].remove(pos.member_index as int))
        },
        Action::Swap(p1, p2) => {
            let g1 = p1.group_index as int;
            let g2 = p2.group_index as int;
            if g1 == g2 {
                t.update(g1, exchanged(t[g1], p1.member_index as int, p2.member_index as int))
            } else {
                t.update(g1, t[g1].update(p1.member_index as int, at(t, p2))).update(
                    g2,
                    t[g2].update(p2.member_index as int, at(t, p1)),
                )
            }
        },
        Action::Move { from, to_group } => {
            let g = from.group_index as int;
            let t1 = t.update(g, t[g].remove(from.member_index as int));
            t1.update(to_group as int, t1[to_group as int].push(at(t, from)))
        },
    }
}

/// Whether, once the valid move `a` is made on `t`, the quotas hold in
/// every group it touches.
pub open spec fn quotas_after(cond: Condition, t: Seq<Seq<Member>>, a: Action) -> bool {
    let u = apply(t, a);
    match a {
        Action::Add { member, group_index } => quotas_met(cond, u[group_index as int]),
        Action::Remove(pos) => quotas_met(cond, u[pos.group_index as int]),
        Action::Swap(p1, p2) => quotas_met(cond, u[p1.group_index as int]) && quotas_met(
            cond,
            u[p2.group_index as int],
        ),
        Action::Move { from, to_group } => quotas_met(cond, u[from.group_index as int])
            && quotas_met(cond, u[to_group as int]),
    }
}

/// Whether making `a` on `t` leaves no group over `MAX_GROUP_SIZE`.
pub open spec fn has_room(t: Seq<Seq<Member>>, a: Action) -> bool {
    match a {
        Action::Add { member, group_index } => group_index < t.len() ==> t[group_index as int].len()
            < MAX_GROUP_SIZE,
        Action::Move { from, to_group } => (to_group < t.len() && to_group != from.group_index)
            ==> t[to_group as int].len() < MAX_GROUP_SIZE,
        _ => true,
    }
}

/// What `act` returns for the valid move `a` on `t`: the member taken out
/// by a removal or a move, nothing for an addition or a swap.
pub open spec fn act_returns(t: Seq<Seq<Member>>, a: Action, r: Result<Option<Member>, ActionError>) -> bool {
    match a {
        Action::Remove(pos) => r == Ok::<Option<Member>, ActionError>(Some(at(t, pos))),
        Action::Move { from, to_group } => r matches Ok(Some(m)) && same_member(m, at(t, from)),
        _ => r == Ok::<Option<Member>, ActionError>(None),
    }
}

proof fn lemma_views_update(gs: Seq<GroupCache>, g: int, c: GroupCache)
    requires
        0 <= g < gs.len(),
    ensures
        gs.update(g, c).map_values(|x: GroupCache| x@) == gs.map_values(|x: GroupCache| x@).update(
            g,
            c@,
        ),
{
    assert(gs.update(g, c).map_values(|x: GroupCache| x@) =~= gs.map_values(|x: GroupCache| x@).update(
        g,
        c@,
    ));
}

/// `r` is the evaluation of move `a` on a table whose groups hold `t`.
pub open spec fn simulated(cond: Condition, t: Seq<Seq<Member>>, a: Action, r: ActionResult) -> bool {
    &&& action_valid(t, a) ==> r.is_outcome(
        table_score(cond.penalty, apply(t, a)) - table_score(cond.penalty, t),
        quotas_after(cond, t, a),
    )
    &&& !action_valid(t, a) ==> r.is_invalid_position()
}

/// The sum of the cached penalties of `gs`.
pub open spec fn sum_scores(gs: Seq<GroupCache>) -> int
    decreases gs.len(),
{
    if gs.len() == 0 {
        0
    } else {
        sum_scores(gs.drop_last()) + gs.last().score()
    }
}

/// The cached state of every group of a table, and the table's penalty.
pub struct TableCache {
    groups: Vec<GroupCache>,
    penalty_score: i128,
}

impl View for TableCache {
    type V = Seq<Seq<Member>>;

    closed spec fn view(&self) -> Seq<Seq<Member>> {
        self.groups@.map_values(|g: GroupCache| g@)
    }
}

impl TableCache {
    /// Every group's cache is exact under `p`, and the table's penalty is
    /// the sum of the groups'.
    pub closed spec fn wf(&self, p: RelationPenalty) -> bool {
        &&& forall|g: int| 0 <= g < self.groups@.len() ==> (#[trigger] self.groups@[g]).wf(p)
        &&& self.penalty_score as int == table_score(p, self@)
    }

    /// The cached penalty of the table.
    pub closed spec fn score(&self) -> int {
        self.penalty_score as int
    }

    /// The cache of each group.
    pub closed spec fn group_caches(&self) -> Seq<GroupCache> {
        self.groups@
    }

    proof fn lemma_view(&self, p: RelationPenalty)
        requires
            self.wf(p),
        ensures
            self@.len() == self.groups@.len(),
            forall|g: int| 0 <= g < self@.len() ==> #[trigger] self@[g] == self.groups@[g]@,
            forall|g: int| 0 <= g < self@.len() ==> (#[trigger] self@[g]).len() <= MAX_GROUP_SIZE,
    {
        assert forall|g: int| 0 <= g < self@.len() implies (#[trigger] self@[g]).len()
            <= MAX_GROUP_SIZE by {
            assert(self.groups@[g].wf(p));
        }
    }

    /// The cache of `table` under `penalty`; the table's penalty is the sum
    /// of each group's penalty computed from scratch.
    pub fn create(table: &Table, penalty: &RelationPenalty) -> (r: TableCache)
        requires
            forall|g: int|
                0 <= g < table.groups@.len() ==> (#[trigger] table.groups@[g]).members@.len()
                    <= MAX_GROUP_SIZE,
        ensures
            r.wf(*penalty),
            r@.len() == table.groups@.len(),
            forall|g: int|
                0 <= g < r@.len() ==> same_members(#[trigger] r@[g], table.groups@[g].members@),
    {
        let ghost p = *penalty;
        let mut groups: Vec<GroupCache> = Vec::new();
        let mut score: i128 = 0;
        let mut g: usize = 0;
        let n = table.groups.len();
        while g < n
            invariant
                n == table.groups@.len(),
                g <= n,
                groups@.len() == g,
                forall|x: int|
                    0 <= x < table.groups@.len() ==> (#[trigger] table.groups@[x]).members@.len()
                        <= MAX_GROUP_SIZE,
                forall|x: int| 0 <= x < g ==> (#[trigger] groups@[x]).wf(p),
                forall|x: int|
                    0 <= x < g ==> same_members(
                        (#[trigger] groups@[x])@,
                        table.groups@[x].members@,
                    ),
                score as int == table_score(p, groups@.map_values(|c: GroupCache| c@)),
                p == *penalty,
            decreases n - g,
        {
            let c = GroupCache::create(&table.groups[g], penalty);
            let s = table.groups[g].calc_score(penalty);
            let ghost before = groups@.map_values(|c: GroupCache| c@);
            groups.push(c);
            proof {
                let after = groups@.map_values(|c: GroupCache| c@);
                assert(after.drop_last() == before);
                assert(after.last() == c@);
                lemma_same_members(p, c@, table.groups@[g as int].members@, Seq::empty());
                assert forall|x: int| 0 <= x < before.len() implies (#[trigger] before[x]).len()
                    <= MAX_GROUP_SIZE by {
                    assert(groups@[x].wf(p));
                }
                lemma_table_bound(p, before);
                lemma_score_bound(p, c@);
                assert(c@.len() * row_bound() <= group_bound());
                assert(before.len() * group_bound() <= 0x1_0000_0000_0000_0000 * group_bound());
            }
            score = score + s as i128;
            g = g + 1;
        }
        TableCache { groups, penalty_score: score }
    }

    /// The number of groups.
    pub fn len(&self) -> (r: usize)
        ensures
            r == self@.len(),
    {
        self.groups.len()
    }

    /// The cached penalty of the table.
    pub fn penalty_score(&self) -> (r: i128)
        ensures
            r as int == self.score(),
    {
        self.penalty_score
    }

    /// The cache of every group.
    pub fn groups(&self) -> (r: &Vec<GroupCache>)
        ensures
            r@ == self.group_caches(),
    {
        &self.groups
    }

    /// The member at `position`, if there is one.
    pub fn get_member(&self, position: &Position) -> (r: Option<&Member>)
        ensures
            valid_position(self@, *position) ==> r == Some(&at(self@, *position)),
            !valid_position(self@, *position) ==> r is None,
    {
        if self.resolves(position) {
            Some(self.groups[position.group_index].member(position.member_index))
        } else {
            None
        }
    }

    /// The cache of the group of `position`, if there is one.
    pub fn get_group(&self, position: &Position) -> (r: Option<&GroupCache>)
        ensures
            position.group_index < self@.len() ==> r == Some(
                &self.group_caches()[position.group_index as int],
            ),
            position.group_index >= self@.len() ==> r is None,
    {
        if position.group_index < self.groups.len() {
            Some(&self.groups[position.group_index])
        } else {
            None
        }
    }

    /// Evaluates `action` without making it: the change of the table's
    /// penalty and whether the quotas then hold in every group it touches,
    /// or `InvalidPosition` where it addresses nothing. A swap within one
    /// group changes no penalty.
    pub fn simulate(&self, action: &Action, condition: &Condition) -> (r: ActionResult)
        requires
            self.wf(condition.penalty),
        ensures
            simulated(*condition, self@, *action, r),
    {
        match action {
            Action::Add { member, group_index } => self.simulate_add_to(
                member,
                *group_index,
                condition,
            ),
            Action::Remove(pos) => self.simulate_remove_at(pos, condition),
            Action::Swap(p1, p2) => self.simulate_swap_of(p1, p2, condition),
            Action::Move { from, to_group } => self.simulate_move_of(from, *to_group, condition),
        }
    }

    fn simulate_add_to(&self, member: &Member, group_index: Index, condition: &Condition) -> (r:
        ActionResult)
        requires
            self.wf(condition.penalty),
        ensures
            ({
                let a = Action::Add { member: *member, group_index };
                &&& action_valid(self@, a) ==> r.is_outcome(
                    table_score(condition.penalty, apply(self@, a)) - table_score(
                        condition.penalty,
                        self@,
                    ),
                    quotas_after(*condition, self@, a),
                )
                &&& !action_valid(self@, a) ==> r.is_invalid_position()
            }),
    {
        let ghost p = condition.penalty;
        let ghost t = self@;
        proof {
            self.lemma_view(p);
        }
        if group_index >= self.groups.len() {
            return ActionResult::invalid_position();
        }
        let g = group_index;
        proof {
            assert(self.groups@[g as int].wf(p));
            lemma_table_update(p, t, g as int, t[g as int].push(*member));
        }
        self.groups[g].simulate_add(member, condition)
    }

    fn simulate_remove_at(&self, pos: &Position, condition: &Condition) -> (r: ActionResult)
        requires
            self.wf(condition.penalty),
        ensures
            ({
                let a = Action::Remove(*pos);
                &&& action_valid(self@, a) ==> r.is_outcome(
                    table_score(condition.penalty, apply(self@, a)) - table_score(
                        condition.penalty,
                        self@,
                    ),
                    quotas_after(*condition, self@, a),
                )
                &&& !action_valid(self@, a) ==> r.is_invalid_position()
            }),
    {
        let ghost p = condition.penalty;
        let ghost t = self@;
        proof {
            self.lemma_view(p);
        }
        if pos.group_index >= self.groups.len() {
            return ActionResult::invalid_position();
        }
        let g = pos.group_index;
        proof {
            assert(self.groups@[g as int].wf(p));
            if pos.member_index < t[g as int].len() {
                lemma_table_update(p, t, g as int, t[g as int].remove(pos.member_index as int));
            }
        }
        self.groups[g].simulate_remove(pos.member_index, condition)
    }

    #[verifier::rlimit(30)]
    fn simulate_swap_of(&self, p1: &Position, p2: &Position, condition: &Condition) -> (r:
        ActionResult)
        requires
            self.wf(condition.penalty),
        ensures
            ({
                let a = Action::Swap(*p1, *p2);
                &&& action_valid(self@, a) ==> r.is_outcome(
                    table_score(condition.penalty, apply(self@, a)) - table_score(
                        condition.penalty,
                        self@,
                    ),
                    quotas_after(*condition, self@, a),
                )
                &&& !action_valid(self@, a) ==> r.is_invalid_position()
            }),
    {
        let ghost p = condition.penalty;
        let ghost t = self@;
        proof {
            self.lemma_view(p);
        }
        if !self.resolves(p1) || !self.resolves(p2) {
            return ActionResult::invalid_position();
        }
        let g1 = p1.group_index;
        let g2 = p2.group_index;
        let ghost i1 = p1.member_index as int;
        let ghost i2 = p2.member_index as int;
        proof {
            assert(self.groups@[g1 as int].wf(p));
            assert(self.groups@[g2 as int].wf(p));
        }
        if g1 == g2 {
            proof {
                let ms = t[g1 as int];
                assert forall|x: Seq<char>| #[trigger]
                    tally(exchanged(ms, i1, i2), x) == tally(ms, x) by {
                    lemma_exchange(p, ms, i1, i2, x);
                }
                lemma_exchange(p, ms, i1, i2, Seq::empty());
                lemma_quotas_same(*condition, exchanged(ms, i1, i2), ms);
                lemma_table_update(p, t, g1 as int, exchanged(ms, i1, i2));
            }
            self.groups[g1].simulate_unchanged(condition)
        } else {
            let m1 = self.groups[g1].member(p1.member_index);
            let m2 = self.groups[g2].member(p2.member_index);
            let r1 = self.groups[g1].simulate_swap(p1.member_index, m2, condition);
            let r2 = self.groups[g2].simulate_swap(p2.member_index, m1, condition);
            proof {
                let u1 = t[g1 as int].update(i1, *m2);
                let u2 = t[g2 as int].update(i2, *m1);
                lemma_score_update(p, t[g1 as int], i1, *m2);
                lemma_score_update(p, t[g2 as int], i2, *m1);
                lemma_sum_bound(p, t[g1 as int].remove(i1), m2.id);
                lemma_sum_bound(p, t[g1 as int].remove(i1), m1.id);
                lemma_sum_bound(p, t[g2 as int].remove(i2), m1.id);
                lemma_sum_bound(p, t[g2 as int].remove(i2), m2.id);
                lemma_table_update(p, t, g1 as int, u1);
                lemma_table_update(p, t.update(g1 as int, u1), g2 as int, u2);
            }
            r1.add(r2)
        }
    }

    #[verifier::rlimit(30)]
    fn simulate_move_of(&self, from: &Position, to_group: Index, condition: &Condition) -> (r:
        ActionResult)
        requires
            self.wf(condition.penalty),
        ensures
            ({
                let a = Action::Move { from: *from, to_group };
                &&& action_valid(self@, a) ==> r.is_outcome(
                    table_score(condition.penalty, apply(self@, a)) - table_score(
                        condition.penalty,
                        self@,
                    ),
                    quotas_after(*condition, self@, a),
                )
                &&& !action_valid(self@, a) ==> r.is_invalid_position()
            }),
    {
        let ghost p = condition.penalty;
        let ghost t = self@;
        proof {
            self.lemma_view(p);
        }
        if !self.resolves(from) || to_group >= self.groups.len() {
            return ActionResult::invalid_position();
        }
        let g1 = from.group_index;
        let g2 = to_group;
        let ghost k = from.member_index as int;
        proof {
            assert(self.groups@[g1 as int].wf(p));
            assert(self.groups@[g2 as int].wf(p));
        }
        let m = self.groups[g1].member(from.member_index);
        if g1 == g2 {
            proof {
                let ms = t[g1 as int];
                let u = ms.remove(k).push(*m);
                lemma_score_remove(p, ms, k);
                lemma_score_push(p, ms.remove(k), *m);
                assert forall|x: Seq<char>| #[trigger] tally(u, x) == tally(ms, x) by {
                    lemma_tally_remove(ms, k, x);
                    lemma_tally_push(ms.remove(k), *m, x);
                }
                lemma_quotas_same(*condition, u, ms);
                let t1 = t.update(g1 as int, ms.remove(k));
                assert(t1.update(g1 as int, t1[g1 as int].push(*m)) == t.update(g1 as int, u));
                lemma_table_update(p, t, g1 as int, u);
            }
            self.groups[g1].simulate_unchanged(condition)
        } else {
            let r1 = self.groups[g1].simulate_remove(from.member_index, condition);
            let r2 = self.groups[g2].simulate_add(m, condition);
            proof {
                let u1 = t[g1 as int].remove(k);
                let u2 = t[g2 as int].push(*m);
                lemma_score_remove(p, t[g1 as int], k);
                lemma_score_push(p, t[g2 as int], *m);
                lemma_sum_bound(p, t[g1 as int].remove(k), m.id);
                lemma_sum_bound(p, t[g2 as int], m.id);
                lemma_table_update(p, t, g1 as int, u1);
                lemma_table_update(p, t.update(g1 as int, u1), g2 as int, u2);
            }
            r1.add(r2)
        }
    }

    /// Puts `c` back as the cache of group `g`, which held `prev` with
    /// penalty `before` when it was taken out, and moves the table's
    /// penalty by the realized change of that group's penalty.
    fn put_group(
        &mut self,
        g: Index,
        c: GroupCache,
        before: Score,
        prev: Ghost<Seq<Member>>,
        condition: &Condition,
    )
        requires
            g < old(self).groups@.len(),
            c.wf(condition.penalty),
            forall|x: int|
                0 <= x < old(self).groups@.len() && x != g ==> (#[trigger] old(self).groups@[x]).wf(
                    condition.penalty,
                ),
            before as int == group_score(condition.penalty, prev@),
            prev@.len() <= MAX_GROUP_SIZE,
            old(self).penalty_score as int == table_score(
                condition.penalty,
                old(self)@.update(g as int, prev@),
            ),
        ensures
            final(self).wf(condition.penalty),
            final(self)@ == old(self)@.update(g as int, c@),
    {
        let ghost p = condition.penalty;
        let ghost t = old(self)@.update(g as int, prev@);
        let mut c = c;
        std::mem::swap(&mut self.groups[g], &mut c);
        let n = self.groups.len();
        proof {
            lemma_views_update(old(self).groups@, g as int, self.groups@[g as int]);
            assert(self.groups@ == old(self).groups@.update(g as int, self.groups@[g as int]));
            assert(self@ == t.update(g as int, self.groups@[g as int]@));
            lemma_table_update(p, t, g as int, self.groups@[g as int]@);
            assert forall|x: int| 0 <= x < self@.len() implies (#[trigger] self@[x]).len()
                <= MAX_GROUP_SIZE by {
                assert(self.groups@[x].wf(p));
            }
            assert forall|x: int| 0 <= x < t.len() implies (#[trigger] t[x]).len()
                <= MAX_GROUP_SIZE by {
                assert(self.groups@[x].wf(p));
            }
            lemma_table_bound(p, self@);
            lemma_table_bound(p, t);
            lemma_score_bound(p, prev@);
            lemma_score_bound(p, self.groups@[g as int]@);
            assert(self@.len() == self.groups@.len());
            assert(t.len() == self.groups@.len());
            assert(self.groups@.len() <= usize::MAX);
            assert(prev@.len() * row_bound() <= group_bound());
            assert(self.groups@[g as int]@.len() * row_bound() <= group_bound());
            assert(t.len() * group_bound() <= 0x1_0000_0000_0000_0000 * group_bound());
        }
        let after = self.groups[g].penalty_score() as i128;
        self.penalty_score = self.penalty_score - before as i128 + after;
    }

    /// Makes `action`: the groups it touches change as `apply` says, each
    /// cache is updated incrementally, and the table's penalty moves by the
    /// realized change of each touched group. Where `action` addresses
    /// nothing, fails with `InvalidPosition` and changes nothing.
    pub fn act(&mut self, action: Action, condition: &Condition) -> (r: Result<
        Option<Member>,
        ActionError,
    >)
        requires
            old(self).wf(condition.penalty),
            has_room(old(self)@, action),
        ensures
            final(self).wf(condition.penalty),
            action_valid(old(self)@, action) ==> final(self)@ == apply(old(self)@, action)
                && act_returns(old(self)@, action, r),
            !action_valid(old(self)@, action) ==> r == Err::<Option<Member>, ActionError>(
                ActionError::InvalidPosition,
            ) && *final(self) == *old(self),
    {
        let ghost t = self@;
        proof {
            self.lemma_view(condition.penalty);
        }
        let valid = match &action {
            Action::Add { member, group_index } => *group_index < self.groups.len(),
            Action::Remove(pos) => self.resolves(pos),
            Action::Swap(p1, p2) => self.resolves(p1) && self.resolves(p2),
            Action::Move { from, to_group } => self.resolves(from) && *to_group
                < self.groups.len(),
        };
        if !valid {
            return Err(ActionError::InvalidPosition);
        }
        match action {
            Action::Add { member, group_index } => {
                let mut c = self.take_group(group_index);
                let before = c.penalty_score();
                let ghost prev = c@;
                let _ = c.add(member, condition);
                self.put_group(group_index, c, before, Ghost(prev), condition);
                Ok(None)
            },
            Action::Remove(pos) => {
                let mut c = self.take_group(pos.group_index);
                let before = c.penalty_score();
                let ghost prev = c@;
                let r = c.remove(pos.member_index, condition);
                self.put_group(pos.group_index, c, before, Ghost(prev), condition);
                match r {
                    Ok(m) => Ok(Some(m)),
                    Err(e) => Err(e),
                }
            },
            Action::Swap(p1, p2) => {
                self.act_swap(p1, p2, condition);
                Ok(None)
            },
            Action::Move { from, to_group } => {
                let mut c = self.take_group(from.group_index);
                let before = c.penalty_score();
                let ghost prev = c@;
                let r = c.remove(from.member_index, condition);
                self.put_group(from.group_index, c, before, Ghost(prev), condition);
                let m = match r {
                    Ok(m) => m,
                    Err(e) => {
                        return Err(e);
                    },
                };
                let copy = m.duplicate();
                proof {
                    self.lemma_view(condition.penalty);
                }
                let mut c = self.take_group(to_group);
                let before = c.penalty_score();
                let ghost prev = c@;
                let _ = c.add(m, condition);
                self.put_group(to_group, c, before, Ghost(prev), condition);
                Ok(Some(copy))
            },
        }
    }

    /// Takes the cache of group `g` out, leaving an empty one in its place.
    fn take_group(&mut self, g: Index) -> (c: GroupCache)
        requires
            g < old(self).groups@.len(),
        ensures
            final(self).groups@ == old(self).groups@.update(g as int, final(self).groups@[g as int]),
            final(self).groups@[g as int]@ == Seq::<Member>::empty(),
            c == old(self).groups@[g as int],
            final(self).penalty_score == old(self).penalty_score,
            final(self)@ == old(self)@.update(g as int, Seq::<Member>::empty()),
            final(self)@.update(g as int, old(self)@[g as int]) == old(self)@,
    {
        let mut c = GroupCache::empty();
        std::mem::swap(&mut self.groups[g], &mut c);
        proof {
            lemma_views_update(old(self).groups@, g as int, self.groups@[g as int]);
            assert(self@.update(g as int, old(self)@[g as int]) == old(self)@);
        }
        c
    }

    fn act_swap(&mut self, p1: Position, p2: Position, condition: &Condition)
        requires
            old(self).wf(condition.penalty),
            valid_position(old(self)@, p1),
            valid_position(old(self)@, p2),
        ensures
            final(self).wf(condition.penalty),
            final(self)@ == apply(old(self)@, Action::Swap(p1, p2)),
    {
        let ghost t = self@;
        proof {
            self.lemma_view(condition.penalty);
        }
        let g1 = p1.group_index;
        let g2 = p2.group_index;
        if g1 == g2 {
            let mut c = self.take_group(g1);
            let before = c.penalty_score();
            let ghost prev = c@;
            c.exchange(p1.member_index, p2.member_index, condition);
            self.put_group(g1, c, before, Ghost(prev), condition);
            return;
        }
        let held = Member { id: 0, tags: Vec::new() };
        let mut c2 = self.take_group(g2);
        let before = c2.penalty_score();
        let ghost prev = c2@;
        let r2 = c2.swap(p2.member_index, held, condition);
        self.put_group(g2, c2, before, Ghost(prev), condition);
        let m2 = match r2 {
            Ok(m) => m,
            Err(_) => {
                return;
            },
        };
        proof {
            self.lemma_view(condition.penalty);
        }
        let mut c1 = self.take_group(g1);
        let before = c1.penalty_score();
        let ghost prev = c1@;
        let r1 = c1.swap(p1.member_index, m2, condition);
        self.put_group(g1, c1, before, Ghost(prev), condition);
        let m1 = match r1 {
            Ok(m) => m,
            Err(_) => {
                return;
            },
        };
        proof {
            self.lemma_view(condition.penalty);
        }
        let mut c2 = self.take_group(g2);
        let before = c2.penalty_score();
        let ghost prev = c2@;
        let _ = c2.swap(p2.member_index, m1, condition);
        self.put_group(g2, c2, before, Ghost(prev), condition);
        proof {
            let ms2 = t[g2 as int];
            assert(ms2.update(p2.member_index as int, held).update(p2.member_index as int, m1)
                == ms2.update(p2.member_index as int, m1));
        }
    }

    /// Whether `pos` addresses a member.
    pub fn resolves(&self, pos: &Position) -> (r: bool)
        ensures
            r == valid_position(self@, *pos),
    {
        pos.group_index < self.groups.len() && pos.member_index
            < self.groups[pos.group_index].len()
    }
}

/// A well-formed group cache (as `create` builds it and every mutator
/// keeps it) agrees with its members: its penalty is the sum over its
/// unordered pairs, its tally counts the members carrying each tag, each
/// cached row is that member's penalty against the others, and it holds at
/// most `MAX_GROUP_SIZE` members.
pub proof fn lemma_group_exact(c: &GroupCache, p: RelationPenalty)
    requires
        c.wf(p),
    ensures
        c.score() == group_score(p, c@),
        forall|t: Seq<char>| #[trigger] c.tag_count(t) == tally(c@, t),
        forall|i: int| 0 <= i < c@.len() ==> #[trigger] c.cached_row(i) == row(p, c@, i),
        c@.len() <= MAX_GROUP_SIZE,
{
}

/// Every group cache of a well-formed table (as `create` builds it and
/// every `act` keeps it) agrees with its members: its penalty is the sum
/// over its unordered pairs, its tally counts the members carrying each
/// tag, each cached row is that member's penalty against the others, and
/// it holds at most `MAX_GROUP_SIZE` members.
pub proof fn lemma_groups_exact(table: &TableCache, p: RelationPenalty)
    requires
        table.wf(p),
    ensures
        table.group_caches().len() == table@.len(),
        forall|g: int|
            0 <= g < table@.len() ==> {
                let c = #[trigger] table.group_caches()[g];
                &&& c@ == table@[g]
                &&& c.score() == group_score(p, c@)
                &&& forall|t: Seq<char>| #[trigger] c.tag_count(t) == tally(c@, t)
                &&& forall|i: int| 0 <= i < c@.len() ==> #[trigger] c.cached_row(i) == row(p, c@, i)
                &&& c@.len() <= MAX_GROUP_SIZE
            },
{
    table.lemma_view(p);
    assert forall|g: int| 0 <= g < table@.len() implies {
        let c = #[trigger] table.group_caches()[g];
        &&& c@ == table@[g]
        &&& c.score() == group_score(p, c@)
        &&& forall|t: Seq<char>| #[trigger] c.tag_count(t) == tally(c@, t)
        &&& forall|i: int| 0 <= i < c@.len() ==> #[trigger] c.cached_row(i) == row(p, c@, i)
        &&& c@.len() <= MAX_GROUP_SIZE
    } by {
        assert(table.groups@[g].wf(p));
    }
}

proof fn lemma_sum_scores(gs: Seq<GroupCache>, p: RelationPenalty)
    requires
        forall|g: int| 0 <= g < gs.len() ==> (#[trigger] gs[g]).wf(p),
    ensures
        sum_scores(gs) == table_score(p, gs.map_values(|c: GroupCache| c@)),
    decreases gs.len(),
{
    if gs.len() > 0 {
        let v = gs.map_values(|c: GroupCache| c@);
        assert(v.drop_last() == gs.drop_last().map_values(|c: GroupCache| c@));
        assert forall|g: int| 0 <= g < gs.drop_last().len() implies (
        #[trigger] gs.drop_last()[g]).wf(p) by {
            assert(gs.drop_last()[g] == gs[g]);
        }
        lemma_sum_scores(gs.drop_last(), p);
        assert(gs.last() == gs[gs.len() - 1]);
        assert(gs.last().wf(p));
    }
}

/// The table's cached penalty is the sum of its groups' cached penalties.
pub proof fn lemma_table_score_is_sum(table: &TableCache, p: RelationPenalty)
    requires
        table.wf(p),
    ensures
        table.score() == sum_scores(table.group_caches()),
        table.score() == table_score(p, table@),
{
    lemma_sum_scores(table.groups@, p);
}

/// Evaluating a valid move and then making it on the same table: the
/// table's penalty moves by exactly the evaluated change.
pub proof fn lemma_simulate_then_act(
    cond: Condition,
    before: &TableCache,
    after: &TableCache,
    a: Action,
    r: ActionResult,
)
    requires
        before.wf(cond.penalty),
        after.wf(cond.penalty),
        action_valid(before@, a),
        simulated(cond, before@, a, r),
        after@ == apply(before@, a),
    ensures
        !(r is Failed),
        after.score() - before.score() == r.delta(),
{
}

/// Two evaluations of one move on one table agree: same kind, same change
/// of penalty, same errors.
pub proof fn lemma_simulate_deterministic(
    cond: Condition,
    t: Seq<Seq<Member>>,
    a: Action,
    r1: ActionResult,
    r2: ActionResult,
)
    requires
        simulated(cond, t, a, r1),
        simulated(cond, t, a, r2),
    ensures
        r1 is ScoreDiff <==> r2 is ScoreDiff,
        r1 is UnsatisfiedScoreDiff <==> r2 is UnsatisfiedScoreDiff,
        r1 is Failed <==> r2 is Failed,
        r1.delta() == r2.delta(),
        r1.errors() == r2.errors(),
{
}

/// Removing a member and adding it back to its group restores the table's
/// penalty, and that group's penalty and tally; the removal always leaves
/// room for the addition.
pub proof fn lemma_remove_then_add(
    p: RelationPenalty,
    t0: &TableCache,
    t1: &TableCache,
    t2: &TableCache,
    pos: Position,
)
    requires
        t0.wf(p),
        t1.wf(p),
        t2.wf(p),
        valid_position(t0@, pos),
        t1@ == apply(t0@, Action::Remove(pos)),
        t2@ == apply(t1@, Action::Add { member: at(t0@, pos), group_index: pos.group_index }),
    ensures
        has_room(t1@, Action::Add { member: at(t0@, pos), group_index: pos.group_index }),
        t2.score() == t0.score(),
        t2.group_caches()[pos.group_index as int].score() == t0.group_caches()[pos.group_index as int].score(),
        forall|x: Seq<char>| #[trigger] t2.group_caches()[pos.group_index as int].tag_count(x)
            == t0.group_caches()[pos.group_index as int].tag_count(x),
{
    let g = pos.group_index as int;
    let k = pos.member_index as int;
    let ms = t0@[g];
    let m = ms[k];
    let u = ms.remove(k).push(m);
    lemma_groups_exact(t0, p);
    assert(t0.group_caches()[g]@ == ms);
    assert(t2@ == t0@.update(g, u));
    lemma_score_remove(p, ms, k);
    lemma_score_push(p, ms.remove(k), m);
    lemma_table_update(p, t0@, g, u);
    lemma_groups_exact(t0, p);
    lemma_groups_exact(t2, p);
    assert forall|x: Seq<char>| #[trigger] t2.group_caches()[g].tag_count(x)
        == t0.group_caches()[g].tag_count(x) by {
        lemma_tally_remove(ms, k, x);
        lemma_tally_push(ms.remove(k), m, x);
    }
}

} // verus!
