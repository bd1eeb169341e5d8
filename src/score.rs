//! What a group's penalty and tag tally are, computed from scratch over its
//! members, and how they change when one member is added, removed or
//! replaced.

use crate::action::Score;
use crate::model::{same_member, same_members, Group, Id, Member, RelationPenalty};
use itertools::Itertools;
use vstd::prelude::*;

verus! {

/// The largest number of members one group may hold, so that every penalty
/// sum of a group fits in an `i64`.
pub const MAX_GROUP_SIZE: usize = 32768;

/// The largest magnitude of one pair's penalty.
pub open spec fn pair_bound() -> int {
    0x8000_0000
}

/// The largest magnitude of a member's row in a group of at most
/// `MAX_GROUP_SIZE` members.
pub open spec fn row_bound() -> int {
    0x4000_0000_0000
}

/// The sum of the penalties between `id` and each member of `ms`.
pub open spec fn sum_against(p: RelationPenalty, ms: Seq<Member>, id: Id) -> int
    decreases ms.len(),
{
    if ms.len() == 0 {
        0
    } else {
        sum_against(p, ms.drop_last(), id) + p.pair_value(id, ms.last().id)
    }
}

/// The penalty of the member at `i` against every other member of `ms`.
pub open spec fn row(p: RelationPenalty, ms: Seq<Member>, i: int) -> int {
    sum_against(p, ms.remove(i), ms[i].id)
}

/// The penalty of a group: the sum over its unordered pairs of members.
pub open spec fn group_score(p: RelationPenalty, ms: Seq<Member>) -> int
    decreases ms.len(),
{
    if ms.len() == 0 {
        0
    } else {
        group_score(p, ms.drop_last()) + sum_against(p, ms.drop_last(), ms.last().id)
    }
}

/// How many members of `ms` carry tag `t`.
pub open spec fn tally(ms: Seq<Member>, t: Seq<char>) -> nat
    decreases ms.len(),
{
    if ms.len() == 0 {
        0
    } else {
        tally(ms.drop_last(), t) + if ms.last().has_tag(t) {
            1nat
        } else {
            0nat
        }
    }
}

pub proof fn lemma_sum_push(p: RelationPenalty, ms: Seq<Member>, m: Member, id: Id)
    ensures
        sum_against(p, ms.push(m), id) == sum_against(p, ms, id) + p.pair_value(id, m.id),
{
    assert(ms.push(m).drop_last() == ms);
}

pub proof fn lemma_sum_remove(p: RelationPenalty, ms: Seq<Member>, k: int, id: Id)
    requires
        0 <= k < ms.len(),
    ensures
        sum_against(p, ms, id) == sum_against(p, ms.remove(k), id) + p.pair_value(id, ms[k].id),
    decreases ms.len(),
{
    if k == ms.len() - 1 {
        assert(ms.remove(k) == ms.drop_last());
    } else {
        let d = ms.drop_last();
        lemma_sum_remove(p, d, k, id);
        assert(ms.remove(k) == d.remove(k).push(ms.last()));
        lemma_sum_push(p, d.remove(k), ms.last(), id);
    }
}

pub proof fn lemma_sum_bound(p: RelationPenalty, ms: Seq<Member>, id: Id)
    ensures
        -(ms.len() * pair_bound()) <= sum_against(p, ms, id) <= ms.len() * pair_bound(),
    decreases ms.len(),
{
    if ms.len() > 0 {
        lemma_sum_bound(p, ms.drop_last(), id);
    }
}

pub proof fn lemma_score_push(p: RelationPenalty, ms: Seq<Member>, m: Member)
    ensures
        group_score(p, ms.push(m)) == group_score(p, ms) + sum_against(p, ms, m.id),
{
    assert(ms.push(m).drop_last() == ms);
}

/// Removing the member at `k` lowers the group's penalty by that member's
/// row.
pub proof fn lemma_score_remove(p: RelationPenalty, ms: Seq<Member>, k: int)
    requires
        0 <= k < ms.len(),
    ensures
        group_score(p, ms) == group_score(p, ms.remove(k)) + row(p, ms, k),
    decreases ms.len(),
{
    if k == ms.len() - 1 {
        assert(ms.remove(k) == ms.drop_last());
    } else {
        let d = ms.drop_last();
        let last = ms.last();
        lemma_score_remove(p, d, k);
        assert(ms.remove(k) == d.remove(k).push(last));
        lemma_score_push(p, d.remove(k), last);
        assert(d[k] == ms[k]);
        lemma_sum_push(p, d.remove(k), last, ms[k].id);
        lemma_sum_remove(p, d, k, last.id);
    }
}

pub proof fn lemma_score_bound(p: RelationPenalty, ms: Seq<Member>)
    requires
        ms.len() <= MAX_GROUP_SIZE,
    ensures
        -(ms.len() * row_bound()) <= group_score(p, ms) <= ms.len() * row_bound(),
    decreases ms.len(),
{
    if ms.len() > 0 {
        lemma_score_bound(p, ms.drop_last());
        lemma_sum_bound(p, ms.drop_last(), ms.last().id);
        assert(ms.drop_last().len() * pair_bound() <= row_bound());
    }
}

/// Appending `m` adds its penalty with `m` to the row of every earlier
/// member.
pub proof fn lemma_row_push(p: RelationPenalty, ms: Seq<Member>, m: Member, i: int)
    requires
        0 <= i <= ms.len(),
    ensures
        i < ms.len() ==> row(p, ms.push(m), i) == row(p, ms, i) + p.pair_value(ms[i].id, m.id),
        i == ms.len() ==> row(p, ms.push(m), i) == sum_against(p, ms, m.id),
{
    if i < ms.len() {
        assert(ms.push(m).remove(i) == ms.remove(i).push(m));
        lemma_sum_push(p, ms.remove(i), m, ms[i].id);
    } else {
        assert(ms.push(m).remove(i) == ms);
    }
}

/// Removing the member at `k` takes its penalty out of every other row.
pub proof fn lemma_row_remove(p: RelationPenalty, ms: Seq<Member>, k: int, i: int)
    requires
        0 <= k < ms.len(),
        0 <= i < ms.len(),
        i != k,
    ensures
        row(p, ms.remove(k), if i < k {
            i
        } else {
            i - 1
        }) == row(p, ms, i) - p.pair_value(ms[i].id, ms[k].id),
{
    let i2 = if i < k {
        i
    } else {
        i - 1
    };
    let k2 = if k < i {
        k
    } else {
        k - 1
    };
    assert(ms.remove(i)[k2] == ms[k]);
    assert(ms.remove(k)[i2] == ms[i]);
    assert(ms.remove(i).remove(k2) == ms.remove(k).remove(i2));
    lemma_sum_remove(p, ms.remove(i), k2, ms[i].id);
}

/// Replacing the member at `k` by `m` swaps that member's penalty for
/// `m`'s in every other row.
pub proof fn lemma_row_update(p: RelationPenalty, ms: Seq<Member>, k: int, m: Member, i: int)
    requires
        0 <= k < ms.len(),
        0 <= i < ms.len(),
        i != k,
    ensures
        row(p, ms.update(k, m), i) == row(p, ms, i) - p.pair_value(ms[i].id, ms[k].id)
            + p.pair_value(ms[i].id, m.id),
{
    let u = ms.update(k, m);
    lemma_row_remove(p, ms, k, i);
    lemma_row_remove(p, u, k, i);
    assert(u.remove(k) == ms.remove(k));
}

/// Replacing the member at `k` by `m` changes the group's penalty by the
/// difference of the two members' rows.
pub proof fn lemma_score_update(p: RelationPenalty, ms: Seq<Member>, k: int, m: Member)
    requires
        0 <= k < ms.len(),
    ensures
        group_score(p, ms.update(k, m)) == group_score(p, ms) - row(p, ms, k) + sum_against(
            p,
            ms.remove(k),
            m.id,
        ),
{
    let u = ms.update(k, m);
    lemma_score_remove(p, ms, k);
    lemma_score_remove(p, u, k);
    assert(u.remove(k) == ms.remove(k));
}

pub proof fn lemma_tally_push(ms: Seq<Member>, m: Member, t: Seq<char>)
    ensures
        tally(ms.push(m), t) == tally(ms, t) + if m.has_tag(t) {
            1nat
        } else {
            0nat
        },
{
    assert(ms.push(m).drop_last() == ms);
}

pub proof fn lemma_tally_remove(ms: Seq<Member>, k: int, t: Seq<char>)
    requires
        0 <= k < ms.len(),
    ensures
        tally(ms, t) == tally(ms.remove(k), t) + if ms[k].has_tag(t) {
            1nat
        } else {
            0nat
        },
    decreases ms.len(),
{
    if k == ms.len() - 1 {
        assert(ms.remove(k) == ms.drop_last());
    } else {
        let d = ms.drop_last();
        lemma_tally_remove(d, k, t);
        assert(ms.remove(k) == d.remove(k).push(ms.last()));
        lemma_tally_push(d.remove(k), ms.last(), t);
    }
}

pub proof fn lemma_tally_bound(ms: Seq<Member>, t: Seq<char>)
    ensures
        tally(ms, t) <= ms.len(),
    decreases ms.len(),
{
    if ms.len() > 0 {
        lemma_tally_bound(ms.drop_last(), t);
    }
}

/// `ms` with the members at `i` and `j` trading places.
pub open spec fn exchanged(ms: Seq<Member>, i: int, j: int) -> Seq<Member> {
    ms.update(i, ms[j]).update(j, ms[i])
}

proof fn lemma_exchange_sum_ordered(p: RelationPenalty, ms: Seq<Member>, i: int, j: int, id: Id)
    requires
        0 <= i < j < ms.len(),
    ensures
        sum_against(p, exchanged(ms, i, j), id) == sum_against(p, ms, id),
{
    let ex = exchanged(ms, i, j);
    lemma_sum_remove(p, ms, i, id);
    lemma_sum_remove(p, ms.remove(i), j - 1, id);
    lemma_sum_remove(p, ex, i, id);
    lemma_sum_remove(p, ex.remove(i), j - 1, id);
    assert(ex.remove(i).remove(j - 1) == ms.remove(i).remove(j - 1));
}

/// Two members trading places leaves every sum over the group unchanged.
pub proof fn lemma_exchange_sum(p: RelationPenalty, ms: Seq<Member>, i: int, j: int, id: Id)
    requires
        0 <= i < ms.len(),
        0 <= j < ms.len(),
    ensures
        sum_against(p, exchanged(ms, i, j), id) == sum_against(p, ms, id),
{
    if i < j {
        lemma_exchange_sum_ordered(p, ms, i, j, id);
    } else if j < i {
        assert(exchanged(ms, i, j) == exchanged(ms, j, i));
        lemma_exchange_sum_ordered(p, ms, j, i, id);
    } else {
        assert(exchanged(ms, i, j) == ms);
    }
}

proof fn lemma_exchange_ordered(p: RelationPenalty, ms: Seq<Member>, i: int, j: int, t: Seq<char>)
    requires
        0 <= i < j < ms.len(),
    ensures
        group_score(p, exchanged(ms, i, j)) == group_score(p, ms),
        tally(exchanged(ms, i, j), t) == tally(ms, t),
        row(p, exchanged(ms, i, j), i) == row(p, ms, j),
        row(p, exchanged(ms, i, j), j) == row(p, ms, i),
{
    let ex = exchanged(ms, i, j);
    let a = ms[i];
    let b = ms[j];
    let rest = ms.remove(j).remove(i);
    assert(ex.remove(j).remove(i) == rest);
    assert(ex.remove(i).remove(j - 1) == rest);
    assert(ms.remove(i).remove(j - 1) == rest);
    assert(ex.remove(j)[i] == b);
    assert(ms.remove(j)[i] == a);
    assert(ex.remove(i)[j - 1] == a);
    assert(ms.remove(i)[j - 1] == b);
    lemma_sum_remove(p, ex.remove(i), j - 1, b.id);
    lemma_sum_remove(p, ms.remove(j), i, b.id);
    lemma_sum_remove(p, ex.remove(j), i, a.id);
    lemma_sum_remove(p, ms.remove(i), j - 1, a.id);
    lemma_score_remove(p, ms, j);
    lemma_score_remove(p, ms.remove(j), i);
    lemma_score_remove(p, ex, j);
    lemma_score_remove(p, ex.remove(j), i);
    lemma_tally_remove(ms, j, t);
    lemma_tally_remove(ms.remove(j), i, t);
    lemma_tally_remove(ex, j, t);
    lemma_tally_remove(ex.remove(j), i, t);
}

/// Two members trading places leaves the group's penalty and tally
/// unchanged, and the two trade their rows.
pub proof fn lemma_exchange(p: RelationPenalty, ms: Seq<Member>, i: int, j: int, t: Seq<char>)
    requires
        0 <= i < ms.len(),
        0 <= j < ms.len(),
    ensures
        group_score(p, exchanged(ms, i, j)) == group_score(p, ms),
        tally(exchanged(ms, i, j), t) == tally(ms, t),
        row(p, exchanged(ms, i, j), i) == row(p, ms, j),
        row(p, exchanged(ms, i, j), j) == row(p, ms, i),
{
    if i < j {
        lemma_exchange_ordered(p, ms, i, j, t);
    } else if j < i {
        assert(exchanged(ms, i, j) == exchanged(ms, j, i));
        lemma_exchange_ordered(p, ms, j, i, t);
    } else {
        assert(exchanged(ms, i, j) == ms);
    }
}

/// Two other members trading places leaves a member's row unchanged.
pub proof fn lemma_exchange_row(p: RelationPenalty, ms: Seq<Member>, i: int, j: int, x: int)
    requires
        0 <= i < ms.len(),
        0 <= j < ms.len(),
        0 <= x < ms.len(),
        x != i,
        x != j,
    ensures
        row(p, exchanged(ms, i, j), x) == row(p, ms, x),
{
    let i2 = if i < x {
        i
    } else {
        i - 1
    };
    let j2 = if j < x {
        j
    } else {
        j - 1
    };
    assert(exchanged(ms, i, j).remove(x) == exchanged(ms.remove(x), i2, j2));
    lemma_exchange_sum(p, ms.remove(x), i2, j2, ms[x].id);
}

/// The pairs `(i, j)` with `lo <= i < j < n`, in lexicographic order.
pub open spec fn pairs_from(lo: int, n: int) -> Seq<(usize, usize)>
    decreases n - lo,
{
    if lo >= n {
        Seq::empty()
    } else {
        Seq::new((n - lo - 1) as nat, |k: int| (lo as usize, (lo + 1 + k) as usize)) + pairs_from(
            lo + 1,
            n,
        )
    }
}

/// Relies on itertools' `tuple_combinations`: on `0..n` it yields every
/// pair `(i, j)` with `i < j < n` once, in lexicographic order.
#[verifier::external_body]
fn index_pairs(n: usize) -> (r: Vec<(usize, usize)>)
    ensures
        r@ == pairs_from(0, n as int),
{
    (0..n).tuple_combinations::<(usize, usize)>().collect()
}

/// The sum of the penalties of the pairs of members of `ms` at the
/// positions `ps`.
pub open spec fn pairs_total(p: RelationPenalty, ms: Seq<Member>, ps: Seq<(usize, usize)>) -> int
    decreases ps.len(),
{
    if ps.len() == 0 {
        0
    } else {
        pairs_total(p, ms, ps.drop_last()) + p.pair_value(
            ms[ps.last().0 as int].id,
            ms[ps.last().1 as int].id,
        )
    }
}

proof fn lemma_pairs_concat(
    p: RelationPenalty,
    ms: Seq<Member>,
    a: Seq<(usize, usize)>,
    b: Seq<(usize, usize)>,
)
    ensures
        pairs_total(p, ms, a + b) == pairs_total(p, ms, a) + pairs_total(p, ms, b),
    decreases b.len(),
{
    if b.len() == 0 {
        assert(a + b == a);
    } else {
        assert((a + b).drop_last() == a + b.drop_last());
        lemma_pairs_concat(p, ms, a, b.drop_last());
    }
}

proof fn lemma_pairs_row(p: RelationPenalty, ms: Seq<Member>, lo: int, m: int)
    requires
        0 <= lo < m <= ms.len(),
        ms.len() <= usize::MAX,
    ensures
        pairs_total(p, ms, Seq::new((m - lo - 1) as nat, |k: int| (lo as usize, (lo + 1 + k) as usize)))
            == sum_against(p, ms.subrange(lo + 1, m), ms[lo].id),
    decreases m - lo,
{
    let ps = Seq::new((m - lo - 1) as nat, |k: int| (lo as usize, (lo + 1 + k) as usize));
    if m - lo - 1 > 0 {
        lemma_pairs_row(p, ms, lo, m - 1);
        let qs = Seq::new((m - 1 - lo - 1) as nat, |k: int| (lo as usize, (lo + 1 + k) as usize));
        assert(ps.drop_last() == qs);
        assert(ms.subrange(lo + 1, m).drop_last() == ms.subrange(lo + 1, m - 1));
    } else {
        assert(ms.subrange(lo + 1, m).len() == 0);
    }
}

proof fn lemma_pairs_from(p: RelationPenalty, ms: Seq<Member>, lo: int)
    requires
        0 <= lo <= ms.len(),
        ms.len() <= usize::MAX,
    ensures
        pairs_total(p, ms, pairs_from(lo, ms.len() as int)) == group_score(
            p,
            ms.subrange(lo, ms.len() as int),
        ),
    decreases ms.len() - lo,
{
    let n = ms.len() as int;
    if lo < n {
        let row_pairs = Seq::new((n - lo - 1) as nat, |k: int| (lo as usize, (lo + 1 + k) as usize));
        lemma_pairs_from(p, ms, lo + 1);
        lemma_pairs_concat(p, ms, row_pairs, pairs_from(lo + 1, n));
        lemma_pairs_row(p, ms, lo, n);
        let sub = ms.subrange(lo, n);
        lemma_score_remove(p, sub, 0);
        assert(sub.remove(0) == ms.subrange(lo + 1, n));
    } else {
        assert(ms.subrange(lo, n).len() == 0);
    }
}

/// Groups that hold the same ids and tags place by place have the same
/// penalty and tally.
pub proof fn lemma_same_members(p: RelationPenalty, a: Seq<Member>, b: Seq<Member>, t: Seq<char>)
    requires
        same_members(a, b),
    ensures
        group_score(p, a) == group_score(p, b),
        tally(a, t) == tally(b, t),
        forall|id: Id| #[trigger] sum_against(p, a, id) == sum_against(p, b, id),
    decreases a.len(),
{
    if a.len() > 0 {
        assert(a.last() == a[a.len() - 1]);
        assert(b.last() == b[b.len() - 1]);
        assert(same_members(a.drop_last(), b.drop_last())) by {
            assert forall|i: int| 0 <= i < a.drop_last().len() implies same_member(
                #[trigger] a.drop_last()[i],
                b.drop_last()[i],
            ) by {
                assert(a.drop_last()[i] == a[i]);
                assert(b.drop_last()[i] == b[i]);
            }
        }
        lemma_same_members(p, a.drop_last(), b.drop_last(), t);
        assert(a.last().has_tag(t) == b.last().has_tag(t));
        assert forall|id: Id| #[trigger] sum_against(p, a, id) == sum_against(p, b, id) by {
            assert(sum_against(p, a.drop_last(), id) == sum_against(p, b.drop_last(), id));
        }
    } else {
        assert forall|id: Id| #[trigger] sum_against(p, a, id) == sum_against(p, b, id) by {}
    }
}

impl Group {
    /// The group's penalty computed from scratch: the sum of the penalties
    /// of all its unordered pairs of members.
    pub fn calc_score(&self, penalty: &RelationPenalty) -> (r: Score)
        requires
            self.members@.len() <= MAX_GROUP_SIZE,
        ensures
            r as int == group_score(*penalty, self.members@),
    {
        let ghost ms = self.members@;
        let ps = index_pairs(self.members.len());
        proof {
            lemma_pairs_from(*penalty, ms, 0);
            assert(ms.subrange(0, ms.len() as int) == ms);
            lemma_score_bound(*penalty, ms);
        }
        let mut total: i128 = 0;
        let mut q: usize = 0;
        while q < ps.len()
            invariant
                q <= ps@.len(),
                ps@ == pairs_from(0, ms.len() as int),
                ms == self.members@,
                ms.len() <= MAX_GROUP_SIZE,
                total as int == pairs_total(*penalty, ms, ps@.take(q as int)),
                -(q * pair_bound()) <= total <= q * pair_bound(),
            decreases ps@.len() - q,
        {
            let (i, j) = ps[q];
            proof {
                assert(ps@.take(q + 1).drop_last() == ps@.take(q as int));
                assert(ps@.take(q + 1).last() == ps@[q as int]);
                lemma_pair_in_range(ms.len() as int, 0, q as int);
            }
            let v = penalty.get_pair([self.members[i].id, self.members[j].id]);
            total = total + v as i128;
            q = q + 1;
        }
        proof {
            assert(ps@.take(ps@.len() as int) == ps@);
        }
        total as Score
    }
}

proof fn lemma_pair_in_range(n: int, lo: int, q: int)
    requires
        0 <= lo,
        0 <= q < pairs_from(lo, n).len(),
    ensures
        pairs_from(lo, n)[q].0 < n,
        pairs_from(lo, n)[q].1 < n,
    decreases n - lo,
{
    if lo < n {
        let len = n - lo - 1;
        if q >= len {
            lemma_pair_in_range(n, lo + 1, q - len);
        }
    }
}

} // verus!
