//! The candidate stream and the accept/reject decision of the annealing
//! search.

use crate::action::{Action, ActionResult, Index, Position, Score};
use rand::rngs::SmallRng;
use rand::seq::SliceRandom;
use rand::SeedableRng;
use vstd::prelude::*;

verus! {

broadcast use vstd::seq_lib::group_to_multiset_ensures;

#[verifier::external_type_specification]
#[verifier::external_body]
pub struct ExSmallRng(SmallRng);

/// Relies on rand's `SeedableRng::seed_from_u64` for `SmallRng`: a
/// generator whose stream is fixed by `seed`.
#[verifier::external_body]
fn seeded_rng(seed: u64) -> SmallRng {
    SmallRng::seed_from_u64(seed)
}

/// Relies on rand's `SliceRandom::shuffle`: it reorders the elements in
/// place by swaps, so the same elements remain.
#[verifier::external_body]
fn shuffle_positions(v: &mut Vec<Position>, rng: &mut SmallRng)
    ensures
        final(v)@.to_multiset() == old(v)@.to_multiset(),
{
    v.shuffle(rng);
}

/// Every position of a table whose groups have the sizes `sizes`, group by
/// group and in order within each group.
pub open spec fn all_positions(sizes: Seq<Index>) -> Seq<Position>
    decreases sizes.len(),
{
    if sizes.len() == 0 {
        Seq::empty()
    } else {
        all_positions(sizes.drop_last()) + Seq::new(
            sizes.last() as nat,
            |m: int| Position { group_index: (sizes.len() - 1) as usize, member_index: m as usize },
        )
    }
}

/// `pos` addresses a member of a table whose groups have the sizes `sizes`.
pub open spec fn fits(sizes: Seq<Index>, pos: Position) -> bool {
    pos.group_index < sizes.len() && pos.member_index < sizes[pos.group_index as int]
}

proof fn lemma_all_positions(sizes: Seq<Index>)
    requires
        sizes.len() <= usize::MAX,
    ensures
        forall|i: int|
            0 <= i < all_positions(sizes).len() ==> fits(sizes, #[trigger] all_positions(sizes)[i]),
        forall|g: int|
            0 <= g < sizes.len() && sizes[g] > 0 ==> all_positions(sizes).contains(
                Position { group_index: g as usize, member_index: 0 },
            ),
    decreases sizes.len(),
{
    if sizes.len() > 0 {
        let d = sizes.drop_last();
        lemma_all_positions(d);
        let a = all_positions(d);
        let b = Seq::new(
            sizes.last() as nat,
            |m: int| Position { group_index: (sizes.len() - 1) as usize, member_index: m as usize },
        );
        assert(all_positions(sizes) == a + b);
        assert forall|i: int| 0 <= i < (a + b).len() implies fits(sizes, #[trigger] (a + b)[i]) by {
            if i < a.len() {
                assert((a + b)[i] == a[i]);
                assert(fits(d, a[i]));
                assert(d[a[i].group_index as int] == sizes[a[i].group_index as int]);
            } else {
                assert((a + b)[i] == b[i - a.len()]);
                assert(sizes.last() == sizes[sizes.len() - 1]);
            }
        }
        assert forall|g: int| 0 <= g < sizes.len() && sizes[g] > 0 implies (a + b).contains(
            Position { group_index: g as usize, member_index: 0 },
        ) by {
            let pos = Position { group_index: g as usize, member_index: 0 };
            if g < sizes.len() - 1 {
                assert(d[g] == sizes[g]);
                let i = choose|i: int| 0 <= i < a.len() && a[i] == pos;
                assert((a + b)[i] == pos);
            } else {
                assert(sizes.last() == sizes[g]);
                assert((a + b)[a.len() as int] == b[0]);
            }
        }
    }
}

/// `f` is one full sweep: every position, once, in some order.
pub open spec fn is_sweep(sizes: Seq<Index>, f: Seq<Position>) -> bool {
    f.to_multiset() == all_positions(sizes).to_multiset()
}

/// Some entry of `s` lies outside group `g`.
pub open spec fn has_other(s: Seq<Position>, g: Index) -> bool {
    exists|i: int| 0 <= i < s.len() && (#[trigger] s[i]).group_index != g
}

/// `k` is the last entry of `s` that lies outside group `g`.
pub open spec fn last_outside(s: Seq<Position>, g: Index, k: int) -> bool {
    &&& 0 <= k < s.len()
    &&& s[k].group_index != g
    &&& forall|j: int| k < j < s.len() ==> (#[trigger] s[j]).group_index == g
}

/// The first draw from the pending positions `cs` is `p1`, leaving `rest`:
/// the last of `cs`, or, where `cs` is empty, the last of a fresh sweep.
pub open spec fn draws_first(sizes: Seq<Index>, cs: Seq<Position>, p1: Position, rest: Seq<Position>) -> bool {
    if cs.len() > 0 {
        p1 == cs.last() && rest == cs.drop_last()
    } else {
        exists|f: Seq<Position>|
            is_sweep(sizes, f) && f.len() > 0 && p1 == f.last() && rest == f.drop_last()
    }
}

/// The second draw after `p1` from the pending positions `rest` is `p2`,
/// leaving `left`: the last of `rest` outside `p1`'s group, or, where there
/// is none, the last such of a fresh sweep.
pub open spec fn draws_second(
    sizes: Seq<Index>,
    rest: Seq<Position>,
    p1: Position,
    p2: Position,
    left: Seq<Position>,
) -> bool {
    if has_other(rest, p1.group_index) {
        exists|k: int|
            last_outside(rest, p1.group_index, k) && p2 == rest[k] && left == rest.subrange(0, k)
    } else {
        exists|f: Seq<Position>, k: int|
            is_sweep(sizes, f) && last_outside(f, p1.group_index, k) && p2 == f[k] && left
                == f.subrange(0, k)
    }
}

/// Drawing a candidate from the pending positions `cs` gives the swap `a`
/// and leaves `left` pending.
pub open spec fn draws(sizes: Seq<Index>, cs: Seq<Position>, a: Action, left: Seq<Position>) -> bool {
    &&& a is Swap
    &&& exists|rest: Seq<Position>|
        #![trigger draws_first(sizes, cs, a->Swap_0, rest)]
        draws_first(sizes, cs, a->Swap_0, rest) && draws_second(
            sizes,
            rest,
            a->Swap_0,
            a->Swap_1,
            left,
        )
}

/// An endless stream of swaps between members of two different groups.
/// Each sweep offers every position once, in shuffled order, two at a
/// time; a draw of two positions of one group is put aside and redrawn.
pub struct SwapGenerator {
    sizes: Vec<Index>,
    candidates: Vec<Position>,
    rng: SmallRng,
}

impl SwapGenerator {
    /// At least two groups, none empty, and every pending position fits.
    pub closed spec fn wf(&self) -> bool {
        &&& 1 < self.sizes@.len() <= usize::MAX
        &&& forall|g: int| 0 <= g < self.sizes@.len() ==> #[trigger] self.sizes@[g] > 0
        &&& forall|i: int|
            0 <= i < self.candidates@.len() ==> fits(self.sizes@, #[trigger] self.candidates@[i])
    }

    /// The group sizes the positions are drawn for.
    pub closed spec fn sizes(&self) -> Seq<Index> {
        self.sizes@
    }

    /// The positions still to be drawn in the current sweep.
    pub closed spec fn pending(&self) -> Seq<Position> {
        self.candidates@
    }

    /// The positions still to be drawn in the current sweep, drawn from
    /// the end.
    pub fn pending_positions(&self) -> (r: &Vec<Position>)
        ensures
            r@ == self.pending(),
    {
        &self.candidates
    }

    /// A generator for groups of the sizes `sizes`, with randomness seeded
    /// from `seed`; `None` unless there are at least two groups and none is
    /// empty.
    pub fn new(sizes: Vec<Index>, seed: u64) -> (r: Option<SwapGenerator>)
        ensures
            r is Some <==> (sizes@.len() > 1 && forall|g: int|
                0 <= g < sizes@.len() ==> #[trigger] sizes@[g] > 0),
            r matches Some(s) ==> s.wf() && s.sizes() == sizes@
                && s.pending().to_multiset() == all_positions(sizes@).to_multiset(),
    {
        if sizes.len() < 2 {
            return None;
        }
        let mut g: usize = 0;
        while g < sizes.len()
            invariant
                g <= sizes@.len(),
                forall|x: int| 0 <= x < g ==> #[trigger] sizes@[x] > 0,
            decreases sizes@.len() - g,
        {
            if sizes[g] == 0 {
                return None;
            }
            g = g + 1;
        }
        let mut s = SwapGenerator { sizes, candidates: Vec::new(), rng: seeded_rng(seed) };
        s.init();
        Some(s)
    }

    /// Starts a new sweep: every position, shuffled.
    fn init(&mut self)
        requires
            1 < old(self).sizes@.len() <= usize::MAX,
            forall|g: int| 0 <= g < old(self).sizes@.len() ==> #[trigger] old(self).sizes@[g] > 0,
        ensures
            final(self).wf(),
            final(self).sizes@ == old(self).sizes@,
            final(self).candidates@.to_multiset() == all_positions(old(self).sizes@).to_multiset(),
    {
        let mut all: Vec<Position> = Vec::new();
        let mut g: usize = 0;
        while g < self.sizes.len()
            invariant
                g <= self.sizes@.len(),
                all@ == all_positions(self.sizes@.take(g as int)),
            decreases self.sizes@.len() - g,
        {
            let ghost before = all@;
            let n = self.sizes[g];
            let mut m: usize = 0;
            while m < n
                invariant
                    g < self.sizes@.len(),
                    n == self.sizes@[g as int],
                    m <= n,
                    all@ == before + Seq::new(
                        m as nat,
                        |k: int| Position { group_index: g, member_index: k as usize },
                    ),
                decreases n - m,
            {
                all.push(Position { group_index: g, member_index: m });
                m = m + 1;
                proof {
                    assert(all@ == before + Seq::new(
                        m as nat,
                        |k: int| Position { group_index: g, member_index: k as usize },
                    ));
                }
            }
            proof {
                let s1 = self.sizes@.take(g + 1);
                assert(s1.drop_last() == self.sizes@.take(g as int));
                assert(s1.last() == n);
            }
            g = g + 1;
        }
        proof {
            assert(self.sizes@.take(self.sizes@.len() as int) == self.sizes@);
        }
        shuffle_positions(&mut all, &mut self.rng);
        proof {
            lemma_all_positions(self.sizes@);
            assert forall|i: int| 0 <= i < all@.len() implies fits(self.sizes@, #[trigger] all@[i]) by {
                let x = all@[i];
                assert(all@.to_multiset().count(x) > 0);
                assert(all_positions(self.sizes@).to_multiset().count(x) > 0);
                assert(all_positions(self.sizes@).contains(x));
            }
        }
        self.candidates = all;
    }

    /// The next candidate, a swap of two positions of different groups.
    /// The first position is the last pending one, or, where none is
    /// pending, the last of a fresh sweep. The second is the last of the
    /// remaining pending positions that lies in another group; the positions
    /// after it are put aside, and those before it stay pending. Where no
    /// remaining position lies in another group, they are all put aside and
    /// the second is drawn in the same way from a fresh sweep.
    pub fn next(&mut self) -> (a: Action)
        requires
            old(self).wf(),
        ensures
            final(self).wf(),
            final(self).sizes() == old(self).sizes(),
            a matches Action::Swap(p1, p2) && p1.group_index != p2.group_index && fits(
                old(self).sizes(),
                p1,
            ) && fits(old(self).sizes(), p2),
            draws(old(self).sizes(), old(self).pending(), a, final(self).pending()),
    {
        let ghost cs = self.candidates@;
        let pos1 = self.draw();
        let ghost rest = self.candidates@;
        let ghost mut base = rest;
        let mut refilled = false;
        proof {
            if cs.len() == 0 {
                let f = choose|f: Seq<Position>|
                    is_sweep(self.sizes@, f) && f.len() > 0 && pos1 == f.last() && rest
                        == f.drop_last();
                assert(draws_first(self.sizes@, cs, pos1, rest));
            }
        }
        loop
            invariant
                self.wf(),
                self.sizes@ == old(self).sizes@,
                cs == old(self).candidates@,
                fits(self.sizes@, pos1),
                draws_first(self.sizes@, cs, pos1, rest),
                self.candidates@.len() <= base.len(),
                self.candidates@ == base.subrange(0, self.candidates@.len() as int),
                forall|j: int|
                    self.candidates@.len() <= j < base.len() ==> (#[trigger] base[j]).group_index
                        == pos1.group_index,
                !refilled ==> base == rest,
                refilled ==> is_sweep(self.sizes@, base) && !has_other(rest, pos1.group_index),
                refilled ==> exists|i: int|
                    0 <= i < self.candidates@.len() && (#[trigger] self.candidates@[i]).group_index
                        != pos1.group_index,
            decreases (if refilled {
                0int
            } else {
                1int
            }), self.candidates@.len(),
        {
            if self.candidates.len() == 0 {
                proof {
                    assert(!has_other(rest, pos1.group_index)) by {
                        if has_other(rest, pos1.group_index) {
                            let i = choose|i: int|
                                0 <= i < rest.len() && (#[trigger] rest[i]).group_index
                                    != pos1.group_index;
                            assert(base[i] == rest[i]);
                        }
                    }
                }
                self.init();
                refilled = true;
                proof {
                    base = self.candidates@;
                    assert(self.candidates@ == base.subrange(0, base.len() as int));
                    lemma_all_positions(self.sizes@);
                    let other: usize = if pos1.group_index == 0 {
                        1
                    } else {
                        0
                    };
                    let x = Position { group_index: other, member_index: 0 };
                    assert(self.sizes@[other as int] > 0);
                    assert(all_positions(self.sizes@).contains(x));
                    assert(all_positions(self.sizes@).to_multiset().count(x) > 0);
                    assert(self.candidates@.to_multiset().count(x) > 0);
                    assert(self.candidates@.contains(x));
                }
            }
            let ghost before = self.candidates@;
            let pos2 = match self.candidates.pop() {
                Some(p) => p,
                None => {
                    return Action::Swap(pos1, pos1);
                },
            };
            proof {
                let k = before.len() - 1;
                assert(before.last() == pos2);
                assert(base[k] == pos2);
                assert(self.candidates@ == before.drop_last());
                assert(self.candidates@ == base.subrange(0, k));
                assert(fits(self.sizes@, before[before.len() - 1]));
                if refilled && pos2.group_index == pos1.group_index {
                    let i = choose|i: int|
                        0 <= i < before.len() && (#[trigger] before[i]).group_index
                            != pos1.group_index;
                    assert(self.candidates@[i] == before[i]);
                }
                assert forall|i: int| 0 <= i < self.candidates@.len() implies fits(
                    self.sizes@,
                    #[trigger] self.candidates@[i],
                ) by {
                    assert(self.candidates@[i] == before[i]);
                }
                if pos2.group_index != pos1.group_index {
                    assert(last_outside(base, pos1.group_index, k));
                    if !refilled {
                        assert(has_other(rest, pos1.group_index)) by {
                            assert(rest[k].group_index != pos1.group_index);
                        }
                    }
                    assert(draws_second(
                        self.sizes@,
                        rest,
                        pos1,
                        pos2,
                        self.candidates@,
                    ));
                    assert(draws_first(self.sizes@, cs, pos1, rest));
                    let left = self.candidates@;
                    let act = Action::Swap(pos1, pos2);
                    assert(act->Swap_0 == pos1);
                    assert(act->Swap_1 == pos2);
                    assert(draws_first(self.sizes@, cs, act->Swap_0, rest) && draws_second(
                        self.sizes@,
                        rest,
                        act->Swap_0,
                        act->Swap_1,
                        left,
                    ));
                    assert(old(self).sizes() == self.sizes@);
                    assert(old(self).pending() == cs);
                    assert(draws(old(self).sizes(), old(self).pending(), act, self.pending()));
                }
            }
            if pos2.group_index != pos1.group_index {
                return Action::Swap(pos1, pos2);
            }
        }
    }

    /// Draws the last pending position, starting a new sweep first where
    /// none is pending.
    fn draw(&mut self) -> (p: Position)
        requires
            old(self).wf(),
        ensures
            final(self).wf(),
            final(self).sizes@ == old(self).sizes@,
            fits(final(self).sizes@, p),
            old(self).candidates@.len() > 0 ==> p == old(self).candidates@.last()
                && final(self).candidates@ == old(self).candidates@.drop_last(),
            old(self).candidates@.len() == 0 ==> exists|f: Seq<Position>|
                is_sweep(old(self).sizes@, f) && f.len() > 0 && p == f.last()
                    && final(self).candidates@ == f.drop_last(),
    {
        if self.candidates.len() == 0 {
            self.init();
            proof {
                lemma_all_positions(self.sizes@);
                let x = Position { group_index: 0, member_index: 0 };
                assert(self.sizes@[0] > 0);
                assert(all_positions(self.sizes@).contains(x));
                assert(all_positions(self.sizes@).to_multiset().count(x) > 0);
                assert(self.candidates@.to_multiset().count(x) > 0);
            }
        }
        let ghost before = self.candidates@;
        match self.candidates.pop() {
            Some(p) => {
                proof {
                    assert(before.last() == p);
                    assert(fits(self.sizes@, before[before.len() - 1]));
                    assert forall|i: int| 0 <= i < self.candidates@.len() implies fits(
                        self.sizes@,
                        #[trigger] self.candidates@[i],
                    ) by {
                        assert(self.candidates@[i] == before[i]);
                    }
                    if old(self).candidates@.len() == 0 {
                        assert(is_sweep(old(self).sizes@, before));
                    }
                }
                p
            },
            None => {
                proof {
                    assert(self.candidates@.to_multiset().len() == 0);
                }
                Position { group_index: 0, member_index: 0 }
            },
        }
    }
}

/// What the search does with an evaluated candidate.
#[derive(Debug, Clone, Copy, PartialEq, Eq)]
pub enum Verdict {
    /// The candidate addresses nothing: draw another without spending an
    /// iteration.
    Redraw,
    /// Commit the candidate.
    Accept,
    /// Commit the candidate with probability `exp(-cost / temperature)`.
    Chance { cost: i128 },
}

/// The cost the acceptance rule weighs for `result`: its change of
/// penalty, plus `penalty_offset` where the quotas would not hold.
pub open spec fn cost_of(result: ActionResult, penalty_offset: int) -> int {
    match result {
        ActionResult::UnsatisfiedScoreDiff(d) => d + penalty_offset,
        _ => result.delta(),
    }
}

/// Decides on an evaluated candidate: a failure is redrawn; a cost of at
/// most 0 is accepted outright; any other cost is left to chance.
pub fn judge(result: &ActionResult, penalty_offset: Score) -> (v: Verdict)
    ensures
        result is Failed ==> v == Verdict::Redraw,
        !(result is Failed) && cost_of(*result, penalty_offset as int) <= 0 ==> v
            == Verdict::Accept,
        !(result is Failed) && cost_of(*result, penalty_offset as int) > 0 ==> v
            == (Verdict::Chance { cost: cost_of(*result, penalty_offset as int) as i128 }),
{
    let cost: i128 = match result {
        ActionResult::Failed(_) => {
            return Verdict::Redraw;
        },
        ActionResult::ScoreDiff(d) => *d as i128,
        ActionResult::UnsatisfiedScoreDiff(d) => *d as i128 + penalty_offset as i128,
    };
    if cost <= 0 {
        Verdict::Accept
    } else {
        Verdict::Chance { cost }
    }
}

} // verus!
