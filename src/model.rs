//! Members, groups, tables and the policy (pair penalties and tag quotas)
//! that scores them.

use crate::tally::TagCounter;
use std::collections::HashMap;
use vstd::prelude::*;

verus! {

broadcast use vstd::std_specs::hash::group_hash_axioms;

/// A member's identifier.
pub type Id = u32;

/// A tag carried by a member.
pub type Tag = String;

/// The penalty between one pair of members.
pub type PairScore = i32;

/// An addressable entity with an identifier and a set of tags.
#[derive(Debug, Clone, PartialEq)]
pub struct Member {
    pub id: Id,
    pub tags: Vec<Tag>,
}

/// Whether some entry of `tags` reads `t`.
pub open spec fn tags_contain(tags: Seq<Tag>, t: Seq<char>) -> bool {
    exists|i: int| 0 <= i < tags.len() && (#[trigger] tags[i])@ == t
}

impl Member {
    /// Whether the member carries tag `t` (repeated entries count once).
    pub open spec fn has_tag(&self, t: Seq<char>) -> bool {
        tags_contain(self.tags@, t)
    }

    /// A separate member with the same id and tags.
    pub fn duplicate(&self) -> (r: Member)
        ensures
            same_member(r, *self),
    {
        let tags = self.tags.clone();
        proof {
            assert(tags@ == self.tags@);
        }
        Member { id: self.id, tags }
    }
}

/// `a` and `b` have the same id and the same tags, in the same order.
pub open spec fn same_member(a: Member, b: Member) -> bool {
    a.id == b.id && a.tags@ == b.tags@
}

/// `a` and `b` hold, place by place, members with the same id and tags.
pub open spec fn same_members(a: Seq<Member>, b: Seq<Member>) -> bool {
    a.len() == b.len() && forall|i: int| 0 <= i < a.len() ==> same_member(#[trigger] a[i], b[i])
}

/// An ordered sequence of members; the order is addressing, not ranking.
pub struct Group {
    pub members: Vec<Member>,
}

/// The full partition: every group of one run.
pub struct Table {
    pub groups: Vec<Group>,
}

/// The key under which the unordered pair `{a, b}` is stored.
pub open spec fn pair_key(a: Id, b: Id) -> u64 {
    if a <= b {
        (a as int * 0x1_0000_0000 + b as int) as u64
    } else {
        (b as int * 0x1_0000_0000 + a as int) as u64
    }
}

fn key_of(a: Id, b: Id) -> (k: u64)
    ensures
        k == pair_key(a, b),
{
    let (lo, hi) = if a <= b {
        (a, b)
    } else {
        (b, a)
    };
    (lo as u64) * 0x1_0000_0000 + (hi as u64)
}

/// A symmetric penalty over unordered pairs of member ids: explicit
/// overrides, and a default for every other pair.
pub struct RelationPenalty {
    pub scores: HashMap<u64, PairScore>,
    pub default: PairScore,
}

impl RelationPenalty {
    /// The penalty of the pair `{a, b}`.
    pub open spec fn pair_value(&self, a: Id, b: Id) -> int {
        if self.scores@.contains_key(pair_key(a, b)) {
            self.scores@[pair_key(a, b)] as int
        } else {
            self.default as int
        }
    }

    /// A penalty that gives `default` to every pair.
    pub fn new(default: PairScore) -> (r: RelationPenalty)
        ensures
            r.scores@ == Map::<u64, PairScore>::empty(),
            r.default == default,
            forall|a: Id, b: Id| #[trigger] r.pair_value(a, b) == default,
    {
        RelationPenalty { scores: HashMap::new(), default }
    }

    /// Sets the penalty of the unordered pair `{ids[0], ids[1]}`.
    pub fn set_pair(&mut self, ids: [Id; 2], score: PairScore)
        ensures
            final(self).default == old(self).default,
            forall|a: Id, b: Id|
                #[trigger] final(self).pair_value(a, b) == if (a == ids[0] && b == ids[1]) || (a
                    == ids[1] && b == ids[0]) {
                    score as int
                } else {
                    old(self).pair_value(a, b)
                },
    {
        let k = key_of(ids[0], ids[1]);
        self.scores.insert(k, score);
    }

    /// The penalty of the unordered pair `{ids[0], ids[1]}`.
    pub fn get_pair(&self, ids: [Id; 2]) -> (r: PairScore)
        ensures
            r as int == self.pair_value(ids[0], ids[1]),
    {
        let k = key_of(ids[0], ids[1]);
        match self.scores.get(&k) {
            Some(v) => *v,
            None => self.default,
        }
    }
}

/// The penalty is the same in both directions.
pub proof fn lemma_pair_symmetric(p: &RelationPenalty, a: Id, b: Id)
    ensures
        p.pair_value(a, b) == p.pair_value(b, a),
{
}

/// The fraction `num / den` of a group's size.
#[derive(Debug, Clone, Copy, PartialEq, Eq)]
pub struct Fraction {
    pub num: u64,
    pub den: u64,
}

/// The allowed number of members carrying one tag.
#[derive(Debug, Clone, Copy, PartialEq, Eq)]
#[allow(inconsistent_fields)]
pub enum Range {
    /// Between `min` and `max` times the group's size, inclusive.
    Ratio { min: Fraction, max: Fraction },
    /// Between `min` and `max` members, inclusive.
    Count { min: usize, max: usize },
}

impl Range {
    /// Whether `count` members carrying the tag are allowed in a group of
    /// `n` members.
    pub open spec fn admits(&self, count: nat, n: nat) -> bool {
        match *self {
            Range::Ratio { min, max } => !(count * min.den < min.num * n) && !(count * max.den
                > max.num * n),
            Range::Count { min, max } => min <= count <= max,
        }
    }

    /// Whether `count` members carrying the tag are allowed in a group of
    /// `n_members` members.
    pub fn allows(&self, count: usize, n_members: usize) -> (r: bool)
        ensures
            r == self.admits(count as nat, n_members as nat),
    {
        match *self {
            Range::Ratio { min, max } => {
                let below = scaled(count, min.den) < scaled(n_members, min.num);
                let above = scaled(count, max.den) > scaled(n_members, max.num);
                !below && !above
            },
            Range::Count { min, max } => min <= count && count <= max,
        }
    }
}

fn scaled(a: usize, b: u64) -> (r: u128)
    ensures
        r as int == a as int * b as int,
{
    assert(a as int * b as int <= u128::MAX) by (nonlinear_arith)
        requires
            a as int <= u64::MAX as int,
            b as int <= u64::MAX as int,
    ;
    (a as u128) * (b as u128)
}

/// The tags of `rules` whose range does not admit `count` in a group of `n`
/// members, in the order of `rules`.
pub open spec fn violations(
    rules: Seq<(Tag, Range)>,
    count: spec_fn(Seq<char>) -> nat,
    n: nat,
) -> Seq<Seq<char>>
    decreases rules.len(),
{
    if rules.len() == 0 {
        Seq::empty()
    } else {
        let rest = violations(rules.drop_last(), count, n);
        let (tag, range) = rules.last();
        if range.admits(count(tag@), n) {
            rest
        } else {
            rest.push(tag@)
        }
    }
}

proof fn lemma_violations_empty(rules: Seq<(Tag, Range)>, count: spec_fn(Seq<char>) -> nat, n: nat)
    ensures
        (violations(rules, count, n).len() == 0) == (forall|i: int|
            0 <= i < rules.len() ==> (#[trigger] rules[i]).1.admits(count(rules[i].0@), n)),
    decreases rules.len(),
{
    if rules.len() > 0 {
        lemma_violations_empty(rules.drop_last(), count, n);
        assert(rules.last() == rules[rules.len() - 1]);
        if violations(rules, count, n).len() == 0 {
            assert forall|i: int| 0 <= i < rules.len() implies (#[trigger] rules[i]).1.admits(
                count(rules[i].0@),
                n,
            ) by {
                if i < rules.len() - 1 {
                    assert(rules.drop_last()[i] == rules[i]);
                }
            }
        } else if forall|i: int|
            0 <= i < rules.len() ==> (#[trigger] rules[i]).1.admits(count(rules[i].0@), n) {
            assert forall|i: int| 0 <= i < rules.drop_last().len() implies (
            #[trigger] rules.drop_last()[i]).1.admits(count(rules.drop_last()[i].0@), n) by {
                assert(rules.drop_last()[i] == rules[i]);
            }
        }
    }
}

/// No two entries of `rules` are for the same tag.
pub open spec fn tags_distinct(rules: Seq<(Tag, Range)>) -> bool {
    forall|i: int, j: int|
        0 <= i < j < rules.len() ==> (#[trigger] rules[i]).0@ != (#[trigger] rules[j]).0@
}

/// Per-tag quotas: a mapping from tag to its allowed range. Tags without
/// an entry are unconstrained.
pub struct Constraint {
    rules: Vec<(Tag, Range)>,
}

impl Constraint {

    /// The entries, one per constrained tag.
    pub closed spec fn rules(&self) -> Seq<(Tag, Range)> {
        self.rules@
    }

    /// Whether every constrained tag's count, as given by `count`, lies in
    /// its range for a group of `n` members.
    pub open spec fn holds(&self, count: spec_fn(Seq<char>) -> nat, n: nat) -> bool {
        forall|i: int|
            0 <= i < self.rules().len() ==> (#[trigger] self.rules()[i]).1.admits(
                count(self.rules()[i].0@),
                n,
            )
    }

    /// A constraint with no entries.
    pub fn new() -> (r: Constraint)
        ensures
            r.rules() == Seq::<(Tag, Range)>::empty(),
            tags_distinct(r.rules()),
    {
        Constraint { rules: Vec::new() }
    }

    /// Sets the range of `tag`, replacing the entry of that tag if there is
    /// one.
    pub fn insert(&mut self, tag: Tag, range: Range)
        ensures
            (exists|i: int|
                0 <= i < old(self).rules().len() && (#[trigger] old(self).rules()[i]).0@ == tag@
                    && final(self).rules() == old(self).rules().update(i, (tag, range))) || ((
            forall|i: int|
                0 <= i < old(self).rules().len() ==> (#[trigger] old(self).rules()[i]).0@
                    != tag@) && final(self).rules() == old(self).rules().push((tag, range))),
            tags_distinct(old(self).rules()) ==> tags_distinct(final(self).rules()),
    {
        let mut i: usize = 0;
        while i < self.rules.len()
            invariant
                i <= self.rules@.len(),
                self.rules@ == old(self).rules@,
                forall|j: int| 0 <= j < i ==> (#[trigger] self.rules@[j]).0@ != tag@,
            decreases self.rules@.len() - i,
        {
            if self.rules[i].0 == tag {
                let ghost t = tag;
                let ghost before = self.rules@;
                self.rules.set(i, (tag, range));
                proof {
                    assert(old(self).rules()[i as int].0@ == t@);
                    assert forall|a: int, b: int|
                        tags_distinct(before) && 0 <= a < b < self.rules@.len() implies (
                    #[trigger] self.rules@[a]).0@ != (#[trigger] self.rules@[b]).0@ by {
                        assert(before[a].0@ != before[b].0@);
                    }
                }
                return;
            }
            i = i + 1;
        }
        let ghost before = self.rules@;
        let ghost t = tag;
        self.rules.push((tag, range));
        proof {
            assert forall|a: int, b: int|
                tags_distinct(before) && 0 <= a < b < self.rules@.len() implies (
            #[trigger] self.rules@[a]).0@ != (#[trigger] self.rules@[b]).0@ by {
                if b < before.len() {
                    assert(before[a].0@ != before[b].0@);
                } else {
                    assert(self.rules@[b].0@ == t@);
                    assert(self.rules@[a] == before[a]);
                }
            }
        }
    }

    /// Checks the tally of a group of `n_members` members against every
    /// entry; on failure, lists the tags out of range.
    pub fn check(&self, tagcounts: &TagCounter, n_members: usize) -> (r: Result<(), Vec<Tag>>)
        requires
            tagcounts.wf(),
        ensures
            r is Ok == self.holds(|t: Seq<char>| tagcounts.count(t), n_members as nat),
            r matches Err(v) ==> v@.map_values(|s: Tag| s@) == violations(
                self.rules(),
                |t: Seq<char>| tagcounts.count(t),
                n_members as nat,
            ),
    {
        let ghost count = |t: Seq<char>| tagcounts.count(t);
        let mut bad: Vec<Tag> = Vec::new();
        let mut i: usize = 0;
        while i < self.rules.len()
            invariant
                i <= self.rules@.len(),
                tagcounts.wf(),
                count == (|t: Seq<char>| tagcounts.count(t)),
                bad@.map_values(|s: Tag| s@) == violations(
                    self.rules@.take(i as int),
                    count,
                    n_members as nat,
                ),
            decreases self.rules@.len() - i,
        {
            let c = tagcounts.get(&self.rules[i].0);
            let ok = self.rules[i].1.allows(c, n_members);
            proof {
                assert(self.rules@.take(i + 1).drop_last() == self.rules@.take(i as int));
                assert(self.rules@.take(i + 1).last() == self.rules@[i as int]);
            }
            if !ok {
                let ghost before = bad@;
                bad.push(self.rules[i].0.clone());
                proof {
                    assert(bad@.map_values(|s: Tag| s@) == before.map_values(|s: Tag| s@).push(
                        self.rules@[i as int].0@,
                    ));
                }
            }
            i = i + 1;
        }
        proof {
            assert(self.rules@.take(self.rules@.len() as int) == self.rules@);
            lemma_violations_empty(self.rules@, count, n_members as nat);
            assert(bad@.map_values(|s: Tag| s@).len() == bad@.len());
            assert(self.rules() == self.rules@);
            assert(self.holds(count, n_members as nat) == (violations(
                self.rules@,
                count,
                n_members as nat,
            ).len() == 0));
        }
        if bad.len() == 0 {
            Ok(())
        } else {
            Err(bad)
        }
    }
}

/// The policy of one run: pair penalties and tag quotas.
pub struct Condition {
    pub penalty: RelationPenalty,
    pub constraint: Constraint,
}

} // verus!
