//! A running tally of how many members carry each tag.

use crate::model::{tags_contain, Tag};
use vstd::prelude::*;

verus! {

/// The count recorded for `t` in `s`, or 0 where `t` has no entry.
pub open spec fn count_in(s: Seq<(Tag, usize)>, t: Seq<char>) -> nat
    decreases s.len(),
{
    if s.len() == 0 {
        0
    } else if s.last().0@ == t {
        s.last().1 as nat
    } else {
        count_in(s.drop_last(), t)
    }
}

/// No two entries of `s` are for the same tag.
pub open spec fn keys_unique(s: Seq<(Tag, usize)>) -> bool {
    forall|i: int, j: int| 0 <= i < j < s.len() ==> (#[trigger] s[i]).0@ != (#[trigger] s[j]).0@
}

/// 1 where `tags` holds `t`, else 0.
pub open spec fn indicator(tags: Seq<Tag>, t: Seq<char>) -> nat {
    if tags_contain(tags, t) {
        1
    } else {
        0
    }
}

proof fn lemma_count_at(s: Seq<(Tag, usize)>, i: int)
    requires
        keys_unique(s),
        0 <= i < s.len(),
    ensures
        count_in(s, s[i].0@) == s[i].1 as nat,
    decreases s.len(),
{
    if i < s.len() - 1 {
        assert(s.last() == s[s.len() - 1]);
        lemma_count_at(s.drop_last(), i);
    }
}

proof fn lemma_count_absent(s: Seq<(Tag, usize)>, t: Seq<char>)
    requires
        forall|i: int| 0 <= i < s.len() ==> (#[trigger] s[i]).0@ != t,
    ensures
        count_in(s, t) == 0,
    decreases s.len(),
{
    if s.len() > 0 {
        assert(s.last() == s[s.len() - 1]);
        lemma_count_absent(s.drop_last(), t);
    }
}

proof fn lemma_count_update(s: Seq<(Tag, usize)>, i: int, v: usize, t: Seq<char>)
    requires
        keys_unique(s),
        0 <= i < s.len(),
    ensures
        keys_unique(s.update(i, (s[i].0, v))),
        count_in(s.update(i, (s[i].0, v)), t) == if t == s[i].0@ {
            v as nat
        } else {
            count_in(s, t)
        },
{
    let u = s.update(i, (s[i].0, v));
    assert(keys_unique(u)) by {
        assert forall|a: int, b: int| 0 <= a < b < u.len() implies (#[trigger] u[a]).0@ != (
        #[trigger] u[b]).0@ by {
            assert(s[a].0@ != s[b].0@);
        }
    }
    if t == s[i].0@ {
        lemma_count_at(u, i);
    } else if exists|j: int| 0 <= j < s.len() && (#[trigger] s[j]).0@ == t {
        let j = choose|j: int| 0 <= j < s.len() && (#[trigger] s[j]).0@ == t;
        lemma_count_at(u, j);
        lemma_count_at(s, j);
    } else {
        lemma_count_absent(s, t);
        assert forall|j: int| 0 <= j < u.len() implies (#[trigger] u[j]).0@ != t by {
            assert(s[j].0@ != t);
        }
        lemma_count_absent(u, t);
    }
}

proof fn lemma_contain_step(tags: Seq<Tag>, i: int, t: Seq<char>)
    requires
        0 <= i < tags.len(),
    ensures
        tags_contain(tags.take(i + 1), t) == (tags_contain(tags.take(i), t) || tags[i]@ == t),
{
    let a = tags.take(i);
    let b = tags.take(i + 1);
    if tags_contain(a, t) {
        let k = choose|k: int| 0 <= k < a.len() && (#[trigger] a[k])@ == t;
        assert(b[k] == a[k]);
    }
    if tags_contain(b, t) {
        let k = choose|k: int| 0 <= k < b.len() && (#[trigger] b[k])@ == t;
        if k < i {
            assert(b[k] == a[k]);
        }
    }
    if tags[i]@ == t {
        assert(b[i] == tags[i]);
    }
}

/// Whether an entry before position `i` reads the same as `tags[i]`.
fn seen_before(tags: &Vec<Tag>, i: usize) -> (r: bool)
    requires
        i < tags@.len(),
    ensures
        r == tags_contain(tags@.take(i as int), tags@[i as int]@),
{
    let mut j: usize = 0;
    while j < i
        invariant
            i < tags@.len(),
            j <= i,
            forall|k: int| 0 <= k < j ==> (#[trigger] tags@[k])@ != tags@[i as int]@,
        decreases i - j,
    {
        if tags[j] == tags[i] {
            proof {
                assert(tags@.take(i as int)[j as int] == tags@[j as int]);
            }
            return true;
        }
        j = j + 1;
    }
    proof {
        let a = tags@.take(i as int);
        assert forall|k: int| 0 <= k < a.len() implies (#[trigger] a[k])@ != tags@[i as int]@ by {
            assert(a[k] == tags@[k]);
        }
    }
    false
}

/// How many members carry each tag.
pub struct TagCounter {
    entries: Vec<(Tag, usize)>,
}

impl TagCounter {
    /// The entries are for distinct tags.
    pub closed spec fn wf(&self) -> bool {
        keys_unique(self.entries@)
    }

    /// How many members carry tag `t`.
    pub closed spec fn count(&self, t: Seq<char>) -> nat {
        count_in(self.entries@, t)
    }

    /// A tally in which every count is 0.
    pub fn new() -> (r: TagCounter)
        ensures
            r.wf(),
            forall|t: Seq<char>| #[trigger] r.count(t) == 0,
    {
        TagCounter { entries: Vec::new() }
    }

    fn find(&self, tag: &Tag) -> (r: Option<usize>)
        ensures
            match r {
                Some(i) => i < self.entries@.len() && self.entries@[i as int].0@ == tag@,
                None => forall|i: int|
                    0 <= i < self.entries@.len() ==> (#[trigger] self.entries@[i]).0@ != tag@,
            },
    {
        let mut i: usize = 0;
        while i < self.entries.len()
            invariant
                i <= self.entries@.len(),
                forall|j: int| 0 <= j < i ==> (#[trigger] self.entries@[j]).0@ != tag@,
            decreases self.entries@.len() - i,
        {
            if self.entries[i].0 == *tag {
                return Some(i);
            }
            i = i + 1;
        }
        None
    }

    /// How many members carry `tag`.
    pub fn get(&self, tag: &Tag) -> (r: usize)
        requires
            self.wf(),
        ensures
            r as nat == self.count(tag@),
    {
        match self.find(tag) {
            Some(i) => {
                proof {
                    lemma_count_at(self.entries@, i as int);
                }
                self.entries[i].1
            },
            None => {
                proof {
                    lemma_count_absent(self.entries@, tag@);
                }
                0
            },
        }
    }

    /// Adds one to the count of `tag`.
    fn bump(&mut self, tag: &Tag)
        requires
            old(self).wf(),
            old(self).count(tag@) < usize::MAX,
        ensures
            final(self).wf(),
            forall|t: Seq<char>| #[trigger]
                final(self).count(t) == old(self).count(t) + if t == tag@ {
                    1nat
                } else {
                    0nat
                },
    {
        match self.find(tag) {
            Some(i) => {
                proof {
                    lemma_count_at(self.entries@, i as int);
                }
                let c = self.entries[i].1;
                let ghost s = self.entries@;
                let k = self.entries[i].0.clone();
                self.entries.set(i, (k, c + 1));
                proof {
                    assert(self.entries@ == s.update(i as int, (s[i as int].0, (c + 1) as usize)));
                    assert forall|t: Seq<char>| #[trigger]
                        self.count(t) == count_in(s, t) + if t == tag@ {
                            1nat
                        } else {
                            0nat
                        } by {
                        lemma_count_update(s, i as int, (c + 1) as usize, t);
                    }
                }
            },
            None => {
                let ghost s = self.entries@;
                self.entries.push((tag.clone(), 1));
                proof {
                    lemma_count_absent(s, tag@);
                    assert(self.entries@.drop_last() == s);
                    assert(self.entries@.last().0@ == tag@);
                    assert forall|a: int, b: int| 0 <= a < b < self.entries@.len() implies (
                    #[trigger] self.entries@[a]).0@ != (#[trigger] self.entries@[b]).0@ by {
                        if b < s.len() {
                            assert(s[a].0@ != s[b].0@);
                        }
                    }
                }
            },
        }
    }

    /// Subtracts one from the count of `tag`.
    fn drop_one(&mut self, tag: &Tag)
        requires
            old(self).wf(),
            old(self).count(tag@) >= 1,
        ensures
            final(self).wf(),
            forall|t: Seq<char>| #[trigger]
                final(self).count(t) + if t == tag@ {
                    1nat
                } else {
                    0nat
                } == old(self).count(t),
    {
        match self.find(tag) {
            Some(i) => {
                proof {
                    lemma_count_at(self.entries@, i as int);
                }
                let c = self.entries[i].1;
                let ghost s = self.entries@;
                let k = self.entries[i].0.clone();
                self.entries.set(i, (k, c - 1));
                proof {
                    assert(self.entries@ == s.update(i as int, (s[i as int].0, (c - 1) as usize)));
                    assert forall|t: Seq<char>| #[trigger]
                        self.count(t) + if t == tag@ {
                            1nat
                        } else {
                            0nat
                        } == count_in(s, t) by {
                        lemma_count_update(s, i as int, (c - 1) as usize, t);
                    }
                }
            },
            None => {
                proof {
                    lemma_count_absent(self.entries@, tag@);
                }
            },
        }
    }

    /// Counts one more member carrying each of `tags`.
    pub fn add_tags(&mut self, tags: &Vec<Tag>)
        requires
            old(self).wf(),
            forall|t: Seq<char>| #[trigger] old(self).count(t) < usize::MAX,
        ensures
            final(self).wf(),
            forall|t: Seq<char>| #[trigger]
                final(self).count(t) == old(self).count(t) + indicator(tags@, t),
    {
        let ghost start = *self;
        let mut i: usize = 0;
        while i < tags.len()
            invariant
                i <= tags@.len(),
                self.wf(),
                forall|t: Seq<char>| #[trigger] start.count(t) < usize::MAX,
                forall|t: Seq<char>| #[trigger]
                    self.count(t) == start.count(t) + indicator(tags@.take(i as int), t),
            decreases tags@.len() - i,
        {
            let seen = seen_before(tags, i);
            proof {
                assert forall|t: Seq<char>|
                    tags_contain(tags@.take(i + 1), t) == (tags_contain(tags@.take(i as int), t)
                        || tags@[i as int]@ == t) by {
                    lemma_contain_step(tags@, i as int, t);
                }
            }
            if !seen {
                self.bump(&tags[i]);
            }
            i = i + 1;
        }
        proof {
            assert(tags@.take(tags@.len() as int) == tags@);
        }
    }

    /// Counts one member fewer carrying each of `tags`.
    pub fn remove_tags(&mut self, tags: &Vec<Tag>)
        requires
            old(self).wf(),
            forall|t: Seq<char>| #[trigger] old(self).count(t) >= indicator(tags@, t),
        ensures
            final(self).wf(),
            forall|t: Seq<char>| #[trigger]
                final(self).count(t) + indicator(tags@, t) == old(self).count(t),
    {
        let ghost start = *self;
        let mut i: usize = 0;
        while i < tags.len()
            invariant
                i <= tags@.len(),
                self.wf(),
                forall|t: Seq<char>| #[trigger] start.count(t) >= indicator(tags@, t),
                forall|t: Seq<char>| #[trigger]
                    self.count(t) + indicator(tags@.take(i as int), t) == start.count(t),
            decreases tags@.len() - i,
        {
            let seen = seen_before(tags, i);
            proof {
                assert forall|t: Seq<char>|
                    tags_contain(tags@.take(i + 1), t) == (tags_contain(tags@.take(i as int), t)
                        || tags@[i as int]@ == t) by {
                    lemma_contain_step(tags@, i as int, t);
                }
                let t0 = tags@[i as int]@;
                assert(tags@[i as int] == tags@.take(i + 1)[i as int]);
                if !seen {
                    assert(tags_contain(tags@, t0)) by {
                        assert(tags@[i as int]@ == t0);
                    }
                    assert(start.count(t0) >= 1);
                }
            }
            if !seen {
                self.drop_one(&tags[i]);
            }
            i = i + 1;
        }
        proof {
            assert(tags@.take(tags@.len() as int) == tags@);
        }
    }

    /// A separate tally with the same counts.
    pub fn duplicate(&self) -> (r: TagCounter)
        requires
            self.wf(),
        ensures
            r.wf(),
            forall|t: Seq<char>| #[trigger] r.count(t) == self.count(t),
    {
        let mut entries: Vec<(Tag, usize)> = Vec::new();
        let mut i: usize = 0;
        while i < self.entries.len()
            invariant
                i <= self.entries@.len(),
                entries@ == self.entries@.take(i as int),
            decreases self.entries@.len() - i,
        {
            let k = self.entries[i].0.clone();
            entries.push((k, self.entries[i].1));
            proof {
                assert(entries@ == self.entries@.take(i + 1));
            }
            i = i + 1;
        }
        proof {
            assert(self.entries@.take(self.entries@.len() as int) == self.entries@);
        }
        TagCounter { entries }
    }
}

} // verus!
