//! An association list from group keys to values, the map every piece of
//! keyed operator state is built on. Lookups go by the mathematical value of
//! the key, so two keys that read equal are one key.

use vstd::prelude::*;
use crate::types::{GroupByScalar, Val, key_view};

verus! {

/// The index of the first entry whose key has value `k`, or `-1`.
pub open spec fn assoc_index<V>(s: Seq<(Vec<GroupByScalar>, V)>, k: Seq<Val>) -> int
    decreases s.len(),
{
    if s.len() == 0 {
        -1
    } else if key_view(s[0].0@) == k {
        0
    } else {
        let r = assoc_index(s.drop_first(), k);
        if r < 0 {
            -1
        } else {
            1 + r
        }
    }
}

pub proof fn lemma_assoc_index<V>(s: Seq<(Vec<GroupByScalar>, V)>, k: Seq<Val>)
    ensures
        assoc_index(s, k) >= 0 ==> {
            let i = assoc_index(s, k);
            &&& i < s.len()
            &&& key_view(s[i].0@) == k
            &&& forall|j: int| 0 <= j < i ==> key_view(s[j].0@) != k
        },
        assoc_index(s, k) < 0 ==> forall|j: int| 0 <= j < s.len()
            ==> key_view(s[j].0@) != k,
    decreases s.len(),
{
    if s.len() > 0 && key_view(s[0].0@) != k {
        lemma_assoc_index(s.drop_first(), k);
        assert forall|j: int| 1 <= j < s.len() implies s[j] == s.drop_first()[j - 1] by {}
    }
}

/// A mapping from group keys to values with at most one entry per key.
pub struct KeyMap<V> {
    pub entries: Vec<(Vec<GroupByScalar>, V)>,
}

impl<V> View for KeyMap<V> {
    type V = Map<Seq<Val>, V>;

    open spec fn view(&self) -> Map<Seq<Val>, V> {
        Map::new(
            |k: Seq<Val>| assoc_index(self.entries@, k) >= 0,
            |k: Seq<Val>| self.entries@[assoc_index(self.entries@, k)].1,
        )
    }
}

impl<V> KeyMap<V> {
    pub open spec fn entry_key(&self, i: int) -> Seq<Val> {
        key_view(self.entries@[i].0@)
    }

    /// Entry keys are pairwise distinct.
    pub open spec fn wf(&self) -> bool {
        forall|i: int, j: int| 0 <= i < j < self.entries@.len()
            ==> self.entry_key(i) != self.entry_key(j)
    }

    /// Every key of the map is the key of exactly the entry that holds its
    /// value.
    pub proof fn lemma_char(&self)
        requires
            self.wf(),
        ensures
            forall|k: Seq<Val>| self@.contains_key(k) <==> exists|j: int|
                0 <= j < self.entries@.len() && self.entry_key(j) == k,
            forall|j: int| 0 <= j < self.entries@.len() ==> self@.contains_key(
                #[trigger] self.entry_key(j),
            ) && self@[self.entry_key(j)] == self.entries@[j].1,
    {
        assert forall|k: Seq<Val>| self@.contains_key(k) implies exists|j: int|
            0 <= j < self.entries@.len() && self.entry_key(j) == k by {
            lemma_assoc_index(self.entries@, k);
            assert(self.entry_key(assoc_index(self.entries@, k)) == k);
        }
        assert forall|j: int| 0 <= j < self.entries@.len() implies self@.contains_key(
            #[trigger] self.entry_key(j),
        ) && self@[self.entry_key(j)] == self.entries@[j].1 by {
            let k = self.entry_key(j);
            lemma_assoc_index(self.entries@, k);
            if assoc_index(self.entries@, k) < 0 {
                assert(key_view(self.entries@[j].0@) != k);
                assert(false);
            }
            let i = assoc_index(self.entries@, k);
            if i < j {
                assert(self.entry_key(i) != self.entry_key(j));
                assert(false);
            }
            if j < i {
                assert(key_view(self.entries@[j].0@) != k);
                assert(false);
            }
        }
    }

    pub fn new() -> (r: KeyMap<V>)
        ensures
            r@ == Map::<Seq<Val>, V>::empty(),
            r.wf(),
    {
        let r = KeyMap::<V> { entries: Vec::new() };
        proof {
            assert(r@ =~= Map::<Seq<Val>, V>::empty());
        }
        r
    }

    /// The position of the entry for `k`, if there is one.
    fn find(&self, k: &Vec<GroupByScalar>) -> (r: Option<usize>)
        requires
            self.wf(),
        ensures
            r is Some <==> self@.contains_key(key_view(k@)),
            r is Some ==> {
                let i = r->Some_0;
                &&& i < self.entries@.len()
                &&& self.entry_key(i as int) == key_view(k@)
                &&& self@[key_view(k@)] == self.entries@[i as int].1
            },
    {
        proof {
            lemma_assoc_index(self.entries@, key_view(k@));
            self.lemma_char();
        }
        let mut i: usize = 0;
        while i < self.entries.len()
            invariant
                self.wf(),
                i <= self.entries@.len(),
                forall|j: int| 0 <= j < i ==> self.entry_key(j) != key_view(k@),
            decreases self.entries@.len() - i,
        {
            if crate::key::key_eq(&self.entries[i].0, k) {
                proof {
                    self.lemma_char();
                    assert(self.entry_key(i as int) == key_view(k@));
                }
                return Some(i);
            }
            i += 1;
        }
        proof {
            if self@.contains_key(key_view(k@)) {
                self.lemma_char();
            }
        }
        None
    }

    pub fn contains(&self, k: &Vec<GroupByScalar>) -> (r: bool)
        requires
            self.wf(),
        ensures
            r == self@.contains_key(key_view(k@)),
    {
        self.find(k).is_some()
    }

    pub fn get(&self, k: &Vec<GroupByScalar>) -> (r: Option<&V>)
        requires
            self.wf(),
        ensures
            r is Some <==> self@.contains_key(key_view(k@)),
            r is Some ==> *r->Some_0 == self@[key_view(k@)],
    {
        match self.find(k) {
            Some(i) => Some(&self.entries[i].1),
            None => None,
        }
    }

    /// Removes the entry for `k`, handing its value back.
    pub fn remove(&mut self, k: &Vec<GroupByScalar>) -> (r: Option<V>)
        requires
            old(self).wf(),
        ensures
            final(self).wf(),
            final(self)@ == old(self)@.remove(key_view(k@)),
            r is Some <==> old(self)@.contains_key(key_view(k@)),
            r is Some ==> r->Some_0 == old(self)@[key_view(k@)],
    {
        proof {
            old(self).lemma_char();
        }
        match self.find(k) {
            Some(i) => {
                let e = self.entries.remove(i);
                proof {
                    let kv = key_view(k@);
                    assert forall|a: int, b: int| 0 <= a < b < self.entries@.len()
                        implies self.entry_key(a) != self.entry_key(b) by {
                        let oa = if a < i { a } else { a + 1 };
                        let ob = if b < i { b } else { b + 1 };
                        assert(old(self).entry_key(oa) != old(self).entry_key(ob));
                    }
                    self.lemma_char();
                    assert forall|q: Seq<Val>| #[trigger] self@.contains_key(q)
                        implies old(self)@.remove(kv).contains_key(q) && self@[q]
                            == old(self)@.remove(kv)[q] by {
                        let j = choose|j: int| 0 <= j < self.entries@.len()
                            && self.entry_key(j) == q;
                        let oj = if j < i { j } else { j + 1 };
                        assert(old(self).entry_key(oj) == q);
                        assert(old(self)@[q] == old(self).entries@[oj].1);
                        if q == kv {
                            assert(old(self).entry_key(i as int) == kv);
                            assert(false);
                        }
                    }
                    assert forall|q: Seq<Val>| #[trigger] old(self)@.remove(kv).contains_key(q)
                        implies self@.contains_key(q) by {
                        let j = choose|j: int| 0 <= j < old(self).entries@.len()
                            && old(self).entry_key(j) == q;
                        assert(j != i);
                        let nj = if j < i { j } else { j - 1 };
                        assert(self.entry_key(nj) == q);
                    }
                    assert(self@ =~= old(self)@.remove(kv));
                }
                Some(e.1)
            },
            None => {
                proof {
                    assert(self@ =~= old(self)@.remove(key_view(k@)));
                }
                None
            },
        }
    }

    /// Binds `k` to `v`, replacing any earlier binding.
    pub fn insert(&mut self, k: Vec<GroupByScalar>, v: V)
        requires
            old(self).wf(),
        ensures
            final(self).wf(),
            final(self)@ == old(self)@.insert(key_view(k@), v),
    {
        let kv = Ghost(key_view(k@));
        let prior = self.remove(&k);
        let ghost mid = *self;
        self.entries.push((k, v));
        proof {
            mid.lemma_char();
            assert forall|a: int, b: int| 0 <= a < b < self.entries@.len()
                implies self.entry_key(a) != self.entry_key(b) by {
                if b < self.entries@.len() - 1 {
                    assert(mid.entry_key(a) != mid.entry_key(b));
                } else {
                    assert(self.entry_key(b) == kv@);
                    assert(mid.entry_key(a) == self.entry_key(a));
                    if mid.entry_key(a) == kv@ {
                        assert(mid@.contains_key(kv@));
                        assert(false);
                    }
                }
            }
            self.lemma_char();
            let n = self.entries@.len() - 1;
            assert(self.entry_key(n) == kv@);
            assert forall|q: Seq<Val>| #[trigger] self@.contains_key(q)
                implies old(self)@.insert(kv@, v).contains_key(q) && self@[q]
                    == old(self)@.insert(kv@, v)[q] by {
                let j = choose|j: int| 0 <= j < self.entries@.len() && self.entry_key(j) == q;
                if j < n {
                    assert(mid.entry_key(j) == q);
                    assert(mid@.contains_key(q));
                    assert(q != kv@);
                    assert(self@[q] == self.entries@[j].1);
                    assert(mid@[q] == mid.entries@[j].1);
                } else {
                    assert(q == kv@);
                    assert(self@[q] == self.entries@[n].1);
                }
            }
            assert forall|q: Seq<Val>| #[trigger] old(self)@.insert(kv@, v).contains_key(q)
                implies self@.contains_key(q) by {
                if q == kv@ {
                    assert(self.entry_key(n) == q);
                } else {
                    assert(mid@.contains_key(q));
                    let j = choose|j: int| 0 <= j < mid.entries@.len() && mid.entry_key(j) == q;
                    assert(self.entry_key(j) == q);
                }
            }
            assert(self@ =~= old(self)@.insert(kv@, v));
        }
    }
}

} // verus!
