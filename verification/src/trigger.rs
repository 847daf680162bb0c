//! Triggers: the policy deciding which keys are ready to be emitted.

use vstd::prelude::*;
use crate::key::{create_key, key_at, key_dup, key_eq, keys_at};
use crate::keymap::KeyMap;
use crate::types::{
    groupable, key_view, val_has_type, Column, DataType, GroupByScalar, Val,
};

verus! {

/// Whether a key's components carry exactly the declared types.
pub open spec fn key_matches(k: Seq<Val>, ts: Seq<DataType>) -> bool {
    &&& k.len() == ts.len()
    &&& forall|i: int| 0 <= i < ts.len() ==> val_has_type(#[trigger] k[i], ts[i])
}

/// Types a trigger can emit as key columns.
pub open spec fn emittable(t: DataType) -> bool {
    t == DataType::Int64 || t == DataType::Utf8
}

/// A trigger's mathematical state: the per-key observation count since the
/// key was last made ready, and the ready keys in emission order.
pub ghost struct TriggerModel {
    pub counts: Map<Seq<Val>, int>,
    pub ready: Seq<Seq<Val>>,
}

/// One observation of key `k`: its count rises by one; on reaching the
/// threshold it resets to zero and `k` becomes ready (once).
pub open spec fn counting_step(m: TriggerModel, k: Seq<Val>, threshold: int) -> TriggerModel {
    let c = (if m.counts.contains_key(k) {
        m.counts[k]
    } else {
        0
    }) + 1;
    if c == threshold {
        TriggerModel {
            counts: m.counts.insert(k, 0),
            ready: if m.ready.contains(k) {
                m.ready
            } else {
                m.ready.push(k)
            },
        }
    } else {
        TriggerModel { counts: m.counts.insert(k, c), ready: m.ready }
    }
}

/// The observations of a whole batch of keys, in row order.
pub open spec fn counting_steps(m: TriggerModel, ks: Seq<Seq<Val>>, threshold: int) -> TriggerModel
    decreases ks.len(),
{
    if ks.len() == 0 {
        m
    } else {
        counting_step(counting_steps(m, ks.drop_last(), threshold), ks.last(), threshold)
    }
}

/// Decides which keys are ready to be emitted.
pub trait Trigger: Sized {
    /// The well-formedness of the trigger's state.
    spec fn inv(&self) -> bool;

    /// The declared types of the key columns.
    spec fn key_types(&self) -> Seq<DataType>;

    /// The keys ready for emission, in emission order.
    spec fn ready(&self) -> Seq<Seq<Val>>;

    /// Ingests the keys appearing in one input batch, duplicates included.
    fn keys_received(&mut self, keys: Vec<Column>)
        requires
            old(self).inv(),
            keys@.len() == old(self).key_types().len(),
            keys@.len() >= 1,
            forall|i: int| 0 <= i < keys@.len()
                ==> (#[trigger] keys@[i]).dt() == old(self).key_types()[i],
            forall|i: int| 0 <= i < keys@.len()
                ==> (#[trigger] keys@[i])@.len() == keys@[0]@.len(),
        ensures
            final(self).inv(),
            final(self).key_types() == old(self).key_types(),
    ;

    /// Hands out every ready key as a batch of key columns and clears the
    /// ready set.
    fn poll(&mut self) -> (r: Vec<Column>)
        requires
            old(self).inv(),
        ensures
            final(self).inv(),
            final(self).key_types() == old(self).key_types(),
            final(self).ready().len() == 0,
            r@.len() == old(self).key_types().len(),
            forall|i: int| 0 <= i < r@.len() ==> (#[trigger] r@[i]).dt()
                == old(self).key_types()[i],
            forall|i: int| 0 <= i < r@.len() ==> (#[trigger] r@[i])@.len()
                == old(self).ready().len(),
            forall|row: int| 0 <= row < old(self).ready().len()
                ==> key_at(r@, row) == old(self).ready()[row],
    ;
}

/// A key becomes ready the `trigger_count`-th time it is observed since it
/// was last emitted; after emission its counter starts over at zero.
pub struct CountingTrigger {
    pub key_data_types: Vec<DataType>,
    pub trigger_count: i64,
    pub counts: KeyMap<i64>,
    pub to_trigger: Vec<Vec<GroupByScalar>>,
}

impl CountingTrigger {
    pub open spec fn model(&self) -> TriggerModel {
        TriggerModel {
            counts: self.counts@.map_values(|c: i64| c as int),
            ready: Seq::new(self.to_trigger@.len(), |i: int| key_view(self.to_trigger@[i]@)),
        }
    }

    pub open spec fn wf(&self) -> bool {
        &&& self.counts.wf()
        &&& self.trigger_count >= 1
        &&& forall|t: int| 0 <= t < self.key_data_types@.len()
            ==> emittable(#[trigger] self.key_data_types@[t])
        &&& forall|k: Seq<Val>| #[trigger] self.counts@.contains_key(k)
            ==> 0 <= self.counts@[k] < self.trigger_count
        &&& forall|k: Seq<Val>| #[trigger] self.counts@.contains_key(k)
            ==> key_matches(k, self.key_data_types@)
        &&& forall|i: int| 0 <= i < self.to_trigger@.len()
            ==> key_matches(key_view(#[trigger] self.to_trigger@[i]@), self.key_data_types@)
        &&& forall|i: int, j: int| 0 <= i < j < self.to_trigger@.len()
            ==> key_view(self.to_trigger@[i]@) != key_view(self.to_trigger@[j]@)
    }

    pub fn new(key_data_types: Vec<DataType>, trigger_count: i64) -> (r: CountingTrigger)
        requires
            trigger_count >= 1,
            forall|t: int| 0 <= t < key_data_types@.len()
                ==> emittable(#[trigger] key_data_types@[t]),
        ensures
            r.wf(),
            r.key_data_types@ == key_data_types@,
            r.trigger_count == trigger_count,
            r.model().counts == Map::<Seq<Val>, int>::empty(),
            r.model().ready == Seq::<Seq<Val>>::empty(),
    {
        let r = CountingTrigger {
            key_data_types,
            trigger_count,
            counts: KeyMap::new(),
            to_trigger: Vec::new(),
        };
        proof {
            assert(r.model().counts =~= Map::<Seq<Val>, int>::empty());
            assert(r.model().ready =~= Seq::<Seq<Val>>::empty());
        }
        r
    }

    /// Whether some stored key carries the same value as `k`.
    fn ready_holds(&self, k: &Vec<GroupByScalar>) -> (r: bool)
        ensures
            r == self.model().ready.contains(key_view(k@)),
    {
        let mut i: usize = 0;
        while i < self.to_trigger.len()
            invariant
                i <= self.to_trigger@.len(),
                forall|j: int| 0 <= j < i
                    ==> key_view(#[trigger] self.to_trigger@[j]@) != key_view(k@),
            decreases self.to_trigger@.len() - i,
        {
            if key_eq(&self.to_trigger[i], k) {
                proof {
                    assert(self.model().ready[i as int] == key_view(k@));
                }
                return true;
            }
            i += 1;
        }
        proof {
            if self.model().ready.contains(key_view(k@)) {
                let j = choose|j: int| 0 <= j < self.model().ready.len()
                    && self.model().ready[j] == key_view(k@);
                assert(key_view(self.to_trigger@[j]@) == key_view(k@));
                assert(false);
            }
        }
        false
    }

    /// Exact counting semantics: the state folds `counting_step` over the
    /// batch's keys in row order.
    pub fn observe(&mut self, keys: &Vec<Column>)
        requires
            old(self).wf(),
            keys@.len() == old(self).key_data_types@.len(),
            keys@.len() >= 1,
            forall|i: int| 0 <= i < keys@.len()
                ==> (#[trigger] keys@[i]).dt() == old(self).key_data_types@[i],
            forall|i: int| 0 <= i < keys@.len()
                ==> (#[trigger] keys@[i])@.len() == keys@[0]@.len(),
        ensures
            final(self).wf(),
            final(self).key_data_types@ == old(self).key_data_types@,
            final(self).trigger_count == old(self).trigger_count,
            final(self).model() == counting_steps(
                old(self).model(),
                keys_at(keys@, keys@[0]@.len()),
                old(self).trigger_count as int,
            ),
    {
        let ghost m0 = old(self).model();
        let ghost thr = old(self).trigger_count as int;
        let rows = keys[0].len();
        let mut key_vec: Vec<GroupByScalar> = Vec::new();
        let mut i: usize = 0;
        while i < keys.len()
            invariant
                i <= keys@.len(),
                key_vec@.len() == i,
            decreases keys@.len() - i,
        {
            key_vec.push(GroupByScalar::Int64(0));
            i += 1;
        }
        let mut row: usize = 0;
        while row < rows
            invariant
                *self is CountingTrigger,
                self.wf(),
                self.key_data_types@ == old(self).key_data_types@,
                self.trigger_count == old(self).trigger_count,
                row <= rows,
                key_vec@.len() == keys@.len(),
                keys@.len() == self.key_data_types@.len(),
                keys@.len() >= 1,
                rows == keys@[0]@.len(),
                forall|i: int| 0 <= i < keys@.len()
                    ==> (#[trigger] keys@[i]).dt() == self.key_data_types@[i],
                forall|i: int| 0 <= i < keys@.len()
                    ==> (#[trigger] keys@[i])@.len() == rows,
                self.model() == counting_steps(m0, keys_at(keys@, row as nat), thr),
                thr == self.trigger_count,
            decreases rows - row,
        {
            let ghost prev = self.model();
            let ck = create_key(keys, row, &mut key_vec);
            proof {
                assert(ck is Ok) by {
                    assert(forall|i: int| 0 <= i < keys@.len()
                        ==> groupable((#[trigger] keys@[i]).dt()));
                }
            }
            let ghost k = key_view(key_vec@);
            proof {
                assert(k == key_at(keys@, row as int));
                assert(key_matches(k, self.key_data_types@)) by {
                    assert forall|i: int| 0 <= i < self.key_data_types@.len()
                        implies val_has_type(#[trigger] k[i], self.key_data_types@[i]) by {
                        keys@[i].lemma_typed();
                        assert(k[i] == keys@[i]@[row as int]);
                    }
                }
                self.counts.lemma_char();
            }
            let c0: i64 = match self.counts.get(&key_vec) {
                Some(c) => *c,
                None => 0,
            };
            let c1: i64 = c0 + 1;
            if c1 == self.trigger_count {
                self.counts.insert(key_dup(&key_vec), 0);
                if !self.ready_holds(&key_vec) {
                    let ghost tt0 = self.to_trigger@;
                    let dup = key_dup(&key_vec);
                    self.to_trigger.push(dup);
                    proof {
                        let nlen = self.to_trigger@.len();
                        assert forall|a: int, b: int| 0 <= a < b < nlen implies
                            key_view(self.to_trigger@[a]@) != key_view(self.to_trigger@[b]@) by {
                            if b < nlen - 1 {
                                assert(key_view(tt0[a]@) != key_view(tt0[b]@));
                            } else {
                                assert(self.to_trigger@[b] == dup);
                                assert(key_view(self.to_trigger@[a]@) == key_view(tt0[a]@));
                                if key_view(tt0[a]@) == k {
                                    assert(prev.ready[a] == k);
                                    assert(prev.ready.contains(k));
                                    assert(false);
                                }
                            }
                        }
                    }
                }
            } else {
                self.counts.insert(key_dup(&key_vec), c1);
            }
            proof {
                assert(self.model().counts =~= counting_step(prev, k, thr).counts);
                if c1 == thr && !prev.ready.contains(k) {
                    assert(self.model().ready =~= prev.ready.push(k));
                }
                assert(self.model().ready =~= counting_step(prev, k, thr).ready);
                assert(self.model() == counting_step(prev, k, thr));
                let ks1 = keys_at(keys@, (row + 1) as nat);
                assert(ks1.drop_last() =~= keys_at(keys@, row as nat));
                assert(ks1.last() == k);
                assert(counting_steps(m0, ks1, thr) == counting_step(
                    counting_steps(m0, keys_at(keys@, row as nat), thr),
                    k,
                    thr,
                ));
            }
            row += 1;
        }
        proof {
            assert(keys_at(keys@, rows as nat) == keys_at(keys@, keys@[0]@.len()));
        }
    }

    /// Builds one column per key component from the ready keys, in emission
    /// order, and clears the ready set; the counts stay as they are.
    pub fn drain_ready(&mut self) -> (r: Vec<Column>)
        requires
            old(self).wf(),
        ensures
            final(self).wf(),
            final(self).key_data_types@ == old(self).key_data_types@,
            final(self).trigger_count == old(self).trigger_count,
            final(self).model().counts == old(self).model().counts,
            final(self).model().ready.len() == 0,
            r@.len() == old(self).key_data_types@.len(),
            forall|i: int| 0 <= i < r@.len() ==> (#[trigger] r@[i]).dt()
                == old(self).key_data_types@[i],
            forall|i: int| 0 <= i < r@.len() ==> (#[trigger] r@[i])@.len()
                == old(self).model().ready.len(),
            forall|row: int| 0 <= row < old(self).model().ready.len()
                ==> key_at(r@, row) == old(self).model().ready[row],
    {
        let n = self.to_trigger.len();
        let mut out: Vec<Column> = Vec::new();
        let mut ki: usize = 0;
        while ki < self.key_data_types.len()
            invariant
                self == old(self),
                self.wf(),
                ki <= self.key_data_types@.len(),
                n == self.to_trigger@.len(),
                out@.len() == ki,
                forall|i: int| 0 <= i < ki ==> (#[trigger] out@[i]).dt()
                    == self.key_data_types@[i],
                forall|i: int| 0 <= i < ki ==> (#[trigger] out@[i])@.len() == n,
                forall|i: int, row: int| 0 <= i < ki && 0 <= row < n
                    ==> (#[trigger] out@[i]@[row]) == key_view(self.to_trigger@[row]@)[i],
            decreases self.key_data_types@.len() - ki,
        {
            proof {
                assert(emittable(self.key_data_types@[ki as int]));
            }
            let col = match self.key_data_types[ki] {
                DataType::Int64 => {
                    let mut v: Vec<i64> = Vec::new();
                    let mut row: usize = 0;
                    while row < self.to_trigger.len()
                        invariant
                            self == old(self),
                            self.wf(),
                            ki < self.key_data_types@.len(),
                            self.key_data_types@[ki as int] == DataType::Int64,
                            n == self.to_trigger@.len(),
                            row <= n,
                            v@.len() == row,
                            forall|q: int| 0 <= q < row ==> Val::I64(#[trigger] v@[q])
                                == key_view(self.to_trigger@[q]@)[ki as int],
                        decreases self.to_trigger@.len() - row,
                    {
                        proof {
                            assert(key_matches(
                                key_view(self.to_trigger@[row as int]@),
                                self.key_data_types@,
                            ));
                            assert(val_has_type(
                                key_view(self.to_trigger@[row as int]@)[ki as int],
                                DataType::Int64,
                            ));
                        }
                        let x: i64 = match &self.to_trigger[row][ki] {
                            GroupByScalar::Int64(x) => *x,
                            _ => {
                                proof {
                                    assert(false);
                                }
                                0
                            },
                        };
                        v.push(x);
                        row += 1;
                    }
                    Column::Int64(v)
                },
                DataType::Utf8 => {
                    let mut v: Vec<String> = Vec::new();
                    let mut row: usize = 0;
                    while row < self.to_trigger.len()
                        invariant
                            self == old(self),
                            self.wf(),
                            ki < self.key_data_types@.len(),
                            self.key_data_types@[ki as int] == DataType::Utf8,
                            n == self.to_trigger@.len(),
                            row <= n,
                            v@.len() == row,
                            forall|q: int| 0 <= q < row ==> Val::Str((#[trigger] v@[q])@)
                                == key_view(self.to_trigger@[q]@)[ki as int],
                        decreases self.to_trigger@.len() - row,
                    {
                        proof {
                            assert(key_matches(
                                key_view(self.to_trigger@[row as int]@),
                                self.key_data_types@,
                            ));
                            assert(val_has_type(
                                key_view(self.to_trigger@[row as int]@)[ki as int],
                                DataType::Utf8,
                            ));
                        }
                        let x: String = match &self.to_trigger[row][ki] {
                            GroupByScalar::Utf8(s) => s.clone(),
                            _ => {
                                proof {
                                    assert(false);
                                }
                                String::new()
                            },
                        };
                        v.push(x);
                        row += 1;
                    }
                    Column::Utf8(v)
                },
                _ => {
                    proof {
                        assert(false);
                    }
                    Column::Int64(Vec::new())
                },
            };
            out.push(col);
            ki += 1;
        }
        self.to_trigger = Vec::new();
        proof {
            assert(self.model().ready =~= Seq::<Seq<Val>>::empty());
            assert forall|row: int| 0 <= row < old(self).model().ready.len()
                implies key_at(out@, row) == old(self).model().ready[row] by {
                assert(key_at(out@, row) =~= old(self).model().ready[row]);
            }
        }
        out
    }
}

impl Trigger for CountingTrigger {
    open spec fn inv(&self) -> bool {
        self.wf()
    }

    open spec fn key_types(&self) -> Seq<DataType> {
        self.key_data_types@
    }

    open spec fn ready(&self) -> Seq<Seq<Val>> {
        self.model().ready
    }

    fn keys_received(&mut self, keys: Vec<Column>) {
        self.observe(&keys);
    }

    fn poll(&mut self) -> (r: Vec<Column>) {
        self.drain_ready()
    }
}

} // verus!
