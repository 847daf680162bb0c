//! The streaming group-by operator: keyed accumulator state, a counting
//! trigger, a last-emitted snapshot per key, and the retract-then-emit
//! protocol. Per input batch it ingests every row, observes the keys, polls
//! the trigger, and emits one batch holding the retraction rows (the
//! previously emitted values of the ready keys) followed by the new-value
//! rows; a group whose live row-count reached zero gets a retraction and no
//! replacement.

use vstd::prelude::*;
use crate::aggregate::{Accumulator, Aggregate};
use crate::key::{create_key, key_at, key_dup, keys_at};
use crate::keymap::KeyMap;
use crate::node::{ExecutionContext, Node};
use crate::source::retraction_field;
use crate::trigger::{
    counting_steps, emittable, key_matches, CountingTrigger, TriggerModel,
};
use crate::types::{
    field_index, groupable, has_field, key_view, lemma_field_index, val_has_type, Column,
    DataType, Error, Field, FieldV, GroupByScalar, RecordBatch, ScalarValue, Schema, Val,
};

verus! {

/// The trigger threshold the operator runs with.
pub const DEFAULT_TRIGGER_COUNT: i64 = 100;

/// The mathematical content of a sequence of scalars.
pub open spec fn scalars_view(s: Seq<ScalarValue>) -> Seq<Val> {
    Seq::new(s.len(), |j: int| s[j]@)
}

/// The group-by operator's state at a point in the stream.
pub ghost struct GroupByState<Acc> {
    /// Per group key, one accumulator per aggregate.
    pub accs: Map<Seq<Val>, Seq<Acc>>,
    /// Per group key, the values last emitted without retraction.
    pub last: Map<Seq<Val>, Seq<Val>>,
    /// The trigger's state.
    pub trig: TriggerModel,
}

pub open spec fn initial_state<Acc>() -> GroupByState<Acc> {
    GroupByState {
        accs: Map::empty(),
        last: Map::empty(),
        trig: TriggerModel { counts: Map::empty(), ready: Seq::empty() },
    }
}

/// The results a group currently reports.
pub open spec fn currents<Acc: Accumulator>(s: Seq<Acc>) -> Seq<Val> {
    Seq::new(s.len(), |j: int| s[j].current())
}

/// Whether a group still has at least one contributing row everywhere.
pub open spec fn group_live<Acc: Accumulator>(s: Seq<Acc>) -> bool {
    forall|j: int| 0 <= j < s.len() ==> (#[trigger] s[j]).live()
}

/// Ingesting one row: the row's key gets fresh accumulators if it is new,
/// and each accumulator ingests its aggregated value under the row's
/// retraction flag.
pub open spec fn ingest_row<Acc: Accumulator>(
    fresh: Seq<Acc>,
    accs: Map<Seq<Val>, Seq<Acc>>,
    key: Seq<Val>,
    vals: Seq<Val>,
    retract: bool,
) -> Map<Seq<Val>, Seq<Acc>> {
    let cur = if accs.contains_key(key) {
        accs[key]
    } else {
        fresh
    };
    accs.insert(key, Seq::new(cur.len(), |j: int| cur[j].stepped(vals[j], retract)))
}

/// Ingesting a whole batch, in row order.
pub open spec fn ingest_rows<Acc: Accumulator>(
    fresh: Seq<Acc>,
    accs: Map<Seq<Val>, Seq<Acc>>,
    keys: Seq<Seq<Val>>,
    vals: Seq<Seq<Val>>,
    retracts: Seq<bool>,
) -> Map<Seq<Val>, Seq<Acc>>
    decreases keys.len(),
{
    if keys.len() == 0 {
        accs
    } else {
        ingest_row(
            fresh,
            ingest_rows(fresh, accs, keys.drop_last(), vals.drop_last(), retracts.drop_last()),
            keys.last(),
            vals.last(),
            retracts.last(),
        )
    }
}

/// The retraction section: one row per ready key with a snapshot, in ready
/// order, holding the key, the last-emitted values, and `retraction = true`.
pub open spec fn retract_section(
    ready: Seq<Seq<Val>>,
    last: Map<Seq<Val>, Seq<Val>>,
) -> Seq<Seq<Val>>
    decreases ready.len(),
{
    if ready.len() == 0 {
        Seq::empty()
    } else {
        let rest = retract_section(ready.drop_last(), last);
        let k = ready.last();
        if last.contains_key(k) {
            rest.push(k + last[k] + seq![Val::Bool(true)])
        } else {
            rest
        }
    }
}

/// The new-value section: one row per ready key whose group is live, in
/// ready order, holding the key, the current values, and
/// `retraction = false`.
pub open spec fn new_section<Acc: Accumulator>(
    ready: Seq<Seq<Val>>,
    accs: Map<Seq<Val>, Seq<Acc>>,
) -> Seq<Seq<Val>>
    decreases ready.len(),
{
    if ready.len() == 0 {
        Seq::empty()
    } else {
        let rest = new_section(ready.drop_last(), accs);
        let k = ready.last();
        if accs.contains_key(k) && group_live(accs[k]) {
            rest.push(k + currents(accs[k]) + seq![Val::Bool(false)])
        } else {
            rest
        }
    }
}

/// The snapshot after emission: every ready key forgets its snapshot, and
/// the live ones record the values just emitted.
pub open spec fn snap_after<Acc: Accumulator>(
    ready: Seq<Seq<Val>>,
    accs: Map<Seq<Val>, Seq<Acc>>,
    last: Map<Seq<Val>, Seq<Val>>,
) -> Map<Seq<Val>, Seq<Val>>
    decreases ready.len(),
{
    if ready.len() == 0 {
        last
    } else {
        let m = snap_after(ready.drop_last(), accs, last);
        let k = ready.last();
        if accs.contains_key(k) && group_live(accs[k]) {
            m.insert(k, currents(accs[k]))
        } else {
            m.remove(k)
        }
    }
}

/// The cells of one row at the given positions.
pub open spec fn sel_cells(row: Seq<Val>, idx: Seq<int>) -> Seq<Val> {
    Seq::new(idx.len(), |i: int| row[idx[i]])
}

/// The group key of each row.
pub open spec fn rows_keys(rows: Seq<Seq<Val>>, ki: Seq<int>) -> Seq<Seq<Val>> {
    Seq::new(rows.len(), |r: int| sel_cells(rows[r], ki))
}

/// The aggregated cells of each row.
pub open spec fn rows_vals(rows: Seq<Seq<Val>>, ai: Seq<int>) -> Seq<Seq<Val>> {
    Seq::new(rows.len(), |r: int| sel_cells(rows[r], ai))
}

/// Each row's trailing retraction flag.
pub open spec fn rows_flags(rows: Seq<Seq<Val>>) -> Seq<bool> {
    Seq::new(rows.len(), |r: int| rows[r].last()->Bool_0)
}

/// One input batch: ingest every row, observe the keys, poll, and emit the
/// retraction section followed by the new-value section. `None` when the
/// trigger had nothing ready, in which case nothing is produced.
pub open spec fn gb_step<Acc: Accumulator>(
    fresh: Seq<Acc>,
    threshold: int,
    ki: Seq<int>,
    ai: Seq<int>,
    st: GroupByState<Acc>,
    rows: Seq<Seq<Val>>,
) -> (GroupByState<Acc>, Option<Seq<Seq<Val>>>) {
    let keys = rows_keys(rows, ki);
    let vals = rows_vals(rows, ai);
    let retracts = rows_flags(rows);
    let accs1 = ingest_rows(fresh, st.accs, keys, vals, retracts);
    let trig1 = counting_steps(st.trig, keys, threshold);
    if trig1.ready.len() == 0 {
        (GroupByState { accs: accs1, last: st.last, trig: trig1 }, None)
    } else {
        let ready = trig1.ready;
        let out = retract_section(ready, st.last) + new_section(ready, accs1);
        (
            GroupByState {
                accs: accs1,
                last: snap_after(ready, accs1, st.last),
                trig: TriggerModel { counts: trig1.counts, ready: Seq::empty() },
            },
            Some(out),
        )
    }
}

/// The state after a sequence of input batches, starting from empty state.
pub open spec fn gb_state_after<Acc: Accumulator>(
    fresh: Seq<Acc>,
    threshold: int,
    ki: Seq<int>,
    ai: Seq<int>,
    ins: Seq<Seq<Seq<Val>>>,
) -> GroupByState<Acc>
    decreases ins.len(),
{
    if ins.len() == 0 {
        initial_state()
    } else {
        gb_step(
            fresh,
            threshold,
            ki,
            ai,
            gb_state_after(fresh, threshold, ki, ai, ins.drop_last()),
            ins.last(),
        ).0
    }
}

/// Everything emitted over a sequence of input batches.
pub open spec fn gb_outputs<Acc: Accumulator>(
    fresh: Seq<Acc>,
    threshold: int,
    ki: Seq<int>,
    ai: Seq<int>,
    ins: Seq<Seq<Seq<Val>>>,
) -> Seq<Seq<Seq<Val>>>
    decreases ins.len(),
{
    if ins.len() == 0 {
        Seq::empty()
    } else {
        let prev = gb_outputs(fresh, threshold, ki, ai, ins.drop_last());
        match gb_step(
            fresh,
            threshold,
            ki,
            ai,
            gb_state_after(fresh, threshold, ki, ai, ins.drop_last()),
            ins.last(),
        ).1 {
            Some(rows) => prev.push(rows),
            None => prev,
        }
    }
}

/// One row to be emitted: a key, the aggregate values, and the flag.
pub open spec fn entry_row(e: (Vec<GroupByScalar>, Vec<ScalarValue>, bool)) -> Seq<Val> {
    key_view(e.0@) + scalars_view(e.1@) + seq![Val::Bool(e.2)]
}

pub open spec fn entries_rows(es: Seq<(Vec<GroupByScalar>, Vec<ScalarValue>, bool)>) -> Seq<
    Seq<Val>,
> {
    Seq::new(es.len(), |r: int| entry_row(es[r]))
}

/// Copies a row of aggregate scalars.
fn scalars_dup(v: &Vec<ScalarValue>) -> (r: Vec<ScalarValue>)
    ensures
        r@.len() == v@.len(),
        scalars_view(r@) == scalars_view(v@),
{
    let mut r: Vec<ScalarValue> = Vec::new();
    let mut i: usize = 0;
    while i < v.len()
        invariant
            i <= v@.len(),
            r@.len() == i,
            forall|j: int| 0 <= j < i ==> (#[trigger] r@[j])@ == v@[j]@,
        decreases v@.len() - i,
    {
        r.push(v[i].duplicate());
        i += 1;
    }
    proof {
        assert(scalars_view(r@) =~= scalars_view(v@));
    }
    r
}

/// Builds a schema-conformant batch out of emission rows: the key columns,
/// one 64-bit signed integer column per aggregate, and the retraction flags.
fn rows_to_batch(
    out_schema: &Schema,
    key_types: &Vec<DataType>,
    naggs: usize,
    entries: &Vec<(Vec<GroupByScalar>, Vec<ScalarValue>, bool)>,
) -> (r: RecordBatch)
    requires
        out_schema@.len() == key_types@.len() + naggs + 1,
        forall|i: int| 0 <= i < key_types@.len() ==> out_schema@[i].data_type
            == key_types@[i] && emittable(#[trigger] key_types@[i]),
        forall|j: int| 0 <= j < naggs ==> (#[trigger] out_schema@[key_types@.len()
            + j]).data_type == DataType::Int64,
        out_schema@.last().data_type == DataType::Boolean,
        forall|e: int| 0 <= e < entries@.len() ==> key_matches(
            key_view((#[trigger] entries@[e]).0@),
            key_types@,
        ),
        forall|e: int| 0 <= e < entries@.len() ==> (#[trigger] entries@[e]).1@.len() == naggs,
        forall|e: int, j: int| 0 <= e < entries@.len() && 0 <= j < naggs
            ==> ((#[trigger] entries@[e].1@[j])@) is I64,
    ensures
        r.wf(),
        r.schema@ == out_schema@,
        r.rows() == entries_rows(entries@),
{
    let n = entries.len();
    let nkeys = key_types.len();
    let mut cols: Vec<Column> = Vec::new();
    let mut ki: usize = 0;
    while ki < nkeys
        invariant
            nkeys == key_types@.len(),
            n == entries@.len(),
            forall|e: int| 0 <= e < entries@.len() ==> key_matches(
                key_view((#[trigger] entries@[e]).0@),
                key_types@,
            ),
            forall|t: int| 0 <= t < key_types@.len() ==> emittable(#[trigger] key_types@[t]),
            ki <= nkeys,
            cols@.len() == ki,
            forall|i: int| 0 <= i < ki ==> (#[trigger] cols@[i]).dt() == key_types@[i],
            forall|i: int| 0 <= i < ki ==> (#[trigger] cols@[i])@.len() == n,
            forall|i: int, e: int| 0 <= i < ki && 0 <= e < n
                ==> (#[trigger] cols@[i]@[e]) == key_view(entries@[e].0@)[i],
        decreases nkeys - ki,
    {
        let col = match key_types[ki] {
            DataType::Int64 => {
                let mut v: Vec<i64> = Vec::new();
                let mut e: usize = 0;
                while e < n
                    invariant
                        nkeys == key_types@.len(),
                        n == entries@.len(),
                        ki < nkeys,
                        key_types@[ki as int] == DataType::Int64,
                        forall|q: int| 0 <= q < entries@.len() ==> key_matches(
                            key_view((#[trigger] entries@[q]).0@),
                            key_types@,
                        ),
                        e <= n,
                        v@.len() == e,
                        forall|q: int| 0 <= q < e ==> Val::I64(#[trigger] v@[q])
                            == key_view(entries@[q].0@)[ki as int],
                    decreases n - e,
                {
                    proof {
                        assert(key_matches(key_view(entries@[e as int].0@), key_types@));
                        assert(val_has_type(
                            key_view(entries@[e as int].0@)[ki as int],
                            DataType::Int64,
                        ));
                    }
                    let x: i64 = match &entries[e].0[ki] {
                        GroupByScalar::Int64(x) => *x,
                        _ => {
                            proof {
                                assert(false);
                            }
                            0
                        },
                    };
                    v.push(x);
                    e += 1;
                }
                Column::Int64(v)
            },
            DataType::Utf8 => {
                let mut v: Vec<String> = Vec::new();
                let mut e: usize = 0;
                while e < n
                    invariant
                        nkeys == key_types@.len(),
                        n == entries@.len(),
                        ki < nkeys,
                        key_types@[ki as int] == DataType::Utf8,
                        forall|q: int| 0 <= q < entries@.len() ==> key_matches(
                            key_view((#[trigger] entries@[q]).0@),
                            key_types@,
                        ),
                        e <= n,
                        v@.len() == e,
                        forall|q: int| 0 <= q < e ==> Val::Str((#[trigger] v@[q])@)
                            == key_view(entries@[q].0@)[ki as int],
                    decreases n - e,
                {
                    proof {
                        assert(key_matches(key_view(entries@[e as int].0@), key_types@));
                        assert(val_has_type(
                            key_view(entries@[e as int].0@)[ki as int],
                            DataType::Utf8,
                        ));
                    }
                    let x: String = match &entries[e].0[ki] {
                        GroupByScalar::Utf8(s) => s.clone(),
                        _ => {
                            proof {
                                assert(false);
                            }
                            String::new()
                        },
                    };
                    v.push(x);
                    e += 1;
                }
                Column::Utf8(v)
            },
            _ => {
                proof {
                    assert(false);
                }
                Column::Int64(Vec::new())
            },
        };
        cols.push(col);
        ki += 1;
    }
    let mut j: usize = 0;
    while j < naggs
        invariant
            nkeys == key_types@.len(),
            n == entries@.len(),
            forall|e: int| 0 <= e < entries@.len() ==> (#[trigger] entries@[e]).1@.len()
                == naggs,
            forall|e: int, q: int| 0 <= e < entries@.len() && 0 <= q < naggs
                ==> ((#[trigger] entries@[e].1@[q])@) is I64,
            j <= naggs,
            cols@.len() == nkeys + j,
            forall|i: int| 0 <= i < nkeys + j ==> (#[trigger] cols@[i])@.len() == n,
            forall|i: int| 0 <= i < nkeys ==> (#[trigger] cols@[i]).dt() == key_types@[i],
            forall|i: int, e: int| 0 <= i < nkeys && 0 <= e < n
                ==> (#[trigger] cols@[i]@[e]) == key_view(entries@[e].0@)[i],
            forall|q: int| nkeys <= q < nkeys + j ==> (#[trigger] cols@[q]).dt()
                == DataType::Int64,
            forall|q: int, e: int| nkeys <= q < nkeys + j && 0 <= e < n
                ==> (#[trigger] cols@[q]@[e]) == entries@[e].1@[q - nkeys]@,
        decreases naggs - j,
    {
        let mut v: Vec<i64> = Vec::new();
        let mut e: usize = 0;
        while e < n
            invariant
                n == entries@.len(),
                j < naggs,
                forall|q: int| 0 <= q < entries@.len() ==> (#[trigger] entries@[q]).1@.len()
                    == naggs,
                forall|q: int, m: int| 0 <= q < entries@.len() && 0 <= m < naggs
                    ==> ((#[trigger] entries@[q].1@[m])@) is I64,
                e <= n,
                v@.len() == e,
                forall|q: int| 0 <= q < e ==> Val::I64(#[trigger] v@[q])
                    == entries@[q].1@[j as int]@,
            decreases n - e,
        {
            let x: i64 = match &entries[e].1[j] {
                ScalarValue::Int64(x) => *x,
                _ => {
                    proof {
                        assert((entries@[e as int].1@[j as int]@) is I64);
                        assert(false);
                    }
                    0
                },
            };
            v.push(x);
            e += 1;
        }
        cols.push(Column::Int64(v));
        j += 1;
    }
    let mut flags: Vec<bool> = Vec::new();
    let mut e: usize = 0;
    while e < n
        invariant
            n == entries@.len(),
            e <= n,
            flags@.len() == e,
            forall|q: int| 0 <= q < e ==> #[trigger] flags@[q] == entries@[q].2,
        decreases n - e,
    {
        flags.push(entries[e].2);
        e += 1;
    }
    cols.push(Column::Boolean(flags));
    let ghost nkeys_g = nkeys as int;
    let s2 = out_schema.duplicate();
    proof {
        let rb = RecordBatch { schema: s2, columns: cols };
        assert(rb.columns@.len() == rb.schema@.len());
        assert(rb.spec_num_rows() == n);
        assert forall|i: int| 0 <= i < rb.columns@.len() implies (#[trigger] rb.columns@[i]).dt()
            == rb.schema@[i].data_type by {
            if i < nkeys_g {
                assert(emittable(key_types@[i]));
                assert(out_schema@[i].data_type == key_types@[i]);
            } else if i < nkeys_g + naggs {
                let j = i - nkeys_g;
                assert((out_schema@[key_types@.len() + j]).data_type == DataType::Int64);
            } else {
                assert(i == nkeys_g + naggs);
                assert(rb.schema@[i] == out_schema@.last());
            }
        }
        assert forall|i: int| 0 <= i < rb.columns@.len() implies (#[trigger] rb.columns@[i])@.len()
            == rb.spec_num_rows() by {}
        assert(rb.wf());
    }
    let batch = match RecordBatch::try_new(s2, cols) {
        Ok(b) => b,
        Err(_) => {
            proof {
                assert(false);
            }
            RecordBatch { schema: Schema { fields: Vec::new() }, columns: Vec::new() }
        },
    };
    proof {
        assert(batch.spec_num_rows() == n);
        assert forall|q: int| 0 <= q < n implies batch.row(q) == entries_rows(entries@)[q] by {
            let er = entry_row(entries@[q]);
            assert(key_view(entries@[q].0@).len() == nkeys_g);
            assert(scalars_view(entries@[q].1@).len() == naggs);
            assert forall|i: int| 0 <= i < batch.columns@.len()
                implies batch.columns@[i]@[q] == er[i] by {
                if i < nkeys_g {
                    assert(er[i] == key_view(entries@[q].0@)[i]);
                } else if i < nkeys_g + naggs {
                    assert(er[i] == scalars_view(entries@[q].1@)[i - nkeys_g]);
                } else {
                    assert(er[i] == Val::Bool(entries@[q].2));
                }
            }
            assert(batch.row(q) =~= er);
        }
        assert(batch.rows() =~= entries_rows(entries@));
    }
    batch
}

/// The accumulator part of the operator's keyed state; the flag beside each
/// group records whether its last ingestion left it live.
pub open spec fn accs_model<Acc>(m: Map<Seq<Val>, (Vec<Acc>, bool)>) -> Map<Seq<Val>, Seq<Acc>> {
    m.map_values(|p: (Vec<Acc>, bool)| p.0@)
}

/// The snapshot part of the operator's keyed state.
pub open spec fn last_model(m: Map<Seq<Val>, Vec<ScalarValue>>) -> Map<Seq<Val>, Seq<Val>> {
    m.map_values(|v: Vec<ScalarValue>| scalars_view(v@))
}

/// Keyed aggregation with re-triggered emission.
pub struct GroupBy<S: Node, A: Aggregate> {
    pub key: Vec<String>,
    pub aggregated_fields: Vec<String>,
    pub aggregates: Vec<A>,
    pub output_names: Vec<String>,
    pub source: S,
}

impl<S: Node, A: Aggregate> GroupBy<S, A> {
    pub fn new(
        key: Vec<String>,
        aggregated_fields: Vec<String>,
        aggregates: Vec<A>,
        output_names: Vec<String>,
        source: S,
    ) -> (r: GroupBy<S, A>)
        ensures
            r.key@ == key@,
            r.aggregated_fields@ == aggregated_fields@,
            r.aggregates@ == aggregates@,
            r.output_names@ == output_names@,
            r.source == source,
    {
        GroupBy { key, aggregated_fields, aggregates, output_names, source }
    }

    /// The configuration lists fit together.
    pub open spec fn cfg_ok(&self) -> bool {
        &&& self.key@.len() >= 1
        &&& self.aggregates@.len() == self.aggregated_fields@.len()
        &&& self.output_names@.len() == self.aggregated_fields@.len()
        &&& self.aggregates@.len() >= 1
    }

    pub open spec fn keys_found(&self) -> bool {
        forall|i: int| 0 <= i < self.key@.len()
            ==> has_field(self.source.out_schema(), (#[trigger] self.key@[i])@)
    }

    pub open spec fn aggs_found(&self) -> bool {
        forall|i: int| 0 <= i < self.aggregated_fields@.len()
            ==> has_field(self.source.out_schema(), (#[trigger] self.aggregated_fields@[i])@)
    }

    pub open spec fn key_indices(&self) -> Seq<int> {
        Seq::new(
            self.key@.len(),
            |i: int| field_index(self.source.out_schema(), self.key@[i]@),
        )
    }

    pub open spec fn agg_indices(&self) -> Seq<int> {
        Seq::new(
            self.aggregated_fields@.len(),
            |i: int| field_index(self.source.out_schema(), self.aggregated_fields@[i]@),
        )
    }

    pub open spec fn key_types_spec(&self) -> Seq<DataType> {
        Seq::new(
            self.key@.len(),
            |i: int| self.source.out_schema()[self.key_indices()[i]].data_type,
        )
    }

    pub open spec fn agg_out_type(&self, i: int) -> Option<DataType> {
        self.aggregates@[i].out_type_spec(
            self.source.out_schema()[self.agg_indices()[i]].data_type,
        )
    }

    pub open spec fn out_types_ok(&self) -> bool {
        forall|i: int| 0 <= i < self.aggregates@.len() ==> #[trigger] self.agg_out_type(i) is Some
    }

    /// The accumulators a fresh group starts from.
    pub open spec fn fresh_accs(&self) -> Seq<A::Acc> {
        Seq::new(self.aggregates@.len(), |j: int| self.aggregates@[j].fresh())
    }

    /// What emission needs of the configuration: emittable key types,
    /// 64-bit signed integer aggregate outputs, and a boolean retraction
    /// column closing the input schema.
    pub open spec fn emit_ok(&self) -> bool {
        &&& forall|i: int| 0 <= i < self.key@.len()
            ==> emittable(#[trigger] self.key_types_spec()[i])
        &&& forall|i: int| 0 <= i < self.aggregates@.len()
            ==> #[trigger] self.agg_out_type(i) == Some(DataType::Int64)
        &&& self.source.out_schema().len() >= 1
        &&& self.source.out_schema().last().data_type == DataType::Boolean
    }

    proof fn lemma_key_indices_in_range(&self)
        requires
            self.keys_found(),
            self.aggs_found(),
        ensures
            forall|i: int| 0 <= i < self.key@.len()
                ==> 0 <= #[trigger] self.key_indices()[i] < self.source.out_schema().len(),
            forall|i: int| 0 <= i < self.aggregated_fields@.len()
                ==> 0 <= #[trigger] self.agg_indices()[i] < self.source.out_schema().len(),
    {
        assert forall|i: int| 0 <= i < self.key@.len()
            implies 0 <= #[trigger] self.key_indices()[i] < self.source.out_schema().len() by {
            assert(has_field(self.source.out_schema(), self.key@[i]@));
            lemma_field_index(self.source.out_schema(), self.key@[i]@);
        }
        assert forall|i: int| 0 <= i < self.aggregated_fields@.len()
            implies 0 <= #[trigger] self.agg_indices()[i]
                < self.source.out_schema().len() by {
            assert(has_field(self.source.out_schema(), self.aggregated_fields@[i]@));
            lemma_field_index(self.source.out_schema(), self.aggregated_fields@[i]@);
        }
    }

    /// Resolves the key and aggregated fields; `Err` exactly when a name is
    /// missing.
    fn resolve_indices(&self, ss: &Schema) -> (r: Result<(Vec<usize>, Vec<usize>), Error>)
        requires
            ss@ == self.source.out_schema(),
        ensures
            r is Ok <==> self.keys_found() && self.aggs_found(),
            r is Ok ==> {
                let (ki, ai) = r->Ok_0;
                &&& ki@.len() == self.key@.len()
                &&& ai@.len() == self.aggregated_fields@.len()
                &&& forall|i: int| 0 <= i < ki@.len() ==> ki@[i] == self.key_indices()[i]
                &&& forall|i: int| 0 <= i < ai@.len() ==> ai@[i] == self.agg_indices()[i]
            },
    {
        let mut ki: Vec<usize> = Vec::new();
        let mut i: usize = 0;
        while i < self.key.len()
            invariant
                ss@ == self.source.out_schema(),
                i <= self.key@.len(),
                ki@.len() == i,
                forall|j: int| 0 <= j < i ==> has_field(
                    self.source.out_schema(),
                    (#[trigger] self.key@[j])@,
                ),
                forall|j: int| 0 <= j < i ==> ki@[j] == self.key_indices()[j],
            decreases self.key@.len() - i,
        {
            match ss.index_of(&self.key[i]) {
                Ok(p) => ki.push(p),
                Err(e) => {
                    return Err(e);
                },
            }
            i += 1;
        }
        let mut ai: Vec<usize> = Vec::new();
        let mut i2: usize = 0;
        while i2 < self.aggregated_fields.len()
            invariant
                ss@ == self.source.out_schema(),
                i2 <= self.aggregated_fields@.len(),
                ai@.len() == i2,
                forall|j: int| 0 <= j < i2 ==> has_field(
                    self.source.out_schema(),
                    (#[trigger] self.aggregated_fields@[j])@,
                ),
                forall|j: int| 0 <= j < i2 ==> ai@[j] == self.agg_indices()[j],
            decreases self.aggregated_fields@.len() - i2,
        {
            match ss.index_of(&self.aggregated_fields[i2]) {
                Ok(p) => ai.push(p),
                Err(e) => {
                    return Err(e);
                },
            }
            i2 += 1;
        }
        Ok((ki, ai))
    }
}

impl<S: Node, A: Aggregate> Node for GroupBy<S, A> {
    open spec fn schema_ok(&self) -> bool {
        &&& self.source.schema_ok()
        &&& self.cfg_ok()
        &&& self.keys_found()
        &&& self.aggs_found()
        &&& self.out_types_ok()
    }

    /// The key fields in declared order, the aggregate result fields, and a
    /// boolean `retraction` field last.
    open spec fn out_schema(&self) -> Seq<FieldV> {
        Seq::new(self.key@.len(), |i: int| self.source.out_schema()[self.key_indices()[i]])
            + Seq::new(
            self.aggregates@.len(),
            |i: int| FieldV {
                name: self.output_names@[i]@,
                data_type: self.agg_out_type(i)->Some_0,
            },
        ) + seq![retraction_field()]
    }

    open spec fn run_ok(&self) -> bool {
        &&& self.schema_ok()
        &&& self.source.run_ok()
        &&& self.emit_ok()
    }

    /// Everything the operator emits is the fold of the per-batch protocol
    /// over the source's batches, starting from empty state.
    open spec fn out_rows(&self) -> Seq<Seq<Seq<Val>>> {
        gb_outputs(
            self.fresh_accs(),
            DEFAULT_TRIGGER_COUNT as int,
            self.key_indices(),
            self.agg_indices(),
            self.source.out_rows(),
        )
    }

    fn schema(&self) -> (r: Result<Schema, Error>) {
        let ss = self.source.schema()?;
        if self.key.len() == 0 || self.aggregates.len() == 0
            || self.aggregates.len() != self.aggregated_fields.len()
            || self.output_names.len() != self.aggregated_fields.len() {
            return Err(Error::InvariantError(
                "group-by configuration lists do not fit together".to_owned(),
            ));
        }
        let (ki, ai) = self.resolve_indices(&ss)?;
        proof {
            self.lemma_key_indices_in_range();
        }
        let mut fields: Vec<Field> = Vec::new();
        let mut i: usize = 0;
        while i < ki.len()
            invariant
                ss@ == self.source.out_schema(),
                self.keys_found(),
                self.aggs_found(),
                ki@.len() == self.key@.len(),
                forall|j: int| 0 <= j < ki@.len() ==> ki@[j] == self.key_indices()[j],
                forall|j: int| 0 <= j < self.key@.len()
                    ==> 0 <= #[trigger] self.key_indices()[j] < self.source.out_schema().len(),
                i <= ki@.len(),
                fields@.len() == i,
                forall|j: int| 0 <= j < i ==> (#[trigger] fields@[j])@
                    == self.source.out_schema()[self.key_indices()[j]],
            decreases ki@.len() - i,
        {
            fields.push(ss.fields[ki[i]].duplicate());
            i += 1;
        }
        let mut i2: usize = 0;
        while i2 < ai.len()
            invariant
                ss@ == self.source.out_schema(),
                self.keys_found(),
                self.aggs_found(),
                self.aggregates@.len() == self.aggregated_fields@.len(),
                self.output_names@.len() == self.aggregated_fields@.len(),
                ai@.len() == self.aggregated_fields@.len(),
                forall|j: int| 0 <= j < ai@.len() ==> ai@[j] == self.agg_indices()[j],
                forall|j: int| 0 <= j < self.aggregated_fields@.len()
                    ==> 0 <= #[trigger] self.agg_indices()[j] < self.source.out_schema().len(),
                i2 <= ai@.len(),
                fields@.len() == self.key@.len() + i2,
                forall|j: int| 0 <= j < self.key@.len() ==> (#[trigger] fields@[j])@
                    == self.source.out_schema()[self.key_indices()[j]],
                forall|j: int| 0 <= j < i2 ==> #[trigger] self.agg_out_type(j) is Some,
                forall|j: int| self.key@.len() <= j < self.key@.len() + i2
                    ==> (#[trigger] fields@[j])@ == (FieldV {
                        name: self.output_names@[j - self.key@.len()]@,
                        data_type: self.agg_out_type(j - self.key@.len())->Some_0,
                    }),
            decreases ai@.len() - i2,
        {
            let t = match self.aggregates[i2].output_type(&ss.fields[ai[i2]].data_type) {
                Ok(t) => t,
                Err(e) => {
                    proof {
                        assert(!(self.agg_out_type(i2 as int) is Some));
                    }
                    return Err(e);
                },
            };
            fields.push(Field::new(self.output_names[i2].clone(), t));
            i2 += 1;
        }
        fields.push(Field::new("retraction".to_owned(), DataType::Boolean));
        let s = Schema::new(fields);
        proof {
            assert(s@ =~= self.out_schema());
        }
        Ok(s)
    }

    #[verifier::rlimit(100)]
    fn run(&self, ctx: &ExecutionContext) -> (r: Result<Vec<RecordBatch>, Error>) {
        let out_schema_exec = self.schema()?;
        let ss = match self.source.schema() {
            Ok(s) => s,
            Err(_) => {
                proof {
                    assert(false);
                }
                return Err(Error::Unexpected("unreachable".to_owned()));
            },
        };
        let (key_indices, agg_indices) = match self.resolve_indices(&ss) {
            Ok(p) => p,
            Err(_) => {
                proof {
                    assert(false);
                }
                return Err(Error::Unexpected("unreachable".to_owned()));
            },
        };
        proof {
            self.lemma_key_indices_in_range();
        }
        let naggs = self.aggregates.len();
        let nkeys = key_indices.len();
        // The key columns must be of types the trigger and the emitter can
        // rebuild.
        let mut key_types: Vec<DataType> = Vec::new();
        let mut i: usize = 0;
        while i < nkeys
            invariant
                ss@ == self.source.out_schema(),
                nkeys == self.key@.len(),
                key_indices@.len() == nkeys,
                forall|j: int| 0 <= j < nkeys ==> key_indices@[j] == self.key_indices()[j],
                forall|j: int| 0 <= j < nkeys
                    ==> 0 <= #[trigger] self.key_indices()[j] < self.source.out_schema().len(),
                i <= nkeys,
                key_types@.len() == i,
                forall|j: int| 0 <= j < i ==> #[trigger] key_types@[j]
                    == self.key_types_spec()[j] && emittable(key_types@[j]),
            decreases nkeys - i,
        {
            let t = ss.fields[key_indices[i]].data_type;
            match t {
                DataType::Int64 => {},
                DataType::Utf8 => {},
                _ => {
                    proof {
                        assert(self.key_types_spec()[i as int] == t);
                        assert(!emittable(self.key_types_spec()[i as int]));
                    }
                    return Err(Error::TypeError("unsupported group key type".to_owned()));
                },
            }
            key_types.push(t);
            i += 1;
        }
        // Every aggregate must produce 64-bit signed integers: the only
        // result type emission supports.
        let mut i2: usize = 0;
        while i2 < naggs
            invariant
                ss@ == self.source.out_schema(),
                naggs == self.aggregates@.len(),
                self.schema_ok(),
                agg_indices@.len() == naggs,
                forall|j: int| 0 <= j < naggs ==> agg_indices@[j] == self.agg_indices()[j],
                forall|j: int| 0 <= j < naggs
                    ==> 0 <= #[trigger] self.agg_indices()[j] < self.source.out_schema().len(),
                i2 <= naggs,
                forall|j: int| 0 <= j < i2 ==> #[trigger] self.agg_out_type(j)
                    == Some(DataType::Int64),
            decreases naggs - i2,
        {
            proof {
                assert(self.agg_out_type(i2 as int) is Some);
            }
            let t = match self.aggregates[i2].output_type(&ss.fields[agg_indices[i2]].data_type) {
                Ok(t) => t,
                Err(_) => {
                    proof {
                        assert(false);
                    }
                    return Err(Error::Unexpected("unreachable".to_owned()));
                },
            };
            if !(t == DataType::Int64) {
                proof {
                    assert(self.agg_out_type(i2 as int) == Some(t));
                }
                return Err(Error::TypeError(
                    "emission supports 64-bit signed integer aggregates only".to_owned(),
                ));
            }
            i2 += 1;
        }
        // The input's trailing column must be the boolean retraction flag.
        if ss.fields.len() == 0 {
            return Err(Error::SchemaError("the input schema is empty".to_owned()));
        }
        if !(ss.fields[ss.fields.len() - 1].data_type == DataType::Boolean) {
            return Err(Error::SchemaError(
                "the input schema does not end in a boolean retraction field".to_owned(),
            ));
        }
        proof {
            assert forall|q: int| 0 <= q < self.key@.len() implies emittable(
                #[trigger] self.key_types_spec()[q],
            ) by {
                assert(key_types@[q] == self.key_types_spec()[q]);
            }
            assert(self.source.out_schema().last().data_type == DataType::Boolean);
            assert(self.emit_ok());
        }
        let src_batches = self.source.run(ctx)?;
        let ghost fresh = self.fresh_accs();
        let ghost kig = self.key_indices();
        let ghost aig = self.agg_indices();
        let ghost thr = DEFAULT_TRIGGER_COUNT as int;
        let ghost ins = self.source.out_rows();
        let mut trigger = CountingTrigger::new(key_types, DEFAULT_TRIGGER_COUNT);
        let mut accumulators_map: KeyMap<(Vec<A::Acc>, bool)> = KeyMap::new();
        let mut last_triggered_values: KeyMap<Vec<ScalarValue>> = KeyMap::new();
        let mut out: Vec<RecordBatch> = Vec::new();
        proof {
            assert(accs_model(accumulators_map@) =~= initial_state::<A::Acc>().accs);
            assert(last_model(last_triggered_values@) =~= initial_state::<A::Acc>().last);
            assert(ins.take(0) =~= Seq::<Seq<Seq<Val>>>::empty());
        }
        let mut b: usize = 0;
        while b < src_batches.len()
            invariant
                self.schema_ok(),
                self.emit_ok(),
                self.source.schema_ok(),
                ss@ == self.source.out_schema(),
                out_schema_exec@ == self.out_schema(),
                naggs == self.aggregates@.len(),
                nkeys == self.key@.len(),
                naggs >= 1,
                nkeys >= 1,
                key_indices@.len() == nkeys,
                agg_indices@.len() == naggs,
                forall|j: int| 0 <= j < nkeys ==> key_indices@[j] == kig[j],
                forall|j: int| 0 <= j < naggs ==> agg_indices@[j] == aig[j],
                forall|j: int| 0 <= j < nkeys ==> 0 <= #[trigger] kig[j] < ss@.len(),
                forall|j: int| 0 <= j < naggs ==> 0 <= #[trigger] aig[j] < ss@.len(),
                kig == self.key_indices(),
                aig == self.agg_indices(),
                fresh == self.fresh_accs(),
                thr == DEFAULT_TRIGGER_COUNT as int,
                ins == self.source.out_rows(),
                trigger.wf(),
                trigger.key_data_types@ == self.key_types_spec(),
                trigger.trigger_count == DEFAULT_TRIGGER_COUNT,
                accumulators_map.wf(),
                last_triggered_values.wf(),
                src_batches@.len() == ins.len(),
                forall|j: int| 0 <= j < src_batches@.len() ==> {
                    &&& (#[trigger] src_batches@[j]).wf()
                    &&& src_batches@[j].schema@ == self.source.out_schema()
                    &&& src_batches@[j].rows() == ins[j]
                },
                b <= src_batches@.len(),
                accs_model(accumulators_map@) == gb_state_after(fresh, thr, kig, aig, ins.take(b as int)).accs,
                last_model(last_triggered_values@) == gb_state_after(
                    fresh,
                    thr,
                    kig,
                    aig,
                    ins.take(b as int),
                ).last,
                trigger.model() == gb_state_after(fresh, thr, kig, aig, ins.take(b as int)).trig,
                forall|k: Seq<Val>| #[trigger] accumulators_map@.contains_key(k) ==> {
                    &&& accumulators_map@[k].0@.len() == naggs
                    &&& accumulators_map@[k].1 == group_live(accumulators_map@[k].0@)
                },
                forall|k: Seq<Val>| #[trigger] last_triggered_values@.contains_key(k) ==> {
                    &&& last_triggered_values@[k]@.len() == naggs
                    &&& forall|j: int| 0 <= j < naggs
                        ==> ((#[trigger] last_triggered_values@[k]@[j])@) is I64
                },
                out@.len() == gb_outputs(fresh, thr, kig, aig, ins.take(b as int)).len(),
                forall|j: int| 0 <= j < out@.len() ==> {
                    &&& (#[trigger] out@[j]).wf()
                    &&& out@[j].schema@ == self.out_schema()
                    &&& out@[j].rows() == gb_outputs(fresh, thr, kig, aig, ins.take(b as int))[j]
                },
            decreases src_batches@.len() - b,
        {
            let batch = &src_batches[b];
            let rows = batch.num_rows();
            let ghost rowsv = batch.rows();
            let ghost st0 = gb_state_after(fresh, thr, kig, aig, ins.take(b as int));
            let ghost keysg = rows_keys(rowsv, kig);
            let ghost valsg = rows_vals(rowsv, aig);
            let ghost flagsg = rows_flags(rowsv);
            proof {
                assert(src_batches@[b as int].wf());
                assert(batch.wf());
                assert(batch.columns@.len() == ss@.len());
            }
            // the key columns, handed to the trigger after ingestion
            let mut key_columns: Vec<Column> = Vec::new();
            let mut i3: usize = 0;
            while i3 < nkeys
                invariant
                    batch.wf(),
                    batch.schema@ == self.source.out_schema(),
                    rows == batch.spec_num_rows(),
                    nkeys == key_indices@.len(),
                    forall|j: int| 0 <= j < nkeys ==> key_indices@[j] == kig[j],
                    forall|j: int| 0 <= j < nkeys ==> 0 <= #[trigger] kig[j]
                        < batch.columns@.len(),
                    i3 <= nkeys,
                    key_columns@.len() == i3,
                    forall|j: int| 0 <= j < i3 ==> (#[trigger] key_columns@[j]).dt()
                        == batch.columns@[kig[j]].dt(),
                    forall|j: int| 0 <= j < i3 ==> (#[trigger] key_columns@[j])@
                        == batch.columns@[kig[j]]@,
                decreases nkeys - i3,
            {
                let ii = key_indices[i3];
                proof {
                    assert(key_indices@[i3 as int] == kig[i3 as int]);
                    assert(0 <= kig[i3 as int] < batch.columns@.len());
                }
                key_columns.push(batch.columns[ii].duplicate());
                i3 += 1;
            }
            proof {
                assert forall|rr: int| 0 <= rr < rows implies key_at(key_columns@, rr)
                    == keysg[rr] by {
                    assert(key_at(key_columns@, rr) =~= sel_cells(rowsv[rr], kig));
                }
                assert forall|j: int| 0 <= j < nkeys
                    implies (#[trigger] key_columns@[j]).dt()
                        == trigger.key_data_types@[j] by {
                    assert(batch.columns@[kig[j]].dt() == batch.schema@[kig[j]].data_type);
                }
            }
            let mut key_vec: Vec<GroupByScalar> = Vec::new();
            let mut i4: usize = 0;
            while i4 < nkeys
                invariant
                    i4 <= nkeys,
                    key_vec@.len() == i4,
                decreases nkeys - i4,
            {
                key_vec.push(GroupByScalar::Int64(0));
                i4 += 1;
            }
            // ingest the batch row by row
            let mut row: usize = 0;
            while row < rows
                invariant
                    self.schema_ok(),
                    self.emit_ok(),
                    ss@ == self.source.out_schema(),
                    batch.wf(),
                    batch.schema@ == self.source.out_schema(),
                    rows == batch.spec_num_rows(),
                    rowsv == batch.rows(),
                    naggs == self.aggregates@.len(),
                    nkeys == self.key@.len(),
                    key_vec@.len() == nkeys,
                    key_columns@.len() == nkeys,
                    forall|j: int| 0 <= j < nkeys ==> (#[trigger] key_columns@[j])@
                        == batch.columns@[kig[j]]@,
                    forall|j: int| 0 <= j < nkeys ==> (#[trigger] key_columns@[j]).dt()
                        == batch.columns@[kig[j]].dt(),
                    forall|j: int| 0 <= j < nkeys ==> 0 <= #[trigger] kig[j] < ss@.len(),
                    forall|j: int| 0 <= j < naggs ==> 0 <= #[trigger] aig[j] < ss@.len(),
                    agg_indices@.len() == naggs,
                    forall|j: int| 0 <= j < naggs ==> agg_indices@[j] == aig[j],
                    kig == self.key_indices(),
                    aig == self.agg_indices(),
                    fresh == self.fresh_accs(),
                    keysg == rows_keys(rowsv, kig),
                    valsg == rows_vals(rowsv, aig),
                    flagsg == rows_flags(rowsv),
                    forall|j: int| 0 <= j < nkeys ==> emittable(
                        #[trigger] self.key_types_spec()[j],
                    ),
                    forall|j: int| 0 <= j < nkeys ==> self.key_types_spec()[j]
                        == batch.columns@[kig[j]].dt(),
                    row <= rows,
                    accumulators_map.wf(),
                    accs_model(accumulators_map@) == ingest_rows(
                        fresh,
                        st0.accs,
                        keysg.take(row as int),
                        valsg.take(row as int),
                        flagsg.take(row as int),
                    ),
                    forall|k: Seq<Val>| #[trigger] accumulators_map@.contains_key(k) ==> {
                        &&& accumulators_map@[k].0@.len() == naggs
                        &&& accumulators_map@[k].1 == group_live(accumulators_map@[k].0@)
                    },
                decreases rows - row,
            {
                let ghost accs_pre = accs_model(accumulators_map@);
                let ck = create_key(&key_columns, row, &mut key_vec);
                proof {
                    assert forall|j: int| 0 <= j < nkeys
                        implies groupable((#[trigger] key_columns@[j]).dt()) by {
                        assert(emittable(self.key_types_spec()[j]));
                    }
                    assert(ck is Ok);
                    assert(key_view(key_vec@) == key_at(key_columns@, row as int));
                    assert(key_at(key_columns@, row as int) =~= sel_cells(rowsv[row as int], kig));
                }
                let ghost kg = key_view(key_vec@);
                // the row's retraction flag, from the trailing column
                let retract_flag: bool = match &batch.columns[batch.columns.len() - 1] {
                    Column::Boolean(v) => v[row],
                    _ => {
                        proof {
                            let li = batch.columns@.len() - 1;
                            assert(batch.columns@[li].dt() == batch.schema@[li].data_type);
                            assert(false);
                        }
                        return Err(Error::Unexpected("unreachable".to_owned()));
                    },
                };
                proof {
                    let li = batch.columns@.len() - 1;
                    assert(rowsv[row as int][li] == batch.columns@[li]@[row as int]);
                    assert(flagsg[row as int] == retract_flag);
                }
                let prior = accumulators_map.remove(&key_vec);
                let ghost had = accs_pre.contains_key(kg);
                let mut accs: Vec<A::Acc>;
                match prior {
                    Some(p) => {
                        accs = p.0;
                    },
                    None => {
                        accs = Vec::new();
                        let mut j0: usize = 0;
                        while j0 < naggs
                            invariant
                                naggs == self.aggregates@.len(),
                                fresh == self.fresh_accs(),
                                j0 <= naggs,
                                accs@.len() == j0,
                                forall|q: int| 0 <= q < j0 ==> accs@[q] == fresh[q],
                            decreases naggs - j0,
                        {
                            accs.push(self.aggregates[j0].create_accumulator());
                            j0 += 1;
                        }
                    },
                }
                let ghost base = accs@;
                proof {
                    if had {
                        assert(base == accs_pre[kg]);
                    } else {
                        assert(base =~= fresh);
                    }
                    assert(base.len() == naggs);
                }
                let mut live_all = true;
                let mut j: usize = 0;
                while j < naggs
                    invariant
                        self.schema_ok(),
                        ss@ == self.source.out_schema(),
                        batch.wf(),
                        batch.schema@ == self.source.out_schema(),
                        rows == batch.spec_num_rows(),
                        rowsv == batch.rows(),
                        row < rows,
                        naggs == self.aggregates@.len(),
                        agg_indices@.len() == naggs,
                        forall|q: int| 0 <= q < naggs ==> agg_indices@[q] == aig[q],
                        forall|q: int| 0 <= q < naggs ==> 0 <= #[trigger] aig[q] < ss@.len(),
                        aig == self.agg_indices(),
                        valsg == rows_vals(rowsv, aig),
                        j <= naggs,
                        accs@.len() == naggs,
                        base.len() == naggs,
                        forall|q: int| j <= q < naggs ==> accs@[q] == base[q],
                        forall|q: int| 0 <= q < j ==> accs@[q] == base[q].stepped(
                            valsg[row as int][q],
                            retract_flag,
                        ),
                        live_all <==> (forall|q: int| 0 <= q < j
                            ==> (#[trigger] accs@[q]).live()),
                    decreases naggs - j,
                {
                    let value = batch.columns[agg_indices[j]].value_at(row);
                    proof {
                        let ci = aig[j as int];
                        assert(batch.columns@[ci].dt() == batch.schema@[ci].data_type);
                        batch.columns@[ci].lemma_typed();
                        assert(val_has_type(value@, ss@[ci].data_type));
                        assert(self.agg_out_type(j as int) is Some);
                        self.aggregates@[j as int].lemma_accepts(ss@[ci].data_type, value@);
                        assert(valsg[row as int][j as int] == value@);
                    }
                    let ghost accs_before = accs@;
                    let ghost la0 = live_all;
                    let lv = accs[j].add(value, ScalarValue::Boolean(retract_flag));
                    live_all = live_all && lv;
                    proof {
                        assert(accs@ =~= accs_before.update(
                            j as int,
                            accs_before[j as int].stepped(valsg[row as int][j as int], retract_flag),
                        ));
                        assert(accs@[j as int].live() == lv);
                        if live_all {
                            assert forall|q: int| 0 <= q < j + 1
                                implies (#[trigger] accs@[q]).live() by {
                                if q < j {
                                    assert(accs@[q] == accs_before[q]);
                                }
                            }
                        } else {
                            if !la0 {
                                assert(!(forall|q: int| 0 <= q < j
                                    ==> (#[trigger] accs_before[q]).live()));
                                let q0 = choose|q: int| 0 <= q < j
                                    && !(#[trigger] accs_before[q]).live();
                                assert(accs@[q0] == accs_before[q0]);
                                assert(!accs@[q0].live());
                            } else {
                                assert(!accs@[j as int].live());
                            }
                        }
                    }
                    j += 1;
                }
                let ghost stepped_accs = Seq::new(
                    base.len(),
                    |q: int| base[q].stepped(valsg[row as int][q], retract_flag),
                );
                proof {
                    assert(accs@ =~= stepped_accs);
                    assert(live_all == group_live(accs@));
                }
                accumulators_map.insert(key_dup(&key_vec), (accs, live_all));
                proof {
                    assert(accs_model(accumulators_map@) =~= ingest_row(
                        fresh,
                        accs_pre,
                        kg,
                        valsg[row as int],
                        retract_flag,
                    ));
                    let kt = keysg.take(row + 1);
                    let vt = valsg.take(row + 1);
                    let ft = flagsg.take(row + 1);
                    assert(kt.drop_last() =~= keysg.take(row as int));
                    assert(vt.drop_last() =~= valsg.take(row as int));
                    assert(ft.drop_last() =~= flagsg.take(row as int));
                    assert(kt.last() == kg);
                    assert(vt.last() == valsg[row as int]);
                    assert(ft.last() == retract_flag);
                }
                row += 1;
            }
            proof {
                assert(keysg.take(rows as int) =~= keysg);
                assert(valsg.take(rows as int) =~= valsg);
                assert(flagsg.take(rows as int) =~= flagsg);
            }
            let ghost accs1 = ingest_rows(fresh, st0.accs, keysg, valsg, flagsg);
            // observe the batch's keys, then poll
            trigger.observe(&key_columns);
            proof {
                assert(keys_at(key_columns@, key_columns@[0]@.len()) =~= keysg);
                assert forall|rr: int| 0 <= rr < rows
                    implies keys_at(key_columns@, rows as nat)[rr] == keysg[rr] by {}
            }
            let ghost trig1 = counting_steps(st0.trig, keysg, thr);
            let ghost ready = trig1.ready;
            let mut ready_cols = trigger.drain_ready();
            let nready = ready_cols[0].len();
            if nready == 0 {
                proof {
                    assert(ready.len() == 0);
                    let stp = gb_step(fresh, thr, kig, aig, st0, rowsv);
                    assert(stp.1 is None);
                    assert(stp.0.accs == accs1);
                    assert(stp.0.last == st0.last);
                    assert(stp.0.trig == trig1);
                    assert(trigger.model().counts == trig1.counts);
                    assert(trigger.model().ready =~= trig1.ready);
                    assert(trigger.model() == trig1);
                    let tb1 = ins.take(b + 1);
                    assert(tb1.drop_last() =~= ins.take(b as int));
                    assert(tb1.last() == rowsv);
                    assert(gb_state_after(fresh, thr, kig, aig, tb1) == stp.0);
                    assert(gb_outputs(fresh, thr, kig, aig, tb1) == gb_outputs(
                        fresh,
                        thr,
                        kig,
                        aig,
                        ins.take(b as int),
                    ));
                }
                b += 1;
                continue;
            }
            let ghost last0 = st0.last;
            // the retraction section: previously emitted values of the
            // ready keys
            let mut entries: Vec<(Vec<GroupByScalar>, Vec<ScalarValue>, bool)> = Vec::new();
            let mut r0: usize = 0;
            while r0 < nready
                invariant
                    nkeys >= 1,
                    nkeys == self.key@.len(),
                    key_vec@.len() == nkeys,
                    ready_cols@.len() == nkeys,
                    forall|j: int| 0 <= j < nkeys ==> (#[trigger] ready_cols@[j]).dt()
                        == self.key_types_spec()[j],
                    forall|j: int| 0 <= j < nkeys ==> (#[trigger] ready_cols@[j])@.len()
                        == nready,
                    forall|j: int| 0 <= j < nkeys ==> emittable(
                        #[trigger] self.key_types_spec()[j],
                    ),
                    nready == ready.len(),
                    forall|rr: int| 0 <= rr < nready ==> key_at(ready_cols@, rr) == ready[rr],
                    last_triggered_values.wf(),
                    last_model(last_triggered_values@) == last0,
                    forall|k: Seq<Val>| #[trigger] last_triggered_values@.contains_key(k) ==> {
                        &&& last_triggered_values@[k]@.len() == naggs
                        &&& forall|j: int| 0 <= j < naggs
                            ==> ((#[trigger] last_triggered_values@[k]@[j])@) is I64
                    },
                    r0 <= nready,
                    entries_rows(entries@) == retract_section(ready.take(r0 as int), last0),
                    forall|e: int| 0 <= e < entries@.len() ==> key_matches(
                        key_view((#[trigger] entries@[e]).0@),
                        self.key_types_spec(),
                    ),
                    forall|e: int| 0 <= e < entries@.len()
                        ==> (#[trigger] entries@[e]).1@.len() == naggs,
                    forall|e: int, j: int| 0 <= e < entries@.len() && 0 <= j < naggs
                        ==> ((#[trigger] entries@[e].1@[j])@) is I64,
                decreases nready - r0,
            {
                let ck = create_key(&ready_cols, r0, &mut key_vec);
                proof {
                    assert forall|j: int| 0 <= j < nkeys
                        implies groupable((#[trigger] ready_cols@[j]).dt()) by {
                        assert(emittable(self.key_types_spec()[j]));
                    }
                    assert(ck is Ok);
                    assert(key_view(key_vec@) == key_at(ready_cols@, r0 as int));
                    assert(key_view(key_vec@) == ready[r0 as int]);
                    assert forall|j: int| 0 <= j < nkeys implies val_has_type(
                        #[trigger] key_view(key_vec@)[j],
                        self.key_types_spec()[j],
                    ) by {
                        ready_cols@[j].lemma_typed();
                        assert(key_view(key_vec@)[j] == ready_cols@[j]@[r0 as int]);
                    }
                    assert(key_matches(key_view(key_vec@), self.key_types_spec()));
                    last_triggered_values.lemma_char();
                }
                match last_triggered_values.get(&key_vec) {
                    Some(vals) => {
                        let dv = scalars_dup(vals);
                        entries.push((key_dup(&key_vec), dv, true));
                        proof {
                            let kq = key_view(key_vec@);
                            assert(last_model(last_triggered_values@).contains_key(kq));
                            assert(last0[kq] == scalars_view(last_triggered_values@[kq]@));
                            assert forall|m: int| 0 <= m < naggs
                                implies ((#[trigger] dv@[m])@) is I64 by {
                                assert(dv@[m]@ == scalars_view(dv@)[m]);
                                assert(scalars_view(dv@)[m]
                                    == scalars_view(last_triggered_values@[kq]@)[m]);
                                assert(((last_triggered_values@[kq]@[m])@) is I64);
                            }
                            assert(entry_row(entries@.last()) =~= kq + last0[kq] + seq![
                                Val::Bool(true),
                            ]);
                        }
                    },
                    None => {
                        proof {
                            assert(!last_model(last_triggered_values@).contains_key(
                                key_view(key_vec@),
                            ));
                        }
                    },
                }
                proof {
                    let rt = ready.take(r0 + 1);
                    assert(rt.drop_last() =~= ready.take(r0 as int));
                    assert(rt.last() == ready[r0 as int]);
                    assert(entries_rows(entries@) =~= retract_section(rt, last0));
                }
                r0 += 1;
            }
            // forget the ready snapshots, then the new-value section
            proof {
                assert(ready.take(nready as int) =~= ready);
                assert(ready.take(0) =~= Seq::<Seq<Val>>::empty());
                assert(entries_rows(entries@) =~= retract_section(ready, last0) + new_section(
                    ready.take(0),
                    accs1,
                ));
            }
            let mut r1: usize = 0;
            while r1 < nready
                invariant
                    self.schema_ok(),
                    ss@ == self.source.out_schema(),
                    naggs == self.aggregates@.len(),
                    nkeys >= 1,
                    nkeys == self.key@.len(),
                    naggs >= 1,
                    key_vec@.len() == nkeys,
                    ready_cols@.len() == nkeys,
                    forall|j: int| 0 <= j < nkeys ==> (#[trigger] ready_cols@[j]).dt()
                        == self.key_types_spec()[j],
                    forall|j: int| 0 <= j < nkeys ==> (#[trigger] ready_cols@[j])@.len()
                        == nready,
                    forall|j: int| 0 <= j < nkeys ==> emittable(
                        #[trigger] self.key_types_spec()[j],
                    ),
                    forall|j: int| 0 <= j < naggs ==> 0 <= #[trigger] aig[j] < ss@.len(),
                    aig == self.agg_indices(),
                    forall|j: int| 0 <= j < naggs ==> #[trigger] self.agg_out_type(j)
                        == Some(DataType::Int64),
                    nready == ready.len(),
                    forall|rr: int| 0 <= rr < nready ==> key_at(ready_cols@, rr) == ready[rr],
                    accumulators_map.wf(),
                    accs_model(accumulators_map@) == accs1,
                    forall|k: Seq<Val>| #[trigger] accumulators_map@.contains_key(k) ==> {
                        &&& accumulators_map@[k].0@.len() == naggs
                        &&& accumulators_map@[k].1 == group_live(accumulators_map@[k].0@)
                    },
                    last_triggered_values.wf(),
                    last_model(last_triggered_values@) == snap_after(
                        ready.take(r1 as int),
                        accs1,
                        last0,
                    ),
                    forall|k: Seq<Val>| #[trigger] last_triggered_values@.contains_key(k) ==> {
                        &&& last_triggered_values@[k]@.len() == naggs
                        &&& forall|j: int| 0 <= j < naggs
                            ==> ((#[trigger] last_triggered_values@[k]@[j])@) is I64
                    },
                    r1 <= nready,
                    entries_rows(entries@) == retract_section(ready, last0) + new_section(
                        ready.take(r1 as int),
                        accs1,
                    ),
                    forall|e: int| 0 <= e < entries@.len() ==> key_matches(
                        key_view((#[trigger] entries@[e]).0@),
                        self.key_types_spec(),
                    ),
                    forall|e: int| 0 <= e < entries@.len()
                        ==> (#[trigger] entries@[e]).1@.len() == naggs,
                    forall|e: int, j: int| 0 <= e < entries@.len() && 0 <= j < naggs
                        ==> ((#[trigger] entries@[e].1@[j])@) is I64,
                decreases nready - r1,
            {
                let ck = create_key(&ready_cols, r1, &mut key_vec);
                proof {
                    assert forall|j: int| 0 <= j < nkeys
                        implies groupable((#[trigger] ready_cols@[j]).dt()) by {
                        assert(emittable(self.key_types_spec()[j]));
                    }
                    assert(ck is Ok);
                    assert(key_view(key_vec@) == key_at(ready_cols@, r1 as int));
                    assert(key_view(key_vec@) == ready[r1 as int]);
                    assert forall|j: int| 0 <= j < nkeys implies val_has_type(
                        #[trigger] key_view(key_vec@)[j],
                        self.key_types_spec()[j],
                    ) by {
                        ready_cols@[j].lemma_typed();
                        assert(key_view(key_vec@)[j] == ready_cols@[j]@[r1 as int]);
                    }
                    assert(key_matches(key_view(key_vec@), self.key_types_spec()));
                }
                let ghost kq = key_view(key_vec@);
                let ghost pre_entries = entries@;
                let ghost snap_b = last_model(last_triggered_values@);
                last_triggered_values.remove(&key_vec);
                proof {
                    assert(last_model(last_triggered_values@) =~= snap_b.remove(kq));
                }
                match accumulators_map.get(&key_vec) {
                    Some(p) => {
                        proof {
                            assert(accs_model(accumulators_map@).contains_key(kq));
                            assert(accs1[kq] == p.0@);
                        }
                        if p.1 {
                            let mut vals: Vec<ScalarValue> = Vec::new();
                            let mut j: usize = 0;
                            while j < naggs
                                invariant
                                    self.schema_ok(),
                                    ss@ == self.source.out_schema(),
                                    naggs == self.aggregates@.len(),
                                    forall|q: int| 0 <= q < naggs ==> 0 <= #[trigger] aig[q]
                                        < ss@.len(),
                                    aig == self.agg_indices(),
                                    forall|q: int| 0 <= q < naggs
                                        ==> #[trigger] self.agg_out_type(q)
                                            == Some(DataType::Int64),
                                    p.0@.len() == naggs,
                                    j <= naggs,
                                    vals@.len() == j,
                                    forall|q: int| 0 <= q < j ==> (#[trigger] vals@[q])@
                                        == p.0@[q].current(),
                                    forall|q: int| 0 <= q < j
                                        ==> ((#[trigger] vals@[q])@) is I64,
                                decreases naggs - j,
                            {
                                let sv = p.0[j].trigger();
                                proof {
                                    assert(self.agg_out_type(j as int) == Some(DataType::Int64));
                                    self.aggregates@[j as int].lemma_current_type(
                                        p.0@[j as int],
                                        ss@[aig[j as int]].data_type,
                                    );
                                    assert(val_has_type(p.0@[j as int].current(), DataType::Int64));
                                    assert((sv@) is I64);
                                }
                                vals.push(sv);
                                j += 1;
                            }
                            proof {
                                assert(scalars_view(vals@) =~= currents(accs1[kq]));
                            }
                            let dv = scalars_dup(&vals);
                            proof {
                                assert forall|m: int| 0 <= m < naggs
                                    implies ((#[trigger] dv@[m])@) is I64 by {
                                    assert(dv@[m]@ == scalars_view(dv@)[m]);
                                    assert(scalars_view(dv@)[m] == scalars_view(vals@)[m]);
                                    assert(scalars_view(vals@)[m] == vals@[m]@);
                                }
                            }
                            entries.push((key_dup(&key_vec), dv, false));
                            last_triggered_values.insert(key_dup(&key_vec), vals);
                            proof {
                                assert(group_live(accs1[kq]));
                                assert(last_model(last_triggered_values@) =~= snap_b.remove(
                                    kq,
                                ).insert(kq, currents(accs1[kq])));
                                assert(snap_b.remove(kq).insert(kq, currents(accs1[kq]))
                                    =~= snap_b.insert(kq, currents(accs1[kq])));
                                assert(entry_row(entries@.last()) =~= kq + currents(accs1[kq])
                                    + seq![Val::Bool(false)]);
                            }
                        } else {
                            proof {
                                assert(!group_live(accs1[kq]));
                            }
                        }
                    },
                    None => {
                        proof {
                            assert(!accs_model(accumulators_map@).contains_key(kq));
                            assert(!accs1.contains_key(kq));
                        }
                    },
                }
                proof {
                    let rt = ready.take(r1 + 1);
                    assert(rt.drop_last() =~= ready.take(r1 as int));
                    assert(rt.last() == ready[r1 as int]);
                    if accs1.contains_key(kq) && group_live(accs1[kq]) {
                        assert(new_section(rt, accs1) == new_section(
                            ready.take(r1 as int),
                            accs1,
                        ).push(kq + currents(accs1[kq]) + seq![Val::Bool(false)]));
                        assert(snap_after(rt, accs1, last0) == snap_after(
                            ready.take(r1 as int),
                            accs1,
                            last0,
                        ).insert(kq, currents(accs1[kq])));
                    } else {
                        assert(new_section(rt, accs1) == new_section(
                            ready.take(r1 as int),
                            accs1,
                        ));
                        assert(snap_after(rt, accs1, last0) == snap_after(
                            ready.take(r1 as int),
                            accs1,
                            last0,
                        ).remove(kq));
                    }
                    if accs1.contains_key(kq) && group_live(accs1[kq]) {
                        assert(entries@.len() == pre_entries.len() + 1);
                    } else {
                        assert(entries@ == pre_entries);
                    }
                    let lhs = entries_rows(entries@);
                    let rhs = retract_section(ready, last0) + new_section(rt, accs1);
                    assert(lhs.len() == entries@.len());
                    assert(entries_rows(pre_entries).len() == pre_entries.len());
                    assert(entries_rows(pre_entries) == retract_section(ready, last0)
                        + new_section(ready.take(r1 as int), accs1));
                    assert(rhs.len() == retract_section(ready, last0).len() + new_section(
                        rt,
                        accs1,
                    ).len());
                    assert(lhs.len() == rhs.len());
                    assert forall|m: int| 0 <= m < lhs.len() implies lhs[m] == rhs[m] by {
                        let rl = retract_section(ready, last0).len();
                        let pre_ns = new_section(ready.take(r1 as int), accs1);
                        if m < rl + pre_ns.len() {
                            assert(lhs[m] == (retract_section(ready, last0) + pre_ns)[m]);
                        }
                    }
                    assert(lhs =~= rhs);
                    assert(last_model(last_triggered_values@) =~= snap_after(rt, accs1, last0));
                }
                r1 += 1;
            }
            proof {
                assert(ready.take(nready as int) =~= ready);
            }
            let nb = rows_to_batch(&out_schema_exec, &trigger.key_data_types, naggs, &entries);
            proof {
                let stp = gb_step(fresh, thr, kig, aig, st0, rowsv);
                assert(stp.1 == Some(retract_section(ready, last0) + new_section(ready, accs1)));
                assert(nb.rows() == stp.1->Some_0);
                assert(stp.0.accs == accs1);
                assert(stp.0.last == snap_after(ready, accs1, last0));
                assert(trigger.model().ready =~= Seq::<Seq<Val>>::empty());
                assert(trigger.model() == stp.0.trig);
                let tb1 = ins.take(b + 1);
                assert(tb1.drop_last() =~= ins.take(b as int));
                assert(tb1.last() == rowsv);
                assert(gb_state_after(fresh, thr, kig, aig, tb1) == stp.0);
                assert(gb_outputs(fresh, thr, kig, aig, tb1) == gb_outputs(
                    fresh,
                    thr,
                    kig,
                    aig,
                    ins.take(b as int),
                ).push(stp.1->Some_0));
            }
            out.push(nb);
            b += 1;
        }
        proof {
            assert(ins.take(src_batches@.len() as int) =~= ins);
        }
        Ok(out)
    }
}

} // verus!
