//! The laws of the pipeline: properties that hold of every input, proved
//! once and for all from the operators' contracts.

use vstd::prelude::*;
use crate::aggregate::{Accumulator, Aggregate, SumAccumulator};
use crate::filter::{kept_rows, Filter};
use crate::groupby::{
    currents, gb_outputs, gb_state_after, gb_step, group_live, ingest_rows, new_section,
    retract_section, rows_keys, snap_after, GroupBy,
};
use crate::node::Node;
use crate::projection::Projection;
use crate::source::{retraction_field, CSVSource};
use crate::trigger::{counting_step, counting_steps, TriggerModel};
use crate::types::{field_index, has_field, lemma_field_index, Val};

verus! {

/// The `retraction` field is the last field of a source's output schema.
pub proof fn law_retraction_last_source(s: CSVSource)
    ensures
        s.out_schema().last() == retraction_field(),
{
}

/// The `retraction` field is the last field of a group-by's output schema.
pub proof fn law_retraction_last_groupby<S: Node, A: Aggregate>(g: GroupBy<S, A>)
    ensures
        g.out_schema().last() == retraction_field(),
{
}

/// A filter declares its source's schema, so it keeps the trailing
/// `retraction` field.
pub proof fn law_retraction_last_filter<S: Node>(f: Filter<S>)
    requires
        f.source.out_schema().len() >= 1,
        f.source.out_schema().last() == retraction_field(),
    ensures
        f.out_schema().len() >= 1,
        f.out_schema().last() == retraction_field(),
{
}

/// Every row a source emits ends in `retraction == false`, and the batch
/// sizes follow the fixed chunking of the input.
pub proof fn law_source_rows_assert_facts(s: CSVSource)
    requires
        s.wf(),
    ensures
        forall|j: int, r: int| 0 <= j < s.out_rows().len() && 0 <= r < s.out_rows()[j].len()
            ==> (#[trigger] s.out_rows()[j][r]).last() == Val::Bool(false),
{
    assert forall|j: int, r: int| 0 <= j < s.out_rows().len() && 0 <= r
        < s.out_rows()[j].len() implies (#[trigger] s.out_rows()[j][r]).last()
        == Val::Bool(false) by {
        let row = s.src_row(j * s.batch_size + r).push(Val::Bool(false));
        assert(s.out_rows()[j][r] == row);
    }
}

/// Projecting the full schema in declaration order is the identity: with
/// unique field names, every requested field resolves to its own position,
/// so every batch passes through unchanged.
pub proof fn law_projection_identity<S: Node>(p: Projection<S>)
    requires
        p.fields@.len() == p.source.out_schema().len(),
        forall|i: int| 0 <= i < p.fields@.len() ==> (#[trigger] p.fields@[i])@
            == p.source.out_schema()[i].name,
        forall|i: int, j: int| 0 <= i < j < p.source.out_schema().len()
            ==> p.source.out_schema()[i].name != p.source.out_schema()[j].name,
        forall|b: int, r: int| 0 <= b < p.source.out_rows().len() && 0 <= r
            < p.source.out_rows()[b].len() ==> (#[trigger] p.source.out_rows()[b][r]).len()
            == p.source.out_schema().len(),
    ensures
        p.proj_ok(),
        p.out_schema() == p.source.out_schema(),
        p.out_rows() == p.source.out_rows(),
{
    let ss = p.source.out_schema();
    assert forall|i: int| 0 <= i < p.fields@.len()
        implies #[trigger] p.indices()[i] == i && has_field(ss, p.fields@[i]@) by {
        lemma_field_index(ss, p.fields@[i]@);
        let fi = field_index(ss, p.fields@[i]@);
        if fi < 0 {
            assert(ss[i].name != p.fields@[i]@);
            assert(false);
        }
        if fi < i {
            assert(ss[fi].name == ss[i].name);
            assert(false);
        }
        if i < fi {
            assert(ss[i].name == p.fields@[i]@);
            assert(false);
        }
    }
    assert(p.out_schema() =~= ss);
    assert forall|b: int| 0 <= b < p.source.out_rows().len()
        implies #[trigger] p.out_rows()[b] == p.source.out_rows()[b] by {
        assert forall|r: int| 0 <= r < p.source.out_rows()[b].len()
            implies #[trigger] p.out_rows()[b][r] == p.source.out_rows()[b][r] by {
            assert(p.project_row(p.source.out_rows()[b][r]) =~= p.source.out_rows()[b][r]);
        }
        assert(p.out_rows()[b] =~= p.source.out_rows()[b]);
    }
    assert(p.out_rows() =~= p.source.out_rows());
}

/// Keeping the rows whose predicate cell is true keeps everything when
/// every predicate cell is true.
pub proof fn lemma_kept_all_true(rows: Seq<Seq<Val>>, p: int)
    requires
        forall|r: int| 0 <= r < rows.len() ==> (#[trigger] rows[r])[p] == Val::Bool(true),
    ensures
        kept_rows(rows, p) == rows,
    decreases rows.len(),
{
    if rows.len() > 0 {
        assert forall|r: int| 0 <= r < rows.len() - 1
            implies (#[trigger] rows.drop_last()[r])[p] == Val::Bool(true) by {
            assert(rows.drop_last()[r] == rows[r]);
        }
        lemma_kept_all_true(rows.drop_last(), p);
        assert(kept_rows(rows, p) =~= rows);
    } else {
        assert(kept_rows(rows, p) =~= rows);
    }
}

/// Filtering by a column that is always true is the identity on rows.
pub proof fn law_filter_identity<S: Node>(f: Filter<S>)
    requires
        forall|b: int, r: int| 0 <= b < f.source.out_rows().len() && 0 <= r
            < f.source.out_rows()[b].len()
            ==> (#[trigger] f.source.out_rows()[b][r])[f.pidx()] == Val::Bool(true),
    ensures
        f.out_rows() == f.source.out_rows(),
{
    assert forall|b: int| 0 <= b < f.source.out_rows().len()
        implies #[trigger] f.out_rows()[b] == f.source.out_rows()[b] by {
        lemma_kept_all_true(f.source.out_rows()[b], f.pidx());
    }
    assert(f.out_rows() =~= f.source.out_rows());
}

/// How often `k` occurs in a sequence of keys.
pub open spec fn occurrences(ks: Seq<Seq<Val>>, k: Seq<Val>) -> int
    decreases ks.len(),
{
    if ks.len() == 0 {
        0
    } else {
        occurrences(ks.drop_last(), k) + (if ks.last() == k {
            1int
        } else {
            0int
        })
    }
}

/// The count a trigger holds for `k`, zero when it holds none.
pub open spec fn cnt(m: TriggerModel, k: Seq<Val>) -> int {
    if m.counts.contains_key(k) {
        m.counts[k]
    } else {
        0
    }
}

/// A key observed fewer than `threshold` times since its counter was last
/// reset is never made ready; its count just accumulates.
pub proof fn law_under_threshold_never_ready(
    m: TriggerModel,
    ks: Seq<Seq<Val>>,
    threshold: int,
    k: Seq<Val>,
)
    requires
        !m.ready.contains(k),
        cnt(m, k) >= 0,
        cnt(m, k) + occurrences(ks, k) < threshold,
    ensures
        !counting_steps(m, ks, threshold).ready.contains(k),
        cnt(counting_steps(m, ks, threshold), k) == cnt(m, k) + occurrences(ks, k),
    decreases ks.len(),
{
    if ks.len() > 0 {
        law_under_threshold_never_ready(m, ks.drop_last(), threshold, k);
        let prev = counting_steps(m, ks.drop_last(), threshold);
        let post = counting_step(prev, ks.last(), threshold);
        if ks.last() == k {
            assert(cnt(prev, k) + 1 < threshold);
        } else {
            if post.ready != prev.ready {
                assert(post.ready == prev.ready.push(ks.last()));
                assert forall|i: int| 0 <= i < post.ready.len()
                    implies post.ready[i] != k by {
                    if i < prev.ready.len() {
                        assert(!prev.ready.contains(k));
                        assert(prev.ready[i] != k);
                    }
                }
            }
        }
    }
}

/// A key observed exactly `threshold` times since its counter was last
/// reset is made ready, and its counter starts over at zero.
pub proof fn law_at_threshold_ready(
    m: TriggerModel,
    ks: Seq<Seq<Val>>,
    threshold: int,
    k: Seq<Val>,
)
    requires
        !m.ready.contains(k),
        0 <= cnt(m, k) < threshold,
        cnt(m, k) + occurrences(ks, k) == threshold,
    ensures
        counting_steps(m, ks, threshold).ready.contains(k),
        cnt(counting_steps(m, ks, threshold), k) == 0,
    decreases ks.len(),
{
    assert(ks.len() > 0) by {
        if ks.len() == 0 {
            assert(occurrences(ks, k) == 0);
        }
    }
    let prev = counting_steps(m, ks.drop_last(), threshold);
    let post = counting_step(prev, ks.last(), threshold);
    if ks.last() == k {
        law_under_threshold_never_ready(m, ks.drop_last(), threshold, k);
        assert(cnt(prev, k) == threshold - 1);
        assert(post.ready.contains(k)) by {
            if !prev.ready.contains(k) {
                assert(post.ready == prev.ready.push(k));
                assert(post.ready[post.ready.len() - 1] == k);
            }
        }
    } else {
        law_at_threshold_ready(m, ks.drop_last(), threshold, k);
        if post.ready != prev.ready {
            assert(post.ready == prev.ready.push(ks.last()));
            let i = choose|i: int| 0 <= i < prev.ready.len() && prev.ready[i] == k;
            assert(post.ready[i] == k);
        }
    }
}

/// How many rows of an emitted section belong to key `k`: those whose
/// leading cells are exactly `k`.
pub open spec fn rows_for_key(rows: Seq<Seq<Val>>, k: Seq<Val>) -> int
    decreases rows.len(),
{
    if rows.len() == 0 {
        0
    } else {
        rows_for_key(rows.drop_last(), k) + (if rows.last().take(k.len() as int) == k {
            1int
        } else {
            0int
        })
    }
}

/// Per-key accounting of one emission. For any key `k` (with the ready keys
/// pairwise distinct and all of `k`'s width):
/// - the retraction section withdraws the old snapshot of `k` exactly once,
///   and only if `k` is ready and had a snapshot;
/// - the new-value section carries exactly one replacement row for `k`, and
///   only if `k` is ready and its group is live;
/// - afterwards the snapshot holds the emitted values of a live ready key,
///   is gone for a dead ready key, and is untouched for a key not ready.
/// So at most one value per key is ever live downstream, and a group whose
/// live row-count reached zero gets one retraction and no replacement.
pub proof fn law_emission_accounting<Acc: Accumulator>(
    ready: Seq<Seq<Val>>,
    accs: Map<Seq<Val>, Seq<Acc>>,
    last: Map<Seq<Val>, Seq<Val>>,
    k: Seq<Val>,
)
    requires
        forall|i: int, j: int| 0 <= i < j < ready.len() ==> ready[i] != ready[j],
        forall|i: int| 0 <= i < ready.len() ==> (#[trigger] ready[i]).len() == k.len(),
    ensures
        rows_for_key(retract_section(ready, last), k) == if ready.contains(k)
            && last.contains_key(k) {
            1int
        } else {
            0int
        },
        rows_for_key(new_section(ready, accs), k) == if ready.contains(k)
            && accs.contains_key(k) && group_live(accs[k]) {
            1int
        } else {
            0int
        },
        snap_after(ready, accs, last).contains_key(k) == if ready.contains(k) {
            accs.contains_key(k) && group_live(accs[k])
        } else {
            last.contains_key(k)
        },
        ready.contains(k) && accs.contains_key(k) && group_live(accs[k])
            ==> snap_after(ready, accs, last)[k] == currents(accs[k]),
        !ready.contains(k) && last.contains_key(k) ==> snap_after(ready, accs, last)[k]
            == last[k],
    decreases ready.len(),
{
    if ready.len() > 0 {
        let rl = ready.drop_last();
        let r = ready.last();
        assert forall|i: int, j: int| 0 <= i < j < rl.len() implies rl[i] != rl[j] by {
            assert(rl[i] == ready[i] && rl[j] == ready[j]);
        }
        assert forall|i: int| 0 <= i < rl.len() implies (#[trigger] rl[i]).len()
            == k.len() by {
            assert(rl[i] == ready[i]);
        }
        law_emission_accounting(rl, accs, last, k);
        assert(!rl.contains(r)) by {
            if rl.contains(r) {
                let i = choose|i: int| 0 <= i < rl.len() && rl[i] == r;
                assert(ready[i] == ready[ready.len() - 1]);
            }
        }
        let rsec = retract_section(ready, last);
        let rrest = retract_section(rl, last);
        let nsec = new_section(ready, accs);
        let nrest = new_section(rl, accs);
        if last.contains_key(r) {
            let x = r + last[r] + seq![Val::Bool(true)];
            assert(rsec == rrest.push(x));
            assert(rrest.push(x).drop_last() =~= rrest);
            assert(rows_for_key(rsec, k) == rows_for_key(rrest, k) + (if x.take(
                k.len() as int,
            ) == k {
                1int
            } else {
                0int
            }));
        } else {
            assert(rsec == rrest);
        }
        if accs.contains_key(r) && group_live(accs[r]) {
            let y = r + currents(accs[r]) + seq![Val::Bool(false)];
            assert(nsec == nrest.push(y));
            assert(nrest.push(y).drop_last() =~= nrest);
            assert(rows_for_key(nsec, k) == rows_for_key(nrest, k) + (if y.take(
                k.len() as int,
            ) == k {
                1int
            } else {
                0int
            }));
        } else {
            assert(nsec == nrest);
        }
        if r == k {
            assert(!rl.contains(k));
            assert(ready.contains(k)) by {
                assert(ready[ready.len() - 1] == k);
            }
            if last.contains_key(k) {
                assert((k + last[k] + seq![Val::Bool(true)]).take(k.len() as int) =~= k);
            }
            if accs.contains_key(k) && group_live(accs[k]) {
                assert((k + currents(accs[k]) + seq![Val::Bool(false)]).take(k.len() as int)
                    =~= k);
            }
        } else {
            assert(ready.contains(k) == rl.contains(k)) by {
                if ready.contains(k) {
                    let i = choose|i: int| 0 <= i < ready.len() && ready[i] == k;
                    assert(i < rl.len() && rl[i] == k);
                }
                if rl.contains(k) {
                    let i = choose|i: int| 0 <= i < rl.len() && rl[i] == k;
                    assert(ready[i] == k);
                }
            }
            if last.contains_key(r) {
                assert((r + last[r] + seq![Val::Bool(true)]).take(k.len() as int) != k) by {
                    assert((r + last[r] + seq![Val::Bool(true)]).take(k.len() as int) =~= r);
                }
            }
            if accs.contains_key(r) && group_live(accs[r]) {
                assert((r + currents(accs[r]) + seq![Val::Bool(false)]).take(k.len() as int)
                    != k) by {
                    assert((r + currents(accs[r]) + seq![Val::Bool(false)]).take(
                        k.len() as int,
                    ) =~= r);
                }
            }
        }
    }
}

/// Withdrawing exactly what was asserted returns a sum accumulator to its
/// previous state. This is what lets a downstream consumer interpret a
/// retract-then-emit pair as if only the new value had ever been asserted.
pub proof fn law_sum_retraction_cancels(acc: SumAccumulator, v: i64)
    ensures
        acc.stepped(Val::I64(v), false).stepped(Val::I64(v), true) == acc,
{
}

/// Interpreting a re-emission: the old value is withdrawn, the new one
/// asserted; the state ends as if the new value alone had been asserted.
pub proof fn law_sum_reemission(acc: SumAccumulator, old_v: i64, new_v: i64)
    ensures
        acc.stepped(Val::I64(old_v), false).stepped(Val::I64(old_v), true).stepped(
            Val::I64(new_v),
            false,
        ) == acc.stepped(Val::I64(new_v), false),
{
    law_sum_retraction_cancels(acc, old_v);
}

/// Rows of one emitted batch that belong to key `k` and carry the given
/// retraction flag.
pub open spec fn rows_for_key_flag(rows: Seq<Seq<Val>>, k: Seq<Val>, flag: bool) -> int
    decreases rows.len(),
{
    if rows.len() == 0 {
        0
    } else {
        rows_for_key_flag(rows.drop_last(), k, flag) + (if rows.last().take(k.len() as int)
            == k && rows.last().last() == Val::Bool(flag) {
            1int
        } else {
            0int
        })
    }
}

proof fn lemma_flag_concat(a: Seq<Seq<Val>>, b: Seq<Seq<Val>>, k: Seq<Val>, flag: bool)
    ensures
        rows_for_key_flag(a + b, k, flag) == rows_for_key_flag(a, k, flag)
            + rows_for_key_flag(b, k, flag),
    decreases b.len(),
{
    if b.len() == 0 {
        assert(a + b =~= a);
    } else {
        lemma_flag_concat(a, b.drop_last(), k, flag);
        assert((a + b).drop_last() =~= a + b.drop_last());
        assert((a + b).last() == b.last());
    }
}

/// Every row of the retraction section carries `retraction = true`.
proof fn lemma_retract_section_flags(
    ready: Seq<Seq<Val>>,
    last: Map<Seq<Val>, Seq<Val>>,
    k: Seq<Val>,
)
    ensures
        rows_for_key_flag(retract_section(ready, last), k, true) == rows_for_key(
            retract_section(ready, last),
            k,
        ),
        rows_for_key_flag(retract_section(ready, last), k, false) == 0,
    decreases ready.len(),
{
    if ready.len() > 0 {
        lemma_retract_section_flags(ready.drop_last(), last, k);
        let r = ready.last();
        if last.contains_key(r) {
            let row = r + last[r] + seq![Val::Bool(true)];
            let sec = retract_section(ready, last);
            assert(sec == retract_section(ready.drop_last(), last).push(row));
            assert(sec.drop_last() =~= retract_section(ready.drop_last(), last));
            assert(row.last() == Val::Bool(true));
        }
    }
}

/// Every row of the new-value section carries `retraction = false`.
proof fn lemma_new_section_flags<Acc: Accumulator>(
    ready: Seq<Seq<Val>>,
    accs: Map<Seq<Val>, Seq<Acc>>,
    k: Seq<Val>,
)
    ensures
        rows_for_key_flag(new_section(ready, accs), k, false) == rows_for_key(
            new_section(ready, accs),
            k,
        ),
        rows_for_key_flag(new_section(ready, accs), k, true) == 0,
    decreases ready.len(),
{
    if ready.len() > 0 {
        lemma_new_section_flags(ready.drop_last(), accs, k);
        let r = ready.last();
        if accs.contains_key(r) && group_live(accs[r]) {
            let row = r + currents(accs[r]) + seq![Val::Bool(false)];
            let sec = new_section(ready, accs);
            assert(sec == new_section(ready.drop_last(), accs).push(row));
            assert(sec.drop_last() =~= new_section(ready.drop_last(), accs));
            assert(row.last() == Val::Bool(false));
        }
    }
}

/// A trigger's ready keys stay pairwise distinct and of the keys' width.
proof fn lemma_steps_ready_wf(m: TriggerModel, ks: Seq<Seq<Val>>, threshold: int, width: int)
    requires
        forall|i: int, j: int| 0 <= i < j < m.ready.len() ==> m.ready[i] != m.ready[j],
        forall|i: int| 0 <= i < m.ready.len() ==> (#[trigger] m.ready[i]).len() == width,
        forall|r: int| 0 <= r < ks.len() ==> (#[trigger] ks[r]).len() == width,
    ensures
        forall|i: int, j: int| 0 <= i < j < counting_steps(m, ks, threshold).ready.len()
            ==> counting_steps(m, ks, threshold).ready[i] != counting_steps(
            m,
            ks,
            threshold,
        ).ready[j],
        forall|i: int| 0 <= i < counting_steps(m, ks, threshold).ready.len()
            ==> (#[trigger] counting_steps(m, ks, threshold).ready[i]).len() == width,
    decreases ks.len(),
{
    if ks.len() > 0 {
        lemma_steps_ready_wf(m, ks.drop_last(), threshold, width);
        let prev = counting_steps(m, ks.drop_last(), threshold);
        let post = counting_step(prev, ks.last(), threshold);
        if post.ready != prev.ready {
            assert(post.ready == prev.ready.push(ks.last()));
            assert(!prev.ready.contains(ks.last()));
            assert forall|i: int, j: int| 0 <= i < j < post.ready.len()
                implies post.ready[i] != post.ready[j] by {
                if j == post.ready.len() - 1 {
                    if post.ready[i] == ks.last() {
                        assert(prev.ready[i] == ks.last());
                        assert(prev.ready.contains(ks.last()));
                    }
                }
            }
        }
    }
}

/// The state a group-by settles into after a batch always has an empty
/// ready set: every batch ends with a poll.
proof fn lemma_state_ready_empty<Acc: Accumulator>(
    fresh: Seq<Acc>,
    threshold: int,
    ki: Seq<int>,
    ai: Seq<int>,
    ins: Seq<Seq<Seq<Val>>>,
)
    ensures
        gb_state_after(fresh, threshold, ki, ai, ins).trig.ready.len() == 0,
    decreases ins.len(),
{
    if ins.len() > 0 {
        lemma_state_ready_empty(fresh, threshold, ki, ai, ins.drop_last());
    }
}

/// Net emissions for key `k` over a whole output stream: asserted rows
/// minus withdrawn rows.
pub open spec fn net_for_key(outs: Seq<Seq<Seq<Val>>>, k: Seq<Val>) -> int
    decreases outs.len(),
{
    if outs.len() == 0 {
        0
    } else {
        net_for_key(outs.drop_last(), k) + rows_for_key_flag(outs.last(), k, false)
            - rows_for_key_flag(outs.last(), k, true)
    }
}

/// At any prefix of a group-by's output stream, the rows asserted for a key
/// and not withdrawn number exactly one when the key holds a live snapshot,
/// and zero otherwise: at most one live value per key, ever.
pub proof fn law_at_most_one_live_value<Acc: Accumulator>(
    fresh: Seq<Acc>,
    threshold: int,
    ki: Seq<int>,
    ai: Seq<int>,
    ins: Seq<Seq<Seq<Val>>>,
    k: Seq<Val>,
)
    requires
        k.len() == ki.len(),
    ensures
        net_for_key(gb_outputs(fresh, threshold, ki, ai, ins), k) == if gb_state_after(
            fresh,
            threshold,
            ki,
            ai,
            ins,
        ).last.contains_key(k) {
            1int
        } else {
            0int
        },
    decreases ins.len(),
{
    if ins.len() == 0 {
        assert(!gb_state_after(fresh, threshold, ki, ai, ins).last.contains_key(k));
    } else {
        law_at_most_one_live_value(fresh, threshold, ki, ai, ins.drop_last(), k);
        lemma_state_ready_empty(fresh, threshold, ki, ai, ins.drop_last());
        let st = gb_state_after(fresh, threshold, ki, ai, ins.drop_last());
        let rows = ins.last();
        let keys = rows_keys(rows, ki);
        let vals = crate::groupby::rows_vals(rows, ai);
        let retracts = crate::groupby::rows_flags(rows);
        let accs1 = ingest_rows(fresh, st.accs, keys, vals, retracts);
        let trig1 = counting_steps(st.trig, keys, threshold);
        let ready = trig1.ready;
        let prev_outs = gb_outputs(fresh, threshold, ki, ai, ins.drop_last());
        let outs = gb_outputs(fresh, threshold, ki, ai, ins);
        let stp = gb_step(fresh, threshold, ki, ai, st, rows);
        if ready.len() == 0 {
            assert(outs == prev_outs);
            assert(gb_state_after(fresh, threshold, ki, ai, ins).last == st.last);
        } else {
            assert forall|r: int| 0 <= r < keys.len() implies (#[trigger] keys[r]).len()
                == ki.len() by {}
            lemma_steps_ready_wf(st.trig, keys, threshold, ki.len() as int);
            let rsec = retract_section(ready, st.last);
            let nsec = new_section(ready, accs1);
            let out = rsec + nsec;
            assert(stp.1 == Some(out));
            assert(outs == prev_outs.push(out));
            assert(outs.drop_last() =~= prev_outs);
            assert(outs.last() == out);
            lemma_flag_concat(rsec, nsec, k, true);
            lemma_flag_concat(rsec, nsec, k, false);
            lemma_retract_section_flags(ready, st.last, k);
            lemma_new_section_flags(ready, accs1, k);
            law_emission_accounting(ready, accs1, st.last, k);
            assert(gb_state_after(fresh, threshold, ki, ai, ins).last == snap_after(
                ready,
                accs1,
                st.last,
            ));
        }
    }
}

/// Every row of the retraction section is flagged as a retraction, and
/// every row of the new-value section is not.
proof fn lemma_section_flags_pointwise<Acc: Accumulator>(
    ready: Seq<Seq<Val>>,
    accs: Map<Seq<Val>, Seq<Acc>>,
    last: Map<Seq<Val>, Seq<Val>>,
)
    ensures
        forall|i: int| 0 <= i < retract_section(ready, last).len()
            ==> (#[trigger] retract_section(ready, last)[i]).last() == Val::Bool(true),
        forall|i: int| 0 <= i < new_section(ready, accs).len()
            ==> (#[trigger] new_section(ready, accs)[i]).last() == Val::Bool(false),
    decreases ready.len(),
{
    if ready.len() > 0 {
        lemma_section_flags_pointwise(ready.drop_last(), accs, last);
        let r = ready.last();
        let rsec = retract_section(ready, last);
        let rrest = retract_section(ready.drop_last(), last);
        assert forall|i: int| 0 <= i < rsec.len() implies (#[trigger] rsec[i]).last()
            == Val::Bool(true) by {
            if last.contains_key(r) {
                assert(rsec == rrest.push(r + last[r] + seq![Val::Bool(true)]));
                if i == rsec.len() - 1 {
                    assert(rsec[i].last() == Val::Bool(true));
                } else {
                    assert(rsec[i] == rrest[i]);
                }
            } else {
                assert(rsec == rrest);
            }
        }
        let nsec = new_section(ready, accs);
        let nrest = new_section(ready.drop_last(), accs);
        assert forall|i: int| 0 <= i < nsec.len() implies (#[trigger] nsec[i]).last()
            == Val::Bool(false) by {
            if accs.contains_key(r) && group_live(accs[r]) {
                assert(nsec == nrest.push(r + currents(accs[r]) + seq![Val::Bool(false)]));
                if i == nsec.len() - 1 {
                    assert(nsec[i].last() == Val::Bool(false));
                } else {
                    assert(nsec[i] == nrest[i]);
                }
            } else {
                assert(nsec == nrest);
            }
        }
    }
}

/// A key observed exactly `threshold` times since its last emission is
/// emitted exactly once in the batch the threshold is reached in, provided
/// its group is live; a retraction accompanies it exactly when a snapshot
/// was standing, and every retraction row of the batch precedes every
/// new-value row.
pub proof fn law_exact_count_emitted_once<Acc: Accumulator>(
    fresh: Seq<Acc>,
    threshold: int,
    ki: Seq<int>,
    ai: Seq<int>,
    st: crate::groupby::GroupByState<Acc>,
    rows: Seq<Seq<Val>>,
    k: Seq<Val>,
)
    requires
        k.len() == ki.len(),
        st.trig.ready.len() == 0,
        0 <= cnt(st.trig, k) < threshold,
        cnt(st.trig, k) + occurrences(rows_keys(rows, ki), k) == threshold,
        ingest_rows(
            fresh,
            st.accs,
            rows_keys(rows, ki),
            crate::groupby::rows_vals(rows, ai),
            crate::groupby::rows_flags(rows),
        ).contains_key(k),
        group_live(
            ingest_rows(
                fresh,
                st.accs,
                rows_keys(rows, ki),
                crate::groupby::rows_vals(rows, ai),
                crate::groupby::rows_flags(rows),
            )[k],
        ),
    ensures
        gb_step(fresh, threshold, ki, ai, st, rows).1 is Some,
        ({
            let out = gb_step(fresh, threshold, ki, ai, st, rows).1->Some_0;
            &&& rows_for_key_flag(out, k, false) == 1
            &&& rows_for_key_flag(out, k, true) == (if st.last.contains_key(k) {
                1int
            } else {
                0int
            })
            &&& forall|i: int, j: int| 0 <= i < out.len() && 0 <= j < out.len()
                && (#[trigger] out[i]).last() == Val::Bool(true)
                && (#[trigger] out[j]).last() == Val::Bool(false) ==> i < j
        }),
{
    let keys = rows_keys(rows, ki);
    let vals = crate::groupby::rows_vals(rows, ai);
    let retracts = crate::groupby::rows_flags(rows);
    let accs1 = ingest_rows(fresh, st.accs, keys, vals, retracts);
    let trig1 = counting_steps(st.trig, keys, threshold);
    let ready = trig1.ready;
    law_at_threshold_ready(st.trig, keys, threshold, k);
    assert(ready.contains(k));
    assert(ready.len() > 0);
    assert forall|r: int| 0 <= r < keys.len() implies (#[trigger] keys[r]).len()
        == ki.len() by {}
    lemma_steps_ready_wf(st.trig, keys, threshold, ki.len() as int);
    let rsec = retract_section(ready, st.last);
    let nsec = new_section(ready, accs1);
    let out = rsec + nsec;
    assert(gb_step(fresh, threshold, ki, ai, st, rows).1 == Some(out));
    lemma_flag_concat(rsec, nsec, k, true);
    lemma_flag_concat(rsec, nsec, k, false);
    lemma_retract_section_flags(ready, st.last, k);
    lemma_new_section_flags(ready, accs1, k);
    law_emission_accounting(ready, accs1, st.last, k);
    lemma_section_flags_pointwise(ready, accs1, st.last);
    assert forall|i: int, j: int| 0 <= i < out.len() && 0 <= j < out.len()
        && (#[trigger] out[i]).last() == Val::Bool(true)
        && (#[trigger] out[j]).last() == Val::Bool(false) implies i < j by {
        if i >= rsec.len() {
            assert(out[i] == nsec[i - rsec.len()]);
        }
        if j < rsec.len() {
            assert(out[j] == rsec[j]);
        }
    }
}

/// A key observed fewer than `threshold` times since its last emission is
/// not touched by the batch's emission: no row of either section is its.
pub proof fn law_under_count_not_emitted<Acc: Accumulator>(
    fresh: Seq<Acc>,
    threshold: int,
    ki: Seq<int>,
    ai: Seq<int>,
    st: crate::groupby::GroupByState<Acc>,
    rows: Seq<Seq<Val>>,
    k: Seq<Val>,
)
    requires
        k.len() == ki.len(),
        st.trig.ready.len() == 0,
        cnt(st.trig, k) >= 0,
        cnt(st.trig, k) + occurrences(rows_keys(rows, ki), k) < threshold,
    ensures
        gb_step(fresh, threshold, ki, ai, st, rows).1 matches Some(out) ==> rows_for_key(
            out,
            k,
        ) == 0,
{
    let keys = rows_keys(rows, ki);
    let vals = crate::groupby::rows_vals(rows, ai);
    let retracts = crate::groupby::rows_flags(rows);
    let accs1 = ingest_rows(fresh, st.accs, keys, vals, retracts);
    let trig1 = counting_steps(st.trig, keys, threshold);
    let ready = trig1.ready;
    law_under_threshold_never_ready(st.trig, keys, threshold, k);
    if ready.len() > 0 {
        assert forall|r: int| 0 <= r < keys.len() implies (#[trigger] keys[r]).len()
            == ki.len() by {}
        lemma_steps_ready_wf(st.trig, keys, threshold, ki.len() as int);
        let rsec = retract_section(ready, st.last);
        let nsec = new_section(ready, accs1);
        law_emission_accounting(ready, accs1, st.last, k);
        lemma_rows_for_key_concat(rsec, nsec, k);
    }
}

/// Counting key rows distributes over batch concatenation.
proof fn lemma_rows_for_key_concat(a: Seq<Seq<Val>>, b: Seq<Seq<Val>>, k: Seq<Val>)
    ensures
        rows_for_key(a + b, k) == rows_for_key(a, k) + rows_for_key(b, k),
    decreases b.len(),
{
    if b.len() == 0 {
        assert(a + b =~= a);
    } else {
        lemma_rows_for_key_concat(a, b.drop_last(), k);
        assert((a + b).drop_last() =~= a + b.drop_last());
        assert((a + b).last() == b.last());
    }
}

/// A group whose live row-count has returned to zero is withdrawn exactly
/// once on its next emission, gets no replacement row, and loses its
/// snapshot.
pub proof fn law_dead_group_retracted_without_replacement<Acc: Accumulator>(
    ready: Seq<Seq<Val>>,
    accs: Map<Seq<Val>, Seq<Acc>>,
    last: Map<Seq<Val>, Seq<Val>>,
    k: Seq<Val>,
)
    requires
        forall|i: int, j: int| 0 <= i < j < ready.len() ==> ready[i] != ready[j],
        forall|i: int| 0 <= i < ready.len() ==> (#[trigger] ready[i]).len() == k.len(),
        ready.contains(k),
        accs.contains_key(k),
        !group_live(accs[k]),
        last.contains_key(k),
    ensures
        rows_for_key(retract_section(ready, last), k) == 1,
        rows_for_key(new_section(ready, accs), k) == 0,
        !snap_after(ready, accs, last).contains_key(k),
{
    law_emission_accounting(ready, accs, last, k);
}

} // verus!

