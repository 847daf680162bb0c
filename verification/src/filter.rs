//! Filter: row selection by a boolean predicate column.

use vstd::prelude::*;
use crate::node::{ExecutionContext, Node};
use crate::types::{
    field_index, has_field, lemma_field_index, Column, DataType, Error, FieldV, RecordBatch,
    Schema, Val,
};

verus! {

/// The indices of the rows whose predicate cell is `true`, in row order.
pub open spec fn kept_idx(pred: Seq<Val>) -> Seq<int>
    decreases pred.len(),
{
    if pred.len() == 0 {
        Seq::empty()
    } else {
        let rest = kept_idx(pred.drop_last());
        if pred.last() == Val::Bool(true) {
            rest.push(pred.len() - 1)
        } else {
            rest
        }
    }
}

/// The rows whose cell at position `p` is `true`, in row order.
pub open spec fn kept_rows(rows: Seq<Seq<Val>>, p: int) -> Seq<Seq<Val>>
    decreases rows.len(),
{
    if rows.len() == 0 {
        Seq::empty()
    } else {
        let rest = kept_rows(rows.drop_last(), p);
        if rows.last()[p] == Val::Bool(true) {
            rest.push(rows.last())
        } else {
            rest
        }
    }
}

/// Keeping rows by the predicate column is the same thing as gathering the
/// rows at the kept indices.
pub proof fn lemma_kept(rows: Seq<Seq<Val>>, pred: Seq<Val>, p: int)
    requires
        rows.len() == pred.len(),
        forall|r: int| 0 <= r < rows.len() ==> (#[trigger] rows[r])[p] == pred[r],
    ensures
        kept_rows(rows, p).len() == kept_idx(pred).len(),
        forall|q: int| 0 <= q < kept_idx(pred).len() ==> {
            &&& 0 <= #[trigger] kept_idx(pred)[q] < rows.len()
            &&& kept_rows(rows, p)[q] == rows[kept_idx(pred)[q]]
        },
    decreases rows.len(),
{
    if rows.len() > 0 {
        lemma_kept(rows.drop_last(), pred.drop_last(), p);
        assert(rows.last()[p] == pred.last());
        assert forall|r: int| 0 <= r < rows.len() - 1
            implies (#[trigger] rows.drop_last()[r])[p] == pred.drop_last()[r] by {
            assert(rows.drop_last()[r] == rows[r]);
        }
    }
}

/// Gathers `v` at the positions in `keep`.
fn gather_copy<T: Copy>(v: &Vec<T>, keep: &Vec<usize>) -> (r: Vec<T>)
    requires
        forall|q: int| 0 <= q < keep@.len() ==> (#[trigger] keep@[q]) < v@.len(),
    ensures
        r@.len() == keep@.len(),
        forall|q: int| 0 <= q < keep@.len() ==> r@[q] == v@[(#[trigger] keep@[q]) as int],
{
    let mut r: Vec<T> = Vec::new();
    let mut i: usize = 0;
    while i < keep.len()
        invariant
            forall|q: int| 0 <= q < keep@.len() ==> (#[trigger] keep@[q]) < v@.len(),
            i <= keep@.len(),
            r@.len() == i,
            forall|q: int| 0 <= q < i ==> r@[q] == v@[(#[trigger] keep@[q]) as int],
        decreases keep@.len() - i,
    {
        r.push(v[keep[i]]);
        i += 1;
    }
    r
}

/// Gathers strings at the positions in `keep`, keeping their characters.
fn gather_strings(v: &Vec<String>, keep: &Vec<usize>) -> (r: Vec<String>)
    requires
        forall|q: int| 0 <= q < keep@.len() ==> (#[trigger] keep@[q]) < v@.len(),
    ensures
        r@.len() == keep@.len(),
        forall|q: int| 0 <= q < keep@.len() ==> (#[trigger] r@[q])@
            == v@[(#[trigger] keep@[q]) as int]@,
{
    let mut r: Vec<String> = Vec::new();
    let mut i: usize = 0;
    while i < keep.len()
        invariant
            forall|q: int| 0 <= q < keep@.len() ==> (#[trigger] keep@[q]) < v@.len(),
            i <= keep@.len(),
            r@.len() == i,
            forall|q: int| 0 <= q < i ==> (#[trigger] r@[q])@ == v@[keep@[q] as int]@,
        decreases keep@.len() - i,
    {
        r.push(v[keep[i]].clone());
        i += 1;
    }
    r
}

/// The rows of one column at the positions in `keep`, as a column of the
/// same type.
fn gather_column(c: &Column, keep: &Vec<usize>) -> (r: Column)
    requires
        forall|q: int| 0 <= q < keep@.len() ==> (#[trigger] keep@[q]) < c@.len(),
    ensures
        r.dt() == c.dt(),
        r@.len() == keep@.len(),
        forall|q: int| 0 <= q < keep@.len() ==> r@[q] == c@[(#[trigger] keep@[q]) as int],
{
    match c {
        Column::UInt8(v) => Column::UInt8(gather_copy(v, keep)),
        Column::UInt16(v) => Column::UInt16(gather_copy(v, keep)),
        Column::UInt32(v) => Column::UInt32(gather_copy(v, keep)),
        Column::UInt64(v) => Column::UInt64(gather_copy(v, keep)),
        Column::Int8(v) => Column::Int8(gather_copy(v, keep)),
        Column::Int16(v) => Column::Int16(gather_copy(v, keep)),
        Column::Int32(v) => Column::Int32(gather_copy(v, keep)),
        Column::Int64(v) => Column::Int64(gather_copy(v, keep)),
        Column::Utf8(v) => Column::Utf8(gather_strings(v, keep)),
        Column::Boolean(v) => Column::Boolean(gather_copy(v, keep)),
    }
}

/// Keeps the rows where the named boolean field is `true`; the schema is the
/// source's, unchanged.
pub struct Filter<S: Node> {
    pub field: String,
    pub source: S,
}

impl<S: Node> Filter<S> {
    pub fn new(field: String, source: S) -> (r: Filter<S>)
        ensures
            r.field@ == field@,
            r.source == source,
    {
        Filter { field, source }
    }

    /// The predicate column's position in the source schema.
    pub open spec fn pidx(&self) -> int {
        field_index(self.source.out_schema(), self.field@)
    }

    /// Whether the named field exists and is boolean.
    pub open spec fn pred_ok(&self) -> bool {
        &&& has_field(self.source.out_schema(), self.field@)
        &&& self.source.out_schema()[self.pidx()].data_type == DataType::Boolean
    }
}

impl<S: Node> Node for Filter<S> {
    open spec fn schema_ok(&self) -> bool {
        self.source.schema_ok()
    }

    open spec fn out_schema(&self) -> Seq<FieldV> {
        self.source.out_schema()
    }

    open spec fn run_ok(&self) -> bool {
        &&& self.source.run_ok()
        &&& self.source.schema_ok()
        &&& self.pred_ok()
    }

    /// Each source batch keeps exactly its rows whose predicate cell is
    /// `true`, in order.
    open spec fn out_rows(&self) -> Seq<Seq<Seq<Val>>> {
        Seq::new(
            self.source.out_rows().len(),
            |b: int| kept_rows(self.source.out_rows()[b], self.pidx()),
        )
    }

    fn schema(&self) -> (r: Result<Schema, Error>) {
        self.source.schema()
    }

    fn run(&self, ctx: &ExecutionContext) -> (r: Result<Vec<RecordBatch>, Error>) {
        let ss = self.source.schema()?;
        let index_of_field = ss.index_of(&self.field)?;
        proof {
            lemma_field_index(self.source.out_schema(), self.field@);
        }
        if !(ss.fields[index_of_field].data_type == DataType::Boolean) {
            return Err(Error::SchemaError("the filter predicate field is not boolean".to_owned()));
        }
        let src_batches = self.source.run(ctx)?;
        let mut out: Vec<RecordBatch> = Vec::new();
        let mut b: usize = 0;
        while b < src_batches.len()
            invariant
                self.source.schema_ok(),
                self.pred_ok(),
                ss@ == self.source.out_schema(),
                index_of_field == self.pidx(),
                index_of_field < ss@.len(),
                src_batches@.len() == self.source.out_rows().len(),
                forall|j: int| 0 <= j < src_batches@.len() ==> {
                    &&& (#[trigger] src_batches@[j]).wf()
                    &&& src_batches@[j].schema@ == self.source.out_schema()
                    &&& src_batches@[j].rows() == self.source.out_rows()[j]
                },
                b <= src_batches@.len(),
                out@.len() == b,
                forall|j: int| 0 <= j < b ==> {
                    &&& (#[trigger] out@[j]).wf()
                    &&& out@[j].schema@ == self.out_schema()
                    &&& out@[j].rows() == self.out_rows()[j]
                },
            decreases src_batches@.len() - b,
        {
            let batch = &src_batches[b];
            let rows = batch.num_rows();
            let flags: &Vec<bool> = match &batch.columns[index_of_field] {
                Column::Boolean(v) => v,
                _ => {
                    proof {
                        assert(batch.columns@[index_of_field as int].dt()
                            == DataType::Boolean);
                        assert(false);
                    }
                    return Err(Error::Unexpected("unreachable".to_owned()));
                },
            };
            let ghost pred = batch.columns@[index_of_field as int]@;
            let mut keep: Vec<usize> = Vec::new();
            let mut r: usize = 0;
            while r < rows
                invariant
                    r <= rows,
                    rows == pred.len(),
                    forall|m: int| 0 <= m < pred.len() ==> pred[m] == Val::Bool(flags@[m]),
                    flags@.len() == rows,
                    Seq::new(keep@.len(), |q: int| keep@[q] as int) == kept_idx(
                        pred.take(r as int),
                    ),
                    forall|q: int| 0 <= q < keep@.len() ==> (#[trigger] keep@[q]) < rows,
                decreases rows - r,
            {
                let ghost pre = Seq::new(keep@.len(), |q: int| keep@[q] as int);
                if flags[r] {
                    keep.push(r);
                }
                proof {
                    let t1 = pred.take(r + 1);
                    assert(t1.drop_last() =~= pred.take(r as int));
                    assert(t1.last() == pred[r as int]);
                    if flags@[r as int] {
                        assert(Seq::new(keep@.len(), |q: int| keep@[q] as int) =~= pre.push(
                            r as int,
                        ));
                    } else {
                        assert(Seq::new(keep@.len(), |q: int| keep@[q] as int) =~= pre);
                    }
                }
                r += 1;
            }
            proof {
                assert(pred.take(rows as int) =~= pred);
            }
            let mut cols: Vec<Column> = Vec::new();
            let mut i: usize = 0;
            while i < batch.columns.len()
                invariant
                    batch.wf(),
                    rows == batch.spec_num_rows(),
                    forall|q: int| 0 <= q < keep@.len() ==> (#[trigger] keep@[q]) < rows,
                    i <= batch.columns@.len(),
                    cols@.len() == i,
                    forall|q: int| 0 <= q < i ==> (#[trigger] cols@[q]).dt()
                        == batch.columns@[q].dt(),
                    forall|q: int| 0 <= q < i ==> (#[trigger] cols@[q])@.len() == keep@.len(),
                    forall|q: int, m: int| 0 <= q < i && 0 <= m < keep@.len()
                        ==> (#[trigger] cols@[q]@[m]) == batch.columns@[q]@[keep@[m] as int],
                decreases batch.columns@.len() - i,
            {
                cols.push(gather_column(&batch.columns[i], &keep));
                i += 1;
            }
            let nb = match RecordBatch::try_new(ss.duplicate(), cols) {
                Ok(x) => x,
                Err(_) => {
                    proof {
                        assert(false);
                    }
                    return Err(Error::Unexpected("unreachable".to_owned()));
                },
            };
            proof {
                let p = self.pidx();
                let brows = batch.rows();
                lemma_kept(brows, pred, p);
                assert forall|m: int| 0 <= m < brows.len()
                    implies (#[trigger] brows[m])[p] == pred[m] by {
                    assert(brows[m] == batch.row(m));
                }
                let ki = kept_idx(pred);
                assert(nb.spec_num_rows() == keep@.len());
                assert(keep@.len() == ki.len());
                assert forall|q: int| 0 <= q < ki.len() implies nb.row(q) == kept_rows(
                    brows,
                    p,
                )[q] by {
                    assert(ki[q] == keep@[q] as int);
                    assert(nb.row(q) =~= batch.row(keep@[q] as int));
                    assert(kept_rows(brows, p)[q] == brows[ki[q]]);
                }
                assert(nb.rows() =~= kept_rows(brows, p));
                assert(self.out_rows()[b as int] == kept_rows(self.source.out_rows()[b as int], p));
            }
            out.push(nb);
            b += 1;
        }
        Ok(out)
    }
}

} // verus!
