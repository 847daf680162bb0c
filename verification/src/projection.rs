//! Projection: a column subset, in the requested order, with no data copied
//! per row.

use vstd::prelude::*;
use crate::node::{ExecutionContext, Node};
use crate::types::{
    field_index, has_field, lemma_field_index, Column, Error, FieldV, RecordBatch, Schema, Val,
};

verus! {

/// Forwards the requested fields of its source, in the requested order.
pub struct Projection<S: Node> {
    pub fields: Vec<String>,
    pub source: S,
}

impl<S: Node> Projection<S> {
    pub fn new(fields: Vec<String>, source: S) -> (r: Projection<S>)
        ensures
            r.fields@ == fields@,
            r.source == source,
    {
        Projection { fields, source }
    }

    /// Whether every requested field exists in the source schema.
    pub open spec fn proj_ok(&self) -> bool {
        forall|i: int| 0 <= i < self.fields@.len()
            ==> has_field(self.source.out_schema(), (#[trigger] self.fields@[i])@)
    }

    /// The source-schema position of each requested field.
    pub open spec fn indices(&self) -> Seq<int> {
        Seq::new(
            self.fields@.len(),
            |i: int| field_index(self.source.out_schema(), self.fields@[i]@),
        )
    }

    /// One projected row.
    pub open spec fn project_row(&self, row: Seq<Val>) -> Seq<Val> {
        Seq::new(self.fields@.len(), |i: int| row[self.indices()[i]])
    }

    pub proof fn lemma_indices_in_range(&self)
        requires
            self.proj_ok(),
        ensures
            forall|i: int| 0 <= i < self.fields@.len()
                ==> 0 <= #[trigger] self.indices()[i] < self.source.out_schema().len(),
    {
        assert forall|i: int| 0 <= i < self.fields@.len()
            implies 0 <= #[trigger] self.indices()[i] < self.source.out_schema().len() by {
            assert(has_field(self.source.out_schema(), self.fields@[i]@));
            lemma_field_index(self.source.out_schema(), self.fields@[i]@);
        }
    }

    /// Resolves every requested field against the source schema.
    fn resolve(&self, source_schema: &Schema) -> (r: Result<Vec<usize>, Error>)
        requires
            source_schema@ == self.source.out_schema(),
        ensures
            r is Ok <==> self.proj_ok(),
            r is Ok ==> {
                let idx = r->Ok_0@;
                &&& idx.len() == self.fields@.len()
                &&& forall|i: int| 0 <= i < idx.len() ==> idx[i] == self.indices()[i]
            },
    {
        let mut idx: Vec<usize> = Vec::new();
        let mut i: usize = 0;
        while i < self.fields.len()
            invariant
                source_schema@ == self.source.out_schema(),
                i <= self.fields@.len(),
                idx@.len() == i,
                forall|j: int| 0 <= j < i ==> has_field(
                    self.source.out_schema(),
                    (#[trigger] self.fields@[j])@,
                ),
                forall|j: int| 0 <= j < i ==> idx@[j] == self.indices()[j],
            decreases self.fields@.len() - i,
        {
            match source_schema.index_of(&self.fields[i]) {
                Ok(p) => {
                    idx.push(p);
                },
                Err(e) => {
                    return Err(e);
                },
            }
            i += 1;
        }
        Ok(idx)
    }

    /// The output schema computed against a given source schema.
    pub fn schema_from_source_schema(&self, source_schema: &Schema) -> (r: Result<Schema, Error>)
        requires
            source_schema@ == self.source.out_schema(),
        ensures
            r is Ok <==> self.proj_ok(),
            r is Ok ==> r->Ok_0@ == self.out_schema(),
    {
        let idx = self.resolve(source_schema)?;
        proof {
            self.lemma_indices_in_range();
        }
        let mut fields: Vec<crate::types::Field> = Vec::new();
        let mut i: usize = 0;
        while i < idx.len()
            invariant
                source_schema@ == self.source.out_schema(),
                self.proj_ok(),
                idx@.len() == self.fields@.len(),
                forall|j: int| 0 <= j < idx@.len() ==> idx@[j] == self.indices()[j],
                forall|j: int| 0 <= j < self.fields@.len()
                    ==> 0 <= #[trigger] self.indices()[j] < self.source.out_schema().len(),
                i <= idx@.len(),
                fields@.len() == i,
                forall|j: int| 0 <= j < i ==> (#[trigger] fields@[j])@
                    == self.source.out_schema()[self.indices()[j]],
            decreases idx@.len() - i,
        {
            fields.push(source_schema.fields[idx[i]].duplicate());
            i += 1;
        }
        let s = Schema::new(fields);
        proof {
            assert(s@ =~= self.out_schema());
        }
        Ok(s)
    }
}

impl<S: Node> Node for Projection<S> {
    open spec fn schema_ok(&self) -> bool {
        self.source.schema_ok() && self.proj_ok()
    }

    open spec fn out_schema(&self) -> Seq<FieldV> {
        Seq::new(
            self.fields@.len(),
            |i: int| self.source.out_schema()[self.indices()[i]],
        )
    }

    open spec fn run_ok(&self) -> bool {
        &&& self.source.run_ok()
        &&& self.source.schema_ok()
        &&& self.proj_ok()
        &&& self.fields@.len() >= 1
    }

    /// Each batch keeps its rows; each row keeps the requested cells, in the
    /// requested order.
    open spec fn out_rows(&self) -> Seq<Seq<Seq<Val>>> {
        Seq::new(
            self.source.out_rows().len(),
            |b: int| Seq::new(
                self.source.out_rows()[b].len(),
                |r: int| self.project_row(self.source.out_rows()[b][r]),
            ),
        )
    }

    fn schema(&self) -> (r: Result<Schema, Error>) {
        let ss = self.source.schema()?;
        self.schema_from_source_schema(&ss)
    }

    fn run(&self, ctx: &ExecutionContext) -> (r: Result<Vec<RecordBatch>, Error>) {
        let ss = self.source.schema()?;
        let new_schema = self.schema_from_source_schema(&ss)?;
        let indices = self.resolve(&ss)?;
        if indices.len() == 0 {
            return Err(Error::InvariantError("a projection needs at least one field".to_owned()));
        }
        proof {
            self.lemma_indices_in_range();
        }
        let src_batches = self.source.run(ctx)?;
        let mut out: Vec<RecordBatch> = Vec::new();
        let mut b: usize = 0;
        while b < src_batches.len()
            invariant
                self.proj_ok(),
                self.source.schema_ok(),
                self.fields@.len() >= 1,
                new_schema@ == self.out_schema(),
                indices@.len() == self.fields@.len(),
                forall|i: int| 0 <= i < indices@.len() ==> indices@[i] == self.indices()[i],
                forall|i: int| 0 <= i < self.fields@.len()
                    ==> 0 <= #[trigger] self.indices()[i] < self.source.out_schema().len(),
                src_batches@.len() == self.source.out_rows().len(),
                forall|j: int| 0 <= j < src_batches@.len() ==> {
                    &&& (#[trigger] src_batches@[j]).wf()
                    &&& src_batches@[j].schema@ == self.source.out_schema()
                    &&& src_batches@[j].rows() == self.source.out_rows()[j]
                },
                b <= src_batches@.len(),
                out@.len() == b,
                forall|j: int| 0 <= j < b ==> {
                    &&& (#[trigger] out@[j]).wf()
                    &&& out@[j].schema@ == self.out_schema()
                    &&& out@[j].rows() == self.out_rows()[j]
                },
            decreases src_batches@.len() - b,
        {
            let batch = &src_batches[b];
            let mut cols: Vec<Column> = Vec::new();
            let mut i: usize = 0;
            while i < indices.len()
                invariant
                    batch.wf(),
                    batch.schema@ == self.source.out_schema(),
                    indices@.len() == self.fields@.len(),
                    forall|q: int| 0 <= q < indices@.len() ==> indices@[q] == self.indices()[q],
                    forall|q: int| 0 <= q < self.fields@.len()
                        ==> 0 <= #[trigger] self.indices()[q] < self.source.out_schema().len(),
                    i <= indices@.len(),
                    cols@.len() == i,
                    forall|q: int| 0 <= q < i ==> (#[trigger] cols@[q]).dt()
                        == batch.columns@[self.indices()[q]].dt(),
                    forall|q: int| 0 <= q < i ==> (#[trigger] cols@[q])@
                        == batch.columns@[self.indices()[q]]@,
                decreases indices@.len() - i,
            {
                cols.push(batch.columns[indices[i]].duplicate());
                i += 1;
            }
            let nb = match RecordBatch::try_new(new_schema.duplicate(), cols) {
                Ok(x) => x,
                Err(_) => {
                    proof {
                        assert(false);
                    }
                    return Err(Error::Unexpected("unreachable".to_owned()));
                },
            };
            proof {
                assert(nb.spec_num_rows() == batch.spec_num_rows());
                assert forall|r: int| 0 <= r < nb.spec_num_rows() implies nb.row(r)
                    == self.out_rows()[b as int][r] by {
                    assert(batch.rows()[r] == batch.row(r));
                    assert(nb.row(r) =~= self.project_row(batch.row(r)));
                    assert(self.project_row(batch.row(r)) == self.out_rows()[b as int][r]);
                }
                assert(nb.rows() =~= self.out_rows()[b as int]);
            }
            out.push(nb);
            b += 1;
        }
        Ok(out)
    }
}

} // verus!
