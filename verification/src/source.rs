//! The source node: emits rows decoded from an external byte stream (a
//! CSV-like file) in fixed-size batches, with an all-false `retraction`
//! column appended. Decoding the external stream is a collaborator's job;
//! this node holds the decoded columns and is the verified boundary where
//! the streaming convention starts.

use vstd::prelude::*;
use crate::node::{ExecutionContext, Node};
use crate::types::{Column, DataType, Error, Field, FieldV, RecordBatch, Schema, Val};

verus! {

/// The `retraction` field every node-boundary schema ends with.
pub open spec fn retraction_field() -> FieldV {
    FieldV { name: "retraction"@, data_type: DataType::Boolean }
}

/// How many batches a stream of `n` rows yields at batch size `bs`.
pub open spec fn chunk_count(n: nat, bs: nat) -> nat
    decreases n,
{
    if bs == 0 {
        0
    } else if n == 0 {
        0
    } else if n <= bs {
        1
    } else {
        1 + chunk_count((n - bs) as nat, bs)
    }
}

/// Copies `v[start..end]`.
pub fn slice_copy<T: Copy>(v: &Vec<T>, start: usize, end: usize) -> (r: Vec<T>)
    requires
        start <= end <= v@.len(),
    ensures
        r@ == v@.subrange(start as int, end as int),
{
    let mut r: Vec<T> = Vec::new();
    let mut i: usize = start;
    while i < end
        invariant
            start <= i <= end <= v@.len(),
            r@.len() == i - start,
            forall|j: int| 0 <= j < i - start ==> r@[j] == v@[start + j],
        decreases end - i,
    {
        r.push(v[i]);
        i += 1;
    }
    proof {
        assert(r@ =~= v@.subrange(start as int, end as int));
    }
    r
}

/// Copies `v[start..end]` for strings, keeping each element's characters.
pub fn slice_strings(v: &Vec<String>, start: usize, end: usize) -> (r: Vec<String>)
    requires
        start <= end <= v@.len(),
    ensures
        r@.len() == end - start,
        forall|j: int| 0 <= j < end - start ==> (#[trigger] r@[j])@ == v@[start + j]@,
{
    let mut r: Vec<String> = Vec::new();
    let mut i: usize = start;
    while i < end
        invariant
            start <= i <= end <= v@.len(),
            r@.len() == i - start,
            forall|j: int| 0 <= j < i - start ==> (#[trigger] r@[j])@ == v@[start + j]@,
        decreases end - i,
    {
        r.push(v[i].clone());
        i += 1;
    }
    r
}

/// The rows `start..end` of one column, as a column of the same type.
pub fn col_slice(c: &Column, start: usize, end: usize) -> (r: Column)
    requires
        start <= end <= c@.len(),
    ensures
        r.dt() == c.dt(),
        r@ == c@.subrange(start as int, end as int),
{
    match c {
        Column::UInt8(v) => {
            let rc = Column::UInt8(slice_copy(v, start, end));
            proof {
                assert(rc@ =~= c@.subrange(start as int, end as int));
            }
            rc
        },
        Column::UInt16(v) => {
            let rc = Column::UInt16(slice_copy(v, start, end));
            proof {
                assert(rc@ =~= c@.subrange(start as int, end as int));
            }
            rc
        },
        Column::UInt32(v) => {
            let rc = Column::UInt32(slice_copy(v, start, end));
            proof {
                assert(rc@ =~= c@.subrange(start as int, end as int));
            }
            rc
        },
        Column::UInt64(v) => {
            let rc = Column::UInt64(slice_copy(v, start, end));
            proof {
                assert(rc@ =~= c@.subrange(start as int, end as int));
            }
            rc
        },
        Column::Int8(v) => {
            let rc = Column::Int8(slice_copy(v, start, end));
            proof {
                assert(rc@ =~= c@.subrange(start as int, end as int));
            }
            rc
        },
        Column::Int16(v) => {
            let rc = Column::Int16(slice_copy(v, start, end));
            proof {
                assert(rc@ =~= c@.subrange(start as int, end as int));
            }
            rc
        },
        Column::Int32(v) => {
            let rc = Column::Int32(slice_copy(v, start, end));
            proof {
                assert(rc@ =~= c@.subrange(start as int, end as int));
            }
            rc
        },
        Column::Int64(v) => {
            let rc = Column::Int64(slice_copy(v, start, end));
            proof {
                assert(rc@ =~= c@.subrange(start as int, end as int));
            }
            rc
        },
        Column::Utf8(v) => {
            let rc = Column::Utf8(slice_strings(v, start, end));
            proof {
                assert(rc@ =~= c@.subrange(start as int, end as int));
            }
            rc
        },
        Column::Boolean(v) => {
            let rc = Column::Boolean(slice_copy(v, start, end));
            proof {
                assert(rc@ =~= c@.subrange(start as int, end as int));
            }
            rc
        },
    }
}

/// A source over an already-decoded external table.
pub struct CSVSource {
    /// The external schema, without the `retraction` field.
    pub schema: Schema,
    /// The decoded data, one column per external field.
    pub columns: Vec<Column>,
    /// The target batch size.
    pub batch_size: usize,
}

impl CSVSource {
    pub open spec fn wf(&self) -> bool {
        &&& self.schema@.len() >= 1
        &&& self.columns@.len() == self.schema@.len()
        &&& forall|i: int| 0 <= i < self.columns@.len()
            ==> (#[trigger] self.columns@[i]).dt() == self.schema@[i].data_type
        &&& forall|i: int| 0 <= i < self.columns@.len()
            ==> (#[trigger] self.columns@[i])@.len() == self.src_rows()
        &&& self.batch_size >= 1
    }

    pub open spec fn src_rows(&self) -> nat {
        if self.columns@.len() == 0 {
            0
        } else {
            self.columns@[0]@.len()
        }
    }

    /// Row `i` of the external table.
    pub open spec fn src_row(&self, i: int) -> Seq<Val> {
        Seq::new(self.columns@.len(), |c: int| self.columns@[c]@[i])
    }

    pub open spec fn num_batches(&self) -> nat {
        chunk_count(self.src_rows(), self.batch_size as nat)
    }

    /// The number of rows of output batch `j`: the batch size, except for a
    /// shorter final batch.
    pub open spec fn batch_len(&self, j: int) -> nat {
        if self.src_rows() - j * self.batch_size <= self.batch_size {
            (self.src_rows() - j * self.batch_size) as nat
        } else {
            self.batch_size as nat
        }
    }

    pub fn new(schema: Schema, columns: Vec<Column>, batch_size: usize) -> (r: CSVSource)
        ensures
            r.schema@ == schema@,
            r.columns@ == columns@,
            r.batch_size == batch_size,
    {
        CSVSource { schema, columns, batch_size }
    }

    fn check_wf(&self) -> (r: bool)
        ensures
            r == self.wf(),
    {
        if self.schema.num_fields() == 0 {
            return false;
        }
        if self.columns.len() != self.schema.num_fields() {
            return false;
        }
        if self.batch_size == 0 {
            return false;
        }
        let rows = self.columns[0].len();
        let mut i: usize = 0;
        while i < self.columns.len()
            invariant
                i <= self.columns@.len(),
                self.columns@.len() == self.schema@.len(),
                self.columns@.len() >= 1,
                rows == self.src_rows(),
                forall|j: int| 0 <= j < i
                    ==> (#[trigger] self.columns@[j]).dt() == self.schema@[j].data_type,
                forall|j: int| 0 <= j < i
                    ==> (#[trigger] self.columns@[j])@.len() == self.src_rows(),
            decreases self.columns@.len() - i,
        {
            if self.columns[i].data_type() != self.schema.fields[i].data_type {
                return false;
            }
            if self.columns[i].len() != rows {
                return false;
            }
            i += 1;
        }
        true
    }
}

impl Node for CSVSource {
    open spec fn schema_ok(&self) -> bool {
        self.wf()
    }

    open spec fn out_schema(&self) -> Seq<FieldV> {
        self.schema@.push(retraction_field())
    }

    open spec fn run_ok(&self) -> bool {
        self.wf()
    }

    /// Batch `j` holds external rows `j * batch_size ..`, each extended with
    /// `retraction == false`.
    open spec fn out_rows(&self) -> Seq<Seq<Seq<Val>>> {
        Seq::new(
            self.num_batches(),
            |j: int| Seq::new(
                self.batch_len(j),
                |r: int| self.src_row(j * self.batch_size + r).push(Val::Bool(false)),
            ),
        )
    }

    fn schema(&self) -> (r: Result<Schema, Error>) {
        if !self.check_wf() {
            return Err(Error::SchemaError("source data does not fit its schema".to_owned()));
        }
        let mut fields: Vec<Field> = Vec::new();
        let mut i: usize = 0;
        while i < self.schema.fields.len()
            invariant
                i <= self.schema@.len(),
                fields@.len() == i,
                forall|j: int| 0 <= j < i ==> (#[trigger] fields@[j])@ == self.schema@[j],
            decreases self.schema@.len() - i,
        {
            fields.push(self.schema.fields[i].duplicate());
            i += 1;
        }
        fields.push(Field::new("retraction".to_owned(), DataType::Boolean));
        let s = Schema::new(fields);
        proof {
            assert(s@ =~= self.out_schema());
        }
        Ok(s)
    }

    fn run(&self, ctx: &ExecutionContext) -> (r: Result<Vec<RecordBatch>, Error>) {
        let out_schema = self.schema()?;
        let n = self.columns[0].len();
        let mut batches: Vec<RecordBatch> = Vec::new();
        let mut start: usize = 0;
        while start < n
            invariant
                self.wf(),
                out_schema@ == self.out_schema(),
                n == self.src_rows(),
                start <= n,
                batches@.len() * self.batch_size == start || (start == n
                    && batches@.len() == self.num_batches()),
                start < n ==> batches@.len() * self.batch_size == start,
                chunk_count((n - start) as nat, self.batch_size as nat) == self.num_batches()
                    - batches@.len(),
                forall|j: int| 0 <= j < batches@.len() ==> {
                    &&& (#[trigger] batches@[j]).wf()
                    &&& batches@[j].schema@ == self.out_schema()
                    &&& batches@[j].rows() == self.out_rows()[j]
                },
            decreases n - start,
        {
            let ghost jj = batches@.len() as int;
            let len = if n - start < self.batch_size {
                n - start
            } else {
                self.batch_size
            };
            let end = start + len;
            proof {
                assert(self.batch_len(jj) == len);
            }
            let mut cols: Vec<Column> = Vec::new();
            let mut c: usize = 0;
            while c < self.columns.len()
                invariant
                    self.wf(),
                    start <= end <= n,
                    n == self.src_rows(),
                    len == end - start,
                    c <= self.columns@.len(),
                    cols@.len() == c,
                    forall|q: int| 0 <= q < c ==> (#[trigger] cols@[q]).dt()
                        == self.columns@[q].dt(),
                    forall|q: int| 0 <= q < c ==> (#[trigger] cols@[q])@
                        == self.columns@[q]@.subrange(start as int, end as int),
                decreases self.columns@.len() - c,
            {
                cols.push(col_slice(&self.columns[c], start, end));
                c += 1;
            }
            let mut flags: Vec<bool> = Vec::new();
            let mut q: usize = 0;
            while q < len
                invariant
                    q <= len,
                    flags@.len() == q,
                    forall|m: int| 0 <= m < q ==> !(#[trigger] flags@[m]),
                decreases len - q,
            {
                flags.push(false);
                q += 1;
            }
            cols.push(Column::Boolean(flags));
            let batch = match RecordBatch::try_new(out_schema.duplicate(), cols) {
                Ok(b) => b,
                Err(_) => {
                    proof {
                        assert(false);
                    }
                    return Err(Error::Unexpected("unreachable".to_owned()));
                },
            };
            proof {
                assert(batch.spec_num_rows() == len);
                assert forall|r: int| 0 <= r < len implies batch.row(r)
                    == self.out_rows()[jj][r] by {
                    assert(batch.row(r) =~= self.src_row(jj * self.batch_size + r).push(
                        Val::Bool(false),
                    ));
                }
                assert(batch.rows() =~= self.out_rows()[jj]);
            }
            batches.push(batch);
            let ghost s0 = start as int;
            start = end;
            proof {
                assert((jj + 1) * self.batch_size == jj * self.batch_size + self.batch_size)
                    by (nonlinear_arith);
                let bs = self.batch_size as nat;
                if s0 + len < n {
                    assert(chunk_count((n - s0) as nat, bs) == 1 + chunk_count(
                        (n - s0 - self.batch_size) as nat,
                        bs,
                    ));
                } else {
                    assert(chunk_count((n - s0) as nat, bs) == 1);
                    assert(chunk_count(0nat, bs) == 0);
                }
            }
        }
        proof {
            if n == 0 {
                assert(self.num_batches() == 0);
            }
        }
        Ok(batches)
    }
}

} // verus!
