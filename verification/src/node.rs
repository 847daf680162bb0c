//! The uniform operator abstraction: every operator exposes its output
//! schema and a `run` that yields the batches it emits, in order.

use vstd::prelude::*;
use crate::types::{Error, FieldV, RecordBatch, Schema, Val};

verus! {

/// Carried to consumers alongside each produced batch.
pub struct ProduceContext {}

/// Carried through a whole pipeline run.
pub struct ExecutionContext {}

/// The one out-of-band control message: upstream has no more batches. A
/// node's `run` returning `Ok` delivers it, exactly once, at end of stream.
pub enum MetadataMessage {
    EndOfStream,
}

/// A pipeline operator. `run` executes the operator to completion and hands
/// back every batch it produced, in emission order; each batch conforms to
/// the schema that `schema` declares.
pub trait Node {
    /// Whether the output schema can be computed.
    spec fn schema_ok(&self) -> bool;

    /// The output schema, meaningful when `schema_ok()` holds.
    spec fn out_schema(&self) -> Seq<FieldV>;

    /// Whether a run completes without error.
    spec fn run_ok(&self) -> bool;

    /// Everything the node emits over one run: per batch, the rows, each row
    /// its cell values in schema order. Meaningful when `run_ok()` holds.
    spec fn out_rows(&self) -> Seq<Seq<Seq<Val>>>;

    fn schema(&self) -> (r: Result<Schema, Error>)
        ensures
            r is Ok <==> self.schema_ok(),
            r is Ok ==> r->Ok_0@ == self.out_schema(),
    ;

    fn run(&self, ctx: &ExecutionContext) -> (r: Result<Vec<RecordBatch>, Error>)
        ensures
            r is Ok <==> self.run_ok(),
            self.run_ok() ==> self.schema_ok(),
            r is Ok ==> {
                let bs = r->Ok_0@;
                &&& bs.len() == self.out_rows().len()
                &&& forall|i: int| 0 <= i < bs.len() ==> {
                    &&& (#[trigger] bs[i]).wf()
                    &&& bs[i].schema@ == self.out_schema()
                    &&& bs[i].rows() == self.out_rows()[i]
                }
            },
    ;
}

} // verus!
