//! Aggregates and their per-group accumulators.

use vstd::prelude::*;
use crate::types::{DataType, Error, ScalarValue, Val, val_has_type};

verus! {

/// Per-group mutable state for one aggregate, supporting add and retract.
pub trait Accumulator: Sized {
    /// Which input values this accumulator can ingest.
    spec fn accepts(v: Val) -> bool;

    /// The state after ingesting `v`; when `retract` holds, `v` is
    /// subtracted from the state rather than added.
    spec fn stepped(&self, v: Val, retract: bool) -> Self;

    /// Whether the group still has at least one contributing row.
    spec fn live(&self) -> bool;

    /// The result `trigger` reports in this state.
    spec fn current(&self) -> Val;

    /// Updates the state with one value; the result says whether the group
    /// is still live.
    fn add(&mut self, value: ScalarValue, retract: ScalarValue) -> (r: bool)
        requires
            Self::accepts(value@),
            retract@ is Bool,
        ensures
            *final(self) == old(self).stepped(value@, retract@->Bool_0),
            r == final(self).live(),
    ;

    /// Reports the current result without mutating state.
    fn trigger(&self) -> (r: ScalarValue)
        ensures
            r@ == self.current(),
    ;
}

/// An aggregate: its output typing rule plus a factory for accumulators.
pub trait Aggregate: Sized {
    type Acc: Accumulator;

    /// The result type for a given input column type, when supported.
    spec fn out_type_spec(&self, input: DataType) -> Option<DataType>;

    /// The accumulator a fresh group starts from.
    spec fn fresh(&self) -> Self::Acc;

    /// Every value of a supported input type is accepted by the accumulator.
    proof fn lemma_accepts(&self, input: DataType, v: Val)
        requires
            self.out_type_spec(input) is Some,
            val_has_type(v, input),
        ensures
            Self::Acc::accepts(v),
    ;

    /// Whatever state an accumulator is in, its result carries the declared
    /// output type.
    proof fn lemma_current_type(&self, acc: Self::Acc, input: DataType)
        requires
            self.out_type_spec(input) is Some,
        ensures
            val_has_type(acc.current(), self.out_type_spec(input)->Some_0),
    ;

    fn output_type(&self, input_type: &DataType) -> (r: Result<DataType, Error>)
        ensures
            r is Ok <==> self.out_type_spec(*input_type) is Some,
            r is Ok ==> r->Ok_0 == self.out_type_spec(*input_type)->Some_0,
    ;

    fn create_accumulator(&self) -> (r: Self::Acc)
        ensures
            r == self.fresh(),
    ;
}

/// Sum over 64-bit signed integers.
pub struct Sum {}

/// Signed sum and signed contributing-row count; a retraction subtracts the
/// value and one row. Arithmetic wraps as 64-bit machine arithmetic does.
pub struct SumAccumulator {
    pub sum: i64,
    pub count: i64,
}

impl Accumulator for SumAccumulator {
    open spec fn accepts(v: Val) -> bool {
        v is I64
    }

    open spec fn stepped(&self, v: Val, retract: bool) -> Self {
        let x = v->I64_0;
        if retract {
            SumAccumulator { sum: self.sum.wrapping_sub(x), count: self.count.wrapping_sub(1) }
        } else {
            SumAccumulator { sum: self.sum.wrapping_add(x), count: self.count.wrapping_add(1) }
        }
    }

    open spec fn live(&self) -> bool {
        self.count != 0
    }

    open spec fn current(&self) -> Val {
        Val::I64(self.sum)
    }

    fn add(&mut self, value: ScalarValue, retract: ScalarValue) -> (r: bool) {
        let is_retraction = match retract {
            ScalarValue::Boolean(x) => x,
            _ => {
                proof {
                    assert(false);
                }
                false
            },
        };
        let x = match value {
            ScalarValue::Int64(x) => x,
            _ => {
                proof {
                    assert(false);
                }
                0
            },
        };
        if is_retraction {
            self.sum = self.sum.wrapping_sub(x);
            self.count = self.count.wrapping_sub(1);
        } else {
            self.sum = self.sum.wrapping_add(x);
            self.count = self.count.wrapping_add(1);
        }
        self.count != 0
    }

    fn trigger(&self) -> (r: ScalarValue) {
        ScalarValue::Int64(self.sum)
    }
}

impl Aggregate for Sum {
    type Acc = SumAccumulator;

    open spec fn out_type_spec(&self, input: DataType) -> Option<DataType> {
        if input == DataType::Int64 {
            Some(DataType::Int64)
        } else {
            None
        }
    }

    open spec fn fresh(&self) -> SumAccumulator {
        SumAccumulator { sum: 0, count: 0 }
    }

    proof fn lemma_accepts(&self, input: DataType, v: Val) {
    }

    proof fn lemma_current_type(&self, acc: SumAccumulator, input: DataType) {
    }

    fn output_type(&self, input_type: &DataType) -> (r: Result<DataType, Error>) {
        if *input_type == DataType::Int64 {
            Ok(DataType::Int64)
        } else {
            Err(Error::TypeError("sum supports 64-bit signed integer input only".to_owned()))
        }
    }

    fn create_accumulator(&self) -> (r: SumAccumulator) {
        SumAccumulator { sum: 0, count: 0 }
    }
}

} // verus!
