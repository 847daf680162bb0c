//! The data model: logical types, fields, schemas, typed columns, record
//! batches, scalars, and the error kinds shared by every operator.

use vstd::prelude::*;

verus! {

/// The closed set of logical column types.
#[derive(Clone, Copy, PartialEq, Eq, Structural, Debug)]
pub enum DataType {
    UInt8,
    UInt16,
    UInt32,
    UInt64,
    Int8,
    Int16,
    Int32,
    Int64,
    Utf8,
    Boolean,
}

/// The mathematical value of one cell: what a column holds at one row, what a
/// scalar wraps, and what one component of a group key is.
pub ghost enum Val {
    U8(u8),
    U16(u16),
    U32(u32),
    U64(u64),
    I8(i8),
    I16(i16),
    I32(i32),
    I64(i64),
    Str(Seq<char>),
    Bool(bool),
    Null,
}

pub open spec fn val_has_type(v: Val, t: DataType) -> bool {
    match v {
        Val::U8(_) => t == DataType::UInt8,
        Val::U16(_) => t == DataType::UInt16,
        Val::U32(_) => t == DataType::UInt32,
        Val::U64(_) => t == DataType::UInt64,
        Val::I8(_) => t == DataType::Int8,
        Val::I16(_) => t == DataType::Int16,
        Val::I32(_) => t == DataType::Int32,
        Val::I64(_) => t == DataType::Int64,
        Val::Str(_) => t == DataType::Utf8,
        Val::Bool(_) => t == DataType::Boolean,
        Val::Null => false,
    }
}

/// Types allowed as group-key components: everything hashable and orderable,
/// which here is every type except `Boolean` (floating point does not exist
/// in this model at all).
pub open spec fn groupable(t: DataType) -> bool {
    t != DataType::Boolean
}

/// The error kinds of the pipeline, each carrying a diagnostic message.
pub enum Error {
    /// External source or sink failure; fatal.
    IOError(String),
    /// Unknown field, or a declared/actual type disagreement.
    SchemaError(String),
    /// An aggregate or key over an unsupported type.
    TypeError(String),
    /// An internal contract violation, such as a column count mismatch.
    InvariantError(String),
    /// A condition that should not occur on well-formed input.
    Unexpected(String),
}

/// A tagged scalar value used for row-level computation and aggregation.
pub enum ScalarValue {
    UInt8(u8),
    UInt16(u16),
    UInt32(u32),
    UInt64(u64),
    Int8(i8),
    Int16(i16),
    Int32(i32),
    Int64(i64),
    Utf8(String),
    Boolean(bool),
    Null,
}

impl View for ScalarValue {
    type V = Val;

    open spec fn view(&self) -> Val {
        match self {
            ScalarValue::UInt8(x) => Val::U8(*x),
            ScalarValue::UInt16(x) => Val::U16(*x),
            ScalarValue::UInt32(x) => Val::U32(*x),
            ScalarValue::UInt64(x) => Val::U64(*x),
            ScalarValue::Int8(x) => Val::I8(*x),
            ScalarValue::Int16(x) => Val::I16(*x),
            ScalarValue::Int32(x) => Val::I32(*x),
            ScalarValue::Int64(x) => Val::I64(*x),
            ScalarValue::Utf8(s) => Val::Str(s@),
            ScalarValue::Boolean(b) => Val::Bool(*b),
            ScalarValue::Null => Val::Null,
        }
    }
}

impl ScalarValue {
    pub fn duplicate(&self) -> (r: ScalarValue)
        ensures
            r@ == self@,
    {
        match self {
            ScalarValue::UInt8(x) => ScalarValue::UInt8(*x),
            ScalarValue::UInt16(x) => ScalarValue::UInt16(*x),
            ScalarValue::UInt32(x) => ScalarValue::UInt32(*x),
            ScalarValue::UInt64(x) => ScalarValue::UInt64(*x),
            ScalarValue::Int8(x) => ScalarValue::Int8(*x),
            ScalarValue::Int16(x) => ScalarValue::Int16(*x),
            ScalarValue::Int32(x) => ScalarValue::Int32(*x),
            ScalarValue::Int64(x) => ScalarValue::Int64(*x),
            ScalarValue::Utf8(s) => ScalarValue::Utf8(s.clone()),
            ScalarValue::Boolean(b) => ScalarValue::Boolean(*b),
            ScalarValue::Null => ScalarValue::Null,
        }
    }
}

/// A scalar restricted to the types usable in a GROUP BY key.
pub enum GroupByScalar {
    UInt8(u8),
    UInt16(u16),
    UInt32(u32),
    UInt64(u64),
    Int8(i8),
    Int16(i16),
    Int32(i32),
    Int64(i64),
    Utf8(String),
}

impl View for GroupByScalar {
    type V = Val;

    open spec fn view(&self) -> Val {
        match self {
            GroupByScalar::UInt8(x) => Val::U8(*x),
            GroupByScalar::UInt16(x) => Val::U16(*x),
            GroupByScalar::UInt32(x) => Val::U32(*x),
            GroupByScalar::UInt64(x) => Val::U64(*x),
            GroupByScalar::Int8(x) => Val::I8(*x),
            GroupByScalar::Int16(x) => Val::I16(*x),
            GroupByScalar::Int32(x) => Val::I32(*x),
            GroupByScalar::Int64(x) => Val::I64(*x),
            GroupByScalar::Utf8(s) => Val::Str(s@),
        }
    }
}

/// The mathematical content of a sequence of key components.
pub open spec fn key_view(k: Seq<GroupByScalar>) -> Seq<Val> {
    Seq::new(k.len(), |i: int| k[i]@)
}

impl GroupByScalar {
    pub fn duplicate(&self) -> (r: GroupByScalar)
        ensures
            r@ == self@,
    {
        match self {
            GroupByScalar::UInt8(x) => GroupByScalar::UInt8(*x),
            GroupByScalar::UInt16(x) => GroupByScalar::UInt16(*x),
            GroupByScalar::UInt32(x) => GroupByScalar::UInt32(*x),
            GroupByScalar::UInt64(x) => GroupByScalar::UInt64(*x),
            GroupByScalar::Int8(x) => GroupByScalar::Int8(*x),
            GroupByScalar::Int16(x) => GroupByScalar::Int16(*x),
            GroupByScalar::Int32(x) => GroupByScalar::Int32(*x),
            GroupByScalar::Int64(x) => GroupByScalar::Int64(*x),
            GroupByScalar::Utf8(s) => GroupByScalar::Utf8(s.clone()),
        }
    }

    pub fn same_as(&self, other: &GroupByScalar) -> (r: bool)
        ensures
            r == (self@ == other@),
    {
        match (self, other) {
            (GroupByScalar::UInt8(x), GroupByScalar::UInt8(y)) => *x == *y,
            (GroupByScalar::UInt16(x), GroupByScalar::UInt16(y)) => *x == *y,
            (GroupByScalar::UInt32(x), GroupByScalar::UInt32(y)) => *x == *y,
            (GroupByScalar::UInt64(x), GroupByScalar::UInt64(y)) => *x == *y,
            (GroupByScalar::Int8(x), GroupByScalar::Int8(y)) => *x == *y,
            (GroupByScalar::Int16(x), GroupByScalar::Int16(y)) => *x == *y,
            (GroupByScalar::Int32(x), GroupByScalar::Int32(y)) => *x == *y,
            (GroupByScalar::Int64(x), GroupByScalar::Int64(y)) => *x == *y,
            (GroupByScalar::Utf8(x), GroupByScalar::Utf8(y)) => *x == *y,
            _ => false,
        }
    }
}

/// A named, typed schema field.
pub struct Field {
    pub name: String,
    pub data_type: DataType,
}

pub ghost struct FieldV {
    pub name: Seq<char>,
    pub data_type: DataType,
}

impl View for Field {
    type V = FieldV;

    open spec fn view(&self) -> FieldV {
        FieldV { name: self.name@, data_type: self.data_type }
    }
}

impl Field {
    pub fn new(name: String, data_type: DataType) -> (r: Field)
        ensures
            r@ == (FieldV { name: name@, data_type }),
    {
        Field { name, data_type }
    }

    pub fn duplicate(&self) -> (r: Field)
        ensures
            r@ == self@,
    {
        Field { name: self.name.clone(), data_type: self.data_type }
    }
}

/// An ordered sequence of fields.
pub struct Schema {
    pub fields: Vec<Field>,
}

impl View for Schema {
    type V = Seq<FieldV>;

    open spec fn view(&self) -> Seq<FieldV> {
        Seq::new(self.fields@.len(), |i: int| self.fields@[i]@)
    }
}

/// The index of the first field called `name`, or `-1` when there is none.
pub open spec fn field_index(s: Seq<FieldV>, name: Seq<char>) -> int
    decreases s.len(),
{
    if s.len() == 0 {
        -1
    } else if s[0].name == name {
        0
    } else {
        let r = field_index(s.drop_first(), name);
        if r < 0 {
            -1
        } else {
            1 + r
        }
    }
}

pub open spec fn has_field(s: Seq<FieldV>, name: Seq<char>) -> bool {
    field_index(s, name) >= 0
}

pub proof fn lemma_field_index(s: Seq<FieldV>, name: Seq<char>)
    ensures
        field_index(s, name) >= 0 ==> {
            let fi = field_index(s, name);
            &&& fi < s.len()
            &&& s[fi].name == name
            &&& forall|j: int| 0 <= j < fi ==> s[j].name != name
        },
        field_index(s, name) < 0 ==> forall|j: int| 0 <= j < s.len() ==> s[j].name != name,
    decreases s.len(),
{
    if s.len() > 0 && s[0].name != name {
        lemma_field_index(s.drop_first(), name);
        assert forall|j: int| 1 <= j < s.len() implies s[j] == s.drop_first()[j - 1] by {}
    }
}

impl Schema {
    pub fn new(fields: Vec<Field>) -> (r: Schema)
        ensures
            r.fields@ == fields@,
    {
        Schema { fields }
    }

    pub fn num_fields(&self) -> (r: usize)
        ensures
            r == self@.len(),
    {
        self.fields.len()
    }

    pub fn duplicate(&self) -> (r: Schema)
        ensures
            r@ == self@,
    {
        let mut fields: Vec<Field> = Vec::new();
        let mut i: usize = 0;
        while i < self.fields.len()
            invariant
                i <= self.fields@.len(),
                fields@.len() == i,
                forall|j: int| 0 <= j < i ==> fields@[j]@ == self.fields@[j]@,
            decreases self.fields@.len() - i,
        {
            fields.push(self.fields[i].duplicate());
            i += 1;
        }
        let r = Schema { fields };
        proof {
            assert(r@ =~= self@);
        }
        r
    }

    /// The position of the first field with the given name.
    pub fn index_of(&self, name: &String) -> (r: Result<usize, Error>)
        ensures
            r is Ok <==> has_field(self@, name@),
            r is Ok ==> r->Ok_0 == field_index(self@, name@),
    {
        proof {
            lemma_field_index(self@, name@);
        }
        let mut i: usize = 0;
        while i < self.fields.len()
            invariant
                i <= self.fields@.len(),
                forall|j: int| 0 <= j < i ==> self@[j].name != name@,
                field_index(self@, name@) >= 0 ==> {
                    let fi = field_index(self@, name@);
                    &&& fi < self@.len()
                    &&& self@[fi].name == name@
                    &&& forall|j: int| 0 <= j < fi ==> self@[j].name != name@
                },
                field_index(self@, name@) < 0 ==> forall|j: int| 0 <= j < self@.len()
                    ==> self@[j].name != name@,
            decreases self.fields@.len() - i,
        {
            if self.fields[i].name == *name {
                proof {
                    assert(self@[i as int].name == name@);
                }
                return Ok(i);
            }
            i += 1;
        }
        Err(Error::SchemaError("no field with the requested name".to_owned()))
    }
}

/// A dense, immutable, typed vector of values of a single type.
pub enum Column {
    UInt8(Vec<u8>),
    UInt16(Vec<u16>),
    UInt32(Vec<u32>),
    UInt64(Vec<u64>),
    Int8(Vec<i8>),
    Int16(Vec<i16>),
    Int32(Vec<i32>),
    Int64(Vec<i64>),
    Utf8(Vec<String>),
    Boolean(Vec<bool>),
}

impl View for Column {
    type V = Seq<Val>;

    open spec fn view(&self) -> Seq<Val> {
        match self {
            Column::UInt8(v) => Seq::new(v@.len(), |i: int| Val::U8(v@[i])),
            Column::UInt16(v) => Seq::new(v@.len(), |i: int| Val::U16(v@[i])),
            Column::UInt32(v) => Seq::new(v@.len(), |i: int| Val::U32(v@[i])),
            Column::UInt64(v) => Seq::new(v@.len(), |i: int| Val::U64(v@[i])),
            Column::Int8(v) => Seq::new(v@.len(), |i: int| Val::I8(v@[i])),
            Column::Int16(v) => Seq::new(v@.len(), |i: int| Val::I16(v@[i])),
            Column::Int32(v) => Seq::new(v@.len(), |i: int| Val::I32(v@[i])),
            Column::Int64(v) => Seq::new(v@.len(), |i: int| Val::I64(v@[i])),
            Column::Utf8(v) => Seq::new(v@.len(), |i: int| Val::Str(v@[i]@)),
            Column::Boolean(v) => Seq::new(v@.len(), |i: int| Val::Bool(v@[i])),
        }
    }
}

impl Column {
    pub open spec fn dt(&self) -> DataType {
        match self {
            Column::UInt8(_) => DataType::UInt8,
            Column::UInt16(_) => DataType::UInt16,
            Column::UInt32(_) => DataType::UInt32,
            Column::UInt64(_) => DataType::UInt64,
            Column::Int8(_) => DataType::Int8,
            Column::Int16(_) => DataType::Int16,
            Column::Int32(_) => DataType::Int32,
            Column::Int64(_) => DataType::Int64,
            Column::Utf8(_) => DataType::Utf8,
            Column::Boolean(_) => DataType::Boolean,
        }
    }

    pub proof fn lemma_typed(&self)
        ensures
            forall|i: int| 0 <= i < self@.len() ==> val_has_type(#[trigger] self@[i], self.dt()),
    {
    }

    pub fn data_type(&self) -> (r: DataType)
        ensures
            r == self.dt(),
    {
        match self {
            Column::UInt8(_) => DataType::UInt8,
            Column::UInt16(_) => DataType::UInt16,
            Column::UInt32(_) => DataType::UInt32,
            Column::UInt64(_) => DataType::UInt64,
            Column::Int8(_) => DataType::Int8,
            Column::Int16(_) => DataType::Int16,
            Column::Int32(_) => DataType::Int32,
            Column::Int64(_) => DataType::Int64,
            Column::Utf8(_) => DataType::Utf8,
            Column::Boolean(_) => DataType::Boolean,
        }
    }

    pub fn len(&self) -> (r: usize)
        ensures
            r == self@.len(),
    {
        match self {
            Column::UInt8(v) => v.len(),
            Column::UInt16(v) => v.len(),
            Column::UInt32(v) => v.len(),
            Column::UInt64(v) => v.len(),
            Column::Int8(v) => v.len(),
            Column::Int16(v) => v.len(),
            Column::Int32(v) => v.len(),
            Column::Int64(v) => v.len(),
            Column::Utf8(v) => v.len(),
            Column::Boolean(v) => v.len(),
        }
    }

    /// The value at one row, wrapped as a scalar.
    pub fn value_at(&self, row: usize) -> (r: ScalarValue)
        requires
            row < self@.len(),
        ensures
            r@ == self@[row as int],
    {
        match self {
            Column::UInt8(v) => ScalarValue::UInt8(v[row]),
            Column::UInt16(v) => ScalarValue::UInt16(v[row]),
            Column::UInt32(v) => ScalarValue::UInt32(v[row]),
            Column::UInt64(v) => ScalarValue::UInt64(v[row]),
            Column::Int8(v) => ScalarValue::Int8(v[row]),
            Column::Int16(v) => ScalarValue::Int16(v[row]),
            Column::Int32(v) => ScalarValue::Int32(v[row]),
            Column::Int64(v) => ScalarValue::Int64(v[row]),
            Column::Utf8(v) => ScalarValue::Utf8(v[row].clone()),
            Column::Boolean(v) => ScalarValue::Boolean(v[row]),
        }
    }

    pub fn duplicate(&self) -> (r: Column)
        ensures
            r@ == self@,
            r.dt() == self.dt(),
    {
        let r = match self {
            Column::UInt8(v) => Column::UInt8(v.clone()),
            Column::UInt16(v) => Column::UInt16(v.clone()),
            Column::UInt32(v) => Column::UInt32(v.clone()),
            Column::UInt64(v) => Column::UInt64(v.clone()),
            Column::Int8(v) => Column::Int8(v.clone()),
            Column::Int16(v) => Column::Int16(v.clone()),
            Column::Int32(v) => Column::Int32(v.clone()),
            Column::Int64(v) => Column::Int64(v.clone()),
            Column::Utf8(v) => Column::Utf8(clone_strings(v)),
            Column::Boolean(v) => Column::Boolean(v.clone()),
        };
        proof {
            assert(r@ =~= self@);
        }
        r
    }
}

/// Copies a vector of strings, keeping each element's characters.
pub fn clone_strings(v: &Vec<String>) -> (r: Vec<String>)
    ensures
        r@.len() == v@.len(),
        forall|i: int| 0 <= i < v@.len() ==> (#[trigger] r@[i])@ == v@[i]@,
{
    let mut r: Vec<String> = Vec::new();
    let mut i: usize = 0;
    while i < v.len()
        invariant
            i <= v@.len(),
            r@.len() == i,
            forall|j: int| 0 <= j < i ==> (#[trigger] r@[j])@ == v@[j]@,
        decreases v@.len() - i,
    {
        r.push(v[i].clone());
        i += 1;
    }
    r
}

/// A schema together with one column per field, in schema order; all columns
/// share one row count.
pub struct RecordBatch {
    pub schema: Schema,
    pub columns: Vec<Column>,
}

impl RecordBatch {
    /// The batch conforms to its schema: one column per field, of the field's
    /// type, and all columns of one length.
    pub open spec fn wf(&self) -> bool {
        &&& self.columns@.len() == self.schema@.len()
        &&& forall|i: int| 0 <= i < self.columns@.len()
            ==> (#[trigger] self.columns@[i]).dt() == self.schema@[i].data_type
        &&& forall|i: int| 0 <= i < self.columns@.len()
            ==> (#[trigger] self.columns@[i])@.len() == self.spec_num_rows()
    }

    pub open spec fn spec_num_rows(&self) -> nat {
        if self.columns@.len() == 0 {
            0
        } else {
            self.columns@[0]@.len()
        }
    }

    /// One row, as the sequence of its cell values in schema order.
    pub open spec fn row(&self, r: int) -> Seq<Val> {
        Seq::new(self.columns@.len(), |i: int| self.columns@[i]@[r])
    }

    /// The whole batch, row by row.
    pub open spec fn rows(&self) -> Seq<Seq<Val>> {
        Seq::new(self.spec_num_rows(), |r: int| self.row(r))
    }

    pub fn num_rows(&self) -> (r: usize)
        ensures
            r == self.spec_num_rows(),
    {
        if self.columns.len() == 0 {
            0
        } else {
            self.columns[0].len()
        }
    }

    /// Builds a batch after checking that the columns conform to the schema.
    pub fn try_new(schema: Schema, columns: Vec<Column>) -> (r: Result<RecordBatch, Error>)
        ensures
            r is Ok <==> (RecordBatch { schema, columns }).wf(),
            r is Ok ==> r->Ok_0 == (RecordBatch { schema, columns }),
    {
        if columns.len() != schema.num_fields() {
            return Err(Error::InvariantError("column count differs from the schema".to_owned()));
        }
        let rows = if columns.len() == 0 { 0 } else { columns[0].len() };
        let mut i: usize = 0;
        while i < columns.len()
            invariant
                i <= columns@.len(),
                columns@.len() == schema@.len(),
                rows == (RecordBatch { schema, columns }).spec_num_rows(),
                forall|j: int| 0 <= j < i
                    ==> (#[trigger] columns@[j]).dt() == schema@[j].data_type,
                forall|j: int| 0 <= j < i ==> (#[trigger] columns@[j])@.len() == rows,
            decreases columns@.len() - i,
        {
            if columns[i].data_type() != schema.fields[i].data_type {
                return Err(Error::SchemaError(
                    "column type differs from the declared field type".to_owned(),
                ));
            }
            if columns[i].len() != rows {
                return Err(Error::InvariantError("columns differ in length".to_owned()));
            }
            i += 1;
        }
        Ok(RecordBatch { schema, columns })
    }
}

} // verus!
