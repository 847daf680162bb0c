//! Key encoding: reading one row of the key columns into a comparable group
//! key.

use vstd::prelude::*;
use crate::types::{Column, Error, GroupByScalar, Val, groupable, key_view};

verus! {

/// The key formed by reading row `row` of each key column.
pub open spec fn key_at(cols: Seq<Column>, row: int) -> Seq<Val> {
    Seq::new(cols.len(), |i: int| cols[i]@[row])
}

/// The keys of all `n` rows of a set of key columns, in row order.
pub open spec fn keys_at(cols: Seq<Column>, n: nat) -> Seq<Seq<Val>> {
    Seq::new(n, |r: int| key_at(cols, r))
}

/// Whether two key vectors carry the same values, component by component.
pub fn key_eq(a: &Vec<GroupByScalar>, b: &Vec<GroupByScalar>) -> (r: bool)
    ensures
        r == (key_view(a@) == key_view(b@)),
{
    if a.len() != b.len() {
        proof {
            assert(key_view(a@).len() != key_view(b@).len());
        }
        return false;
    }
    let mut c: usize = 0;
    while c < a.len()
        invariant
            a@.len() == b@.len(),
            c <= a@.len(),
            forall|m: int| 0 <= m < c ==> (#[trigger] a@[m])@ == b@[m]@,
        decreases a@.len() - c,
    {
        if !a[c].same_as(&b[c]) {
            proof {
                assert(key_view(a@)[c as int] != key_view(b@)[c as int]);
            }
            return false;
        }
        c += 1;
    }
    proof {
        assert(key_view(a@) =~= key_view(b@));
    }
    true
}

/// Copies a key vector, keeping each component's value.
pub fn key_dup(k: &Vec<GroupByScalar>) -> (r: Vec<GroupByScalar>)
    ensures
        key_view(r@) == key_view(k@),
        r@.len() == k@.len(),
{
    let mut r: Vec<GroupByScalar> = Vec::new();
    let mut i: usize = 0;
    while i < k.len()
        invariant
            i <= k@.len(),
            r@.len() == i,
            forall|j: int| 0 <= j < i ==> (#[trigger] r@[j])@ == k@[j]@,
        decreases k@.len() - i,
    {
        r.push(k[i].duplicate());
        i += 1;
    }
    proof {
        assert(key_view(r@) =~= key_view(k@));
    }
    r
}

/// Populates a pre-allocated key vector with the scalar read at `row` from
/// each key column. Boolean columns are rejected: they are not groupable.
pub fn create_key(
    group_by_keys: &Vec<Column>,
    row: usize,
    vec: &mut Vec<GroupByScalar>,
) -> (r: Result<(), Error>)
    requires
        old(vec)@.len() == group_by_keys@.len(),
        forall|i: int| 0 <= i < group_by_keys@.len()
            ==> row < (#[trigger] group_by_keys@[i])@.len(),
    ensures
        final(vec)@.len() == old(vec)@.len(),
        r is Ok <==> forall|i: int| 0 <= i < group_by_keys@.len()
            ==> groupable((#[trigger] group_by_keys@[i]).dt()),
        r is Ok ==> key_view(final(vec)@) == key_at(group_by_keys@, row as int),
        r is Err ==> r->Err_0 is TypeError,
{
    let mut i: usize = 0;
    while i < group_by_keys.len()
        invariant
            old(vec)@.len() == group_by_keys@.len(),
            i <= group_by_keys@.len(),
            vec@.len() == group_by_keys@.len(),
            forall|j: int| 0 <= j < group_by_keys@.len()
                ==> row < (#[trigger] group_by_keys@[j])@.len(),
            forall|j: int| 0 <= j < i ==> (#[trigger] vec@[j])@ == group_by_keys@[j]@[row as int],
            forall|j: int| 0 <= j < i ==> groupable((#[trigger] group_by_keys@[j]).dt()),
        decreases group_by_keys@.len() - i,
    {
        let gs = match &group_by_keys[i] {
            Column::UInt8(v) => GroupByScalar::UInt8(v[row]),
            Column::UInt16(v) => GroupByScalar::UInt16(v[row]),
            Column::UInt32(v) => GroupByScalar::UInt32(v[row]),
            Column::UInt64(v) => GroupByScalar::UInt64(v[row]),
            Column::Int8(v) => GroupByScalar::Int8(v[row]),
            Column::Int16(v) => GroupByScalar::Int16(v[row]),
            Column::Int32(v) => GroupByScalar::Int32(v[row]),
            Column::Int64(v) => GroupByScalar::Int64(v[row]),
            Column::Utf8(v) => GroupByScalar::Utf8(v[row].clone()),
            Column::Boolean(_) => {
                return Err(Error::TypeError("unsupported group key type".to_owned()));
            },
        };
        vec[i] = gs;
        i += 1;
    }
    proof {
        assert(key_view(vec@) =~= key_at(group_by_keys@, row as int));
    }
    Ok(())
}

} // verus!
