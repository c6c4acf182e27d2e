//! Bounds of columns, from the Arrow arrays of one value that hold them.

use arrow::array::ArrayData;
use arrow_array::{
    Int64Array, TimestampMicrosecondArray, TimestampMillisecondArray, TimestampNanosecondArray,
    TimestampSecondArray,
};
use arrow_schema::{DataType, TimeUnit};
use vstd::prelude::*;
use crate::supertable::manifest::partition::{ScalarCell, ScalarKind, ScalarSlot, ScalarType};

verus! {

/// The contents of an Arrow array.
#[verifier::external_type_specification]
#[verifier::external_body]
pub struct ExArrayData(ArrayData);

/// The kind of the type of an array's values.
pub uninterp spec fn array_kind(array: ArrayData) -> ScalarKind;

/// The slots of an array: nothing for a null one, and for another one its
/// number, if the type is one of numbers of 64 bits.
pub uninterp spec fn array_slots(array: ArrayData) -> Seq<Option<i64>>;

/// The type of an array's values. Calls `ArrayData::data_type`. A type that is
/// not read as numbers is named as it prints itself; the name is not pinned
/// down, for a nested type prints the annotations of its fields in any order.
#[verifier::external_body]
fn array_type(array: &ArrayData) -> (data_type: ScalarType)
    ensures
        data_type.kind() == array_kind(*array),
{
    match array.data_type() {
        DataType::Int64 => ScalarType::Int64,
        DataType::Timestamp(TimeUnit::Second, _) => ScalarType::TimestampSecond,
        DataType::Timestamp(TimeUnit::Millisecond, _) => ScalarType::TimestampMillisecond,
        DataType::Timestamp(TimeUnit::Microsecond, _) => ScalarType::TimestampMicrosecond,
        DataType::Timestamp(TimeUnit::Nanosecond, _) => ScalarType::TimestampNanosecond,
        other => ScalarType::Other(format!("{other:?}")),
    }
}

/// How many slots an array has. Calls `ArrayData::len`.
#[verifier::external_body]
fn array_len(array: &ArrayData) -> (len: usize)
    ensures
        len == array_slots(*array).len(),
{
    array.len()
}

/// Is slot `i` null? Calls `ArrayData::is_null`.
#[verifier::external_body]
fn array_is_null(array: &ArrayData, i: usize) -> (res: bool)
    requires
        i < array_slots(*array).len(),
    ensures
        res <==> array_slots(*array)[i as int] is None,
{
    array.is_null(i)
}

/// The integer in slot `i`, which is arbitrary in a null slot. Calls
/// `Int64Array::from` and `PrimitiveArray::value`.
#[verifier::external_body]
fn int64_at(array: &ArrayData, i: usize) -> (value: i64)
    requires
        array_kind(*array) == ScalarKind::Int64,
        i < array_slots(*array).len(),
    ensures
        array_slots(*array)[i as int] matches Some(v) ==> value == v,
{
    Int64Array::from(array.clone()).value(i)
}

/// The seconds in slot `i`, which are arbitrary in a null slot. Calls
/// `TimestampSecondArray::from` and `PrimitiveArray::value`.
#[verifier::external_body]
fn seconds_at(array: &ArrayData, i: usize) -> (value: i64)
    requires
        array_kind(*array) == ScalarKind::TimestampSecond,
        i < array_slots(*array).len(),
    ensures
        array_slots(*array)[i as int] matches Some(v) ==> value == v,
{
    TimestampSecondArray::from(array.clone()).value(i)
}

/// The milliseconds in slot `i`, which are arbitrary in a null slot. Calls
/// `TimestampMillisecondArray::from` and `PrimitiveArray::value`.
#[verifier::external_body]
fn milliseconds_at(array: &ArrayData, i: usize) -> (value: i64)
    requires
        array_kind(*array) == ScalarKind::TimestampMillisecond,
        i < array_slots(*array).len(),
    ensures
        array_slots(*array)[i as int] matches Some(v) ==> value == v,
{
    TimestampMillisecondArray::from(array.clone()).value(i)
}

/// The microseconds in slot `i`, which are arbitrary in a null slot. Calls
/// `TimestampMicrosecondArray::from` and `PrimitiveArray::value`.
#[verifier::external_body]
fn microseconds_at(array: &ArrayData, i: usize) -> (value: i64)
    requires
        array_kind(*array) == ScalarKind::TimestampMicrosecond,
        i < array_slots(*array).len(),
    ensures
        array_slots(*array)[i as int] matches Some(v) ==> value == v,
{
    TimestampMicrosecondArray::from(array.clone()).value(i)
}

/// The nanoseconds in slot `i`, which are arbitrary in a null slot. Calls
/// `TimestampNanosecondArray::from` and `PrimitiveArray::value`.
#[verifier::external_body]
fn nanoseconds_at(array: &ArrayData, i: usize) -> (value: i64)
    requires
        array_kind(*array) == ScalarKind::TimestampNanosecond,
        i < array_slots(*array).len(),
    ensures
        array_slots(*array)[i as int] matches Some(v) ==> value == v,
{
    TimestampNanosecondArray::from(array.clone()).value(i)
}

/// What stands in the first slot.
pub open spec fn first_slot(kind: ScalarKind, slots: Seq<Option<i64>>) -> ScalarSlot {
    if slots.len() == 0 || slots[0] is None {
        ScalarSlot::Missing
    } else if kind == ScalarKind::Other {
        ScalarSlot::Opaque
    } else {
        ScalarSlot::Value(slots[0]->0)
    }
}

impl ScalarCell {
    /// The bound that an array holds in its first slot.
    pub fn of_array(array: &ArrayData) -> (cell: Self)
        ensures
            cell.data_type.kind() == array_kind(*array),
            cell.slot == first_slot(array_kind(*array), array_slots(*array)),
    {
        let data_type = array_type(array);
        if array_len(array) == 0 || array_is_null(array, 0) {
            return ScalarCell { data_type, slot: ScalarSlot::Missing };
        }
        let slot = match &data_type {
            ScalarType::Int64 => ScalarSlot::Value(int64_at(array, 0)),
            ScalarType::TimestampSecond => ScalarSlot::Value(seconds_at(array, 0)),
            ScalarType::TimestampMillisecond => ScalarSlot::Value(milliseconds_at(array, 0)),
            ScalarType::TimestampMicrosecond => ScalarSlot::Value(microseconds_at(array, 0)),
            ScalarType::TimestampNanosecond => ScalarSlot::Value(nanoseconds_at(array, 0)),
            ScalarType::Other(_) => ScalarSlot::Opaque,
        };
        ScalarCell { data_type, slot }
    }
}

/// A bound is the number in the first slot, if there is one and it is not null;
/// of a type that is not read as a number it is opaque.
pub proof fn lemma_bound_is_the_first_slot(array: ArrayData, cell: ScalarCell)
    requires
        call_ensures(ScalarCell::of_array, (&array,), cell),
    ensures
        cell.slot is Missing <==> array_slots(array).len() == 0 || array_slots(array)[0] is None,
        cell.slot is Value ==> array_slots(array)[0] == Some(cell.slot->Value_0),
        array_slots(array).len() > 0 && array_slots(array)[0] is Some ==> (cell.slot is Opaque
            <==> cell.data_type is Other),
        cell.data_type.kind() == array_kind(array),
{
}

} // verus!
