//! Whole columns: serializing a collection of values into an array and
//! reading an array back, with the type check in front of every read.
use crate::column::{
    buildable, built, col_len, column_len, copy_column, decoded, new_column, null_decoded, push, push_null, read,
    pushed, read_row, rows, wf, Column,
};
use crate::shape::{check_sizes, is_nullable, logical, logical_type, sizes_ok, well_typed, Shape};
use crate::types::{LogicalType, ScalarKind, TimeUnit};
use crate::value::{models, Val, Value};
use vstd::prelude::*;

verus! {

/// A finished column together with its logical type.
#[derive(Debug)]
pub struct Array {
    pub data_type: LogicalType,
    pub column: Column,
}

/// Why a value could not be appended.
#[derive(Debug, Clone, Copy, PartialEq, Eq, Structural)]
pub enum BuildError {
    /// A fixed-size list or a fixed-size binary got a value of another length.
    SizeMismatch,
}

/// An array whose type is not the expected one, or that holds null rows
/// where the expected type is not nullable; both types are kept for
/// diagnostics.
#[derive(Debug)]
pub struct SchemaMismatch {
    pub expected: LogicalType,
    pub actual: LogicalType,
    /// Whether the types agree and the mismatch is a null row under a type
    /// that is not nullable.
    pub null_rows: bool,
}

/// Whether some row of a column reads as null.
pub open spec fn has_null(s: Shape, c: Column) -> bool {
    exists|i: int| 0 <= i < rows(s, c).len() && (#[trigger] rows(s, c)[i]) is Null
}

/// Whether an array fails the type check against a shape: its type differs,
/// or the shape is not nullable and some row reads as null.
pub open spec fn mismatched(s: Shape, arr: Array) -> bool {
    arr.data_type.model() != logical(s) || (!(s is Nullable) && has_null(s, arr.column))
}

/// Whether some row of a column reads as null.
fn find_null_row(s: &Shape, c: &Column) -> (r: bool)
    requires
        wf(*s, *c),
    ensures
        r == has_null(*s, *c),
{
    proof {
        crate::column::lemma_rows_len(*s, *c);
    }
    let n = col_len(c);
    let mut i: usize = 0;
    while i < n
        invariant
            wf(*s, *c),
            n == rows(*s, *c).len(),
            n == column_len(*c),
            0 <= i <= n,
            forall|j: int| 0 <= j < i ==> !((#[trigger] rows(*s, *c)[j]) is Null),
        decreases n - i,
    {
        let v = read_row(s, c, i);
        if let Value::Null = v {
            proof {
                assert(rows(*s, *c)[i as int] is Null);
            }
            return true;
        }
        i = i + 1;
    }
    false
}

/// A column builder for one shape.
#[derive(Debug)]
pub struct ColumnBuilder {
    pub shape: Shape,
    pub column: Column,
}

impl ColumnBuilder {
    pub open spec fn inv(&self) -> bool {
        wf(self.shape, self.column) && built(self.shape, self.column)
    }

    /// The rows appended so far, as they read back.
    pub open spec fn rows(&self) -> Seq<Val> {
        rows(self.shape, self.column)
    }

    /// An empty builder.
    pub fn new(shape: Shape) -> (r: ColumnBuilder)
        requires
            buildable(shape),
        ensures
            r.inv(),
            r.shape == shape,
            r.rows() == Seq::<Val>::empty(),
    {
        let column = new_column(&shape);
        ColumnBuilder { shape, column }
    }

    /// Append a value; `Value::Null` appends a null row. Fixed-size parts
    /// are checked before anything is appended: on a length mismatch the
    /// builder is left as it was.
    pub fn push(&mut self, v: &Value) -> (r: Result<(), BuildError>)
        requires
            old(self).inv(),
            v.model() is Null || well_typed(old(self).shape, v.model()),
        ensures
            final(self).inv(),
            final(self).shape == old(self).shape,
            r is Ok <==> sizes_ok(old(self).shape, v.model()),
            r is Ok ==> final(self).rows() == old(self).rows().push(
                decoded(old(self).shape, v.model()),
            ),
            r is Ok ==> pushed(old(self).shape, old(self).column, final(self).column, v.model()),
            r is Err ==> final(self).column == old(self).column,
    {
        if !check_sizes(&self.shape, v) {
            return Err(BuildError::SizeMismatch);
        }
        push(&self.shape, &mut self.column, v);
        Ok(())
    }

    /// Append a null row.
    pub fn push_null(&mut self)
        requires
            old(self).inv(),
        ensures
            final(self).inv(),
            final(self).shape == old(self).shape,
            final(self).rows() == old(self).rows().push(null_decoded(old(self).shape)),
            pushed(old(self).shape, old(self).column, final(self).column, Val::Null),
    {
        push_null(&self.shape, &mut self.column);
    }

    /// The number of rows appended so far.
    pub fn len(&self) -> (r: usize)
        requires
            self.inv(),
        ensures
            r == self.rows().len(),
    {
        proof {
            crate::column::lemma_rows_len(self.shape, self.column);
        }
        col_len(&self.column)
    }

    /// A snapshot of the rows appended so far; the builder stays usable.
    pub fn finish_cloned(&self) -> (r: Array)
        requires
            self.inv(),
        ensures
            r.data_type.model() == logical(self.shape),
            wf(self.shape, r.column),
            rows(self.shape, r.column) == self.rows(),
    {
        let data_type = logical_type(&self.shape);
        Array { data_type, column: copy_column(&self.shape, &self.column) }
    }

    /// The finished array, typed by the builder's shape.
    pub fn finish(self) -> (r: Array)
        ensures
            r.data_type.model() == logical(self.shape),
            r.column == self.column,
    {
        let data_type = logical_type(&self.shape);
        Array { data_type, column: self.column }
    }
}

/// What a collection of values reads back as, row by row.
pub open spec fn decoded_all(s: Shape, items: Seq<Val>) -> Seq<Val> {
    Seq::new(items.len(), |i: int| decoded(s, items[i]))
}

/// Serialize values into an array of the shape's type, one row per value
/// (`Value::Null` gives a null row). Fails, before building anything, when a
/// fixed-size part of some value has another length.
pub fn serialize_collection(s: &Shape, items: &Vec<Value>) -> (r: Result<Array, BuildError>)
    requires
        buildable(*s),
        forall|i: int|
            0 <= i < items@.len() ==> (#[trigger] items@[i].model() is Null || well_typed(
                *s,
                items@[i].model(),
            )),
    ensures
        r is Ok <==> forall|i: int| 0 <= i < items@.len() ==> sizes_ok(*s, #[trigger] items@[i].model()),
        r matches Ok(a) ==> {
            &&& a.data_type.model() == logical(*s)
            &&& wf(*s, a.column)
            &&& built(*s, a.column)
            &&& rows(*s, a.column) == decoded_all(*s, models(items@))
        },
{
    let mut i: usize = 0;
    while i < items.len()
        invariant
            0 <= i <= items@.len(),
            forall|j: int| 0 <= j < i ==> sizes_ok(*s, #[trigger] items@[j].model()),
        decreases items@.len() - i,
    {
        if !check_sizes(s, &items[i]) {
            return Err(BuildError::SizeMismatch);
        }
        i = i + 1;
    }
    let mut column = new_column(s);
    let mut k: usize = 0;
    while k < items.len()
        invariant
            0 <= k <= items@.len(),
            forall|j: int|
                0 <= j < items@.len() ==> (#[trigger] items@[j].model() is Null || well_typed(
                    *s,
                    items@[j].model(),
                )) && sizes_ok(*s, items@[j].model()),
            wf(*s, column),
            built(*s, column),
            rows(*s, column) == decoded_all(*s, models(items@).subrange(0, k as int)),
        decreases items@.len() - k,
    {
        let ghost before = rows(*s, column);
        push(s, &mut column, &items[k]);
        proof {
            crate::value::lemma_models_index(items@, k as int);
            assert(rows(*s, column) =~= decoded_all(*s, models(items@).subrange(0, k + 1)));
        }
        k = k + 1;
    }
    proof {
        assert(models(items@).subrange(0, items@.len() as int) =~= models(items@));
    }
    let data_type = logical_type(s);
    Ok(Array { data_type, column })
}

/// Read an array back as values of a shape, one per row (`Value::Null` for a
/// null row). The array's type must equal the shape's type exactly, field
/// names and nullability included, and an array read as a type that is not
/// nullable must have no null rows; otherwise no value is returned.
pub fn deserialize_collection(s: &Shape, arr: &Array) -> (r: Result<Vec<Value>, SchemaMismatch>)
    requires
        arr.data_type.model() == logical(*s) ==> wf(*s, arr.column),
    ensures
        r is Err <==> mismatched(*s, *arr),
        r matches Ok(vs) ==> models(vs@) == rows(*s, arr.column),
        r matches Err(e) ==> e.expected.model() == logical(*s) && e.actual.model()
            == arr.data_type.model() && e.null_rows == (arr.data_type.model() == logical(*s)),
{
    let expected = logical_type(s);
    if !expected.equals(&arr.data_type) {
        return Err(SchemaMismatch { expected, actual: arr.data_type.copy(), null_rows: false });
    }
    if !is_nullable(s) && find_null_row(s, &arr.column) {
        return Err(SchemaMismatch { expected, actual: arr.data_type.copy(), null_rows: true });
    }
    Ok(read(s, &arr.column))
}

/// Whether a value reads back as itself. Two things do not: a null where a
/// union whose first case is unit-like stands (it reads as that case), and a
/// null payload of a case that has one (the row reads as null).
pub open spec fn lossless(s: Shape, v: Val) -> bool
    decreases s,
{
    if v is Null {
        null_decoded(s) is Null
    } else {
        match s {
            Shape::Scalar(_) => true,
            Shape::Nullable(inner) => lossless(*inner, v),
            Shape::List { item, .. } => v is List && forall|i: int|
                0 <= i < v->List_0.len() ==> lossless(*item, #[trigger] v->List_0[i]),
            Shape::FixedList { item, .. } => v is List && forall|i: int|
                0 <= i < v->List_0.len() ==> lossless(*item, #[trigger] v->List_0[i]),
            Shape::Struct(ms) => v is Struct && forall|i: int|
                0 <= i < ms@.len() ==> lossless(#[trigger] ms@[i].shape, v->Struct_0[i]),
            Shape::Union { cases, .. } => v is Union && v->Union_0 < cases@.len() && match cases@[
                v->Union_0 as int
            ].payload {
                None => true,
                Some(p) => !((*v->Union_1) is Null) && lossless(p, *v->Union_1),
            },
        }
    }
}

/// A lossless value of a shape reads back as itself.
pub proof fn lemma_decoded_lossless(s: Shape, v: Val)
    requires
        v is Null || well_typed(s, v),
        lossless(s, v),
    ensures
        decoded(s, v) == v,
    decreases s,
{
    if v is Null {
    } else {
        match s {
            Shape::Scalar(_) => {},
            Shape::Nullable(inner) => {
                lemma_decoded_lossless(*inner, v);
            },
            Shape::List { item, .. } => {
                assert forall|i: int| 0 <= i < v->List_0.len() implies decoded(
                    *item,
                    #[trigger] v->List_0[i],
                ) == v->List_0[i] by {
                    lemma_decoded_lossless(*item, v->List_0[i]);
                }
                assert(decoded(s, v)->List_0 =~= v->List_0);
            },
            Shape::FixedList { item, .. } => {
                assert forall|i: int| 0 <= i < v->List_0.len() implies decoded(
                    *item,
                    #[trigger] v->List_0[i],
                ) == v->List_0[i] by {
                    lemma_decoded_lossless(*item, v->List_0[i]);
                }
                assert(decoded(s, v)->List_0 =~= v->List_0);
            },
            Shape::Struct(ms) => {
                assert forall|i: int| 0 <= i < ms@.len() implies decoded(
                    #[trigger] ms@[i].shape,
                    v->Struct_0[i],
                ) == v->Struct_0[i] by {
                    crate::shape::lemma_member_decreases(s, i);
                    lemma_decoded_lossless(ms@[i].shape, v->Struct_0[i]);
                }
                assert(decoded(s, v)->Struct_0 =~= v->Struct_0);
            },
            Shape::Union { cases, .. } => {
                let t = v->Union_0 as int;
                match cases@[t].payload {
                    Some(p) => {
                        crate::shape::lemma_case_decreases(s, t);
                        lemma_decoded_lossless(p, *v->Union_1);
                    },
                    None => {},
                }
            },
        }
    }
}

/// Round trip: serializing values of a shape (`serialize_collection`) and
/// reading the array back (`deserialize_collection`) gives the same values,
/// for every collection of lossless values.
pub proof fn lemma_round_trip(s: Shape, items: Seq<Val>)
    requires
        forall|i: int|
            0 <= i < items.len() ==> (#[trigger] items[i] is Null || well_typed(s, items[i]))
                && lossless(s, items[i]),
    ensures
        decoded_all(s, items) == items,
{
    assert forall|i: int| 0 <= i < items.len() implies decoded_all(s, items)[i] == items[i] by {
        lemma_decoded_lossless(s, items[i]);
    }
    assert(decoded_all(s, items) =~= items);
}

/// A timestamp column without a time zone and one tagged `UTC` have
/// different types, so reading either as the other fails with a schema
/// mismatch instead of reinterpreting the data.
pub proof fn lemma_time_zone_is_typed(unit: TimeUnit, utc: bool)
    ensures
        logical(Shape::Scalar(ScalarKind::Timestamp { unit, utc })) != logical(
            Shape::Scalar(ScalarKind::Timestamp { unit, utc: !utc }),
        ),
{
}

/// Read one row of an array as a value of a shape, after the same check as
/// [`deserialize_collection`]; only that row is decoded into the result.
pub fn deserialize_row(s: &Shape, arr: &Array, r: usize) -> (v: Result<Value, SchemaMismatch>)
    requires
        arr.data_type.model() == logical(*s) ==> wf(*s, arr.column) && r < rows(*s, arr.column).len(),
    ensures
        v is Err <==> mismatched(*s, *arr),
        v matches Ok(x) ==> x.model() == rows(*s, arr.column)[r as int],
        v matches Err(e) ==> e.expected.model() == logical(*s) && e.actual.model()
            == arr.data_type.model() && e.null_rows == (arr.data_type.model() == logical(*s)),
{
    let expected = logical_type(s);
    if !expected.equals(&arr.data_type) {
        return Err(SchemaMismatch { expected, actual: arr.data_type.copy(), null_rows: false });
    }
    if !is_nullable(s) && find_null_row(s, &arr.column) {
        return Err(SchemaMismatch { expected, actual: arr.data_type.copy(), null_rows: true });
    }
    proof {
        crate::column::lemma_rows_len(*s, arr.column);
    }
    Ok(read_row(s, &arr.column, r))
}

} // verus!
