//! Resolved data types: what a declared type becomes once its names, modes
//! and wrappers are settled. A shape decides the column layout, the values
//! that a column accepts and how rows are read back.
use crate::types::{field_models, Field, FieldModel, LogicalType, ScalarKind, TypeModel, UnionMode};
use vstd::string::*;
use crate::value::{lemma_models_index, models, Val, Value};
use vstd::prelude::*;

verus! {

/// A resolved data type.
#[derive(Debug)]
pub enum Shape {
    Scalar(ScalarKind),
    /// `Option<T>`: the inner shape, whose column also takes nulls.
    Nullable(Box<Shape>),
    /// A variable-length sequence; `large` selects 64-bit offsets.
    List { item: Box<Shape>, large: bool },
    /// A sequence of exactly `size` items.
    FixedList { item: Box<Shape>, size: usize },
    /// A product type: one member per column, in declaration order.
    Struct(Vec<Member>),
    /// A sum type: one case per variant column, tag ids by position.
    Union { cases: Vec<Case>, mode: UnionMode },
}

/// A named member of a struct shape.
#[derive(Debug)]
pub struct Member {
    pub name: String,
    pub shape: Shape,
}

/// A named case of a union shape; a unit-like case has no payload.
#[derive(Debug)]
pub struct Case {
    pub name: String,
    pub payload: Option<Shape>,
}

/// Name of the item field of a list type.
pub open spec fn item_name() -> Seq<char> {
    seq!['i', 't', 'e', 'm']
}

/// The logical type of a shape.
pub open spec fn logical(s: Shape) -> TypeModel
    decreases s,
{
    match s {
        Shape::Scalar(k) => TypeModel::Scalar(k),
        Shape::Nullable(inner) => logical(*inner),
        Shape::List { item, large } => TypeModel::List(
            Box::new(FieldModel { name: item_name(), data_type: logical(*item), nullable: (*item) is Nullable }),
            large,
        ),
        Shape::FixedList { item, size } => TypeModel::FixedList(
            Box::new(FieldModel { name: item_name(), data_type: logical(*item), nullable: (*item) is Nullable }),
            size as nat,
        ),
        Shape::Struct(ms) => TypeModel::Struct(
            Seq::new(
                ms@.len(),
                |i: int|
                    if 0 <= i < ms@.len() {
                        FieldModel {
                            name: ms@[i].name@,
                            data_type: logical(ms@[i].shape),
                            nullable: ms@[i].shape is Nullable,
                        }
                    } else {
                        arbitrary()
                    },
            ),
        ),
        Shape::Union { cases, mode } => TypeModel::Union(
            Seq::new(
                cases@.len(),
                |i: int|
                    if 0 <= i < cases@.len() {
                        match cases@[i].payload {
                            Some(p) => FieldModel {
                                name: cases@[i].name@,
                                data_type: logical(p),
                                nullable: p is Nullable,
                            },
                            None => FieldModel {
                                name: cases@[i].name@,
                                data_type: TypeModel::Scalar(ScalarKind::Boolean),
                                nullable: false,
                            },
                        }
                    } else {
                        arbitrary()
                    },
            ),
            mode,
        ),
    }
}

/// Whether a scalar value has the given kind, within the kind's range.
pub open spec fn scalar_fits(k: ScalarKind, v: Val) -> bool {
    match k {
        ScalarKind::Boolean => v is Bool,
        ScalarKind::Int8 => v is Int && i8::MIN <= v->Int_0 <= i8::MAX,
        ScalarKind::Int16 => v is Int && i16::MIN <= v->Int_0 <= i16::MAX,
        ScalarKind::Int32 => v is Int && i32::MIN <= v->Int_0 <= i32::MAX,
        ScalarKind::Int64 => v is Int && i64::MIN <= v->Int_0 <= i64::MAX,
        ScalarKind::UInt8 => v is Int && 0 <= v->Int_0 <= u8::MAX,
        ScalarKind::UInt16 => v is Int && 0 <= v->Int_0 <= u16::MAX,
        ScalarKind::UInt32 => v is Int && 0 <= v->Int_0 <= u32::MAX,
        ScalarKind::UInt64 => v is Int && 0 <= v->Int_0 <= u64::MAX,
        ScalarKind::Float16 => v is Float && v->Float_0 <= u16::MAX,
        ScalarKind::Float32 => v is Float && v->Float_0 <= u32::MAX,
        ScalarKind::Float64 => v is Float,
        ScalarKind::Date32 => v is Int && i32::MIN <= v->Int_0 <= i32::MAX,
        ScalarKind::Timestamp { .. } => v is Int && i64::MIN <= v->Int_0 <= i64::MAX,
        ScalarKind::Decimal128 { .. } => v is Int,
        ScalarKind::FixedSizeBinary(_) => v is Bytes,
        ScalarKind::Utf8 => v is Str,
        ScalarKind::LargeUtf8 => v is Str,
        ScalarKind::Binary => v is Bytes,
        ScalarKind::LargeBinary => v is Bytes,
    }
}

/// Whether a value has the structure of a shape: the shape of each member,
/// item and case payload, nulls only where the shape is nullable, and a
/// null payload for unit-like cases. Lengths of fixed-size values are not
/// part of it (see [`sizes_ok`]).
pub open spec fn well_typed(s: Shape, v: Val) -> bool
    decreases s,
{
    match s {
        Shape::Scalar(k) => scalar_fits(k, v),
        Shape::Nullable(inner) => v is Null || well_typed(*inner, v),
        Shape::List { item, .. } => v is List && forall|i: int|
            0 <= i < v->List_0.len() ==> well_typed(*item, #[trigger] v->List_0[i]),
        Shape::FixedList { item, .. } => v is List && forall|i: int|
            0 <= i < v->List_0.len() ==> well_typed(*item, #[trigger] v->List_0[i]),
        Shape::Struct(ms) => v is Struct && v->Struct_0.len() == ms@.len() && forall|i: int|
            0 <= i < ms@.len() ==> well_typed(#[trigger] ms@[i].shape, v->Struct_0[i]),
        Shape::Union { cases, .. } => v is Union && v->Union_0 < cases@.len() && match cases@[
            v->Union_0 as int
        ].payload {
            None => (*v->Union_1) is Null,
            Some(p) => well_typed(p, *v->Union_1),
        },
    }
}

/// Whether every fixed-size part of a value has its declared length: fixed
/// lists their item count, fixed-size binaries their byte count.
pub open spec fn sizes_ok(s: Shape, v: Val) -> bool
    decreases s,
{
    match s {
        Shape::Scalar(k) => match k {
            ScalarKind::FixedSizeBinary(n) => v is Bytes ==> v->Bytes_0.len() == n,
            _ => true,
        },
        Shape::Nullable(inner) => sizes_ok(*inner, v),
        Shape::List { item, .. } => v is List ==> forall|i: int|
            0 <= i < v->List_0.len() ==> sizes_ok(*item, #[trigger] v->List_0[i]),
        Shape::FixedList { item, size } => v is List ==> v->List_0.len() == size && forall|i: int|
            0 <= i < v->List_0.len() ==> sizes_ok(*item, #[trigger] v->List_0[i]),
        Shape::Struct(ms) => v is Struct ==> forall|i: int|
            0 <= i < ms@.len() && i < v->Struct_0.len() ==> sizes_ok(
                #[trigger] ms@[i].shape,
                v->Struct_0[i],
            ),
        Shape::Union { cases, .. } => (v is Union && v->Union_0 < cases@.len()) ==> match cases@[
            v->Union_0 as int
        ].payload {
            None => true,
            Some(p) => sizes_ok(p, *v->Union_1),
        },
    }
}

pub proof fn lemma_member_decreases(s: Shape, i: int)
    requires
        s is Struct,
        0 <= i < s->Struct_0@.len(),
    ensures
        decreases_to!(s => s->Struct_0@[i].shape),
{
    let ms = s->Struct_0;
    assert(decreases_to!(s => ms));
    assert(decreases_to!(ms => ms@));
    assert(decreases_to!(ms@ => ms@[i]));
    assert(decreases_to!(ms@[i] => ms@[i].shape));
}

pub proof fn lemma_case_decreases(s: Shape, i: int)
    requires
        s is Union,
        0 <= i < s->cases@.len(),
        s->cases@[i].payload is Some,
    ensures
        decreases_to!(s => s->cases@[i].payload->Some_0),
{
    let cs = s->cases;
    assert(decreases_to!(s => cs));
    assert(decreases_to!(cs => cs@));
    assert(decreases_to!(cs@ => cs@[i]));
    assert(decreases_to!(cs@[i] => cs@[i].payload));
    assert(decreases_to!(cs@[i].payload => cs@[i].payload->Some_0));
}

/// Whether a scalar value has the given kind, within the kind's range.
pub fn scalar_conforms(k: ScalarKind, v: &Value) -> (r: bool)
    ensures
        r == scalar_fits(k, v.model()),
{
    match k {
        ScalarKind::Boolean => matches!(v, Value::Bool(_)),
        ScalarKind::Int8 => match v {
            Value::Int(i) => i8::MIN as i128 <= *i && *i <= i8::MAX as i128,
            _ => false,
        },
        ScalarKind::Int16 => match v {
            Value::Int(i) => i16::MIN as i128 <= *i && *i <= i16::MAX as i128,
            _ => false,
        },
        ScalarKind::Int32 => match v {
            Value::Int(i) => i32::MIN as i128 <= *i && *i <= i32::MAX as i128,
            _ => false,
        },
        ScalarKind::Int64 => match v {
            Value::Int(i) => i64::MIN as i128 <= *i && *i <= i64::MAX as i128,
            _ => false,
        },
        ScalarKind::UInt8 => match v {
            Value::Int(i) => 0 <= *i && *i <= u8::MAX as i128,
            _ => false,
        },
        ScalarKind::UInt16 => match v {
            Value::Int(i) => 0 <= *i && *i <= u16::MAX as i128,
            _ => false,
        },
        ScalarKind::UInt32 => match v {
            Value::Int(i) => 0 <= *i && *i <= u32::MAX as i128,
            _ => false,
        },
        ScalarKind::UInt64 => match v {
            Value::Int(i) => 0 <= *i && *i <= u64::MAX as i128,
            _ => false,
        },
        ScalarKind::Float16 => match v {
            Value::Float(f) => *f <= u16::MAX as u64,
            _ => false,
        },
        ScalarKind::Float32 => match v {
            Value::Float(f) => *f <= u32::MAX as u64,
            _ => false,
        },
        ScalarKind::Float64 => matches!(v, Value::Float(_)),
        ScalarKind::Date32 => match v {
            Value::Int(i) => i32::MIN as i128 <= *i && *i <= i32::MAX as i128,
            _ => false,
        },
        ScalarKind::Timestamp { .. } => match v {
            Value::Int(i) => i64::MIN as i128 <= *i && *i <= i64::MAX as i128,
            _ => false,
        },
        ScalarKind::Decimal128 { .. } => matches!(v, Value::Int(_)),
        ScalarKind::FixedSizeBinary(_) => matches!(v, Value::Bytes(_)),
        ScalarKind::Utf8 => matches!(v, Value::Str(_)),
        ScalarKind::LargeUtf8 => matches!(v, Value::Str(_)),
        ScalarKind::Binary => matches!(v, Value::Bytes(_)),
        ScalarKind::LargeBinary => matches!(v, Value::Bytes(_)),
    }
}

/// Whether a value has the structure of a shape (see [`well_typed`]).
pub fn conforms(s: &Shape, v: &Value) -> (r: bool)
    ensures
        r == well_typed(*s, v.model()),
    decreases s, 0nat,
{
    match s {
        Shape::Scalar(k) => {
            let ok = scalar_conforms(*k, v);
            proof {
                assert(well_typed(*s, v.model()) == scalar_fits(*k, v.model()));
                assert(ok == scalar_fits(*k, v.model()));
            }
            ok
        },
        Shape::Nullable(inner) => {
            if let Value::Null = v {
                true
            } else {
                conforms(inner, v)
            }
        },
        Shape::List { item, .. } => {
            proof {
                assert(decreases_to!(*s => s->List_item));
            }
            conforms_items(item, v)
        },
        Shape::FixedList { item, .. } => {
            proof {
                assert(decreases_to!(*s => s->FixedList_item));
            }
            conforms_items(item, v)
        },
        Shape::Struct(ms) => match v {
            Value::Struct(fields) => {
                proof {
                    assert(v.model() == Val::Struct(models(fields@)));
                }
                if fields.len() != ms.len() {
                    return false;
                }
                let mut i: usize = 0;
                while i < ms.len()
                    invariant
                        *s == Shape::Struct(*ms),
                        *v == Value::Struct(*fields),
                        v.model() == Val::Struct(models(fields@)),
                        fields@.len() == ms@.len(),
                        0 <= i <= ms@.len(),
                        forall|j: int|
                            0 <= j < i ==> well_typed(#[trigger] ms@[j].shape, fields@[j].model()),
                    decreases ms@.len() - i,
                {
                    proof {
                        lemma_member_decreases(*s, i as int);
                    }
                    if !conforms(&ms[i].shape, &fields[i]) {
                        proof {
                            lemma_models_index(fields@, i as int);
                            assert(!well_typed(ms@[i as int].shape, v.model()->Struct_0[i as int]));
                        }
                        return false;
                    }
                    i = i + 1;
                }
                proof {
                    assert forall|j: int| 0 <= j < ms@.len() implies well_typed(
                        #[trigger] ms@[j].shape,
                        v.model()->Struct_0[j],
                    ) by {
                        lemma_models_index(fields@, j);
                    }
                }
                true
            },
            _ => false,
        },
        Shape::Union { cases, .. } => match v {
            Value::Union(t, p) => {
                if *t >= cases.len() {
                    return false;
                }
                proof {
                    assert(v.model() == Val::Union(*t as nat, Box::new(p.model())));
                }
                match &cases[*t].payload {
                    None => {
                        let b = matches!(**p, Value::Null);
                        proof {
                            assert(b == (p.model() is Null));
                        }
                        b
                    },
                    Some(q) => {
                        proof {
                            lemma_case_decreases(*s, *t as int);
                        }
                        conforms(q, p)
                    },
                }
            },
            _ => false,
        },
    }
}

fn conforms_items(item: &Shape, v: &Value) -> (r: bool)
    ensures
        r == (v.model() is List && forall|i: int|
            0 <= i < v.model()->List_0.len() ==> well_typed(*item, #[trigger] v.model()->List_0[i])),
    decreases item, 1nat,
{
    match v {
        Value::List(items) => {
            proof {
                assert(v.model() == Val::List(models(items@)));
            }
            let mut i: usize = 0;
            while i < items.len()
                invariant
                    *v == Value::List(*items),
                    v.model() == Val::List(models(items@)),
                    0 <= i <= items@.len(),
                    forall|j: int| 0 <= j < i ==> well_typed(*item, #[trigger] items@[j].model()),
                decreases items@.len() - i,
            {
                if !conforms(item, &items[i]) {
                    proof {
                        lemma_models_index(items@, i as int);
                        assert(!well_typed(*item, v.model()->List_0[i as int]));
                    }
                    return false;
                }
                i = i + 1;
            }
            proof {
                assert forall|j: int| 0 <= j < items@.len() implies well_typed(
                    *item,
                    #[trigger] v.model()->List_0[j],
                ) by {
                    lemma_models_index(items@, j);
                }
            }
            true
        },
        _ => false,
    }
}

/// Whether every fixed-size part of a value has its declared length (see
/// [`sizes_ok`]).
pub fn check_sizes(s: &Shape, v: &Value) -> (r: bool)
    ensures
        r == sizes_ok(*s, v.model()),
    decreases s, 0nat,
{
    match s {
        Shape::Scalar(k) => match k {
            ScalarKind::FixedSizeBinary(n) => match v {
                Value::Bytes(b) => {
                    proof {
                        assert(v.model() == Val::Bytes(b@));
                    }
                    b.len() == *n
                },
                _ => {
                    proof {
                        assert(!(v.model() is Bytes));
                    }
                    true
                },
            },
            _ => true,
        },
        Shape::Nullable(inner) => check_sizes(inner, v),
        Shape::List { item, .. } => {
            proof {
                assert(decreases_to!(*s => s->List_item));
            }
            check_item_sizes(item, v)
        },
        Shape::FixedList { item, size } => {
            proof {
                assert(decreases_to!(*s => s->FixedList_item));
            }
            match v {
                Value::List(items) => {
                    proof {
                        assert(v.model() == Val::List(models(items@)));
                    }
                    if items.len() != *size {
                        return false;
                    }
                    check_item_sizes(item, v)
                },
                _ => true,
            }
        },
        Shape::Struct(ms) => match v {
            Value::Struct(fields) => {
                proof {
                    assert(v.model() == Val::Struct(models(fields@)));
                }
                let mut i: usize = 0;
                while i < ms.len() && i < fields.len()
                    invariant
                        *s == Shape::Struct(*ms),
                        *v == Value::Struct(*fields),
                        v.model() == Val::Struct(models(fields@)),
                        0 <= i <= ms@.len(),
                        forall|j: int|
                            0 <= j < i && j < fields@.len() ==> sizes_ok(
                                #[trigger] ms@[j].shape,
                                fields@[j].model(),
                            ),
                    decreases ms@.len() - i,
                {
                    proof {
                        lemma_member_decreases(*s, i as int);
                    }
                    if !check_sizes(&ms[i].shape, &fields[i]) {
                        proof {
                            lemma_models_index(fields@, i as int);
                            assert(!sizes_ok(ms@[i as int].shape, v.model()->Struct_0[i as int]));
                        }
                        return false;
                    }
                    i = i + 1;
                }
                proof {
                    assert forall|j: int|
                        0 <= j < ms@.len() && j < v.model()->Struct_0.len() implies sizes_ok(
                        #[trigger] ms@[j].shape,
                        v.model()->Struct_0[j],
                    ) by {
                        lemma_models_index(fields@, j);
                    }
                }
                true
            },
            _ => true,
        },
        Shape::Union { cases, .. } => match v {
            Value::Union(t, p) => {
                proof {
                    assert(v.model() == Val::Union(*t as nat, Box::new(p.model())));
                }
                if *t >= cases.len() {
                    return true;
                }
                match &cases[*t].payload {
                    None => true,
                    Some(q) => {
                        proof {
                            lemma_case_decreases(*s, *t as int);
                        }
                        check_sizes(q, p)
                    },
                }
            },
            _ => true,
        },
    }
}

fn check_item_sizes(item: &Shape, v: &Value) -> (r: bool)
    ensures
        r == (v.model() is List ==> forall|i: int|
            0 <= i < v.model()->List_0.len() ==> sizes_ok(*item, #[trigger] v.model()->List_0[i])),
    decreases item, 1nat,
{
    match v {
        Value::List(items) => {
            proof {
                assert(v.model() == Val::List(models(items@)));
            }
            let mut i: usize = 0;
            while i < items.len()
                invariant
                    *v == Value::List(*items),
                    v.model() == Val::List(models(items@)),
                    0 <= i <= items@.len(),
                    forall|j: int| 0 <= j < i ==> sizes_ok(*item, #[trigger] items@[j].model()),
                decreases items@.len() - i,
            {
                if !check_sizes(item, &items[i]) {
                    proof {
                        lemma_models_index(items@, i as int);
                        assert(!sizes_ok(*item, v.model()->List_0[i as int]));
                    }
                    return false;
                }
                i = i + 1;
            }
            proof {
                assert forall|j: int| 0 <= j < items@.len() implies sizes_ok(
                    *item,
                    #[trigger] v.model()->List_0[j],
                ) by {
                    lemma_models_index(items@, j);
                }
            }
            true
        },
        _ => true,
    }
}

/// Whether a shape takes nulls.
pub fn is_nullable(s: &Shape) -> (r: bool)
    ensures
        r == (*s is Nullable),
{
    matches!(s, Shape::Nullable(_))
}

fn item_field(item: &Shape) -> (r: Field)
    ensures
        r.model() == (FieldModel {
            name: item_name(),
            data_type: logical(*item),
            nullable: *item is Nullable,
        }),
    decreases item, 1nat,
{
    let name = String::from_str("item");
    proof {
        reveal_strlit("item");
        assert(name@ =~= item_name());
    }
    Field { name, data_type: logical_type(item), nullable: is_nullable(item) }
}

/// The logical type of a shape.
pub fn logical_type(s: &Shape) -> (r: LogicalType)
    ensures
        r.model() == logical(*s),
    decreases s, 0nat,
{
    match s {
        Shape::Scalar(k) => LogicalType::Scalar(*k),
        Shape::Nullable(inner) => logical_type(inner),
        Shape::List { item, large } => {
            proof {
                assert(decreases_to!(*s => s->List_item));
            }
            LogicalType::List { item: Box::new(item_field(item)), large: *large }
        },
        Shape::FixedList { item, size } => {
            proof {
                assert(decreases_to!(*s => s->FixedList_item));
            }
            LogicalType::FixedList { item: Box::new(item_field(item)), size: *size }
        },
        Shape::Struct(ms) => {
            let mut fields: Vec<Field> = Vec::new();
            let mut i: usize = 0;
            while i < ms.len()
                invariant
                    *s == Shape::Struct(*ms),
                    0 <= i <= ms@.len(),
                    fields@.len() == i,
                    forall|j: int|
                        0 <= j < i ==> #[trigger] fields@[j].model() == logical(*s)->Struct_0[j],
                decreases ms@.len() - i,
            {
                proof {
                    lemma_member_decreases(*s, i as int);
                }
                let f = Field {
                    name: ms[i].name.clone(),
                    data_type: logical_type(&ms[i].shape),
                    nullable: is_nullable(&ms[i].shape),
                };
                fields.push(f);
                i = i + 1;
            }
            let r = LogicalType::Struct(fields);
            proof {
                assert forall|j: int| 0 <= j < fields@.len() implies field_models(fields@)[j]
                    == logical(*s)->Struct_0[j] by {
                    assert(fields@[j].model() == logical(*s)->Struct_0[j]);
                }
                assert(field_models(fields@) =~= logical(*s)->Struct_0);
            }
            r
        },
        Shape::Union { cases, mode } => {
            let mut fields: Vec<Field> = Vec::new();
            let mut i: usize = 0;
            while i < cases.len()
                invariant
                    *s == (Shape::Union { cases: *cases, mode: *mode }),
                    0 <= i <= cases@.len(),
                    fields@.len() == i,
                    forall|j: int|
                        0 <= j < i ==> #[trigger] fields@[j].model() == logical(*s)->Union_0[j],
                decreases cases@.len() - i,
            {
                let f = match &cases[i].payload {
                    Some(p) => {
                        proof {
                            lemma_case_decreases(*s, i as int);
                        }
                        Field {
                            name: cases[i].name.clone(),
                            data_type: logical_type(p),
                            nullable: is_nullable(p),
                        }
                    },
                    None => Field {
                        name: cases[i].name.clone(),
                        data_type: LogicalType::Scalar(ScalarKind::Boolean),
                        nullable: false,
                    },
                };
                fields.push(f);
                i = i + 1;
            }
            let r = LogicalType::Union { variants: fields, mode: *mode };
            proof {
                assert forall|j: int| 0 <= j < fields@.len() implies field_models(fields@)[j]
                    == logical(*s)->Union_0[j] by {
                    assert(fields@[j].model() == logical(*s)->Union_0[j]);
                }
                assert(field_models(fields@) =~= logical(*s)->Union_0);
            }
            r
        },
    }
}

} // verus!
