use arrow_convert::codec::{deserialize_collection, serialize_collection, Array, BuildError};
use arrow_convert::column::Column;
use arrow_convert::derive::{derive_shape, ContainerAttrs, DeriveField, DeriveStruct, FieldAttrs, TypeDecl};
use arrow_convert::shape::Shape;
use arrow_convert::types::{Field, LogicalType, ScalarKind};
use arrow_convert::value::Value;

fn attrs() -> ContainerAttrs {
    ContainerAttrs { mode: None, transparent: false, arrow_rename_all: None, serde_rename_all: None }
}

fn field(ident: &str, decl: TypeDecl) -> DeriveField {
    DeriveField { ident: Some(ident.to_string()), attrs: FieldAttrs { field_name: None, serde_rename: None }, decl }
}

fn scalar(k: ScalarKind) -> Box<Shape> {
    Box::new(Shape::Scalar(k))
}

fn item(t: LogicalType, nullable: bool) -> Box<Field> {
    Box::new(Field { name: "item".to_string(), data_type: t, nullable })
}

fn round_trip(shape: &Shape, rows: &Vec<Value>) -> (Array, Vec<Value>) {
    let arr = serialize_collection(shape, rows).unwrap();
    let back = deserialize_collection(shape, &arr).unwrap();
    (arr, back)
}

fn text(s: &str) -> Value {
    Value::Str(s.to_string())
}

fn bytes(b: &[u8]) -> Value {
    Value::Bytes(b.to_vec())
}

#[test]
fn test_nested_optional_struct_array() {
    let child = TypeDecl::Struct(DeriveStruct { fields: vec![field("a1", TypeDecl::Scalar(ScalarKind::Int64))], attrs: attrs() });
    let top = TypeDecl::Struct(DeriveStruct {
        fields: vec![field(
            "child_array",
            TypeDecl::List { item: Box::new(TypeDecl::Optional(Box::new(child))), large: false },
        )],
        attrs: attrs(),
    });
    let c = |x: i128| Value::Struct(vec![Value::Int(x)]);
    let values = vec![
        Value::Struct(vec![Value::List(vec![c(10), Value::Null, c(12), c(14)])]),
        Value::Struct(vec![Value::List(vec![Value::Null, Value::Null, Value::Null, Value::Null])]),
        Value::Struct(vec![Value::List(vec![Value::Null, Value::Null, c(12), Value::Null])]),
    ];
    let shape = derive_shape(&top).unwrap();
    let (_, back) = round_trip(&shape, &values);
    assert_eq!(values, back);
}

#[test]
fn test_large_string() {
    let strs = vec![text("1"), text("2")];
    let shape = Shape::Scalar(ScalarKind::LargeUtf8);
    let (b, back) = round_trip(&shape, &strs);
    assert_eq!(b.data_type, LogicalType::Scalar(ScalarKind::LargeUtf8));
    assert_eq!(back, strs);
}

#[test]
fn test_large_string_nested() {
    let strs = vec![Value::List(vec![text("1"), text("2")])];
    let shape = Shape::List { item: scalar(ScalarKind::LargeUtf8), large: false };
    let (b, back) = round_trip(&shape, &strs);
    assert_eq!(
        b.data_type,
        LogicalType::List { item: item(LogicalType::Scalar(ScalarKind::LargeUtf8), false), large: false }
    );
    assert_eq!(back, strs);
}

#[test]
fn test_large_binary() {
    let strs = vec![bytes(b"abc")];
    let shape = Shape::Scalar(ScalarKind::LargeBinary);
    let (b, back) = round_trip(&shape, &strs);
    assert_eq!(b.data_type, LogicalType::Scalar(ScalarKind::LargeBinary));
    assert_eq!(back, strs);
}

#[test]
fn test_large_binary_nested() {
    let strs = vec![Value::List(vec![bytes(b"abc"), bytes(b"abd")])];
    let shape = Shape::List { item: scalar(ScalarKind::LargeBinary), large: false };
    let (b, back) = round_trip(&shape, &strs);
    assert_eq!(
        b.data_type,
        LogicalType::List { item: item(LogicalType::Scalar(ScalarKind::LargeBinary), false), large: false }
    );
    assert_eq!(back, strs);
}

#[test]
fn test_fixed_size_binary() {
    let strs = vec![bytes(b"abc")];
    let shape = Shape::Scalar(ScalarKind::FixedSizeBinary(3));
    let (b, back) = round_trip(&shape, &strs);
    assert_eq!(b.data_type, LogicalType::Scalar(ScalarKind::FixedSizeBinary(3)));
    assert_eq!(back, strs);
}

#[test]
fn test_large_vec() {
    let ints = vec![Value::List(vec![Value::Int(1), Value::Int(2), Value::Int(3)])];
    let shape = Shape::List { item: scalar(ScalarKind::Int32), large: true };
    let (b, back) = round_trip(&shape, &ints);
    assert_eq!(
        b.data_type,
        LogicalType::List { item: item(LogicalType::Scalar(ScalarKind::Int32), false), large: true }
    );
    assert_eq!(back, ints);
}

#[test]
fn test_large_vec_nested() {
    let strs = vec![Value::List(vec![bytes(b"abc"), bytes(b"abd")])];
    let shape = Shape::List { item: scalar(ScalarKind::LargeBinary), large: true };
    let (b, back) = round_trip(&shape, &strs);
    assert_eq!(
        b.data_type,
        LogicalType::List { item: item(LogicalType::Scalar(ScalarKind::LargeBinary), false), large: true }
    );
    assert_eq!(back, strs);
}

#[test]
fn test_fixed_size_vec() {
    let ints = vec![Value::List(vec![Value::Int(1), Value::Int(2), Value::Int(3)])];
    let shape = Shape::FixedList { item: scalar(ScalarKind::Int32), size: 3 };
    let (b, back) = round_trip(&shape, &ints);
    assert_eq!(
        b.data_type,
        LogicalType::FixedList { item: item(LogicalType::Scalar(ScalarKind::Int32), false), size: 3 }
    );
    assert_eq!(back, ints);
}

#[test]
fn test_escaped_name() {
    let decl = TypeDecl::Struct(DeriveStruct { fields: vec![field("type", TypeDecl::Scalar(ScalarKind::Boolean))], attrs: attrs() });
    let shape = derive_shape(&decl).unwrap();
    let array = vec![Value::Struct(vec![Value::Bool(true)]), Value::Struct(vec![Value::Bool(false)])];
    let (b, back) = round_trip(&shape, &array);
    match &b.data_type {
        LogicalType::Struct(s) => assert_eq!(s[0].name, "type"),
        _ => unreachable!(),
    }
    assert_eq!(array, back);
}

#[test]
fn test_error_exceed_fixed_size_binary() {
    let strs = vec![bytes(b"abc")];
    let r = serialize_collection(&Shape::Scalar(ScalarKind::FixedSizeBinary(2)), &strs);
    assert!(r.is_err())
}

#[test]
fn struct_with_optional_text_round_trips() {
    let decl = TypeDecl::Struct(DeriveStruct {
        fields: vec![
            field("a", TypeDecl::Scalar(ScalarKind::Int64)),
            field("b", TypeDecl::Optional(Box::new(TypeDecl::Scalar(ScalarKind::Utf8)))),
        ],
        attrs: attrs(),
    });
    let shape = derive_shape(&decl).unwrap();
    let rows = vec![
        Value::Struct(vec![Value::Int(1), text("x")]),
        Value::Struct(vec![Value::Int(2), Value::Null]),
        Value::Struct(vec![Value::Int(3), text("y")]),
    ];
    let (arr, back) = round_trip(&shape, &rows);
    match &arr.column {
        Column::Struct { validity, children } => {
            assert_eq!(validity, &None);
            assert_eq!(children[0], Column::Leaf(vec![Value::Int(1), Value::Int(2), Value::Int(3)]));
            match &children[1] {
                Column::Leaf(v) => {
                    let valid: Vec<bool> = v.iter().map(|x| *x != Value::Null).collect();
                    assert_eq!(valid, vec![true, false, true]);
                }
                _ => panic!("expected a leaf column"),
            }
        }
        _ => panic!("expected a struct column"),
    }
    match &arr.data_type {
        LogicalType::Struct(fs) => {
            assert!(!fs[0].nullable);
            assert!(fs[1].nullable);
        }
        _ => panic!("expected a struct type"),
    }
    assert_eq!(back, rows);
}

#[test]
fn list_of_optional_ints_has_offsets() {
    let shape = Shape::List { item: Box::new(Shape::Nullable(scalar(ScalarKind::Int32))), large: false };
    let rows = vec![Value::List(vec![Value::Int(1), Value::Null, Value::Int(3)])];
    let (arr, back) = round_trip(&shape, &rows);
    match &arr.column {
        Column::List { offsets, validity, values } => {
            assert_eq!(offsets, &vec![0, 3]);
            assert_eq!(validity, &vec![true]);
            assert_eq!(**values, Column::Leaf(vec![Value::Int(1), Value::Null, Value::Int(3)]));
        }
        _ => panic!("expected a list column"),
    }
    assert_eq!(back, rows);
}

#[test]
fn fixed_list_rejects_wrong_length() {
    let shape = Shape::FixedList { item: scalar(ScalarKind::Int32), size: 3 };
    let rows = vec![Value::List(vec![Value::Int(1), Value::Int(2), Value::Int(3), Value::Int(4)])];
    assert_eq!(serialize_collection(&shape, &rows).unwrap_err(), BuildError::SizeMismatch);
    let mut b = arrow_convert::codec::ColumnBuilder::new(shape);
    assert_eq!(b.push(&rows[0]), Err(BuildError::SizeMismatch));
    assert_eq!(b.len(), 0);
    assert_eq!(b.push(&Value::List(vec![Value::Int(1), Value::Int(2), Value::Int(3)])), Ok(()));
    assert_eq!(b.len(), 1);
}

#[test]
fn null_rows_keep_children_aligned() {
    let inner = Shape::Struct(vec![arrow_convert::shape::Member { name: "v".to_string(), shape: Shape::Scalar(ScalarKind::Int8) }]);
    let shape = Shape::Nullable(Box::new(Shape::Struct(vec![
        arrow_convert::shape::Member { name: "s".to_string(), shape: Shape::Nullable(Box::new(inner)) },
        arrow_convert::shape::Member { name: "n".to_string(), shape: Shape::Scalar(ScalarKind::UInt16) },
    ])));
    let rows = vec![
        Value::Struct(vec![Value::Struct(vec![Value::Int(1)]), Value::Int(10)]),
        Value::Null,
        Value::Struct(vec![Value::Null, Value::Int(30)]),
    ];
    let (arr, back) = round_trip(&shape, &rows);
    match &arr.column {
        Column::Struct { validity, children } => {
            assert_eq!(validity, &Some(vec![true, false, true]));
            assert_eq!(children[1], Column::Leaf(vec![Value::Int(10), Value::Null, Value::Int(30)]));
            match &children[0] {
                Column::Struct { validity, children } => {
                    assert_eq!(validity, &Some(vec![true, false, false]));
                    assert_eq!(children[0], Column::Leaf(vec![Value::Int(1), Value::Null, Value::Null]));
                }
                _ => panic!("expected a struct column"),
            }
        }
        _ => panic!("expected a struct column"),
    }
    assert_eq!(back, rows);
}

#[test]
fn empty_collection_round_trips() {
    let shape = Shape::Scalar(ScalarKind::Int64);
    let (arr, back) = round_trip(&shape, &vec![]);
    assert_eq!(arr.column, Column::Leaf(vec![]));
    assert!(back.is_empty());
}

#[test]
fn nested_options_collapse_to_one_null() {
    let shape = Shape::Nullable(Box::new(Shape::Nullable(scalar(ScalarKind::Int16))));
    let rows = vec![Value::Int(5), Value::Null];
    let (arr, back) = round_trip(&shape, &rows);
    assert_eq!(arr.data_type, LogicalType::Scalar(ScalarKind::Int16));
    assert_eq!(back, rows);
}

#[test]
fn every_scalar_kind_round_trips() {
    let cases: Vec<(ScalarKind, Value)> = vec![
        (ScalarKind::Boolean, Value::Bool(true)),
        (ScalarKind::Int8, Value::Int(-128)),
        (ScalarKind::Int16, Value::Int(-32768)),
        (ScalarKind::Int32, Value::Int(i32::MAX as i128)),
        (ScalarKind::Int64, Value::Int(i64::MIN as i128)),
        (ScalarKind::UInt8, Value::Int(255)),
        (ScalarKind::UInt16, Value::Int(47800)),
        (ScalarKind::UInt32, Value::Int(u32::MAX as i128)),
        (ScalarKind::UInt64, Value::Int(u64::MAX as i128)),
        (ScalarKind::Float16, Value::Float(0x3c00)),
        (ScalarKind::Float32, Value::Float(f32::INFINITY.to_bits() as u64)),
        (ScalarKind::Float64, Value::Float(32.5f64.to_bits())),
        (ScalarKind::Date32, Value::Int(19000)),
        (ScalarKind::Timestamp { unit: arrow_convert::types::TimeUnit::Millisecond, utc: true }, Value::Int(1_000)),
        (ScalarKind::Decimal128 { precision: 32, scale: 32 }, Value::Int(-12345678901234567890)),
        (ScalarKind::Utf8, text("")),
        (ScalarKind::Binary, bytes(b"")),
    ];
    for (k, v) in cases {
        let shape = Shape::Nullable(Box::new(Shape::Scalar(k)));
        let rows = vec![v, Value::Null];
        let (_, back) = round_trip(&shape, &rows);
        assert_eq!(back, rows);
    }
}

#[test]
fn null_rows_are_rejected_under_a_type_that_is_not_nullable() {
    let required = Shape::Scalar(ScalarKind::Int32);
    let optional = Shape::Nullable(Box::new(Shape::Scalar(ScalarKind::Int32)));
    let arr = serialize_collection(&optional, &vec![Value::Int(1), Value::Null]).unwrap();
    let err = deserialize_collection(&required, &arr).unwrap_err();
    assert!(err.null_rows);
    assert_eq!(err.expected, arr.data_type);
    let err = arrow_convert::codec::deserialize_row(&required, &arr, 0).unwrap_err();
    assert!(err.null_rows);
    assert_eq!(deserialize_collection(&optional, &arr).unwrap(), vec![Value::Int(1), Value::Null]);
    let full = serialize_collection(&optional, &vec![Value::Int(1), Value::Int(2)]).unwrap();
    assert_eq!(deserialize_collection(&required, &full).unwrap(), vec![Value::Int(1), Value::Int(2)]);
    let other = Shape::Scalar(ScalarKind::Int64);
    assert!(!deserialize_collection(&other, &arr).unwrap_err().null_rows);
}
