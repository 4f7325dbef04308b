use arrow_convert::codec::{deserialize_collection, deserialize_row, serialize_collection, Array, ColumnBuilder};
use arrow_convert::column::{check_layout, is_buildable, read_row, Column};
use arrow_convert::shape::{logical_type, Case, Member, Shape};
use arrow_convert::types::{LogicalType, ScalarKind, UnionMode};
use arrow_convert::value::Value;

fn nested() -> Shape {
    Shape::Nullable(Box::new(Shape::Struct(vec![
        Member { name: "id".to_string(), shape: Shape::Scalar(ScalarKind::UInt8) },
        Member {
            name: "tags".to_string(),
            shape: Shape::Nullable(Box::new(Shape::List {
                item: Box::new(Shape::Scalar(ScalarKind::Utf8)),
                large: false,
            })),
        },
        Member {
            name: "kind".to_string(),
            shape: Shape::Union {
                cases: vec![
                    Case { name: "a".to_string(), payload: Some(Shape::Scalar(ScalarKind::Int16)) },
                    Case { name: "b".to_string(), payload: None },
                ],
                mode: UnionMode::Dense,
            },
        },
    ])))
}

fn rows() -> Vec<Value> {
    vec![
        Value::Struct(vec![
            Value::Int(1),
            Value::List(vec![Value::Str("x".to_string()), Value::Str("y".to_string())]),
            Value::Union(0, Box::new(Value::Int(-3))),
        ]),
        Value::Null,
        Value::Struct(vec![Value::Int(3), Value::Null, Value::Union(1, Box::new(Value::Null))]),
    ]
}

#[test]
fn finish_cloned_keeps_the_builder_usable() {
    let mut b = ColumnBuilder::new(nested());
    let rs = rows();
    b.push(&rs[0]).unwrap();
    let snapshot = b.finish_cloned();
    b.push_null();
    b.push(&rs[2]).unwrap();
    assert_eq!(b.len(), 3);
    let shape = nested();
    assert_eq!(deserialize_collection(&shape, &snapshot).unwrap(), vec![rs[0].copy()]);
    let done = b.finish();
    assert_eq!(done.data_type, logical_type(&shape));
    assert_eq!(deserialize_collection(&shape, &done).unwrap(), rs);
}

#[test]
fn rows_read_one_at_a_time() {
    let shape = nested();
    let rs = rows();
    let arr = serialize_collection(&shape, &rs).unwrap();
    for (i, r) in rs.iter().enumerate() {
        assert_eq!(&deserialize_row(&shape, &arr, i).unwrap(), r);
        assert_eq!(&read_row(&shape, &arr.column, i), r);
    }
    let other = Shape::Scalar(ScalarKind::UInt8);
    let err = deserialize_row(&other, &arr, 0).unwrap_err();
    assert_eq!(err.expected, LogicalType::Scalar(ScalarKind::UInt8));
}

#[test]
fn layout_check_rejects_misaligned_columns() {
    let shape = nested();
    let arr = serialize_collection(&shape, &rows()).unwrap();
    assert!(check_layout(&shape, &arr.column));
    let short = Shape::Struct(vec![
        Member { name: "a".to_string(), shape: Shape::Scalar(ScalarKind::Int8) },
        Member { name: "b".to_string(), shape: Shape::Scalar(ScalarKind::Int8) },
    ]);
    let bad = Column::Struct {
        validity: None,
        children: vec![Column::Leaf(vec![Value::Int(1)]), Column::Leaf(vec![])],
    };
    assert!(!check_layout(&short, &bad));
    let list = Shape::List { item: Box::new(Shape::Scalar(ScalarKind::Int8)), large: false };
    let bad_offsets = Column::List {
        offsets: vec![0, 2, 1],
        validity: vec![true, true],
        values: Box::new(Column::Leaf(vec![Value::Int(1)])),
    };
    assert!(!check_layout(&list, &bad_offsets));
    let dense = Shape::Union {
        cases: vec![Case { name: "a".to_string(), payload: Some(Shape::Scalar(ScalarKind::Int8)) }],
        mode: UnionMode::Dense,
    };
    let bad_union = Column::Union {
        type_ids: vec![0],
        offsets: vec![1],
        children: vec![Column::Leaf(vec![Value::Int(1)])],
    };
    assert!(!check_layout(&dense, &bad_union));
    let arr = Array { data_type: logical_type(&dense), column: bad_union };
    assert!(!check_layout(&dense, &arr.column));
}

#[test]
fn empty_struct_and_union_are_not_buildable() {
    assert!(is_buildable(&nested()));
    assert!(!is_buildable(&Shape::Struct(vec![])));
    assert!(!is_buildable(&Shape::Union { cases: vec![], mode: UnionMode::Sparse }));
    assert!(!is_buildable(&Shape::Nullable(Box::new(Shape::Struct(vec![])))));
}

#[test]
fn struct_validity_is_created_on_the_first_null() {
    let shape = Shape::Struct(vec![Member { name: "v".to_string(), shape: Shape::Scalar(ScalarKind::Boolean) }]);
    let mut b = ColumnBuilder::new(shape);
    b.push(&Value::Struct(vec![Value::Bool(true)])).unwrap();
    b.push(&Value::Struct(vec![Value::Bool(false)])).unwrap();
    assert!(matches!(&b.column, Column::Struct { validity: None, .. }));
    b.push_null();
    b.push(&Value::Struct(vec![Value::Bool(true)])).unwrap();
    match &b.column {
        Column::Struct { validity, children } => {
            assert_eq!(validity, &Some(vec![true, true, false, true]));
            assert_eq!(
                children[0],
                Column::Leaf(vec![Value::Bool(true), Value::Bool(false), Value::Null, Value::Bool(true)])
            );
        }
        _ => panic!("expected a struct column"),
    }
}

#[test]
fn dense_offsets_count_earlier_rows_of_the_same_tag() {
    let shape = Shape::Union {
        cases: vec![
            Case { name: "a".to_string(), payload: Some(Shape::Scalar(ScalarKind::Int8)) },
            Case { name: "b".to_string(), payload: None },
        ],
        mode: UnionMode::Dense,
    };
    let mut b = ColumnBuilder::new(shape);
    b.push(&Value::Union(1, Box::new(Value::Null))).unwrap();
    b.push(&Value::Union(0, Box::new(Value::Int(4)))).unwrap();
    b.push_null();
    b.push(&Value::Union(1, Box::new(Value::Null))).unwrap();
    match &b.column {
        Column::Union { type_ids, offsets, children } => {
            assert_eq!(type_ids, &vec![1, 0, 0, 1]);
            assert_eq!(offsets, &vec![0, 0, 1, 1]);
            assert_eq!(children[0], Column::Leaf(vec![Value::Int(4), Value::Null]));
            assert_eq!(children[1], Column::Leaf(vec![Value::Bool(true), Value::Bool(true)]));
        }
        _ => panic!("expected a union column"),
    }
}
