use arrow_convert::codec::{deserialize_collection, serialize_collection};
use arrow_convert::derive::{
    derive_field, derive_shape, ContainerAttrs, DeriveEnum, DeriveField, DeriveStruct, DeriveVariant,
    FieldAttrs, SchemaError, TypeDecl,
};
use arrow_convert::shape::{conforms, logical_type, Shape};
use arrow_convert::types::{Field, LogicalType, ScalarKind, TimeUnit, UnionMode};
use arrow_convert::value::Value;

fn attrs() -> ContainerAttrs {
    ContainerAttrs { mode: None, transparent: false, arrow_rename_all: None, serde_rename_all: None }
}

fn field(ident: &str, decl: TypeDecl) -> DeriveField {
    DeriveField { ident: Some(ident.to_string()), attrs: FieldAttrs { field_name: None, serde_rename: None }, decl }
}

fn naive() -> ScalarKind {
    ScalarKind::Timestamp { unit: TimeUnit::Nanosecond, utc: false }
}

fn utc() -> ScalarKind {
    ScalarKind::Timestamp { unit: TimeUnit::Nanosecond, utc: true }
}

fn one_field(name: &str, k: ScalarKind) -> TypeDecl {
    TypeDecl::Struct(DeriveStruct { fields: vec![field(name, TypeDecl::Scalar(k))], attrs: attrs() })
}

fn item(t: LogicalType) -> Box<Field> {
    Box::new(Field { name: "item".to_string(), data_type: t, nullable: false })
}

#[test]
fn test_naive_vs_utc_schema_differs() {
    let naive_dt = logical_type(&Shape::Scalar(naive()));
    let utc_dt = logical_type(&Shape::Scalar(utc()));
    assert_ne!(naive_dt, utc_dt);
    assert!(!naive_dt.equals(&utc_dt));
    assert_eq!(naive_dt, LogicalType::Scalar(ScalarKind::Timestamp { unit: TimeUnit::Nanosecond, utc: false }));
    assert_eq!(utc_dt, LogicalType::Scalar(ScalarKind::Timestamp { unit: TimeUnit::Nanosecond, utc: true }));
}

#[test]
fn test_datetime_utc_schema() {
    let f = derive_field(&TypeDecl::Scalar(utc()), "ts").unwrap();
    assert_eq!(f.data_type, LogicalType::Scalar(utc()));
    assert!(!f.nullable);
    let f = derive_field(&TypeDecl::Optional(Box::new(TypeDecl::Scalar(utc()))), "ts").unwrap();
    assert!(f.nullable);
}

#[test]
fn test_datetime_utc_vec_schema() {
    let shape = derive_shape(&TypeDecl::List { item: Box::new(TypeDecl::Scalar(utc())), large: false }).unwrap();
    assert_eq!(
        logical_type(&shape),
        LogicalType::List { item: item(LogicalType::Scalar(utc())), large: false }
    );
}

#[test]
fn test_datetime_utc_to_naive_mismatch_error() {
    let rows = vec![Value::Int(1_000_000_000_000), Value::Int(2_000_000_000_000)];
    let arr = serialize_collection(&Shape::Scalar(utc()), &rows).unwrap();
    let err = deserialize_collection(&Shape::Scalar(naive()), &arr).unwrap_err();
    assert_eq!(err.expected, LogicalType::Scalar(naive()));
    assert_eq!(err.actual, LogicalType::Scalar(utc()));
}

#[test]
fn test_naive_to_datetime_utc_mismatch_error() {
    let rows = vec![Value::Int(1_000_000_000_000), Value::Int(2_000_000_000_000)];
    let arr = serialize_collection(&Shape::Scalar(naive()), &rows).unwrap();
    let err = deserialize_collection(&Shape::Scalar(utc()), &arr).unwrap_err();
    assert_eq!(err.expected, LogicalType::Scalar(utc()));
    assert_eq!(err.actual, LogicalType::Scalar(naive()));
}

#[test]
fn test_struct_datetime_mismatch() {
    let with_utc = derive_shape(&one_field("ts", utc())).unwrap();
    let with_naive = derive_shape(&one_field("ts", naive())).unwrap();
    let arr = serialize_collection(&with_utc, &vec![Value::Struct(vec![Value::Int(1_000_000_000_000)])]).unwrap();
    let err = deserialize_collection(&with_naive, &arr).unwrap_err();
    assert_eq!(err.expected, logical_type(&with_naive));
    assert_eq!(err.actual, logical_type(&with_utc));
}

#[test]
fn test_datetime_utc_struct_schema() {
    let decl = TypeDecl::Struct(DeriveStruct {
        fields: vec![
            field("naive_ts", TypeDecl::Scalar(naive())),
            field("utc_ts", TypeDecl::Scalar(utc())),
            field("optional_utc_ts", TypeDecl::Optional(Box::new(TypeDecl::Scalar(utc())))),
            field("utc_ts_list", TypeDecl::List { item: Box::new(TypeDecl::Scalar(utc())), large: false }),
        ],
        attrs: attrs(),
    });
    let f = |name: &str, t: LogicalType, nullable: bool| Field { name: name.to_string(), data_type: t, nullable };
    assert_eq!(
        logical_type(&derive_shape(&decl).unwrap()),
        LogicalType::Struct(vec![
            f("naive_ts", LogicalType::Scalar(naive()), false),
            f("utc_ts", LogicalType::Scalar(utc()), false),
            f("optional_utc_ts", LogicalType::Scalar(utc()), true),
            f("utc_ts_list", LogicalType::List { item: item(LogicalType::Scalar(utc())), large: false }, false),
        ])
    );
}

#[test]
fn test_deserialize_schema_mismatch_error() {
    let s1 = derive_shape(&one_field("a", ScalarKind::Int64)).unwrap();
    let s2 = derive_shape(&one_field("a", ScalarKind::Utf8)).unwrap();
    let arr1 = serialize_collection(&s1, &vec![Value::Struct(vec![Value::Int(1)]), Value::Struct(vec![Value::Int(2)])]).unwrap();
    let err = deserialize_collection(&s2, &arr1).unwrap_err();
    assert_eq!(err.expected, logical_type(&s2));
    assert_eq!(err.actual, logical_type(&s1));
}

#[test]
fn test_deserialize_large_types_schema_mismatch_error() {
    let s1 = derive_shape(&one_field("a", ScalarKind::Utf8)).unwrap();
    let s2 = derive_shape(&one_field("a", ScalarKind::LargeUtf8)).unwrap();
    let rows = vec![
        Value::Struct(vec![Value::Str("123".to_string())]),
        Value::Struct(vec![Value::Str("333".to_string())]),
    ];
    let arr1 = serialize_collection(&s1, &rows).unwrap();
    let err = deserialize_collection(&s2, &arr1).unwrap_err();
    assert_eq!(err.expected, logical_type(&s2));
    assert_eq!(err.actual, logical_type(&s1));
}

#[test]
fn test_large_string_schema() {
    let f = derive_field(&TypeDecl::Scalar(ScalarKind::LargeUtf8), "s").unwrap();
    assert_eq!(f.data_type, LogicalType::Scalar(ScalarKind::LargeUtf8));
    assert!(!f.nullable);
    let f = derive_field(&TypeDecl::Optional(Box::new(TypeDecl::Scalar(ScalarKind::LargeUtf8))), "s").unwrap();
    assert!(f.nullable);
    let f = derive_field(&TypeDecl::List { item: Box::new(TypeDecl::Scalar(ScalarKind::LargeUtf8)), large: false }, "s").unwrap();
    assert_eq!(f.data_type, LogicalType::List { item: item(LogicalType::Scalar(ScalarKind::LargeUtf8)), large: false });
}

#[test]
fn field_names_and_nullability_are_part_of_the_type() {
    let a = derive_shape(&one_field("a", ScalarKind::Int64)).unwrap();
    let b = derive_shape(&one_field("b", ScalarKind::Int64)).unwrap();
    assert!(!logical_type(&a).equals(&logical_type(&b)));
    let opt = TypeDecl::Struct(DeriveStruct {
        fields: vec![field("a", TypeDecl::Optional(Box::new(TypeDecl::Scalar(ScalarKind::Int64))))],
        attrs: attrs(),
    });
    let c = derive_shape(&opt).unwrap();
    assert!(!logical_type(&a).equals(&logical_type(&c)));
    assert!(logical_type(&a).equals(&logical_type(&a).copy()));
}

fn unit(ident: &str) -> DeriveVariant {
    DeriveVariant { ident: ident.to_string(), serde_rename: None, fields: vec![] }
}

#[test]
fn enum_without_mode_is_an_error() {
    let decl = TypeDecl::Enum(DeriveEnum { variants: vec![unit("A")], attrs: attrs() });
    assert_eq!(derive_shape(&decl).unwrap_err(), SchemaError::MissingUnionMode);
}

#[test]
fn multi_field_case_is_an_error() {
    let decl = TypeDecl::Enum(DeriveEnum {
        variants: vec![DeriveVariant {
            ident: "Two".to_string(),
            serde_rename: None,
            fields: vec![TypeDecl::Scalar(ScalarKind::Int8), TypeDecl::Scalar(ScalarKind::Int8)],
        }],
        attrs: ContainerAttrs { mode: Some(UnionMode::Dense), ..attrs() },
    });
    assert_eq!(derive_shape(&decl).unwrap_err(), SchemaError::MultiFieldVariant);
}

#[test]
fn empty_enum_and_struct_are_errors() {
    let decl = TypeDecl::Enum(DeriveEnum { variants: vec![], attrs: ContainerAttrs { mode: Some(UnionMode::Sparse), ..attrs() } });
    assert_eq!(derive_shape(&decl).unwrap_err(), SchemaError::EmptyEnum);
    let decl = TypeDecl::Struct(DeriveStruct { fields: vec![], attrs: attrs() });
    assert_eq!(derive_shape(&decl).unwrap_err(), SchemaError::EmptyStruct);
}

#[test]
fn duplicate_names_are_an_error() {
    let decl = TypeDecl::Struct(DeriveStruct {
        fields: vec![field("my_field", TypeDecl::Scalar(ScalarKind::Int8)), field("myField", TypeDecl::Scalar(ScalarKind::Int8))],
        attrs: ContainerAttrs { serde_rename_all: Some(arrow_convert::case::RenameRule::CamelCase), ..attrs() },
    });
    assert_eq!(derive_shape(&decl).unwrap_err(), SchemaError::DuplicateName);
    let decl = TypeDecl::Enum(DeriveEnum { variants: vec![unit("A"), unit("A")], attrs: ContainerAttrs { mode: Some(UnionMode::Dense), ..attrs() } });
    assert_eq!(derive_field(&decl, "e").unwrap_err(), SchemaError::DuplicateName);
}

#[test]
fn transparent_struct_is_its_field() {
    let decl = TypeDecl::Struct(DeriveStruct {
        fields: vec![field("0", TypeDecl::Scalar(ScalarKind::UInt32))],
        attrs: ContainerAttrs { transparent: true, ..attrs() },
    });
    let shape = derive_shape(&decl).unwrap();
    assert_eq!(logical_type(&shape), LogicalType::Scalar(ScalarKind::UInt32));
    let decl = TypeDecl::Struct(DeriveStruct {
        fields: vec![field("a", TypeDecl::Scalar(ScalarKind::UInt32)), field("b", TypeDecl::Scalar(ScalarKind::UInt32))],
        attrs: ContainerAttrs { transparent: true, ..attrs() },
    });
    assert_eq!(derive_shape(&decl).unwrap_err(), SchemaError::TransparentNotSingle);
}

#[test]
fn errors_inside_members_surface() {
    let bad = TypeDecl::Enum(DeriveEnum { variants: vec![unit("A")], attrs: attrs() });
    let decl = TypeDecl::List { item: Box::new(TypeDecl::Optional(Box::new(bad))), large: false };
    assert_eq!(derive_shape(&decl).unwrap_err(), SchemaError::MissingUnionMode);
}

#[test]
fn conforms_checks_kinds_and_ranges() {
    assert!(conforms(&Shape::Scalar(ScalarKind::Int8), &Value::Int(127)));
    assert!(!conforms(&Shape::Scalar(ScalarKind::Int8), &Value::Int(128)));
    assert!(!conforms(&Shape::Scalar(ScalarKind::UInt64), &Value::Int(-1)));
    assert!(conforms(&Shape::Scalar(ScalarKind::Float32), &Value::Float(1.5f32.to_bits() as u64)));
    assert!(!conforms(&Shape::Scalar(ScalarKind::Utf8), &Value::Null));
    assert!(conforms(&Shape::Nullable(Box::new(Shape::Scalar(ScalarKind::Utf8))), &Value::Null));
    let s = Shape::Struct(vec![arrow_convert::shape::Member { name: "a".to_string(), shape: Shape::Scalar(ScalarKind::Boolean) }]);
    assert!(conforms(&s, &Value::Struct(vec![Value::Bool(true)])));
    assert!(!conforms(&s, &Value::Struct(vec![])));
    assert!(!conforms(&s, &Value::Struct(vec![Value::Int(1)])));
}
