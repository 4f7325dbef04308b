use arrow_convert::case::RenameRule;
use arrow_convert::codec::{serialize_collection, Array};
use arrow_convert::derive::{
    derive_shape, ContainerAttrs, DeriveEnum, DeriveField, DeriveStruct, DeriveVariant, FieldAttrs,
    TypeDecl,
};
use arrow_convert::types::{LogicalType, ScalarKind, UnionMode};
use arrow_convert::value::Value;

fn attrs() -> ContainerAttrs {
    ContainerAttrs { mode: None, transparent: false, arrow_rename_all: None, serde_rename_all: None }
}

fn field(ident: &str, decl: TypeDecl) -> DeriveField {
    DeriveField {
        ident: Some(ident.to_string()),
        attrs: FieldAttrs { field_name: None, serde_rename: None },
        decl,
    }
}

fn field_with(ident: &str, name: Option<&str>, serde: Option<&str>, decl: TypeDecl) -> DeriveField {
    DeriveField {
        ident: Some(ident.to_string()),
        attrs: FieldAttrs {
            field_name: name.map(|n| n.to_string()),
            serde_rename: serde.map(|n| n.to_string()),
        },
        decl,
    }
}

fn variant(ident: &str, serde: Option<&str>, fields: Vec<TypeDecl>) -> DeriveVariant {
    DeriveVariant { ident: ident.to_string(), serde_rename: serde.map(|n| n.to_string()), fields }
}

fn int32() -> TypeDecl {
    TypeDecl::Scalar(ScalarKind::Int32)
}

fn int64() -> TypeDecl {
    TypeDecl::Scalar(ScalarKind::Int64)
}

fn utf8() -> TypeDecl {
    TypeDecl::Scalar(ScalarKind::Utf8)
}

fn names(arr: &Array) -> Vec<String> {
    match &arr.data_type {
        LogicalType::Struct(fs) => fs.iter().map(|f| f.name.clone()).collect(),
        LogicalType::Union { variants, .. } => variants.iter().map(|f| f.name.clone()).collect(),
        _ => panic!("Expected a struct or union type"),
    }
}

fn build(decl: &TypeDecl, rows: Vec<Value>) -> Array {
    let shape = derive_shape(decl).unwrap();
    serialize_collection(&shape, &rows).unwrap()
}

fn int_and_text() -> Vec<Value> {
    vec![Value::Struct(vec![Value::Int(42), Value::Str("hello".to_string())])]
}

fn two_fields(first: &str, second: &str, a: ContainerAttrs) -> TypeDecl {
    TypeDecl::Struct(DeriveStruct { fields: vec![field(first, int32()), field(second, utf8())], attrs: a })
}

#[test]
fn test_serde_rename_field() {
    let decl = TypeDecl::Struct(DeriveStruct {
        fields: vec![
            field_with("my_field", None, Some("renamedField"), int32()),
            field("normal_field", utf8()),
        ],
        attrs: attrs(),
    });
    let n = names(&build(&decl, int_and_text()));
    assert!(n.contains(&"renamedField".to_string()));
    assert!(n.contains(&"normal_field".to_string()));
    assert!(!n.contains(&"my_field".to_string()));
}

#[test]
fn test_serde_rename_all_camel_case() {
    let a = ContainerAttrs { serde_rename_all: RenameRule::from_str("camelCase"), ..attrs() };
    let n = names(&build(&two_fields("my_field_name", "another_field", a), int_and_text()));
    assert!(n.contains(&"myFieldName".to_string()));
    assert!(n.contains(&"anotherField".to_string()));
}

#[test]
fn test_serde_rename_all_snake_case() {
    let a = ContainerAttrs { serde_rename_all: RenameRule::from_str("snake_case"), ..attrs() };
    let n = names(&build(&two_fields("MyFieldName", "AnotherField", a), int_and_text()));
    assert!(n.contains(&"my_field_name".to_string()));
    assert!(n.contains(&"another_field".to_string()));
}

#[test]
fn test_serde_rename_all_screaming_snake_case() {
    let a = ContainerAttrs { serde_rename_all: RenameRule::from_str("SCREAMING_SNAKE_CASE"), ..attrs() };
    let n = names(&build(&two_fields("my_field_name", "another_field", a), int_and_text()));
    assert!(n.contains(&"MY_FIELD_NAME".to_string()));
    assert!(n.contains(&"ANOTHER_FIELD".to_string()));
}

#[test]
fn test_serde_rename_all_pascal_case() {
    let a = ContainerAttrs { serde_rename_all: RenameRule::from_str("PascalCase"), ..attrs() };
    let n = names(&build(&two_fields("my_field_name", "another_field", a), int_and_text()));
    assert!(n.contains(&"MyFieldName".to_string()));
    assert!(n.contains(&"AnotherField".to_string()));
}

#[test]
fn test_serde_rename_all_kebab_case() {
    let a = ContainerAttrs { serde_rename_all: RenameRule::from_str("kebab-case"), ..attrs() };
    let n = names(&build(&two_fields("my_field_name", "another_field", a), int_and_text()));
    assert!(n.contains(&"my-field-name".to_string()));
    assert!(n.contains(&"another-field".to_string()));
}

#[test]
fn test_arrow_field_precedence_over_serde() {
    let decl = TypeDecl::Struct(DeriveStruct {
        fields: vec![field_with("my_field", Some("arrow_wins"), Some("serde_loses"), int32())],
        attrs: attrs(),
    });
    let n = names(&build(&decl, vec![Value::Struct(vec![Value::Int(42)])]));
    assert!(n.contains(&"arrow_wins".to_string()));
    assert!(!n.contains(&"serde_loses".to_string()));
    assert!(!n.contains(&"my_field".to_string()));
}

#[test]
fn test_serde_rename_precedence_over_rename_all() {
    let decl = TypeDecl::Struct(DeriveStruct {
        fields: vec![
            field_with("my_field_name", None, Some("explicit_name"), int32()),
            field("auto_renamed", utf8()),
        ],
        attrs: ContainerAttrs { serde_rename_all: Some(RenameRule::CamelCase), ..attrs() },
    });
    let n = names(&build(&decl, int_and_text()));
    assert!(n.contains(&"explicit_name".to_string()));
    assert!(n.contains(&"autoRenamed".to_string()));
}

#[test]
fn test_serde_rename_enum_variant() {
    let decl = TypeDecl::Enum(DeriveEnum {
        variants: vec![variant("VAL1", Some("FirstVariant"), vec![]), variant("VAL2", None, vec![int32()])],
        attrs: ContainerAttrs { mode: Some(UnionMode::Dense), ..attrs() },
    });
    let rows = vec![Value::Union(0, Box::new(Value::Null)), Value::Union(1, Box::new(Value::Int(42)))];
    let arr = build(&decl, rows);
    assert!(matches!(arr.data_type, LogicalType::Union { .. }), "Expected Union type");
    let n = names(&arr);
    assert!(n.contains(&"FirstVariant".to_string()));
    assert!(n.contains(&"VAL2".to_string()));
}

#[test]
fn test_serde_rename_all_enum() {
    let decl = TypeDecl::Enum(DeriveEnum {
        variants: vec![variant("FirstValue", None, vec![]), variant("SecondValue", None, vec![int32()])],
        attrs: ContainerAttrs {
            mode: Some(UnionMode::Sparse),
            serde_rename_all: Some(RenameRule::SnakeCase),
            ..attrs()
        },
    });
    let rows = vec![Value::Union(0, Box::new(Value::Null)), Value::Union(1, Box::new(Value::Int(42)))];
    let arr = build(&decl, rows);
    assert!(matches!(arr.data_type, LogicalType::Union { .. }), "Expected Union type");
    let n = names(&arr);
    assert!(n.contains(&"first_value".to_string()));
    assert!(n.contains(&"second_value".to_string()));
}

#[test]
fn test_round_trip_with_renames() {
    let decl = TypeDecl::Struct(DeriveStruct {
        fields: vec![
            field("user_name", utf8()),
            field("user_age", int32()),
            field_with("user_id", None, Some("ID"), int64()),
        ],
        attrs: ContainerAttrs { serde_rename_all: Some(RenameRule::CamelCase), ..attrs() },
    });
    let values = vec![
        Value::Struct(vec![Value::Str("Alice".to_string()), Value::Int(30), Value::Int(1)]),
        Value::Struct(vec![Value::Str("Bob".to_string()), Value::Int(25), Value::Int(2)]),
    ];
    let shape = derive_shape(&decl).unwrap();
    let arr = serialize_collection(&shape, &values).unwrap();
    assert_eq!(names(&arr), vec!["userName", "userAge", "ID"]);
    let round_trip = arrow_convert::codec::deserialize_collection(&shape, &arr).unwrap();
    assert_eq!(values, round_trip);
}

#[test]
fn test_no_serde_attributes() {
    let n = names(&build(&two_fields("my_field", "another_field", attrs()), int_and_text()));
    assert!(n.contains(&"my_field".to_string()));
    assert!(n.contains(&"another_field".to_string()));
}

#[test]
fn test_enum_round_trip_with_renames() {
    let decl = TypeDecl::Enum(DeriveEnum {
        variants: vec![variant("FirstVariant", None, vec![]), variant("SecondVariant", None, vec![int32()])],
        attrs: ContainerAttrs {
            mode: Some(UnionMode::Dense),
            serde_rename_all: Some(RenameRule::CamelCase),
            ..attrs()
        },
    });
    let values = vec![
        Value::Union(0, Box::new(Value::Null)),
        Value::Union(1, Box::new(Value::Int(42))),
        Value::Union(0, Box::new(Value::Null)),
    ];
    let shape = derive_shape(&decl).unwrap();
    let arr = serialize_collection(&shape, &values).unwrap();
    assert_eq!(names(&arr), vec!["firstVariant", "secondVariant"]);
    let round_trip = arrow_convert::codec::deserialize_collection(&shape, &arr).unwrap();
    assert_eq!(values, round_trip);
}

#[test]
fn test_arrow_field_rename_all() {
    let a = ContainerAttrs { arrow_rename_all: Some(RenameRule::CamelCase), ..attrs() };
    let n = names(&build(&two_fields("my_field_name", "another_field", a), int_and_text()));
    assert!(n.contains(&"myFieldName".to_string()));
    assert!(n.contains(&"anotherField".to_string()));
}

#[test]
fn test_arrow_field_rename_all_precedence_over_serde() {
    let a = ContainerAttrs {
        arrow_rename_all: Some(RenameRule::ScreamingSnakeCase),
        serde_rename_all: Some(RenameRule::CamelCase),
        ..attrs()
    };
    assert_eq!(a.rename_all(), Some(RenameRule::ScreamingSnakeCase));
    let n = names(&build(&two_fields("my_field_name", "another_field", a), int_and_text()));
    assert!(n.contains(&"MY_FIELD_NAME".to_string()));
    assert!(n.contains(&"ANOTHER_FIELD".to_string()));
}

#[test]
fn test_arrow_field_rename_all_enum() {
    let decl = TypeDecl::Enum(DeriveEnum {
        variants: vec![variant("FirstVariant", None, vec![]), variant("SecondVariant", None, vec![int32()])],
        attrs: ContainerAttrs {
            mode: Some(UnionMode::Dense),
            arrow_rename_all: RenameRule::from_str("kebab-case"),
            ..attrs()
        },
    });
    let rows = vec![Value::Union(0, Box::new(Value::Null)), Value::Union(1, Box::new(Value::Int(42)))];
    let arr = build(&decl, rows);
    assert!(matches!(arr.data_type, LogicalType::Union { .. }), "Expected Union type");
    let n = names(&arr);
    assert!(n.contains(&"first-variant".to_string()));
    assert!(n.contains(&"second-variant".to_string()));
}

#[test]
fn test_compound_serde_attributes() {
    let decl = TypeDecl::Struct(DeriveStruct {
        fields: vec![
            field_with("my_field", None, Some("renamedField"), int32()),
            field_with("optional", None, Some("optionalField"), TypeDecl::Optional(Box::new(utf8()))),
            field("normal_field", utf8()),
        ],
        attrs: attrs(),
    });
    let rows = vec![Value::Struct(vec![
        Value::Int(42),
        Value::Str("test".to_string()),
        Value::Str("hello".to_string()),
    ])];
    let n = names(&build(&decl, rows));
    assert!(n.contains(&"renamedField".to_string()));
    assert!(n.contains(&"optionalField".to_string()));
    assert!(n.contains(&"normal_field".to_string()));
    assert!(!n.contains(&"my_field".to_string()));
    assert!(!n.contains(&"optional".to_string()));
}

#[test]
fn test_compound_serde_with_rename_all() {
    let a = ContainerAttrs { serde_rename_all: Some(RenameRule::CamelCase), ..attrs() };
    let n = names(&build(&two_fields("my_field_name", "another_field", a), int_and_text()));
    assert!(n.contains(&"myFieldName".to_string()));
    assert!(n.contains(&"anotherField".to_string()));
}

#[test]
fn explicit_name_wins_over_container_camel_case() {
    let decl = TypeDecl::Struct(DeriveStruct {
        fields: vec![field_with("user_id", Some("the_id"), None, int64()), field("user_name", utf8())],
        attrs: ContainerAttrs { arrow_rename_all: Some(RenameRule::CamelCase), ..attrs() },
    });
    let rows = vec![Value::Struct(vec![Value::Int(7), Value::Str("x".to_string())])];
    assert_eq!(names(&build(&decl, rows)), vec!["the_id", "userName"]);
}

#[test]
fn effective_names_follow_precedence() {
    let f = field_with("my_field", Some("a"), Some("b"), int32());
    assert_eq!(f.effective_name(0, Some(RenameRule::UpperCase)), "a");
    let f = field_with("my_field", None, Some("b"), int32());
    assert_eq!(f.effective_name(0, Some(RenameRule::UpperCase)), "b");
    let f = field("my_field", int32());
    assert_eq!(f.effective_name(0, Some(RenameRule::UpperCase)), "MYFIELD");
    assert_eq!(f.effective_name(0, None), "my_field");
    let v = variant("MyCase", Some("renamed"), vec![]);
    assert_eq!(v.effective_name(Some(RenameRule::SnakeCase)), "renamed");
    let v = variant("MyCase", None, vec![]);
    assert_eq!(v.effective_name(Some(RenameRule::SnakeCase)), "my_case");
    assert_eq!(v.effective_name(None), "MyCase");
}

#[test]
fn unnamed_fields_are_named_by_position() {
    let positional = |decl: TypeDecl| DeriveField {
        ident: None,
        attrs: FieldAttrs { field_name: None, serde_rename: None },
        decl,
    };
    let f = positional(int32());
    assert_eq!(f.effective_name(0, None), "field_0");
    assert_eq!(f.effective_name(12, Some(RenameRule::CamelCase)), "field_12");
    assert_eq!(f.effective_name(305, None), "field_305");
    let decl = TypeDecl::Struct(DeriveStruct {
        fields: vec![positional(int32()), positional(utf8())],
        attrs: ContainerAttrs { serde_rename_all: Some(RenameRule::CamelCase), ..attrs() },
    });
    assert_eq!(names(&build(&decl, int_and_text())), vec!["field_0", "field_1"]);
}
