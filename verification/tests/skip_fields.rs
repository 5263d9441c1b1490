use fory_codec::engine::Fory;
use fory_codec::engine::Reader;
use fory_codec::schema::FieldSchema;
use fory_codec::schema::TypeSchema;
use fory_codec::schema::VariantSchema;
use fory_codec::value::Value;

fn field(name: &str, skip: bool, ty: TypeSchema) -> FieldSchema {
    FieldSchema {
        name: name.to_string(),
        skip,
        ty,
    }
}

fn chars(s: &str) -> Vec<char> {
    s.chars().collect()
}

fn test_skip_fields_schema() -> TypeSchema {
    TypeSchema::Struct(vec![
        field("serialized_field", false, TypeSchema::I32),
        field("skipped_field", true, TypeSchema::Str),
        field("another_serialized", false, TypeSchema::F64),
    ])
}

fn nested_struct_schema() -> TypeSchema {
    TypeSchema::Struct(vec![field("value", false, TypeSchema::I32)])
}

#[test]
fn test_basic_skip_functionality() {
    let mut fory = Fory::default();
    fory.register(test_skip_fields_schema(), 1).unwrap();

    let original = Value::Struct(vec![
        Value::I32(42),
        Value::Str(chars("this should be skipped")),
        Value::F64Bits(3.14f64.to_bits()),
    ]);

    let bytes = fory.serialize(1, &original).unwrap();
    let decoded = fory.deserialize(1, &bytes).unwrap();
    let fields = match &decoded {
        Value::Struct(fields) => fields,
        other => panic!("expected a struct, got {:?}", other),
    };
    assert_eq!(fields[0], Value::I32(42));
    assert_eq!(fields[2], Value::F64Bits(3.14f64.to_bits()));
    assert_eq!(fields[1], Value::Str(Vec::new()));

    let mut buf: Vec<u8> = vec![];
    fory.serialize_to(1, &original, &mut buf).unwrap();
    let mut reader = Reader::new(&buf);
    let decoded = fory.deserialize_from(1, &mut reader).unwrap();
    let fields = match &decoded {
        Value::Struct(fields) => fields,
        other => panic!("expected a struct, got {:?}", other),
    };
    assert_eq!(fields[0], Value::I32(42));
    assert_eq!(fields[2], Value::F64Bits(3.14f64.to_bits()));
    assert_eq!(fields[1], Value::Str(Vec::new()));
}

#[test]
fn test_nested_skip_functionality() {
    let mut fory = Fory::default();
    let nested_skip_schema = TypeSchema::Struct(vec![
        field("normal_field", false, TypeSchema::I32),
        field("nested", false, nested_struct_schema()),
        field("skipped_nested", true, nested_struct_schema()),
    ]);
    fory.register(nested_skip_schema, 2).unwrap();
    fory.register(nested_struct_schema(), 3).unwrap();

    let original = Value::Struct(vec![
        Value::I32(100),
        Value::Struct(vec![Value::I32(200)]),
        Value::Struct(vec![Value::I32(300)]),
    ]);

    let bytes = fory.serialize(2, &original).unwrap();
    let decoded = fory.deserialize(2, &bytes).unwrap();
    let fields = match &decoded {
        Value::Struct(fields) => fields,
        other => panic!("expected a struct, got {:?}", other),
    };
    assert_eq!(fields[0], Value::I32(100));
    assert_eq!(fields[1], Value::Struct(vec![Value::I32(200)]));
    assert_eq!(fields[2], Value::Struct(vec![Value::I32(0)]));
}

#[test]
fn test_multiple_skip_fields() {
    let mut fory = Fory::default();
    let schema = TypeSchema::Struct(vec![
        field("field1", false, TypeSchema::I32),
        field("skipped1", true, TypeSchema::Str),
        field("field2", false, TypeSchema::F64),
        field("skipped2", true, TypeSchema::Bool),
        field("field3", false, TypeSchema::F32),
    ]);
    fory.register(schema, 3).unwrap();

    let original = Value::Struct(vec![
        Value::I32(42),
        Value::Str(chars("skipped string")),
        Value::F64Bits(2.71f64.to_bits()),
        Value::Bool(true),
        Value::F32Bits(255.9f32.to_bits()),
    ]);

    let bytes = fory.serialize(3, &original).unwrap();
    let decoded = fory.deserialize(3, &bytes).unwrap();
    let fields = match &decoded {
        Value::Struct(fields) => fields,
        other => panic!("expected a struct, got {:?}", other),
    };
    assert_eq!(fields[0], Value::I32(42));
    assert_eq!(fields[2], Value::F64Bits(2.71f64.to_bits()));
    assert_eq!(fields[4], Value::F32Bits(255.9f32.to_bits()));
    assert_eq!(fields[1], Value::Str(Vec::new()));
    assert_eq!(fields[3], Value::Bool(false));
}

#[test]
fn test_all_fields_skipped() {
    let mut fory = Fory::default();
    let schema = TypeSchema::Struct(vec![
        field("skipped1", true, TypeSchema::Str),
        field("skipped2", true, TypeSchema::I32),
        field("skipped3", true, TypeSchema::F64),
    ]);
    fory.register(schema, 4).unwrap();

    let original = Value::Struct(vec![
        Value::Str(chars("test1")),
        Value::I32(42),
        Value::F64Bits(3.14f64.to_bits()),
    ]);

    let bytes = fory.serialize(4, &original).unwrap();
    let decoded = fory.deserialize(4, &bytes).unwrap();
    let fields = match &decoded {
        Value::Struct(fields) => fields,
        other => panic!("expected a struct, got {:?}", other),
    };
    assert_eq!(fields[0], Value::Str(Vec::new()));
    assert_eq!(fields[1], Value::I32(0));
    assert_eq!(fields[2], Value::F64Bits(0));
}

#[test]
fn test_complex_nested_skip() {
    let mut fory = Fory::default();
    let schema = TypeSchema::Struct(vec![
        field("normal_field", false, TypeSchema::I32),
        field("skipped_field", true, TypeSchema::Str),
        field("nested", false, test_skip_fields_schema()),
        field("skipped_nested", true, test_skip_fields_schema()),
    ]);
    fory.register(schema, 5).unwrap();
    fory.register(test_skip_fields_schema(), 6).unwrap();

    let original = Value::Struct(vec![
        Value::I32(1),
        Value::Str(chars("should be skipped")),
        Value::Struct(vec![
            Value::I32(2),
            Value::Str(chars("nested skipped")),
            Value::F64Bits(1.41f64.to_bits()),
        ]),
        Value::Struct(vec![
            Value::I32(3),
            Value::Str(chars("completely skipped")),
            Value::F64Bits(2.71f64.to_bits()),
        ]),
    ]);

    let bytes = fory.serialize(5, &original).unwrap();
    let decoded = fory.deserialize(5, &bytes).unwrap();
    let fields = match &decoded {
        Value::Struct(fields) => fields,
        other => panic!("expected a struct, got {:?}", other),
    };
    assert_eq!(fields[0], Value::I32(1));
    let nested = match &fields[2] {
        Value::Struct(nested) => nested,
        other => panic!("expected a struct, got {:?}", other),
    };
    assert_eq!(nested[0], Value::I32(2));
    assert_eq!(nested[1], Value::Str(Vec::new()));
    assert_eq!(fields[1], Value::Str(Vec::new()));
    assert_eq!(
        fields[3],
        Value::Struct(vec![
            Value::I32(0),
            Value::Str(Vec::new()),
            Value::F64Bits(0),
        ])
    );
}

#[test]
fn test_enum_skip() {
    let mut fory = Fory::default();
    let unmarked = VariantSchema {
        skip: false,
        is_default: false,
    };
    let schema = TypeSchema::Enum(vec![
        unmarked, // Pending
        unmarked, // Active
        unmarked, // Inactive
        VariantSchema {
            skip: true,
            is_default: false,
        }, // Deleted
    ]);
    fory.register(schema, 6).unwrap();

    let original_v1 = Value::Enum(0);

    let bytes = fory.serialize(6, &original_v1).unwrap();
    let decoded = fory.deserialize(6, &bytes).unwrap();
    assert_eq!(original_v1, decoded);

    let original_skip = Value::Enum(3);
    let bytes = fory.serialize(6, &original_skip).unwrap();
    let decoded = fory.deserialize(6, &bytes).unwrap();
    assert_eq!(decoded, Value::Enum(0));
}

#[test]
fn test_skip_serialization_size() {
    let mut fory = Fory::default();
    fory.register(test_skip_fields_schema(), 10).unwrap();

    let with_skip = Value::Struct(vec![
        Value::I32(42),
        Value::Str(chars("this is a long string that should be skipped")),
        Value::F64Bits(3.14f64.to_bits()),
    ]);
    let no_skip_schema = TypeSchema::Struct(vec![
        field("serialized_field", false, TypeSchema::I32),
        field("skipped_field", false, TypeSchema::Str),
        field("another_serialized", false, TypeSchema::F64),
    ]);
    fory.register(no_skip_schema, 11).unwrap();

    let without_skip = Value::Struct(vec![
        Value::I32(42),
        Value::Str(chars("this is a long string that should be skipped")),
        Value::F64Bits(3.14f64.to_bits()),
    ]);

    let bytes_with_skip = fory.serialize(10, &with_skip).unwrap();
    let bytes_without_skip = fory.serialize(11, &without_skip).unwrap();

    assert!(
        bytes_with_skip.len() < bytes_without_skip.len(),
        "Skipped version should be smaller: {} < {}",
        bytes_with_skip.len(),
        bytes_without_skip.len()
    );
}

#[test]
fn test_skip_with_different_types() {
    let mut fory = Fory::default();
    let schema = TypeSchema::Struct(vec![
        field("field1", false, TypeSchema::I32),
        field("skipped_string", true, TypeSchema::Str),
        field("field2", false, TypeSchema::F64),
        field("skipped_bool", true, TypeSchema::Bool),
        field("field3", false, TypeSchema::I8),
        field(
            "skipped_vec",
            true,
            TypeSchema::List(Box::new(TypeSchema::I32)),
        ),
        field("field4", false, TypeSchema::I64),
    ]);
    fory.register(schema, 12).unwrap();

    let original = Value::Struct(vec![
        Value::I32(1),
        Value::Str(chars("test")),
        Value::F64Bits(2.0f64.to_bits()),
        Value::Bool(true),
        Value::I8(3),
        Value::List(vec![Value::I32(1), Value::I32(2), Value::I32(3)]),
        Value::I64(4),
    ]);
    let bytes = fory.serialize(12, &original).unwrap();
    let decoded = fory.deserialize(12, &bytes).unwrap();
    let fields = match &decoded {
        Value::Struct(fields) => fields,
        other => panic!("expected a struct, got {:?}", other),
    };

    assert_eq!(fields[0], Value::I32(1));
    assert_eq!(fields[2], Value::F64Bits(2.0f64.to_bits()));
    assert_eq!(fields[4], Value::I8(3));
    assert_eq!(fields[6], Value::I64(4));

    assert_eq!(fields[1], Value::Str(Vec::new()));
    assert_eq!(fields[3], Value::Bool(false));
    assert_eq!(fields[5], Value::List(Vec::new()));
}
