use fory_codec::engine::Fory;
use fory_codec::engine::Reader;
use fory_codec::err::CodecError;
use fory_codec::schema::FieldSchema;
use fory_codec::schema::TypeSchema;
use fory_codec::schema::VariantSchema;
use fory_codec::value::Value;

fn field(name: &str, skip: bool, ty: TypeSchema) -> FieldSchema {
    FieldSchema {
        name: name.to_string(),
        skip,
        ty,
    }
}

fn chars(s: &str) -> Vec<char> {
    s.chars().collect()
}

fn plain_variant() -> VariantSchema {
    VariantSchema {
        skip: false,
        is_default: false,
    }
}

#[test]
fn struct_skip_scenario() {
    // serialized_field: i32 = 42, skip skipped_field: String = "x",
    // another_serialized: f64 = 3.14 decodes to (42, "", 3.14).
    let mut fory = Fory::default();
    let schema = TypeSchema::Struct(vec![
        field("serialized_field", false, TypeSchema::I32),
        field("skipped_field", true, TypeSchema::Str),
        field("another_serialized", false, TypeSchema::F64),
    ]);
    fory.register(schema, 1).unwrap();
    let original = Value::Struct(vec![
        Value::I32(42),
        Value::Str(chars("x")),
        Value::F64Bits(3.14f64.to_bits()),
    ]);
    let bytes = fory.serialize(1, &original).unwrap();
    let decoded = fory.deserialize(1, &bytes).unwrap();
    assert_eq!(
        decoded,
        Value::Struct(vec![
            Value::I32(42),
            Value::Str(Vec::new()),
            Value::F64Bits(3.14f64.to_bits()),
        ])
    );
}

#[test]
fn enum_default_fallback_scenario() {
    // Pending, Active (default), Inactive, skip Deleted: serializing
    // Deleted and deserializing yields Active.
    let mut fory = Fory::default();
    let schema = TypeSchema::Enum(vec![
        plain_variant(), // Pending
        VariantSchema {
            skip: false,
            is_default: true,
        }, // Active
        plain_variant(), // Inactive
        VariantSchema {
            skip: true,
            is_default: false,
        }, // Deleted
    ]);
    fory.register(schema, 1).unwrap();
    let bytes = fory.serialize(1, &Value::Enum(3)).unwrap();
    let decoded = fory.deserialize(1, &bytes).unwrap();
    assert_eq!(decoded, Value::Enum(1));

    // Non-skipped variants round-trip exactly.
    for ordinal in 0..3u32 {
        let bytes = fory.serialize(1, &Value::Enum(ordinal)).unwrap();
        assert_eq!(fory.deserialize(1, &bytes).unwrap(), Value::Enum(ordinal));
    }
}

#[test]
fn enum_wire_bytes_exact() {
    // Type id 1 with the enum tag 10: 1 * 256 + 10 = 266, whose varint is
    // [0x8A, 0x02]; ordinal 0 follows as a single byte.
    let mut fory = Fory::default();
    let schema = TypeSchema::Enum(vec![plain_variant(), plain_variant()]);
    fory.register(schema, 1).unwrap();
    let bytes = fory.serialize(1, &Value::Enum(0)).unwrap();
    assert_eq!(bytes, vec![0x8A, 0x02, 0x00]);
}

#[test]
fn struct_wire_bytes_exact() {
    // Type id 2 with the struct tag 12: 2 * 256 + 12 = 524, whose varint
    // is [0x8C, 0x04]; the single i32 field 5 follows as one byte.
    let mut fory = Fory::default();
    let schema = TypeSchema::Struct(vec![field("a", false, TypeSchema::I32)]);
    fory.register(schema, 2).unwrap();
    let bytes = fory
        .serialize(2, &Value::Struct(vec![Value::I32(5)]))
        .unwrap();
    assert_eq!(bytes, vec![0x8C, 0x04, 0x05]);
}

#[test]
fn negative_i32_wire_bytes_exact() {
    // -1 is written as the varint of 0xFFFF_FFFF: four 0xFF bytes and 0x0F.
    let mut fory = Fory::default();
    let schema = TypeSchema::Struct(vec![field("a", false, TypeSchema::I32)]);
    fory.register(schema, 2).unwrap();
    let bytes = fory
        .serialize(2, &Value::Struct(vec![Value::I32(-1)]))
        .unwrap();
    assert_eq!(bytes, vec![0x8C, 0x04, 0xFF, 0xFF, 0xFF, 0xFF, 0x0F]);
}

#[test]
fn extreme_integers_round_trip() {
    let mut fory = Fory::default();
    let schema = TypeSchema::Struct(vec![
        field("a", false, TypeSchema::I8),
        field("b", false, TypeSchema::I32),
        field("c", false, TypeSchema::I64),
    ]);
    fory.register(schema, 7).unwrap();
    for v in [
        Value::Struct(vec![
            Value::I8(i8::MIN),
            Value::I32(i32::MIN),
            Value::I64(i64::MIN),
        ]),
        Value::Struct(vec![
            Value::I8(i8::MAX),
            Value::I32(i32::MAX),
            Value::I64(i64::MAX),
        ]),
        Value::Struct(vec![Value::I8(-1), Value::I32(-1), Value::I64(-1)]),
    ] {
        let bytes = fory.serialize(7, &v).unwrap();
        assert_eq!(fory.deserialize(7, &bytes).unwrap(), v);
    }
}

#[test]
fn unicode_string_round_trip() {
    let mut fory = Fory::default();
    let schema = TypeSchema::Struct(vec![field("s", false, TypeSchema::Str)]);
    fory.register(schema, 3).unwrap();
    let original = Value::Struct(vec![Value::Str(chars("héllo € 漢字"))]);
    let bytes = fory.serialize(3, &original).unwrap();
    assert_eq!(fory.deserialize(3, &bytes).unwrap(), original);
}

#[test]
fn empty_string_and_list_round_trip() {
    let mut fory = Fory::default();
    let schema = TypeSchema::Struct(vec![
        field("s", false, TypeSchema::Str),
        field("l", false, TypeSchema::List(Box::new(TypeSchema::I64))),
    ]);
    fory.register(schema, 3).unwrap();
    let original = Value::Struct(vec![Value::Str(Vec::new()), Value::List(Vec::new())]);
    let bytes = fory.serialize(3, &original).unwrap();
    assert_eq!(fory.deserialize(3, &bytes).unwrap(), original);
}

#[test]
fn unknown_ordinal_rejected() {
    // The table has ordinals {0, 1, 2}; an input encoding 99 is an error,
    // never a default.
    let mut fory = Fory::default();
    let schema = TypeSchema::Enum(vec![plain_variant(), plain_variant(), plain_variant()]);
    fory.register(schema, 1).unwrap();
    let mut bytes = fory.serialize(1, &Value::Enum(0)).unwrap();
    let last = bytes.len() - 1;
    bytes[last] = 99;
    assert_eq!(
        fory.deserialize(1, &bytes),
        Err(CodecError::UnknownEnumValue)
    );
}

#[test]
fn skipped_variant_ordinal_rejected() {
    // A skip-marked variant donates its ordinal to the default, so its
    // own declaration position never names a decodable entry.
    let mut fory = Fory::default();
    let schema = TypeSchema::Enum(vec![
        plain_variant(),
        plain_variant(),
        VariantSchema {
            skip: true,
            is_default: false,
        },
    ]);
    fory.register(schema, 1).unwrap();
    let mut bytes = fory.serialize(1, &Value::Enum(0)).unwrap();
    let last = bytes.len() - 1;
    bytes[last] = 2;
    assert_eq!(
        fory.deserialize(1, &bytes),
        Err(CodecError::UnknownEnumValue)
    );
}

#[test]
fn truncated_input_rejected() {
    let mut fory = Fory::default();
    let schema = TypeSchema::Struct(vec![
        field("a", false, TypeSchema::I32),
        field("b", false, TypeSchema::Str),
    ]);
    fory.register(schema, 4).unwrap();
    let original = Value::Struct(vec![Value::I32(7), Value::Str(chars("abc"))]);
    let bytes = fory.serialize(4, &original).unwrap();
    let truncated = &bytes[..bytes.len() - 1];
    assert_eq!(
        fory.deserialize(4, truncated),
        Err(CodecError::MalformedData)
    );
}

#[test]
fn malformed_bool_rejected() {
    let mut fory = Fory::default();
    let schema = TypeSchema::Struct(vec![field("b", false, TypeSchema::Bool)]);
    fory.register(schema, 4).unwrap();
    let mut bytes = fory
        .serialize(4, &Value::Struct(vec![Value::Bool(true)]))
        .unwrap();
    let last = bytes.len() - 1;
    bytes[last] = 2;
    assert_eq!(
        fory.deserialize(4, &bytes),
        Err(CodecError::MalformedData)
    );
}

#[test]
fn duplicate_type_id_rejected() {
    let mut fory = Fory::default();
    let schema_a = TypeSchema::Struct(vec![field("a", false, TypeSchema::I32)]);
    let schema_b = TypeSchema::Struct(vec![field("b", false, TypeSchema::I64)]);
    fory.register(schema_a, 1).unwrap();
    assert_eq!(
        fory.register(schema_b, 1),
        Err(CodecError::DuplicateTypeId)
    );
}

#[test]
fn multiple_default_variants_rejected() {
    let mut fory = Fory::default();
    let marked = VariantSchema {
        skip: false,
        is_default: true,
    };
    let schema = TypeSchema::Enum(vec![marked, marked]);
    assert_eq!(
        fory.register(schema, 1),
        Err(CodecError::MultipleDefaultVariants)
    );
}

#[test]
fn oversized_type_id_rejected() {
    let mut fory = Fory::default();
    let schema = TypeSchema::Struct(vec![field("a", false, TypeSchema::I32)]);
    assert_eq!(
        fory.register(schema, 0x100_0000),
        Err(CodecError::TypeIdTooLarge)
    );
}

#[test]
fn invalid_declarations_rejected() {
    let mut fory = Fory::default();
    // A scalar cannot be registered as a root type.
    assert_eq!(
        fory.register(TypeSchema::I32, 1),
        Err(CodecError::InvalidSchema)
    );
    // The implicit default variant (position zero) must not be skip-marked.
    let schema = TypeSchema::Enum(vec![
        VariantSchema {
            skip: true,
            is_default: false,
        },
        plain_variant(),
    ]);
    assert_eq!(fory.register(schema, 1), Err(CodecError::InvalidSchema));
    // Field names must be distinct.
    let schema = TypeSchema::Struct(vec![
        field("a", false, TypeSchema::I32),
        field("a", false, TypeSchema::I64),
    ]);
    assert_eq!(fory.register(schema, 1), Err(CodecError::InvalidSchema));
}

#[test]
fn unknown_type_id_rejected() {
    let fory = Fory::default();
    assert_eq!(
        fory.serialize(9, &Value::I32(1)),
        Err(CodecError::UnknownTypeId)
    );
    assert_eq!(
        fory.deserialize(9, &[0u8]),
        Err(CodecError::UnknownTypeId)
    );
}

#[test]
fn mismatched_value_rejected() {
    let mut fory = Fory::default();
    let schema = TypeSchema::Struct(vec![field("a", false, TypeSchema::I32)]);
    fory.register(schema, 1).unwrap();
    assert_eq!(
        fory.serialize(1, &Value::Bool(true)),
        Err(CodecError::ValueMismatch)
    );
}

#[test]
fn type_info_mismatch_rejected() {
    let mut fory = Fory::default();
    let schema_a = TypeSchema::Struct(vec![field("a", false, TypeSchema::I32)]);
    let schema_b = TypeSchema::Struct(vec![field("a", false, TypeSchema::I32)]);
    fory.register(schema_a, 1).unwrap();
    fory.register(schema_b, 2).unwrap();
    let bytes = fory
        .serialize(1, &Value::Struct(vec![Value::I32(9)]))
        .unwrap();
    assert_eq!(
        fory.deserialize(2, &bytes),
        Err(CodecError::TypeInfoMismatch)
    );
}

#[test]
fn by_name_round_trip_and_mismatch() {
    let mut fory = Fory::default();
    let schema = TypeSchema::Struct(vec![field("a", false, TypeSchema::I32)]);
    fory.register_by_name(schema, 1, "ExampleRecord").unwrap();
    let original = Value::Struct(vec![Value::I32(11)]);
    let bytes = fory.serialize(1, &original).unwrap();
    assert_eq!(fory.deserialize(1, &bytes).unwrap(), original);

    let mut other = Fory::default();
    let schema = TypeSchema::Struct(vec![field("a", false, TypeSchema::I32)]);
    other.register_by_name(schema, 1, "OtherRecord").unwrap();
    assert_eq!(
        other.deserialize(1, &bytes),
        Err(CodecError::TypeInfoMismatch)
    );
}

#[test]
fn compatible_mode_round_trip() {
    let mut fory = Fory::with_compatible(true);
    let schema = TypeSchema::Struct(vec![field("a", false, TypeSchema::I32)]);
    fory.register(schema, 2).unwrap();
    let original = Value::Struct(vec![Value::I32(5)]);
    let bytes = fory.serialize(2, &original).unwrap();
    // The compatible struct tag is 13: 2 * 256 + 13 = 525 = [0x8D, 0x04].
    assert_eq!(bytes, vec![0x8D, 0x04, 0x05]);
    assert_eq!(fory.deserialize(2, &bytes).unwrap(), original);
}

#[test]
fn field_order_is_sorted_by_name() {
    // Fields are written sorted by name, independent of declaration
    // order: "a" before "b" even when "b" is declared first.
    let mut fory = Fory::default();
    let schema = TypeSchema::Struct(vec![
        field("b", false, TypeSchema::I32),
        field("a", false, TypeSchema::I32),
    ]);
    fory.register(schema, 1).unwrap();
    let bytes = fory
        .serialize(1, &Value::Struct(vec![Value::I32(1), Value::I32(2)]))
        .unwrap();
    // Type info for id 1 (1 * 256 + 12 = 268, varint [0x8C, 0x02]), then
    // field "a" (value 2), then field "b" (value 1).
    assert_eq!(bytes, vec![0x8C, 0x02, 0x02, 0x01]);
}

#[test]
fn reader_advances_across_values() {
    let mut fory = Fory::default();
    let schema = TypeSchema::Struct(vec![field("a", false, TypeSchema::I32)]);
    fory.register(schema, 1).unwrap();
    let first = Value::Struct(vec![Value::I32(10)]);
    let second = Value::Struct(vec![Value::I32(20)]);
    let mut buf: Vec<u8> = vec![];
    fory.serialize_to(1, &first, &mut buf).unwrap();
    fory.serialize_to(1, &second, &mut buf).unwrap();
    let mut reader = Reader::new(&buf);
    assert_eq!(fory.deserialize_from(1, &mut reader).unwrap(), first);
    assert_eq!(fory.deserialize_from(1, &mut reader).unwrap(), second);
}

#[test]
fn error_descriptions_are_stable() {
    assert_eq!(CodecError::UnknownEnumValue.describe(), "unknown enum value");
    assert_eq!(CodecError::MalformedData.describe(), "malformed data");
    assert_eq!(
        CodecError::DuplicateTypeId.describe(),
        "type id is already bound"
    );
}
