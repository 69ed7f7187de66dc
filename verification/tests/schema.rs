use neural_network::error::{DecodeError, DecodeErrorKind};
use neural_network::codec::Serialized;
use neural_network::literals::{Float32, Float64};
use neural_network::math::{Matrix, Vector};
use neural_network::schema::{variant_name_str, FieldType, Value, VariantSchema};
use std::f32::consts::PI;

fn pi() -> Value {
    Value::F32(Float32 { bits: PI.to_bits() })
}

fn text(s: &str) -> Value {
    Value::Text(s.to_string())
}

fn round_trip(schema: &FieldType, value: &Value) {
    let serialized = value.serialize_binary();
    assert_eq!(
        Value::deserialize_binary(schema, &serialized),
        Ok((
            Value::deserialize_binary(schema, &serialized).unwrap().0,
            serialized.len()
        ))
    );
    assert_eq!(value, &Value::deserialize_binary(schema, &serialized).unwrap().0);
}

#[test]
fn test_serialize_union() {
    let schema = FieldType::record("TestUnion", vec![]);
    let test = Value::record("TestUnion", vec![]);
    let serialized = test.serialize_binary();
    assert_eq!(test, Value::deserialize_binary(&schema, &serialized).unwrap().0);
}

#[test]
fn test_serialize_tuple_struct() {
    let schema = FieldType::record(
        "TestTupleStruct",
        vec![FieldType::Usize, FieldType::F32, FieldType::Text],
    );
    let test = Value::record(
        "TestTupleStruct",
        vec![Value::Usize(42), pi(), text("Hello, World!")],
    );
    let serialized = test.serialize_binary();
    assert_eq!(test, Value::deserialize_binary(&schema, &serialized).unwrap().0);
}

#[test]
fn test_serialize_struct() {
    let schema = FieldType::record(
        "TestStruct",
        vec![FieldType::Usize, FieldType::F32, FieldType::Text],
    );
    let test = Value::record(
        "TestStruct",
        vec![Value::Usize(42), pi(), text("Hello, World!")],
    );
    let serialized = test.serialize_binary();
    assert_eq!(test, Value::deserialize_binary(&schema, &serialized).unwrap().0);
}

fn test_enum_tuple() -> FieldType {
    FieldType::union(
        "TestEnumTuple",
        vec![
            VariantSchema::new("One", vec![]),
            VariantSchema::new("Two", vec![FieldType::Usize]),
            VariantSchema::new("Three", vec![FieldType::Usize, FieldType::F32]),
        ],
    )
}

#[test]
fn test_serialize_enum_tuple() {
    let schema = test_enum_tuple();
    let one = Value::variant("TestEnumTuple", "One", vec![]);
    let two = Value::variant("TestEnumTuple", "Two", vec![Value::Usize(42)]);
    let three = Value::variant("TestEnumTuple", "Three", vec![Value::Usize(42), pi()]);
    assert_eq!(one, Value::deserialize_binary(&schema, &one.serialize_binary()).unwrap().0);
    assert_eq!(two, Value::deserialize_binary(&schema, &two.serialize_binary()).unwrap().0);
    assert_eq!(three, Value::deserialize_binary(&schema, &three.serialize_binary()).unwrap().0);
}

fn test_enum_struct() -> FieldType {
    FieldType::union(
        "TestEnumStruct",
        vec![
            VariantSchema::new("One", vec![]),
            VariantSchema::new("Two", vec![FieldType::Usize, FieldType::F32]),
            VariantSchema::new("Three", vec![FieldType::U32]),
        ],
    )
}

#[test]
fn test_serialize_enum_struct() {
    let schema = test_enum_struct();
    let one = Value::variant("TestEnumStruct", "One", vec![]);
    let two = Value::variant("TestEnumStruct", "Two", vec![Value::Usize(42), pi()]);
    let three = Value::variant("TestEnumStruct", "Three", vec![Value::U32(42)]);
    assert_eq!(one, Value::deserialize_binary(&schema, &one.serialize_binary()).unwrap().0);
    assert_eq!(two, Value::deserialize_binary(&schema, &two.serialize_binary()).unwrap().0);
    assert_eq!(three, Value::deserialize_binary(&schema, &three.serialize_binary()).unwrap().0);
}

#[test]
fn a_record_without_fields_is_its_tag() {
    let test = Value::record("TestUnion", vec![]);
    let mut expected = 9u64.to_be_bytes().to_vec();
    expected.extend_from_slice(b"TestUnion");
    assert_eq!(test.serialize_binary(), expected);
    assert_eq!(test.serialize_binary(), String::from("TestUnion").serialize_binary());
}

#[test]
fn a_record_is_its_tag_and_its_fields_in_order() {
    let test = Value::record("P", vec![Value::U16(0x0102), Value::I8(-1), text("ab")]);
    let expected = vec![
        0, 0, 0, 0, 0, 0, 0, 1, b'P', // the tag
        1, 2, // the first field
        0xff, // the second field
        0, 0, 0, 0, 0, 0, 0, 2, b'a', b'b', // the third field
    ];
    assert_eq!(test.serialize_binary(), expected);
    let schema = FieldType::record("P", vec![FieldType::U16, FieldType::I8, FieldType::Text]);
    assert_eq!(Value::deserialize_binary(&schema, &expected), Ok((test, 22)));
}

#[test]
fn a_variant_is_tagged_with_its_qualified_name() {
    assert_eq!(variant_name_str("TestEnumTuple", "Two"), "TestEnumTuple::Two");
    assert_eq!(variant_name_str("", ""), "::");
    let two = Value::variant("E", "Two", vec![Value::U8(7)]);
    assert_eq!(
        two,
        Value::Tagged { tag: String::from("E::Two"), fields: vec![Value::U8(7)] }
    );
    let expected = vec![0, 0, 0, 0, 0, 0, 0, 6, b'E', b':', b':', b'T', b'w', b'o', 7];
    assert_eq!(two.serialize_binary(), expected);
    // A variant without fields takes up nothing after its tag.
    let one = Value::variant("E", "One", vec![]);
    assert_eq!(one.serialize_binary().len(), 8 + 6);
}

#[test]
fn every_kind_of_field_round_trips() {
    let mut matrix = Matrix::new(2, 2);
    matrix.set(1, 0, 5.5f64.to_bits());
    let schema = FieldType::record(
        "Everything",
        vec![
            FieldType::U8,
            FieldType::U16,
            FieldType::U32,
            FieldType::U64,
            FieldType::Usize,
            FieldType::I8,
            FieldType::I16,
            FieldType::I32,
            FieldType::I64,
            FieldType::Isize,
            FieldType::F32,
            FieldType::F64,
            FieldType::Text,
            FieldType::Vector,
            FieldType::Matrix,
            test_enum_tuple(),
            FieldType::record("Inner", vec![FieldType::U8, test_enum_struct()]),
        ],
    );
    let value = Value::record(
        "Everything",
        vec![
            Value::U8(1),
            Value::U16(2),
            Value::U32(3),
            Value::U64(4),
            Value::Usize(5),
            Value::I8(-6),
            Value::I16(-7),
            Value::I32(-8),
            Value::I64(-9),
            Value::Isize(-10),
            pi(),
            Value::F64(Float64 { bits: std::f64::consts::E.to_bits() }),
            text("twelve"),
            Value::Vector(Vector(vec![1, 2, 3])),
            Value::Matrix(matrix),
            Value::variant("TestEnumTuple", "Three", vec![Value::Usize(42), pi()]),
            Value::record(
                "Inner",
                vec![Value::U8(9), Value::variant("TestEnumStruct", "Three", vec![Value::U32(1)])],
            ),
        ],
    );
    round_trip(&schema, &value);
    let serialized = value.serialize_binary();
    assert_eq!(serialized, value.serialize_binary());
    let mut followed = serialized.clone();
    followed.extend_from_slice(&[1, 2, 3]);
    assert_eq!(
        Value::deserialize_binary(&schema, &followed).unwrap(),
        (value, serialized.len())
    );
}

#[test]
fn scalars_are_values_too() {
    round_trip(&FieldType::U64, &Value::U64(rand::random::<u64>()));
    round_trip(&FieldType::I16, &Value::I16(rand::random::<i16>()));
    round_trip(&FieldType::Text, &text("Hello, World!"));
    assert_eq!(Value::U16(0x0102).serialize_binary(), vec![1, 2]);
    assert_eq!(
        Value::deserialize_binary(&FieldType::U32, &[0, 0, 1, 0, 9]),
        Ok((Value::U32(256), 4))
    );
}

#[test]
fn another_tag_is_a_mismatch() {
    let schema = FieldType::record("Expected", vec![FieldType::U8]);
    let other = Value::record("Other", vec![Value::U8(1)]);
    assert_eq!(
        Value::deserialize_binary(&schema, &other.serialize_binary()),
        Err(DecodeError { kind: DecodeErrorKind::TagMismatch, offset: 0 })
    );
    // The tag is compared as a whole: a longer tag with the same beginning
    // is another tag.
    let longer = Value::record("Expected2", vec![Value::U8(1)]);
    assert_eq!(
        Value::deserialize_binary(&schema, &longer.serialize_binary()),
        Err(DecodeError { kind: DecodeErrorKind::TagMismatch, offset: 0 })
    );
    let nested = FieldType::record("Outer", vec![FieldType::U8, schema]);
    let value = Value::record("Outer", vec![Value::U8(3), other]);
    assert_eq!(
        Value::deserialize_binary(&nested, &value.serialize_binary()),
        Err(DecodeError { kind: DecodeErrorKind::TagMismatch, offset: 8 + 5 + 1 })
    );
}

#[test]
fn an_unknown_variant_is_an_unknown_tag() {
    let schema = test_enum_tuple();
    let four = Value::variant("TestEnumTuple", "Four", vec![]);
    assert_eq!(
        Value::deserialize_binary(&schema, &four.serialize_binary()),
        Err(DecodeError { kind: DecodeErrorKind::UnknownTag, offset: 0 })
    );
    // The name of a variant alone, without the name of the union, is unknown.
    let bare = Value::record("Two", vec![Value::Usize(1)]);
    assert_eq!(
        Value::deserialize_binary(&schema, &bare.serialize_binary()),
        Err(DecodeError { kind: DecodeErrorKind::UnknownTag, offset: 0 })
    );
    let empty = FieldType::union("Nothing", vec![]);
    assert_eq!(
        Value::deserialize_binary(&empty, &four.serialize_binary()),
        Err(DecodeError { kind: DecodeErrorKind::UnknownTag, offset: 0 })
    );
}

#[test]
fn the_first_variant_with_the_tag_is_taken() {
    let schema = FieldType::union(
        "E",
        vec![
            VariantSchema::new("A", vec![FieldType::U8]),
            VariantSchema::new("A", vec![FieldType::U16]),
        ],
    );
    let value = Value::variant("E", "A", vec![Value::U16(0x0102)]);
    assert_eq!(
        Value::deserialize_binary(&schema, &value.serialize_binary()),
        Ok((Value::variant("E", "A", vec![Value::U8(1)]), 8 + 4 + 1))
    );
}

#[test]
fn a_record_that_is_cut_short_is_truncated() {
    let schema = FieldType::record(
        "TestStruct",
        vec![FieldType::Usize, FieldType::F32, FieldType::Text],
    );
    let test = Value::record(
        "TestStruct",
        vec![Value::Usize(42), pi(), text("Hello, World!")],
    );
    let serialized = test.serialize_binary();
    assert_eq!(serialized.len(), 18 + 8 + 4 + 21);
    for cut in 0..serialized.len() {
        let offset = if cut < 8 {
            0
        } else if cut < 18 {
            8
        } else if cut < 26 {
            18
        } else if cut < 30 {
            26
        } else if cut < 38 {
            30
        } else {
            38
        };
        assert_eq!(
            Value::deserialize_binary(&schema, &serialized[..cut]),
            Err(DecodeError { kind: DecodeErrorKind::Truncated, offset })
        );
    }
}

#[test]
fn a_field_of_text_that_is_not_utf8_is_invalid() {
    let schema = FieldType::record("T", vec![FieldType::U8, FieldType::Text]);
    let mut data = String::from("T").serialize_binary();
    data.push(1);
    data.extend_from_slice(&1u64.to_be_bytes());
    data.push(0x80);
    assert_eq!(
        Value::deserialize_binary(&schema, &data),
        Err(DecodeError { kind: DecodeErrorKind::InvalidText, offset: 9 + 1 + 8 })
    );
    let mut tag = 1u64.to_be_bytes().to_vec();
    tag.push(0xff);
    assert_eq!(
        Value::deserialize_binary(&schema, &tag),
        Err(DecodeError { kind: DecodeErrorKind::InvalidText, offset: 8 })
    );
}

#[test]
fn a_value_is_of_its_type() {
    let schema = test_enum_tuple();
    assert!(Value::variant("TestEnumTuple", "One", vec![]).conforms(&schema));
    assert!(Value::variant("TestEnumTuple", "Two", vec![Value::Usize(1)]).conforms(&schema));
    assert!(!Value::variant("TestEnumTuple", "Two", vec![Value::U64(1)]).conforms(&schema));
    assert!(!Value::variant("TestEnumTuple", "Two", vec![]).conforms(&schema));
    assert!(!Value::variant("TestEnumTuple", "Two", vec![Value::Usize(1), pi()]).conforms(&schema));
    assert!(!Value::variant("TestEnumTuple", "Four", vec![]).conforms(&schema));
    assert!(!Value::U8(1).conforms(&schema));
    let record = FieldType::record("R", vec![FieldType::Text, test_enum_tuple()]);
    let value = Value::record("R", vec![text("x"), Value::variant("TestEnumTuple", "One", vec![])]);
    assert!(value.conforms(&record));
    assert!(!Value::record("S", vec![text("x")]).conforms(&record));
    assert!(!Value::record("R", vec![text("x")]).conforms(&record));
    assert!(Value::Matrix(Matrix::new(2, 2)).conforms(&FieldType::Matrix));
    assert!(Value::Vector(Vector::new(2)).conforms(&FieldType::Vector));
    assert!(!Value::Vector(Vector::new(2)).conforms(&FieldType::Matrix));
    assert!(Value::I8(-1).conforms(&FieldType::I8));
    assert!(!Value::I8(-1).conforms(&FieldType::U8));
    // A value that is of the type is read back as it was written.
    let serialized = value.serialize_binary();
    assert_eq!(Value::deserialize_binary(&record, &serialized), Ok((value, serialized.len())));
}

#[test]
fn a_copy_is_the_same_value() {
    let schema = FieldType::record("R", vec![FieldType::Text, test_enum_tuple()]);
    let value = Value::record(
        "R",
        vec![text("x"), Value::variant("TestEnumTuple", "Three", vec![Value::Usize(3), pi()])],
    );
    assert_eq!(schema.clone(), schema);
    assert_eq!(value.clone(), value);
    assert_eq!(value.clone().serialize_binary(), value.serialize_binary());
    let variant = VariantSchema::new("Two", vec![FieldType::Usize]);
    assert_eq!(variant.clone(), variant);
}
