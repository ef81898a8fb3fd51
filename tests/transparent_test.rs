use byteable::{Field, FieldType, Layout, Scalar, Tag, Value};

fn field(ty: FieldType, tag: Tag) -> Field {
    Field { ty, tag }
}

// MemberStruct { a: u8, #[little_endian] b: u16 }
fn member_struct() -> Layout {
    Layout::new(vec![
        field(FieldType::Int(Scalar::U8), Tag::Plain),
        field(FieldType::Int(Scalar::U16), Tag::LittleEndian),
    ])
    .unwrap()
}

// TestStruct { #[transparent] member, a: u8, #[little_endian] b: u16,
//              #[big_endian] c: u64, #[little_endian] d: f64 }
fn test_struct() -> Layout {
    Layout::new(vec![
        field(FieldType::Record(member_struct()), Tag::Transparent),
        field(FieldType::Int(Scalar::U8), Tag::Plain),
        field(FieldType::Int(Scalar::U16), Tag::LittleEndian),
        field(FieldType::Int(Scalar::U64), Tag::BigEndian),
        field(FieldType::Int(Scalar::U64), Tag::LittleEndian),
    ])
    .unwrap()
}

fn int_of(v: &Value) -> i128 {
    match v {
        Value::Int(x) => *x,
        _ => panic!("not an integer"),
    }
}

#[test]
fn test_transparent_attribute() {
    let member = vec![Value::Int(10), Value::Int(0x1234)];

    let member_bytes = member_struct().encode(&member);
    assert_eq!(member_bytes.len(), 3);
    assert_eq!(member_bytes[0], 10);
    assert_eq!(member_bytes[1], 0x34);
    assert_eq!(member_bytes[2], 0x12);

    let d: f64 = 3.14159;
    let test = vec![
        Value::Record(vec![Value::Int(10), Value::Int(0x1234)]),
        Value::Int(42),
        Value::Int(0x5678),
        Value::Int(0x0102030405060708),
        Value::Int(d.to_bits() as i128),
    ];

    let layout = test_struct();
    let test_bytes = layout.encode(&test);
    assert_eq!(test_bytes.len(), 22);
    assert_eq!(layout.byte_size(), 22);

    assert_eq!(test_bytes[0], 10);
    assert_eq!(test_bytes[1], 0x34);
    assert_eq!(test_bytes[2], 0x12);
    assert_eq!(test_bytes[3], 42);
    assert_eq!(test_bytes[4], 0x78);
    assert_eq!(test_bytes[5], 0x56);
    assert_eq!(test_bytes[6], 0x01);
    assert_eq!(test_bytes[7], 0x02);
    assert_eq!(test_bytes[8], 0x03);
    assert_eq!(test_bytes[9], 0x04);
    assert_eq!(test_bytes[10], 0x05);
    assert_eq!(test_bytes[11], 0x06);
    assert_eq!(test_bytes[12], 0x07);
    assert_eq!(test_bytes[13], 0x08);

    let d_bytes = &test_bytes[14..22];
    let d_restored = f64::from_le_bytes(d_bytes.try_into().unwrap());
    assert_eq!(d_restored, 3.14159);

    let restored = layout.decode(&test_bytes).unwrap();
    match &restored[0] {
        Value::Record(m) => {
            assert_eq!(int_of(&m[0]), 10);
            assert_eq!(int_of(&m[1]), 0x1234);
        },
        _ => panic!("expected the nested record"),
    }
    assert_eq!(int_of(&restored[1]), 42);
    assert_eq!(int_of(&restored[2]), 0x5678);
    assert_eq!(int_of(&restored[3]), 0x0102030405060708);
    assert_eq!(f64::from_bits(int_of(&restored[4]) as u64), 3.14159);
    assert_eq!(restored, test);
}

#[test]
fn transparent_field_is_the_inner_encoding_in_place() {
    let inner = vec![Value::Int(10), Value::Int(0x1234)];
    let inner_bytes = member_struct().encode(&inner);
    let outer = Layout::new(vec![
        field(FieldType::Int(Scalar::U8), Tag::Plain),
        field(FieldType::Record(member_struct()), Tag::Transparent),
        field(FieldType::Int(Scalar::U16), Tag::BigEndian),
    ])
    .unwrap();
    let bytes = outer.encode(&vec![Value::Int(1), Value::Record(inner), Value::Int(0x0203)]);
    let mut expected = vec![1u8];
    expected.extend_from_slice(&inner_bytes);
    expected.extend_from_slice(&[2, 3]);
    assert_eq!(bytes, expected);
}
