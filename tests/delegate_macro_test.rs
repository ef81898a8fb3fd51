use byteable::{Field, FieldType, Layout, Scalar, Tag, Value};

// TestStruct { a: u8, #[little_endian] b: u16, #[big_endian] c: u64, #[little_endian] d: f64 }
fn test_struct() -> Layout {
    Layout::new(vec![
        Field { ty: FieldType::Int(Scalar::U8), tag: Tag::Plain },
        Field { ty: FieldType::Int(Scalar::U16), tag: Tag::LittleEndian },
        Field { ty: FieldType::Int(Scalar::U64), tag: Tag::BigEndian },
        Field { ty: FieldType::Int(Scalar::U64), tag: Tag::LittleEndian },
    ])
    .unwrap()
}

fn int_of(v: &Value) -> i128 {
    match v {
        Value::Int(x) => *x,
        _ => panic!("not an integer"),
    }
}

#[test]
fn test_delegate_macro() {
    let d: f64 = 3.14159;
    let test = vec![
        Value::Int(42),
        Value::Int(0x1234),
        Value::Int(0x0102030405060708),
        Value::Int(d.to_bits() as i128),
    ];

    let layout = test_struct();
    let bytes = layout.encode(&test);
    assert_eq!(bytes.len(), 19);

    let restored = layout.decode(&bytes).unwrap();
    assert_eq!(int_of(&test[0]), int_of(&restored[0]));
    assert_eq!(int_of(&test[1]), int_of(&restored[1]));
    assert_eq!(int_of(&test[2]), int_of(&restored[2]));
    assert_eq!(f64::from_bits(int_of(&restored[3]) as u64), 3.14159);

    assert_eq!(bytes[0], 42);
    assert_eq!(bytes[1], 0x34);
    assert_eq!(bytes[2], 0x12);
    assert_eq!(bytes[3], 0x01);
    assert_eq!(bytes[4], 0x02);
    assert_eq!(bytes[5], 0x03);
    assert_eq!(bytes[6], 0x04);
    assert_eq!(bytes[7], 0x05);
    assert_eq!(bytes[8], 0x06);
    assert_eq!(bytes[9], 0x07);
    assert_eq!(bytes[10], 0x08);

    let d_bytes = &bytes[11..19];
    let d_restored = f64::from_le_bytes(d_bytes.try_into().unwrap());
    assert_eq!(d_restored, 3.14159);
}
