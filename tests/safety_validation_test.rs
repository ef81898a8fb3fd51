use byteable::{Field, FieldType, Layout, Scalar, SchemaError, Tag, Value};

fn field(ty: FieldType, tag: Tag) -> Field {
    Field { ty, tag }
}

// SafePacket { id: u8, #[little_endian] length: u16, #[big_endian] checksum: u32, data: [u8; 4] }
fn safe_packet() -> Layout {
    Layout::new(vec![
        field(FieldType::Int(Scalar::U8), Tag::Plain),
        field(FieldType::Int(Scalar::U16), Tag::LittleEndian),
        field(FieldType::Int(Scalar::U32), Tag::BigEndian),
        field(FieldType::Bytes(4), Tag::Plain),
    ])
    .unwrap()
}

// Point { #[little_endian] x: i32, #[little_endian] y: i32 }
fn point() -> Layout {
    Layout::new(vec![
        field(FieldType::Int(Scalar::I32), Tag::LittleEndian),
        field(FieldType::Int(Scalar::I32), Tag::LittleEndian),
    ])
    .unwrap()
}

// Shape { id: u8, #[transparent] top_left: Point, #[transparent] bottom_right: Point }
fn shape() -> Layout {
    Layout::new(vec![
        field(FieldType::Int(Scalar::U8), Tag::Plain),
        field(FieldType::Record(point()), Tag::Transparent),
        field(FieldType::Record(point()), Tag::Transparent),
    ])
    .unwrap()
}

#[test]
fn test_safe_types_compile() {
    let layout = safe_packet();
    let packet = vec![
        Value::Int(42),
        Value::Int(1024),
        Value::Int(0x12345678),
        Value::Bytes(vec![1, 2, 3, 4]),
    ];

    let bytes = layout.encode(&packet);
    let restored = layout.decode(&bytes).unwrap();

    assert_eq!(packet[0], restored[0]);
    assert_eq!(packet[1], restored[1]);
    assert_eq!(packet[2], restored[2]);
    assert_eq!(packet[3], restored[3]);
}

#[test]
fn test_nested_safe_types_compile() {
    let layout = shape();
    let s = vec![
        Value::Int(1),
        Value::Record(vec![Value::Int(0), Value::Int(0)]),
        Value::Record(vec![Value::Int(100), Value::Int(200)]),
    ];

    let bytes = layout.encode(&s);
    let restored = layout.decode(&bytes).unwrap();

    assert_eq!(s[0], restored[0]);
    assert_eq!(s[1], restored[1]);
    assert_eq!(s[2], restored[2]);
    assert_eq!(restored.len(), 3);
    assert_eq!(bytes.len(), 17);
}

#[test]
fn unsafe_schemas_are_rejected() {
    // a multi-byte integer with no byte order
    let e = Layout::new(vec![
        field(FieldType::Int(Scalar::U8), Tag::Plain),
        field(FieldType::Int(Scalar::U16), Tag::Plain),
    ])
    .unwrap_err();
    assert_eq!(e, SchemaError::MissingByteOrder(1));
    // a boolean without try_transparent
    let e = Layout::new(vec![field(FieldType::Bool, Tag::Plain)]).unwrap_err();
    assert_eq!(e, SchemaError::FallibleField(0));
    // a character without try_transparent
    let e = Layout::new(vec![field(FieldType::Char, Tag::Transparent)]).unwrap_err();
    assert_eq!(e, SchemaError::FallibleField(0));
    // a record that may fail, marked transparent
    let fallible = Layout::new(vec![field(FieldType::Bool, Tag::TryTransparent)]).unwrap();
    let e = Layout::new(vec![field(FieldType::Record(fallible), Tag::Transparent)]).unwrap_err();
    assert_eq!(e, SchemaError::FallibleField(0));
    // annotations that do not suit the type
    let e = Layout::new(vec![field(FieldType::Bytes(4), Tag::BigEndian)]).unwrap_err();
    assert_eq!(e, SchemaError::UnsupportedField(0));
    let e = Layout::new(vec![field(FieldType::Record(point()), Tag::Plain)]).unwrap_err();
    assert_eq!(e, SchemaError::UnsupportedField(0));
    let e = Layout::new(vec![field(FieldType::Int(Scalar::I32), Tag::Transparent)]).unwrap_err();
    assert_eq!(e, SchemaError::UnsupportedField(0));
    // more bytes than the address space holds
    let e = Layout::new(vec![
        field(FieldType::Bytes(usize::MAX), Tag::Plain),
        field(FieldType::Bytes(1), Tag::Plain),
    ])
    .unwrap_err();
    assert_eq!(e, SchemaError::TooLarge);
    // an unknown attribute keyword
    assert_eq!(Tag::from_keyword("middle_endian"), Err(SchemaError::UnknownAttribute));
    assert_eq!(Tag::from_keyword("little_endian"), Ok(Tag::LittleEndian));
    assert_eq!(Tag::from_keyword("big_endian"), Ok(Tag::BigEndian));
    assert_eq!(Tag::from_keyword("transparent"), Ok(Tag::Transparent));
    assert_eq!(Tag::from_keyword("try_transparent"), Ok(Tag::TryTransparent));
}

#[test]
fn values_are_checked_against_the_layout() {
    let layout = safe_packet();
    assert!(layout.accepts(&vec![
        Value::Int(42),
        Value::Int(1024),
        Value::Int(0x12345678),
        Value::Bytes(vec![1, 2, 3, 4]),
    ]));
    assert!(!layout.accepts(&vec![Value::Int(42)]));
    assert!(!layout.accepts(&vec![
        Value::Int(256),
        Value::Int(1024),
        Value::Int(0x12345678),
        Value::Bytes(vec![1, 2, 3, 4]),
    ]));
    assert!(!layout.accepts(&vec![
        Value::Int(42),
        Value::Int(1024),
        Value::Int(0x12345678),
        Value::Bytes(vec![1, 2, 3]),
    ]));
    assert!(!layout.is_fallible());
    assert_eq!(layout.field_count(), 4);
}
