use byteable::{ByteOrder, Discriminant, EnumLayout, Scalar, SchemaError};

fn decl(name: &str, repr: Scalar, order: Option<ByteOrder>, ds: Vec<i128>) -> EnumLayout {
    EnumLayout::new(name.to_string(), repr, order, ds).unwrap()
}

// Status: Idle = 0, Running = 1, Completed = 2, Failed = 3 (u8)
const IDLE: usize = 0;
const RUNNING: usize = 1;
const COMPLETED: usize = 2;
const FAILED: usize = 3;

fn status() -> EnumLayout {
    decl("Status", Scalar::U8, None, vec![0, 1, 2, 3])
}

#[test]
fn test_enum_to_bytes() {
    let bytes = status().encode(RUNNING);
    assert_eq!(bytes, [1]);
}

#[test]
fn test_enum_from_bytes() {
    let bytes = [2];
    let variant = status().decode(&bytes).unwrap();
    assert_eq!(variant, COMPLETED);
}

#[test]
fn test_enum_invalid_discriminant() {
    let bytes = [255];
    let result = status().decode(&bytes);
    assert!(result.is_err());

    if let Err(err) = result {
        assert_eq!(err.invalid_discriminant, Discriminant::U8(255));
        assert_eq!(err.target_type, "Status");
    }
}

#[test]
fn test_all_status_variants() {
    let layout = status();
    let variants = [IDLE, RUNNING, COMPLETED, FAILED];
    let expected_bytes = [[0], [1], [2], [3]];

    for (variant, expected) in variants.iter().zip(expected_bytes.iter()) {
        let bytes = layout.encode(*variant);
        assert_eq!(bytes, *expected);

        let restored = layout.decode(&bytes).unwrap();
        assert_eq!(restored, *variant);
    }
}

// Command: Start = 0x1000, Stop = 0x2000, Pause = 0x3000 (u16, little-endian)
const START: usize = 0;
const STOP: usize = 1;
const PAUSE: usize = 2;

fn command(order: ByteOrder) -> EnumLayout {
    decl("Command", Scalar::U16, Some(order), vec![0x1000, 0x2000, 0x3000])
}

#[test]
fn test_u16_enum() {
    let layout = command(ByteOrder::Little);
    let bytes = layout.encode(PAUSE);
    assert_eq!(bytes, [0x00, 0x30]);

    let restored = layout.decode(&bytes).unwrap();
    assert_eq!(restored, PAUSE);
}

#[test]
fn test_u16_enum_all_variants() {
    let layout = command(ByteOrder::Little);
    assert_eq!(layout.encode(START), 0x1000u16.to_le_bytes());
    assert_eq!(layout.encode(STOP), 0x2000u16.to_le_bytes());
    assert_eq!(layout.encode(PAUSE), 0x3000u16.to_le_bytes());
}

#[test]
fn test_u16_enum_invalid_discriminant() {
    let bytes = 0x9999u16.to_le_bytes();
    let result = command(ByteOrder::Little).decode(&bytes);
    assert!(result.is_err());
}

// NetworkProtocol: Tcp = 6, Udp = 17, Icmp = 1 (u32, little-endian)
#[test]
fn test_u32_enum() {
    let layout = decl("NetworkProtocol", Scalar::U32, Some(ByteOrder::Little), vec![6, 17, 1]);
    let tcp = 0;
    let bytes = layout.encode(tcp);
    assert_eq!(bytes, 6u32.to_le_bytes());

    let restored = layout.decode(&bytes).unwrap();
    assert_eq!(restored, tcp);
}

// Temperature: Cold = -10, Cool = 0, Warm = 10, Hot = 30 (i8)
fn temperature() -> EnumLayout {
    decl("Temperature", Scalar::I8, None, vec![-10, 0, 10, 30])
}

#[test]
fn test_signed_enum() {
    let layout = temperature();
    let cold = 0;
    let bytes = layout.encode(cold);
    assert_eq!(bytes, [(-10i8) as u8]);

    let restored = layout.decode(&bytes).unwrap();
    assert_eq!(restored, cold);
}

#[test]
fn test_signed_enum_all_variants() {
    let layout = temperature();
    assert_eq!(layout.encode(0), (-10i8).to_ne_bytes());
    assert_eq!(layout.encode(1), 0i8.to_ne_bytes());
    assert_eq!(layout.encode(2), 10i8.to_ne_bytes());
    assert_eq!(layout.encode(3), 30i8.to_ne_bytes());
}

// LargeValue: Small = 1, Medium = 1000, Large = 1_000_000, Huge = 1_000_000_000_000 (u64, little-endian)
#[test]
fn test_u64_enum() {
    let layout = decl(
        "LargeValue",
        Scalar::U64,
        Some(ByteOrder::Little),
        vec![1, 1000, 1_000_000, 1_000_000_000_000],
    );
    let huge = 3;
    let bytes = layout.encode(huge);
    assert_eq!(bytes, 1_000_000_000_000u64.to_le_bytes());

    let restored = layout.decode(&bytes).unwrap();
    assert_eq!(restored, huge);
}

#[test]
fn test_enum_roundtrip() {
    let layout = status();
    for i in 0u8..=3 {
        let bytes = [i];
        let variant = layout.decode(&bytes).unwrap();
        let bytes_back = layout.encode(variant);
        assert_eq!(bytes, bytes_back[..]);
    }
}

#[test]
fn test_enum_byte_size() {
    assert_eq!(status().byte_size(), 1);
    assert_eq!(command(ByteOrder::Little).byte_size(), 2);
    assert_eq!(
        decl("NetworkProtocol", Scalar::U32, Some(ByteOrder::Little), vec![6, 17, 1]).byte_size(),
        4
    );
    assert_eq!(temperature().byte_size(), 1);
    assert_eq!(
        decl("LargeValue", Scalar::U64, Some(ByteOrder::Little), vec![1, 1000]).byte_size(),
        8
    );
}

#[test]
fn test_enum_error_display() {
    let bytes = [255];
    let result = status().decode(&bytes);

    if let Err(err) = result {
        let error_string = err.message();
        assert!(error_string.contains("Invalid discriminant"));
        assert!(error_string.contains("255"));
        assert_eq!(error_string, "Invalid discriminant 255 for type Status");
    } else {
        panic!("Expected an error");
    }
}

#[test]
fn test_enum_error_trait() {
    let bytes = [100];
    let result = status().decode(&bytes);

    if let Err(err) = result {
        assert!(format!("{:?}", err).contains("EnumFromBytesError"));
    } else {
        panic!("Expected an error");
    }
}

// SparseEnum: First = 1, Second = 5, Third = 10, Fourth = 100 (u8)
#[test]
fn test_sparse_enum() {
    let layout = decl("SparseEnum", Scalar::U8, None, vec![1, 5, 10, 100]);
    assert_eq!(layout.encode(0), [1]);
    assert_eq!(layout.encode(1), [5]);
    assert_eq!(layout.encode(2), [10]);
    assert_eq!(layout.encode(3), [100]);

    assert_eq!(layout.decode(&[1]).unwrap(), 0);
    assert_eq!(layout.decode(&[5]).unwrap(), 1);
    assert_eq!(layout.decode(&[10]).unwrap(), 2);
    assert_eq!(layout.decode(&[100]).unwrap(), 3);

    assert!(layout.decode(&[0]).is_err());
    assert!(layout.decode(&[2]).is_err());
    assert!(layout.decode(&[6]).is_err());
    assert!(layout.decode(&[99]).is_err());
    assert!(layout.decode(&[101]).is_err());
}

#[test]
fn test_little_endian_enum() {
    let layout = command(ByteOrder::Little);
    assert_eq!(layout.encode(START), [0x00, 0x10]);
    assert_eq!(layout.encode(STOP), [0x00, 0x20]);
    assert_eq!(layout.encode(PAUSE), [0x00, 0x30]);

    assert_eq!(layout.decode(&[0x00, 0x10]).unwrap(), START);
    assert_eq!(layout.decode(&[0x00, 0x20]).unwrap(), STOP);
    assert_eq!(layout.decode(&[0x00, 0x30]).unwrap(), PAUSE);
}

#[test]
fn test_big_endian_enum() {
    let layout = command(ByteOrder::Big);
    assert_eq!(layout.encode(START), [0x10, 0x00]);
    assert_eq!(layout.encode(STOP), [0x20, 0x00]);
    assert_eq!(layout.encode(PAUSE), [0x30, 0x00]);

    assert_eq!(layout.decode(&[0x10, 0x00]).unwrap(), START);
    assert_eq!(layout.decode(&[0x20, 0x00]).unwrap(), STOP);
    assert_eq!(layout.decode(&[0x30, 0x00]).unwrap(), PAUSE);
}

fn protocol(order: ByteOrder) -> EnumLayout {
    decl("Protocol", Scalar::U32, Some(order), vec![0x12345678, 0xABCDEF00])
}

#[test]
fn test_little_endian_u32_enum() {
    let layout = protocol(ByteOrder::Little);
    assert_eq!(layout.encode(0), [0x78, 0x56, 0x34, 0x12]);
    assert_eq!(layout.encode(1), [0x00, 0xEF, 0xCD, 0xAB]);
    assert_eq!(layout.decode(&[0x78, 0x56, 0x34, 0x12]).unwrap(), 0);
}

#[test]
fn test_big_endian_u32_enum() {
    let layout = protocol(ByteOrder::Big);
    assert_eq!(layout.encode(0), [0x12, 0x34, 0x56, 0x78]);
    assert_eq!(layout.encode(1), [0xAB, 0xCD, 0xEF, 0x00]);
    assert_eq!(layout.decode(&[0x12, 0x34, 0x56, 0x78]).unwrap(), 0);
}

fn large(order: ByteOrder) -> EnumLayout {
    decl("Large", Scalar::U64, Some(order), vec![0x1122334455667788, 0xAABBCCDDEEFF0011])
}

#[test]
fn test_little_endian_u64_enum() {
    let layout = large(ByteOrder::Little);
    assert_eq!(layout.encode(0), [0x88, 0x77, 0x66, 0x55, 0x44, 0x33, 0x22, 0x11]);
    assert_eq!(layout.encode(1), [0x11, 0x00, 0xFF, 0xEE, 0xDD, 0xCC, 0xBB, 0xAA]);
    let restored = layout
        .decode(&[0x88, 0x77, 0x66, 0x55, 0x44, 0x33, 0x22, 0x11])
        .unwrap();
    assert_eq!(restored, 0);
}

#[test]
fn test_big_endian_u64_enum() {
    let layout = large(ByteOrder::Big);
    assert_eq!(layout.encode(0), [0x11, 0x22, 0x33, 0x44, 0x55, 0x66, 0x77, 0x88]);
    assert_eq!(layout.encode(1), [0xAA, 0xBB, 0xCC, 0xDD, 0xEE, 0xFF, 0x00, 0x11]);
    let restored = layout
        .decode(&[0x11, 0x22, 0x33, 0x44, 0x55, 0x66, 0x77, 0x88])
        .unwrap();
    assert_eq!(restored, 0);
}

#[test]
fn test_endianness_irrelevant_for_u8() {
    let little = decl("LittleEndianByte", Scalar::U8, Some(ByteOrder::Little), vec![1, 2]);
    let big = decl("BigEndianByte", Scalar::U8, Some(ByteOrder::Big), vec![1, 2]);
    assert_eq!(little.encode(0), [1]);
    assert_eq!(little.encode(1), [2]);
    assert_eq!(big.encode(0), [1]);
    assert_eq!(big.encode(1), [2]);
}

fn signed(order: ByteOrder) -> EnumLayout {
    decl("Signed", Scalar::I16, Some(order), vec![-1000, 0, 1000])
}

#[test]
fn test_little_endian_signed_enum() {
    let layout = signed(ByteOrder::Little);
    assert_eq!(layout.encode(0), (-1000i16).to_le_bytes());
    assert_eq!(layout.encode(2), 1000i16.to_le_bytes());
    assert_eq!(layout.decode(&(-1000i16).to_le_bytes()).unwrap(), 0);
}

#[test]
fn test_big_endian_signed_enum() {
    let layout = signed(ByteOrder::Big);
    assert_eq!(layout.encode(0), (-1000i16).to_be_bytes());
    assert_eq!(layout.encode(2), 1000i16.to_be_bytes());
    assert_eq!(layout.decode(&(-1000i16).to_be_bytes()).unwrap(), 0);
}

#[test]
fn enum_invalid_signed_discriminant_is_tagged() {
    let err = signed(ByteOrder::Big).decode(&[0xFF, 0xFF]).unwrap_err();
    assert_eq!(err.invalid_discriminant, Discriminant::I16(-1));
    assert_eq!(err.message(), "Invalid discriminant -1 for type Signed");
    let err = command(ByteOrder::Little).decode(&[0xFF, 0xFF]).unwrap_err();
    assert_eq!(err.invalid_discriminant, Discriminant::U16(0xFFFF));
}

#[test]
fn enum_declaration_errors() {
    let e = EnumLayout::new("E".to_string(), Scalar::U8, None, vec![]).unwrap_err();
    assert_eq!(e, SchemaError::NoVariants);
    let e = EnumLayout::new("E".to_string(), Scalar::U16, None, vec![1]).unwrap_err();
    assert_eq!(e, SchemaError::MissingByteOrder(0));
    let e = EnumLayout::new("E".to_string(), Scalar::U8, None, vec![1, 256]).unwrap_err();
    assert_eq!(e, SchemaError::DiscriminantOutOfRange(1));
    let e = EnumLayout::new("E".to_string(), Scalar::I8, None, vec![-129]).unwrap_err();
    assert_eq!(e, SchemaError::DiscriminantOutOfRange(0));
    let e = EnumLayout::new("E".to_string(), Scalar::U8, None, vec![3, 4, 3]).unwrap_err();
    assert_eq!(e, SchemaError::DuplicateDiscriminant(2));
    assert_eq!(status().variant_count(), 4);
    assert_eq!(status().discriminant(FAILED), Discriminant::U8(3));
}
