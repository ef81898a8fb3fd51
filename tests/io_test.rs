use std::io::{Cursor, Read, Write};

use byteable::{BigEndian, ByteArray, Field, FieldType, IntoByteArray, Layout, LittleEndian, Scalar, Tag, Value};

// TestPacket { id: BigEndian<u16>, value: LittleEndian<u32> }
fn test_packet() -> Layout {
    Layout::new(vec![
        Field { ty: FieldType::Int(Scalar::U16), tag: Tag::BigEndian },
        Field { ty: FieldType::Int(Scalar::U32), tag: Tag::LittleEndian },
    ])
    .unwrap()
}

fn packet(id: u16, value: u32) -> Vec<Value> {
    vec![Value::Int(id as i128), Value::Int(value as i128)]
}

fn read_packet(reader: &mut impl Read) -> Vec<Value> {
    let layout = test_packet();
    let mut bytes = vec![0u8; layout.byte_size()];
    reader.read_exact(&mut bytes).unwrap();
    layout.decode(&bytes).unwrap()
}

#[test]
fn test_write_one() {
    let mut buffer = Cursor::new(vec![]);
    buffer.write_all(&test_packet().encode(&packet(123, 0x01020304))).unwrap();
    assert_eq!(buffer.into_inner(), vec![0, 123, 4, 3, 2, 1]);
}

#[test]
fn test_read_one() {
    let data = vec![0, 123, 4, 3, 2, 1];
    let mut reader = Cursor::new(data);
    let p = read_packet(&mut reader);

    assert_eq!(p[0], Value::Int(123));
    assert_eq!(p[1], Value::Int(0x01020304));
}

#[test]
fn test_write_read_roundtrip() {
    let sent = packet(42, 0xAABBCCDD);

    let mut buffer = Cursor::new(vec![]);
    buffer.write_all(&test_packet().encode(&sent)).unwrap();

    let mut reader = Cursor::new(buffer.into_inner());
    let read_packet = read_packet(&mut reader);

    assert_eq!(read_packet, sent);
}

#[test]
fn test_write_multiple() {
    let mut buffer = Cursor::new(vec![]);

    buffer
        .write_all(BigEndian::new(0x0102u16).into_byte_array().as_byte_slice())
        .unwrap();
    buffer
        .write_all(LittleEndian::new(0x0304u16).into_byte_array().as_byte_slice())
        .unwrap();

    assert_eq!(buffer.into_inner(), vec![1, 2, 4, 3]);
}

#[test]
fn test_write_many() {
    let mut buffer = Cursor::new(vec![]);
    let layout = test_packet();

    for p in [packet(0, 1), packet(1, 2)] {
        buffer.write_all(&layout.encode(&p)).unwrap();
    }

    assert_eq!(buffer.into_inner(), vec![0, 0, 1, 0, 0, 0, 0, 1, 2, 0, 0, 0]);
}
