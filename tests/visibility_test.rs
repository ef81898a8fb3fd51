use byteable::{Field, FieldType, Layout, Scalar, Tag, Value};

fn layout(fields: &[(Scalar, Tag)]) -> Layout {
    Layout::new(fields.iter().map(|(s, t)| Field { ty: FieldType::Int(*s), tag: *t }).collect())
        .unwrap()
}

fn ints(vs: &[i128]) -> Vec<Value> {
    vs.iter().map(|v| Value::Int(*v)).collect()
}

fn private_struct() -> Layout {
    layout(&[(Scalar::U8, Tag::Plain), (Scalar::U16, Tag::LittleEndian)])
}

fn public_struct() -> Layout {
    layout(&[(Scalar::U8, Tag::Plain), (Scalar::U32, Tag::BigEndian)])
}

#[test]
fn test_private_struct_visibility() {
    let l = private_struct();
    let s = ints(&[42, 0x1234]);
    let restored = l.decode(&l.encode(&s)).unwrap();
    assert_eq!(s[0], restored[0]);
    assert_eq!(s[1], restored[1]);
}

#[test]
fn test_public_struct_visibility() {
    let l = public_struct();
    let s = ints(&[100, 0x12345678]);
    let restored = l.decode(&l.encode(&s)).unwrap();
    assert_eq!(s[0], restored[0]);
    assert_eq!(s[1], restored[1]);
}

#[test]
fn test_crate_struct_visibility() {
    let l = layout(&[(Scalar::U8, Tag::Plain), (Scalar::U64, Tag::LittleEndian)]);
    let s = ints(&[200, 0x0102030405060708]);
    let restored = l.decode(&l.encode(&s)).unwrap();
    assert_eq!(s[0], restored[0]);
    assert_eq!(s[1], restored[1]);
}

#[test]
fn test_super_struct_visibility() {
    let l = layout(&[(Scalar::U8, Tag::Plain), (Scalar::U16, Tag::BigEndian)]);
    let s = ints(&[50, 0xABCD]);
    let restored = l.decode(&l.encode(&s)).unwrap();
    assert_eq!(s[0], restored[0]);
    assert_eq!(s[1], restored[1]);
}

#[test]
fn test_public_tuple_struct_visibility() {
    let l = layout(&[
        (Scalar::U8, Tag::Plain),
        (Scalar::U16, Tag::LittleEndian),
        (Scalar::U32, Tag::BigEndian),
    ]);
    let s = ints(&[10, 0x5678, 0xDEADBEEF]);
    let restored = l.decode(&l.encode(&s)).unwrap();
    assert_eq!(s[0], restored[0]);
    assert_eq!(s[1], restored[1]);
    assert_eq!(s[2], restored[2]);
}

#[test]
fn test_private_tuple_struct_visibility() {
    let l = private_struct();
    let s = ints(&[255, 0xFFFF]);
    let restored = l.decode(&l.encode(&s)).unwrap();
    assert_eq!(s[0], restored[0]);
    assert_eq!(s[1], restored[1]);
}

#[test]
fn test_endianness_with_visibility() {
    let bytes = public_struct().encode(&ints(&[42, 0x01020304]));

    assert_eq!(bytes[0], 42);
    assert_eq!(bytes[1], 0x01);
    assert_eq!(bytes[2], 0x02);
    assert_eq!(bytes[3], 0x03);
    assert_eq!(bytes[4], 0x04);
}
