use byteable::Layout;

fn unit() -> Layout {
    Layout::new(vec![]).unwrap()
}

#[test]
fn test_unit_struct_with_byteable_derive() {
    let marker = unit();

    let bytes = marker.encode(&vec![]);
    assert_eq!(bytes.len(), 0);
    assert_eq!(bytes, [0u8; 0]);

    let restored = marker.decode(&[]).unwrap();
    assert!(restored.is_empty());
}

#[test]
fn test_unit_struct_with_unsafe_byteable_transmute() {
    let flag = unit();

    let bytes = flag.encode(&vec![]);
    assert_eq!(bytes.len(), 0);
    assert_eq!(bytes, [0u8; 0]);

    let restored = flag.decode(&[]).unwrap();
    assert_eq!(restored, vec![]);
}

#[test]
fn test_multiple_unit_structs() {
    let type_a = unit();
    let type_b = unit();
    let type_c = unit();

    assert!(type_a.encode(&vec![]).is_empty());
    assert!(type_b.encode(&vec![]).is_empty());
    assert!(type_c.encode(&vec![]).is_empty());

    assert_eq!(type_a.decode(&[]).unwrap(), vec![]);
    assert_eq!(type_b.decode(&[]).unwrap(), vec![]);
    assert_eq!(type_c.decode(&[]).unwrap(), vec![]);
}

#[test]
fn test_unit_struct_in_generic_context() {
    let token = unit();
    let bytes = token.encode(&vec![]);
    let restored = token.decode(&bytes).unwrap();

    assert!(bytes.is_empty());
    assert_eq!(restored, vec![]);
}

#[test]
fn test_unit_struct_size() {
    let empty = unit();
    let also_empty = unit();

    assert_eq!(empty.byte_size(), 0);
    assert_eq!(also_empty.byte_size(), 0);
    assert_eq!(empty.field_count(), 0);
    assert_eq!(also_empty.field_count(), 0);
}

#[test]
fn test_unit_struct_byteable_raw() {
    let sentinel = unit();
    assert!(!sentinel.is_fallible());
    assert!(sentinel.accepts(&vec![]));
}
