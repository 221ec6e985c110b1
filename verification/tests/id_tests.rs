use kad_routing::id::{IdError, NodeId, NODE_ID_BYTES};

fn id1(b: u8) -> NodeId {
    NodeId::from_bytes_sized(&[b], 1).unwrap()
}

#[test]
fn new_is_all_zero() {
    let id = NodeId::new(4);
    assert_eq!(id.num_bytes(), 4);
    assert_eq!(id.num_bits(), 32);
    for i in 0..32 {
        assert_eq!(id.get_bit(i), Some(false));
    }
}

#[test]
fn new_default_width() {
    let id = NodeId::new_default();
    assert_eq!(id.num_bytes(), NODE_ID_BYTES);
    assert_eq!(id.num_bits(), 160);
}

#[test]
fn from_bytes_accepts_conventional_width() {
    let bytes = [7u8; 20];
    let id = NodeId::from_bytes(&bytes).unwrap();
    assert_eq!(id.num_bytes(), 20);
    assert_eq!(id.byte(0), 7);
    assert_eq!(id.byte(19), 7);
}

#[test]
fn from_bytes_rejects_wrong_width() {
    let bytes = [7u8; 19];
    assert_eq!(NodeId::from_bytes(&bytes).unwrap_err(), IdError::LengthMismatch);
    let bytes = [7u8; 21];
    assert_eq!(NodeId::from_bytes(&bytes).unwrap_err(), IdError::LengthMismatch);
}

#[test]
fn from_bytes_sized_checks_given_width() {
    assert!(NodeId::from_bytes_sized(&[1, 2, 3], 3).is_ok());
    assert_eq!(
        NodeId::from_bytes_sized(&[1, 2, 3], 2).unwrap_err(),
        IdError::LengthMismatch
    );
}

#[test]
fn get_bit_reads_most_significant_first() {
    // 0xA5 = 1010_0101
    let id = id1(0xA5);
    let expect = [true, false, true, false, false, true, false, true];
    for (i, e) in expect.iter().enumerate() {
        assert_eq!(id.get_bit(i), Some(*e));
    }
    assert_eq!(id.get_bit(8), None);
}

#[test]
fn xor_distance_concrete() {
    let a = id1(0xF0);
    let b = id1(0x0F);
    let d = a.xor_distance(&b);
    assert_eq!(d.byte(0), 0xFF);
}

#[test]
fn xor_distance_symmetric() {
    let a = NodeId::from_bytes_sized(&[0x12, 0x34], 2).unwrap();
    let b = NodeId::from_bytes_sized(&[0xAB, 0xCD], 2).unwrap();
    let d1 = a.xor_distance(&b);
    let d2 = b.xor_distance(&a);
    assert_eq!(d1.byte(0), d2.byte(0));
    assert_eq!(d1.byte(1), d2.byte(1));
    assert_eq!(d1.byte(0), 0x12 ^ 0xAB);
}

#[test]
fn xor_distance_self_is_zero() {
    let a = NodeId::from_bytes_sized(&[0x12, 0x34], 2).unwrap();
    let d = a.xor_distance(&a);
    assert_eq!(d.byte(0), 0);
    assert_eq!(d.byte(1), 0);
}

#[test]
fn num_prefix_zeroes_counts_leading_zero_bits() {
    // 0x10 = 0001_0000: three leading zeros
    assert_eq!(id1(0x10).num_prefix_zeroes(), Some(3));
    assert_eq!(id1(0x80).num_prefix_zeroes(), Some(0));
    assert_eq!(id1(0x01).num_prefix_zeroes(), Some(7));
}

#[test]
fn num_prefix_zeroes_undefined_for_all_zero() {
    assert_eq!(id1(0x00).num_prefix_zeroes(), None);
    assert_eq!(NodeId::new(3).num_prefix_zeroes(), None);
}

#[test]
fn identifier_equality_is_by_bytes() {
    let a = id1(0x42);
    let b = id1(0x42);
    let c = id1(0x43);
    assert!(a == b);
    assert!(a != c);
    let d = a.clone();
    assert!(a == d);
}

#[test]
fn random_identifiers_have_requested_width() {
    let id = NodeId::new_random_default().unwrap();
    assert_eq!(id.num_bytes(), NODE_ID_BYTES);
    let id = NodeId::new_random(4).unwrap();
    assert_eq!(id.num_bytes(), 4);
}
