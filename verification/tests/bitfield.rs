use clove_core::bitfield::{byte_len, BadBitfield, Bitfield};

#[test]
fn set_and_query() {
    let mut bf = Bitfield::empty(10);
    assert!(!bf.is_empty());
    assert_eq!(bf.count(), 0);
    bf.set(0);
    bf.set(7);
    bf.set(9);
    assert!(bf.has(0) && bf.has(7) && bf.has(9));
    assert!(!bf.has(1) && !bf.has(8));
    assert!(!bf.has(10)); // out of range
    assert_eq!(bf.count(), 3);
    assert_eq!(bf.iter_present(), vec![0, 7, 9]);
}

#[test]
fn clear_removes_one_bit_and_nothing_else() {
    let mut bf = Bitfield::full(10);
    bf.clear(7);
    assert!(!bf.has(7));
    assert!(bf.has(6) && bf.has(8));
    assert_eq!(bf.count(), 9);
    // Idempotent, and out-of-range is ignored rather than panicking.
    bf.clear(7);
    bf.clear(10);
    bf.clear(u32::MAX);
    assert_eq!(bf.count(), 9);
    // Spare bits stay zero: clearing must not disturb the final byte.
    assert_eq!(bf.as_bytes()[1] & 0x3F, 0);
}

#[test]
fn full_clears_spare_bits() {
    let bf = Bitfield::full(10);
    assert!(bf.is_full());
    assert_eq!(bf.count(), 10);
    // 10 pieces -> 2 bytes, 6 spare bits must be zero.
    assert_eq!(bf.as_bytes(), &[0xFF, 0b1100_0000]);
}

#[test]
fn round_trips_through_bytes() {
    let bf = Bitfield::full(17);
    let copy = Bitfield::from_bytes(bf.as_bytes(), 17).unwrap();
    assert_eq!(bf, copy);
}

#[test]
fn rejects_bad_bytes() {
    assert_eq!(Bitfield::from_bytes(&[0xFF], 10), Err(BadBitfield::WrongLength));
    assert_eq!(Bitfield::from_bytes(&[0xFF, 0xFF], 10), Err(BadBitfield::SpareBitsSet));
    assert!(Bitfield::from_bytes(&[0xFF, 0b1100_0000], 10).is_ok());
}

#[test]
fn zero_length() {
    let bf = Bitfield::empty(0);
    assert!(bf.is_empty());
    assert!(bf.is_full()); // vacuously
    assert_eq!(bf.as_bytes(), &[] as &[u8]);
}

#[test]
fn setting_past_the_end_is_ignored() {
    let mut bf = Bitfield::empty(10);
    bf.set(10);
    bf.set(u32::MAX);
    assert_eq!(bf.count(), 0);
    assert_eq!(bf.as_bytes(), &[0, 0]);
}

#[test]
fn the_summary_counts() {
    let mut bf = Bitfield::empty(12);
    bf.set(3);
    bf.set(11);
    assert_eq!(bf.summary(), "Bitfield(2/12 present)");
    assert_eq!(byte_len(12), 2);
    assert_eq!(byte_len(16), 2);
    assert_eq!(byte_len(17), 3);
    let copy = bf.clone();
    assert_eq!(copy, bf);
}
