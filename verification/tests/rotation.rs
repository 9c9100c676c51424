use rotcheck::bits::{get_16_bits, get_32_bits, rotate_left, rotate_left_32};

#[test]
fn rotate_by_zero_is_identity() {
    for v in [0u16, 1, 0x8000, 0xffff, 0x1234] {
        assert_eq!(rotate_left(v, 0), v);
    }
    for v in [0u32, 1, 0x8000_0000, 0xffff_ffff, 0x1234_5678] {
        assert_eq!(rotate_left_32(v, 0), v);
    }
}

#[test]
fn rotate_matches_known_values() {
    assert_eq!(rotate_left(0x0001, 1), 0x0002);
    assert_eq!(rotate_left(0x8000, 1), 0x0001);
    assert_eq!(rotate_left(0x1234, 4), 0x2341);
    assert_eq!(rotate_left_32(0x8000_0000, 1), 0x0000_0001);
    assert_eq!(rotate_left_32(0x1234_5678, 8), 0x3456_7812);
}

#[test]
fn rotate_is_invertible() {
    for v in [0u16, 1, 0x8001, 0xabcd, 0xffff] {
        for k in 1..16usize {
            assert_eq!(rotate_left(rotate_left(v, k), 16 - k), v);
        }
    }
    for v in [0u32, 1, 0x8000_0001, 0xdead_beef, 0xffff_ffff] {
        for k in 1..32usize {
            assert_eq!(rotate_left_32(rotate_left_32(v, k), 32 - k), v);
        }
    }
}

#[test]
fn bit_decomposition_is_little_endian() {
    let bits = get_16_bits(0b1010_0000_0000_0101);
    assert_eq!(bits.len(), 16);
    assert!(bits[0]);
    assert!(!bits[1]);
    assert!(bits[2]);
    assert!(bits[13]);
    assert!(bits[15]);
    assert!(!bits[14]);

    let bits = get_32_bits(0x8000_0001);
    assert_eq!(bits.len(), 32);
    assert!(bits[0]);
    assert!(bits[31]);
    for i in 1..31 {
        assert!(!bits[i]);
    }
}
