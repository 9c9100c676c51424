use rotcheck::encoding::{base_encodings, encode, encode_32, encode_incremental_32};
use rotcheck::field::{elem_one, elem_zero};
use rotcheck::table::{apply_shift, generator_powers};

#[test]
fn powers_table_starts_at_identity() {
    let t16 = generator_powers(16);
    assert_eq!(t16.len(), 32);
    assert_eq!(t16[0], elem_one());
    let t32 = generator_powers(32);
    assert_eq!(t32.len(), 64);
    assert_eq!(t32[0], elem_one());
    assert_ne!(t16[1], elem_one());
    assert_ne!(t32[1], elem_one());
}

#[test]
fn powers_table_closes_its_cycle() {
    // one more multiplication by the generator past the last entry comes
    // back to the identity
    let t = generator_powers(16);
    let wrapped = apply_shift(&t[31], &t, 1);
    assert_eq!(wrapped, t[0]);
    let t = generator_powers(32);
    let wrapped = apply_shift(&t[63], &t, 1);
    assert_eq!(wrapped, t[0]);
}

#[test]
fn powers_table_is_multiplicatively_closed() {
    // table[i] * table[j] == table[(i + j) mod len]
    let t = generator_powers(16);
    for (i, j) in [(0usize, 0usize), (1, 1), (5, 7), (31, 31), (16, 20), (15, 17)] {
        let product = apply_shift(&t[i], &t, j);
        assert_eq!(product, t[(i + j) % 32]);
    }
    let t = generator_powers(32);
    for (i, j) in [(0usize, 0usize), (63, 63), (32, 32), (40, 50)] {
        let product = apply_shift(&t[i], &t, j);
        assert_eq!(product, t[(i + j) % 64]);
    }
}

#[test]
fn encoding_is_deterministic() {
    let t = generator_powers(16);
    for v in [0u16, 1, 0x8000, 0xffff, 0x5a5a] {
        assert_eq!(encode(v, &t), encode(v, &t));
    }
    let t = generator_powers(32);
    for v in [0u32, 1, 0xffff_ffff] {
        assert_eq!(encode_32(v, &t), encode_32(v, &t));
    }
}

#[test]
fn encoding_of_zero_is_zero_and_of_one_is_identity() {
    let t = generator_powers(16);
    assert_eq!(encode(0, &t), elem_zero());
    assert_eq!(encode(1, &t), elem_one());
    // a single set bit picks out exactly one generator power
    for b in 0..16usize {
        assert_eq!(encode(1u16 << b, &t), t[b]);
    }
}

#[test]
fn encoding_strategies_agree() {
    // direct bit-sum encoding and incremental multiply-by-generator
    // encoding give bit-for-bit identical field elements
    let t = generator_powers(32);
    let generator = t[1];
    for v in [0u32, 1, 2, 0x1_0000, 0x1_0001, 0xffff_ffff] {
        assert_eq!(encode_32(v, &t), encode_incremental_32(v, &generator));
    }
}

#[test]
fn base_encodings_match_direct_encoding() {
    let t = generator_powers(32);
    let base = base_encodings(&t, 64);
    assert_eq!(base.len(), 64);
    for v in 0..64u32 {
        assert_eq!(base[v as usize], encode_32(v, &t));
    }
}
