//! Bit decomposition and bitwise rotation of fixed-width unsigned integers.
//!
//! Rotation is the ground truth against which collisions in the encoded
//! domain are judged: two (value, shift) pairs are allowed to collide only
//! when the rotated bit patterns agree.

use vstd::prelude::*;
use vstd::arithmetic::div_mod::lemma_div_denominator;
use vstd::arithmetic::power2::{lemma_pow2_adds, lemma_pow2_pos, pow2};

verus! {

/// Bit `i` of `v` (bit 0 is least significant).
pub open spec fn bit_of(v: nat, i: nat) -> bool {
    v / pow2(i) % 2 == 1
}

/// Bitwise left rotation of a 16-bit value, as a mathematical function.
/// Rotating by the full width is the identity, so the amount is taken
/// modulo 16.
pub open spec fn rot16(value: u16, rotation: u16) -> u16 {
    if rotation % 16 == 0 {
        value
    } else {
        (value << (rotation % 16)) | (value >> ((16 - rotation % 16) as u16))
    }
}

/// Bitwise left rotation of a 32-bit value, as a mathematical function.
pub open spec fn rot32(value: u32, rotation: u32) -> u32 {
    if rotation % 32 == 0 {
        value
    } else {
        (value << (rotation % 32)) | (value >> ((32 - rotation % 32) as u32))
    }
}

/// Circular left shift of a 16-bit unsigned integer.
pub fn rotate_left(value: u16, rotation: usize) -> (r: u16)
    requires
        rotation < 16,
    ensures
        r == rot16(value, rotation as u16),
{
    if rotation == 0 {
        value
    } else {
        value << rotation | value >> (16 - rotation)
    }
}

/// Circular left shift of a 32-bit unsigned integer.
pub fn rotate_left_32(value: u32, rotation: usize) -> (r: u32)
    requires
        rotation < 32,
    ensures
        r == rot32(value, rotation as u32),
{
    if rotation == 0 {
        value
    } else {
        value << rotation | value >> (32 - rotation)
    }
}

/// Law: rotating by zero is the identity.
pub proof fn lemma_rotate_zero_16(value: u16)
    ensures
        rot16(value, 0) == value,
{
}

/// Law: rotating by zero is the identity.
pub proof fn lemma_rotate_zero_32(value: u32)
    ensures
        rot32(value, 0) == value,
{
}

/// Law: rotation is invertible; rotating left by `k` and then by the rest of
/// the width restores the value.
pub proof fn lemma_rotate_inverse_16(value: u16, k: u16)
    requires
        k < 16,
    ensures
        rot16(rot16(value, k), (16 - k) as u16) == value,
{
    if k != 0 {
        let j = (16 - k) as u16;
        let inner = (value << k) | (value >> j);
        assert((inner << j) | (inner >> k) == value) by (bit_vector)
            requires
                inner == (value << k) | (value >> j),
                0 < k < 16,
                j == (16 - k) as u16,
        ;
    }
}

/// Law: rotation is invertible; rotating left by `k` and then by the rest of
/// the width restores the value.
pub proof fn lemma_rotate_inverse_32(value: u32, k: u32)
    requires
        k < 32,
    ensures
        rot32(rot32(value, k), (32 - k) as u32) == value,
{
    if k != 0 {
        let j = (32 - k) as u32;
        let inner = (value << k) | (value >> j);
        assert((inner << j) | (inner >> k) == value) by (bit_vector)
            requires
                inner == (value << k) | (value >> j),
                0 < k < 32,
                j == (32 - k) as u32,
        ;
    }
}

/// The 16 binary digits of `value`, least significant first.
pub fn get_16_bits(value: u16) -> (r: Vec<bool>)
    ensures
        r@.len() == 16,
        forall|i: int| 0 <= i < 16 ==> r@[i] == bit_of(value as nat, i as nat),
{
    let mut v = value;
    let mut result: Vec<bool> = Vec::new();
    proof {
        vstd::arithmetic::power2::lemma2_to64();
    }
    for idx in 0..16usize
        invariant
            result@.len() == idx,
            v == value as nat / pow2(idx as nat),
            forall|i: int| 0 <= i < idx ==> result@[i] == bit_of(value as nat, i as nat),
    {
        proof {
            lemma_pow2_pos(idx as nat);
            assert(v & 1 == v % 2) by (bit_vector);
            assert(v >> 1u16 == v / 2) by (bit_vector);
            lemma_pow2_adds(idx as nat, 1);
            lemma_div_denominator(value as int, pow2(idx as nat) as int, 2);
            vstd::arithmetic::power2::lemma2_to64();
        }
        result.push(v & 1 == 1);
        v >>= 1u16;
    }
    result
}

/// The 32 binary digits of `value`, least significant first.
pub fn get_32_bits(value: u32) -> (r: Vec<bool>)
    ensures
        r@.len() == 32,
        forall|i: int| 0 <= i < 32 ==> r@[i] == bit_of(value as nat, i as nat),
{
    let mut v = value;
    let mut result: Vec<bool> = Vec::new();
    proof {
        vstd::arithmetic::power2::lemma2_to64();
    }
    for idx in 0..32usize
        invariant
            result@.len() == idx,
            v == value as nat / pow2(idx as nat),
            forall|i: int| 0 <= i < idx ==> result@[i] == bit_of(value as nat, i as nat),
    {
        proof {
            lemma_pow2_pos(idx as nat);
            assert(v & 1 == v % 2) by (bit_vector);
            assert(v >> 1u32 == v / 2) by (bit_vector);
            lemma_pow2_adds(idx as nat, 1);
            lemma_div_denominator(value as int, pow2(idx as nat) as int, 2);
            vstd::arithmetic::power2::lemma2_to64();
        }
        result.push(v & 1 == 1);
        v >>= 1u32;
    }
    result
}

} // verus!
