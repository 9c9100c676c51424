//! The encoder: a fixed-width unsigned integer becomes the sum of the
//! generator powers picked out by its set bits.
//!
//! Two executable strategies are provided: the direct bit-sum over the
//! powers table, and an incremental Horner-style pass that only ever
//! multiplies by the generator and adds the identity.  Both meet the same
//! mathematical description `enc`, so they agree on every value.

use vstd::prelude::*;
use vstd::arithmetic::div_mod::{lemma_div_denominator, lemma_small_mod};
use vstd::arithmetic::power2::{lemma2_to64, lemma_pow2_adds, lemma_pow2_pos, pow2};
use vstd::bits::lemma_u32_shr_is_div;

use crate::bits::{bit_of, get_16_bits, get_32_bits};
use crate::field::{
    add_mod, elem_one, elem_zero, fr_add, fr_mul, fr_modulus, lemma_add_mod_assoc,
    lemma_mul_mod_distrib, lemma_pow_mod_step, lemma_pow_mod_zero, lemma_value_injective, mul_mod,
    pow_mod, Elem,
};
use crate::table::{gen_of, is_powers};

verus! {

/// The encoding of the low `w` bits of `v` over generator `g`: the sum of
/// `g^i` over every set bit `i`, in the field.
pub open spec fn enc(g: nat, v: nat, w: nat) -> nat
    decreases w,
{
    if w == 0 {
        0
    } else {
        add_mod(
            if v % 2 == 1 {
                1nat
            } else {
                0nat
            },
            mul_mod(g, enc(g, v / 2, (w - 1) as nat)),
        )
    }
}

/// Extending the width by one adds the term for the next bit.
pub proof fn lemma_enc_extend(g: nat, v: nat, i: nat)
    ensures
        enc(g, v, i + 1) == add_mod(
            enc(g, v, i),
            if bit_of(v, i) {
                pow_mod(g, i)
            } else {
                0nat
            },
        ),
    decreases i,
{
    let m = fr_modulus();
    let b0: nat = if v % 2 == 1 {
        1nat
    } else {
        0nat
    };
    lemma2_to64();
    if i == 0 {
        lemma_pow_mod_zero(g);
        assert(enc(g, v, 0) == 0);
        assert(enc(g, v / 2, 0) == 0);
        assert(enc(g, v, 1) == add_mod(b0, mul_mod(g, 0)));
        assert(g * 0 == 0);
        assert(mul_mod(g, 0) == 0) by {
            lemma_small_mod(0, m);
        }
        assert(bit_of(v, 0) == (v % 2 == 1));
        assert(enc(g, v, 0) == 0);
        lemma_small_mod(b0, m);
    } else {
        lemma_enc_extend(g, v / 2, (i - 1) as nat);
        // the bit consumed at depth i - 1 of v / 2 is bit i of v
        lemma_pow2_adds(1, (i - 1) as nat);
        lemma_pow2_pos((i - 1) as nat);
        lemma_div_denominator(v as int, 2, pow2((i - 1) as nat) as int);
        assert(v / 2 / pow2((i - 1) as nat) == v / pow2(i));
        assert(bit_of(v / 2, (i - 1) as nat) == bit_of(v, i));
        let e_lo = enc(g, v / 2, (i - 1) as nat);
        let t: nat = if bit_of(v, i) {
            pow_mod(g, (i - 1) as nat)
        } else {
            0nat
        };
        assert(enc(g, v / 2, i) == add_mod(e_lo, t));
        assert(enc(g, v, i + 1) == add_mod(b0, mul_mod(g, add_mod(e_lo, t))));
        lemma_mul_mod_distrib(g, e_lo, t);
        lemma_add_mod_assoc(b0, mul_mod(g, e_lo), mul_mod(g, t));
        assert(enc(g, v, i + 1) == add_mod(add_mod(b0, mul_mod(g, e_lo)), mul_mod(g, t)));
        assert(add_mod(b0, mul_mod(g, e_lo)) == enc(g, v, i));
        if bit_of(v, i) {
            lemma_pow_mod_step(g, (i - 1) as nat);
            assert(mul_mod(g, t) == pow_mod(g, i));
        } else {
            assert(g * 0 == 0);
            assert(mul_mod(g, t) == 0) by {
                lemma_small_mod(0, m);
            }
        }
    }
}

/// Direct encoder for 16-bit values: sum the generator powers at the set
/// bits.
pub fn encode(value: u16, gen_powers: &Vec<Elem>) -> (r: Elem)
    requires
        is_powers(gen_powers@),
        gen_powers@.len() >= 16,
    ensures
        r.valid(),
        r.value() == enc(gen_of(gen_powers@), value as nat, 16),
{
    let ghost g = gen_of(gen_powers@);
    let bits = get_16_bits(value);
    let mut encoding = elem_zero();
    for idx in 0..16usize
        invariant
            is_powers(gen_powers@),
            gen_powers@.len() >= 16,
            g == gen_of(gen_powers@),
            bits@.len() == 16,
            forall|i: int| 0 <= i < 16 ==> bits@[i] == bit_of(value as nat, i as nat),
            encoding.valid(),
            encoding.value() == enc(g, value as nat, idx as nat),
    {
        proof {
            lemma_enc_extend(g, value as nat, idx as nat);
            lemma_small_mod(enc(g, value as nat, idx as nat), fr_modulus());
        }
        if bits[idx] {
            encoding = fr_add(&encoding, &gen_powers[idx]);
        }
    }
    encoding
}

/// Direct encoder for 32-bit values: sum the generator powers at the set
/// bits.
pub fn encode_32(value: u32, gen_powers: &Vec<Elem>) -> (r: Elem)
    requires
        is_powers(gen_powers@),
        gen_powers@.len() >= 32,
    ensures
        r.valid(),
        r.value() == enc(gen_of(gen_powers@), value as nat, 32),
{
    let ghost g = gen_of(gen_powers@);
    let bits = get_32_bits(value);
    let mut encoding = elem_zero();
    for idx in 0..32usize
        invariant
            is_powers(gen_powers@),
            gen_powers@.len() >= 32,
            g == gen_of(gen_powers@),
            bits@.len() == 32,
            forall|i: int| 0 <= i < 32 ==> bits@[i] == bit_of(value as nat, i as nat),
            encoding.valid(),
            encoding.value() == enc(g, value as nat, idx as nat),
    {
        proof {
            lemma_enc_extend(g, value as nat, idx as nat);
            lemma_small_mod(enc(g, value as nat, idx as nat), fr_modulus());
        }
        if bits[idx] {
            encoding = fr_add(&encoding, &gen_powers[idx]);
        }
    }
    encoding
}

/// Incremental encoder for 32-bit values: walk the bits from the top,
/// multiplying by the generator at each step and adding the identity for a
/// set bit.  Only the generator itself is needed, not the whole table.
pub fn encode_incremental_32(value: u32, generator: &Elem) -> (r: Elem)
    requires
        generator.valid(),
    ensures
        r.valid(),
        r.value() == enc(generator.value(), value as nat, 32),
{
    let ghost g = generator.value();
    let one = elem_one();
    let mut acc = elem_zero();
    let mut idx: u32 = 32;
    proof {
        lemma_u32_shr_is_div(value, 31);
        lemma2_to64();
    }
    while idx > 0
        invariant
            generator.valid(),
            g == generator.value(),
            one.valid(),
            one.value() == 1,
            acc.valid(),
            idx <= 32,
            acc.value() == enc(g, value as nat / pow2(idx as nat), (32 - idx) as nat),
        decreases idx,
    {
        idx = idx - 1;
        let shifted = value >> idx;
        let ghost e_lo = acc.value();
        let ghost u = value as nat / pow2(idx as nat);
        let ghost w = (32 - idx) as nat;
        proof {
            lemma2_to64();
            lemma_u32_shr_is_div(value, idx);
            assert(shifted & 1 == shifted % 2) by (bit_vector);
            lemma_pow2_pos(idx as nat);
            lemma_pow2_adds(idx as nat, 1);
            lemma_div_denominator(value as int, pow2(idx as nat) as int, 2);
            assert(value as nat / pow2((idx + 1) as nat) == (value as nat / pow2(idx as nat)) / 2);
            assert(u == shifted as nat);
            assert(e_lo == enc(g, u / 2, (w - 1) as nat));
            assert(enc(g, u, w) == add_mod(
                if u % 2 == 1 {
                    1nat
                } else {
                    0nat
                },
                mul_mod(g, enc(g, u / 2, (w - 1) as nat)),
            ));
        }
        acc = fr_mul(&acc, generator);
        if shifted & 1 == 1 {
            acc = fr_add(&acc, &one);
            proof {
                assert(acc.value() == add_mod(mul_mod(e_lo, g), 1));
                assert(mul_mod(e_lo, g) == mul_mod(g, e_lo));
                assert(acc.value() == enc(g, u, w));
            }
        } else {
            proof {
                lemma_small_mod(acc.value(), fr_modulus());
                assert(acc.value() == enc(g, u, w));
            }
        }
    }
    proof {
        lemma2_to64();
        assert(value as nat / pow2(0) == value as nat);
    }
    acc
}

/// The base encodings of every value below `count`, computed directly.
pub fn base_encodings(gen_powers: &Vec<Elem>, count: usize) -> (r: Vec<Elem>)
    requires
        is_powers(gen_powers@),
        gen_powers@.len() >= 32,
        count as nat <= 0x1_0000_0000nat,
    ensures
        r@.len() == count,
        forall|v: int|
            0 <= v < count ==> (#[trigger] r@[v]).valid() && r@[v].value() == enc(
                gen_of(gen_powers@),
                v as nat,
                32,
            ),
{
    let mut out: Vec<Elem> = Vec::new();
    for v in 0..count
        invariant
            is_powers(gen_powers@),
            gen_powers@.len() >= 32,
            count as nat <= 0x1_0000_0000nat,
            out@.len() == v,
            forall|i: int|
                0 <= i < v ==> (#[trigger] out@[i]).valid() && out@[i].value() == enc(
                    gen_of(gen_powers@),
                    i as nat,
                    32,
                ),
    {
        out.push(encode_32(v as u32, gen_powers));
    }
    out
}

/// Law: the encoding is a pure function of the bit pattern — any two field
/// elements that both meet the encoder's contract for the same value are
/// the very same element.
pub proof fn lemma_encode_deterministic(g: nat, v: nat, w: nat, r1: Elem, r2: Elem)
    requires
        r1.value() == enc(g, v, w),
        r2.value() == enc(g, v, w),
    ensures
        r1 == r2,
{
    lemma_value_injective(r1, r2);
}

/// Law: the direct bit-sum encoder and the incremental multiply-by-generator
/// encoder agree bit-for-bit on every 32-bit value: results that meet the
/// contracts of `encode_32` and of `encode_incremental_32` over the same
/// table are identical elements.
pub proof fn lemma_encoding_strategies_agree(
    t: Seq<Elem>,
    generator: Elem,
    value: u32,
    direct: Elem,
    incremental: Elem,
)
    requires
        is_powers(t),
        generator.value() == gen_of(t),
        direct.value() == enc(gen_of(t), value as nat, 32),
        incremental.value() == enc(generator.value(), value as nat, 32),
    ensures
        direct == incremental,
{
    lemma_value_injective(direct, incremental);
}

} // verus!
