//! The generator powers table: the successive powers of a primitive root of
//! unity of order twice the bit width, built once per run and shared
//! read-only by every phase of the search.

use vstd::prelude::*;
use vstd::arithmetic::div_mod::lemma_mod_bound;

use crate::field::{
    domain_generator, elem_one, fr_mul, lemma_pow_mod_adds, lemma_pow_mod_cycle, lemma_pow_mod_one,
    lemma_pow_mod_step, lemma_pow_mod_zero, mul_mod, pow_mod, Elem,
};

verus! {

/// The generator a powers table was built from: its entry at index 1.
pub open spec fn gen_of(t: Seq<Elem>) -> nat {
    t[1].value()
}

/// `t` is a table of the successive powers of its generator.
pub open spec fn is_powers(t: Seq<Elem>) -> bool {
    &&& t.len() >= 2
    &&& forall|i: int|
        0 <= i < t.len() ==> (#[trigger] t[i]).valid() && t[i].value() == pow_mod(
            gen_of(t),
            i as nat,
        )
}

/// The table of the first `count` powers of `g`, by repeated multiplication
/// starting at the identity.
pub fn build_powers(g: &Elem, count: usize) -> (r: Vec<Elem>)
    requires
        g.valid(),
        count >= 2,
    ensures
        r@.len() == count,
        is_powers(r@),
        gen_of(r@) == g.value(),
{
    let mut table: Vec<Elem> = Vec::new();
    let mut current = elem_one();
    proof {
        lemma_pow_mod_zero(g.value());
    }
    table.push(current);
    for idx in 1..count
        invariant
            g.valid(),
            table@.len() == idx,
            current.valid(),
            current.value() == pow_mod(g.value(), (idx - 1) as nat),
            forall|i: int|
                0 <= i < idx ==> (#[trigger] table@[i]).valid() && table@[i].value() == pow_mod(
                    g.value(),
                    i as nat,
                ),
    {
        current = fr_mul(&current, g);
        proof {
            lemma_pow_mod_step(g.value(), (idx - 1) as nat);
        }
        table.push(current);
    }
    proof {
        lemma_pow_mod_one(g.value());
        assert(gen_of(table@) == g.value());
    }
    table
}

/// The generator powers table for the given bit width: a primitive root of
/// unity of order `2 * width` and its successive powers.
pub fn generator_powers(width: usize) -> (r: Vec<Elem>)
    requires
        width == 16 || width == 32,
    ensures
        r@.len() == 2 * width,
        is_powers(r@),
        gen_of(r@) < crate::field::fr_modulus(),
        pow_mod(gen_of(r@), (2 * width) as nat) == 1,
{
    let g = domain_generator((2 * width) as u64).unwrap();
    build_powers(&g, 2 * width)
}

/// Applying a shift in the encoded domain: multiply the encoding by the
/// chosen generator power.
pub fn apply_shift(encoded: &Elem, gen_powers: &Vec<Elem>, k: usize) -> (r: Elem)
    requires
        encoded.valid(),
        is_powers(gen_powers@),
        k < gen_powers@.len(),
    ensures
        r.valid(),
        r.value() == mul_mod(encoded.value(), pow_mod(gen_of(gen_powers@), k as nat)),
{
    fr_mul(encoded, &gen_powers[k])
}

/// Law: the powers table is multiplicatively closed — the product of the
/// entries at `i` and `j` is the entry at `(i + j)` taken modulo the table
/// length (the cyclic group generated by the root of unity).
pub proof fn lemma_table_closure(t: Seq<Elem>, i: int, j: int)
    requires
        is_powers(t),
        pow_mod(gen_of(t), t.len() as nat) == 1,
        0 <= i < t.len(),
        0 <= j < t.len(),
    ensures
        mul_mod(t[i].value(), t[j].value()) == t[(i + j) % (t.len() as int)].value(),
{
    let g = gen_of(t);
    let n = t.len() as nat;
    lemma_pow_mod_adds(g, i as nat, j as nat);
    lemma_pow_mod_cycle(g, n, (i + j) as nat);
    lemma_mod_bound(i + j, t.len() as int);
    assert(((i + j) as nat) % n == ((i + j) % (t.len() as int)) as nat);
}

} // verus!
