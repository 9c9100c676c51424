//! The finite field the encoding scheme lives in: the prime scalar field of
//! the BN256 curve, as supplied by the `bellman_ce` algebra library.
//!
//! A field element is held by its canonical (fully reduced) little-endian
//! 64-bit limbs, so that contracts can speak of the integer it stands for.
//! The arithmetic itself is done by `bellman_ce`, behind trusted wrappers
//! whose contracts state modular addition and multiplication exactly.

use vstd::prelude::*;
use vstd::arithmetic::div_mod::{
    lemma_fundamental_div_mod, lemma_mod_bound, lemma_mod_multiples_vanish,
    lemma_mul_mod_noop_general, lemma_small_mod,
};
use vstd::arithmetic::power::{lemma1_pow, lemma_pow_adds, lemma_pow_mod_noop, lemma_pow_multiplies, pow};

use bellman_ce::pairing::bn256::{Fr, FrRepr};
use bellman_ce::pairing::ff::{Field, PrimeField};
use bellman_ce::plonk::domains::Domain;

verus! {

/// Order of the field: the prime
/// 21888242871839275222246405745257275088548364400416034343698204186575808495617.
pub open spec fn fr_modulus() -> nat {
    21888242871839275222246405745257275088548364400416034343698204186575808495617nat
}

/// A field element, held as the four little-endian 64-bit limbs of its
/// canonical (fully reduced) representation.
#[derive(Clone, Copy, PartialEq, Eq, Structural, Debug, Hash)]
pub struct Elem {
    pub l0: u64,
    pub l1: u64,
    pub l2: u64,
    pub l3: u64,
}

impl Elem {
    /// The integer the limbs stand for.
    pub open spec fn value(self) -> nat {
        (self.l0 + self.l1 * 0x1_0000_0000_0000_0000
            + self.l2 * 0x1_0000_0000_0000_0000_0000_0000_0000_0000
            + self.l3 * 0x1_0000_0000_0000_0000_0000_0000_0000_0000_0000_0000_0000_0000) as nat
    }

    /// A canonical representation holds an integer below the field order.
    pub open spec fn valid(self) -> bool {
        self.value() < fr_modulus()
    }
}

/// Addition in the field, as a mathematical function.
pub open spec fn add_mod(a: nat, b: nat) -> nat {
    (a + b) % fr_modulus()
}

/// Multiplication in the field, as a mathematical function.
pub open spec fn mul_mod(a: nat, b: nat) -> nat {
    (a * b) % fr_modulus()
}

/// Exponentiation in the field, as a mathematical function.
pub open spec fn pow_mod(b: nat, e: nat) -> nat {
    (pow(b as int, e) % (fr_modulus() as int)) as nat
}

/// The additive identity.
pub fn elem_zero() -> (r: Elem)
    ensures
        r.valid(),
        r.value() == 0,
{
    Elem { l0: 0, l1: 0, l2: 0, l3: 0 }
}

/// The multiplicative identity.
pub fn elem_one() -> (r: Elem)
    ensures
        r.valid(),
        r.value() == 1,
{
    Elem { l0: 1, l1: 0, l2: 0, l3: 0 }
}

/// Relies on `bellman_ce`'s `Fr::add_assign` (addition in the prime field of
/// order `fr_modulus()`), with `Fr::from_repr` / `Fr::into_repr` carrying the
/// canonical little-endian limb representation in and out.
#[verifier::external_body]
pub(crate) fn fr_add(a: &Elem, b: &Elem) -> (r: Elem)
    requires
        a.valid(),
        b.valid(),
    ensures
        r.valid(),
        r.value() == add_mod(a.value(), b.value()),
{
    let mut x = Fr::from_repr(FrRepr([a.l0, a.l1, a.l2, a.l3])).unwrap();
    let y = Fr::from_repr(FrRepr([b.l0, b.l1, b.l2, b.l3])).unwrap();
    x.add_assign(&y);
    let r = x.into_repr().0;
    Elem { l0: r[0], l1: r[1], l2: r[2], l3: r[3] }
}

/// Relies on `bellman_ce`'s `Fr::mul_assign` (multiplication in the prime
/// field of order `fr_modulus()`), with `Fr::from_repr` / `Fr::into_repr`
/// carrying the canonical little-endian limb representation in and out.
#[verifier::external_body]
pub(crate) fn fr_mul(a: &Elem, b: &Elem) -> (r: Elem)
    requires
        a.valid(),
        b.valid(),
    ensures
        r.valid(),
        r.value() == mul_mod(a.value(), b.value()),
{
    let mut x = Fr::from_repr(FrRepr([a.l0, a.l1, a.l2, a.l3])).unwrap();
    let y = Fr::from_repr(FrRepr([b.l0, b.l1, b.l2, b.l3])).unwrap();
    x.mul_assign(&y);
    let r = x.into_repr().0;
    Elem { l0: r[0], l1: r[1], l2: r[2], l3: r[3] }
}

/// Relies on `bellman_ce`'s `Domain::new_for_size`: for a power-of-two size
/// of at most `2^28` it succeeds, and its generator is a root of unity of
/// multiplicative order exactly that size (obtained by squaring down the
/// field's primitive `2^28`-th root of unity).
#[verifier::external_body]
pub(crate) fn domain_generator(size: u64) -> (r: Option<Elem>)
    requires
        size == 32 || size == 64,
    ensures
        r is Some,
        r matches Some(g) ==> g.valid() && pow_mod(g.value(), size as nat) == 1 && g.value() != 1,
{
    match Domain::<Fr>::new_for_size(size) {
        Ok(d) => {
            let r = d.generator.into_repr().0;
            Some(Elem { l0: r[0], l1: r[1], l2: r[2], l3: r[3] })
        },
        Err(_) => None,
    }
}

/// The limbs of a canonical representation are determined by the integer it
/// stands for: equal values mean equal elements.
pub proof fn lemma_value_injective(a: Elem, b: Elem)
    requires
        a.value() == b.value(),
    ensures
        a == b,
{
    let m: int = 0x1_0000_0000_0000_0000;
    lemma_limbs_split(a.l0, a.l1 + a.l2 * m + a.l3 * m * m);
    lemma_limbs_split(b.l0, b.l1 + b.l2 * m + b.l3 * m * m);
    assert(a.l0 == b.l0 && a.l1 + a.l2 * m + a.l3 * m * m == b.l1 + b.l2 * m + b.l3 * m * m);
    lemma_limbs_split(a.l1, a.l2 + a.l3 * m);
    lemma_limbs_split(b.l1, b.l2 + b.l3 * m);
    assert(a.l1 == b.l1 && a.l2 + a.l3 * m == b.l2 + b.l3 * m);
    lemma_limbs_split(a.l2, a.l3 as int);
    lemma_limbs_split(b.l2, b.l3 as int);
}

/// Splitting an integer `lo + 2^64 * hi` with `lo < 2^64` recovers `lo` and
/// `hi` as remainder and quotient.
proof fn lemma_limbs_split(lo: u64, hi: int)
    requires
        hi >= 0,
    ensures
        (lo + hi * 0x1_0000_0000_0000_0000) % 0x1_0000_0000_0000_0000 == lo,
        (lo + hi * 0x1_0000_0000_0000_0000) / 0x1_0000_0000_0000_0000 == hi,
{
    let m: int = 0x1_0000_0000_0000_0000;
    lemma_mod_multiples_vanish(hi, lo as int, m);
    lemma_small_mod(lo as nat, m as nat);
    lemma_fundamental_div_mod(lo + hi * m, m);
    let q = (lo + hi * m) / m;
    assert(lo + hi * m == m * q + lo);
    assert(m * q == m * hi) by {
        assert(hi * m == m * hi) by (nonlinear_arith);
    }
    assert(q == hi) by {
        assert(m * q == m * hi ==> q == hi) by (nonlinear_arith)
            requires m > 0;
    }
}

/// Field addition associates over already-reduced summands.
pub proof fn lemma_add_mod_assoc(a: nat, x: nat, y: nat)
    ensures
        add_mod(a, add_mod(x, y)) == add_mod(add_mod(a, x), y),
{
    let m = fr_modulus() as int;
    vstd::arithmetic::div_mod::lemma_add_mod_noop_right(a as int, (x + y) as int, m);
    vstd::arithmetic::div_mod::lemma_add_mod_noop_right(y as int, (a + x) as int, m);
}

/// Field multiplication distributes over field addition.
pub proof fn lemma_mul_mod_distrib(a: nat, x: nat, y: nat)
    ensures
        mul_mod(a, add_mod(x, y)) == add_mod(mul_mod(a, x), mul_mod(a, y)),
{
    let m = fr_modulus() as int;
    vstd::arithmetic::div_mod::lemma_mul_mod_noop_right(a as int, (x + y) as int, m);
    vstd::arithmetic::mul::lemma_mul_is_distributive_add(a as int, x as int, y as int);
    vstd::arithmetic::div_mod::lemma_add_mod_noop(
        (a * x) as int,
        (a * y) as int,
        m,
    );
}

/// Raising to the next power is one more multiplication by the base.
pub proof fn lemma_pow_mod_step(g: nat, e: nat)
    ensures
        pow_mod(g, e + 1) == mul_mod(pow_mod(g, e), g),
{
    let m = fr_modulus() as int;
    vstd::arithmetic::power::lemma_pow1(g as int);
    lemma_pow_adds(g as int, e, 1);
    lemma_mul_mod_noop_general(pow(g as int, e), g as int, m);
    lemma_mod_bound(pow(g as int, e), m);
}

/// The zeroth power of anything is the identity.
pub proof fn lemma_pow_mod_zero(g: nat)
    ensures
        pow_mod(g, 0) == 1,
{
    vstd::arithmetic::power::lemma_pow0(g as int);
}

/// The first power of a reduced element is the element itself.
pub proof fn lemma_pow_mod_one(g: nat)
    requires
        g < fr_modulus(),
    ensures
        pow_mod(g, 1) == g,
{
    vstd::arithmetic::power::lemma_pow1(g as int);
    lemma_small_mod(g, fr_modulus());
}

/// Multiplying two powers of `g` in the field gives the power at the summed
/// exponent.
pub proof fn lemma_pow_mod_adds(g: nat, e1: nat, e2: nat)
    ensures
        mul_mod(pow_mod(g, e1), pow_mod(g, e2)) == pow_mod(g, e1 + e2),
{
    let m = fr_modulus() as int;
    lemma_mod_bound(pow(g as int, e1), m);
    lemma_mod_bound(pow(g as int, e2), m);
    lemma_mul_mod_noop_general(pow(g as int, e1), pow(g as int, e2), m);
    lemma_pow_adds(g as int, e1, e2);
}

/// When `pow_mod(g, n) == 1`, exponents of `g` only matter modulo `n`.
pub proof fn lemma_pow_mod_cycle(g: nat, n: nat, e: nat)
    requires
        n > 0,
        pow_mod(g, n) == 1,
    ensures
        pow_mod(g, e) == pow_mod(g, e % n),
{
    let m = fr_modulus() as int;
    let q = e / n;
    let r = e % n;
    lemma_fundamental_div_mod(e as int, n as int);
    lemma_mod_bound(e as int, n as int);
    assert(e == n * q + r);
    lemma_pow_adds(g as int, (n * q) as nat, r);
    lemma_pow_multiplies(g as int, n, q);
    assert(pow(g as int, (n * q) as nat) == pow(pow(g as int, n), q));
    lemma_pow_mod_noop(pow(g as int, n), q, m);
    assert(pow(g as int, n) % m == 1);
    lemma1_pow(q);
    assert(pow(pow(g as int, n) % m, q) == 1);
    assert(pow(pow(g as int, n), q) % m == 1int % m);
    assert(1int % m == 1);
    lemma_mul_mod_noop_general(pow(g as int, (n * q) as nat), pow(g as int, r), m);
    assert(pow(g as int, e) % m == (pow(g as int, (n * q) as nat) % m) * (pow(g as int, r) % m) % m);
    lemma_mod_bound(pow(g as int, r), m);
    lemma_small_mod((pow(g as int, r) % m) as nat, m as nat);
}

} // verus!
