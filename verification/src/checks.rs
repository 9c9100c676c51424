//! The collision search itself: per-shift duplicate detection (sharded or
//! in one pass) and the cross-shift verifier that judges every collision
//! against the ground-truth bit rotation.

use vstd::prelude::*;

use crate::bits::{rot16, rot32, rotate_left, rotate_left_32};
use crate::encoding::{enc, encode};
use crate::field::{fr_mul, lemma_value_injective, mul_mod, pow_mod, Elem};
use crate::index::ColIndex;
use crate::table::{apply_shift, gen_of, is_powers};

verus! {

/// The shifted encoding of value `v`: entry `v` of the base-encodings array
/// multiplied by the generator power at `s`.
pub open spec fn shifted(encs: Seq<Elem>, t: Seq<Elem>, v: int, s: int) -> nat {
    mul_mod(encs[v].value(), t[s].value())
}

/// No two values of `[lo, hi)` share a shifted encoding under shift `s`.
pub open spec fn no_dup_in(encs: Seq<Elem>, t: Seq<Elem>, s: int, lo: int, hi: int) -> bool {
    forall|i: int, j: int|
        lo <= i < j < hi ==> shifted(encs, t, i, s) != shifted(encs, t, j, s)
}

/// No value of `[lo1, hi1)` shares a shifted encoding with one of
/// `[lo2, hi2)` under shift `s`.
pub open spec fn no_dup_across(
    encs: Seq<Elem>,
    t: Seq<Elem>,
    s: int,
    lo1: int,
    hi1: int,
    lo2: int,
    hi2: int,
) -> bool {
    forall|i: int, j: int|
        lo1 <= i < hi1 && lo2 <= j < hi2 ==> shifted(encs, t, i, s) != shifted(encs, t, j, s)
}

/// Every collision between shift `s1` and shift `s2` over `[0, n)` is
/// explained by the expected 32-bit rotation.
pub open spec fn rotations_consistent_32(
    encs: Seq<Elem>,
    t: Seq<Elem>,
    s1: int,
    s2: int,
    n: int,
) -> bool {
    forall|v1: int, v2: int|
        0 <= v1 < n && 0 <= v2 < n && shifted(encs, t, v1, s1) == shifted(encs, t, v2, s2)
            ==> rot32(v1 as u32, s1 as u32) == rot32(v2 as u32, s2 as u32)
}

/// A detected violation of the encoding scheme's collision discipline.
/// Each variant carries the colliding element and the witnesses needed to
/// diagnose which inputs collided.
pub enum EncodingFault {
    /// Two distinct values produced the same shifted encoding under one and
    /// the same shift — the encoding is not even injective.
    Duplicate { element: Elem, value_1: u32, value_2: u32, shift: u32 },
    /// Two (value, shift) pairs collided although the corresponding bit
    /// rotations disagree — the primary property under test fails.
    RotationMismatch { element: Elem, value_1: u32, shift_1: u32, value_2: u32, shift_2: u32 },
}

/// Some recorded element carries exactly the shifted encoding of `v`.
pub open spec fn covered(ix: ColIndex, encs: Seq<Elem>, t: Seq<Elem>, v: int, s: int) -> bool {
    exists|e: Elem| (#[trigger] ix.spec_has(e)) && e.value() == shifted(encs, t, v, s)
}

/// The index built over one chunk is faithful: every stored witness comes
/// from the chunk and carries its own shifted encoding, and every chunk
/// value is represented.
pub open spec fn chunk_index_ok(
    ix: ColIndex,
    encs: Seq<Elem>,
    t: Seq<Elem>,
    s: int,
    lo: int,
    hi: int,
) -> bool {
    &&& ix.wf()
    &&& forall|e: Elem| #[trigger]
        ix.spec_has(e) ==> {
            &&& e.valid()
            &&& lo <= ix.spec_at(e).0 < hi
            &&& ix.spec_at(e).1 == s
            &&& e.value() == shifted(encs, t, ix.spec_at(e).0 as int, s)
        }
    &&& forall|v: int| lo <= v < hi ==> #[trigger] covered(ix, encs, t, v, s)
}

/// Build the collision index for the values of `[start, end)` under the
/// given shift, failing on the first duplicate found within the range.
pub fn build_chunk_index(
    encs: &Vec<Elem>,
    gen_powers: &Vec<Elem>,
    shift: usize,
    start: usize,
    end: usize,
    nbuckets: usize,
) -> (r: Result<ColIndex, EncodingFault>)
    requires
        is_powers(gen_powers@),
        (shift as int) < gen_powers@.len(),
        shift < 0x1_0000_0000,
        start <= end,
        end <= encs@.len(),
        encs@.len() as nat <= 0x1_0000_0000nat,
        forall|i: int| 0 <= i < encs@.len() ==> (#[trigger] encs@[i]).valid(),
        nbuckets >= 1,
    ensures
        match r {
            Ok(ix) => {
                &&& chunk_index_ok(ix, encs@, gen_powers@, shift as int, start as int, end as int)
                &&& no_dup_in(encs@, gen_powers@, shift as int, start as int, end as int)
            },
            Err(f) => {
                &&& f is Duplicate
                &&& (f matches EncodingFault::Duplicate { element, value_1, value_2, shift: fs }
                    ==> {
                    &&& fs == shift
                    &&& start <= value_1 < value_2 < end
                    &&& element.valid()
                    &&& element.value() == shifted(
                        encs@,
                        gen_powers@,
                        value_1 as int,
                        shift as int,
                    )
                    &&& element.value() == shifted(
                        encs@,
                        gen_powers@,
                        value_2 as int,
                        shift as int,
                    )
                })
            },
        },
{
    let mut ix = ColIndex::new(nbuckets);
    let mut v = start;
    while v < end
        invariant
            is_powers(gen_powers@),
            (shift as int) < gen_powers@.len(),
            shift < 0x1_0000_0000,
            start <= v <= end,
            end <= encs@.len(),
            encs@.len() as nat <= 0x1_0000_0000nat,
            forall|i: int| 0 <= i < encs@.len() ==> (#[trigger] encs@[i]).valid(),
            ix.wf(),
            forall|e: Elem| #[trigger]
                ix.spec_has(e) ==> {
                    &&& e.valid()
                    &&& start <= ix.spec_at(e).0 < v
                    &&& ix.spec_at(e).1 == shift
                    &&& e.value() == shifted(
                        encs@,
                        gen_powers@,
                        ix.spec_at(e).0 as int,
                        shift as int,
                    )
                },
            forall|i: int|
                start <= i < v ==> #[trigger] covered(ix, encs@, gen_powers@, i, shift as int),
            no_dup_in(encs@, gen_powers@, shift as int, start as int, v as int),
        decreases end - v,
    {
        let el = fr_mul(&encs[v], &gen_powers[shift]);
        match ix.get(&el) {
            Some(w) => {
                return Err(
                    EncodingFault::Duplicate {
                        element: el,
                        value_1: w.0,
                        value_2: v as u32,
                        shift: shift as u32,
                    },
                );
            },
            None => {
                proof {
                    assert forall|i: int| start <= i < v implies shifted(
                        encs@,
                        gen_powers@,
                        i,
                        shift as int,
                    ) != el.value() by {
                        if shifted(encs@, gen_powers@, i, shift as int) == el.value() {
                            assert(covered(ix, encs@, gen_powers@, i, shift as int));
                            let e2 = choose|e2: Elem|
                                (#[trigger] ix.spec_has(e2)) && e2.value() == shifted(
                                    encs@,
                                    gen_powers@,
                                    i,
                                    shift as int,
                                );
                            lemma_value_injective(e2, el);
                        }
                    }
                }
                let ghost pre = ix;
                ix.insert(el, v as u32, shift as u32);
                proof {
                    assert(ix.spec_has(el) && el.value() == shifted(
                        encs@,
                        gen_powers@,
                        v as int,
                        shift as int,
                    ));
                    assert(covered(ix, encs@, gen_powers@, v as int, shift as int));
                    assert forall|i: int| start <= i < v implies #[trigger] covered(
                        ix,
                        encs@,
                        gen_powers@,
                        i,
                        shift as int,
                    ) by {
                        assert(covered(pre, encs@, gen_powers@, i, shift as int));
                        let e2 = choose|e2: Elem|
                            (#[trigger] pre.spec_has(e2)) && e2.value() == shifted(
                                encs@,
                                gen_powers@,
                                i,
                                shift as int,
                            );
                        if e2 == el {
                            assert(ix.spec_has(el));
                        } else {
                            assert(ix.spec_has(e2));
                        }
                    }
                }
                v += 1;
            },
        }
    }
    proof {
        assert(forall|v2: int|
            start <= v2 < end ==> #[trigger] covered(ix, encs@, gen_powers@, v2, shift as int));
        assert(chunk_index_ok(ix, encs@, gen_powers@, shift as int, start as int, end as int));
    }
    Ok(ix)
}

/// Check that no two values of the whole range collide under one shift, in
/// a single pass over the base encodings.
pub fn check_no_duplicates(
    encs: &Vec<Elem>,
    gen_powers: &Vec<Elem>,
    shift: usize,
    nbuckets: usize,
) -> (r: Result<(), EncodingFault>)
    requires
        is_powers(gen_powers@),
        (shift as int) < gen_powers@.len(),
        shift < 0x1_0000_0000,
        encs@.len() as nat <= 0x1_0000_0000nat,
        forall|i: int| 0 <= i < encs@.len() ==> (#[trigger] encs@[i]).valid(),
        nbuckets >= 1,
    ensures
        r is Ok ==> no_dup_in(encs@, gen_powers@, shift as int, 0, encs@.len() as int),
        no_dup_in(encs@, gen_powers@, shift as int, 0, encs@.len() as int) ==> r is Ok,
        r matches Err(f) ==> {
            &&& f is Duplicate
            &&& (f matches EncodingFault::Duplicate { element, value_1, value_2, shift: fs } ==> {
                &&& fs == shift
                &&& value_1 < value_2 < encs@.len()
                &&& element.valid()
                &&& element.value() == shifted(encs@, gen_powers@, value_1 as int, shift as int)
                &&& element.value() == shifted(encs@, gen_powers@, value_2 as int, shift as int)
            })
        },
{
    match build_chunk_index(encs, gen_powers, shift, 0, encs.len(), nbuckets) {
        Ok(_) => Ok(()),
        Err(f) => Err(f),
    }
}

/// First value of chunk `c` when the range is cut into chunks of `cs`.
pub open spec fn chunk_lo(c: int, cs: int) -> int {
    c * cs
}

/// One past the last value of chunk `c` over a range of length `n`.
pub open spec fn chunk_hi(c: int, cs: int, n: int) -> int {
    if (c + 1) * cs <= n {
        (c + 1) * cs
    } else {
        n
    }
}

/// How many chunks of size `cs` cover a range of length `n`.
pub open spec fn num_chunks(n: int, cs: int) -> int {
    if n % cs == 0 {
        n / cs
    } else {
        n / cs + 1
    }
}

/// Chunks are well-formed sub-ranges of `[0, n)`.
proof fn lemma_chunk_bounds(c: int, cs: int, n: int)
    requires
        cs >= 1,
        0 <= c < num_chunks(n, cs),
    ensures
        0 <= chunk_lo(c, cs) < n,
        chunk_lo(c, cs) < chunk_hi(c, cs, n) <= n,
        chunk_hi(c, cs, n) - chunk_lo(c, cs) <= cs,
{
    let q = n / cs;
    let r = n % cs;
    vstd::arithmetic::div_mod::lemma_fundamental_div_mod(n, cs);
    vstd::arithmetic::div_mod::lemma_mod_bound(n, cs);
    if r == 0 {
        assert(0 <= c * cs && c * cs < n && (c + 1) * cs <= n) by (nonlinear_arith)
            requires
                n == cs * q + r,
                r == 0,
                0 <= c < q,
                cs >= 1,
        ;
    } else {
        assert(0 <= c * cs && c * cs < n) by (nonlinear_arith)
            requires
                n == cs * q + r,
                0 < r < cs,
                0 <= c <= q,
                cs >= 1,
        ;
    }
    assert(c * cs + cs == (c + 1) * cs) by (nonlinear_arith);
}

/// Every value of `[0, n)` lies in its own chunk, `i / cs`.
proof fn lemma_chunk_of(i: int, cs: int, n: int)
    requires
        cs >= 1,
        0 <= i < n,
    ensures
        0 <= i / cs < num_chunks(n, cs),
        chunk_lo(i / cs, cs) <= i < chunk_hi(i / cs, cs, n),
{
    let c = i / cs;
    vstd::arithmetic::div_mod::lemma_fundamental_div_mod(i, cs);
    vstd::arithmetic::div_mod::lemma_mod_bound(i, cs);
    assert(i == cs * c + i % cs);
    assert(c * cs + cs == (c + 1) * cs) by (nonlinear_arith);
    vstd::arithmetic::div_mod::lemma_fundamental_div_mod(n, cs);
    vstd::arithmetic::div_mod::lemma_mod_bound(n, cs);
    let q = n / cs;
    if n % cs == 0 {
        assert(n - 1 == (q - 1) * cs + (cs - 1)) by (nonlinear_arith)
            requires
                n == cs * q + n % cs,
                n % cs == 0,
        ;
        vstd::arithmetic::div_mod::lemma_fundamental_div_mod_converse(n - 1, cs, q - 1, cs - 1);
        vstd::arithmetic::div_mod::lemma_div_is_ordered(i, n - 1, cs);
    } else {
        assert(n - 1 == q * cs + (n % cs - 1)) by (nonlinear_arith)
            requires
                n == cs * q + n % cs,
        ;
        vstd::arithmetic::div_mod::lemma_fundamental_div_mod_converse(n - 1, cs, q, n % cs - 1);
        vstd::arithmetic::div_mod::lemma_div_is_ordered(i, n - 1, cs);
    }
}

/// The bounds of chunk `c`, as machine integers.
fn chunk_bounds(c: usize, chunk_size: usize, n: usize) -> (r: (usize, usize))
    requires
        chunk_size >= 1,
        (c as int) < num_chunks(n as int, chunk_size as int),
    ensures
        r.0 as int == chunk_lo(c as int, chunk_size as int),
        r.1 as int == chunk_hi(c as int, chunk_size as int, n as int),
        r.0 < r.1 <= n,
{
    proof {
        lemma_chunk_bounds(c as int, chunk_size as int, n as int);
        assert((c as int) * (chunk_size as int) + (chunk_size as int) == ((c as int) + 1) * (
        chunk_size as int)) by (nonlinear_arith);
    }
    let start = c * chunk_size;
    let end = if n - start <= chunk_size {
        n
    } else {
        start + chunk_size
    };
    (start, end)
}

/// Probe the shifted encodings of `[start, end)` against a sibling chunk's
/// index; a hit means two distinct values share a shifted encoding.
fn probe_chunk(
    encs: &Vec<Elem>,
    gen_powers: &Vec<Elem>,
    shift: usize,
    start: usize,
    end: usize,
    ix: &ColIndex,
    other_lo: Ghost<int>,
    other_hi: Ghost<int>,
) -> (r: Option<(u32, u32, Elem)>)
    requires
        is_powers(gen_powers@),
        (shift as int) < gen_powers@.len(),
        start <= end,
        end <= encs@.len(),
        encs@.len() as nat <= 0x1_0000_0000nat,
        forall|i: int| 0 <= i < encs@.len() ==> (#[trigger] encs@[i]).valid(),
        chunk_index_ok(*ix, encs@, gen_powers@, shift as int, other_lo@, other_hi@),
    ensures
        match r {
            Some(w) => {
                &&& other_lo@ <= w.0 < other_hi@
                &&& start <= w.1 < end
                &&& w.2.valid()
                &&& w.2.value() == shifted(encs@, gen_powers@, w.0 as int, shift as int)
                &&& w.2.value() == shifted(encs@, gen_powers@, w.1 as int, shift as int)
            },
            None => no_dup_across(
                encs@,
                gen_powers@,
                shift as int,
                other_lo@,
                other_hi@,
                start as int,
                end as int,
            ),
        },
{
    let mut v = start;
    while v < end
        invariant
            is_powers(gen_powers@),
            (shift as int) < gen_powers@.len(),
            start <= v <= end,
            end <= encs@.len(),
            encs@.len() as nat <= 0x1_0000_0000nat,
            forall|i: int| 0 <= i < encs@.len() ==> (#[trigger] encs@[i]).valid(),
            chunk_index_ok(*ix, encs@, gen_powers@, shift as int, other_lo@, other_hi@),
            no_dup_across(
                encs@,
                gen_powers@,
                shift as int,
                other_lo@,
                other_hi@,
                start as int,
                v as int,
            ),
        decreases end - v,
    {
        let el = fr_mul(&encs[v], &gen_powers[shift]);
        match ix.get(&el) {
            Some(w) => {
                return Some((w.0, v as u32, el));
            },
            None => {
                proof {
                    assert forall|i: int| other_lo@ <= i < other_hi@ implies shifted(
                        encs@,
                        gen_powers@,
                        i,
                        shift as int,
                    ) != el.value() by {
                        if shifted(encs@, gen_powers@, i, shift as int) == el.value() {
                            assert(covered(*ix, encs@, gen_powers@, i, shift as int));
                            let e2 = choose|e2: Elem|
                                (#[trigger] ix.spec_has(e2)) && e2.value() == shifted(
                                    encs@,
                                    gen_powers@,
                                    i,
                                    shift as int,
                                );
                            lemma_value_injective(e2, el);
                        }
                    }
                }
                v += 1;
            },
        }
    }
    None
}

/// Check that no two values of the whole range collide under one shift, by
/// cutting the range into chunks, indexing each chunk on its own, and then
/// cross-checking every pair of chunks — the sharded form of
/// `check_no_duplicates`, with the same verdict.
pub fn check_no_duplicates_chunked(
    encs: &Vec<Elem>,
    gen_powers: &Vec<Elem>,
    shift: usize,
    chunk_size: usize,
    nbuckets: usize,
) -> (r: Result<(), EncodingFault>)
    requires
        is_powers(gen_powers@),
        (shift as int) < gen_powers@.len(),
        shift < 0x1_0000_0000,
        encs@.len() as nat <= 0x1_0000_0000nat,
        forall|i: int| 0 <= i < encs@.len() ==> (#[trigger] encs@[i]).valid(),
        chunk_size >= 1,
        nbuckets >= 1,
    ensures
        r is Ok ==> no_dup_in(encs@, gen_powers@, shift as int, 0, encs@.len() as int),
        no_dup_in(encs@, gen_powers@, shift as int, 0, encs@.len() as int) ==> r is Ok,
        r matches Err(f) ==> {
            &&& f is Duplicate
            &&& (f matches EncodingFault::Duplicate { element, value_1, value_2, shift: fs } ==> {
                &&& fs == shift
                &&& value_1 < value_2 < encs@.len()
                &&& element.valid()
                &&& element.value() == shifted(encs@, gen_powers@, value_1 as int, shift as int)
                &&& element.value() == shifted(encs@, gen_powers@, value_2 as int, shift as int)
            })
        },
{
    let n = encs.len();
    let ghost cs = chunk_size as int;
    let nc = if n % chunk_size == 0 {
        n / chunk_size
    } else {
        proof {
            if n == 0 {
                vstd::arithmetic::div_mod::lemma_small_mod(0nat, chunk_size as nat);
            }
            assert(n > 0);
            if chunk_size == 1 {
                assert(n as int % 1int == 0);
            }
            vstd::arithmetic::div_mod::lemma_div_decreases(n as int, chunk_size as int);
        }
        n / chunk_size + 1
    };
    assert(nc as int == num_chunks(n as int, cs));
    let mut indexes: Vec<ColIndex> = Vec::new();
    let mut c: usize = 0;
    while c < nc
        invariant
            is_powers(gen_powers@),
            (shift as int) < gen_powers@.len(),
            shift < 0x1_0000_0000,
            n == encs@.len(),
            encs@.len() as nat <= 0x1_0000_0000nat,
            forall|i: int| 0 <= i < encs@.len() ==> (#[trigger] encs@[i]).valid(),
            chunk_size >= 1,
            nbuckets >= 1,
            cs == chunk_size as int,
            nc as int == num_chunks(n as int, cs),
            c <= nc,
            indexes@.len() == c,
            forall|a: int|
                0 <= a < c ==> #[trigger] chunk_index_ok(
                    indexes@[a],
                    encs@,
                    gen_powers@,
                    shift as int,
                    chunk_lo(a, cs),
                    chunk_hi(a, cs, n as int),
                ),
            forall|a: int|
                0 <= a < c ==> #[trigger] no_dup_in(
                    encs@,
                    gen_powers@,
                    shift as int,
                    chunk_lo(a, cs),
                    chunk_hi(a, cs, n as int),
                ),
        decreases nc - c,
    {
        let (start, end) = chunk_bounds(c, chunk_size, n);
        match build_chunk_index(encs, gen_powers, shift, start, end, nbuckets) {
            Err(f) => {
                return Err(f);
            },
            Ok(ix) => {
                indexes.push(ix);
            },
        }
        c += 1;
    }
    let mut cj: usize = 1;
    while cj < nc
        invariant
            is_powers(gen_powers@),
            (shift as int) < gen_powers@.len(),
            shift < 0x1_0000_0000,
            n == encs@.len(),
            encs@.len() as nat <= 0x1_0000_0000nat,
            forall|i: int| 0 <= i < encs@.len() ==> (#[trigger] encs@[i]).valid(),
            chunk_size >= 1,
            nbuckets >= 1,
            cs == chunk_size as int,
            nc as int == num_chunks(n as int, cs),
            1 <= cj,
            indexes@.len() == nc,
            forall|a: int|
                0 <= a < nc ==> #[trigger] chunk_index_ok(
                    indexes@[a],
                    encs@,
                    gen_powers@,
                    shift as int,
                    chunk_lo(a, cs),
                    chunk_hi(a, cs, n as int),
                ),
            forall|a: int|
                0 <= a < nc ==> #[trigger] no_dup_in(
                    encs@,
                    gen_powers@,
                    shift as int,
                    chunk_lo(a, cs),
                    chunk_hi(a, cs, n as int),
                ),
            forall|a: int, b: int|
                0 <= a < b < cj && b < nc ==> #[trigger] no_dup_across(
                    encs@,
                    gen_powers@,
                    shift as int,
                    chunk_lo(a, cs),
                    chunk_hi(a, cs, n as int),
                    chunk_lo(b, cs),
                    chunk_hi(b, cs, n as int),
                ),
        decreases nc - cj,
    {
        let (startj, endj) = chunk_bounds(cj, chunk_size, n);
        let mut ci: usize = 0;
        while ci < cj
            invariant
                is_powers(gen_powers@),
                (shift as int) < gen_powers@.len(),
                shift < 0x1_0000_0000,
                n == encs@.len(),
                encs@.len() as nat <= 0x1_0000_0000nat,
                forall|i: int| 0 <= i < encs@.len() ==> (#[trigger] encs@[i]).valid(),
                chunk_size >= 1,
                cs == chunk_size as int,
                nc as int == num_chunks(n as int, cs),
                ci <= cj < nc,
                startj as int == chunk_lo(cj as int, cs),
                endj as int == chunk_hi(cj as int, cs, n as int),
                startj < endj <= n,
                indexes@.len() == nc,
                forall|a: int|
                    0 <= a < nc ==> #[trigger] chunk_index_ok(
                        indexes@[a],
                        encs@,
                        gen_powers@,
                        shift as int,
                        chunk_lo(a, cs),
                        chunk_hi(a, cs, n as int),
                    ),
                forall|a: int|
                    0 <= a < ci ==> #[trigger] no_dup_across(
                        encs@,
                        gen_powers@,
                        shift as int,
                        chunk_lo(a, cs),
                        chunk_hi(a, cs, n as int),
                        chunk_lo(cj as int, cs),
                        chunk_hi(cj as int, cs, n as int),
                    ),
            decreases cj - ci,
        {
            let hit = probe_chunk(
                encs,
                gen_powers,
                shift,
                startj,
                endj,
                &indexes[ci],
                Ghost(chunk_lo(ci as int, cs)),
                Ghost(chunk_hi(ci as int, cs, n as int)),
            );
            match hit {
                Some(w) => {
                    proof {
                        lemma_chunk_bounds(ci as int, cs, n as int);
                        vstd::arithmetic::mul::lemma_mul_inequality(
                            ci as int + 1,
                            cj as int,
                            cs,
                        );
                    }
                    return Err(
                        EncodingFault::Duplicate {
                            element: w.2,
                            value_1: w.0,
                            value_2: w.1,
                            shift: shift as u32,
                        },
                    );
                },
                None => {
                },
            }
            ci += 1;
        }
        cj += 1;
    }
    proof {
        assert forall|i: int, j: int| 0 <= i < j < n implies shifted(
            encs@,
            gen_powers@,
            i,
            shift as int,
        ) != shifted(encs@, gen_powers@, j, shift as int) by {
            lemma_chunk_of(i, cs, n as int);
            lemma_chunk_of(j, cs, n as int);
            let a = i / cs;
            let b = j / cs;
            vstd::arithmetic::div_mod::lemma_div_is_ordered(i, j, cs);
            if a == b {
                assert(no_dup_in(
                    encs@,
                    gen_powers@,
                    shift as int,
                    chunk_lo(a, cs),
                    chunk_hi(a, cs, n as int),
                ));
            } else {
                assert(no_dup_across(
                    encs@,
                    gen_powers@,
                    shift as int,
                    chunk_lo(a, cs),
                    chunk_hi(a, cs, n as int),
                    chunk_lo(b, cs),
                    chunk_hi(b, cs, n as int),
                ));
            }
        }
    }
    Ok(())
}

/// Law: sharding does not change the verdict — a chunked duplicate check
/// and a single-pass duplicate check over the same range and shift agree on
/// whether the range is collision-free, whatever the chunking was.
pub proof fn lemma_chunking_agrees(
    encs: Seq<Elem>,
    t: Seq<Elem>,
    s: int,
    single: Result<(), EncodingFault>,
    chunked: Result<(), EncodingFault>,
)
    requires
        single is Ok <==> no_dup_in(encs, t, s, 0, encs.len() as int),
        chunked is Ok <==> no_dup_in(encs, t, s, 0, encs.len() as int),
    ensures
        single is Ok <==> chunked is Ok,
{
}

/// For one ordered pair of shifts, index the whole range under `shift_1`
/// and scan it under `shift_2`; every index hit must be explained by the
/// expected rotation, and any unexplained collision is reported.
pub fn check_shift_pair(
    encs: &Vec<Elem>,
    gen_powers: &Vec<Elem>,
    shift_1: usize,
    shift_2: usize,
    nbuckets: usize,
) -> (r: Result<(), EncodingFault>)
    requires
        is_powers(gen_powers@),
        shift_1 < shift_2 < 32,
        (shift_2 as int) < gen_powers@.len(),
        encs@.len() as nat <= 0x1_0000_0000nat,
        forall|i: int| 0 <= i < encs@.len() ==> (#[trigger] encs@[i]).valid(),
        nbuckets >= 1,
    ensures
        r is Ok ==> no_dup_in(encs@, gen_powers@, shift_1 as int, 0, encs@.len() as int)
            && rotations_consistent_32(
            encs@,
            gen_powers@,
            shift_1 as int,
            shift_2 as int,
            encs@.len() as int,
        ),
        no_dup_in(encs@, gen_powers@, shift_1 as int, 0, encs@.len() as int)
            && rotations_consistent_32(
            encs@,
            gen_powers@,
            shift_1 as int,
            shift_2 as int,
            encs@.len() as int,
        ) ==> r is Ok,
        r matches Err(EncodingFault::Duplicate { element, value_1, value_2, shift: fs }) ==> {
            &&& fs == shift_1
            &&& value_1 < value_2 < encs@.len()
            &&& element.valid()
            &&& element.value() == shifted(encs@, gen_powers@, value_1 as int, shift_1 as int)
            &&& element.value() == shifted(encs@, gen_powers@, value_2 as int, shift_1 as int)
        },
        r matches Err(
            EncodingFault::RotationMismatch { element, value_1, shift_1: fs1, value_2, shift_2: fs2 },
        ) ==> {
            &&& fs1 == shift_1
            &&& fs2 == shift_2
            &&& value_1 < encs@.len()
            &&& value_2 < encs@.len()
            &&& element.valid()
            &&& element.value() == shifted(encs@, gen_powers@, value_1 as int, shift_1 as int)
            &&& element.value() == shifted(encs@, gen_powers@, value_2 as int, shift_2 as int)
            &&& rot32(value_1, fs1) != rot32(value_2, fs2)
        },
{
    let n = encs.len();
    let ix = match build_chunk_index(encs, gen_powers, shift_1, 0, n, nbuckets) {
        Err(f) => {
            return Err(f);
        },
        Ok(ix) => ix,
    };
    let mut v: usize = 0;
    while v < n
        invariant
            is_powers(gen_powers@),
            shift_1 < shift_2 < 32,
            (shift_2 as int) < gen_powers@.len(),
            n == encs@.len(),
            encs@.len() as nat <= 0x1_0000_0000nat,
            forall|i: int| 0 <= i < encs@.len() ==> (#[trigger] encs@[i]).valid(),
            v <= n,
            chunk_index_ok(ix, encs@, gen_powers@, shift_1 as int, 0, n as int),
            no_dup_in(encs@, gen_powers@, shift_1 as int, 0, n as int),
            forall|v1: int, v2: int|
                0 <= v1 < n && 0 <= v2 < v && shifted(encs@, gen_powers@, v1, shift_1 as int)
                    == shifted(encs@, gen_powers@, v2, shift_2 as int) ==> rot32(
                    v1 as u32,
                    shift_1 as u32,
                ) == rot32(v2 as u32, shift_2 as u32),
        decreases n - v,
    {
        let el = fr_mul(&encs[v], &gen_powers[shift_2]);
        match ix.get(&el) {
            Some(w) => {
                let r1 = rotate_left_32(w.0, w.1 as usize);
                let r2 = rotate_left_32(v as u32, shift_2);
                if r1 != r2 {
                    proof {
                        assert(el.value() == shifted(encs@, gen_powers@, v as int, shift_2 as int));
                        assert(el.value() == shifted(
                            encs@,
                            gen_powers@,
                            w.0 as int,
                            shift_1 as int,
                        ));
                        assert(rot32(w.0, shift_1 as u32) != rot32(v as u32, shift_2 as u32));
                        assert(!rotations_consistent_32(
                            encs@,
                            gen_powers@,
                            shift_1 as int,
                            shift_2 as int,
                            n as int,
                        ));
                    }
                    return Err(
                        EncodingFault::RotationMismatch {
                            element: el,
                            value_1: w.0,
                            shift_1: w.1,
                            value_2: v as u32,
                            shift_2: shift_2 as u32,
                        },
                    );
                }
                proof {
                    assert forall|v1: int|
                        0 <= v1 < n && shifted(encs@, gen_powers@, v1, shift_1 as int) == shifted(
                            encs@,
                            gen_powers@,
                            v as int,
                            shift_2 as int,
                        ) implies rot32(v1 as u32, shift_1 as u32) == rot32(
                        v as u32,
                        shift_2 as u32,
                    ) by {
                        if v1 < w.0 as int {
                            assert(shifted(encs@, gen_powers@, v1, shift_1 as int) != shifted(
                                encs@,
                                gen_powers@,
                                w.0 as int,
                                shift_1 as int,
                            ));
                        } else if v1 > w.0 as int {
                            assert(shifted(encs@, gen_powers@, w.0 as int, shift_1 as int)
                                != shifted(encs@, gen_powers@, v1, shift_1 as int));
                        }
                    }
                }
            },
            None => {
                proof {
                    assert forall|v1: int| 0 <= v1 < n implies shifted(
                        encs@,
                        gen_powers@,
                        v1,
                        shift_1 as int,
                    ) != shifted(encs@, gen_powers@, v as int, shift_2 as int) by {
                        if shifted(encs@, gen_powers@, v1, shift_1 as int) == shifted(
                            encs@,
                            gen_powers@,
                            v as int,
                            shift_2 as int,
                        ) {
                            assert(covered(ix, encs@, gen_powers@, v1, shift_1 as int));
                            let e2 = choose|e2: Elem|
                                (#[trigger] ix.spec_has(e2)) && e2.value() == shifted(
                                    encs@,
                                    gen_powers@,
                                    v1,
                                    shift_1 as int,
                                );
                            lemma_value_injective(e2, el);
                        }
                    }
                }
            },
        }
        v += 1;
    }
    Ok(())
}

/// Run the whole 32-bit verification sequence over the given base
/// encodings: every shift is checked for duplicates (sharded into chunks),
/// then every unordered pair of shifts is cross-checked against the
/// ground-truth rotation.
pub fn verify_encodings_32(
    encs: &Vec<Elem>,
    gen_powers: &Vec<Elem>,
    chunk_size: usize,
    nbuckets: usize,
) -> (r: Result<(), EncodingFault>)
    requires
        is_powers(gen_powers@),
        gen_powers@.len() >= 32,
        encs@.len() as nat <= 0x1_0000_0000nat,
        forall|i: int| 0 <= i < encs@.len() ==> (#[trigger] encs@[i]).valid(),
        chunk_size >= 1,
        nbuckets >= 1,
    ensures
        r is Ok ==> (forall|s: int|
            0 <= s < 32 ==> #[trigger] no_dup_in(encs@, gen_powers@, s, 0, encs@.len() as int))
            && (forall|s1: int, s2: int|
            0 <= s1 < s2 < 32 ==> #[trigger] rotations_consistent_32(
                encs@,
                gen_powers@,
                s1,
                s2,
                encs@.len() as int,
            )),
        (forall|s: int|
            0 <= s < 32 ==> #[trigger] no_dup_in(encs@, gen_powers@, s, 0, encs@.len() as int))
            && (forall|s1: int, s2: int|
            0 <= s1 < s2 < 32 ==> #[trigger] rotations_consistent_32(
                encs@,
                gen_powers@,
                s1,
                s2,
                encs@.len() as int,
            )) ==> r is Ok,
        r matches Err(EncodingFault::Duplicate { element, value_1, value_2, shift: fs }) ==> {
            &&& fs < 32
            &&& value_1 < value_2 < encs@.len()
            &&& element.valid()
            &&& element.value() == shifted(encs@, gen_powers@, value_1 as int, fs as int)
            &&& element.value() == shifted(encs@, gen_powers@, value_2 as int, fs as int)
        },
        r matches Err(
            EncodingFault::RotationMismatch { element, value_1, shift_1: fs1, value_2, shift_2: fs2 },
        ) ==> {
            &&& fs1 < fs2 < 32
            &&& value_1 < encs@.len()
            &&& value_2 < encs@.len()
            &&& element.valid()
            &&& element.value() == shifted(encs@, gen_powers@, value_1 as int, fs1 as int)
            &&& element.value() == shifted(encs@, gen_powers@, value_2 as int, fs2 as int)
            &&& rot32(value_1, fs1) != rot32(value_2, fs2)
        },
{
    let n = encs.len();
    for s in 0..32usize
        invariant
            is_powers(gen_powers@),
            gen_powers@.len() >= 32,
            n == encs@.len(),
            encs@.len() as nat <= 0x1_0000_0000nat,
            forall|i: int| 0 <= i < encs@.len() ==> (#[trigger] encs@[i]).valid(),
            chunk_size >= 1,
            nbuckets >= 1,
            forall|a: int|
                0 <= a < s ==> #[trigger] no_dup_in(encs@, gen_powers@, a, 0, n as int),
    {
        match check_no_duplicates_chunked(encs, gen_powers, s, chunk_size, nbuckets) {
            Err(f) => {
                return Err(f);
            },
            Ok(()) => {
            },
        }
    }
    for s1 in 0..32usize
        invariant
            is_powers(gen_powers@),
            gen_powers@.len() >= 32,
            n == encs@.len(),
            encs@.len() as nat <= 0x1_0000_0000nat,
            forall|i: int| 0 <= i < encs@.len() ==> (#[trigger] encs@[i]).valid(),
            nbuckets >= 1,
            forall|a: int|
                0 <= a < 32 ==> #[trigger] no_dup_in(encs@, gen_powers@, a, 0, n as int),
            forall|a: int, b: int|
                0 <= a < b < 32 && a < s1 ==> #[trigger] rotations_consistent_32(
                    encs@,
                    gen_powers@,
                    a,
                    b,
                    n as int,
                ),
    {
        let mut s2 = s1 + 1;
        while s2 < 32
            invariant
                is_powers(gen_powers@),
                gen_powers@.len() >= 32,
                n == encs@.len(),
                encs@.len() as nat <= 0x1_0000_0000nat,
                forall|i: int| 0 <= i < encs@.len() ==> (#[trigger] encs@[i]).valid(),
                nbuckets >= 1,
                s1 < 32,
                s1 < s2 <= 32,
                forall|a: int|
                    0 <= a < 32 ==> #[trigger] no_dup_in(encs@, gen_powers@, a, 0, n as int),
                forall|a: int, b: int|
                    0 <= a < b < 32 && (a < s1 || (a == s1 && b < s2)) ==> #[trigger]
                        rotations_consistent_32(encs@, gen_powers@, a, b, n as int),
            decreases 32 - s2,
        {
            match check_shift_pair(encs, gen_powers, s1, s2, nbuckets) {
                Err(f) => {
                    return Err(f);
                },
                Ok(()) => {
                },
            }
            s2 += 1;
        }
    }
    Ok(())
}

/// The shifted encoding of a 16-bit value: its encoding multiplied by the
/// generator power at the shift.
pub open spec fn shifted16(g: nat, v: nat, s: nat) -> nat {
    mul_mod(enc(g, v, 16), pow_mod(g, s))
}

/// The (value, shift) pairs already scanned when the 16-bit search stands
/// at `(v, s)`: values go outward, shifts inward.
pub open spec fn scanned16(v1: int, s1: int, v: int, s: int) -> bool {
    &&& 1 <= v1
    &&& 1 <= s1 < 16
    &&& (v1 < v || (v1 == v && s1 < s))
}

/// Some recorded element carries exactly the shifted 16-bit encoding.
pub open spec fn covered16(ix: ColIndex, g: nat, v1: int, s1: int) -> bool {
    exists|e: Elem| (#[trigger] ix.spec_has(e)) && e.value() == shifted16(g, v1 as nat, s1 as nat)
}

/// Scan every value `1 <= v < limit` under every shift `1 <= s < 16`,
/// recording each shifted encoding, and judge every collision against the
/// ground-truth 16-bit rotation.  `Ok` means every collision among the
/// scanned pairs is rotation-explained; the first unexplained one is
/// returned as a fault.
pub fn check_all_shifts_16(gen_powers: &Vec<Elem>, limit: u32, nbuckets: usize) -> (r: Result<
    (),
    EncodingFault,
>)
    requires
        is_powers(gen_powers@),
        gen_powers@.len() >= 32,
        limit as nat <= 0x1_0000nat,
        nbuckets >= 1,
    ensures
        r is Ok ==> (forall|v1: int, s1: int, v2: int, s2: int|
            #![trigger shifted16(gen_of(gen_powers@), v1 as nat, s1 as nat), shifted16(gen_of(gen_powers@), v2 as nat, s2 as nat)]
            1 <= v1 < limit && 1 <= s1 < 16 && 1 <= v2 < limit && 1 <= s2 < 16 && shifted16(
                gen_of(gen_powers@),
                v1 as nat,
                s1 as nat,
            ) == shifted16(gen_of(gen_powers@), v2 as nat, s2 as nat) ==> rot16(
                v1 as u16,
                s1 as u16,
            ) == rot16(v2 as u16, s2 as u16)),
        (forall|v1: int, s1: int, v2: int, s2: int|
            #![trigger shifted16(gen_of(gen_powers@), v1 as nat, s1 as nat), shifted16(gen_of(gen_powers@), v2 as nat, s2 as nat)]
            1 <= v1 < limit && 1 <= s1 < 16 && 1 <= v2 < limit && 1 <= s2 < 16 && shifted16(
                gen_of(gen_powers@),
                v1 as nat,
                s1 as nat,
            ) == shifted16(gen_of(gen_powers@), v2 as nat, s2 as nat) ==> rot16(
                v1 as u16,
                s1 as u16,
            ) == rot16(v2 as u16, s2 as u16)) ==> r is Ok,
        r matches Err(f) ==> f is RotationMismatch,
        r matches Err(
            EncodingFault::RotationMismatch { element, value_1, shift_1: fs1, value_2, shift_2: fs2 },
        ) ==> {
            &&& 1 <= value_1 < limit
            &&& 1 <= fs1 < 16
            &&& 1 <= value_2 < limit
            &&& 1 <= fs2 < 16
            &&& (value_1, fs1) != (value_2, fs2)
            &&& element.valid()
            &&& element.value() == shifted16(gen_of(gen_powers@), value_1 as nat, fs1 as nat)
            &&& element.value() == shifted16(gen_of(gen_powers@), value_2 as nat, fs2 as nat)
            &&& rot16(value_1 as u16, fs1 as u16) != rot16(value_2 as u16, fs2 as u16)
        },
{
    let ghost g = gen_of(gen_powers@);
    if limit <= 1 {
        return Ok(());
    }
    let mut ix = ColIndex::new(nbuckets);
    let mut value: u32 = 1;
    while value < limit
        invariant
            is_powers(gen_powers@),
            gen_powers@.len() >= 32,
            g == gen_of(gen_powers@),
            limit as nat <= 0x1_0000nat,
            nbuckets >= 1,
            1 <= value <= limit,
            ix.wf(),
            forall|v1: int, s1: int, v2: int, s2: int|
                #![trigger shifted16(g, v1 as nat, s1 as nat), shifted16(g, v2 as nat, s2 as nat)]
                scanned16(v1, s1, value as int, 1) && scanned16(v2, s2, value as int, 1)
                    && shifted16(g, v1 as nat, s1 as nat) == shifted16(g, v2 as nat, s2 as nat)
                    ==> rot16(v1 as u16, s1 as u16) == rot16(v2 as u16, s2 as u16),
            forall|e: Elem| #[trigger]
                ix.spec_has(e) ==> {
                    &&& e.valid()
                    &&& scanned16(
                        ix.spec_at(e).0 as int,
                        ix.spec_at(e).1 as int,
                        value as int,
                        1,
                    )
                    &&& ix.spec_at(e).0 < limit
                    &&& e.value() == shifted16(
                        g,
                        ix.spec_at(e).0 as nat,
                        ix.spec_at(e).1 as nat,
                    )
                },
            forall|v1: int, s1: int|
                scanned16(v1, s1, value as int, 1) && v1 < limit ==> #[trigger] covered16(
                    ix,
                    g,
                    v1,
                    s1,
                ),
        decreases limit - value,
    {
        let e = encode(value as u16, gen_powers);
        let mut shift: usize = 1;
        while shift < 16
            invariant
                is_powers(gen_powers@),
                gen_powers@.len() >= 32,
                g == gen_of(gen_powers@),
                limit as nat <= 0x1_0000nat,
                nbuckets >= 1,
                1 <= value < limit,
                1 <= shift <= 16,
                e.valid(),
                e.value() == enc(g, value as nat, 16),
                ix.wf(),
                forall|v1: int, s1: int, v2: int, s2: int|
                    #![trigger shifted16(g, v1 as nat, s1 as nat), shifted16(g, v2 as nat, s2 as nat)]
                    scanned16(v1, s1, value as int, shift as int) && scanned16(
                        v2,
                        s2,
                        value as int,
                        shift as int,
                    ) && shifted16(g, v1 as nat, s1 as nat) == shifted16(g, v2 as nat, s2 as nat)
                        ==> rot16(v1 as u16, s1 as u16) == rot16(v2 as u16, s2 as u16),
                forall|e2: Elem| #[trigger]
                    ix.spec_has(e2) ==> {
                        &&& e2.valid()
                        &&& scanned16(
                            ix.spec_at(e2).0 as int,
                            ix.spec_at(e2).1 as int,
                            value as int,
                            shift as int,
                        )
                        &&& ix.spec_at(e2).0 < limit
                        &&& e2.value() == shifted16(
                            g,
                            ix.spec_at(e2).0 as nat,
                            ix.spec_at(e2).1 as nat,
                        )
                    },
                forall|v1: int, s1: int|
                    scanned16(v1, s1, value as int, shift as int) && v1 < limit ==> #[trigger]
                        covered16(ix, g, v1, s1),
            decreases 16 - shift,
        {
            let shifted_el = apply_shift(&e, gen_powers, shift);
            proof {
                assert(shifted_el.value() == shifted16(g, value as nat, shift as nat));
            }
            match ix.get(&shifted_el) {
                Some(w) => {
                    let r1 = rotate_left(w.0 as u16, w.1 as usize);
                    let r2 = rotate_left(value as u16, shift);
                    if r1 != r2 {
                        proof {
                            assert(!scanned16(
                                value as int,
                                shift as int,
                                value as int,
                                shift as int,
                            ));
                            let wv = w.0 as int;
                            let ws = w.1 as int;
                            let cv = value as int;
                            let cs = shift as int;
                            assert(1 <= wv && wv < limit && 1 <= ws && ws < 16);
                            assert(wv as nat == w.0 as nat && ws as nat == w.1 as nat);
                            assert(cv as nat == value as nat && cs as nat == shift as nat);
                            assert(shifted16(gen_of(gen_powers@), wv as nat, ws as nat)
                                == shifted_el.value());
                            assert(shifted16(gen_of(gen_powers@), cv as nat, cs as nat)
                                == shifted_el.value());
                            assert(wv as u16 == w.0 as u16);
                            assert(ws as u16 == (w.1 as usize) as u16);
                            assert(cv as u16 == value as u16);
                            assert(cs as u16 == shift as u16);
                            assert(rot16(wv as u16, ws as u16) == r1);
                            assert(rot16(cv as u16, cs as u16) == r2);
                        }
                        return Err(
                            EncodingFault::RotationMismatch {
                                element: shifted_el,
                                value_1: w.0,
                                shift_1: w.1,
                                value_2: value,
                                shift_2: shift as u32,
                            },
                        );
                    }
                    proof {
                        assert forall|v1: int, s1: int|
                            scanned16(v1, s1, value as int, shift as int) && shifted16(
                                g,
                                v1 as nat,
                                s1 as nat,
                            ) == shifted16(g, value as nat, shift as nat) implies rot16(
                            v1 as u16,
                            s1 as u16,
                        ) == rot16(value as u16, shift as u16) by {
                            let wv = w.0 as int;
                            let ws = w.1 as int;
                            assert(wv as nat == w.0 as nat && ws as nat == w.1 as nat);
                            assert(scanned16(wv, ws, value as int, shift as int));
                            assert(shifted16(g, wv as nat, ws as nat) == shifted_el.value());
                            assert(shifted16(g, v1 as nat, s1 as nat) == shifted16(
                                g,
                                wv as nat,
                                ws as nat,
                            ));
                            assert(rot16(v1 as u16, s1 as u16) == rot16(wv as u16, ws as u16));
                            assert(wv as u16 == w.0 as u16);
                            assert(ws as u16 == (w.1 as usize) as u16);
                            assert(rot16(wv as u16, ws as u16) == r1);
                            assert(rot16(value as u16, shift as u16) == r2);
                        }
                    }
                },
                None => {
                    proof {
                        assert forall|v1: int, s1: int|
                            scanned16(v1, s1, value as int, shift as int) && v1 < limit implies
                            shifted16(g, v1 as nat, s1 as nat) != shifted16(
                            g,
                            value as nat,
                            shift as nat,
                        ) by {
                            if shifted16(g, v1 as nat, s1 as nat) == shifted16(
                                g,
                                value as nat,
                                shift as nat,
                            ) {
                                assert(covered16(ix, g, v1, s1));
                                let e2 = choose|e2: Elem|
                                    (#[trigger] ix.spec_has(e2)) && e2.value() == shifted16(
                                        g,
                                        v1 as nat,
                                        s1 as nat,
                                    );
                                lemma_value_injective(e2, shifted_el);
                            }
                        }
                    }
                    let ghost pre = ix;
                    ix.insert(shifted_el, value, shift as u32);
                    proof {
                        assert(ix.spec_has(shifted_el) && shifted_el.value() == shifted16(
                            g,
                            value as nat,
                            shift as nat,
                        ));
                        assert(covered16(ix, g, value as int, shift as int));
                        assert forall|v1: int, s1: int|
                            scanned16(v1, s1, value as int, shift as int + 1) && v1
                                < limit implies #[trigger] covered16(ix, g, v1, s1) by {
                            if v1 == value as int && s1 == shift as int {
                            } else {
                                assert(scanned16(v1, s1, value as int, shift as int));
                                assert(covered16(pre, g, v1, s1));
                                let e2 = choose|e2: Elem|
                                    (#[trigger] pre.spec_has(e2)) && e2.value() == shifted16(
                                        g,
                                        v1 as nat,
                                        s1 as nat,
                                    );
                                if e2 == shifted_el {
                                    assert(ix.spec_has(shifted_el));
                                } else {
                                    assert(ix.spec_has(e2));
                                }
                            }
                        }
                    }
                },
            }
            proof {
                assert forall|v1: int, s1: int, v2: int, s2: int|
                    #![trigger shifted16(g, v1 as nat, s1 as nat), shifted16(g, v2 as nat, s2 as nat)]
                    scanned16(v1, s1, value as int, shift as int + 1) && scanned16(
                        v2,
                        s2,
                        value as int,
                        shift as int + 1,
                    ) && shifted16(g, v1 as nat, s1 as nat) == shifted16(
                        g,
                        v2 as nat,
                        s2 as nat,
                    ) implies rot16(v1 as u16, s1 as u16) == rot16(v2 as u16, s2 as u16) by {
                    let cv = value as int;
                    let cs = shift as int;
                    if v1 == cv && s1 == cs && v2 == cv && s2 == cs {
                    } else if v2 == cv && s2 == cs {
                        assert(scanned16(v1, s1, cv, cs));
                        assert(v1 < limit);
                    } else if v1 == cv && s1 == cs {
                        assert(scanned16(v2, s2, cv, cs));
                        assert(v2 < limit);
                    } else {
                        assert(scanned16(v1, s1, cv, cs) && scanned16(v2, s2, cv, cs));
                    }
                }
            }
            shift += 1;
        }
        value += 1;
    }
    proof {
        assert forall|v1: int, s1: int, v2: int, s2: int|
            #![trigger shifted16(g, v1 as nat, s1 as nat), shifted16(g, v2 as nat, s2 as nat)]
            1 <= v1 < limit && 1 <= s1 < 16 && 1 <= v2 < limit && 1 <= s2 < 16 && shifted16(
                g,
                v1 as nat,
                s1 as nat,
            ) == shifted16(g, v2 as nat, s2 as nat) implies rot16(v1 as u16, s1 as u16) == rot16(
            v2 as u16,
            s2 as u16,
        ) by {
            assert(scanned16(v1, s1, value as int, 1));
            assert(scanned16(v2, s2, value as int, 1));
        }
    }
    Ok(())
}

} // verus!
