//! A resettable collision index: a bucketed mapping from field elements to
//! the (value, shift) witness that first produced them.
//!
//! Elements are spread over buckets by their lowest limb, so that probing
//! touches only one short bucket.  The index is rebuilt (cleared and
//! refilled) for every shift or shift-pair iteration of the search.

use vstd::prelude::*;
use vstd::arithmetic::div_mod::lemma_mod_bound;

use crate::field::Elem;

verus! {

pub struct ColIndex {
    buckets: Vec<Vec<(Elem, u32, u32)>>,
}

impl ColIndex {
    /// Which bucket an element lands in.
    pub closed spec fn bucket_of(self, e: Elem) -> int {
        (e.l0 as int) % (self.buckets@.len() as int)
    }

    /// The bucket an element would be found in.
    pub closed spec fn bucket_seq(self, e: Elem) -> Seq<(Elem, u32, u32)> {
        self.buckets@[self.bucket_of(e)]@
    }

    /// The index is usable: at least one bucket, and no element stored twice
    /// within a bucket.
    pub closed spec fn wf(self) -> bool {
        &&& self.buckets@.len() >= 1
        &&& forall|b: int, k1: int, k2: int|
            0 <= b < self.buckets@.len() && 0 <= k1 < k2 < self.buckets@[b]@.len() ==> (
            #[trigger] self.buckets@[b]@[k1]).0 != (#[trigger] self.buckets@[b]@[k2]).0
    }

    /// Whether a witness is recorded for the element.
    pub closed spec fn spec_has(self, e: Elem) -> bool {
        exists|k: int|
            0 <= k < self.bucket_seq(e).len() && (#[trigger] self.bucket_seq(e)[k]).0 == e
    }

    /// The witness recorded for the element.
    pub closed spec fn spec_at(self, e: Elem) -> (u32, u32) {
        let k = choose|k: int|
            0 <= k < self.bucket_seq(e).len() && (#[trigger] self.bucket_seq(e)[k]).0 == e;
        (self.bucket_seq(e)[k].1, self.bucket_seq(e)[k].2)
    }

    /// An empty index with the given number of buckets.
    pub fn new(nbuckets: usize) -> (r: Self)
        requires
            nbuckets >= 1,
        ensures
            r.wf(),
            forall|e: Elem| !r.spec_has(e),
    {
        let mut buckets: Vec<Vec<(Elem, u32, u32)>> = Vec::new();
        for i in 0..nbuckets
            invariant
                buckets@.len() == i,
                forall|b: int| 0 <= b < i ==> (#[trigger] buckets@[b])@.len() == 0,
        {
            buckets.push(Vec::new());
        }
        let r = ColIndex { buckets };
        proof {
            assert forall|e: Elem| !r.spec_has(e) by {
                lemma_mod_bound(e.l0 as int, r.buckets@.len() as int);
            }
        }
        r
    }

    fn bucket_index(&self, e: &Elem) -> (b: usize)
        requires
            self.buckets@.len() >= 1,
        ensures
            b as int == self.bucket_of(*e),
            b < self.buckets@.len(),
    {
        proof {
            lemma_mod_bound(e.l0 as int, self.buckets@.len() as int);
        }
        (e.l0 % (self.buckets.len() as u64)) as usize
    }

    /// Look the element up; `Some` carries the recorded witness.
    pub fn get(&self, e: &Elem) -> (r: Option<(u32, u32)>)
        requires
            self.wf(),
        ensures
            match r {
                Some(w) => self.spec_has(*e) && w == self.spec_at(*e),
                None => !self.spec_has(*e),
            },
    {
        let b = self.bucket_index(e);
        let n = self.buckets[b].len();
        for k in 0..n
            invariant
                self.wf(),
                b as int == self.bucket_of(*e),
                b < self.buckets@.len(),
                n == self.bucket_seq(*e).len(),
                forall|j: int| 0 <= j < k ==> (#[trigger] self.bucket_seq(*e)[j]).0 != *e,
        {
            let entry = &self.buckets[b][k];
            if entry.0 == *e {
                proof {
                    assert(self.spec_has(*e));
                    let k0 = choose|j: int|
                        0 <= j < self.bucket_seq(*e).len() && (#[trigger] self.bucket_seq(
                            *e,
                        )[j]).0 == *e;
                    assert(k0 == k as int);
                }
                return Some((entry.1, entry.2));
            }
        }
        None
    }

    /// Record a witness for an element not yet present.
    pub fn insert(&mut self, e: Elem, value: u32, shift: u32)
        requires
            old(self).wf(),
            !old(self).spec_has(e),
        ensures
            final(self).wf(),
            final(self).spec_has(e),
            final(self).spec_at(e) == (value, shift),
            forall|x: Elem| x != e ==> final(self).spec_has(x) == old(self).spec_has(x),
            forall|x: Elem|
                x != e && old(self).spec_has(x) ==> final(self).spec_at(x) == old(self).spec_at(
                    x,
                ),
    {
        let b = self.bucket_index(&e);
        let ghost pre = *self;
        self.buckets[b].push((e, value, shift));
        proof {
            let bi = b as int;
            let old_seq = pre.buckets@[bi]@;
            let new_seq = self.buckets@[bi]@;
            assert(new_seq == old_seq.push((e, value, shift)));
            assert(forall|x: Elem| self.bucket_of(x) == pre.bucket_of(x));
            assert(pre.bucket_of(e) == bi);
            assert(pre.bucket_seq(e) == old_seq);
            assert(self.bucket_seq(e) == new_seq);
            assert forall|j: int| 0 <= j < old_seq.len() implies (#[trigger] old_seq[j]).0
                != e by {
                assert(pre.bucket_seq(e)[j] == old_seq[j]);
            }
            // well-formedness: the new entry's element is fresh in its bucket
            assert forall|bb: int, k1: int, k2: int|
                0 <= bb < self.buckets@.len() && 0 <= k1 < k2 < self.buckets@[bb]@.len() implies (
            #[trigger] self.buckets@[bb]@[k1]).0 != (#[trigger] self.buckets@[bb]@[k2]).0 by {
                if bb != bi {
                    assert(self.buckets@[bb]@ == pre.buckets@[bb]@);
                } else {
                    if k2 < old_seq.len() {
                        assert(pre.wf());
                    } else {
                        assert(new_seq[k2].0 == e);
                        assert(new_seq[k1] == old_seq[k1]);
                    }
                }
            }
            assert(new_seq[old_seq.len() as int].0 == e);
            assert(self.bucket_seq(e)[old_seq.len() as int].0 == e);
            assert(self.spec_has(e));
            let k0 = choose|j: int|
                0 <= j < self.bucket_seq(e).len() && (#[trigger] self.bucket_seq(e)[j]).0 == e;
            assert(k0 == old_seq.len() as int);
            assert(self.spec_at(e) == (value, shift));
            assert forall|x: Elem| x != e implies self.spec_has(x) == pre.spec_has(x) by {
                if self.bucket_of(x) == bi {
                    assert(self.bucket_seq(x) == new_seq);
                    assert(pre.bucket_seq(x) == old_seq);
                    if pre.spec_has(x) {
                        let j = choose|j: int|
                            0 <= j < pre.bucket_seq(x).len() && (#[trigger] pre.bucket_seq(
                                x,
                            )[j]).0 == x;
                        assert(new_seq[j].0 == x);
                        assert(self.spec_has(x));
                    }
                    if self.spec_has(x) {
                        let j = choose|j: int|
                            0 <= j < self.bucket_seq(x).len() && (#[trigger] self.bucket_seq(
                                x,
                            )[j]).0 == x;
                        assert(j < old_seq.len());
                        assert(old_seq[j].0 == x);
                        assert(pre.spec_has(x));
                    }
                } else {
                    assert(self.bucket_seq(x) == pre.bucket_seq(x));
                }
            }
            assert forall|x: Elem| x != e && pre.spec_has(x) implies self.spec_at(x)
                == pre.spec_at(x) by {
                let j1 = choose|j: int|
                    0 <= j < pre.bucket_seq(x).len() && (#[trigger] pre.bucket_seq(x)[j]).0 == x;
                if self.bucket_of(x) == bi {
                    assert(self.bucket_seq(x) == new_seq);
                    assert(pre.bucket_seq(x) == old_seq);
                    assert(new_seq[j1].0 == x);
                    assert(self.spec_has(x));
                    let j2 = choose|j: int|
                        0 <= j < self.bucket_seq(x).len() && (#[trigger] self.bucket_seq(
                            x,
                        )[j]).0 == x;
                    assert(j2 < old_seq.len());
                    assert(j1 == j2);
                } else {
                    assert(self.bucket_seq(x) == pre.bucket_seq(x));
                }
            }
        }
    }

    /// Empty every bucket, keeping the structure for reuse.
    pub fn clear(&mut self)
        requires
            old(self).wf(),
        ensures
            final(self).wf(),
            forall|e: Elem| !final(self).spec_has(e),
    {
        let n = self.buckets.len();
        for b in 0..n
            invariant
                self.buckets@.len() == n,
                n >= 1,
                forall|i: int| 0 <= i < b ==> (#[trigger] self.buckets@[i])@.len() == 0,
        {
            self.buckets[b].clear();
        }
        proof {
            assert forall|e: Elem| !self.spec_has(e) by {
                lemma_mod_bound(e.l0 as int, self.buckets@.len() as int);
            }
        }
    }
}

} // verus!
