//! 32-bit key fingerprints for optimistic conflict detection, and sets of
//! them. Collisions can only turn a disjointness answer into a spurious
//! intersection, so they may abort a commit needlessly but never let a
//! real conflict pass.

use vstd::prelude::*;

verus! {

/// The 32-bit fingerprint of a byte string.
pub uninterp spec fn hash32_of(key: Seq<u8>) -> u32;

/// Relies on `farmhash::hash32`: a 32-bit fingerprint that is a function
/// of the bytes alone. The crate's arithmetic assumes release-profile
/// (wrapping) semantics; building dependencies with overflow checks can
/// panic inside it.
#[verifier::external_body]
pub(crate) fn hash32(key: &[u8]) -> (r: u32)
    ensures
        r == hash32_of(key@),
{
    farmhash::hash32(key)
}

/// A set of 32-bit fingerprints.
pub struct FingerprintSet {
    pub items: Vec<u32>,
}

impl FingerprintSet {
    /// The mathematical set of fingerprints held.
    pub open spec fn view(&self) -> Set<u32> {
        Set::new(|h: u32| self.items@.contains(h))
    }

    /// An empty set.
    pub fn new() -> (r: FingerprintSet)
        ensures
            r@ == Set::<u32>::empty(),
    {
        let r = FingerprintSet { items: Vec::new() };
        proof {
            assert(r@ =~= Set::<u32>::empty());
        }
        r
    }

    /// Whether `h` is in the set.
    pub fn contains(&self, h: u32) -> (r: bool)
        ensures
            r == self@.contains(h),
    {
        let mut i: usize = 0;
        while i < self.items.len()
            invariant
                i <= self.items@.len(),
                forall|j: int| 0 <= j < i ==> self.items@[j] != h,
            decreases self.items@.len() - i,
        {
            if self.items[i] == h {
                proof {
                    assert(self.items@.contains(h));
                }
                return true;
            }
            i = i + 1;
        }
        proof {
            assert(!self.items@.contains(h));
        }
        false
    }

    /// Add `h` to the set.
    pub fn insert(&mut self, h: u32)
        ensures
            final(self)@ == old(self)@.insert(h),
    {
        if !self.contains(h) {
            self.items.push(h);
            proof {
                assert forall|x: u32| self.items@.contains(x) implies (old(self).items@.contains(x)
                    || x == h) by {
                    let j = choose|j: int| 0 <= j < self.items@.len() && self.items@[j] == x;
                    if j < old(self).items@.len() {
                        assert(old(self).items@[j] == x);
                    }
                }
                assert forall|x: u32| old(self).items@.contains(x) implies self.items@.contains(
                    x,
                ) by {
                    let j = choose|j: int|
                        0 <= j < old(self).items@.len() && old(self).items@[j] == x;
                    assert(self.items@[j] == x);
                }
                assert(self.items@[self.items@.len() - 1] == h);
                assert(self.items@.contains(h));
                assert(self@ =~= old(self)@.insert(h));
            }
        } else {
            proof {
                assert(self@ =~= old(self)@.insert(h));
            }
        }
    }

    /// Whether the set is empty.
    pub fn is_empty(&self) -> (r: bool)
        ensures
            r == (self@ == Set::<u32>::empty()),
    {
        if self.items.len() == 0 {
            proof {
                assert(self@ =~= Set::<u32>::empty());
            }
            true
        } else {
            proof {
                assert(self.items@.contains(self.items@[0]));
                assert(self@.contains(self.items@[0]));
            }
            false
        }
    }

    /// A copy of the set.
    pub fn duplicate(&self) -> (r: FingerprintSet)
        ensures
            r@ == self@,
    {
        let mut items: Vec<u32> = Vec::new();
        let mut i: usize = 0;
        while i < self.items.len()
            invariant
                i <= self.items@.len(),
                items@ == self.items@.subrange(0, i as int),
            decreases self.items@.len() - i,
        {
            items.push(self.items[i]);
            proof {
                assert(items@ =~= self.items@.subrange(0, i as int + 1));
            }
            i = i + 1;
        }
        proof {
            assert(self.items@.subrange(0, self.items@.len() as int) =~= self.items@);
        }
        let r = FingerprintSet { items };
        proof {
            assert(r@ =~= self@);
        }
        r
    }

    /// Whether the two sets share a fingerprint.
    pub fn intersects(&self, other: &FingerprintSet) -> (r: bool)
        ensures
            r == exists|h: u32| self@.contains(h) && other@.contains(h),
    {
        let mut i: usize = 0;
        while i < self.items.len()
            invariant
                i <= self.items@.len(),
                forall|j: int| 0 <= j < i ==> !other@.contains(#[trigger] self.items@[j]),
            decreases self.items@.len() - i,
        {
            let h = self.items[i];
            if other.contains(h) {
                proof {
                    assert(self.items@.contains(h));
                    assert(self@.contains(h));
                }
                return true;
            }
            i = i + 1;
        }
        proof {
            if exists|h: u32| self@.contains(h) && other@.contains(h) {
                let h = choose|h: u32| self@.contains(h) && other@.contains(h);
                let j = choose|j: int| 0 <= j < self.items@.len() && self.items@[j] == h;
                assert(!other@.contains(self.items@[j]));
            }
        }
        false
    }
}

} // verus!
