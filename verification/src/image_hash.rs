//! The perceptual-hash side of the catalog: the 64-bit hash value type, the
//! bit layout of a hash built from per-coefficient comparisons, the crop rule
//! for boss images, and the request tracker that deduplicates in-flight
//! hash requests per boss name.
//!
//! Decoding an image and computing its DCT use floating point and live with
//! the embedding program; the integer logic around them is here.

use vstd::prelude::*;
use crate::model::BossName;

verus! {

/// A 64-bit perceptual image hash. Two boss images whose cropped hashes are
/// equal are treated as the same boss in different languages.
#[derive(Clone, Copy, Debug, Eq, PartialEq, Structural)]
pub struct ImageHash(pub u64);

impl ImageHash {
    pub fn value(&self) -> (r: u64)
        ensures
            r == self.0,
    {
        self.0
    }
}

/// Bit `i` of `h`.
pub open spec fn hash_bit(h: u64, i: int) -> bool {
    (h >> (i as u64)) & 1u64 == 1u64
}

/// Packs the 63 per-coefficient comparison outcomes into a hash: bit `i`
/// (for `1 <= i < 64`) is set exactly when comparison `i` came out true, and
/// bit 0 is always clear.
pub fn hash_from_bits(bits: &Vec<bool>) -> (r: u64)
    requires
        bits@.len() == 64,
    ensures
        !hash_bit(r, 0),
        forall|i: int| 1 <= i < 64 ==> hash_bit(r, i) == bits@[i],
{
    let mut h: u64 = 0;
    proof {
        assert forall|j: int| 0 <= j < 64 implies !hash_bit(0u64, j) by {
            let ju = j as u64;
            assert((0u64 >> ju) & 1u64 == 0u64) by (bit_vector);
        }
    }
    let mut i: usize = 1;
    while i < 64
        invariant
            bits@.len() == 64,
            1 <= i <= 64,
            !hash_bit(h, 0),
            forall|j: int| 1 <= j < i ==> hash_bit(h, j) == bits@[j],
            forall|j: int| i <= j < 64 ==> !hash_bit(h, j),
        decreases 64 - i,
    {
        if bits[i] {
            let ghost h0 = h;
            let ghost iv = i as u64;
            h = h | (1u64 << (i as u64));
            proof {
                assert(h == h0 | (1u64 << iv));
                assert forall|j: int| 0 <= j < 64 implies #[trigger] hash_bit(h, j) == (hash_bit(
                    h0,
                    j,
                ) || j == i) by {
                    let ju = j as u64;
                    assert(ju < 64 && iv < 64 ==> (((h0 | (1u64 << iv)) >> ju) & 1u64 == 1u64) == ((
                    (h0 >> ju) & 1u64 == 1u64) || ju == iv)) by (bit_vector);
                    assert(hash_bit(h, j) == (((h0 | (1u64 << iv)) >> ju) & 1u64 == 1u64));
                    assert(hash_bit(h0, j) == ((h0 >> ju) & 1u64 == 1u64));
                    assert((j == i) == (ju == iv));
                }
            }
        }
        i += 1;
    }
    h
}

/// The height kept when the language-specific caption band (the bottom
/// quarter) is cropped away before hashing.
pub fn cropped_height(height: u32) -> (r: u32)
    requires
        3 * height <= u32::MAX,
    ensures
        r == 3 * height / 4,
{
    height * 3 / 4
}

/// What `begin_request` does: a name already in flight is refused, any other
/// is recorded and started.
pub open spec fn spec_begin_request(outstanding: Seq<Seq<char>>, name: Seq<char>) -> (
    Seq<Seq<char>>,
    bool,
) {
    if outstanding.contains(name) {
        (outstanding, false)
    } else {
        (outstanding.push(name), true)
    }
}

/// Tracks which boss names have an image fetch in flight, so that repeated
/// requests for the same name start at most one fetch until its result has
/// been delivered downstream.
#[derive(Debug)]
pub struct HashRequestTracker {
    outstanding: Vec<BossName>,
}

impl View for HashRequestTracker {
    type V = Seq<Seq<char>>;

    closed spec fn view(&self) -> Seq<Seq<char>> {
        self.outstanding@.map(|_i: int, n: BossName| n@)
    }
}

impl HashRequestTracker {
    /// In-flight names are pairwise distinct.
    pub open spec fn wf(&self) -> bool {
        forall|i: int, j: int| 0 <= i < j < self@.len() ==> self@[i] != self@[j]
    }

    pub fn new() -> (r: Self)
        ensures
            r@.len() == 0,
            r.wf(),
    {
        HashRequestTracker { outstanding: Vec::new() }
    }

    fn find_index(&self, name: &BossName) -> (r: Option<usize>)
        ensures
            match r {
                Some(i) => i < self@.len() && self@[i as int] == name@,
                None => !self@.contains(name@),
            },
    {
        let n = self.outstanding.len();
        let mut i: usize = 0;
        while i < n
            invariant
                n == self@.len(),
                n == self.outstanding@.len(),
                0 <= i <= n,
                forall|k: int| 0 <= k < i ==> self@[k] != name@,
            decreases n - i,
        {
            if crate::text::eq_str(self.outstanding[i].as_str(), name.as_str()) {
                return Some(i);
            }
            i += 1;
        }
        None
    }

    /// Records a request for `name` unless one is already in flight; returns
    /// whether a fetch should be started.
    pub fn begin_request(&mut self, name: &BossName) -> (started: bool)
        requires
            old(self).wf(),
        ensures
            (final(self)@, started) == spec_begin_request(old(self)@, name@),
            started == !old(self)@.contains(name@),
            final(self).wf(),
    {
        match self.find_index(name) {
            Some(_) => false,
            None => {
                self.outstanding.push(name.clone());
                proof {
                    assert(self@ =~= old(self)@.push(name@));
                }
                true
            }
        }
    }

    /// Clears `name` once its hash result has been delivered downstream (or
    /// is known to have been dropped), making it eligible again.
    pub fn complete(&mut self, name: &BossName)
        requires
            old(self).wf(),
        ensures
            !final(self)@.contains(name@),
            forall|x: Seq<char>| x != name@ ==> final(self)@.contains(x) == old(self)@.contains(x),
            final(self)@.len() <= old(self)@.len(),
            final(self).wf(),
    {
        match self.find_index(name) {
            Some(i) => {
                self.outstanding.remove(i);
                proof {
                    let f0 = old(self)@;
                    let f1 = self@;
                    assert(f1 =~= f0.remove(i as int));
                    assert forall|k: int| 0 <= k < f1.len() implies f1[k] != name@ by {
                        if k < i {
                            assert(f1[k] == f0[k]);
                        } else {
                            assert(f1[k] == f0[k + 1]);
                        }
                    }
                    assert(!f1.contains(name@));
                    assert forall|x: Seq<char>| x != name@ implies f1.contains(x) == f0.contains(
                        x,
                    ) by {
                        if f0.contains(x) {
                            let k = choose|k: int| 0 <= k < f0.len() && f0[k] == x;
                            if k < i {
                                assert(f1[k] == x);
                            } else {
                                assert(k > i);
                                assert(f1[k - 1] == x);
                            }
                        }
                        if f1.contains(x) {
                            let k = choose|k: int| 0 <= k < f1.len() && f1[k] == x;
                            if k < i {
                                assert(f0[k] == x);
                            } else {
                                assert(f0[k + 1] == x);
                            }
                        }
                    }
                    assert forall|a: int, b: int| 0 <= a < b < f1.len() implies f1[a] != f1[b] by {
                        let a0 = if a < i { a } else { a + 1 };
                        let b0 = if b < i { b } else { b + 1 };
                        assert(f1[a] == f0[a0] && f1[b] == f0[b0]);
                    }
                }
            }
            None => {}
        }
    }
}

/// Once a request for a boss name has started a fetch, a further request for
/// the same name starts none until the first result is delivered: at most one
/// fetch is in flight per name.
pub proof fn lemma_hash_request_dedup(outstanding: Seq<Seq<char>>, name: Seq<char>)
    requires
        spec_begin_request(outstanding, name).1,
    ensures
        !spec_begin_request(spec_begin_request(outstanding, name).0, name).1,
{
    let after = spec_begin_request(outstanding, name).0;
    assert(after.last() == name);
    assert(after.contains(name));
}

} // verus!
