//! The vector value: an ordered, immutable sequence of binary32 elements,
//! each carried as its 32-bit pattern.  Equality is exact and element-wise,
//! and the hash is computed solely from the element sequence, so equal
//! values always hash equally.

use vstd::prelude::*;

verus! {

/// An ordered sequence of IEEE-754 binary32 elements, each held as its
/// bit pattern.  Element order is significant and part of identity; the
/// length is fixed at construction.
#[derive(Debug)]
pub struct Vector {
    elems: Vec<u32>,
}

impl View for Vector {
    type V = Seq<u32>;

    closed spec fn view(&self) -> Seq<u32> {
        self.elems@
    }
}

/// Offset basis of the 64-bit FNV-1a hash.
pub const FNV_OFFSET: u64 = 0xCBF2_9CE4_8422_2325;

/// Prime of the 64-bit FNV-1a hash.
pub const FNV_PRIME: u64 = 0x0000_0100_0000_01B3;

/// One FNV-1a step: fold one byte into the running state.
pub open spec fn fnv_byte(h: u64, b: u8) -> u64 {
    vstd::wrapping::u64_specs::wrapping_mul(h ^ (b as u64), FNV_PRIME)
}

/// Fold one element into the running state, low byte first.
pub open spec fn fnv_elem(h: u64, x: u32) -> u64 {
    fnv_byte(
        fnv_byte(
            fnv_byte(fnv_byte(h, (x & 0xFF) as u8), ((x >> 8) & 0xFF) as u8),
            ((x >> 16) & 0xFF) as u8,
        ),
        ((x >> 24) & 0xFF) as u8,
    )
}

/// The hash of the first `n` elements of `v`.
pub open spec fn hash_prefix(v: Seq<u32>, n: int) -> u64
    decreases n,
{
    if n <= 0 {
        FNV_OFFSET
    } else {
        fnv_elem(hash_prefix(v, n - 1), v[n - 1])
    }
}

/// The stable hash of an element sequence: 64-bit FNV-1a over the bytes
/// of every element in order.
pub open spec fn hash_of(v: Seq<u32>) -> u64 {
    hash_prefix(v, v.len() as int)
}

impl Vector {
    /// Builds a vector from the bit patterns of its elements, in order.
    pub fn from_bits(elems: Vec<u32>) -> (r: Vector)
        ensures
            r@ == elems@,
    {
        Vector { elems }
    }

    /// Number of elements; never fails.
    pub fn len(&self) -> (r: usize)
        ensures
            r == self@.len(),
    {
        self.elems.len()
    }

    /// The bit pattern of element `i`.
    pub fn get(&self, i: usize) -> (r: u32)
        requires
            i < self@.len(),
        ensures
            r == self@[i as int],
    {
        self.elems[i]
    }

    /// The bit patterns of all elements, in order.
    pub fn bits(&self) -> (r: &Vec<u32>)
        ensures
            r@ == self@,
    {
        &self.elems
    }

    /// The stable hash over the element sequence.  Computed solely from
    /// the vector's own elements, so that equal values hash equally.
    pub fn hash_value(&self) -> (r: u64)
        ensures
            r == hash_of(self@),
    {
        let n = self.elems.len();
        let mut h: u64 = FNV_OFFSET;
        let mut i: usize = 0;
        while i < n
            invariant
                n == self@.len(),
                i <= n,
                h == hash_prefix(self@, i as int),
            decreases n - i,
        {
            let x = self.elems[i];
            h = u64::wrapping_mul(h ^ ((x & 0xFF) as u64), FNV_PRIME);
            h = u64::wrapping_mul(h ^ (((x >> 8) & 0xFF) as u64), FNV_PRIME);
            h = u64::wrapping_mul(h ^ (((x >> 16) & 0xFF) as u64), FNV_PRIME);
            h = u64::wrapping_mul(h ^ (((x >> 24) & 0xFF) as u64), FNV_PRIME);
            proof {
                assert(((x & 0xFF) as u8) as u64 == (x & 0xFF) as u64) by (bit_vector);
                assert((((x >> 8) & 0xFF) as u8) as u64 == ((x >> 8) & 0xFF) as u64)
                    by (bit_vector);
                assert((((x >> 16) & 0xFF) as u8) as u64 == ((x >> 16) & 0xFF) as u64)
                    by (bit_vector);
                assert((((x >> 24) & 0xFF) as u8) as u64 == ((x >> 24) & 0xFF) as u64)
                    by (bit_vector);
            }
            i = i + 1;
        }
        h
    }
}

impl Clone for Vector {
    /// An identical copy: same length, same elements in the same order.
    fn clone(&self) -> (r: Vector)
        ensures
            r@ == self@,
    {
        Vector { elems: self.elems.clone() }
    }
}

impl PartialEq for Vector {
    /// Exact element-wise comparison; false when the lengths differ.
    fn eq(&self, other: &Vector) -> (r: bool)
        ensures
            r == (self@ == other@),
    {
        if self.elems.len() != other.elems.len() {
            return false;
        }
        let n = self.elems.len();
        let mut i: usize = 0;
        while i < n
            invariant
                n == self@.len(),
                n == other@.len(),
                i <= n,
                forall|j: int| 0 <= j < i ==> self@[j] == other@[j],
            decreases n - i,
        {
            if self.elems[i] != other.elems[i] {
                return false;
            }
            i = i + 1;
        }
        proof {
            assert(self@ =~= other@);
        }
        true
    }
}

impl vstd::std_specs::cmp::PartialEqSpecImpl for Vector {
    open spec fn obeys_eq_spec() -> bool {
        true
    }

    open spec fn eq_spec(&self, other: &Vector) -> bool {
        self@ == other@
    }
}

/// Law: the hash is a function of the element sequence alone, so two
/// equal vectors always produce the same hash.
pub proof fn lemma_equal_vectors_hash_equally(a: Vector, b: Vector)
    requires
        a@ == b@,
    ensures
        hash_of(a@) == hash_of(b@),
{
}

} // verus!
