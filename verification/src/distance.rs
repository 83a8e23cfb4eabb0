//! The distance engine: the Euclidean (L2) distance between two vectors
//! of the same dimension.  The computation keeps the two-step shape of a
//! scaled-add followed by a norm: first the difference vector
//! `c[i] = b[i] + (-1.0) * a[i]`, then the square root of the sum of its
//! squares, every step in binary32 round-to-nearest-even.
//!
//! NaN and infinity are not rejected: they propagate through the
//! arithmetic as IEEE-754 prescribes, and the laws below are therefore
//! stated for vectors of finite elements.

use vstd::prelude::*;
use crate::bits::{is_finite_bits, is_nan_bits, sign_field, flip_sign, all_finite};
use crate::arith::{add_of, sub_of, mul_of, add_bits, sub_bits, mul_bits};
use crate::sqrt::{sqrt_spec, sqrt_bits, lemma_sqrt_zero, lemma_sqrt_nonneg};
use crate::vector::Vector;
use crate::errors::DimensionMismatchError;

verus! {

/// Element `i` of the difference vector `b - a`.
pub open spec fn diff_term(a: Seq<u32>, b: Seq<u32>, i: int) -> u32 {
    sub_of(b[i], a[i])
}

/// The square of element `i` of the difference vector.
pub open spec fn square_term(a: Seq<u32>, b: Seq<u32>, i: int) -> u32 {
    mul_of(diff_term(a, b, i), diff_term(a, b, i))
}

/// The running binary32 sum of the first `n` squared differences,
/// accumulated left to right from `+0.0`.
pub open spec fn sum_squares(a: Seq<u32>, b: Seq<u32>, n: int) -> u32
    decreases n,
{
    if n <= 0 {
        0
    } else {
        add_of(sum_squares(a, b, n - 1), square_term(a, b, n - 1))
    }
}

/// The L2 distance of two same-length element sequences: the rounded
/// square root of the accumulated sum of squared differences.
pub open spec fn l2_spec(a: Seq<u32>, b: Seq<u32>) -> u32 {
    sqrt_spec(sum_squares(a, b, a.len() as int))
}

/// Sums of square terms that agree index by index are equal.
proof fn lemma_sum_squares_congruent(a: Seq<u32>, b: Seq<u32>, c: Seq<u32>, d: Seq<u32>, n: int)
    requires
        forall|j: int| 0 <= j < n ==> square_term(a, b, j) == square_term(c, d, j),
    ensures
        sum_squares(a, b, n) == sum_squares(c, d, n),
    decreases n,
{
    if n > 0 {
        lemma_sum_squares_congruent(a, b, c, d, n - 1);
    }
}

/// The Euclidean (L2) distance between `a` and `b`, as the bit pattern
/// of a binary32 value.
///
/// Returns `Err` exactly when the dimensions differ, carrying both
/// lengths; on equal dimensions the distance is always returned.  For
/// vectors of finite elements the result is symmetric in its arguments,
/// zero on identical vectors, and never negative and never NaN.
pub fn l2_distance(a: &Vector, b: &Vector) -> (r: Result<u32, DimensionMismatchError>)
    ensures
        r is Ok <==> a@.len() == b@.len(),
        (match r {
            Ok(d) => d == l2_spec(a@, b@) && (all_finite(a@) && all_finite(b@) ==> l2_spec(
                b@,
                a@,
            ) == d && sign_field(d) == 0 && !is_nan_bits(d)) && (a@ == b@ && all_finite(a@)
                ==> d == 0),
            Err(e) => e.left == a@.len() && e.right == b@.len(),
        }),
{
    let n = a.len();
    if n != b.len() {
        return Err(DimensionMismatchError { left: n, right: b.len() });
    }
    // first pass: the difference vector c = b + (-1.0) * a
    let mut c: Vec<u32> = Vec::new();
    let mut i: usize = 0;
    while i < n
        invariant
            a@.len() == n,
            b@.len() == n,
            i <= n,
            c@.len() == i,
            forall|j: int| 0 <= j < i ==> c@[j] == diff_term(a@, b@, j),
            forall|j: int| 0 <= j < i ==> (is_finite_bits(a@[j]) && is_finite_bits(b@[j])
                ==> !is_nan_bits(#[trigger] diff_term(a@, b@, j)) && (a@[j] != b@[j]
                ==> diff_term(b@, a@, j) == flip_sign(diff_term(a@, b@, j)))),
            forall|j: int| 0 <= j < i ==> (a@[j] == b@[j] && is_finite_bits(a@[j])
                ==> #[trigger] diff_term(a@, b@, j) == 0 && diff_term(b@, a@, j) == 0),
        decreases n - i,
    {
        let d = sub_bits(b.get(i), a.get(i));
        c.push(d);
        proof {
            if a@[i as int] == b@[i as int] && is_finite_bits(a@[i as int]) {
                assert(diff_term(a@, b@, i as int) == 0);
                assert(diff_term(b@, a@, i as int) == 0);
            }
        }
        i = i + 1;
    }
    // second pass: the Euclidean norm of c
    let mut acc: u32 = 0;
    proof {
        assert(0u32 >> 31 == 0 && (0u32 >> 23) & 0xFF == 0) by (bit_vector);
    }
    let mut k: usize = 0;
    while k < n
        invariant
            a@.len() == n,
            b@.len() == n,
            c@.len() == n,
            k <= n,
            forall|j: int| 0 <= j < n ==> c@[j] == diff_term(a@, b@, j),
            forall|j: int| 0 <= j < n ==> (is_finite_bits(a@[j]) && is_finite_bits(b@[j])
                ==> !is_nan_bits(#[trigger] diff_term(a@, b@, j)) && (a@[j] != b@[j]
                ==> diff_term(b@, a@, j) == flip_sign(diff_term(a@, b@, j)))),
            forall|j: int| 0 <= j < n ==> (a@[j] == b@[j] && is_finite_bits(a@[j])
                ==> #[trigger] diff_term(a@, b@, j) == 0 && diff_term(b@, a@, j) == 0),
            acc == sum_squares(a@, b@, k as int),
            all_finite(a@) && all_finite(b@) ==> sign_field(acc) == 0 && !is_nan_bits(acc),
            a@ == b@ && all_finite(a@) ==> acc == 0,
            all_finite(a@) && all_finite(b@) ==> forall|j: int| 0 <= j < k
                ==> #[trigger] square_term(a@, b@, j) == square_term(b@, a@, j),
        decreases n - k,
    {
        let ck = c[k];
        let s = mul_bits(ck, ck);
        proof {
            assert(ck == diff_term(a@, b@, k as int));
            assert(s == square_term(a@, b@, k as int));
            if all_finite(a@) && all_finite(b@) {
                assert(is_finite_bits(a@[k as int]) && is_finite_bits(b@[k as int]));
                if a@[k as int] == b@[k as int] {
                    assert(diff_term(b@, a@, k as int) == ck);
                } else {
                    assert(diff_term(b@, a@, k as int) == flip_sign(ck));
                    assert(square_term(b@, a@, k as int) == mul_of(
                        flip_sign(ck),
                        flip_sign(ck),
                    ));
                }
                assert(square_term(b@, a@, k as int) == s);
            }
        }
        let acc2 = add_bits(acc, s);
        proof {
            assert(acc2 == sum_squares(a@, b@, k as int + 1));
        }
        acc = acc2;
        k = k + 1;
    }
    let dist = sqrt_bits(acc);
    proof {
        assert(dist == l2_spec(a@, b@));
        if all_finite(a@) && all_finite(b@) {
            lemma_sum_squares_congruent(b@, a@, a@, b@, n as int);
            assert(l2_spec(b@, a@) == dist);
            lemma_sqrt_nonneg(acc);
        }
        if a@ == b@ && all_finite(a@) {
            lemma_sqrt_zero();
        }
    }
    Ok(dist)
}

} // verus!
