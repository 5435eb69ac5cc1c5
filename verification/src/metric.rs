//! Squared Euclidean distance on the integer grid.

use vstd::prelude::*;

verus! {

/// The largest squared difference of two coordinates: `(2^32 - 1)^2`.
pub const MAX_SQ_GAP: u64 = 0xFFFF_FFFE_0000_0001u64;

/// Square of the difference of two coordinates.
pub open spec fn sq_gap(a: i32, b: i32) -> nat {
    ((a - b) * (a - b)) as nat
}

/// Sum of the squared coordinate differences over the first `n` axes.
pub open spec fn sq_dist_upto(a: Seq<i32>, b: Seq<i32>, n: nat) -> nat
    decreases n,
{
    if n == 0 {
        0
    } else {
        sq_dist_upto(a, b, (n - 1) as nat) + sq_gap(a[n - 1], b[n - 1])
    }
}

/// Squared Euclidean distance between two points of the same dimension.
pub open spec fn sq_dist(a: Seq<i32>, b: Seq<i32>) -> nat
    recommends
        a.len() == b.len(),
{
    sq_dist_upto(a, b, a.len())
}

/// A squared coordinate difference is the square of a 32-bit magnitude.
pub proof fn lemma_sq_gap_bound(a: i32, b: i32)
    ensures
        sq_gap(a, b) <= MAX_SQ_GAP,
        sq_gap(a, b) == 0 <==> a == b,
{
    let d: int = a - b;
    assert(-0xFFFF_FFFF <= d <= 0xFFFF_FFFF);
    assert(d * d <= 0xFFFF_FFFF * 0xFFFF_FFFF) by (nonlinear_arith)
        requires
            -0xFFFF_FFFF <= d <= 0xFFFF_FFFF,
    ;
    assert(d * d >= 0) by (nonlinear_arith);
    assert(d * d == 0 <==> d == 0) by (nonlinear_arith);
}

/// A partial sum over `n` axes is at most `n` times the largest squared gap.
pub proof fn lemma_sq_dist_upto_bound(a: Seq<i32>, b: Seq<i32>, n: nat)
    ensures
        sq_dist_upto(a, b, n) <= n * MAX_SQ_GAP,
    decreases n,
{
    if n > 0 {
        lemma_sq_dist_upto_bound(a, b, (n - 1) as nat);
        lemma_sq_gap_bound(a[n - 1], b[n - 1]);
        assert((n - 1) * MAX_SQ_GAP + MAX_SQ_GAP == n * MAX_SQ_GAP) by (nonlinear_arith);
    }
}

/// A point is at distance zero from itself.
pub proof fn lemma_sq_dist_self(a: Seq<i32>)
    ensures
        sq_dist(a, a) == 0,
{
    lemma_sq_dist_upto_self(a, a.len());
}

proof fn lemma_sq_dist_upto_self(a: Seq<i32>, n: nat)
    ensures
        sq_dist_upto(a, a, n) == 0,
    decreases n,
{
    if n > 0 {
        lemma_sq_dist_upto_self(a, (n - 1) as nat);
        lemma_sq_gap_bound(a[n - 1], a[n - 1]);
    }
}

/// Two points of one dimension at distance zero are the same point.
pub proof fn lemma_sq_dist_zero(a: Seq<i32>, b: Seq<i32>)
    requires
        a.len() == b.len(),
        sq_dist(a, b) == 0,
    ensures
        a == b,
{
    lemma_sq_dist_upto_zero(a, b, a.len());
    assert(a =~= b);
}

proof fn lemma_sq_dist_upto_zero(a: Seq<i32>, b: Seq<i32>, n: nat)
    requires
        n <= a.len(),
        n <= b.len(),
        sq_dist_upto(a, b, n) == 0,
    ensures
        forall|i: int| 0 <= i < n ==> a[i] == b[i],
    decreases n,
{
    if n > 0 {
        lemma_sq_gap_bound(a[n - 1], b[n - 1]);
        lemma_sq_dist_upto_zero(a, b, (n - 1) as nat);
    }
}

/// Squared difference of two coordinates, computed without overflow.
pub fn squared_gap(a: i32, b: i32) -> (g: u64)
    ensures
        g == sq_gap(a, b),
{
    let wide_a: i64 = a as i64;
    let wide_b: i64 = b as i64;
    let d: u64 = if a >= b {
        (wide_a - wide_b) as u64
    } else {
        (wide_b - wide_a) as u64
    };
    proof {
        lemma_sq_gap_bound(a, b);
        assert(d * d == (a - b) * (a - b)) by (nonlinear_arith)
            requires
                d == a - b || d == b - a,
        ;
    }
    d * d
}

/// Squared Euclidean distance between two points.
pub fn squared_distance<const DIMS: usize>(a: &[i32; DIMS], b: &[i32; DIMS]) -> (d: u128)
    ensures
        d == sq_dist(a@, b@),
{
    let mut total: u128 = 0;
    let mut axis: usize = 0;
    while axis < DIMS
        invariant
            axis <= DIMS,
            a@.len() == DIMS,
            b@.len() == DIMS,
            total == sq_dist_upto(a@, b@, axis as nat),
        decreases DIMS - axis,
    {
        let gap: u64 = squared_gap(a[axis], b[axis]);
        proof {
            lemma_sq_dist_upto_bound(a@, b@, axis as nat);
            lemma_sq_gap_bound(a[axis as int], b[axis as int]);
            assert(axis * MAX_SQ_GAP + MAX_SQ_GAP <= u128::MAX) by (nonlinear_arith)
                requires
                    axis < 0x1_0000_0000_0000_0000,
                    MAX_SQ_GAP == 0xFFFF_FFFE_0000_0001,
            ;
        }
        total = total + gap as u128;
        axis = axis + 1;
    }
    total
}

} // verus!
