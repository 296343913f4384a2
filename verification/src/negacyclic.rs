//! The ring `Z[X] / (X^N + 1)`: products of coefficient vectors, and the ways a
//! coefficient is reduced modulo a prime.

use crate::field::{self, cong};
use vstd::arithmetic::div_mod::lemma_mod_bound;
use vstd::prelude::*;

verus! {

/// Ring dimension.
pub const N: usize = 2048;

/// Coefficient vector of an element of the ring.
pub type Coeffs = Seq<int>;

/// Coefficient of `X^k` in `b(X) * X^i` modulo `X^N + 1`.
pub open spec fn rotated(b: Coeffs, i: int, k: int) -> int {
    if i <= k {
        b[k - i]
    } else {
        -b[k - i + N]
    }
}

/// The terms of [`product_at`] with index below `upto`.
pub open spec fn product_terms(a: Coeffs, b: Coeffs, k: int, upto: nat) -> int
    decreases upto,
{
    if upto == 0 {
        0
    } else {
        product_terms(a, b, k, (upto - 1) as nat) + a[upto - 1] * rotated(b, upto - 1, k)
    }
}

/// Coefficient `k` of the product of `a` and `b` modulo `X^N + 1`.
pub open spec fn product_at(a: Coeffs, b: Coeffs, k: int) -> int {
    product_terms(a, b, k, N as nat)
}

/// Coefficient `k` of `sum_j a[j] * b[j]`, over the first `upto` pairs.
pub open spec fn dot_at(a: Seq<Coeffs>, b: Seq<Coeffs>, k: int, upto: nat) -> int
    decreases upto,
{
    if upto == 0 {
        0
    } else {
        dot_at(a, b, k, (upto - 1) as nat) + product_at(a[upto - 1], b[upto - 1], k)
    }
}

/// Every coefficient lies in `[-b, b]`.
pub open spec fn within(c: Coeffs, b: int) -> bool {
    forall|i: int| 0 <= i < c.len() ==> -b <= #[trigger] c[i] <= b
}

/// Coefficient-wise congruence.
pub open spec fn cong_poly(a: Coeffs, b: Coeffs, q: int) -> bool {
    &&& a.len() == b.len()
    &&& forall|i: int| 0 <= i < a.len() ==> cong(#[trigger] a[i], b[i], q)
}

/// Coefficient-wise `a + s * b`.
pub open spec fn combine(a: Coeffs, s: int, b: Coeffs) -> Coeffs {
    Seq::new(a.len(), |i: int| a[i] + s * b[i])
}

pub proof fn lemma_product_cong(a: Coeffs, b: Coeffs, a2: Coeffs, b2: Coeffs, k: int, upto: nat, q: int)
    requires
        q > 0,
        a.len() == N,
        b.len() == N,
        cong_poly(a, a2, q),
        cong_poly(b, b2, q),
        0 <= k < N,
        upto <= N,
    ensures
        cong(product_terms(a, b, k, upto), product_terms(a2, b2, k, upto), q),
    decreases upto,
{
    if upto > 0 {
        let i = upto - 1;
        lemma_product_cong(a, b, a2, b2, k, i as nat, q);
        assert(cong(a[i], a2[i], q));
        if i <= k {
            assert(cong(b[k - i], b2[k - i], q));
        } else {
            assert(cong(b[k - i + N], b2[k - i + N], q));
            field::lemma_cong_ops(0, 0, b[k - i + N], b2[k - i + N], q);
        }
        field::lemma_cong_ops(a[i], a2[i], rotated(b, i, k), rotated(b2, i, k), q);
        field::lemma_cong_ops(
            product_terms(a, b, k, i as nat),
            product_terms(a2, b2, k, i as nat),
            a[i] * rotated(b, i, k),
            a2[i] * rotated(b2, i, k),
            q,
        );
    }
}

/// The product is linear in its right factor.
pub proof fn lemma_product_linear(a: Coeffs, b: Coeffs, s: int, c: Coeffs, k: int, upto: nat)
    requires
        a.len() == N,
        b.len() == N,
        c.len() == N,
        0 <= k < N,
        upto <= N,
    ensures
        product_terms(a, combine(b, s, c), k, upto) == product_terms(a, b, k, upto) + s
            * product_terms(a, c, k, upto),
    decreases upto,
{
    if upto > 0 {
        let i = upto - 1;
        lemma_product_linear(a, b, s, c, k, i as nat);
        let (x, y, z) = (a[i], rotated(b, i, k), rotated(c, i, k));
        let (p, r) = (product_terms(a, b, k, i as nat), product_terms(a, c, k, i as nat));
        assert(rotated(combine(b, s, c), i, k) == y + s * z) by {
            if i > k {
                let w = c[k - i + N];
                assert(-(s * w) == s * (-w)) by (nonlinear_arith);
            }
        }
        assert((p + s * r) + x * (y + s * z) == (p + x * y) + s * (r + x * z))
            by (nonlinear_arith);
    } else {
        assert(s * 0 == 0);
    }
}

/// The product is linear in its left factor.
pub proof fn lemma_product_linear_left(a: Coeffs, s: int, c: Coeffs, b: Coeffs, k: int, upto: nat)
    requires
        a.len() == N,
        b.len() == N,
        c.len() == N,
        0 <= k < N,
        upto <= N,
    ensures
        product_terms(combine(a, s, c), b, k, upto) == product_terms(a, b, k, upto) + s
            * product_terms(c, b, k, upto),
    decreases upto,
{
    if upto > 0 {
        let i = upto - 1;
        lemma_product_linear_left(a, s, c, b, k, i as nat);
        let (x, w, y) = (a[i], c[i], rotated(b, i, k));
        let (p, r) = (product_terms(a, b, k, i as nat), product_terms(c, b, k, i as nat));
        assert((p + s * r) + (x + s * w) * y == (p + x * y) + s * (r + w * y))
            by (nonlinear_arith);
    } else {
        assert(s * 0 == 0);
    }
}

pub proof fn lemma_product_zero(a: Coeffs, b: Coeffs, k: int, upto: nat)
    requires
        b.len() == N,
        0 <= k < N,
        upto <= N,
        forall|i: int| 0 <= i < N ==> #[trigger] b[i] == 0,
    ensures
        product_terms(a, b, k, upto) == 0,
    decreases upto,
{
    if upto > 0 {
        lemma_product_zero(a, b, k, (upto - 1) as nat);
        assert(a[upto - 1] * 0 == 0);
    }
}

proof fn lemma_term_bound(x: int, y: int, a: int, b: int)
    requires
        -a <= x <= a,
        -b <= y <= b,
        0 <= a,
        0 <= b,
    ensures
        -(a * b) <= x * y <= a * b,
{
    assert(x * y <= a * b && -(a * b) <= x * y) by (nonlinear_arith)
        requires
            -a <= x <= a,
            -b <= y <= b,
            0 <= a,
            0 <= b,
    ;
}

pub proof fn lemma_product_bound(a: Coeffs, b: Coeffs, k: int, upto: nat, ba: int, bb: int)
    requires
        a.len() == N,
        b.len() == N,
        0 <= k < N,
        upto <= N,
        within(a, ba),
        within(b, bb),
        0 <= ba,
        0 <= bb,
    ensures
        -(upto * (ba * bb)) <= product_terms(a, b, k, upto) <= upto * (ba * bb),
    decreases upto,
{
    if upto > 0 {
        let i = upto - 1;
        lemma_product_bound(a, b, k, i as nat, ba, bb);
        assert(-ba <= a[i] <= ba);
        if i <= k {
            assert(-bb <= b[k - i] <= bb);
        } else {
            assert(-bb <= b[k - i + N] <= bb);
        }
        lemma_term_bound(a[i], rotated(b, i, k), ba, bb);
        let m = ba * bb;
        assert(upto * m == i * m + m) by (nonlinear_arith)
            requires
                upto == i + 1,
        ;
    }
}

pub open spec fn ints(c: Seq<i64>) -> Coeffs {
    c.map(|_i: int, x: i64| x as int)
}

/// The exact integer coefficients of `a * b` modulo `X^N + 1`.
pub fn multiply(a: &[i64; N], b: &[i64; N], bound_a: i64, bound_b: i64) -> (r: Vec<i128>)
    requires
        within(ints(a@), bound_a as int),
        within(ints(b@), bound_b as int),
        0 <= bound_a,
        0 <= bound_b,
        N * (bound_a * bound_b) <= i128::MAX,
    ensures
        r.len() == N,
        forall|k: int| 0 <= k < N ==> #[trigger] r[k] == product_at(ints(a@), ints(b@), k),
{
    let mut r: Vec<i128> = Vec::with_capacity(N);
    let ghost (ga, gb) = (ints(a@), ints(b@));
    let ghost m = bound_a * bound_b;
    for k in 0..N
        invariant
            r.len() == k,
            ga == ints(a@),
            gb == ints(b@),
            m == bound_a * bound_b,
            within(ga, bound_a as int),
            within(gb, bound_b as int),
            0 <= bound_a,
            0 <= bound_b,
            N * m <= i128::MAX,
            forall|j: int| 0 <= j < k ==> #[trigger] r[j] == product_at(ga, gb, j),
    {
        let mut acc: i128 = 0;
        for i in 0..k + 1
            invariant
                k < N,
                ga == ints(a@),
                gb == ints(b@),
                m == bound_a * bound_b,
                within(ga, bound_a as int),
                within(gb, bound_b as int),
                0 <= bound_a,
                0 <= bound_b,
                N * m <= i128::MAX,
                acc == product_terms(ga, gb, k as int, i as nat),
        {
            proof {
                lemma_step(ga, gb, k as int, i as nat, bound_a as int, bound_b as int);
            }
            acc = acc + a[i] as i128 * b[k - i] as i128;
        }
        for i in k + 1..N
            invariant
                k < N,
                ga == ints(a@),
                gb == ints(b@),
                m == bound_a * bound_b,
                within(ga, bound_a as int),
                within(gb, bound_b as int),
                0 <= bound_a,
                0 <= bound_b,
                N * m <= i128::MAX,
                acc == product_terms(ga, gb, k as int, i as nat),
        {
            proof {
                lemma_step(ga, gb, k as int, i as nat, bound_a as int, bound_b as int);
                let (x, y) = (a[i as int] as int, b[k + N - i] as int);
                assert(x * (-y) == -(x * y)) by (nonlinear_arith);
            }
            acc = acc - a[i] as i128 * b[k + N - i] as i128;
        }
        r.push(acc);
    }
    r
}

proof fn lemma_step(a: Coeffs, b: Coeffs, k: int, i: nat, ba: int, bb: int)
    requires
        a.len() == N,
        b.len() == N,
        0 <= k < N,
        i < N,
        within(a, ba),
        within(b, bb),
        0 <= ba,
        0 <= bb,
        N * (ba * bb) <= i128::MAX,
    ensures
        i128::MIN <= product_terms(a, b, k, i + 1) <= i128::MAX,
        -(i128::MAX) <= a[i as int] * rotated(b, i as int, k) <= i128::MAX,
        product_terms(a, b, k, i + 1) == product_terms(a, b, k, i) + a[i as int] * rotated(
            b,
            i as int,
            k,
        ),
{
    let m = ba * bb;
    lemma_product_bound(a, b, k, i + 1, ba, bb);
    assert(0 <= m) by (nonlinear_arith)
        requires
            m == ba * bb,
            0 <= ba,
            0 <= bb,
    ;
    assert((i + 1) * m <= N * m) by (nonlinear_arith)
        requires
            i + 1 <= N,
            0 <= m,
    ;
    assert(m <= N * m) by (nonlinear_arith)
        requires
            N >= 1,
            0 <= m,
    ;
    assert(-ba <= a[i as int] <= ba);
    if i <= k {
        assert(-bb <= b[k - i] <= bb);
    } else {
        assert(-bb <= b[k - i + N] <= bb);
    }
    lemma_term_bound(a[i as int], rotated(b, i as int, k), ba, bb);
}

// ---------------------------------------------------------------
// Representatives
// ---------------------------------------------------------------

/// Remainder with the sign of the dividend.
pub open spec fn truncated(x: int, m: int) -> int {
    if x >= 0 {
        x % m
    } else {
        -((-x) % m)
    }
}

/// Representative of `x` modulo `m` in `[-(m-1)/2, m/2]`.
pub open spec fn centered(x: int, m: int) -> int {
    if x % m > m / 2 {
        x % m - m
    } else {
        x % m
    }
}

/// Representative of `x` modulo `m` in `[-ceil(m/2), m/2)`.
pub open spec fn centered_half_open(x: int, m: int) -> int {
    if x % m >= m / 2 {
        x % m - m
    } else {
        x % m
    }
}

pub proof fn lemma_truncated(x: int, m: int)
    requires
        m > 0,
    ensures
        cong(truncated(x, m), x, m),
        -m < truncated(x, m) < m,
        x >= 0 ==> truncated(x, m) >= 0,
        x <= 0 ==> truncated(x, m) <= 0,
        x % m == (if truncated(x, m) < 0 { truncated(x, m) + m } else { truncated(x, m) }),
{
    lemma_mod_bound(x, m);
    lemma_mod_bound(-x, m);
    field::lemma_cong_mod(x, m);
    field::lemma_cong_mod(-x, m);
    field::lemma_small(0, m);
    let t = truncated(x, m);
    if x < 0 {
        let r = (-x) % m;
        field::lemma_cong_ops(0, 0, r, -x, m);
        assert(cong(t, x, m));
    }
    if t < 0 {
        field::lemma_cong_multiple(t, 1, m);
        assert(m * 1 == m);
        field::lemma_small(t + m, m);
    } else {
        field::lemma_small(t, m);
    }
}

pub proof fn lemma_centered(x: int, m: int)
    requires
        m > 1,
    ensures
        cong(centered(x, m), x, m),
        -((m - 1) / 2) <= centered(x, m) <= m / 2,
        cong(centered_half_open(x, m), x, m),
        -((m + 1) / 2) <= centered_half_open(x, m) < m / 2,
{
    lemma_mod_bound(x, m);
    field::lemma_cong_mod(x, m);
    field::lemma_cong_multiple(x % m, 1, m);
    assert(m * 1 == m);
}

/// A value already centered is its own representative.
pub proof fn lemma_centered_id(x: int, m: int)
    requires
        m > 1,
        -((m - 1) / 2) <= x <= m / 2,
    ensures
        centered(x, m) == x,
{
    lemma_centered(x, m);
    field::lemma_cong_close(centered(x, m), x, m);
}

/// Centering depends on the residue alone.
pub proof fn lemma_centered_cong(x: int, y: int, m: int)
    requires
        m > 1,
    ensures
        cong(x, y, m) <==> centered(x, m) == centered(y, m),
{
    lemma_centered(x, m);
    lemma_centered(y, m);
}

/// `x` reduced to `[0, m)`.
pub fn rem_euclid_i64(x: i64, m: i64) -> (r: i64)
    requires
        m > 0,
    ensures
        r == (x as int) % (m as int),
        0 <= r < m,
{
    proof {
        lemma_truncated(x as int, m as int);
        lemma_mod_bound(x as int, m as int);
    }
    let r: i64 = x % m;
    if r < 0 {
        r + m
    } else {
        r
    }
}

/// `x` reduced to `[0, m)`.
pub fn rem_euclid_i128(x: i128, m: i64) -> (r: i64)
    requires
        m > 0,
    ensures
        r == (x as int) % (m as int),
        0 <= r < m,
{
    proof {
        lemma_truncated(x as int, m as int);
        lemma_mod_bound(x as int, m as int);
    }
    let r: i128 = x % m as i128;
    if r < 0 {
        (r + m as i128) as i64
    } else {
        r as i64
    }
}

/// Centers a canonical residue.
pub fn center_canonical_i64(value: i64, modulus: i64) -> (r: i64)
    requires
        0 <= value < modulus,
    ensures
        r == centered(value as int, modulus as int),
{
    proof {
        field::lemma_small(value as int, modulus as int);
    }
    if value > modulus / 2 {
        value - modulus
    } else {
        value
    }
}

/// Centers any integer.
pub fn center_i64(value: i64, modulus: i64) -> (r: i64)
    requires
        modulus > 0,
    ensures
        r == centered(value as int, modulus as int),
{
    let v: i64 = rem_euclid_i64(value, modulus);
    if v > modulus / 2 {
        v - modulus
    } else {
        v
    }
}

/// Centers any integer.
pub fn center_i32(value: i32, modulus: i32) -> (r: i32)
    requires
        modulus > 1,
    ensures
        r == centered(value as int, modulus as int),
{
    proof {
        lemma_centered(value as int, modulus as int);
    }
    center_i64(value as i64, modulus as i64) as i32
}

/// Centers a canonical residue, the midpoint going to the negative side.
pub fn center_canonical_half_open_i64(value: i64, modulus: i64) -> (r: i64)
    requires
        0 <= value < modulus,
    ensures
        r == centered_half_open(value as int, modulus as int),
{
    proof {
        field::lemma_small(value as int, modulus as int);
    }
    if value >= modulus / 2 {
        value - modulus
    } else {
        value
    }
}

/// Centers any integer, the midpoint going to the negative side.
pub fn center_half_open_i64(value: i64, modulus: i64) -> (r: i64)
    requires
        modulus > 0,
    ensures
        r == centered_half_open(value as int, modulus as int),
{
    let v: i64 = rem_euclid_i64(value, modulus);
    if v >= modulus / 2 {
        v - modulus
    } else {
        v
    }
}

} // verus!
