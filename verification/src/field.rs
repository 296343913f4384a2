//! Arithmetic modulo a prime: congruences, primality, Fermat's theorem,
//! polynomials and interpolation.

use vstd::arithmetic::div_mod::*;
use vstd::arithmetic::mul::*;
use vstd::arithmetic::power::*;
use vstd::prelude::*;

verus! {

/// `a` and `b` leave the same remainder modulo `m`.
pub open spec fn cong(a: int, b: int, m: int) -> bool {
    a % m == b % m
}

pub proof fn lemma_cong_ops(a: int, b: int, c: int, d: int, m: int)
    requires
        m > 0,
        cong(a, b, m),
        cong(c, d, m),
    ensures
        cong(a + c, b + d, m),
        cong(a - c, b - d, m),
        cong(a * c, b * d, m),
{
    lemma_add_mod_noop(a, c, m);
    lemma_add_mod_noop(b, d, m);
    lemma_sub_mod_noop(a, c, m);
    lemma_sub_mod_noop(b, d, m);
    lemma_mul_mod_noop(a, c, m);
    lemma_mul_mod_noop(b, d, m);
}

/// Reducing an operand first does not change a product modulo `m`.
pub proof fn lemma_cong_mod(a: int, m: int)
    requires
        m > 0,
    ensures
        cong(a % m, a, m),
        0 <= a % m < m,
{
    lemma_mod_twice(a, m);
    lemma_mod_bound(a, m);
}

pub proof fn lemma_small(a: int, m: int)
    requires
        0 <= a < m,
    ensures
        a % m == a,
{
    lemma_small_mod(a as nat, m as nat);
}

/// Two representatives closer than `m` that agree modulo `m` are equal.
pub proof fn lemma_cong_close(a: int, b: int, m: int)
    requires
        m > 0,
        cong(a, b, m),
        -m < a - b < m,
    ensures
        a == b,
{
    lemma_fundamental_div_mod(a, m);
    lemma_fundamental_div_mod(b, m);
    let q = a / m - b / m;
    assert(a - b == m * q) by (nonlinear_arith)
        requires
            a == m * (a / m) + a % m,
            b == m * (b / m) + b % m,
            a % m == b % m,
            q == a / m - b / m,
    ;
    assert(q == 0) by (nonlinear_arith)
        requires
            -m < m * q < m,
            m > 0,
    ;
}

pub proof fn lemma_cong_multiple(a: int, k: int, m: int)
    requires
        m > 0,
    ensures
        cong(a + m * k, a, m),
        cong(a - m * k, a, m),
        (m * k) % m == 0,
{
    lemma_mod_multiples_vanish(k, a, m);
    lemma_mod_multiples_vanish(-k, a, m);
    lemma_mod_multiples_basic(k, m);
    assert(m * -k == -(m * k)) by (nonlinear_arith);
    lemma_mul_is_commutative(m, k);
}

pub proof fn lemma_cong_diff(a: int, b: int, m: int)
    requires
        m > 0,
    ensures
        cong(a, b, m) <==> (a - b) % m == 0,
{
    lemma_mod_equivalence(a, b, m);
}

/// No integer strictly between 1 and `p` divides `p`.
pub open spec fn is_prime(p: int) -> bool {
    &&& p > 1
    &&& forall|d: int| 1 < d < p ==> #[trigger] (p % d) != 0
}

/// Every nonzero residue modulo a prime has an inverse.
pub proof fn lemma_inverse_exists(a: int, p: int)
    requires
        is_prime(p),
        0 < a < p,
    ensures
        exists|b: int| #[trigger] cong(a * b, 1, p),
    decreases a,
{
    if a == 1 {
        assert(cong(a * 1, 1, p));
    } else {
        let r = p % a;
        let q = p / a;
        assert(r != 0);
        lemma_mod_bound(p, a);
        lemma_fundamental_div_mod(p, a);
        lemma_inverse_exists(r, p);
        let s = choose|s: int| #[trigger] cong(r * s, 1, p);
        let b = -(q * s);
        // r = p - q*a, hence a * (-q*s) = r*s - p*s
        assert(a * b == r * s - p * s) by (nonlinear_arith)
            requires
                p == a * q + r,
                b == -(q * s),
        ;
        lemma_cong_multiple(r * s, s, p);
        assert(cong(a * b, 1, p));
    }
}

/// A prime divides a product only through a factor.
pub proof fn lemma_prime_divides(a: int, b: int, p: int)
    requires
        is_prime(p),
        (a * b) % p == 0,
    ensures
        a % p == 0 || b % p == 0,
{
    if a % p != 0 {
        let ar = a % p;
        lemma_cong_mod(a, p);
        lemma_inverse_exists(ar, p);
        let s = choose|s: int| #[trigger] cong(ar * s, 1, p);
        // b = b * (a * s) = s * (a * b) = 0
        lemma_cong_ops(ar, a, s, s, p);
        lemma_cong_ops(a * s, 1, b, b, p);
        lemma_cong_ops(a * b, 0, s, s, p);
        assert((a * s) * b == (a * b) * s) by (nonlinear_arith);
        assert(1 * b == b && 0 * s == 0);
        lemma_small(0, p);
        assert(cong(b, 0, p));
    }
}

/// Product of a sequence.
pub open spec fn product(s: Seq<int>) -> int
    decreases s.len(),
{
    if s.len() == 0 {
        1
    } else {
        product(s.drop_last()) * s.last()
    }
}

proof fn lemma_product_remove(s: Seq<int>, k: int)
    requires
        0 <= k < s.len(),
    ensures
        product(s) == product(s.remove(k)) * s[k],
    decreases s.len(),
{
    if k == s.len() - 1 {
        assert(s.remove(k) =~= s.drop_last());
    } else {
        lemma_product_remove(s.drop_last(), k);
        assert(s.remove(k).drop_last() =~= s.drop_last().remove(k));
        assert(s.remove(k).last() == s.last());
        let a = product(s.drop_last().remove(k));
        assert((a * s[k]) * s.last() == (a * s.last()) * s[k]) by (nonlinear_arith);
    }
}

/// `1 * 2 * .. * n`.
pub open spec fn factorial(n: nat) -> int
    decreases n,
{
    if n == 0 {
        1
    } else {
        factorial((n - 1) as nat) * n
    }
}

proof fn lemma_permutation_product(s: Seq<int>)
    requires
        s.no_duplicates(),
        forall|i: int| 0 <= i < s.len() ==> 1 <= #[trigger] s[i] <= s.len(),
    ensures
        product(s) == factorial(s.len()),
    decreases s.len(),
{
    let n = s.len() as int;
    if n > 0 {
        if !s.contains(n) {
            s.unique_seq_to_set();
            vstd::set_lib::lemma_int_range(1, n);
            let range = vstd::set_lib::set_int_range(1, n);
            assert(s.to_set().subset_of(range)) by {
                assert forall|x: int| s.to_set().contains(x) implies range.contains(x) by {
                    let i = choose|i: int| 0 <= i < s.len() && s[i] == x;
                    assert(s.contains(x));
                    assert(1 <= s[i] <= n);
                }
            }
            vstd::set_lib::lemma_len_subset(s.to_set(), range);
            assert(false);
        }
        let k = choose|k: int| 0 <= k < s.len() && s[k] == n;
        lemma_product_remove(s, k);
        let t = s.remove(k);
        assert forall|i: int| 0 <= i < t.len() implies 1 <= #[trigger] t[i] <= t.len() by {
            if i < k {
                assert(t[i] == s[i]);
            } else {
                assert(t[i] == s[i + 1]);
            }
        }
        assert(t.no_duplicates()) by {
            assert forall|i: int, j: int|
                0 <= i < t.len() && 0 <= j < t.len() && i != j implies t[i] != t[j] by {
                let i2 = if i < k { i } else { i + 1 };
                let j2 = if j < k { j } else { j + 1 };
                assert(t[i] == s[i2] && t[j] == s[j2]);
            }
        }
        lemma_permutation_product(t);
    }
}

proof fn lemma_scaled_factorial(a: int, p: int, n: nat)
    requires
        p > 1,
    ensures
        cong(product(Seq::new(n, |i: int| (a * (i + 1)) % p)), pow(a, n) * factorial(n), p),
    decreases n,
{
    let s = Seq::new(n, |i: int| (a * (i + 1)) % p);
    reveal(pow);
    if n > 0 {
        let m = (n - 1) as nat;
        lemma_scaled_factorial(a, p, m);
        let t = Seq::new(m, |i: int| (a * (i + 1)) % p);
        assert(s.drop_last() =~= t);
        lemma_cong_mod(a * (n as int), p);
        lemma_cong_ops(product(t), pow(a, m) * factorial(m), s.last(), a * (n as int), p);
        let x = pow(a, m);
        let y = factorial(m);
        assert((x * y) * (a * (n as int)) == (a * x) * (y * (n as int))) by (nonlinear_arith);
        lemma_mul_is_commutative(a, x);
    } else {
        assert(pow(a, 0) == 1);
    }
}

proof fn lemma_factorial_unit(n: nat, p: int)
    requires
        is_prime(p),
        n < p,
    ensures
        factorial(n) % p != 0,
    decreases n,
{
    if n == 0 {
        lemma_small(1, p);
    } else {
        lemma_factorial_unit((n - 1) as nat, p);
        lemma_small(n as int, p);
        if factorial(n) % p == 0 {
            lemma_prime_divides(factorial((n - 1) as nat), n as int, p);
        }
    }
}

/// Fermat: a residue not divisible by the prime `p`, raised to `p - 1`, is 1.
pub proof fn lemma_fermat(a: int, p: int)
    requires
        is_prime(p),
        a % p != 0,
    ensures
        cong(pow(a, (p - 1) as nat), 1, p),
{
    let n = (p - 1) as nat;
    let s = Seq::new(n, |i: int| (a * (i + 1)) % p);
    assert forall|i: int| 0 <= i < s.len() implies 1 <= #[trigger] s[i] <= s.len() by {
        lemma_mod_bound(a * (i + 1), p);
        if s[i] == 0 {
            lemma_prime_divides(a, i + 1, p);
            lemma_small(i + 1, p);
        }
    }
    assert(s.no_duplicates()) by {
        assert forall|i: int, j: int|
            0 <= i < s.len() && 0 <= j < s.len() && i != j implies s[i] != s[j] by {
            if s[i] == s[j] {
                lemma_cong_diff(a * (i + 1), a * (j + 1), p);
                assert(a * (i + 1) - a * (j + 1) == a * (i - j)) by (nonlinear_arith);
                lemma_prime_divides(a, i - j, p);
                lemma_cong_diff(i, j, p);
                lemma_cong_close(i, j, p);
            }
        }
    }
    lemma_permutation_product(s);
    lemma_scaled_factorial(a, p, n);
    lemma_factorial_unit(n, p);
    let f = factorial(n);
    let x = pow(a, n);
    lemma_cong_diff(x * f, f, p);
    assert(x * f - f == (x - 1) * f) by (nonlinear_arith);
    lemma_prime_divides(x - 1, f, p);
    lemma_cong_diff(x, 1, p);
}

/// `a^(p-2)` inverts `a` modulo the prime `p`.
pub proof fn lemma_fermat_inverse(a: int, p: int)
    requires
        is_prime(p),
        a % p != 0,
    ensures
        cong(pow(a, (p - 2) as nat) * a, 1, p),
{
    lemma_fermat(a, p);
    reveal(pow);
    lemma_mul_is_commutative(a, pow(a, (p - 2) as nat));
    if p == 2 {
        assert(pow(a, 1) == a * pow(a, 0));
    }
}


// ---------------------------------------------------------------
// Sums
// ---------------------------------------------------------------

/// Sum of a sequence.
pub open spec fn sum(s: Seq<int>) -> int
    decreases s.len(),
{
    if s.len() == 0 {
        0
    } else {
        sum(s.drop_last()) + s.last()
    }
}

pub proof fn lemma_sum_push(s: Seq<int>, x: int)
    ensures
        sum(s.push(x)) == sum(s) + x,
{
    assert(s.push(x).drop_last() =~= s);
}

pub proof fn lemma_sum_cong(a: Seq<int>, b: Seq<int>, m: int)
    requires
        m > 0,
        a.len() == b.len(),
        forall|i: int| 0 <= i < a.len() ==> cong(#[trigger] a[i], b[i], m),
    ensures
        cong(sum(a), sum(b), m),
    decreases a.len(),
{
    if a.len() > 0 {
        lemma_sum_cong(a.drop_last(), b.drop_last(), m);
        assert(cong(a[a.len() - 1], b[a.len() - 1], m));
        lemma_cong_ops(sum(a.drop_last()), sum(b.drop_last()), a.last(), b.last(), m);
    }
}

pub proof fn lemma_sum_linear(a: Seq<int>, b: Seq<int>, k: int)
    requires
        a.len() == b.len(),
    ensures
        sum(Seq::new(a.len(), |i: int| a[i] + k * b[i])) == sum(a) + k * sum(b),
    decreases a.len(),
{
    let c = Seq::new(a.len(), |i: int| a[i] + k * b[i]);
    if a.len() > 0 {
        lemma_sum_linear(a.drop_last(), b.drop_last(), k);
        assert(c.drop_last() =~= Seq::new(
            (a.len() - 1) as nat,
            |i: int| a.drop_last()[i] + k * b.drop_last()[i],
        ));
        lemma_mul_is_distributive_add(k, sum(b.drop_last()), b.last());
    } else {
        assert(k * 0 == 0);
    }
}

/// All terms but one vanish modulo `m`.
pub proof fn lemma_sum_single(a: Seq<int>, k: int, m: int)
    requires
        m > 0,
        0 <= k < a.len(),
        forall|i: int| 0 <= i < a.len() && i != k ==> cong(#[trigger] a[i], 0, m),
    ensures
        cong(sum(a), a[k], m),
    decreases a.len(),
{
    let b = a.drop_last();
    if k == a.len() - 1 {
        lemma_sum_zero(b, m);
        lemma_cong_ops(sum(b), 0, a[k], a[k], m);
    } else {
        lemma_sum_single(b, k, m);
        assert(cong(a[a.len() - 1], 0, m));
        lemma_cong_ops(sum(b), a[k], a.last(), 0, m);
    }
}

pub proof fn lemma_sum_zero(a: Seq<int>, m: int)
    requires
        m > 0,
        forall|i: int| 0 <= i < a.len() ==> cong(#[trigger] a[i], 0, m),
    ensures
        cong(sum(a), 0, m),
    decreases a.len(),
{
    if a.len() > 0 {
        lemma_sum_zero(a.drop_last(), m);
        assert(cong(a[a.len() - 1], 0, m));
        lemma_cong_ops(sum(a.drop_last()), 0, a.last(), 0, m);
    }
}

// ---------------------------------------------------------------
// Polynomials, coefficients by rising degree
// ---------------------------------------------------------------

/// Value of the polynomial with coefficients `c` at `x`.
pub open spec fn eval(c: Seq<int>, x: int) -> int
    decreases c.len(),
{
    if c.len() == 0 {
        0
    } else {
        c[0] + x * eval(c.drop_first(), x)
    }
}

/// Coefficient of degree `i`, zero past the end.
pub open spec fn coef(c: Seq<int>, i: int) -> int {
    if 0 <= i < c.len() {
        c[i]
    } else {
        0
    }
}

/// `(c(X) - c(r)) / (X - r)`.
pub open spec fn quotient(c: Seq<int>, r: int) -> Seq<int>
    decreases c.len(),
{
    if c.len() <= 1 {
        Seq::empty()
    } else {
        seq![eval(c.drop_first(), r)] + quotient(c.drop_first(), r)
    }
}

pub proof fn lemma_quotient_len(c: Seq<int>, r: int)
    ensures
        quotient(c, r).len() == (if c.len() == 0 { 0 } else { c.len() - 1 }),
    decreases c.len(),
{
    if c.len() > 1 {
        lemma_quotient_len(c.drop_first(), r);
    }
}

pub proof fn lemma_quotient_eval(c: Seq<int>, r: int, x: int)
    ensures
        eval(c, x) == (x - r) * eval(quotient(c, r), x) + eval(c, r),
    decreases c.len(),
{
    if c.len() <= 1 {
        assert((x - r) * 0 == 0);
        if c.len() == 1 {
            assert(eval(c.drop_first(), x) == 0 && eval(c.drop_first(), r) == 0);
            assert(x * 0 == 0 && r * 0 == 0);
        }
    } else {
        let t = c.drop_first();
        lemma_quotient_eval(t, r, x);
        let q = quotient(c, r);
        assert(q.drop_first() =~= quotient(t, r));
        let (tx, tr, qx) = (eval(t, x), eval(t, r), eval(quotient(t, r), x));
        assert(c[0] + x * tx == (x - r) * (tr + x * qx) + (c[0] + r * tr)) by (nonlinear_arith)
            requires
                tx == (x - r) * qx + tr,
        ;
    }
}

pub proof fn lemma_quotient_coeffs(c: Seq<int>, r: int, i: int)
    requires
        1 <= i < c.len(),
    ensures
        c[i] == coef(quotient(c, r), i - 1) - r * coef(quotient(c, r), i),
    decreases c.len(),
{
    let t = c.drop_first();
    let q = quotient(c, r);
    lemma_quotient_len(c, r);
    lemma_quotient_len(t, r);
    if i == 1 {
        if t.len() == 1 {
            assert(eval(t.drop_first(), r) == 0);
            assert(r * 0 == 0);
        } else {
            assert(quotient(t, r)[0] == eval(t.drop_first(), r));
            assert(q[1] == quotient(t, r)[0]);
        }
    } else {
        lemma_quotient_coeffs(t, r, i - 1);
        assert(coef(q, i - 1) == coef(quotient(t, r), i - 2));
        assert(coef(q, i) == coef(quotient(t, r), i - 1));
    }
}

/// Every coefficient vanishes modulo `p`.
pub open spec fn zero_mod(c: Seq<int>, p: int) -> bool {
    forall|i: int| 0 <= i < c.len() ==> #[trigger] c[i] % p == 0
}

/// Values pairwise distinct modulo `p`.
pub open spec fn distinct_mod(xs: Seq<int>, p: int) -> bool {
    forall|i: int, j: int|
        0 <= i < xs.len() && 0 <= j < xs.len() && i != j ==> !cong(#[trigger] xs[i], #[trigger] xs[j], p)
}

/// A polynomial with as many distinct roots as coefficients is zero.
pub proof fn lemma_root_bound(c: Seq<int>, roots: Seq<int>, p: int)
    requires
        is_prime(p),
        roots.len() >= c.len(),
        distinct_mod(roots, p),
        forall|i: int| 0 <= i < roots.len() ==> eval(c, #[trigger] roots[i]) % p == 0,
    ensures
        zero_mod(c, p),
    decreases c.len(),
{
    if c.len() > 0 {
        let r = roots.last();
        let rest = roots.drop_last();
        let q = quotient(c, r);
        lemma_quotient_len(c, r);
        assert(eval(c, roots[roots.len() - 1]) % p == 0);
        assert forall|i: int| 0 <= i < rest.len() implies eval(q, #[trigger] rest[i]) % p == 0 by {
            let s = roots[i];
            assert(rest[i] == s);
            lemma_quotient_eval(c, r, s);
            lemma_small(0, p);
            lemma_cong_ops(eval(c, s), 0, eval(c, r), 0, p);
            assert(((s - r) * eval(q, s)) % p == 0);
            lemma_prime_divides(s - r, eval(q, s), p);
            if (s - r) % p == 0 {
                lemma_cong_diff(s, r, p);
                assert(cong(roots[i], roots[roots.len() - 1], p));
            }
        }
        assert(distinct_mod(rest, p)) by {
            assert forall|i: int, j: int| 0 <= i < rest.len() && 0 <= j < rest.len() && i != j implies
                !cong(#[trigger] rest[i], #[trigger] rest[j], p) by {
                assert(!cong(roots[i], roots[j], p));
            }
        }
        lemma_root_bound(q, rest, p);
        assert forall|i: int| 0 <= i < c.len() implies #[trigger] c[i] % p == 0 by {
            lemma_small(0, p);
            if i >= 1 {
                lemma_quotient_coeffs(c, r, i);
                assert(cong(coef(q, i - 1), 0, p)) by {
                    assert(q[i - 1] % p == 0);
                }
                assert(cong(coef(q, i), 0, p)) by {
                    if i < q.len() {
                        assert(q[i] % p == 0);
                    }
                }
                lemma_cong_ops(r, r, coef(q, i), 0, p);
                lemma_cong_ops(coef(q, i - 1), 0, r * coef(q, i), r * 0, p);
                assert(r * 0 == 0);
            } else {
                // c[0] = c(r) - r * t(r), and t(r) is the first coefficient of q
                let t = c.drop_first();
                if c.len() == 1 {
                    assert(eval(t, r) == 0);
                } else {
                    assert(q[0] == eval(t, r));
                }
                assert(cong(eval(t, r), 0, p));
                lemma_cong_ops(r, r, eval(t, r), 0, p);
                lemma_cong_ops(eval(c, r), 0, r * eval(t, r), r * 0, p);
                assert(r * 0 == 0);
            }
        }
    }
}

pub proof fn lemma_eval_zero(c: Seq<int>, x: int, p: int)
    requires
        p > 0,
        zero_mod(c, p),
    ensures
        eval(c, x) % p == 0,
    decreases c.len(),
{
    lemma_small(0, p);
    if c.len() > 0 {
        let t = c.drop_first();
        assert(zero_mod(t, p)) by {
            assert forall|i: int| 0 <= i < t.len() implies #[trigger] t[i] % p == 0 by {
                assert(c[i + 1] % p == 0);
            }
        }
        lemma_eval_zero(t, x, p);
        assert(cong(c[0], 0, p));
        lemma_cong_ops(x, x, eval(t, x), 0, p);
        lemma_cong_ops(c[0], 0, x * eval(t, x), x * 0, p);
        assert(x * 0 == 0);
    }
}

/// Sum of two polynomials.
pub open spec fn poly_add(a: Seq<int>, b: Seq<int>) -> Seq<int> {
    Seq::new(
        if a.len() >= b.len() { a.len() } else { b.len() },
        |i: int| coef(a, i) + coef(b, i),
    )
}

/// Scalar multiple of a polynomial.
pub open spec fn poly_scale(c: Seq<int>, k: int) -> Seq<int> {
    Seq::new(c.len(), |i: int| k * c[i])
}

/// `X * c(X)`.
pub open spec fn poly_shift(c: Seq<int>) -> Seq<int> {
    seq![0int] + c
}

pub open spec fn tail(c: Seq<int>) -> Seq<int> {
    if c.len() == 0 {
        c
    } else {
        c.drop_first()
    }
}

proof fn lemma_eval_tail(c: Seq<int>, x: int)
    ensures
        eval(c, x) == coef(c, 0) + x * eval(tail(c), x),
{
    if c.len() == 0 {
        assert(x * 0 == 0);
    }
}

pub proof fn lemma_eval_add(a: Seq<int>, b: Seq<int>, x: int)
    ensures
        eval(poly_add(a, b), x) == eval(a, x) + eval(b, x),
    decreases a.len() + b.len(),
{
    let c = poly_add(a, b);
    if a.len() + b.len() > 0 {
        lemma_eval_add(tail(a), tail(b), x);
        assert(tail(c) =~= poly_add(tail(a), tail(b)));
        lemma_eval_tail(a, x);
        lemma_eval_tail(b, x);
        lemma_eval_tail(c, x);
        lemma_mul_is_distributive_add(x, eval(tail(a), x), eval(tail(b), x));
    }
}

pub proof fn lemma_eval_scale(c: Seq<int>, k: int, x: int)
    ensures
        eval(poly_scale(c, k), x) == k * eval(c, x),
    decreases c.len(),
{
    if c.len() > 0 {
        let t = c.drop_first();
        lemma_eval_scale(t, k, x);
        assert(poly_scale(c, k).drop_first() =~= poly_scale(t, k));
        let e = eval(t, x);
        assert(k * c[0] + x * (k * e) == k * (c[0] + x * e)) by (nonlinear_arith);
    } else {
        assert(k * 0 == 0);
    }
}

pub proof fn lemma_eval_shift(c: Seq<int>, x: int)
    ensures
        eval(poly_shift(c), x) == x * eval(c, x),
{
    assert(poly_shift(c).drop_first() =~= c);
}

/// `(X - a) * c(X)`.
pub open spec fn mul_linear(c: Seq<int>, a: int) -> Seq<int> {
    poly_add(poly_shift(c), poly_scale(c, -a))
}

pub proof fn lemma_eval_mul_linear(c: Seq<int>, a: int, x: int)
    ensures
        eval(mul_linear(c, a), x) == (x - a) * eval(c, x),
        mul_linear(c, a).len() == c.len() + 1,
{
    lemma_eval_add(poly_shift(c), poly_scale(c, -a), x);
    lemma_eval_shift(c, x);
    lemma_eval_scale(c, -a, x);
    let e = eval(c, x);
    assert(x * e + (-a) * e == (x - a) * e) by (nonlinear_arith);
}

// ---------------------------------------------------------------
// Lagrange interpolation
// ---------------------------------------------------------------

/// Product of `x - xs[j]` over the first `upto` indices `j` other than `skip`.
pub open spec fn others_product(xs: Seq<int>, skip: int, x: int, upto: nat) -> int
    decreases upto,
{
    if upto == 0 {
        1
    } else if upto - 1 == skip {
        others_product(xs, skip, x, (upto - 1) as nat)
    } else {
        others_product(xs, skip, x, (upto - 1) as nat) * (x - xs[upto - 1])
    }
}

/// Value at `x` of the basis polynomial that is 1 at `xs[i]` and 0 at every
/// other point, up to congruence modulo the prime `p`.
pub open spec fn lagrange_weight(xs: Seq<int>, i: int, x: int, p: int) -> int {
    others_product(xs, i, x, xs.len()) * pow(
        others_product(xs, i, xs[i], xs.len()),
        (p - 2) as nat,
    )
}

/// Value at `x` of the interpolation through `(xs[i], ys[i])`.
pub open spec fn interpolate(xs: Seq<int>, ys: Seq<int>, x: int, p: int) -> int {
    sum(Seq::new(xs.len(), |i: int| ys[i] * lagrange_weight(xs, i, x, p)))
}

spec fn basis_poly(xs: Seq<int>, skip: int, upto: nat) -> Seq<int>
    decreases upto,
{
    if upto == 0 {
        seq![1int]
    } else if upto - 1 == skip {
        basis_poly(xs, skip, (upto - 1) as nat)
    } else {
        mul_linear(basis_poly(xs, skip, (upto - 1) as nat), xs[upto - 1])
    }
}

proof fn lemma_basis_poly(xs: Seq<int>, skip: int, upto: nat, x: int)
    requires
        0 <= skip,
    ensures
        eval(basis_poly(xs, skip, upto), x) == others_product(xs, skip, x, upto),
        basis_poly(xs, skip, upto).len() == (if skip < upto { upto } else { upto + 1 }),
    decreases upto,
{
    if upto == 0 {
        assert(seq![1int].drop_first() =~= Seq::<int>::empty());
        assert(eval(Seq::<int>::empty(), x) == 0);
        assert(x * 0 == 0);
    } else {
        let m = (upto - 1) as nat;
        lemma_basis_poly(xs, skip, m, x);
        if m != skip {
            lemma_eval_mul_linear(basis_poly(xs, skip, m), xs[m as int], x);
            lemma_mul_is_commutative(x - xs[m as int], eval(basis_poly(xs, skip, m), x));
        }
    }
}

proof fn lemma_others_vanish(xs: Seq<int>, i: int, k: int, upto: nat, p: int)
    requires
        p > 0,
        0 <= k < upto <= xs.len(),
        i != k,
    ensures
        others_product(xs, i, xs[k], upto) % p == 0,
    decreases upto,
{
    let m = (upto - 1) as nat;
    lemma_small(0, p);
    let x = xs[k];
    if m == k {
        assert(others_product(xs, i, x, m) * (x - x) == 0) by (nonlinear_arith);
    } else {
        lemma_others_vanish(xs, i, k, m, p);
        if m != i {
            let o = others_product(xs, i, x, m);
            lemma_cong_ops(o, 0, x - xs[m as int], x - xs[m as int], p);
        }
    }
}

pub proof fn lemma_others_unit(xs: Seq<int>, i: int, x: int, upto: nat, p: int)
    requires
        is_prime(p),
        upto <= xs.len(),
        forall|j: int| 0 <= j < upto && j != i ==> !cong(x, #[trigger] xs[j], p),
    ensures
        others_product(xs, i, x, upto) % p != 0,
    decreases upto,
{
    if upto == 0 {
        lemma_small(1, p);
    } else {
        let m = (upto - 1) as nat;
        lemma_others_unit(xs, i, x, m, p);
        if m != i {
            assert(!cong(x, xs[m as int], p));
            lemma_cong_diff(x, xs[m as int], p);
            if others_product(xs, i, x, upto) % p == 0 {
                lemma_prime_divides(others_product(xs, i, x, m), x - xs[m as int], p);
            }
        }
    }
}

/// The basis polynomials are 1 at their own point and 0 at the others.
pub proof fn lemma_weight_at_points(xs: Seq<int>, i: int, k: int, p: int)
    requires
        is_prime(p),
        distinct_mod(xs, p),
        0 <= i < xs.len(),
        0 <= k < xs.len(),
    ensures
        cong(lagrange_weight(xs, i, xs[k], p), if i == k { 1 } else { 0 }, p),
{
    let den = others_product(xs, i, xs[i], xs.len());
    let inv = pow(den, (p - 2) as nat);
    if i == k {
        assert forall|j: int| 0 <= j < xs.len() && j != i implies !cong(
            xs[i],
            #[trigger] xs[j],
            p,
        ) by {
            assert(!cong(xs[i], xs[j], p));
        }
        lemma_others_unit(xs, i, xs[i], xs.len(), p);
        lemma_fermat_inverse(den, p);
        lemma_mul_is_commutative(den, inv);
    } else {
        lemma_others_vanish(xs, i, k, xs.len(), p);
        lemma_small(0, p);
        lemma_cong_ops(others_product(xs, i, xs[k], xs.len()), 0, inv, inv, p);
    }
}

spec fn interp_poly(xs: Seq<int>, ys: Seq<int>, p: int, upto: nat) -> Seq<int>
    decreases upto,
{
    if upto == 0 {
        Seq::empty()
    } else {
        let i = upto - 1;
        poly_add(
            interp_poly(xs, ys, p, i as nat),
            poly_scale(
                basis_poly(xs, i, xs.len()),
                ys[i] * pow(others_product(xs, i, xs[i], xs.len()), (p - 2) as nat),
            ),
        )
    }
}

proof fn lemma_interp_poly(xs: Seq<int>, ys: Seq<int>, p: int, upto: nat, x: int)
    requires
        upto <= xs.len(),
        xs.len() == ys.len(),
    ensures
        eval(interp_poly(xs, ys, p, upto), x) == sum(
            Seq::new(upto, |i: int| ys[i] * lagrange_weight(xs, i, x, p)),
        ),
        interp_poly(xs, ys, p, upto).len() <= xs.len(),
    decreases upto,
{
    let s = Seq::new(upto, |i: int| ys[i] * lagrange_weight(xs, i, x, p));
    if upto > 0 {
        let m = (upto - 1) as nat;
        lemma_interp_poly(xs, ys, p, m, x);
        assert(s.drop_last() =~= Seq::new(m, |i: int| ys[i] * lagrange_weight(xs, i, x, p)));
        let inv = pow(others_product(xs, m as int, xs[m as int], xs.len()), (p - 2) as nat);
        let k = ys[m as int] * inv;
        let b = basis_poly(xs, m as int, xs.len());
        lemma_basis_poly(xs, m as int, xs.len(), x);
        lemma_eval_scale(b, k, x);
        lemma_eval_add(interp_poly(xs, ys, p, m), poly_scale(b, k), x);
        let o = others_product(xs, m as int, x, xs.len());
        let y = ys[m as int];
        assert((y * inv) * o == y * (o * inv)) by (nonlinear_arith);
    }
}

/// Interpolating a polynomial of degree below the number of distinct points
/// reproduces it everywhere.
pub proof fn lemma_interpolation(c: Seq<int>, xs: Seq<int>, ys: Seq<int>, x: int, p: int)
    requires
        is_prime(p),
        distinct_mod(xs, p),
        c.len() <= xs.len(),
        ys.len() == xs.len(),
        forall|i: int| 0 <= i < xs.len() ==> cong(#[trigger] ys[i], eval(c, xs[i]), p),
    ensures
        cong(interpolate(xs, ys, x, p), eval(c, x), p),
{
    let n = xs.len();
    let g = interp_poly(xs, ys, p, n);
    let h = poly_add(g, poly_scale(c, -1));
    lemma_interp_poly(xs, ys, p, n, x);
    assert forall|k: int| 0 <= k < n implies eval(h, #[trigger] xs[k]) % p == 0 by {
        let xk = xs[k];
        lemma_interp_poly(xs, ys, p, n, xk);
        let s = Seq::new(n, |i: int| ys[i] * lagrange_weight(xs, i, xk, p));
        assert forall|i: int| 0 <= i < s.len() && i != k implies cong(#[trigger] s[i], 0, p) by {
            lemma_weight_at_points(xs, i, k, p);
            lemma_cong_ops(ys[i], ys[i], lagrange_weight(xs, i, xk, p), 0, p);
            assert(ys[i] * 0 == 0);
        }
        lemma_sum_single(s, k, p);
        lemma_weight_at_points(xs, k, k, p);
        lemma_cong_ops(ys[k], eval(c, xk), lagrange_weight(xs, k, xk, p), 1, p);
        lemma_eval_add(g, poly_scale(c, -1), xk);
        lemma_eval_scale(c, -1, xk);
        lemma_cong_diff(sum(s), eval(c, xk), p);
    }
    lemma_root_bound(h, xs, p);
    lemma_eval_zero(h, x, p);
    lemma_eval_add(g, poly_scale(c, -1), x);
    lemma_eval_scale(c, -1, x);
    lemma_cong_diff(eval(g, x), eval(c, x), p);
}


/// The interpolation is a polynomial of degree below the number of points.
pub proof fn lemma_interpolate_is_poly(xs: Seq<int>, ys: Seq<int>, p: int) -> (c: Seq<int>)
    requires
        xs.len() == ys.len(),
    ensures
        c.len() <= xs.len(),
        forall|x: int| #[trigger] eval(c, x) == interpolate(xs, ys, x, p),
{
    let c = interp_poly(xs, ys, p, xs.len());
    lemma_interp_poly(xs, ys, p, xs.len(), 0);
    assert forall|x: int| #[trigger] eval(c, x) == interpolate(xs, ys, x, p) by {
        lemma_interp_poly(xs, ys, p, xs.len(), x);
    }
    c
}

/// At one of its points the interpolation takes the value given there.
pub proof fn lemma_interpolate_at_point(xs: Seq<int>, ys: Seq<int>, k: int, p: int)
    requires
        is_prime(p),
        distinct_mod(xs, p),
        xs.len() == ys.len(),
        0 <= k < xs.len(),
    ensures
        cong(interpolate(xs, ys, xs[k], p), ys[k], p),
{
    let s = Seq::new(xs.len(), |i: int| ys[i] * lagrange_weight(xs, i, xs[k], p));
    assert forall|i: int| 0 <= i < s.len() && i != k implies cong(#[trigger] s[i], 0, p) by {
        lemma_weight_at_points(xs, i, k, p);
        lemma_cong_ops(ys[i], ys[i], lagrange_weight(xs, i, xs[k], p), 0, p);
        assert(ys[i] * 0 == 0);
    }
    lemma_sum_single(s, k, p);
    lemma_weight_at_points(xs, k, k, p);
    lemma_cong_ops(ys[k], ys[k], lagrange_weight(xs, k, xs[k], p), 1, p);
}

/// Interpolation depends on the values only modulo `p`.
pub proof fn lemma_interpolate_cong(xs: Seq<int>, ys: Seq<int>, zs: Seq<int>, x: int, p: int)
    requires
        p > 0,
        xs.len() == ys.len(),
        xs.len() == zs.len(),
        forall|i: int| 0 <= i < ys.len() ==> cong(#[trigger] ys[i], zs[i], p),
    ensures
        cong(interpolate(xs, ys, x, p), interpolate(xs, zs, x, p), p),
{
    let a = Seq::new(xs.len(), |i: int| ys[i] * lagrange_weight(xs, i, x, p));
    let b = Seq::new(xs.len(), |i: int| zs[i] * lagrange_weight(xs, i, x, p));
    assert forall|i: int| 0 <= i < a.len() implies cong(#[trigger] a[i], b[i], p) by {
        assert(cong(ys[i], zs[i], p));
        let w = lagrange_weight(xs, i, x, p);
        lemma_cong_ops(ys[i], zs[i], w, w, p);
    }
    lemma_sum_cong(a, b, p);
}

/// Interpolation is additive in the values.
pub proof fn lemma_interpolate_add(xs: Seq<int>, ys: Seq<int>, zs: Seq<int>, x: int, p: int)
    requires
        xs.len() == ys.len(),
        xs.len() == zs.len(),
    ensures
        interpolate(xs, Seq::new(xs.len(), |i: int| ys[i] + zs[i]), x, p) == interpolate(
            xs,
            ys,
            x,
            p,
        ) + interpolate(xs, zs, x, p),
{
    let a = Seq::new(xs.len(), |i: int| ys[i] * lagrange_weight(xs, i, x, p));
    let b = Seq::new(xs.len(), |i: int| zs[i] * lagrange_weight(xs, i, x, p));
    lemma_sum_linear(a, b, 1);
    let ws = Seq::new(xs.len(), |i: int| ys[i] + zs[i]);
    let c = Seq::new(xs.len(), |i: int| ws[i] * lagrange_weight(xs, i, x, p));
    assert(c =~= Seq::new(a.len(), |i: int| a[i] + 1 * b[i])) by {
        assert forall|i: int| 0 <= i < xs.len() implies c[i] == a[i] + 1 * b[i] by {
            lemma_mul_is_distributive_add_other_way(lagrange_weight(xs, i, x, p), ys[i], zs[i]);
        }
    }
}

// ---------------------------------------------------------------
// Executable residue arithmetic
// ---------------------------------------------------------------

/// `a * b` modulo `m`.
pub fn mul_mod(a: u64, b: u64, m: u64) -> (r: u64)
    requires
        m > 0,
    ensures
        r == (a * b) % (m as int),
        r < m,
{
    assert(a * b <= 0xffff_ffff_ffff_ffff * 0xffff_ffff_ffff_ffff) by (nonlinear_arith)
        requires
            a <= 0xffff_ffff_ffff_ffff,
            b <= 0xffff_ffff_ffff_ffff,
    ;
    ((a as u128 * b as u128) % m as u128) as u64
}

/// `base^exp` modulo `m`, by squaring.
pub fn pow_mod(base: u64, exp: u64, m: u64) -> (r: u64)
    requires
        m > 1,
    ensures
        r == pow(base as int, exp as nat) % (m as int),
        r < m,
{
    let mut acc: u64 = 1;
    let mut b: u64 = base % m;
    let mut e: u64 = exp;
    proof {
        lemma_cong_mod(base as int, m as int);
        lemma_pow_mod_noop(base as int, exp as nat, m as int);
        lemma_pow_mod_noop(b as int, exp as nat, m as int);
        lemma_small(1, m as int);
        assert(1 * pow(b as int, exp as nat) == pow(b as int, exp as nat));
    }
    while e > 0
        invariant
            m > 1,
            acc < m,
            b < m,
            cong(acc * pow(b as int, e as nat), pow(base as int, exp as nat), m as int),
        decreases e,
    {
        let ghost (acc0, b0, e0) = (acc as int, b as int, e as nat);
        let ghost mi = m as int;
        if e % 2 == 1 {
            acc = mul_mod(acc, b, m);
        }
        b = mul_mod(b, b, m);
        e = e / 2;
        proof {
            // b0^e0 = (b0 * b0)^(e0 / 2) * b0^(e0 % 2)
            let h = (e0 / 2) as nat;
            lemma_pow_multiplies(b0, 2, h);
            lemma_square_is_pow2(b0);
            let sq = b0 * b0;
            assert(pow(sq, h) == pow(b0, 2 * h));
            lemma_cong_mod(sq, mi);
            lemma_pow_mod_noop(sq, h, mi);
            lemma_pow_mod_noop(b as int, h, mi);
            assert(cong(pow(b as int, h), pow(sq, h), mi));
            if e0 % 2 == 1 {
                lemma_pow_adds(b0, 2 * h, 1);
                lemma_pow1(b0);
                lemma_cong_mod(acc0 * b0, mi);
                lemma_cong_ops(acc as int, acc0 * b0, pow(b as int, h), pow(sq, h), mi);
                let z = pow(sq, h);
                assert((acc0 * b0) * z == acc0 * (z * b0)) by (nonlinear_arith);
            } else {
                lemma_cong_ops(acc0, acc0, pow(b as int, h), pow(sq, h), mi);
            }
        }
    }
    proof {
        assert(pow(b as int, 0) == 1) by {
            reveal(pow);
        }
        assert(acc * 1 == acc);
        lemma_small(acc as int, m as int);
    }
    acc
}

} // verus!
