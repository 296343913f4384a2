//! Primality of the moduli.

use crate::field;
use vstd::arithmetic::div_mod::*;
use vstd::arithmetic::mul::*;
use vstd::arithmetic::power::*;
use vstd::prelude::*;

verus! {

pub proof fn lemma_pow_cong(a: int, b: int, e: nat, m: int)
    requires
        m > 0,
        field::cong(a, b, m),
    ensures
        field::cong(pow(a, e), pow(b, e), m),
{
    lemma_pow_mod_noop(a, e, m);
    lemma_pow_mod_noop(b, e, m);
}

/// A congruence modulo `p` holds modulo every divisor of `p`.
pub proof fn lemma_cong_divisor(x: int, y: int, p: int, q: int)
    requires
        p > 0,
        q > 0,
        p % q == 0,
        field::cong(x, y, p),
    ensures
        field::cong(x, y, q),
{
    field::lemma_cong_diff(x, y, p);
    lemma_fundamental_div_mod(x - y, p);
    lemma_fundamental_div_mod(p, q);
    let (k, j) = ((x - y) / p, p / q);
    assert(x - y == q * (j * k)) by (nonlinear_arith)
        requires
            x - y == p * k,
            p == q * j,
    ;
    field::lemma_cong_multiple(0, j * k, q);
    field::lemma_cong_diff(x, y, q);
}

proof fn lemma_prime_factor(n: int, d: int)
    requires
        1 < d <= n,
        n % d == 0,
    ensures
        exists|q: int| field::is_prime(q) && q <= d && #[trigger] (n % q) == 0,
    decreases d,
{
    if field::is_prime(d) {
        assert(n % d == 0);
    } else {
        let f = choose|f: int| 1 < f < d && #[trigger] (d % f) == 0;
        lemma_cong_divisor(n, 0, d, f);
        field::lemma_small(0, d);
        field::lemma_small(0, f);
        lemma_prime_factor(n, f);
    }
}

/// A composite number has a prime factor no larger than its square root.
proof fn lemma_small_prime_factor(n: int, d: int)
    requires
        1 < d < n,
        n % d == 0,
    ensures
        exists|q: int| field::is_prime(q) && q * q <= n && #[trigger] (n % q) == 0,
{
    let f = n / d;
    lemma_fundamental_div_mod(n, d);
    assert(1 < f < n) by (nonlinear_arith)
        requires
            n == d * f,
            1 < d < n,
    ;
    let m = if d <= f { d } else { f };
    assert(m * m <= n) by (nonlinear_arith)
        requires
            n == d * f,
            m <= d,
            m <= f,
            m > 0,
    ;
    field::lemma_cong_multiple(0, d, f);
    lemma_mul_is_commutative(d, f);
    lemma_prime_factor(n, m);
    let q = choose|q: int| field::is_prime(q) && q <= m && #[trigger] (n % q) == 0;
    assert(q * q <= n) by (nonlinear_arith)
        requires
            m * m <= n,
            0 < q <= m,
    ;
}

/// No number in `[lo, hi)` divides `p`.
spec fn undivided(p: int, lo: int, hi: int) -> bool
    decreases hi - lo,
{
    lo >= hi || (p % lo != 0 && undivided(p, lo + 1, hi))
}

proof fn lemma_undivided(p: int, lo: int, hi: int, d: int)
    requires
        undivided(p, lo, hi),
        lo <= d < hi,
    ensures
        p % d != 0,
    decreases hi - lo,
{
    if d > lo {
        lemma_undivided(p, lo + 1, hi, d);
    }
}

proof fn lemma_undivided_join(p: int, lo: int, mid: int, hi: int)
    requires
        undivided(p, lo, mid),
        undivided(p, mid, hi),
        lo <= mid <= hi,
    ensures
        undivided(p, lo, hi),
    decreases mid - lo,
{
    if lo < mid {
        lemma_undivided_join(p, lo + 1, mid, hi);
    }
}

proof fn lemma_undivided_ten(p: int, lo: int)
    requires
        p % (lo + 0) != 0,
        p % (lo + 1) != 0,
        p % (lo + 2) != 0,
        p % (lo + 3) != 0,
        p % (lo + 4) != 0,
        p % (lo + 5) != 0,
        p % (lo + 6) != 0,
        p % (lo + 7) != 0,
        p % (lo + 8) != 0,
        p % (lo + 9) != 0,
    ensures
        undivided(p, lo, lo + 10),
{
    let hi = lo + 10;
    assert(undivided(p, lo + 10, hi));
    assert(undivided(p, lo + 9, hi));
    assert(undivided(p, lo + 8, hi));
    assert(undivided(p, lo + 7, hi));
    assert(undivided(p, lo + 6, hi));
    assert(undivided(p, lo + 5, hi));
    assert(undivided(p, lo + 4, hi));
    assert(undivided(p, lo + 3, hi));
    assert(undivided(p, lo + 2, hi));
    assert(undivided(p, lo + 1, hi));
}

proof fn lemma_undivided_extend(p: int, mid: int)
    requires
        undivided(p, 2, mid),
        p % (mid + 0) != 0,
        p % (mid + 1) != 0,
        p % (mid + 2) != 0,
        p % (mid + 3) != 0,
        p % (mid + 4) != 0,
        p % (mid + 5) != 0,
        p % (mid + 6) != 0,
        p % (mid + 7) != 0,
        p % (mid + 8) != 0,
        p % (mid + 9) != 0,
        mid >= 2,
    ensures
        undivided(p, 2, mid + 10),
{
    lemma_undivided_ten(p, mid);
    lemma_undivided_join(p, 2, mid, mid + 10);
}

/// Trial division up to the square root.
proof fn lemma_trial(p: int, hi: int)
    requires
        p > 1,
        undivided(p, 2, hi),
        hi * hi > p,
        hi > 1,
    ensures
        field::is_prime(p),
{
    assert forall|d: int| 1 < d < p implies #[trigger] (p % d) != 0 by {
        if p % d == 0 {
            lemma_small_prime_factor(p, d);
            let q = choose|q: int| field::is_prime(q) && q * q <= p && #[trigger] (p % q) == 0;
            assert(q < hi) by (nonlinear_arith)
                requires
                    q * q <= p,
                    hi * hi > p,
                    q > 0,
                    hi > 0,
            ;
            lemma_undivided(p, 2, hi, q);
        }
    }
}

/// `a^e` is `x` modulo `p`.
#[verifier::opaque]
spec fn power_is(a: int, e: nat, x: int, p: int) -> bool {
    field::cong(pow(a, e), x, p)
}

proof fn lemma_first_power(a: int, p: int)
    ensures
        power_is(a, 1, a, p),
{
    reveal(power_is);
    lemma_pow1(a);
}

proof fn lemma_square(a: int, e: nat, x: int, y: int, p: int)
    requires
        p > 1,
        power_is(a, e, x, p),
        (x * x) % p == y,
    ensures
        power_is(a, 2 * e, y, p),
{
    reveal(power_is);
    lemma_pow_adds(a, e, e);
    field::lemma_cong_ops(pow(a, e), x, pow(a, e), x, p);
    field::lemma_cong_mod(x * x, p);
}

proof fn lemma_square_times(a: int, e: nat, x: int, y: int, p: int)
    requires
        p > 1,
        power_is(a, e, x, p),
        (((x * x) % p) * a) % p == y,
    ensures
        power_is(a, 2 * e + 1, y, p),
{
    reveal(power_is);
    let s = (x * x) % p;
    lemma_square(a, e, x, s, p);
    lemma_pow_adds(a, 2 * e, 1);
    lemma_pow1(a);
    field::lemma_cong_ops(pow(a, 2 * e), s, a, a, p);
    field::lemma_cong_mod(s * a, p);
}

proof fn lemma_power_two_divides(a: int, k: nat, e: nat, s: nat, q: int)
    requires
        field::is_prime(q),
        q != 2,
        s <= e,
        e >= 1,
        field::cong(pow(a, k * pow(2, (e - 1) as nat) as nat), -1, q),
    ensures
        (q - 1) % pow(2, s) == 0,
    decreases s,
{
    reveal(pow);
    if s == 0 {
        assert(pow(2, 0) == 1);
    } else {
        let t = (s - 1) as nat;
        lemma_power_two_divides(a, k, e, t, q);
        lemma_pow_positive(2, t);
        lemma_pow_positive(2, (e - 1) as nat);
        let w = pow(2, t);
        let m = (q - 1) / w;
        lemma_fundamental_div_mod(q - 1, w);
        assert(q - 1 == w * m);
        assert(m >= 0) by (nonlinear_arith)
            requires
                w * m >= 0,
                w > 0,
        ;
        assert(pow(2, s) == 2 * w);
        if m % 2 == 1 {
            let g = (k * pow(2, (e - 1) as nat)) as nat;
            assert(k * pow(2, (e - 1) as nat) >= 0) by (nonlinear_arith)
                requires
                    pow(2, (e - 1) as nat) > 0,
            ;
            let rest = pow(2, (e - 1 - t) as nat);
            lemma_pow_adds(2, t, (e - 1 - t) as nat);
            lemma_pow_positive(2, (e - 1 - t) as nat);
            // a^(g*m) is both (-1)^m and a power of a^(q-1)
            lemma_pow_multiplies(a, g, m as nat);
            lemma_pow_cong(pow(a, g), -1, m as nat, q);
            lemma_minus_one_odd(m as nat);
            let kr = (k * rest) as nat;
            assert(k * rest >= 0) by (nonlinear_arith)
                requires
                    rest > 0,
            ;
            assert(g * m == (q - 1) * kr) by (nonlinear_arith)
                requires
                    g == k * (w * rest),
                    q - 1 == w * m,
                    kr == k * rest,
            ;
            if a % q == 0 {
                field::lemma_small(0, q);
                lemma_pow_cong(a, 0, g, q);
                if g > 0 {
                    lemma0_pow(g);
                    field::lemma_cong_diff(0, -1, q);
                    field::lemma_small(1, q);
                } else {
                    assert(pow(a, 0) == 1);
                    field::lemma_cong_diff(1, -1, q);
                    field::lemma_small(2, q);
                }
                assert(false);
            }
            field::lemma_fermat(a, q);
            lemma_pow_multiplies(a, (q - 1) as nat, kr);
            lemma_pow_cong(pow(a, (q - 1) as nat), 1, kr, q);
            lemma1_pow(kr);
            field::lemma_cong_diff(1, -1, q);
            field::lemma_small(2, q);
            assert(false);
        }
        let h = m / 2;
        assert(w * m == (2 * w) * h) by (nonlinear_arith)
            requires
                m == 2 * h,
        ;
        field::lemma_cong_multiple(0, h, 2 * w);
    }
}

proof fn lemma_minus_one_odd(m: nat)
    requires
        m % 2 == 1,
    ensures
        pow(-1, m) == -1,
    decreases m,
{
    reveal(pow);
    if m == 1 {
        assert(pow(-1, 0) == 1);
    } else {
        lemma_minus_one_odd((m - 2) as nat);
        assert(pow(-1, m) == -1 * pow(-1, (m - 1) as nat));
        assert(pow(-1, (m - 1) as nat) == -1 * pow(-1, (m - 2) as nat));
    }
}

/// Proth: `p = k * 2^e + 1` with `k < 2^e` is prime once some `a` has
/// `a^((p-1)/2) = -1`.
proof fn lemma_proth(p: int, k: nat, e: nat, w: int, a: int)
    requires
        p > 2,
        e >= 1,
        w == pow(2, e),
        p == k * w + 1,
        k < w,
        power_is(a, ((p - 1) / 2) as nat, p - 1, p),
    ensures
        field::is_prime(p),
{
    reveal(power_is);
    field::lemma_cong_multiple(-1, 1, p);
    assert(p * 1 == p);
    assert(field::cong(pow(a, ((p - 1) / 2) as nat), -1, p));
    reveal(pow);
    let v = pow(2, (e - 1) as nat);
    assert(w == 2 * v);
    assert((p - 1) / 2 == k * v) by (nonlinear_arith)
        requires
            p - 1 == k * w,
            w == 2 * v,
    ;
    assert forall|d: int| 1 < d < p implies #[trigger] (p % d) != 0 by {
        if p % d == 0 {
            lemma_small_prime_factor(p, d);
            let q = choose|q: int| field::is_prime(q) && q * q <= p && #[trigger] (p % q) == 0;
            if q == 2 {
                let n = k * v;
                assert(p == 2 * n + 1) by (nonlinear_arith)
                    requires
                        p - 1 == k * w,
                        w == 2 * v,
                        n == k * v,
                ;
                assert(p % 2 == 1);
                assert(false);
            }
            lemma_cong_divisor(pow(a, ((p - 1) / 2) as nat), -1, p, q);
            lemma_power_two_divides(a, k, e, e, q);
            lemma_fundamental_div_mod(q - 1, w);
            let j = (q - 1) / w;
            assert(q >= w + 1) by (nonlinear_arith)
                requires
                    q - 1 == w * j,
                    q - 1 > 0,
                    w > 0,
            ;
            assert(false) by (nonlinear_arith)
                requires
                    q >= w + 1,
                    q * q <= p,
                    p == k * w + 1,
                    k < w,
                    w > 0,
            ;
        }
    }
}

/// No `r * j + 1` divides `p`, for `lo <= j < hi`.
spec fn unstepped(p: int, r: int, lo: int, hi: int) -> bool
    decreases hi - lo,
{
    lo >= hi || (p % (r * lo + 1) != 0 && unstepped(p, r, lo + 1, hi))
}

proof fn lemma_unstepped(p: int, r: int, lo: int, hi: int, j: int)
    requires
        unstepped(p, r, lo, hi),
        lo <= j < hi,
    ensures
        p % (r * j + 1) != 0,
    decreases hi - lo,
{
    if j > lo {
        lemma_unstepped(p, r, lo + 1, hi, j);
    }
}

proof fn lemma_unstepped_push(p: int, r: int, lo: int, hi: int)
    requires
        unstepped(p, r, lo, hi),
        p % (r * hi + 1) != 0,
        lo <= hi,
    ensures
        unstepped(p, r, lo, hi + 1),
    decreases hi - lo,
{
    if lo < hi {
        lemma_unstepped_push(p, r, lo + 1, hi);
    } else {
        assert(unstepped(p, r, lo + 1, hi + 1));
    }
}

proof fn lemma_unstepped_extend(p: int, r: int, j: int, d: int)
    requires
        j >= 1,
        unstepped(p, r, 1, j),
        d == r * j + 1,
        p % d != 0,
    ensures
        unstepped(p, r, 1, j + 1),
{
    lemma_unstepped_push(p, r, 1, j);
}

/// Pocklington with one large prime `r` dividing `p - 1`: `b` is a power of
/// some residue, `b^r = 1`, and `u` inverts `b - 1`.
proof fn lemma_pocklington(p: int, r: int, a: int, b: int, u: int)
    requires
        p > 1,
        field::is_prime(r),
        r * r > p,
        (p - 1) % r == 0,
        power_is(a, ((p - 1) / r) as nat, b, p),
        power_is(a, (p - 1) as nat, 1, p),
        field::cong((b - 1) * u, 1, p),
    ensures
        field::is_prime(p),
{
    assert(unstepped(p, r, 1, 1));
    assert(r * 1 == r);
    lemma_pocklington_steps(p, r, 1, a, b, u);
}

/// The same with a smaller prime: a prime factor of `p` is one more than a
/// multiple of `r`, and the small ones of these are tried.
proof fn lemma_pocklington_steps(p: int, r: int, steps: int, a: int, b: int, u: int)
    requires
        p > 1,
        field::is_prime(r),
        steps >= 1,
        (r * steps) * (r * steps) > p,
        unstepped(p, r, 1, steps),
        (p - 1) % r == 0,
        power_is(a, ((p - 1) / r) as nat, b, p),
        power_is(a, (p - 1) as nat, 1, p),
        field::cong((b - 1) * u, 1, p),
    ensures
        field::is_prime(p),
{
    reveal(power_is);
    let m = (p - 1) / r;
    lemma_fundamental_div_mod(p - 1, r);
    assert(m >= 0) by (nonlinear_arith)
        requires
            r * m >= 0,
            r > 0,
    ;
    lemma_pow_multiplies(a, m as nat, r as nat);
    lemma_mul_is_commutative(m, r);
    lemma_pow_cong(pow(a, m as nat), b, r as nat, p);
    assert(field::cong(pow(b, r as nat), 1, p));
    assert forall|d: int| 1 < d < p implies #[trigger] (p % d) != 0 by {
        if p % d == 0 {
            lemma_small_prime_factor(p, d);
            let q = choose|q: int| field::is_prime(q) && q * q <= p && #[trigger] (p % q) == 0;
            lemma_cong_divisor(pow(b, r as nat), 1, p, q);
            lemma_cong_divisor((b - 1) * u, 1, p, q);
            field::lemma_small(1, q);
            field::lemma_small(0, q);
            if b % q == 0 {
                lemma_pow_cong(b, 0, r as nat, q);
                lemma0_pow(r as nat);
                assert(false);
            }
            field::lemma_fermat(b, q);
            let m = (q - 1) % r;
            lemma_mod_bound(q - 1, r);
            if m != 0 {
                field::lemma_inverse_exists(m, r);
                let s0 = choose|s: int| #[trigger] field::cong(m * s, 1, r);
                let s = s0 % r;
                field::lemma_cong_mod(s0, r);
                field::lemma_cong_mod(q - 1, r);
                field::lemma_cong_ops(m, q - 1, s, s, r);
                field::lemma_cong_ops(m, m, s, s0, r);
                let z = (q - 1) * s;
                assert(field::cong(z, 1, r));
                assert(z >= 0) by (nonlinear_arith)
                    requires
                        z == (q - 1) * s,
                        q > 1,
                        s >= 0,
                ;
                field::lemma_small(1, r);
                lemma_fundamental_div_mod(z, r);
                let t = z / r;
                assert(z == r * t + 1);
                assert(t >= 0) by (nonlinear_arith)
                    requires
                        r * t + 1 >= 0,
                        r > 1,
                ;
                assert(r * t >= 0) by (nonlinear_arith)
                    requires
                        r > 0,
                        t >= 0,
                ;
                lemma_pow_multiplies(b, (q - 1) as nat, s as nat);
                lemma_pow_cong(pow(b, (q - 1) as nat), 1, s as nat, q);
                lemma1_pow(s as nat);
                lemma_pow_adds(b, (r * t) as nat, 1);
                lemma_pow1(b);
                lemma_pow_multiplies(b, r as nat, t as nat);
                lemma_pow_cong(pow(b, r as nat), 1, t as nat, q);
                lemma1_pow(t as nat);
                field::lemma_cong_ops(pow(b, (r * t) as nat), 1, b, b, q);
                assert(field::cong(b, 1, q));
                field::lemma_cong_ops(b, 1, 1, 1, q);
                field::lemma_cong_ops(b - 1, 0, u, u, q);
                assert(false);
            }
            lemma_fundamental_div_mod(q - 1, r);
            let j = (q - 1) / r;
            assert(j >= 1) by (nonlinear_arith)
                requires
                    q - 1 == r * j,
                    q > 1,
                    r > 0,
            ;
            if j < steps {
                lemma_unstepped(p, r, 1, steps, j);
                assert(false);
            }
            let w = r * steps;
            assert(q > w && w > 0) by (nonlinear_arith)
                requires
                    q - 1 == r * j,
                    w == r * steps,
                    j >= steps >= 1,
                    r > 0,
            ;
            assert(false) by (nonlinear_arith)
                requires
                    q > w,
                    q * q <= p,
                    w * w > p,
                    w > 0,
            ;
        }
    }
}

/// The commitment-ring modulus is prime.
pub proof fn lemma_cs_modulus_prime()
    ensures
        field::is_prime(139301),
{
    assert(undivided(139301, 2, 2));
    lemma_undivided_extend(139301, 2);
    lemma_undivided_extend(139301, 12);
    lemma_undivided_extend(139301, 22);
    lemma_undivided_extend(139301, 32);
    lemma_undivided_extend(139301, 42);
    lemma_undivided_extend(139301, 52);
    lemma_undivided_extend(139301, 62);
    lemma_undivided_extend(139301, 72);
    lemma_undivided_extend(139301, 82);
    lemma_undivided_extend(139301, 92);
    lemma_undivided_extend(139301, 102);
    lemma_undivided_extend(139301, 112);
    lemma_undivided_extend(139301, 122);
    lemma_undivided_extend(139301, 132);
    lemma_undivided_extend(139301, 142);
    lemma_undivided_extend(139301, 152);
    lemma_undivided_extend(139301, 162);
    lemma_undivided_extend(139301, 172);
    lemma_undivided_extend(139301, 182);
    lemma_undivided_extend(139301, 192);
    lemma_undivided_extend(139301, 202);
    lemma_undivided_extend(139301, 212);
    lemma_undivided_extend(139301, 222);
    lemma_undivided_extend(139301, 232);
    lemma_undivided_extend(139301, 242);
    lemma_undivided_extend(139301, 252);
    lemma_undivided_extend(139301, 262);
    lemma_undivided_extend(139301, 272);
    lemma_undivided_extend(139301, 282);
    lemma_undivided_extend(139301, 292);
    lemma_undivided_extend(139301, 302);
    lemma_undivided_extend(139301, 312);
    lemma_undivided_extend(139301, 322);
    lemma_undivided_extend(139301, 332);
    lemma_undivided_extend(139301, 342);
    lemma_undivided_extend(139301, 352);
    lemma_undivided_extend(139301, 362);
    lemma_undivided_extend(139301, 372);
    lemma_trial(139301, 382);
}

/// The first Reed-Solomon channel modulus is prime.
pub proof fn lemma_rs_modulus0_prime()
    ensures
        field::is_prime(16760833),
{
    lemma_first_power(5, 16760833);
    lemma_square_times(5, 1, 5, 125, 16760833);
    lemma_square_times(5, 3, 125, 78125, 16760833);
    lemma_square_times(5, 7, 78125, 12862065, 16760833);
    lemma_square_times(5, 15, 12862065, 12633119, 16760833);
    lemma_square_times(5, 31, 12633119, 12809043, 16760833);
    lemma_square_times(5, 63, 12809043, 14387557, 16760833);
    lemma_square_times(5, 127, 14387557, 6342626, 16760833);
    lemma_square_times(5, 255, 6342626, 11998002, 16760833);
    lemma_square_times(5, 511, 11998002, 9571016, 16760833);
    lemma_square(5, 1023, 9571016, 9049883, 16760833);
    lemma_square(5, 2046, 9049883, 13290827, 16760833);
    lemma_square(5, 4092, 13290827, 9495335, 16760833);
    lemma_square(5, 8184, 9495335, 5413655, 16760833);
    lemma_square(5, 16368, 5413655, 3091885, 16760833);
    lemma_square(5, 32736, 3091885, 10621679, 16760833);
    lemma_square(5, 65472, 10621679, 14992765, 16760833);
    lemma_square(5, 130944, 14992765, 1489794, 16760833);
    lemma_square(5, 261888, 1489794, 16656576, 16760833);
    lemma_square(5, 523776, 16656576, 8502265, 16760833);
    lemma_square(5, 1047552, 8502265, 9529539, 16760833);
    lemma_square(5, 2095104, 9529539, 9623559, 16760833);
    lemma_square(5, 4190208, 9623559, 16760832, 16760833);
    assert(pow(2, 14) == 16384) by {
        reveal(pow);
        assert(pow(2, 0) == 1);
        assert(pow(2, 1) == 2);
        assert(pow(2, 2) == 4);
        assert(pow(2, 3) == 8);
        assert(pow(2, 4) == 16);
        assert(pow(2, 5) == 32);
        assert(pow(2, 6) == 64);
        assert(pow(2, 7) == 128);
        assert(pow(2, 8) == 256);
        assert(pow(2, 9) == 512);
        assert(pow(2, 10) == 1024);
        assert(pow(2, 11) == 2048);
        assert(pow(2, 12) == 4096);
        assert(pow(2, 13) == 8192);
        assert(pow(2, 14) == 16384);
    }
    lemma_proth(16760833, 1023, 14, 16384, 5);
}

/// The second Reed-Solomon channel modulus is prime.
pub proof fn lemma_rs_modulus1_prime()
    ensures
        field::is_prime(16736257),
{
    lemma_first_power(5, 16736257);
    lemma_square_times(5, 1, 5, 125, 16736257);
    lemma_square_times(5, 3, 125, 78125, 16736257);
    lemma_square_times(5, 7, 78125, 7381614, 16736257);
    lemma_square_times(5, 15, 7381614, 122994, 16736257);
    lemma_square_times(5, 31, 122994, 6474797, 16736257);
    lemma_square_times(5, 63, 6474797, 6325074, 16736257);
    lemma_square_times(5, 127, 6325074, 7479189, 16736257);
    lemma_square(5, 255, 7479189, 6876341, 16736257);
    lemma_square_times(5, 510, 6876341, 11602753, 16736257);
    lemma_square_times(5, 1021, 11602753, 16272935, 16736257);
    lemma_square(5, 2043, 16272935, 8043402, 16736257);
    lemma_square(5, 4086, 8043402, 4696638, 16736257);
    lemma_square(5, 8172, 4696638, 5040787, 16736257);
    lemma_square(5, 16344, 5040787, 12641745, 16736257);
    lemma_square(5, 32688, 12641745, 1892361, 16736257);
    lemma_square(5, 65376, 1892361, 6716545, 16736257);
    lemma_square(5, 130752, 6716545, 15235034, 16736257);
    lemma_square(5, 261504, 15235034, 16336880, 16736257);
    lemma_square(5, 523008, 16336880, 5458919, 16736257);
    lemma_square(5, 1046016, 5458919, 4038440, 16736257);
    lemma_square(5, 2092032, 4038440, 538553, 16736257);
    lemma_square(5, 4184064, 538553, 16736256, 16736257);
    assert(pow(2, 13) == 8192) by {
        reveal(pow);
        assert(pow(2, 0) == 1);
        assert(pow(2, 1) == 2);
        assert(pow(2, 2) == 4);
        assert(pow(2, 3) == 8);
        assert(pow(2, 4) == 16);
        assert(pow(2, 5) == 32);
        assert(pow(2, 6) == 64);
        assert(pow(2, 7) == 128);
        assert(pow(2, 8) == 256);
        assert(pow(2, 9) == 512);
        assert(pow(2, 10) == 1024);
        assert(pow(2, 11) == 2048);
        assert(pow(2, 12) == 4096);
        assert(pow(2, 13) == 8192);
    }
    lemma_proth(16736257, 2043, 13, 8192, 5);
}

/// The default sketch modulus is prime.
pub proof fn lemma_prony_prime()
    ensures
        field::is_prime(68718428161),
{
    lemma_first_power(7, 68718428161);
    lemma_square_times(7, 1, 7, 343, 68718428161);
    lemma_square_times(7, 3, 343, 823543, 68718428161);
    lemma_square_times(7, 7, 823543, 5989966834, 68718428161);
    lemma_square_times(7, 15, 5989966834, 1034770621, 68718428161);
    lemma_square_times(7, 31, 1034770621, 11788030596, 68718428161);
    lemma_square_times(7, 63, 11788030596, 28442945362, 68718428161);
    lemma_square_times(7, 127, 28442945362, 4738518259, 68718428161);
    lemma_square_times(7, 255, 4738518259, 35246925915, 68718428161);
    lemma_square_times(7, 511, 35246925915, 56120949253, 68718428161);
    lemma_square_times(7, 1023, 56120949253, 36639411599, 68718428161);
    lemma_square_times(7, 2047, 36639411599, 21684814971, 68718428161);
    lemma_square_times(7, 4095, 21684814971, 51866977037, 68718428161);
    lemma_square_times(7, 8191, 51866977037, 58549863718, 68718428161);
    lemma_square_times(7, 16383, 58549863718, 28360532814, 68718428161);
    lemma_square_times(7, 32767, 28360532814, 10371119938, 68718428161);
    lemma_square(7, 65535, 10371119938, 19080280645, 68718428161);
    lemma_square(7, 131070, 19080280645, 47054237712, 68718428161);
    lemma_square(7, 262140, 47054237712, 50499502518, 68718428161);
    lemma_square(7, 524280, 50499502518, 2502897814, 68718428161);
    lemma_square(7, 1048560, 2502897814, 7600968449, 68718428161);
    lemma_square(7, 2097120, 7600968449, 24816083765, 68718428161);
    lemma_square(7, 4194240, 24816083765, 22370218154, 68718428161);
    lemma_square(7, 8388480, 22370218154, 48945329300, 68718428161);
    lemma_square(7, 16776960, 48945329300, 43119164588, 68718428161);
    lemma_square(7, 33553920, 43119164588, 64898701846, 68718428161);
    lemma_square(7, 67107840, 64898701846, 16324462084, 68718428161);
    lemma_square(7, 134215680, 16324462084, 35000093791, 68718428161);
    lemma_square(7, 268431360, 35000093791, 39517211498, 68718428161);
    lemma_square(7, 536862720, 39517211498, 28900911566, 68718428161);
    lemma_square(7, 1073725440, 28900911566, 282868319, 68718428161);
    lemma_square(7, 2147450880, 282868319, 53793352420, 68718428161);
    lemma_square(7, 4294901760, 53793352420, 40649610307, 68718428161);
    lemma_square(7, 8589803520, 40649610307, 68548229351, 68718428161);
    lemma_square(7, 17179607040, 68548229351, 68718428160, 68718428161);
    assert(pow(2, 20) == 1048576) by {
        reveal(pow);
        assert(pow(2, 0) == 1);
        assert(pow(2, 1) == 2);
        assert(pow(2, 2) == 4);
        assert(pow(2, 3) == 8);
        assert(pow(2, 4) == 16);
        assert(pow(2, 5) == 32);
        assert(pow(2, 6) == 64);
        assert(pow(2, 7) == 128);
        assert(pow(2, 8) == 256);
        assert(pow(2, 9) == 512);
        assert(pow(2, 10) == 1024);
        assert(pow(2, 11) == 2048);
        assert(pow(2, 12) == 4096);
        assert(pow(2, 13) == 8192);
        assert(pow(2, 14) == 16384);
        assert(pow(2, 15) == 32768);
        assert(pow(2, 16) == 65536);
        assert(pow(2, 17) == 131072);
        assert(pow(2, 18) == 262144);
        assert(pow(2, 19) == 524288);
        assert(pow(2, 20) == 1048576);
    }
    lemma_proth(68718428161, 65535, 20, 1048576, 7);
}

/// Bottom of the certificate of the digest-ring modulus.
proof fn lemma_dgt_chain0()
    ensures
        field::is_prime(666031),
{
    assert(undivided(666031, 2, 2));
    lemma_undivided_extend(666031, 2);
    lemma_undivided_extend(666031, 12);
    lemma_undivided_extend(666031, 22);
    lemma_undivided_extend(666031, 32);
    lemma_undivided_extend(666031, 42);
    lemma_undivided_extend(666031, 52);
    lemma_undivided_extend(666031, 62);
    lemma_undivided_extend(666031, 72);
    lemma_undivided_extend(666031, 82);
    lemma_undivided_extend(666031, 92);
    lemma_undivided_extend(666031, 102);
    lemma_undivided_extend(666031, 112);
    lemma_undivided_extend(666031, 122);
    lemma_undivided_extend(666031, 132);
    lemma_undivided_extend(666031, 142);
    lemma_undivided_extend(666031, 152);
    lemma_undivided_extend(666031, 162);
    lemma_undivided_extend(666031, 172);
    lemma_undivided_extend(666031, 182);
    lemma_undivided_extend(666031, 192);
    lemma_undivided_extend(666031, 202);
    lemma_undivided_extend(666031, 212);
    lemma_undivided_extend(666031, 222);
    lemma_undivided_extend(666031, 232);
    lemma_undivided_extend(666031, 242);
    lemma_undivided_extend(666031, 252);
    lemma_undivided_extend(666031, 262);
    lemma_undivided_extend(666031, 272);
    lemma_undivided_extend(666031, 282);
    lemma_undivided_extend(666031, 292);
    lemma_undivided_extend(666031, 302);
    lemma_undivided_extend(666031, 312);
    lemma_undivided_extend(666031, 322);
    lemma_undivided_extend(666031, 332);
    lemma_undivided_extend(666031, 342);
    lemma_undivided_extend(666031, 352);
    lemma_undivided_extend(666031, 362);
    lemma_undivided_extend(666031, 372);
    lemma_undivided_extend(666031, 382);
    lemma_undivided_extend(666031, 392);
    lemma_undivided_extend(666031, 402);
    lemma_undivided_extend(666031, 412);
    lemma_undivided_extend(666031, 422);
    lemma_undivided_extend(666031, 432);
    lemma_undivided_extend(666031, 442);
    lemma_undivided_extend(666031, 452);
    lemma_undivided_extend(666031, 462);
    lemma_undivided_extend(666031, 472);
    lemma_undivided_extend(666031, 482);
    lemma_undivided_extend(666031, 492);
    lemma_undivided_extend(666031, 502);
    lemma_undivided_extend(666031, 512);
    lemma_undivided_extend(666031, 522);
    lemma_undivided_extend(666031, 532);
    lemma_undivided_extend(666031, 542);
    lemma_undivided_extend(666031, 552);
    lemma_undivided_extend(666031, 562);
    lemma_undivided_extend(666031, 572);
    lemma_undivided_extend(666031, 582);
    lemma_undivided_extend(666031, 592);
    lemma_undivided_extend(666031, 602);
    lemma_undivided_extend(666031, 612);
    lemma_undivided_extend(666031, 622);
    lemma_undivided_extend(666031, 632);
    lemma_undivided_extend(666031, 642);
    lemma_undivided_extend(666031, 652);
    lemma_undivided_extend(666031, 662);
    lemma_undivided_extend(666031, 672);
    lemma_undivided_extend(666031, 682);
    lemma_undivided_extend(666031, 692);
    lemma_undivided_extend(666031, 702);
    lemma_undivided_extend(666031, 712);
    lemma_undivided_extend(666031, 722);
    lemma_undivided_extend(666031, 732);
    lemma_undivided_extend(666031, 742);
    lemma_undivided_extend(666031, 752);
    lemma_undivided_extend(666031, 762);
    lemma_undivided_extend(666031, 772);
    lemma_undivided_extend(666031, 782);
    lemma_undivided_extend(666031, 792);
    lemma_undivided_extend(666031, 802);
    lemma_undivided_extend(666031, 812);
    lemma_trial(666031, 822);
}

/// Second link of the certificate.
proof fn lemma_dgt_chain1()
    ensures
        field::is_prime(7992373),
{
    lemma_dgt_chain0();
    lemma_first_power(2, 7992373);
    lemma_square_times(2, 1, 2, 8, 7992373);
    lemma_square(2, 3, 8, 64, 7992373);
    lemma_square(2, 6, 64, 4096, 7992373);
    lemma_square_times(2, 3, 8, 128, 7992373);
    lemma_square_times(2, 7, 128, 32768, 7992373);
    lemma_square(2, 15, 32768, 2763842, 7992373);
    lemma_square(2, 30, 2763842, 212992, 7992373);
    lemma_square_times(2, 60, 212992, 1765832, 7992373);
    lemma_square_times(2, 121, 1765832, 4530516, 7992373);
    lemma_square_times(2, 243, 4530516, 4936342, 7992373);
    lemma_square_times(2, 487, 4936342, 3694915, 7992373);
    lemma_square_times(2, 975, 3694915, 2261662, 7992373);
    lemma_square(2, 1951, 2261662, 4274617, 7992373);
    lemma_square_times(2, 3902, 4274617, 7039020, 7992373);
    lemma_square(2, 7805, 7039020, 5269795, 7992373);
    lemma_square(2, 15610, 5269795, 535710, 7992373);
    lemma_square(2, 31220, 535710, 3066789, 7992373);
    lemma_square(2, 62440, 3066789, 2002938, 7992373);
    lemma_square_times(2, 124880, 2002938, 1986107, 7992373);
    lemma_square_times(2, 249761, 1986107, 2612090, 7992373);
    lemma_square(2, 499523, 2612090, 5261730, 7992373);
    lemma_square_times(2, 999046, 5261730, 5461285, 7992373);
    lemma_square(2, 1998093, 5461285, 7992372, 7992373);
    lemma_square(2, 3996186, 7992372, 1, 7992373);
    assert(field::cong(4095int * 7715226int, 1, 7992373));
    lemma_pocklington(7992373, 666031, 2, 4096, 7715226);
}

/// Third link of the certificate.
proof fn lemma_dgt_chain2()
    ensures
        field::is_prime(8278675785607),
{
    lemma_dgt_chain1();
    lemma_first_power(2, 8278675785607);
    lemma_square_times(2, 1, 2, 8, 8278675785607);
    lemma_square_times(2, 3, 8, 128, 8278675785607);
    lemma_square_times(2, 7, 128, 32768, 8278675785607);
    lemma_square_times(2, 15, 32768, 2147483648, 8278675785607);
    lemma_square_times(2, 31, 2147483648, 589824, 8278675785607);
    lemma_square(2, 63, 589824, 347892350976, 8278675785607);
    lemma_square(2, 126, 347892350976, 7739670528, 8278675785607);
    lemma_square_times(2, 252, 7739670528, 2395083541749, 8278675785607);
    lemma_square_times(2, 505, 2395083541749, 2639317464710, 8278675785607);
    lemma_square_times(2, 1011, 2639317464710, 7757203584651, 8278675785607);
    lemma_square(2, 2023, 7757203584651, 2393550088827, 8278675785607);
    lemma_square(2, 4046, 2393550088827, 3546798594458, 8278675785607);
    lemma_square(2, 8092, 3546798594458, 7227319796581, 8278675785607);
    lemma_square_times(2, 16184, 7227319796581, 2818195321851, 8278675785607);
    lemma_square(2, 32369, 2818195321851, 7126114335318, 8278675785607);
    lemma_square_times(2, 64738, 7126114335318, 7266577678897, 8278675785607);
    lemma_square_times(2, 129477, 7266577678897, 1925083986676, 8278675785607);
    lemma_square_times(2, 258955, 1925083986676, 7278249062140, 8278675785607);
    lemma_square(2, 517911, 7278249062140, 7645108074855, 8278675785607);
    lemma_square(2, 15, 32768, 1073741824, 8278675785607);
    lemma_square(2, 30, 1073741824, 73728, 8278675785607);
    lemma_square(2, 60, 73728, 5435817984, 8278675785607);
    lemma_square(2, 120, 5435817984, 1889568, 8278675785607);
    lemma_square_times(2, 240, 1889568, 7140934453248, 8278675785607);
    lemma_square_times(2, 481, 7140934453248, 7505451668579, 8278675785607);
    lemma_square_times(2, 963, 7505451668579, 2860154986997, 8278675785607);
    lemma_square_times(2, 1927, 2860154986997, 1783443466277, 8278675785607);
    lemma_square(2, 3855, 1783443466277, 4771109005612, 8278675785607);
    lemma_square(2, 7710, 4771109005612, 3010389958923, 8278675785607);
    lemma_square(2, 15420, 3010389958923, 7714354698775, 8278675785607);
    lemma_square(2, 30840, 7714354698775, 6528502060162, 8278675785607);
    lemma_square_times(2, 61680, 6528502060162, 3518216156333, 8278675785607);
    lemma_square_times(2, 123361, 3518216156333, 3421245351638, 8278675785607);
    lemma_square_times(2, 246723, 3421245351638, 7356663195348, 8278675785607);
    lemma_square_times(2, 493447, 7356663195348, 5618391178627, 8278675785607);
    lemma_square(2, 986895, 5618391178627, 5776096947650, 8278675785607);
    lemma_square(2, 1973790, 5776096947650, 1284046407878, 8278675785607);
    lemma_square(2, 3947580, 1284046407878, 6789582251142, 8278675785607);
    lemma_square(2, 7895160, 6789582251142, 7318990162512, 8278675785607);
    lemma_square_times(2, 15790320, 7318990162512, 4045634140702, 8278675785607);
    lemma_square_times(2, 31580641, 4045634140702, 1304579021716, 8278675785607);
    lemma_square_times(2, 63161283, 1304579021716, 4041324841738, 8278675785607);
    lemma_square_times(2, 126322567, 4041324841738, 5415798646076, 8278675785607);
    lemma_square(2, 252645135, 5415798646076, 2550767133414, 8278675785607);
    lemma_square(2, 505290270, 2550767133414, 7347696352618, 8278675785607);
    lemma_square(2, 1010580540, 7347696352618, 717326819291, 8278675785607);
    lemma_square(2, 2021161080, 717326819291, 7324100974078, 8278675785607);
    lemma_square_times(2, 4042322160, 7324100974078, 6748065374194, 8278675785607);
    lemma_square_times(2, 8084644321, 6748065374194, 2646893730957, 8278675785607);
    lemma_square_times(2, 16169288643, 2646893730957, 6461458265357, 8278675785607);
    lemma_square_times(2, 32338577287, 6461458265357, 3588339142293, 8278675785607);
    lemma_square(2, 64677154575, 3588339142293, 3024843470783, 8278675785607);
    lemma_square(2, 129354309150, 3024843470783, 1585009514105, 8278675785607);
    lemma_square(2, 258708618300, 1585009514105, 5121198222162, 8278675785607);
    lemma_square(2, 517417236600, 5121198222162, 3312164540557, 8278675785607);
    lemma_square_times(2, 1034834473200, 3312164540557, 5519114394202, 8278675785607);
    lemma_square_times(2, 2069668946401, 5519114394202, 1, 8278675785607);
    lemma_square(2, 4139337892803, 1, 1, 8278675785607);
    assert(field::cong(7645108074854int * 4658921228249int, 1, 8278675785607));
    lemma_pocklington(8278675785607, 7992373, 2, 7645108074855, 4658921228249);
}

/// Fourth link of the certificate.
proof fn lemma_dgt_chain3()
    ensures
        field::is_prime(33114703142429),
{
    lemma_dgt_chain2();
    lemma_first_power(2, 33114703142429);
    lemma_square(2, 1, 2, 4, 33114703142429);
    lemma_square(2, 2, 4, 16, 33114703142429);
    lemma_square_times(2, 1, 2, 8, 33114703142429);
    lemma_square_times(2, 3, 8, 128, 33114703142429);
    lemma_square_times(2, 7, 128, 32768, 33114703142429);
    lemma_square(2, 15, 32768, 1073741824, 33114703142429);
    lemma_square(2, 30, 1073741824, 38912, 33114703142429);
    lemma_square(2, 60, 38912, 1514143744, 33114703142429);
    lemma_square(2, 120, 1514143744, 1034834550579, 33114703142429);
    lemma_square_times(2, 240, 1034834550579, 10554350934519, 33114703142429);
    lemma_square_times(2, 481, 10554350934519, 6510714206466, 33114703142429);
    lemma_square_times(2, 963, 6510714206466, 19484965578956, 33114703142429);
    lemma_square_times(2, 1927, 19484965578956, 2348770799072, 33114703142429);
    lemma_square(2, 3855, 2348770799072, 7420105170758, 33114703142429);
    lemma_square(2, 7710, 7420105170758, 5215090857595, 33114703142429);
    lemma_square(2, 15420, 5215090857595, 24922984942400, 33114703142429);
    lemma_square(2, 30840, 24922984942400, 19113729085856, 33114703142429);
    lemma_square_times(2, 61680, 19113729085856, 14497353069631, 33114703142429);
    lemma_square_times(2, 123361, 14497353069631, 21638280387220, 33114703142429);
    lemma_square_times(2, 246723, 21638280387220, 8673914339708, 33114703142429);
    lemma_square_times(2, 493447, 8673914339708, 16986311864797, 33114703142429);
    lemma_square(2, 986895, 16986311864797, 26237593577169, 33114703142429);
    lemma_square(2, 1973790, 26237593577169, 20103184905326, 33114703142429);
    lemma_square(2, 3947580, 20103184905326, 4010285786478, 33114703142429);
    lemma_square(2, 7895160, 4010285786478, 16004756335161, 33114703142429);
    lemma_square_times(2, 15790320, 16004756335161, 17186197509088, 33114703142429);
    lemma_square_times(2, 31580641, 17186197509088, 9850719050223, 33114703142429);
    lemma_square_times(2, 63161283, 9850719050223, 27143429520924, 33114703142429);
    lemma_square_times(2, 126322567, 27143429520924, 4748199895200, 33114703142429);
    lemma_square(2, 252645135, 4748199895200, 6665611118257, 33114703142429);
    lemma_square(2, 505290270, 6665611118257, 27141150741038, 33114703142429);
    lemma_square(2, 1010580540, 27141150741038, 32834962869384, 33114703142429);
    lemma_square(2, 2021161080, 32834962869384, 21495408317506, 33114703142429);
    lemma_square_times(2, 4042322160, 21495408317506, 26029786194518, 33114703142429);
    lemma_square_times(2, 8084644321, 26029786194518, 11554332407315, 33114703142429);
    lemma_square_times(2, 16169288643, 11554332407315, 664799490878, 33114703142429);
    lemma_square_times(2, 32338577287, 664799490878, 2138402406251, 33114703142429);
    lemma_square(2, 64677154575, 2138402406251, 18152033311569, 33114703142429);
    lemma_square(2, 129354309150, 18152033311569, 578093179749, 33114703142429);
    lemma_square(2, 258708618300, 578093179749, 14415228230783, 33114703142429);
    lemma_square(2, 517417236600, 14415228230783, 15149219842861, 33114703142429);
    lemma_square_times(2, 1034834473200, 15149219842861, 10716713963433, 33114703142429);
    lemma_square_times(2, 2069668946401, 10716713963433, 31773235124500, 33114703142429);
    lemma_square_times(2, 4139337892803, 31773235124500, 30431767106570, 33114703142429);
    lemma_square(2, 8278675785607, 30431767106570, 33114703142428, 33114703142429);
    lemma_square(2, 16557351571214, 33114703142428, 1, 33114703142429);
    assert(field::cong(15int * 2207646876162int, 1, 33114703142429));
    lemma_pocklington(33114703142429, 8278675785607, 2, 16, 2207646876162);
}

/// The digest-ring modulus is prime.
pub proof fn lemma_dgt_modulus_prime()
    ensures
        field::is_prime(2305843009213616129),
{
    lemma_dgt_chain3();
    lemma_first_power(2, 2305843009213616129);
    lemma_square(2, 1, 2, 4, 2305843009213616129);
    lemma_square(2, 2, 4, 16, 2305843009213616129);
    lemma_square(2, 4, 16, 256, 2305843009213616129);
    lemma_square_times(2, 8, 256, 131072, 2305843009213616129);
    lemma_square(2, 17, 131072, 17179869184, 2305843009213616129);
    lemma_square(2, 34, 17179869184, 9961344, 2305843009213616129);
    lemma_square(2, 68, 9961344, 99228374286336, 2305843009213616129);
    lemma_square(2, 136, 99228374286336, 531673508445264220, 2305843009213616129);
    lemma_square(2, 272, 531673508445264220, 1967693740538278448, 2305843009213616129);
    lemma_square(2, 544, 1967693740538278448, 1750652565050270991, 2305843009213616129);
    lemma_square(2, 1088, 1750652565050270991, 795099785407887056, 2305843009213616129);
    lemma_square(2, 2176, 795099785407887056, 283896731960744232, 2305843009213616129);
    lemma_square(2, 4352, 283896731960744232, 1613939092955180438, 2305843009213616129);
    lemma_square(2, 8704, 1613939092955180438, 2131019346945897833, 2305843009213616129);
    lemma_square(2, 17408, 2131019346945897833, 610803876683466595, 2305843009213616129);
    lemma_square(2, 34816, 610803876683466595, 504250891772331581, 2305843009213616129);
    lemma_square_times(2, 1, 2, 8, 2305843009213616129);
    lemma_square_times(2, 3, 8, 128, 2305843009213616129);
    lemma_square_times(2, 7, 128, 32768, 2305843009213616129);
    lemma_square_times(2, 15, 32768, 2147483648, 2305843009213616129);
    lemma_square_times(2, 31, 2147483648, 311292, 2305843009213616129);
    lemma_square_times(2, 63, 311292, 193805418528, 2305843009213616129);
    lemma_square_times(2, 127, 193805418528, 1326947465305123006, 2305843009213616129);
    lemma_square_times(2, 255, 1326947465305123006, 1030687547340540834, 2305843009213616129);
    lemma_square_times(2, 511, 1030687547340540834, 771699044060779250, 2305843009213616129);
    lemma_square_times(2, 1023, 771699044060779250, 1973703218395213953, 2305843009213616129);
    lemma_square_times(2, 2047, 1973703218395213953, 1744491924396039193, 2305843009213616129);
    lemma_square_times(2, 4095, 1744491924396039193, 265949337908343878, 2305843009213616129);
    lemma_square_times(2, 8191, 265949337908343878, 1972083758005327804, 2305843009213616129);
    lemma_square_times(2, 16383, 1972083758005327804, 217660344303615172, 2305843009213616129);
    lemma_square_times(2, 32767, 217660344303615172, 1176897454806671789, 2305843009213616129);
    lemma_square_times(2, 65535, 1176897454806671789, 904602370079105667, 2305843009213616129);
    lemma_square_times(2, 131071, 904602370079105667, 1568356171225342278, 2305843009213616129);
    lemma_square_times(2, 262143, 1568356171225342278, 1131473857409853833, 2305843009213616129);
    lemma_square_times(2, 524287, 1131473857409853833, 1285586472331070211, 2305843009213616129);
    lemma_square_times(2, 1048575, 1285586472331070211, 1010301255775103402, 2305843009213616129);
    lemma_square_times(2, 2097151, 1010301255775103402, 2204401338019793990, 2305843009213616129);
    lemma_square_times(2, 4194303, 2204401338019793990, 1482650145545945098, 2305843009213616129);
    lemma_square_times(2, 8388607, 1482650145545945098, 1370258319484790094, 2305843009213616129);
    lemma_square_times(2, 16777215, 1370258319484790094, 2060140540454663822, 2305843009213616129);
    lemma_square_times(2, 33554431, 2060140540454663822, 2014441341031064201, 2305843009213616129);
    lemma_square_times(2, 67108863, 2014441341031064201, 2027677435417461457, 2305843009213616129);
    lemma_square_times(2, 134217727, 2027677435417461457, 899253608343612483, 2305843009213616129);
    lemma_square_times(2, 268435455, 899253608343612483, 2268543523040477829, 2305843009213616129);
    lemma_square_times(2, 536870911, 2268543523040477829, 1315387709964454595, 2305843009213616129);
    lemma_square_times(2, 1073741823, 1315387709964454595, 508847772153781009, 2305843009213616129);
    lemma_square_times(2, 2147483647, 508847772153781009, 434910297420628945, 2305843009213616129);
    lemma_square_times(2, 4294967295, 434910297420628945, 1015402294454618203, 2305843009213616129);
    lemma_square_times(2, 8589934591, 1015402294454618203, 1186057753059633159, 2305843009213616129);
    lemma_square_times(2, 17179869183, 1186057753059633159, 115382059581847561, 2305843009213616129);
    lemma_square_times(2, 34359738367, 115382059581847561, 1554608476159857126, 2305843009213616129);
    lemma_square_times(2, 68719476735, 1554608476159857126, 621876274856458997, 2305843009213616129);
    lemma_square_times(2, 137438953471, 621876274856458997, 570840846792950993, 2305843009213616129);
    lemma_square_times(2, 274877906943, 570840846792950993, 287823983958537958, 2305843009213616129);
    lemma_square_times(2, 549755813887, 287823983958537958, 799893969349343305, 2305843009213616129);
    lemma_square_times(2, 1099511627775, 799893969349343305, 1426525657274430455, 2305843009213616129);
    lemma_square_times(2, 2199023255551, 1426525657274430455, 119851610838787347, 2305843009213616129);
    lemma_square_times(2, 4398046511103, 119851610838787347, 771208909358038265, 2305843009213616129);
    lemma_square_times(2, 8796093022207, 771208909358038265, 617560384577287612, 2305843009213616129);
    lemma_square(2, 17592186044415, 617560384577287612, 423648309139186928, 2305843009213616129);
    lemma_square_times(2, 35184372088830, 423648309139186928, 2128832764207076183, 2305843009213616129);
    lemma_square_times(2, 70368744177661, 2128832764207076183, 439631560099740739, 2305843009213616129);
    lemma_square(2, 140737488355323, 439631560099740739, 1086543192187681960, 2305843009213616129);
    lemma_square_times(2, 281474976710646, 1086543192187681960, 1571140796121085937, 2305843009213616129);
    lemma_square(2, 562949953421293, 1571140796121085937, 2126264570666001109, 2305843009213616129);
    lemma_square(2, 1125899906842586, 2126264570666001109, 1046767090383851305, 2305843009213616129);
    lemma_square(2, 2251799813685172, 1046767090383851305, 138154712457943594, 2305843009213616129);
    lemma_square(2, 4503599627370344, 138154712457943594, 2209129274771086893, 2305843009213616129);
    lemma_square(2, 9007199254740688, 2209129274771086893, 1361061694385074732, 2305843009213616129);
    lemma_square(2, 18014398509481376, 1361061694385074732, 1974630423604229403, 2305843009213616129);
    lemma_square(2, 36028797018962752, 1974630423604229403, 1098468617038782318, 2305843009213616129);
    lemma_square(2, 72057594037925504, 1098468617038782318, 226244173015276041, 2305843009213616129);
    lemma_square(2, 144115188075851008, 226244173015276041, 674434152445352566, 2305843009213616129);
    lemma_square(2, 288230376151702016, 674434152445352566, 2305843009213616128, 2305843009213616129);
    lemma_square(2, 576460752303404032, 2305843009213616128, 1, 2305843009213616129);
    lemma_square(2, 1152921504606808064, 1, 1, 2305843009213616129);
    assert(field::cong(504250891772331580int * 174419926579932529int, 1, 2305843009213616129));
    lemma_pocklington(2305843009213616129, 33114703142429, 2, 504250891772331581, 174419926579932529);
}

/// The modulus of the vector commitments is prime.
pub proof fn lemma_hvc_modulus_prime()
    ensures
        field::is_prime(40961),
{
    assert(undivided(40961, 2, 2));
    lemma_undivided_extend(40961, 2);
    lemma_undivided_extend(40961, 12);
    lemma_undivided_extend(40961, 22);
    lemma_undivided_extend(40961, 32);
    lemma_undivided_extend(40961, 42);
    lemma_undivided_extend(40961, 52);
    lemma_undivided_extend(40961, 62);
    lemma_undivided_extend(40961, 72);
    lemma_undivided_extend(40961, 82);
    lemma_undivided_extend(40961, 92);
    lemma_undivided_extend(40961, 102);
    lemma_undivided_extend(40961, 112);
    lemma_undivided_extend(40961, 122);
    lemma_undivided_extend(40961, 132);
    lemma_undivided_extend(40961, 142);
    lemma_undivided_extend(40961, 152);
    lemma_undivided_extend(40961, 162);
    lemma_undivided_extend(40961, 172);
    lemma_undivided_extend(40961, 182);
    lemma_undivided_extend(40961, 192);
    lemma_undivided_extend(40961, 202);
    lemma_trial(40961, 212);
}

/// A root of `X^2048 + 1` modulo the modulus of the vector commitments.
pub proof fn lemma_hvc_root()
    ensures
        field::cong(pow(18088, 2048), -1, 40961),
{
    lemma_first_power(18088, 40961);
    lemma_square(18088, 1, 18088, 20237, 40961);
    lemma_square(18088, 2, 20237, 8091, 40961);
    lemma_square(18088, 4, 8091, 8603, 40961);
    lemma_square(18088, 8, 8603, 36043, 40961);
    lemma_square(18088, 16, 36043, 19734, 40961);
    lemma_square(18088, 32, 19734, 14529, 40961);
    lemma_square(18088, 64, 14529, 19808, 40961);
    lemma_square(18088, 128, 19808, 32406, 40961);
    lemma_square(18088, 256, 32406, 31679, 40961);
    lemma_square(18088, 512, 31679, 14541, 40961);
    lemma_square(18088, 1024, 14541, 40960, 40961);
    reveal(power_is);
}

/// A root of `X^2048 + 1` modulo the modulus of the embedding.
pub proof fn lemma_dgt_root()
    ensures
        field::cong(pow(336264465743942051, 2048), -1, 2305843009213616129),
{
    lemma_first_power(336264465743942051, 2305843009213616129);
    lemma_square(336264465743942051, 1, 336264465743942051, 755233914061268820, 2305843009213616129);
    lemma_square(336264465743942051, 2, 755233914061268820, 628550904335182525, 2305843009213616129);
    lemma_square(336264465743942051, 4, 628550904335182525, 2218765806715868784, 2305843009213616129);
    lemma_square(336264465743942051, 8, 2218765806715868784, 172694679746249389, 2305843009213616129);
    lemma_square(336264465743942051, 16, 172694679746249389, 475660502097245253, 2305843009213616129);
    lemma_square(336264465743942051, 32, 475660502097245253, 1494550836225213894, 2305843009213616129);
    lemma_square(336264465743942051, 64, 1494550836225213894, 820377002341086468, 2305843009213616129);
    lemma_square(336264465743942051, 128, 820377002341086468, 738870338606023187, 2305843009213616129);
    lemma_square(336264465743942051, 256, 738870338606023187, 2079598836198340088, 2305843009213616129);
    lemma_square(336264465743942051, 512, 2079598836198340088, 674434152445352566, 2305843009213616129);
    lemma_square(336264465743942051, 1024, 674434152445352566, 2305843009213616128, 2305843009213616129);
    reveal(power_is);
}

/// A root of `X^2048 + 1` modulo the first channel modulus.
pub proof fn lemma_rs0_root()
    ensures
        field::cong(pow(13290827, 2048), -1, 16760833),
{
    lemma_first_power(13290827, 16760833);
    lemma_square(13290827, 1, 13290827, 9495335, 16760833);
    lemma_square(13290827, 2, 9495335, 5413655, 16760833);
    lemma_square(13290827, 4, 5413655, 3091885, 16760833);
    lemma_square(13290827, 8, 3091885, 10621679, 16760833);
    lemma_square(13290827, 16, 10621679, 14992765, 16760833);
    lemma_square(13290827, 32, 14992765, 1489794, 16760833);
    lemma_square(13290827, 64, 1489794, 16656576, 16760833);
    lemma_square(13290827, 128, 16656576, 8502265, 16760833);
    lemma_square(13290827, 256, 8502265, 9529539, 16760833);
    lemma_square(13290827, 512, 9529539, 9623559, 16760833);
    lemma_square(13290827, 1024, 9623559, 16760832, 16760833);
    reveal(power_is);
}

/// A root of `X^2048 + 1` modulo the second channel modulus.
pub proof fn lemma_rs1_root()
    ensures
        field::cong(pow(8043402, 2048), -1, 16736257),
{
    lemma_first_power(8043402, 16736257);
    lemma_square(8043402, 1, 8043402, 4696638, 16736257);
    lemma_square(8043402, 2, 4696638, 5040787, 16736257);
    lemma_square(8043402, 4, 5040787, 12641745, 16736257);
    lemma_square(8043402, 8, 12641745, 1892361, 16736257);
    lemma_square(8043402, 16, 1892361, 6716545, 16736257);
    lemma_square(8043402, 32, 6716545, 15235034, 16736257);
    lemma_square(8043402, 64, 15235034, 16336880, 16736257);
    lemma_square(8043402, 128, 16336880, 5458919, 16736257);
    lemma_square(8043402, 256, 5458919, 4038440, 16736257);
    lemma_square(8043402, 512, 4038440, 538553, 16736257);
    lemma_square(8043402, 1024, 538553, 16736256, 16736257);
    reveal(power_is);
}

/// Link of the certificate.
proof fn lemma_kahe_chain()
    ensures
        field::is_prime(1116449),
{
    assert(undivided(251, 2, 2));
    lemma_undivided_extend(251, 2);
    lemma_undivided_extend(251, 12);
    lemma_trial(251, 22);
    lemma_first_power(2, 1116449);
    lemma_square(2, 1, 2, 4, 1116449);
    lemma_square(2, 2, 4, 16, 1116449);
    lemma_square(2, 4, 16, 256, 1116449);
    lemma_square_times(2, 8, 256, 131072, 1116449);
    lemma_square(2, 17, 131072, 1068421, 1116449);
    lemma_square_times(2, 34, 1068421, 210300, 1116449);
    lemma_square_times(2, 69, 210300, 391526, 1116449);
    lemma_square(2, 139, 391526, 811629, 1116449);
    lemma_square(2, 278, 811629, 997273, 1116449);
    lemma_square(2, 556, 997273, 571247, 1116449);
    lemma_square(2, 1112, 571247, 722595, 1116449);
    lemma_square(2, 2224, 722595, 432807, 1116449);
    lemma_square(2, 34, 1068421, 105150, 1116449);
    lemma_square(2, 68, 105150, 328053, 1116449);
    lemma_square(2, 136, 328053, 902352, 1116449);
    lemma_square_times(2, 272, 902352, 74081, 1116449);
    lemma_square(2, 545, 74081, 647726, 1116449);
    lemma_square(2, 1090, 647726, 834264, 1116449);
    lemma_square_times(2, 2180, 834264, 880845, 1116449);
    lemma_square(2, 4361, 880845, 516985, 1116449);
    lemma_square(2, 8722, 516985, 65421, 1116449);
    lemma_square_times(2, 17444, 65421, 1116448, 1116449);
    lemma_square(2, 34889, 1116448, 1, 1116449);
    lemma_square(2, 69778, 1, 1, 1116449);
    lemma_square(2, 139556, 1, 1, 1116449);
    lemma_square(2, 279112, 1, 1, 1116449);
    lemma_square(2, 558224, 1, 1, 1116449);
    assert(field::cong(432806int * 757155int, 1, 1116449));
    assert(unstepped(1116449, 251, 1, 1));
    lemma_unstepped_extend(1116449, 251, 1, 252);
    lemma_unstepped_extend(1116449, 251, 2, 503);
    lemma_unstepped_extend(1116449, 251, 3, 754);
    lemma_unstepped_extend(1116449, 251, 4, 1005);
    lemma_pocklington_steps(1116449, 251, 5, 2, 432807, 757155);
}

/// The ciphertext-ring modulus is prime.
pub proof fn lemma_kahe_modulus_prime()
    ensures
        field::is_prime(347280875347969),
{
    lemma_kahe_chain();
    lemma_first_power(2, 347280875347969);
    lemma_square(2, 1, 2, 4, 347280875347969);
    lemma_square(2, 2, 4, 16, 347280875347969);
    lemma_square_times(2, 4, 16, 512, 347280875347969);
    lemma_square(2, 9, 512, 262144, 347280875347969);
    lemma_square_times(2, 18, 262144, 137438953472, 347280875347969);
    lemma_square(2, 37, 137438953472, 295697811417447, 347280875347969);
    lemma_square(2, 74, 295697811417447, 104758020838774, 347280875347969);
    lemma_square(2, 148, 104758020838774, 285275753250630, 347280875347969);
    lemma_square_times(2, 296, 285275753250630, 78347838491381, 347280875347969);
    lemma_square(2, 593, 78347838491381, 183841843251998, 347280875347969);
    lemma_square_times(2, 1186, 183841843251998, 38406118662502, 347280875347969);
    lemma_square(2, 2373, 38406118662502, 52721993288560, 347280875347969);
    lemma_square(2, 4746, 52721993288560, 345442107672007, 347280875347969);
    lemma_square_times(2, 9492, 345442107672007, 259669332880607, 347280875347969);
    lemma_square_times(2, 18985, 259669332880607, 30067230254337, 347280875347969);
    lemma_square(2, 37971, 30067230254337, 285701865140393, 347280875347969);
    lemma_square(2, 75942, 285701865140393, 336150668412558, 347280875347969);
    lemma_square(2, 151884, 336150668412558, 300248620177981, 347280875347969);
    lemma_square(2, 303768, 300248620177981, 199712958016328, 347280875347969);
    lemma_square(2, 607536, 199712958016328, 180184223356188, 347280875347969);
    lemma_square(2, 1215072, 180184223356188, 318649581663096, 347280875347969);
    lemma_square(2, 2430144, 318649581663096, 140090147508722, 347280875347969);
    lemma_square(2, 4860288, 140090147508722, 255379685423488, 347280875347969);
    lemma_square(2, 9720576, 255379685423488, 97517736332747, 347280875347969);
    lemma_square(2, 19441152, 97517736332747, 309848778456661, 347280875347969);
    lemma_square(2, 38882304, 309848778456661, 33602664902584, 347280875347969);
    lemma_square(2, 77764608, 33602664902584, 201819375795148, 347280875347969);
    lemma_square(2, 155529216, 201819375795148, 259618024777274, 347280875347969);
    lemma_square_times(2, 9, 512, 524288, 347280875347969);
    lemma_square_times(2, 19, 524288, 549755813888, 347280875347969);
    lemma_square(2, 39, 549755813888, 216513603155555, 347280875347969);
    lemma_square_times(2, 78, 216513603155555, 154851865865062, 347280875347969);
    lemma_square_times(2, 157, 154851865865062, 74006278360489, 347280875347969);
    lemma_square_times(2, 315, 74006278360489, 324197763343498, 347280875347969);
    lemma_square_times(2, 631, 324197763343498, 324692582376981, 347280875347969);
    lemma_square(2, 1263, 324692582376981, 273832628137827, 347280875347969);
    lemma_square_times(2, 2526, 273832628137827, 244402367826599, 347280875347969);
    lemma_square_times(2, 5053, 244402367826599, 39649379042674, 347280875347969);
    lemma_square(2, 10107, 39649379042674, 288928850649999, 347280875347969);
    lemma_square(2, 20214, 288928850649999, 1440886042438, 347280875347969);
    lemma_square_times(2, 40428, 1440886042438, 247130305218206, 347280875347969);
    lemma_square_times(2, 80857, 247130305218206, 254151866732334, 347280875347969);
    lemma_square(2, 161715, 254151866732334, 160686410693217, 347280875347969);
    lemma_square_times(2, 323430, 160686410693217, 60766233313860, 347280875347969);
    lemma_square(2, 646861, 60766233313860, 46521537740585, 347280875347969);
    lemma_square(2, 1293722, 46521537740585, 241580041642433, 347280875347969);
    lemma_square(2, 2587444, 241580041642433, 153497555652688, 347280875347969);
    lemma_square(2, 5174888, 153497555652688, 66171095190906, 347280875347969);
    lemma_square_times(2, 10349776, 66171095190906, 71766746971584, 347280875347969);
    lemma_square(2, 20699553, 71766746971584, 161926037987472, 347280875347969);
    lemma_square(2, 41399106, 161926037987472, 2787448535911, 347280875347969);
    lemma_square_times(2, 82798212, 2787448535911, 50522670321883, 347280875347969);
    lemma_square_times(2, 165596425, 50522670321883, 234481065571107, 347280875347969);
    lemma_square(2, 331192851, 234481065571107, 316923015356900, 347280875347969);
    lemma_square_times(2, 662385702, 316923015356900, 194213155946692, 347280875347969);
    lemma_square_times(2, 1324771405, 194213155946692, 113942900928241, 347280875347969);
    lemma_square(2, 2649542811, 113942900928241, 99978273475031, 347280875347969);
    lemma_square(2, 5299085622, 99978273475031, 115217919643928, 347280875347969);
    lemma_square_times(2, 10598171244, 115217919643928, 193154134841854, 347280875347969);
    lemma_square_times(2, 21196342489, 193154134841854, 247012231735630, 347280875347969);
    lemma_square(2, 42392684979, 247012231735630, 318262265135820, 347280875347969);
    lemma_square(2, 84785369958, 318262265135820, 119698713819821, 347280875347969);
    lemma_square(2, 169570739916, 119698713819821, 96006960872115, 347280875347969);
    lemma_square(2, 339141479832, 96006960872115, 262247943641940, 347280875347969);
    lemma_square(2, 678282959664, 262247943641940, 173172571169551, 347280875347969);
    lemma_square(2, 1356565919328, 173172571169551, 340669500094784, 347280875347969);
    lemma_square(2, 2713131838656, 340669500094784, 347280875347968, 347280875347969);
    lemma_square(2, 5426263677312, 347280875347968, 1, 347280875347969);
    lemma_square(2, 10852527354624, 1, 1, 347280875347969);
    lemma_square(2, 21705054709248, 1, 1, 347280875347969);
    lemma_square(2, 43410109418496, 1, 1, 347280875347969);
    lemma_square(2, 86820218836992, 1, 1, 347280875347969);
    lemma_square(2, 173640437673984, 1, 1, 347280875347969);
    assert(field::cong(259618024777273int * 76143248807350int, 1, 347280875347969));
    assert(unstepped(347280875347969, 1116449, 1, 1));
    lemma_unstepped_extend(347280875347969, 1116449, 1, 1116450);
    lemma_unstepped_extend(347280875347969, 1116449, 2, 2232899);
    lemma_unstepped_extend(347280875347969, 1116449, 3, 3349348);
    lemma_unstepped_extend(347280875347969, 1116449, 4, 4465797);
    lemma_unstepped_extend(347280875347969, 1116449, 5, 5582246);
    lemma_unstepped_extend(347280875347969, 1116449, 6, 6698695);
    lemma_unstepped_extend(347280875347969, 1116449, 7, 7815144);
    lemma_unstepped_extend(347280875347969, 1116449, 8, 8931593);
    lemma_unstepped_extend(347280875347969, 1116449, 9, 10048042);
    lemma_unstepped_extend(347280875347969, 1116449, 10, 11164491);
    lemma_unstepped_extend(347280875347969, 1116449, 11, 12280940);
    lemma_unstepped_extend(347280875347969, 1116449, 12, 13397389);
    lemma_unstepped_extend(347280875347969, 1116449, 13, 14513838);
    lemma_unstepped_extend(347280875347969, 1116449, 14, 15630287);
    lemma_unstepped_extend(347280875347969, 1116449, 15, 16746736);
    lemma_unstepped_extend(347280875347969, 1116449, 16, 17863185);
    lemma_pocklington_steps(347280875347969, 1116449, 17, 2, 259618024777274, 76143248807350);
}

/// A root of `X^2048 + 1` modulo the ciphertext-ring modulus.
pub proof fn lemma_kahe_root()
    ensures
        field::cong(pow(262882193181720, 2048), -1, 347280875347969),
{
    lemma_first_power(262882193181720, 347280875347969);
    lemma_square(262882193181720, 1, 262882193181720, 258946831582556, 347280875347969);
    lemma_square(262882193181720, 2, 258946831582556, 187308226015169, 347280875347969);
    lemma_square(262882193181720, 4, 187308226015169, 300141572326976, 347280875347969);
    lemma_square(262882193181720, 8, 300141572326976, 205778955794126, 347280875347969);
    lemma_square(262882193181720, 16, 205778955794126, 228075529781653, 347280875347969);
    lemma_square(262882193181720, 32, 228075529781653, 11100492318086, 347280875347969);
    lemma_square(262882193181720, 64, 11100492318086, 65097102273461, 347280875347969);
    lemma_square(262882193181720, 128, 65097102273461, 79439144087932, 347280875347969);
    lemma_square(262882193181720, 256, 79439144087932, 174108304178418, 347280875347969);
    lemma_square(262882193181720, 512, 174108304178418, 340669500094784, 347280875347969);
    lemma_square(262882193181720, 1024, 340669500094784, 347280875347968, 347280875347969);
    reveal(power_is);
}

} // verus!
