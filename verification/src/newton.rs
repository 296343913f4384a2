//! Points from their power sums, and weights from their moments.

use crate::field::{
    self, coef, cong, distinct_mod, eval, is_prime, lemma_eval_add, lemma_eval_mul_linear,
    lemma_eval_scale, lemma_prime_divides, lemma_root_bound, mul_linear, poly_add, poly_scale,
};
use crate::fpoly::lemma_eval_push;
use vstd::arithmetic::power::{lemma_pow_adds, lemma_pow1, pow};
use vstd::prelude::*;

verus! {

// ---------------------------------------------------------------
// Elementary symmetric polynomials
// ---------------------------------------------------------------

/// The sum of the `t`-th powers.
pub open spec fn power_sum(z: Seq<int>, t: nat) -> int
    decreases z.len(),
{
    if z.len() == 0 {
        0
    } else {
        power_sum(z.drop_last(), t) + pow(z.last(), t)
    }
}

/// The coefficient of degree `z.len() - n` of the product of the `X - z[i]`.
pub open spec fn cf(z: Seq<int>, n: int) -> int
    decreases z.len(),
{
    if z.len() == 0 {
        if n == 0 {
            1
        } else {
            0
        }
    } else {
        cf(z.drop_last(), n) - z.last() * cf(z.drop_last(), n - 1)
    }
}

proof fn lemma_cf_range(z: Seq<int>, n: int)
    ensures
        n < 0 || n > z.len() ==> cf(z, n) == 0,
        n == 0 ==> cf(z, n) == 1,
    decreases z.len(),
{
    if z.len() > 0 {
        let low = z.drop_last();
        lemma_cf_range(low, n);
        lemma_cf_range(low, n - 1);
        assert(z.last() * 0 == 0);
    }
}

/// The terms `cf(n - t) * power_sum(t)` for `t` from one to `m`.
pub open spec fn mixed(z: Seq<int>, n: int, m: nat) -> int
    decreases m,
{
    if m == 0 {
        0
    } else {
        mixed(z, n, (m - 1) as nat) + cf(z, n - m) * power_sum(z, m)
    }
}

proof fn lemma_mixed_step(z: Seq<int>, n: int, m: nat)
    requires
        z.len() > 0,
    ensures
        ({
            let (low, a) = (z.drop_last(), z.last());
            mixed(z, n, m) == mixed(low, n, m) - a * mixed(low, n - 1, m) + a * cf(low, n - 1) - cf(
                low,
                n - m - 1,
            ) * pow(a, m + 1)
        }),
    decreases m,
{
    let (low, a) = (z.drop_last(), z.last());
    if m == 0 {
        lemma_pow1(a);
        let c = cf(low, n - 1);
        assert(a * c == c * a && a * 0 == 0) by (nonlinear_arith);
    } else {
        let k = (m - 1) as nat;
        lemma_mixed_step(z, n, k);
        lemma_pow_adds(a, 1, m);
        lemma_pow1(a);
        let (c1, c2, q, pm) = (cf(low, n - m), cf(low, n - m - 1), power_sum(low, m), pow(a, m));
        let (s0, s1) = (mixed(low, n, k), mixed(low, n - 1, k));
        assert(cf(z, n - m) == c1 - a * c2);
        assert(power_sum(z, m) == q + pm);
        assert(n - 1 - m == n - m - 1);
        assert(n - k - 1 == n - m);
        assert((c1 - a * c2) * (q + pm) == c1 * q - a * (c2 * q) + c1 * pm - c2 * (a * pm))
            by (nonlinear_arith);
        assert(a * (s1 + c2 * q) == a * s1 + a * (c2 * q)) by (nonlinear_arith);
    }
}

/// Newton's identities.
pub proof fn lemma_newton(z: Seq<int>, n: nat)
    ensures
        n * cf(z, n as int) + mixed(z, n as int, n) == 0,
    decreases z.len(),
{
    if z.len() == 0 {
        lemma_mixed_empty(z, n as int, n);
        assert(n * 0 == 0 && 0 * 1 == 0) by (nonlinear_arith);
    } else if n == 0 {
        assert(0 * cf(z, 0) == 0);
    } else {
        let (low, a) = (z.drop_last(), z.last());
        let m = (n - 1) as nat;
        lemma_newton(low, n);
        lemma_newton(low, m);
        lemma_mixed_step(z, n as int, n);
        lemma_cf_range(low, -1);
        assert(mixed(low, n - 1, n) == mixed(low, n - 1, m) + cf(low, -1) * power_sum(low, n));
        assert(0 * power_sum(low, n) == 0);
        assert(0 * pow(a, n + 1) == 0);
        let (c0, c1, s0, s1) = (
            cf(low, n as int),
            cf(low, n - 1),
            mixed(low, n as int, n),
            mixed(low, n - 1, m),
        );
        assert(n * (c0 - a * c1) + (s0 - a * s1 + a * c1) == 0) by (nonlinear_arith)
            requires
                n * c0 + s0 == 0,
                (n - 1) * c1 + s1 == 0,
        ;
    }
}

proof fn lemma_mixed_empty(z: Seq<int>, n: int, m: nat)
    requires
        z.len() == 0,
    ensures
        mixed(z, n, m) == 0,
    decreases m,
{
    if m > 0 {
        lemma_mixed_empty(z, n, (m - 1) as nat);
        assert(cf(z, n - m) * 0 == 0);
    }
}

// ---------------------------------------------------------------
// Coefficients and power sums determine each other
// ---------------------------------------------------------------

/// The terms `c[n - t] * s[t]` for `t` from one to `m`.
pub open spec fn terms(c: Seq<int>, s: Seq<int>, n: int, m: nat) -> int
    decreases m,
{
    if m == 0 {
        0
    } else {
        terms(c, s, n, (m - 1) as nat) + c[n - m] * s[m as int]
    }
}

/// `c` satisfies Newton's identities for the sums `s`, up to `k`.
pub open spec fn newton_holds(c: Seq<int>, s: Seq<int>, k: nat, p: int) -> bool {
    forall|n: nat| 1 <= n <= k ==> (#[trigger] terms(c, s, n as int, n) + n * c[n as int]) % p == 0
}

proof fn lemma_terms_cong(c: Seq<int>, s: Seq<int>, z: Seq<int>, n: int, m: nat, p: int)
    requires
        p > 0,
        m <= n,
        forall|t: int| n - m <= t < n ==> cong(#[trigger] c[t], cf(z, t), p),
        forall|t: nat| 1 <= t <= m ==> cong(s[t as int], #[trigger] power_sum(z, t), p),
    ensures
        cong(terms(c, s, n, m), mixed(z, n, m), p),
    decreases m,
{
    if m > 0 {
        let k = (m - 1) as nat;
        lemma_terms_cong(c, s, z, n, k, p);
        assert(cong(c[n - m], cf(z, n - m), p));
        assert(cong(s[m as int], power_sum(z, m), p));
        field::lemma_cong_ops(c[n - m], cf(z, n - m), s[m as int], power_sum(z, m), p);
        field::lemma_cong_ops(
            terms(c, s, n, k),
            mixed(z, n, k),
            c[n - m] * s[m as int],
            cf(z, n - m) * power_sum(z, m),
            p,
        );
    }
}

/// If the sums are the power sums of `z`, the coefficients are those of `z`.
pub proof fn lemma_coefficients(c: Seq<int>, s: Seq<int>, z: Seq<int>, k: nat, n: nat, p: int)
    requires
        is_prime(p),
        n <= k < p,
        c[0] == 1,
        newton_holds(c, s, k, p),
        forall|t: nat| 1 <= t <= k ==> cong(s[t as int], #[trigger] power_sum(z, t), p),
    ensures
        cong(c[n as int], cf(z, n as int), p),
    decreases n,
{
    lemma_cf_range(z, 0);
    if n > 0 {
        assert forall|t: int| 0 <= t < n implies cong(#[trigger] c[t], cf(z, t), p) by {
            lemma_coefficients(c, s, z, k, t as nat, p);
        }
        lemma_terms_cong(c, s, z, n as int, n, p);
        lemma_newton(z, n);
        let (a, b) = (terms(c, s, n as int, n), mixed(z, n as int, n));
        let (x, y) = (c[n as int], cf(z, n as int));
        assert((a + n * x) % p == 0);
        field::lemma_cong_ops(b, a, n * x, n * x, p);
        assert(n * (x - y) == (b + n * x) - (b + n * y)) by (nonlinear_arith);
        assert((n * (x - y)) % p == 0);
        field::lemma_small(n as int, p);
        lemma_prime_divides(n as int, x - y, p);
        field::lemma_cong_diff(x, y, p);
    }
}

/// If the coefficients are those of `z`, the sums are its power sums.
pub proof fn lemma_power_sums(c: Seq<int>, s: Seq<int>, z: Seq<int>, k: nat, n: nat, p: int)
    requires
        p > 0,
        1 <= n <= k,
        c[0] == 1,
        newton_holds(c, s, k, p),
        forall|t: int| 0 <= t <= k ==> cong(#[trigger] c[t], cf(z, t), p),
    ensures
        cong(s[n as int], power_sum(z, n), p),
    decreases n,
{
    let m = (n - 1) as nat;
    assert forall|t: nat| 1 <= t <= m implies cong(s[t as int], #[trigger] power_sum(z, t), p) by {
        lemma_power_sums(c, s, z, k, t, p);
    }
    lemma_terms_cong(c, s, z, n as int, m, p);
    lemma_newton(z, n);
    lemma_cf_range(z, 0);
    let (a, b) = (terms(c, s, n as int, m), mixed(z, n as int, m));
    let (x, y) = (c[n as int], cf(z, n as int));
    let (u, v) = (s[n as int], power_sum(z, n));
    assert((terms(c, s, n as int, n) + n * c[n as int]) % p == 0);
    assert(c[0] * u == u && cf(z, 0) * v == v) by (nonlinear_arith)
        requires
            c[0] == 1,
            cf(z, 0) == 1,
    ;
    assert(n - n == 0);
    assert(terms(c, s, n as int, n) == a + u);
    assert(mixed(z, n as int, n) == b + v);
    assert(cong(c[n as int], cf(z, n as int), p));
    field::lemma_cong_ops(n as int, n as int, x, y, p);
    field::lemma_cong_ops(a, b, n * x, n * y, p);
    field::lemma_cong_ops(a + u + n * x, 0, a + n * x, b + n * y, p);
    assert(u == (a + u + n * x) - (a + n * x));
    assert(v == 0 - (b + n * y));
}

// ---------------------------------------------------------------
// The polynomial with given roots
// ---------------------------------------------------------------

/// The product of the `X - z[i]`.
pub open spec fn from_roots(z: Seq<int>) -> Seq<int>
    decreases z.len(),
{
    if z.len() == 0 {
        seq![1]
    } else {
        mul_linear(from_roots(z.drop_last()), z.last())
    }
}

pub proof fn lemma_from_roots(z: Seq<int>)
    ensures
        from_roots(z).len() == z.len() + 1,
        forall|j: int| 0 <= j <= z.len() ==> #[trigger] from_roots(z)[j] == cf(z, z.len() - j),
        from_roots(z)[z.len() as int] == 1,
    decreases z.len(),
{
    let k = z.len() as int;
    if k > 0 {
        let (low, a) = (z.drop_last(), z.last());
        lemma_from_roots(low);
        let (f, g) = (from_roots(z), from_roots(low));
        lemma_eval_mul_linear(g, a, 0);
        assert forall|j: int| 0 <= j <= k implies #[trigger] f[j] == cf(z, k - j) by {
            lemma_cf_range(low, k - j);
            lemma_cf_range(low, k - j - 1);
            let s = field::poly_shift(g);
            let t = poly_scale(g, -a);
            if j > 0 {
                assert(coef(s, j) == g[j - 1]);
                assert(g[j - 1] == cf(low, k - j));
            }
            if j < k {
                assert(coef(t, j) == (-a) * g[j]);
                assert(g[j] == cf(low, k - 1 - j));
            }
            let c = cf(low, k - j - 1);
            assert((-a) * c == -(a * c) && a * 0 == 0) by (nonlinear_arith);
        }
        lemma_cf_range(z, 0);
    }
    assert(from_roots(z)[k] == cf(z, 0));
}

pub proof fn lemma_from_roots_vanish(z: Seq<int>, i: int)
    requires
        0 <= i < z.len(),
    ensures
        eval(from_roots(z), z[i]) == 0,
    decreases z.len(),
{
    let (low, a) = (z.drop_last(), z.last());
    lemma_eval_mul_linear(from_roots(low), a, z[i]);
    let e = eval(from_roots(low), z[i]);
    if i < z.len() - 1 {
        lemma_from_roots_vanish(low, i);
        assert(low[i] == z[i]);
        assert((z[i] - a) * 0 == 0);
    } else {
        assert(0 * e == 0);
    }
}

/// A monic polynomial with as many distinct roots as its degree has the
/// coefficients of their product.
pub proof fn lemma_monic_coefficients(c: Seq<int>, z: Seq<int>, p: int)
    requires
        is_prime(p),
        c.len() == z.len() + 1,
        c[z.len() as int] == 1,
        distinct_mod(z, p),
        forall|i: int| 0 <= i < z.len() ==> eval(c, #[trigger] z[i]) % p == 0,
    ensures
        forall|j: int| 0 <= j < c.len() ==> cong(#[trigger] c[j], from_roots(z)[j], p),
{
    let k = z.len() as int;
    let f = from_roots(z);
    lemma_from_roots(z);
    let (cl, fl) = (c.drop_last(), f.drop_last());
    assert(c =~= cl.push(1));
    assert(f =~= fl.push(1));
    let d = Seq::new(z.len(), |j: int| c[j] - f[j]);
    assert(poly_add(cl, poly_scale(fl, -1)) =~= d);
    assert forall|i: int| 0 <= i < z.len() implies eval(d, #[trigger] z[i]) % p == 0 by {
        let x = z[i];
        lemma_eval_push(cl, 1, x);
        lemma_eval_push(fl, 1, x);
        lemma_eval_add(cl, poly_scale(fl, -1), x);
        lemma_eval_scale(fl, -1, x);
        lemma_from_roots_vanish(z, i);
    }
    lemma_root_bound(d, z, p);
    assert forall|j: int| 0 <= j < c.len() implies cong(#[trigger] c[j], f[j], p) by {
        if j < k {
            assert(d[j] % p == 0);
            field::lemma_cong_diff(c[j], f[j], p);
        }
    }
}

// ---------------------------------------------------------------
// Weights
// ---------------------------------------------------------------

/// The sum of `x[i] * z[i]^j`.
pub open spec fn moment(x: Seq<int>, z: Seq<int>, j: nat) -> int
    decreases z.len(),
{
    if z.len() == 0 {
        0
    } else {
        moment(x, z.drop_last(), j) + x[z.len() - 1] * pow(z.last(), j)
    }
}

/// The sum of `c[m] * w[m]`.
pub open spec fn dot(c: Seq<int>, w: Seq<int>) -> int
    decreases c.len(),
{
    if c.len() == 0 {
        0
    } else {
        dot(c.drop_last(), w) + c.last() * w[c.len() - 1]
    }
}

/// Row `i` is a polynomial that is one at point `i` and zero at the others.
pub open spec fn is_dual(d: Seq<Seq<int>>, z: Seq<int>, p: int) -> bool {
    &&& d.len() == z.len()
    &&& forall|i: int| 0 <= i < d.len() ==> (#[trigger] d[i]).len() == z.len()
    &&& forall|i: int, l: int|
        0 <= i < d.len() && 0 <= l < z.len() ==> cong(
            #[trigger] eval(d[i], z[l]),
            if i == l {
                1
            } else {
                0
            },
            p,
        )
}

pub proof fn lemma_dot_cong(c: Seq<int>, d: Seq<int>, v: Seq<int>, w: Seq<int>, p: int)
    requires
        p > 0,
        c.len() == d.len(),
        forall|i: int| 0 <= i < c.len() ==> cong(#[trigger] c[i], d[i], p),
        forall|i: int| 0 <= i < c.len() ==> cong(#[trigger] v[i], w[i], p),
    ensures
        cong(dot(c, v), dot(d, w), p),
    decreases c.len(),
{
    if c.len() > 0 {
        let n = c.len() - 1;
        let (cl, dl) = (c.drop_last(), d.drop_last());
        assert forall|i: int| 0 <= i < cl.len() implies cong(#[trigger] cl[i], dl[i], p) by {
            assert(cong(c[i], d[i], p));
        }
        lemma_dot_cong(cl, dl, v, w, p);
        assert(cong(c[n], d[n], p) && cong(v[n], w[n], p));
        field::lemma_cong_ops(c[n], d[n], v[n], w[n], p);
        field::lemma_cong_ops(dot(cl, v), dot(dl, w), c[n] * v[n], d[n] * w[n], p);
    }
}

pub proof fn lemma_moment_cong(x: Seq<int>, y: Seq<int>, z: Seq<int>, j: nat, p: int)
    requires
        p > 0,
        forall|i: int| 0 <= i < z.len() ==> cong(#[trigger] x[i], y[i], p),
    ensures
        cong(moment(x, z, j), moment(y, z, j), p),
    decreases z.len(),
{
    if z.len() > 0 {
        let n = z.len() - 1;
        lemma_moment_cong(x, y, z.drop_last(), j, p);
        assert(cong(x[n], y[n], p));
        let w = pow(z.last(), j);
        field::lemma_cong_ops(x[n], y[n], w, w, p);
        field::lemma_cong_ops(
            moment(x, z.drop_last(), j),
            moment(y, z.drop_last(), j),
            x[n] * w,
            y[n] * w,
            p,
        );
    }
}

proof fn lemma_dot_add(a: Seq<int>, b: Seq<int>, k: int, w: Seq<int>)
    requires
        a.len() == b.len(),
    ensures
        dot(poly_add(a, poly_scale(b, k)), w) == dot(a, w) + k * dot(b, w),
    decreases a.len(),
{
    let s = poly_add(a, poly_scale(b, k));
    if a.len() == 0 {
        assert(k * 0 == 0);
    } else {
        let n = a.len() - 1;
        let (al, bl) = (a.drop_last(), b.drop_last());
        lemma_dot_add(al, bl, k, w);
        assert(s.drop_last() =~= poly_add(al, poly_scale(bl, k)));
        let (x, y, v, e) = (a[n], b[n], w[n], dot(bl, w));
        assert((x + k * y) * v == x * v + k * (y * v)) by (nonlinear_arith);
        assert(k * (e + y * v) == k * e + k * (y * v)) by (nonlinear_arith);
    }
}

/// The first `n` duals, each scaled by the `j`-th power of its point.
spec fn blend(d: Seq<Seq<int>>, z: Seq<int>, j: nat, n: nat) -> Seq<int>
    decreases n,
{
    if n == 0 {
        Seq::new(z.len(), |i: int| 0)
    } else {
        poly_add(
            blend(d, z, j, (n - 1) as nat),
            poly_scale(d[n - 1], pow(z[n - 1], j)),
        )
    }
}

pub proof fn lemma_zero_poly(k: nat, x: int, w: Seq<int>)
    ensures
        eval(Seq::new(k, |i: int| 0int), x) == 0,
        dot(Seq::new(k, |i: int| 0int), w) == 0,
    decreases k,
{
    let c = Seq::new(k, |i: int| 0int);
    if k > 0 {
        let l = Seq::new((k - 1) as nat, |i: int| 0int);
        lemma_zero_poly((k - 1) as nat, x, w);
        assert(c.drop_first() =~= l);
        assert(c.drop_last() =~= l);
        assert(x * 0 == 0 && 0 * w[k - 1] == 0);
    }
}

proof fn lemma_blend(d: Seq<Seq<int>>, z: Seq<int>, j: nat, n: nat, l: int, w: Seq<int>, p: int)
    requires
        p > 0,
        is_dual(d, z, p),
        n <= z.len(),
        0 <= l < z.len(),
    ensures
        blend(d, z, j, n).len() == z.len(),
        cong(
            eval(blend(d, z, j, n), z[l]),
            if l < n {
                pow(z[l], j)
            } else {
                0
            },
            p,
        ),
        dot(blend(d, z, j, n), w) == moment(
            Seq::new(z.len(), |i: int| dot(d[i], w)),
            z.take(n as int),
            j,
        ),
    decreases n,
{
    let x = Seq::new(z.len(), |i: int| dot(d[i], w));
    if n == 0 {
        lemma_zero_poly(z.len(), z[l], w);
    } else {
        let m = (n - 1) as nat;
        lemma_blend(d, z, j, m, l, w, p);
        let (b, q) = (blend(d, z, j, m), pow(z[m as int], j));
        assert(d[m as int].len() == z.len());
        lemma_eval_add(b, poly_scale(d[m as int], q), z[l]);
        lemma_eval_scale(d[m as int], q, z[l]);
        let e = eval(d[m as int], z[l]);
        assert(cong(
            eval(d[m as int], z[l]),
            if m == l {
                1
            } else {
                0
            },
            p,
        ));
        let one: int = if m == l {
            1
        } else {
            0
        };
        field::lemma_cong_ops(q, q, e, one, p);
        let before: int = if l < m {
            pow(z[l], j)
        } else {
            0
        };
        field::lemma_cong_ops(eval(b, z[l]), before, q * e, q * one, p);
        assert(q * 1 == q && q * 0 == 0);
        lemma_dot_add(b, d[m as int], q, w);
        let t = z.take(n as int);
        assert(t.drop_last() =~= z.take(m as int));
        assert(t.last() == z[m as int]);
        assert(x[m as int] == dot(d[m as int], w));
        let v = dot(d[m as int], w);
        assert(q * v == v * q) by (nonlinear_arith);
    }
}

proof fn lemma_dot_unit(k: nat, j: int, w: Seq<int>, x: int)
    requires
        0 <= j < k,
    ensures
        dot(unit(k, j), w) == w[j],
        eval(unit(k, j), x) == pow(x, j as nat),
    decreases k,
{
    let c = unit(k, j);
    let m = (k - 1) as nat;
    let low = c.drop_last();
    assert(c =~= low.push(c.last()));
    lemma_eval_push(low, c.last(), x);
    if j == m {
        lemma_zero_poly(m, x, w);
        assert(low =~= Seq::new(m, |i: int| 0int));
        assert(1 * w[j] == w[j] && 1 * pow(x, m) == pow(x, m));
    } else {
        lemma_dot_unit(m, j, w, x);
        assert(low =~= unit(m, j));
        assert(0 * w[m as int] == 0 && 0 * pow(x, m) == 0);
    }
}

/// `X^j`, padded to `k` coefficients.
spec fn unit(k: nat, j: int) -> Seq<int> {
    Seq::new(
        k,
        |i: int|
            if i == j {
                1
            } else {
                0
            },
    )
}

/// The weights that the duals give have the given moments.
pub proof fn lemma_weights_solve(
    d: Seq<Seq<int>>,
    z: Seq<int>,
    w: Seq<int>,
    x: Seq<int>,
    j: int,
    p: int,
)
    requires
        is_prime(p),
        distinct_mod(z, p),
        is_dual(d, z, p),
        0 <= j < z.len(),
        forall|i: int| 0 <= i < z.len() ==> cong(#[trigger] x[i], dot(d[i], w), p),
    ensures
        cong(moment(x, z, j as nat), w[j], p),
{
    let k = z.len();
    let b = blend(d, z, j as nat, k);
    let u = unit(k, j);
    let e = poly_add(b, poly_scale(u, -1));
    lemma_blend(d, z, j as nat, k, 0, w, p);
    assert forall|l: int| 0 <= l < k implies eval(e, #[trigger] z[l]) % p == 0 by {
        lemma_blend(d, z, j as nat, k, l, w, p);
        lemma_dot_unit(k, j, w, z[l]);
        lemma_eval_add(b, poly_scale(u, -1), z[l]);
        lemma_eval_scale(u, -1, z[l]);
        field::lemma_cong_diff(eval(b, z[l]), pow(z[l], j as nat), p);
    }
    lemma_root_bound(e, z, p);
    assert forall|i: int| 0 <= i < b.len() implies cong(#[trigger] b[i], u[i], p) by {
        assert(e[i] % p == 0);
        field::lemma_cong_diff(b[i], u[i], p);
    }
    lemma_dot_cong(b, u, w, w, p);
    lemma_dot_unit(k, j, w, 0);
    let y = Seq::new(k, |i: int| dot(d[i], w));
    assert(z.take(k as int) =~= z);
    lemma_moment_cong(x, y, z, j as nat, p);
}

/// Pairing coefficients with moments evaluates the polynomial at the points.
proof fn lemma_dot_moments(c: Seq<int>, z: Seq<int>, y: Seq<int>, w: Seq<int>, p: int)
    requires
        p > 0,
        forall|m: int| 0 <= m < c.len() ==> cong(#[trigger] w[m], moment(y, z, m as nat), p),
    ensures
        cong(dot(c, w), weigh(c, z, y), p),
    decreases c.len(),
{
    if c.len() == 0 {
        lemma_weigh_empty(c, z, y);
    } else {
        let n = c.len() - 1;
        let low = c.drop_last();
        lemma_dot_moments(low, z, y, w, p);
        lemma_weigh_push(low, c[n], z, y);
        assert(c =~= low.push(c[n]));
        assert(cong(w[n], moment(y, z, n as nat), p));
        field::lemma_cong_ops(c[n], c[n], w[n], moment(y, z, n as nat), p);
        field::lemma_cong_ops(
            dot(low, w),
            weigh(low, z, y),
            c[n] * w[n],
            c[n] * moment(y, z, n as nat),
            p,
        );
    }
}

/// The sum of `y[l] * c(z[l])`.
spec fn weigh(c: Seq<int>, z: Seq<int>, y: Seq<int>) -> int
    decreases z.len(),
{
    if z.len() == 0 {
        0
    } else {
        weigh(c, z.drop_last(), y) + y[z.len() - 1] * eval(c, z.last())
    }
}

proof fn lemma_weigh_empty(c: Seq<int>, z: Seq<int>, y: Seq<int>)
    requires
        c.len() == 0,
    ensures
        weigh(c, z, y) == 0,
    decreases z.len(),
{
    if z.len() > 0 {
        lemma_weigh_empty(c, z.drop_last(), y);
        assert(y[z.len() - 1] * 0 == 0);
    }
}

proof fn lemma_weigh_push(c: Seq<int>, a: int, z: Seq<int>, y: Seq<int>)
    ensures
        weigh(c.push(a), z, y) == weigh(c, z, y) + a * moment(y, z, c.len()),
    decreases z.len(),
{
    if z.len() > 0 {
        let low = z.drop_last();
        lemma_weigh_push(c, a, low, y);
        lemma_eval_push(c, a, z.last());
        let (v, e, q, m) = (
            y[z.len() - 1],
            eval(c, z.last()),
            pow(z.last(), c.len()),
            moment(y, low, c.len()),
        );
        assert(v * (e + a * q) == v * e + a * (v * q)) by (nonlinear_arith);
        assert(a * (m + v * q) == a * m + a * (v * q)) by (nonlinear_arith);
    } else {
        assert(a * 0 == 0);
    }
}

proof fn lemma_weigh_dual(d: Seq<Seq<int>>, i: int, z: Seq<int>, y: Seq<int>, n: nat, p: int)
    requires
        p > 0,
        is_dual(d, z, p),
        0 <= i < z.len(),
        n <= z.len(),
    ensures
        cong(
            weigh(d[i], z.take(n as int), y),
            if i < n {
                y[i]
            } else {
                0
            },
            p,
        ),
    decreases n,
{
    let t = z.take(n as int);
    if n > 0 {
        let m = n - 1;
        lemma_weigh_dual(d, i, z, y, m as nat, p);
        assert(t.drop_last() =~= z.take(m));
        assert(t.last() == z[m]);
        let e = eval(d[i], z[m]);
        let one: int = if i == m {
            1
        } else {
            0
        };
        assert(cong(
            eval(d[i], z[m]),
            if i == m {
                1
            } else {
                0
            },
            p,
        ));
        field::lemma_cong_ops(y[m], y[m], e, one, p);
        let before: int = if i < m {
            y[i]
        } else {
            0
        };
        field::lemma_cong_ops(weigh(d[i], z.take(m), y), before, y[m] * e, y[m] * one, p);
        assert(y[m] * 1 == y[m] && y[m] * 0 == 0);
    }
}

/// The moments below the number of points determine the weights.
pub proof fn lemma_weights_unique(
    d: Seq<Seq<int>>,
    z: Seq<int>,
    w: Seq<int>,
    y: Seq<int>,
    i: int,
    p: int,
)
    requires
        p > 0,
        is_dual(d, z, p),
        0 <= i < z.len(),
        forall|m: int| 0 <= m < z.len() ==> cong(#[trigger] w[m], moment(y, z, m as nat), p),
    ensures
        cong(dot(d[i], w), y[i], p),
{
    assert(d[i].len() == z.len());
    lemma_dot_moments(d[i], z, y, w, p);
    lemma_weigh_dual(d, i, z, y, z.len(), p);
    assert(z.take(z.len() as int) =~= z);
}

} // verus!
