//! Ring products through values at the roots of `X^2048 + 1`.

use crate::field::{self, cong, distinct_mod, eval, is_prime, poly_add, poly_scale};
use crate::negacyclic::{
    cong_poly, dot_at, lemma_product_cong, product_at, product_terms, rotated, Coeffs, N,
};
use crate::primes::lemma_pow_cong;
use vstd::arithmetic::power::{lemma_pow0, lemma_pow1, lemma_pow_adds, pow};
use vstd::prelude::*;

verus! {

/// `2^d`.
pub open spec fn span(d: nat) -> nat
    decreases d,
{
    if d == 0 {
        1
    } else {
        2 * span((d - 1) as nat)
    }
}

/// The roots of `X^(2^d) - psi^e`, as powers of `psi`.
pub open spec fn points(psi: int, e: nat, d: nat) -> Seq<int>
    decreases d,
{
    if d == 0 {
        seq![pow(psi, e)]
    } else {
        points(psi, e / 2, (d - 1) as nat) + points(psi, e / 2 + N as nat, (d - 1) as nat)
    }
}

/// `psi` is a root of `X^2048 + 1` modulo an odd prime.
pub open spec fn is_root(psi: int, q: int) -> bool {
    &&& is_prime(q)
    &&& q > 2
    &&& cong(pow(psi, N as nat), -1, q)
}

proof fn lemma_span(d: nat)
    ensures
        span(d) >= 1,
    decreases d,
{
    if d > 0 {
        lemma_span((d - 1) as nat);
    }
}

proof fn lemma_span_divides(d: nat)
    requires
        d <= 11,
    ensures
        2048nat % span(d) == 0,
{
    assert(span(0) == 1);
    assert(span(1) == 2);
    assert(span(2) == 4);
    assert(span(3) == 8);
    assert(span(4) == 16);
    assert(span(5) == 32);
    assert(span(6) == 64);
    assert(span(7) == 128);
    assert(span(8) == 256);
    assert(span(9) == 512);
    assert(span(10) == 1024);
    assert(span(11) == 2048);
    if d == 0 {
        assert(2048nat % 1nat == 0);
    } else if d == 1 {
        assert(2048nat % 2nat == 0);
    } else if d == 2 {
        assert(2048nat % 4nat == 0);
    } else if d == 3 {
        assert(2048nat % 8nat == 0);
    } else if d == 4 {
        assert(2048nat % 16nat == 0);
    } else if d == 5 {
        assert(2048nat % 32nat == 0);
    } else if d == 6 {
        assert(2048nat % 64nat == 0);
    } else if d == 7 {
        assert(2048nat % 128nat == 0);
    } else if d == 8 {
        assert(2048nat % 256nat == 0);
    } else if d == 9 {
        assert(2048nat % 512nat == 0);
    } else if d == 10 {
        assert(2048nat % 1024nat == 0);
    } else if d == 11 {
        assert(2048nat % 2048nat == 0);
    }
}

/// The exponents met below one that `2^d` divides stay divisible.
proof fn lemma_halves(e: nat, d: nat)
    requires
        1 <= d <= 11,
        e % span(d) == 0,
        e < 4096,
    ensures
        2 * (e / 2) == e,
        (e / 2) % span((d - 1) as nat) == 0,
        (e / 2 + 2048) % span((d - 1) as nat) == 0,
        e / 2 + 2048 < 4096,
{
    let h = span((d - 1) as nat) as int;
    lemma_span((d - 1) as nat);
    lemma_span_divides((d - 1) as nat);
    let k = e as int / (2 * h);
    vstd::arithmetic::div_mod::lemma_fundamental_div_mod(e as int, 2 * h);
    assert(e == 2 * (h * k)) by (nonlinear_arith)
        requires
            e as int == (2 * h) * k,
    ;
    assert(e / 2 == h * k);
    vstd::arithmetic::div_mod::lemma_mod_multiples_basic(k, h);
    assert(h * k == k * h) by (nonlinear_arith);
    let m = 2048int / h;
    vstd::arithmetic::div_mod::lemma_fundamental_div_mod(2048, h);
    assert(h * k + h * m == (k + m) * h) by (nonlinear_arith);
    vstd::arithmetic::div_mod::lemma_mod_multiples_basic(k + m, h);
}

/// The second half of the points belongs to the opposite root.
proof fn lemma_opposite(psi: int, f: nat, q: int)
    requires
        is_root(psi, q),
        f <= 4096,
    ensures
        cong(pow(psi, f + N as nat), -pow(psi, f), q),
        cong(pow(psi, f) * pow(psi, (4096 - f) as nat), 1, q),
{
    let s = pow(psi, f);
    let n = pow(psi, N as nat);
    lemma_pow_adds(psi, f, N as nat);
    field::lemma_cong_ops(s, s, n, -1, q);
    assert(s * -1 == -s) by (nonlinear_arith);
    lemma_pow_adds(psi, f, (4096 - f) as nat);
    lemma_pow_adds(psi, N as nat, N as nat);
    field::lemma_cong_ops(n, -1, n, -1, q);
}

/// Each point is a root, and no two agree.
proof fn lemma_points(psi: int, e: nat, d: nat, q: int)
    requires
        is_root(psi, q),
        d <= 11,
        e % span(d) == 0,
        e < 4096,
    ensures
        points(psi, e, d).len() == span(d),
        forall|i: int|
            0 <= i < span(d) ==> cong(
                pow(#[trigger] points(psi, e, d)[i], span(d)),
                pow(psi, e),
                q,
            ),
        distinct_mod(points(psi, e, d), q),
    decreases d,
{
    let all = points(psi, e, d);
    if d == 0 {
        lemma_pow1(pow(psi, e));
    } else {
        let c = (d - 1) as nat;
        let h = span(c);
        let f = e / 2;
        lemma_halves(e, d);
        lemma_points(psi, f, c, q);
        lemma_points(psi, f + N as nat, c, q);
        lemma_opposite(psi, f, q);
        let left = points(psi, f, c);
        let right = points(psi, f + N as nat, c);
        let s = pow(psi, f);
        lemma_pow_adds(psi, f, f);
        assert forall|i: int| 0 <= i < span(d) implies cong(
            pow(#[trigger] all[i], span(d)),
            pow(psi, e),
            q,
        ) by {
            let x = all[i];
            lemma_pow_adds(x, h, h);
            if i < h {
                assert(x == left[i]);
                field::lemma_cong_ops(pow(x, h), s, pow(x, h), s, q);
            } else {
                assert(x == right[i - h]);
                field::lemma_cong_ops(pow(x, h), -s, pow(x, h), -s, q);
                assert((-s) * (-s) == s * s) by (nonlinear_arith);
            }
        }
        assert forall|i: int, j: int|
            0 <= i < all.len() && 0 <= j < all.len() && i != j implies !cong(
            #[trigger] all[i],
            #[trigger] all[j],
            q,
        ) by {
            if i < h && j < h {
                assert(all[i] == left[i] && all[j] == left[j]);
            } else if i >= h && j >= h {
                assert(all[i] == right[i - h] && all[j] == right[j - h]);
            } else {
                let (x, y) = if i < h {
                    (all[i], all[j])
                } else {
                    (all[j], all[i])
                };
                if cong(x, y, q) {
                    if i < h {
                        assert(x == left[i] && y == right[j - h]);
                    } else {
                        assert(x == left[j] && y == right[i - h]);
                    }
                    lemma_pow_cong(x, y, h, q);
                    assert(cong(s, -s, q));
                    let u = pow(psi, (4096 - f) as nat);
                    field::lemma_cong_ops(s, -s, u, u, q);
                    assert((-s) * u == -(s * u)) by (nonlinear_arith);
                    field::lemma_cong_ops(0, 0, s * u, 1, q);
                    assert(cong(1, -1, q));
                    field::lemma_cong_diff(1, -1, q);
                    field::lemma_small(2, q);
                    assert(false);
                }
            }
        }
    }
}

// ---------------------------------------------------------------
// Evaluation
// ---------------------------------------------------------------

pub proof fn lemma_eval_cong(a: Seq<int>, b: Seq<int>, x: int, q: int)
    requires
        q > 0,
        a.len() == b.len(),
        forall|i: int| 0 <= i < a.len() ==> cong(#[trigger] a[i], b[i], q),
    ensures
        cong(eval(a, x), eval(b, x), q),
    decreases a.len(),
{
    if a.len() > 0 {
        let (s, t) = (a.drop_first(), b.drop_first());
        assert forall|i: int| 0 <= i < s.len() implies cong(#[trigger] s[i], t[i], q) by {
            assert(cong(a[i + 1], b[i + 1], q));
        }
        lemma_eval_cong(s, t, x, q);
        field::lemma_cong_ops(x, x, eval(s, x), eval(t, x), q);
        field::lemma_cong_ops(a[0], b[0], x * eval(s, x), x * eval(t, x), q);
    }
}

proof fn lemma_eval_concat(a: Seq<int>, b: Seq<int>, x: int)
    ensures
        eval(a + b, x) == eval(a, x) + pow(x, a.len()) * eval(b, x),
    decreases a.len(),
{
    let c = a + b;
    if a.len() == 0 {
        assert(c =~= b);
        lemma_pow0(x);
    } else {
        let t = a.drop_first();
        lemma_eval_concat(t, b, x);
        assert(c.drop_first() =~= t + b);
        lemma_pow_adds(x, 1, t.len());
        lemma_pow1(x);
        let (u, v, w) = (eval(t, x), pow(x, t.len()), eval(b, x));
        assert(x * (u + v * w) == x * u + (x * v) * w) by (nonlinear_arith);
    }
}

/// The remainder of `a` by `X^h - s`.
pub open spec fn folded(a: Seq<int>, s: int) -> Seq<int> {
    Seq::new(a.len() / 2, |i: int| a[i] + s * a[i + a.len() / 2])
}

proof fn lemma_folded(a: Seq<int>, s: int, x: int, h: nat, q: int)
    requires
        q > 0,
        a.len() == 2 * h,
        cong(pow(x, h), s, q),
    ensures
        cong(eval(a, x), eval(folded(a, s), x), q),
{
    let lo = a.take(h as int);
    let hi = a.skip(h as int);
    assert(lo + hi =~= a);
    lemma_eval_concat(lo, hi, x);
    let e = eval(hi, x);
    field::lemma_cong_ops(pow(x, h), s, e, e, q);
    field::lemma_cong_ops(eval(lo, x), eval(lo, x), pow(x, h) * e, s * e, q);
    assert(folded(a, s) =~= poly_add(lo, poly_scale(hi, s)));
    field::lemma_eval_add(lo, poly_scale(hi, s), x);
    field::lemma_eval_scale(hi, s, x);
}

/// The rotated factor.
spec fn rotation(b: Coeffs, i: int) -> Seq<int> {
    Seq::new(N as nat, |k: int| rotated(b, i, k))
}

proof fn lemma_rotation(b: Coeffs, i: nat, x: int, q: int)
    requires
        q > 0,
        b.len() == N,
        i < N,
        cong(pow(x, N as nat), -1, q),
    ensures
        cong(eval(rotation(b, i as int), x), pow(x, i) * eval(b, x), q),
    decreases i,
{
    let r = rotation(b, i as int);
    if i == 0 {
        assert(r =~= b);
        lemma_pow0(x);
    } else {
        let p = rotation(b, i - 1);
        lemma_rotation(b, (i - 1) as nat, x, q);
        let body = p.drop_last();
        let top = p.last();
        assert(body.push(top) =~= p);
        assert(body + seq![top] =~= p);
        lemma_eval_concat(body, seq![top], x);
        assert(seq![top].drop_first() =~= Seq::<int>::empty());
        assert(eval(seq![top], x) == top) by {
            assert(eval(Seq::<int>::empty(), x) == 0);
        }
        assert(r =~= seq![-top] + body) by {
            assert forall|k: int| 0 <= k < N implies r[k] == (seq![-top] + body)[k] by {
                if k > 0 {
                    assert((seq![-top] + body)[k] == p[k - 1]);
                }
            }
        }
        assert(r.drop_first() =~= body);
        let (eb, ep) = (eval(body, x), eval(p, x));
        let y = pow(x, (N - 1) as nat);
        assert(eval(r, x) == -top + x * eb);
        assert(ep == eb + y * top);
        lemma_pow_adds(x, 1, (N - 1) as nat);
        lemma_pow1(x);
        let z = pow(x, N as nat);
        assert(x * ep == x * eb + z * top) by (nonlinear_arith)
            requires
                ep == eb + y * top,
                z == x * y,
        ;
        field::lemma_cong_ops(z, -1, top, top, q);
        field::lemma_cong_ops(x * eb, x * eb, z * top, -1 * top, q);
        assert(cong(x * ep, eval(r, x), q));
        let w = pow(x, (i - 1) as nat) * eval(b, x);
        field::lemma_cong_ops(x, x, ep, w, q);
        lemma_pow_adds(x, 1, (i - 1) as nat);
        assert(x * w == (x * pow(x, (i - 1) as nat)) * eval(b, x)) by (nonlinear_arith)
            requires
                w == pow(x, (i - 1) as nat) * eval(b, x),
        ;
    }
}

spec fn partial_product(a: Coeffs, b: Coeffs, upto: nat) -> Seq<int> {
    Seq::new(N as nat, |k: int| product_terms(a, b, k, upto))
}

proof fn lemma_product_value(a: Coeffs, b: Coeffs, upto: nat, x: int, q: int)
    requires
        q > 0,
        a.len() == N,
        b.len() == N,
        upto <= N,
        cong(pow(x, N as nat), -1, q),
    ensures
        cong(
            eval(partial_product(a, b, upto), x),
            eval(a.take(upto as int), x) * eval(b, x),
            q,
        ),
    decreases upto,
{
    let p = partial_product(a, b, upto);
    let eb = eval(b, x);
    if upto == 0 {
        assert(eval(a.take(0), x) == 0);
        assert(0 * eb == 0);
        assert forall|i: int| 0 <= i < p.len() implies #[trigger] p[i] % q == 0 by {
            field::lemma_small(0, q);
        }
        field::lemma_eval_zero(p, x, q);
        field::lemma_small(0, q);
    } else {
        let u = (upto - 1) as nat;
        let c = a[u as int];
        let before = partial_product(a, b, u);
        let r = rotation(b, u as int);
        lemma_product_value(a, b, u, x, q);
        lemma_rotation(b, u, x, q);
        assert(p =~= poly_add(before, poly_scale(r, c)));
        field::lemma_eval_add(before, poly_scale(r, c), x);
        field::lemma_eval_scale(r, c, x);
        assert(a.take(upto as int) =~= a.take(u as int) + seq![c]);
        lemma_eval_concat(a.take(u as int), seq![c], x);
        assert(eval(seq![c], x) == c) by {
            assert(seq![c].drop_first() =~= Seq::<int>::empty());
            assert(eval(Seq::<int>::empty(), x) == 0);
        }
        let y = pow(x, u);
        field::lemma_cong_ops(c, c, eval(r, x), y * eb, q);
        let ea = eval(a.take(u as int), x);
        field::lemma_cong_ops(eval(before, x), ea * eb, c * eval(r, x), c * (y * eb), q);
        assert(ea * eb + c * (y * eb) == (ea + y * c) * eb) by (nonlinear_arith);
    }
}

/// The sum of the products of the values.
pub open spec fn dot_value(a: Seq<Coeffs>, b: Seq<Coeffs>, x: int, upto: nat) -> int
    decreases upto,
{
    if upto == 0 {
        0
    } else {
        dot_value(a, b, x, (upto - 1) as nat) + eval(a[upto - 1], x) * eval(b[upto - 1], x)
    }
}

/// The coefficients of a sum of products.
pub open spec fn dot_poly(a: Seq<Coeffs>, b: Seq<Coeffs>, upto: nat) -> Seq<int> {
    Seq::new(N as nat, |k: int| dot_at(a, b, k, upto))
}

proof fn lemma_dot_value(a: Seq<Coeffs>, b: Seq<Coeffs>, upto: nat, x: int, q: int)
    requires
        q > 0,
        upto <= a.len(),
        upto <= b.len(),
        forall|j: int| 0 <= j < a.len() ==> (#[trigger] a[j]).len() == N,
        forall|j: int| 0 <= j < b.len() ==> (#[trigger] b[j]).len() == N,
        cong(pow(x, N as nat), -1, q),
    ensures
        cong(eval(dot_poly(a, b, upto), x), dot_value(a, b, x, upto), q),
    decreases upto,
{
    let p = dot_poly(a, b, upto);
    if upto == 0 {
        assert forall|i: int| 0 <= i < p.len() implies #[trigger] p[i] % q == 0 by {
            field::lemma_small(0, q);
        }
        field::lemma_eval_zero(p, x, q);
        field::lemma_small(0, q);
    } else {
        let u = (upto - 1) as nat;
        let (s, t) = (a[u as int], b[u as int]);
        lemma_dot_value(a, b, u, x, q);
        lemma_product_value(s, t, N as nat, x, q);
        assert(s.take(N as int) =~= s);
        let m = partial_product(s, t, N as nat);
        assert(p =~= poly_add(dot_poly(a, b, u), m)) by {
            assert forall|k: int| 0 <= k < N implies #[trigger] p[k] == dot_poly(a, b, u)[k]
                + m[k] by {
                assert(product_at(s, t, k) == product_terms(s, t, k, N as nat));
            }
        }
        field::lemma_eval_add(dot_poly(a, b, u), m, x);
        field::lemma_cong_ops(
            eval(dot_poly(a, b, u), x),
            dot_value(a, b, x, u),
            eval(m, x),
            eval(s, x) * eval(t, x),
            q,
        );
    }
}

// ---------------------------------------------------------------
// The transform
// ---------------------------------------------------------------

/// The integers in a vector.
pub open spec fn words(v: Seq<u64>) -> Seq<int> {
    Seq::new(v.len(), |i: int| v[i] as int)
}

/// All entries are residues.
pub open spec fn reduced(v: Seq<u64>, q: int) -> bool {
    forall|i: int| 0 <= i < v.len() ==> #[trigger] v[i] < q
}

/// The largest modulus.
pub const LIMIT: u64 = 0x4000_0000_0000_0000;

fn mul_mod<const Q: u64>(a: u64, b: u64) -> (r: u64)
    requires
        1 < Q <= LIMIT,
        a < Q,
        b < Q,
    ensures
        r == (a as int * b as int) % (Q as int),
        r < Q,
{
    assert(a * b <= (Q - 1) * (Q - 1)) by (nonlinear_arith)
        requires
            a <= Q - 1,
            b <= Q - 1,
    ;
    assert((Q - 1) * (Q - 1) <= LIMIT * LIMIT) by (nonlinear_arith)
        requires
            0 <= Q - 1 <= LIMIT,
    ;
    if Q <= 0x1_0000_0000 {
        assert((Q - 1) * (Q - 1) <= u64::MAX) by (nonlinear_arith)
            requires
                0 <= Q - 1 < 0x1_0000_0000,
        ;
        (a * b) % Q
    } else {
        ((a as u128 * b as u128) % (Q as u128)) as u64
    }
}

fn add_mod<const Q: u64>(a: u64, b: u64) -> (r: u64)
    requires
        1 < Q <= LIMIT,
        a < Q,
        b < Q,
    ensures
        cong(r as int, a + b, Q as int),
        r < Q,
{
    let s: u64 = a + b;
    proof {
        field::lemma_cong_multiple(s as int, -1, Q as int);
    }
    if s >= Q {
        s - Q
    } else {
        s
    }
}

fn sub_mod<const Q: u64>(a: u64, b: u64) -> (r: u64)
    requires
        1 < Q <= LIMIT,
        a < Q,
        b < Q,
    ensures
        cong(r as int, a - b, Q as int),
        r < Q,
{
    proof {
        field::lemma_cong_multiple(a - b, 1, Q as int);
    }
    if a >= b {
        a - b
    } else {
        a + (Q - b)
    }
}

/// `pw` holds the powers of `psi`.
spec fn are_powers(pw: Seq<u64>, psi: int, q: int) -> bool {
    &&& pw.len() == 4097
    &&& reduced(pw, q)
    &&& forall|i: int| 0 <= i < pw.len() ==> cong(#[trigger] pw[i] as int, pow(psi, i as nat), q)
}

fn powers<const Q: u64>(psi: u64) -> (r: Vec<u64>)
    requires
        1 < Q <= LIMIT,
        psi < Q,
    ensures
        are_powers(r@, psi as int, Q as int),
{
    let mut out: Vec<u64> = Vec::with_capacity(4097);
    let mut v: u64 = 1;
    proof {
        lemma_pow0(psi as int);
    }
    for i in 0..4097usize
        invariant
            1 < Q <= LIMIT,
            psi < Q,
            v < Q,
            out.len() == i,
            cong(v as int, pow(psi as int, i as nat), Q as int),
            forall|k: int| 0 <= k < i ==> #[trigger] out@[k] < Q,
            forall|k: int|
                0 <= k < i ==> cong(
                    #[trigger] out@[k] as int,
                    pow(psi as int, k as nat),
                    Q as int,
                ),
    {
        out.push(v);
        let next: u64 = mul_mod::<Q>(v, psi);
        proof {
            let (p, q) = (psi as int, Q as int);
            field::lemma_cong_mod(v * psi, q);
            field::lemma_cong_ops(v as int, pow(p, i as nat), p, p, q);
            lemma_pow_adds(p, i as nat, 1);
            lemma_pow1(p);
        }
        v = next;
    }
    out
}

/// A part of a vector, as integers.
spec fn part(v: Seq<u64>, start: int, len: int) -> Seq<int> {
    Seq::new(len as nat, |i: int| v[start + i] as int)
}

/// Replaces coefficients by values at the points.
fn forward<const Q: u64>(
    v: &mut Vec<u64>,
    start: usize,
    len: usize,
    e: usize,
    pw: &Vec<u64>,
    Ghost(psi): Ghost<int>,
    Ghost(d): Ghost<nat>,
)
    requires
        1 < Q <= LIMIT,
        is_root(psi, Q as int),
        are_powers(pw@, psi, Q as int),
        d <= 11,
        len == span(d),
        e as nat % span(d) == 0,
        e < 4096,
        start + len <= old(v).len(),
        reduced(old(v)@, Q as int),
    ensures
        final(v).len() == old(v).len(),
        reduced(final(v)@, Q as int),
        forall|i: int|
            0 <= i < old(v).len() && !(start <= i < start + len) ==> #[trigger] final(v)@[i]
                == old(v)@[i],
        forall|i: int|
            0 <= i < len ==> cong(
                #[trigger] part(final(v)@, start as int, len as int)[i],
                eval(part(old(v)@, start as int, len as int), points(psi, e as nat, d)[i]),
                Q as int,
            ),
    decreases len,
{
    let ghost q = Q as int;
    let ghost a = part(v@, start as int, len as int);
    if len == 1 {
        proof {
            if d > 0 {
                lemma_span((d - 1) as nat);
            }
            assert(points(psi, e as nat, d).len() == 1);
            assert(a.drop_first() =~= Seq::<int>::empty());
            assert(eval(a.drop_first(), points(psi, e as nat, d)[0]) == 0);
        }
        return;
    }
    let h: usize = len / 2;
    let f: usize = e / 2;
    let ghost c = (d - 1) as nat;
    proof {
        if d == 0 {
            assert(false);
        }
        lemma_halves(e as nat, d);
        lemma_span(c);
        lemma_opposite(psi, f as nat, q);
    }
    let s: u64 = pw[f];
    let ghost before = v@;
    for i in 0..h
        invariant
            1 < Q <= LIMIT,
            q == Q as int,
            s < Q,
            len == 2 * h,
            start + len <= v.len(),
            v.len() == before.len(),
            reduced(v@, q),
            reduced(before, q),
            forall|k: int|
                0 <= k < before.len() && !(start <= k < start + i) && !(start + h <= k < start + h
                    + i) ==> #[trigger] v@[k] == before[k],
            forall|k: int|
                0 <= k < i ==> cong(
                    #[trigger] part(v@, start as int, h as int)[k],
                    before[start + k] + s * before[start + h + k],
                    q,
                ),
            forall|k: int|
                0 <= k < i ==> cong(
                    #[trigger] part(v@, start + h, h as int)[k],
                    before[start + k] - s * before[start + h + k],
                    q,
                ),
    {
        let lo: u64 = v[start + i];
        let hi: u64 = v[start + h + i];
        let p: u64 = mul_mod::<Q>(s, hi);
        let x: u64 = add_mod::<Q>(lo, p);
        let y: u64 = sub_mod::<Q>(lo, p);
        let ghost prev = v@;
        v.set(start + i, x);
        v.set(start + h + i, y);
        proof {
            field::lemma_cong_mod(s * hi, q);
            field::lemma_cong_ops(lo as int, lo as int, p as int, s * hi, q);
            assert forall|k: int| 0 <= k < i + 1 implies cong(
                #[trigger] part(v@, start as int, h as int)[k],
                before[start + k] + s * before[start + h + k],
                q,
            ) by {
                if k < i {
                    assert(part(v@, start as int, h as int)[k] == part(
                        prev,
                        start as int,
                        h as int,
                    )[k]);
                }
            }
            assert forall|k: int| 0 <= k < i + 1 implies cong(
                #[trigger] part(v@, start + h, h as int)[k],
                before[start + k] - s * before[start + h + k],
                q,
            ) by {
                if k < i {
                    assert(part(v@, start + h, h as int)[k] == part(prev, start + h, h as int)[k]);
                }
            }
        }
    }
    let ghost mixed = v@;
    forward::<Q>(v, start, h, f, pw, Ghost(psi), Ghost(c));
    let ghost mid = v@;
    forward::<Q>(v, start + h, h, f + N, pw, Ghost(psi), Ghost(c));
    proof {
        let left = points(psi, f as nat, c);
        let right = points(psi, f as nat + N as nat, c);
        let sr = pow(psi, f as nat);
        lemma_points(psi, f as nat, c, q);
        lemma_points(psi, f as nat + N as nat, c, q);
        let done = part(v@, start as int, len as int);
        assert forall|i: int| 0 <= i < len implies cong(
            #[trigger] done[i],
            eval(a, points(psi, e as nat, d)[i]),
            q,
        ) by {
            if i < h {
                let x = left[i];
                assert(points(psi, e as nat, d)[i] == x);
                assert(done[i] == part(mid, start as int, h as int)[i]);
                let l = part(mixed, start as int, h as int);
                lemma_butterfly(a, l, s as int, sr, q);
                lemma_eval_cong(l, folded(a, sr), x, q);
                lemma_folded(a, sr, x, h as nat, q);
            } else {
                let x = right[i - h];
                assert(points(psi, e as nat, d)[i] == x);
                assert(done[i] == part(v@, start + h, h as int)[i - h]);
                let r = part(mixed, start + h, h as int);
                assert(part(mid, start + h, h as int) =~= r);
                assert forall|k: int| 0 <= k < h implies cong(
                    #[trigger] r[k],
                    a[k] + (-s) * a[k + h],
                    q,
                ) by {
                    assert(a[k] == before[start + k] && a[k + h] == before[start + h + k]);
                    assert((-s) * a[k + h] == -(s * a[k + h])) by (nonlinear_arith);
                }
                field::lemma_cong_ops(0, 0, s as int, sr, q);
                lemma_butterfly(a, r, -s, -sr, q);
                lemma_eval_cong(r, folded(a, -sr), x, q);
                lemma_folded(a, -sr, x, h as nat, q);
            }
        }
    }
}

/// Folding with a residue of the root is folding with the root.
proof fn lemma_butterfly(a: Seq<int>, l: Seq<int>, s: int, t: int, q: int)
    requires
        q > 0,
        a.len() == 2 * l.len(),
        cong(s, t, q),
        forall|k: int| 0 <= k < l.len() ==> cong(#[trigger] l[k], a[k] + s * a[k + l.len()], q),
    ensures
        folded(a, t).len() == l.len(),
        forall|k: int| 0 <= k < l.len() ==> cong(#[trigger] l[k], folded(a, t)[k], q),
{
    assert forall|k: int| 0 <= k < l.len() implies cong(#[trigger] l[k], folded(a, t)[k], q) by {
        let y = a[k + l.len()];
        field::lemma_cong_ops(s, t, y, y, q);
        field::lemma_cong_ops(a[k], a[k], s * y, t * y, q);
    }
}

/// Replaces values at the points by coefficients.
fn inverse<const Q: u64>(
    v: &mut Vec<u64>,
    start: usize,
    len: usize,
    e: usize,
    pw: &Vec<u64>,
    Ghost(psi): Ghost<int>,
    Ghost(d): Ghost<nat>,
)
    requires
        1 < Q <= LIMIT,
        is_root(psi, Q as int),
        are_powers(pw@, psi, Q as int),
        d <= 11,
        len == span(d),
        e as nat % span(d) == 0,
        e < 4096,
        start + len <= old(v).len(),
        reduced(old(v)@, Q as int),
    ensures
        final(v).len() == old(v).len(),
        reduced(final(v)@, Q as int),
        forall|i: int|
            0 <= i < old(v).len() && !(start <= i < start + len) ==> #[trigger] final(v)@[i]
                == old(v)@[i],
        forall|i: int|
            0 <= i < len ==> cong(
                eval(part(final(v)@, start as int, len as int), points(psi, e as nat, d)[i]),
                #[trigger] part(old(v)@, start as int, len as int)[i],
                Q as int,
            ),
    decreases len,
{
    let ghost q = Q as int;
    let ghost a = part(v@, start as int, len as int);
    if len == 1 {
        proof {
            if d > 0 {
                lemma_span((d - 1) as nat);
            }
            assert(points(psi, e as nat, d).len() == 1);
            assert(a.drop_first() =~= Seq::<int>::empty());
            assert(eval(a.drop_first(), points(psi, e as nat, d)[0]) == 0);
        }
        return;
    }
    let h: usize = len / 2;
    let f: usize = e / 2;
    let ghost c = (d - 1) as nat;
    proof {
        if d == 0 {
            assert(false);
        }
        lemma_halves(e as nat, d);
        lemma_span(c);
        lemma_opposite(psi, f as nat, q);
    }
    inverse::<Q>(v, start, h, f, pw, Ghost(psi), Ghost(c));
    let ghost mid = v@;
    inverse::<Q>(v, start + h, h, f + N, pw, Ghost(psi), Ghost(c));
    let ghost before = v@;
    let s: u64 = pw[f];
    let t: u64 = pw[4096 - f];
    let half: u64 = (Q + 1) / 2;
    proof {
        lemma_odd(q);
        field::lemma_cong_multiple(1, 1, q);
        assert(cong(2 * half, 1, q));
        field::lemma_cong_ops(
            s as int,
            pow(psi, f as nat),
            t as int,
            pow(psi, (4096 - f) as nat),
            q,
        );
        assert(cong(s * t, 1, q));
    }
    let ht: u64 = mul_mod::<Q>(half, t);
    proof {
        field::lemma_cong_mod(half * t, q);
    }
    for i in 0..h
        invariant
            1 < Q <= LIMIT,
            q == Q as int,
            s < Q,
            half < Q,
            ht < Q,
            cong(2 * half, 1, q),
            cong(s * t, 1, q),
            cong(ht as int, half * t, q),
            len == 2 * h,
            start + len <= v.len(),
            v.len() == before.len(),
            reduced(v@, q),
            reduced(before, q),
            forall|k: int|
                0 <= k < before.len() && !(start <= k < start + i) && !(start + h <= k < start + h
                    + i) ==> #[trigger] v@[k] == before[k],
            forall|k: int|
                0 <= k < i ==> cong(
                    before[start + k] as int,
                    #[trigger] part(v@, start as int, h as int)[k] + s * v@[start + h + k],
                    q,
                ),
            forall|k: int|
                0 <= k < i ==> cong(
                    before[start + h + k] as int,
                    #[trigger] part(v@, start as int, h as int)[k] - s * v@[start + h + k],
                    q,
                ),
    {
        let l: u64 = v[start + i];
        let r: u64 = v[start + h + i];
        let sum: u64 = add_mod::<Q>(l, r);
        let diff: u64 = sub_mod::<Q>(l, r);
        let x: u64 = mul_mod::<Q>(sum, half);
        let y: u64 = mul_mod::<Q>(diff, ht);
        let ghost prev = v@;
        v.set(start + i, x);
        v.set(start + h + i, y);
        proof {
            field::lemma_cong_mod(sum * half, q);
            field::lemma_cong_mod(diff * ht, q);
            lemma_unfold(
                l as int,
                r as int,
                sum as int,
                diff as int,
                half as int,
                s as int,
                t as int,
                ht as int,
                x as int,
                y as int,
                q,
            );
            assert forall|k: int| 0 <= k < i + 1 implies cong(
                before[start + k] as int,
                #[trigger] part(v@, start as int, h as int)[k] + s * v@[start + h + k],
                q,
            ) by {
                if k < i {
                    assert(part(v@, start as int, h as int)[k] == part(
                        prev,
                        start as int,
                        h as int,
                    )[k]);
                }
            }
            assert forall|k: int| 0 <= k < i + 1 implies cong(
                before[start + h + k] as int,
                #[trigger] part(v@, start as int, h as int)[k] - s * v@[start + h + k],
                q,
            ) by {
                if k < i {
                    assert(part(v@, start as int, h as int)[k] == part(
                        prev,
                        start as int,
                        h as int,
                    )[k]);
                }
            }
        }
    }
    proof {
        let left = points(psi, f as nat, c);
        let right = points(psi, f as nat + N as nat, c);
        let sr = pow(psi, f as nat);
        lemma_points(psi, f as nat, c, q);
        lemma_points(psi, f as nat + N as nat, c, q);
        let done = part(v@, start as int, len as int);
        let l = part(before, start as int, h as int);
        let r = part(before, start + h, h as int);
        assert(l =~= part(mid, start as int, h as int));
        assert forall|k: int| 0 <= k < h implies cong(
            #[trigger] l[k],
            done[k] + s * done[k + h],
            q,
        ) by {
            assert(done[k] == part(v@, start as int, h as int)[k]);
            assert(done[k + h] == v@[start + h + k]);
        }
        assert forall|k: int| 0 <= k < h implies cong(
            #[trigger] r[k],
            done[k] + (-s) * done[k + h],
            q,
        ) by {
            assert(done[k] == part(v@, start as int, h as int)[k]);
            assert(done[k + h] == v@[start + h + k]);
            assert((-s) * done[k + h] == -(s * done[k + h])) by (nonlinear_arith);
        }
        field::lemma_cong_ops(0, 0, s as int, sr, q);
        lemma_butterfly(done, l, s as int, sr, q);
        lemma_butterfly(done, r, -s, -sr, q);
        assert forall|i: int| 0 <= i < len implies cong(
            eval(done, points(psi, e as nat, d)[i]),
            #[trigger] a[i],
            q,
        ) by {
            if i < h {
                let x = left[i];
                assert(points(psi, e as nat, d)[i] == x);
                lemma_eval_cong(l, folded(done, sr), x, q);
                lemma_folded(done, sr, x, h as nat, q);
                assert(a[i] == part(old(v)@, start as int, h as int)[i]);
            } else {
                let x = right[i - h];
                assert(points(psi, e as nat, d)[i] == x);
                lemma_eval_cong(r, folded(done, -sr), x, q);
                lemma_folded(done, -sr, x, h as nat, q);
                assert(a[i] == part(mid, start + h, h as int)[i - h]);
            }
        }
    }
}

proof fn lemma_odd(q: int)
    requires
        is_prime(q),
        q > 2,
    ensures
        q % 2 == 1,
{
    assert(q % 2 != 0);
}

/// The two halves of an unfolded pair give the pair back.
proof fn lemma_unfold(
    l: int,
    r: int,
    sum: int,
    diff: int,
    half: int,
    s: int,
    t: int,
    ht: int,
    x: int,
    y: int,
    q: int,
)
    requires
        q > 0,
        cong(sum, l + r, q),
        cong(diff, l - r, q),
        cong(2 * half, 1, q),
        cong(s * t, 1, q),
        cong(ht, half * t, q),
        cong(x, sum * half, q),
        cong(y, diff * ht, q),
    ensures
        cong(l, x + s * y, q),
        cong(r, x - s * y, q),
{
    field::lemma_cong_ops(sum, l + r, half, half, q);
    field::lemma_cong_ops(diff, l - r, ht, half * t, q);
    let a = (l + r) * half;
    let b = (l - r) * (half * t);
    assert(cong(x, a, q));
    assert(cong(y, b, q));
    field::lemma_cong_ops(s, s, y, b, q);
    let c = (l - r) * half;
    assert(s * b == c * (s * t)) by (nonlinear_arith)
        requires
            b == (l - r) * (half * t),
            c == (l - r) * half,
    ;
    field::lemma_cong_ops(c, c, s * t, 1, q);
    assert(c * 1 == c);
    assert(cong(s * y, c, q));
    field::lemma_cong_ops(x, a, s * y, c, q);
    assert(a + c == l * (2 * half)) by (nonlinear_arith)
        requires
            a == (l + r) * half,
            c == (l - r) * half,
    ;
    assert(a - c == r * (2 * half)) by (nonlinear_arith)
        requires
            a == (l + r) * half,
            c == (l - r) * half,
    ;
    field::lemma_cong_ops(l, l, 2 * half, 1, q);
    field::lemma_cong_ops(r, r, 2 * half, 1, q);
    assert(l * 1 == l && r * 1 == r);
}

/// Congruent factors have congruent products.
pub proof fn lemma_dot_cong(
    a: Seq<Coeffs>,
    b: Seq<Coeffs>,
    c: Seq<Coeffs>,
    d: Seq<Coeffs>,
    k: int,
    upto: nat,
    q: int,
)
    requires
        q > 0,
        0 <= k < N,
        upto <= a.len() == b.len() == c.len() == d.len(),
        forall|j: int| 0 <= j < a.len() ==> (#[trigger] a[j]).len() == N,
        forall|j: int| 0 <= j < b.len() ==> (#[trigger] b[j]).len() == N,
        forall|j: int| 0 <= j < a.len() ==> cong_poly(#[trigger] a[j], c[j], q),
        forall|j: int| 0 <= j < b.len() ==> cong_poly(#[trigger] b[j], d[j], q),
    ensures
        cong(dot_at(a, b, k, upto), dot_at(c, d, k, upto), q),
    decreases upto,
{
    if upto > 0 {
        let u = (upto - 1) as nat;
        let j = u as int;
        lemma_dot_cong(a, b, c, d, k, u, q);
        lemma_product_cong(a[j], b[j], c[j], d[j], k, N as nat, q);
        field::lemma_cong_ops(
            dot_at(a, b, k, u),
            dot_at(c, d, k, u),
            product_at(a[j], b[j], k),
            product_at(c[j], d[j], k),
            q,
        );
    }
}

/// A vector of residues per factor.
pub open spec fn residues(v: Seq<Vec<u64>>) -> Seq<Coeffs> {
    Seq::new(v.len(), |j: int| words(v[j]@))
}

/// `sum_j a[j] * b[j]` in the ring, as residues.
pub fn dot<const Q: u64>(psi: u64, a: &Vec<Vec<u64>>, b: &Vec<Vec<u64>>) -> (r: Vec<u64>)
    requires
        1 < Q <= LIMIT,
        psi < Q,
        is_root(psi as int, Q as int),
        a.len() == b.len(),
        forall|j: int| 0 <= j < a.len() ==> (#[trigger] a[j]).len() == N && reduced(a[j]@, Q as int),
        forall|j: int| 0 <= j < b.len() ==> (#[trigger] b[j]).len() == N && reduced(b[j]@, Q as int),
    ensures
        r.len() == N,
        forall|k: int|
            0 <= k < N ==> #[trigger] r[k] == dot_at(
                residues(a@),
                residues(b@),
                k,
                a.len() as nat,
            ) % (Q as int),
{
    let ghost q = Q as int;
    let ghost (ga, gb) = (residues(a@), residues(b@));
    let ghost xs = points(psi as int, N as nat, 11);
    proof {
        assert(span(11) == 2048) by {
            reveal_with_fuel(span, 12);
        }
        lemma_points(psi as int, N as nat, 11, q);
    }
    let pw: Vec<u64> = powers::<Q>(psi);
    let mut acc: Vec<u64> = Vec::with_capacity(N);
    for i in 0..N
        invariant
            acc.len() == i,
            Q > 1,
            forall|k: int| 0 <= k < i ==> #[trigger] acc@[k] == 0,
    {
        acc.push(0);
    }
    for j in 0..a.len()
        invariant
            1 < Q <= LIMIT,
            psi < Q,
            q == Q as int,
            is_root(psi as int, q),
            are_powers(pw@, psi as int, q),
            span(11) == 2048,
            xs == points(psi as int, N as nat, 11),
            ga == residues(a@),
            gb == residues(b@),
            a.len() == b.len(),
            acc.len() == N,
            reduced(acc@, q),
            forall|k: int| 0 <= k < a.len() ==> (#[trigger] a[k]).len() == N && reduced(a[k]@, q),
            forall|k: int| 0 <= k < b.len() ==> (#[trigger] b[k]).len() == N && reduced(b[k]@, q),
            forall|i: int|
                0 <= i < N ==> cong(
                    #[trigger] acc@[i] as int,
                    dot_value(ga, gb, xs[i], j as nat),
                    q,
                ),
    {
        let mut x: Vec<u64> = a[j].clone();
        let mut y: Vec<u64> = b[j].clone();
        assert(x@ =~= a[j as int]@);
        assert(y@ =~= b[j as int]@);
        let ghost (x0, y0) = (x@, y@);
        forward::<Q>(&mut x, 0, N, N, &pw, Ghost(psi as int), Ghost(11));
        forward::<Q>(&mut y, 0, N, N, &pw, Ghost(psi as int), Ghost(11));
        proof {
            assert(part(x0, 0, N as int) =~= ga[j as int]);
            assert(part(y0, 0, N as int) =~= gb[j as int]);
        }
        let ghost before = acc@;
        for i in 0..N
            invariant
                1 < Q <= LIMIT,
                q == Q as int,
                j < a.len(),
                x.len() == N,
                y.len() == N,
                acc.len() == N,
                before.len() == N,
                reduced(x@, q),
                reduced(y@, q),
                reduced(acc@, q),
                forall|k: int| i <= k < N ==> #[trigger] acc@[k] == before[k],
                forall|k: int|
                    0 <= k < N ==> cong(
                        #[trigger] part(x@, 0, N as int)[k],
                        eval(ga[j as int], xs[k]),
                        q,
                    ),
                forall|k: int|
                    0 <= k < N ==> cong(
                        #[trigger] part(y@, 0, N as int)[k],
                        eval(gb[j as int], xs[k]),
                        q,
                    ),
                forall|k: int|
                    0 <= k < N ==> cong(
                        #[trigger] before[k] as int,
                        dot_value(ga, gb, xs[k], j as nat),
                        q,
                    ),
                forall|k: int|
                    0 <= k < i ==> cong(
                        #[trigger] acc@[k] as int,
                        dot_value(ga, gb, xs[k], (j + 1) as nat),
                        q,
                    ),
        {
            let p: u64 = mul_mod::<Q>(x[i], y[i]);
            let sum: u64 = add_mod::<Q>(acc[i], p);
            proof {
                let z = xs[i as int];
                let (u, w) = (x@[i as int] as int, y@[i as int] as int);
                assert(part(x@, 0, N as int)[i as int] == u);
                assert(part(y@, 0, N as int)[i as int] == w);
                let (eu, ew) = (eval(ga[j as int], z), eval(gb[j as int], z));
                field::lemma_cong_ops(u, eu, w, ew, q);
                field::lemma_cong_mod(u * w, q);
                assert(acc@[i as int] == before[i as int]);
                field::lemma_cong_ops(
                    acc@[i as int] as int,
                    dot_value(ga, gb, z, j as nat),
                    p as int,
                    eu * ew,
                    q,
                );
            }
            acc.set(i, sum);
        }
    }
    let ghost values = acc@;
    inverse::<Q>(&mut acc, 0, N, N, &pw, Ghost(psi as int), Ghost(11));
    proof {
        lemma_agree(psi as int, ga, gb, a.len() as nat, values, acc@, q);
    }
    acc
}

/// Coefficients with the right values at all points are the right ones.
proof fn lemma_agree(
    psi: int,
    a: Seq<Coeffs>,
    b: Seq<Coeffs>,
    n: nat,
    values: Seq<u64>,
    out: Seq<u64>,
    q: int,
)
    requires
        is_root(psi, q),
        n == a.len() == b.len(),
        forall|j: int| 0 <= j < n ==> (#[trigger] a[j]).len() == N,
        forall|j: int| 0 <= j < n ==> (#[trigger] b[j]).len() == N,
        values.len() == N,
        out.len() == N,
        reduced(out, q),
        forall|i: int|
            0 <= i < N ==> cong(
                #[trigger] values[i] as int,
                dot_value(a, b, points(psi, N as nat, 11)[i], n),
                q,
            ),
        forall|i: int|
            0 <= i < N ==> cong(
                eval(part(out, 0, N as int), points(psi, N as nat, 11)[i]),
                #[trigger] part(values, 0, N as int)[i],
                q,
            ),
    ensures
        forall|k: int| 0 <= k < N ==> #[trigger] out[k] == dot_at(a, b, k, n) % q,
{
    let xs = points(psi, N as nat, 11);
    let got = part(out, 0, N as int);
    let want = dot_poly(a, b, n);
    let gap = poly_add(got, poly_scale(want, -1));
    assert(span(11) == 2048) by {
        reveal_with_fuel(span, 12);
    }
    lemma_points(psi, N as nat, 11, q);
    assert forall|i: int| 0 <= i < xs.len() implies eval(gap, #[trigger] xs[i]) % q == 0 by {
        let x = xs[i];
        assert(cong(pow(x, 2048), pow(psi, N as nat), q));
        lemma_dot_value(a, b, n, x, q);
        assert(part(values, 0, N as int)[i] == values[i]);
        field::lemma_eval_add(got, poly_scale(want, -1), x);
        field::lemma_eval_scale(want, -1, x);
        assert(cong(eval(got, x), eval(want, x), q));
        field::lemma_cong_diff(eval(got, x), eval(want, x), q);
        assert(eval(gap, x) == eval(got, x) - eval(want, x));
    }
    field::lemma_root_bound(gap, xs, q);
    assert forall|k: int| 0 <= k < N implies #[trigger] out[k] == dot_at(a, b, k, n) % q by {
        assert(gap[k] % q == 0);
        assert(gap[k] == got[k] - want[k]);
        field::lemma_cong_diff(got[k], want[k], q);
        field::lemma_small(out[k] as int, q);
    }
}

// ---------------------------------------------------------------
// The transform
// ---------------------------------------------------------------

/// `v` are the values of the residues `c` at the roots of `X^2048 + 1`.
pub open spec fn is_transform(psi: int, q: int, c: Coeffs, v: Coeffs) -> bool {
    &&& c.len() == N
    &&& v.len() == N
    &&& forall|i: int| 0 <= i < N ==> 0 <= #[trigger] c[i] < q
    &&& forall|i: int|
        0 <= i < N ==> cong(#[trigger] v[i], eval(c, points(psi, N as nat, 11)[i]), q)
}

/// The residues whose values are `v`.
pub open spec fn coefficients_of(psi: int, q: int, v: Coeffs) -> Coeffs {
    choose|c: Coeffs| is_transform(psi, q, c, v)
}

/// Polynomials with the same values have the same coefficients.
pub proof fn lemma_same_values(psi: int, q: int, c: Coeffs, d: Coeffs, v: Coeffs)
    requires
        is_root(psi, q),
        is_transform(psi, q, c, v),
        d.len() == N,
        forall|i: int|
            0 <= i < N ==> cong(#[trigger] v[i], eval(d, points(psi, N as nat, 11)[i]), q),
    ensures
        cong_poly(c, d, q),
{
    let xs = points(psi, N as nat, 11);
    let gap = poly_add(c, poly_scale(d, -1));
    assert(span(11) == 2048) by {
        reveal_with_fuel(span, 12);
    }
    lemma_points(psi, N as nat, 11, q);
    assert forall|i: int| 0 <= i < xs.len() implies eval(gap, #[trigger] xs[i]) % q == 0 by {
        let x = xs[i];
        assert(cong(v[i], eval(c, xs[i]), q));
        field::lemma_eval_add(c, poly_scale(d, -1), x);
        field::lemma_eval_scale(d, -1, x);
        field::lemma_cong_diff(eval(c, x), eval(d, x), q);
        assert(eval(gap, x) == eval(c, x) - eval(d, x));
    }
    field::lemma_root_bound(gap, xs, q);
    assert forall|k: int| 0 <= k < c.len() implies cong(#[trigger] c[k], d[k], q) by {
        assert(gap[k] % q == 0);
        assert(gap[k] == c[k] - d[k]);
        field::lemma_cong_diff(c[k], d[k], q);
    }
}

/// A transform determines what it is the transform of.
pub proof fn lemma_coefficients(psi: int, q: int, c: Coeffs, v: Coeffs)
    requires
        is_root(psi, q),
        is_transform(psi, q, c, v),
    ensures
        coefficients_of(psi, q, v) == c,
{
    let d = coefficients_of(psi, q, v);
    assert(is_transform(psi, q, d, v));
    lemma_same_values(psi, q, c, d, v);
    assert forall|k: int| 0 <= k < N implies #[trigger] c[k] == d[k] by {
        assert(cong(c[k], d[k], q));
        assert(0 <= d[k] < q);
        field::lemma_cong_close(c[k], d[k], q);
    }
    assert(c =~= d);
}

/// Any values are those of some residues.
pub proof fn lemma_has_coefficients(psi: int, q: int, v: Coeffs)
    requires
        is_root(psi, q),
        v.len() == N,
    ensures
        is_transform(psi, q, coefficients_of(psi, q, v), v),
{
    let xs = points(psi, N as nat, 11);
    assert(span(11) == 2048) by {
        reveal_with_fuel(span, 12);
    }
    lemma_points(psi, N as nat, 11, q);
    let p = field::lemma_interpolate_is_poly(xs, v, q);
    let zeros = Seq::new(N as nat, |i: int| 0int);
    let full = poly_add(p, zeros);
    let c = Seq::new(N as nat, |i: int| full[i] % q);
    assert forall|i: int| 0 <= i < N implies 0 <= #[trigger] c[i] < q by {
        vstd::arithmetic::div_mod::lemma_mod_bound(full[i], q);
    }
    assert forall|i: int| 0 <= i < N implies cong(#[trigger] v[i], eval(c, xs[i]), q) by {
        let x = xs[i];
        field::lemma_interpolate_at_point(xs, v, i, q);
        field::lemma_eval_add(p, zeros, x);
        field::lemma_small(0, q);
        field::lemma_eval_zero(zeros, x, q);
        assert forall|k: int| 0 <= k < c.len() implies cong(#[trigger] c[k], full[k], q) by {
            field::lemma_cong_mod(full[k], q);
        }
        lemma_eval_cong(c, full, x, q);
        field::lemma_cong_ops(eval(p, x), eval(p, x), eval(zeros, x), 0, q);
    }
    assert(is_transform(psi, q, c, v));
}

/// The values of a sum are the sums of the values.
pub proof fn law_transform_is_linear(
    psi: int,
    q: int,
    a: Coeffs,
    b: Coeffs,
    u: Coeffs,
    v: Coeffs,
    w: Coeffs,
)
    requires
        q > 0,
        is_transform(psi, q, a, u),
        is_transform(psi, q, b, v),
        w.len() == N,
        forall|i: int| 0 <= i < N ==> cong(#[trigger] w[i], u[i] + v[i], q),
    ensures
        is_transform(psi, q, Seq::new(N as nat, |i: int| (a[i] + b[i]) % q), w),
{
    let c = Seq::new(N as nat, |i: int| (a[i] + b[i]) % q);
    let s = poly_add(a, b);
    assert forall|i: int| 0 <= i < N implies 0 <= #[trigger] c[i] < q by {
        vstd::arithmetic::div_mod::lemma_mod_bound(a[i] + b[i], q);
    }
    assert forall|i: int| 0 <= i < N implies cong(
        #[trigger] w[i],
        eval(c, points(psi, N as nat, 11)[i]),
        q,
    ) by {
        let x = points(psi, N as nat, 11)[i];
        assert(cong(u[i], eval(a, x), q));
        assert(cong(v[i], eval(b, x), q));
        field::lemma_cong_ops(u[i], eval(a, x), v[i], eval(b, x), q);
        field::lemma_eval_add(a, b, x);
        assert forall|k: int| 0 <= k < c.len() implies cong(#[trigger] c[k], s[k], q) by {
            field::lemma_cong_mod(a[k] + b[k], q);
        }
        lemma_eval_cong(c, s, x, q);
    }
}

/// The values of a product in the ring are the products of the values.
pub proof fn law_product_is_pointwise(
    psi: int,
    q: int,
    a: Coeffs,
    b: Coeffs,
    u: Coeffs,
    v: Coeffs,
    w: Coeffs,
)
    requires
        is_root(psi, q),
        is_transform(psi, q, a, u),
        is_transform(psi, q, b, v),
        w.len() == N,
        forall|i: int| 0 <= i < N ==> cong(#[trigger] w[i], u[i] * v[i], q),
    ensures
        is_transform(psi, q, Seq::new(N as nat, |i: int| product_at(a, b, i) % q), w),
{
    let c = Seq::new(N as nat, |i: int| product_at(a, b, i) % q);
    let s = partial_product(a, b, N as nat);
    let xs = points(psi, N as nat, 11);
    assert(span(11) == 2048) by {
        reveal_with_fuel(span, 12);
    }
    lemma_points(psi, N as nat, 11, q);
    assert forall|i: int| 0 <= i < N implies 0 <= #[trigger] c[i] < q by {
        vstd::arithmetic::div_mod::lemma_mod_bound(product_at(a, b, i), q);
    }
    assert forall|i: int| 0 <= i < N implies cong(#[trigger] w[i], eval(c, xs[i]), q) by {
        let x = xs[i];
        assert(cong(pow(x, 2048), pow(psi, N as nat), q));
        lemma_product_value(a, b, N as nat, x, q);
        assert(a.take(N as int) =~= a);
        assert(cong(u[i], eval(a, x), q));
        assert(cong(v[i], eval(b, x), q));
        field::lemma_cong_ops(u[i], eval(a, x), v[i], eval(b, x), q);
        assert forall|k: int| 0 <= k < c.len() implies cong(#[trigger] c[k], s[k], q) by {
            field::lemma_cong_mod(product_at(a, b, k), q);
            assert(product_at(a, b, k) == product_terms(a, b, k, N as nat));
        }
        lemma_eval_cong(c, s, x, q);
    }
}

fn vector_of(a: &[u64; N]) -> (r: Vec<u64>)
    ensures
        r@ == a@,
{
    let mut r: Vec<u64> = Vec::with_capacity(N);
    for i in 0..N
        invariant
            r@ == a@.take(i as int),
    {
        r.push(a[i]);
        assert(r@ =~= a@.take(i + 1));
    }
    assert(r@ =~= a@);
    r
}

fn array_of(v: &Vec<u64>) -> (r: [u64; N])
    requires
        v.len() == N,
    ensures
        r@ == v@,
{
    let mut r: [u64; N] = [0u64; N];
    for i in 0..N
        invariant
            v.len() == N,
            forall|k: int| 0 <= k < i ==> #[trigger] r@[k] == v@[k],
    {
        r[i] = v[i];
    }
    assert(r@ =~= v@);
    r
}

/// The values of residues.
pub fn transform<const Q: u64>(psi: u64, c: &[u64; N]) -> (r: [u64; N])
    requires
        1 < Q <= LIMIT,
        psi < Q,
        is_root(psi as int, Q as int),
        reduced(c@, Q as int),
    ensures
        reduced(r@, Q as int),
        is_transform(psi as int, Q as int, words(c@), words(r@)),
{
    let pw: Vec<u64> = powers::<Q>(psi);
    let mut v: Vec<u64> = vector_of(c);
    proof {
        assert(span(11) == 2048) by {
            reveal_with_fuel(span, 12);
        }
        assert(part(v@, 0, N as int) =~= words(c@));
    }
    forward::<Q>(&mut v, 0, N, N, &pw, Ghost(psi as int), Ghost(11));
    proof {
        assert(part(v@, 0, N as int) =~= words(v@));
        assert forall|i: int| 0 <= i < N implies cong(
            #[trigger] words(v@)[i],
            eval(words(c@), points(psi as int, N as nat, 11)[i]),
            Q as int,
        ) by {
            assert(part(v@, 0, N as int)[i] == words(v@)[i]);
        }
    }
    array_of(&v)
}

/// The residues that have these values.
pub fn restore<const Q: u64>(psi: u64, v: &[u64; N]) -> (r: [u64; N])
    requires
        1 < Q <= LIMIT,
        psi < Q,
        is_root(psi as int, Q as int),
        reduced(v@, Q as int),
    ensures
        reduced(r@, Q as int),
        is_transform(psi as int, Q as int, words(r@), words(v@)),
{
    let pw: Vec<u64> = powers::<Q>(psi);
    let mut c: Vec<u64> = vector_of(v);
    proof {
        assert(span(11) == 2048) by {
            reveal_with_fuel(span, 12);
        }
        assert(part(c@, 0, N as int) =~= words(v@));
    }
    inverse::<Q>(&mut c, 0, N, N, &pw, Ghost(psi as int), Ghost(11));
    proof {
        assert(part(c@, 0, N as int) =~= words(c@));
        assert forall|i: int| 0 <= i < N implies cong(
            #[trigger] words(v@)[i],
            eval(words(c@), points(psi as int, N as nat, 11)[i]),
            Q as int,
        ) by {
            assert(part(v@, 0, N as int)[i] == words(v@)[i]);
        }
    }
    array_of(&c)
}

/// Adds up products, value by value.
pub fn pointwise_dot<const Q: u64>(a: &[u64; N], b: &[u64; N], acc: &[u64; N]) -> (r: [u64; N])
    requires
        1 < Q <= LIMIT,
        reduced(a@, Q as int),
        reduced(b@, Q as int),
        reduced(acc@, Q as int),
    ensures
        reduced(r@, Q as int),
        forall|i: int|
            0 <= i < N ==> #[trigger] r@[i] == (acc@[i] + a@[i] * b@[i]) % (Q as int),
{
    let mut r: [u64; N] = [0u64; N];
    for i in 0..N
        invariant
            1 < Q <= LIMIT,
            reduced(a@, Q as int),
            reduced(b@, Q as int),
            reduced(acc@, Q as int),
            forall|k: int|
                0 <= k < i ==> #[trigger] r@[k] == (acc@[k] + a@[k] * b@[k]) % (Q as int) && r@[k]
                    < Q,
    {
        assert(a@[i as int] < Q && b@[i as int] < Q && acc@[i as int] < Q);
        let p: u64 = mul_mod::<Q>(a[i], b[i]);
        let s: u64 = add_mod::<Q>(acc[i], p);
        proof {
            let (x, y, q) = (acc@[i as int] as int, a@[i as int] * b@[i as int], Q as int);
            field::lemma_cong_mod(y, q);
            field::lemma_cong_ops(x, x, y % q, y, q);
            field::lemma_small(s as int, q);
        }
        r[i] = s;
    }
    r
}

} // verus!
