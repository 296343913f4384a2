//! Polynomials over a prime field, coefficients by ascending degree.

use crate::field::{
    self, cong, distinct_mod, eval, is_prime, lemma_eval_add, lemma_eval_scale, lemma_eval_shift,
    lemma_prime_divides, lemma_root_bound, poly_add, poly_scale, poly_shift,
};
use crate::fp::Fp;
use vstd::arithmetic::power::{lemma_pow0, lemma_pow1, lemma_pow_adds, pow};
use vstd::prelude::*;

verus! {

/// Coefficients as integers.
pub open spec fn ints(v: Seq<u64>) -> Seq<int> {
    v.map(|_i: int, x: u64| x as int)
}

/// The value of a coefficient vector at `x`.
pub open spec fn val(v: Seq<u64>, x: int) -> int {
    eval(ints(v), x)
}

/// Every coefficient is a residue.
pub open spec fn canon(v: Seq<u64>, p: u64) -> bool {
    forall|i: int| 0 <= i < v.len() ==> #[trigger] v[i] < p
}

/// No leading zero.
pub open spec fn trimmed(v: Seq<u64>) -> bool {
    v.len() == 0 || v[v.len() - 1] != 0
}

/// Residues without a leading zero.
pub open spec fn is_poly(v: Seq<u64>, p: u64) -> bool {
    canon(v, p) && trimmed(v)
}

/// Longest polynomial whose products can be accumulated.
pub const MAX_LEN: usize = 0x400_0000;

// ---------------------------------------------------------------
// Values
// ---------------------------------------------------------------

/// One more coefficient.
pub proof fn lemma_eval_push(c: Seq<int>, a: int, x: int)
    ensures
        eval(c.push(a), x) == eval(c, x) + a * pow(x, c.len()),
    decreases c.len(),
{
    let d = c.push(a);
    if c.len() == 0 {
        lemma_pow0(x);
        assert(d.drop_first() =~= Seq::<int>::empty());
        assert(eval(d.drop_first(), x) == 0);
        assert(x * 0 == 0);
    } else {
        let t = c.drop_first();
        lemma_eval_push(t, a, x);
        assert(d.drop_first() =~= t.push(a));
        lemma_pow_adds(x, 1, t.len());
        lemma_pow1(x);
        let (e, q) = (eval(t, x), pow(x, t.len()));
        assert(x * (e + a * q) == x * e + a * (x * q)) by (nonlinear_arith);
    }
}

/// Changing one coefficient.
pub proof fn lemma_eval_update(c: Seq<int>, k: int, a: int, x: int)
    requires
        0 <= k < c.len(),
    ensures
        eval(c.update(k, a), x) == eval(c, x) + (a - c[k]) * pow(x, k as nat),
    decreases c.len(),
{
    let n = c.len() - 1;
    let low = c.drop_last();
    assert(c =~= low.push(c[n]));
    lemma_eval_push(low, c[n], x);
    if k == n {
        assert(c.update(k, a) =~= low.push(a));
        lemma_eval_push(low, a, x);
        let q = pow(x, low.len());
        assert((a - c[n]) * q == a * q - c[n] * q) by (nonlinear_arith);
    } else {
        lemma_eval_update(low, k, a, x);
        assert(c.update(k, a) =~= low.update(k, a).push(c[n]));
        lemma_eval_push(low.update(k, a), c[n], x);
    }
}

/// The value of a longer prefix.
pub proof fn lemma_val_take(v: Seq<u64>, i: int, x: int)
    requires
        0 <= i < v.len(),
    ensures
        val(v.take(i + 1), x) == val(v.take(i), x) + v[i] * pow(x, i as nat),
{
    assert(ints(v.take(i + 1)) =~= ints(v.take(i)).push(v[i] as int));
    lemma_eval_push(ints(v.take(i)), v[i] as int, x);
}

/// Values of zero coefficients are zero.
pub proof fn lemma_val_zeros(v: Seq<u64>, x: int)
    requires
        forall|i: int| 0 <= i < v.len() ==> #[trigger] v[i] == 0,
    ensures
        val(v, x) == 0,
    decreases v.len(),
{
    if v.len() > 0 {
        let low = v.drop_last();
        assert forall|i: int| 0 <= i < low.len() implies #[trigger] low[i] == 0 by {
            assert(v[i] == 0);
        }
        lemma_val_zeros(low, x);
        assert(v.take(v.len() as int) =~= v);
        assert(v.take(v.len() - 1) =~= low);
        lemma_val_take(v, v.len() - 1, x);
        assert(v[v.len() - 1] == 0);
        assert(0 * pow(x, low.len()) == 0);
    }
}

/// Congruent coefficients give congruent values.
pub proof fn lemma_coeffs_cong(c: Seq<int>, d: Seq<int>, x: int, p: int)
    requires
        p > 0,
        c.len() == d.len(),
        forall|i: int| 0 <= i < c.len() ==> cong(#[trigger] c[i], d[i], p),
    ensures
        cong(eval(c, x), eval(d, x), p),
    decreases c.len(),
{
    if c.len() > 0 {
        let (s, t) = (c.drop_first(), d.drop_first());
        assert forall|i: int| 0 <= i < s.len() implies cong(#[trigger] s[i], t[i], p) by {
            assert(cong(c[i + 1], d[i + 1], p));
        }
        lemma_coeffs_cong(s, t, x, p);
        field::lemma_cong_ops(x, x, eval(s, x), eval(t, x), p);
        assert(cong(c[0], d[0], p));
        field::lemma_cong_ops(c[0], d[0], x * eval(s, x), x * eval(t, x), p);
    }
}

/// A leading one makes a polynomial nonzero; more roots than degree cannot be.
pub proof fn lemma_few_roots(c: Seq<int>, roots: Seq<int>, p: int)
    requires
        is_prime(p),
        c.len() > 0,
        c[c.len() - 1] % p != 0,
        distinct_mod(roots, p),
        forall|i: int| 0 <= i < roots.len() ==> eval(c, #[trigger] roots[i]) % p == 0,
    ensures
        roots.len() < c.len(),
{
    if roots.len() >= c.len() {
        lemma_root_bound(c, roots, p);
        assert(c[c.len() - 1] % p == 0);
    }
}

// ---------------------------------------------------------------
// Basic operations
// ---------------------------------------------------------------

/// Drops leading zeros.
pub fn trim(v: Vec<u64>) -> (r: Vec<u64>)
    ensures
        trimmed(r@),
        r.len() <= v.len(),
        r@ == v@.take(r.len() as int),
        forall|i: int| r.len() <= i < v.len() ==> v[i] == 0,
        forall|x: int| #[trigger] val(r@, x) == val(v@, x),
        trimmed(v@) ==> r@ == v@,
{
    let mut r: Vec<u64> = v;
    let ghost start = v@;
    assert(start.take(start.len() as int) =~= start);
    while r.len() > 0 && r[r.len() - 1] == 0
        invariant
            r.len() <= start.len(),
            r@ == start.take(r.len() as int),
            forall|i: int| r.len() <= i < start.len() ==> start[i] == 0,
            forall|x: int| #[trigger] val(r@, x) == val(start, x),
            trimmed(start) ==> r@ == start,
        decreases r.len(),
    {
        let n: usize = r.len() - 1;
        let ghost before = r@;
        r.truncate(n);
        proof {
            assert(r@ =~= start.take(n as int));
            assert forall|x: int| #[trigger] val(r@, x) == val(start, x) by {
                lemma_val_take(start, n as int, x);
                assert(val(before, x) == val(start, x));
                assert(0 * pow(x, n as nat) == 0);
            }
        }
    }
    r
}

fn copy_poly(v: &Vec<u64>) -> (r: Vec<u64>)
    ensures
        r@ == v@,
{
    let mut out: Vec<u64> = Vec::with_capacity(v.len());
    for i in 0..v.len()
        invariant
            out@ == v@.take(i as int),
    {
        out.push(v[i]);
        assert(out@ =~= v@.take(i + 1));
    }
    assert(v@.take(v.len() as int) =~= v@);
    out
}

/// `a - b`.
pub fn poly_sub(a: &Vec<u64>, b: &Vec<u64>, f: Fp) -> (r: Vec<u64>)
    requires
        f.wf(),
        canon(a@, f.p),
        canon(b@, f.p),
    ensures
        is_poly(r@, f.p),
        r.len() <= a.len() || r.len() <= b.len(),
        forall|x: int| cong(#[trigger] val(r@, x), val(a@, x) - val(b@, x), f.p as int),
{
    let n: usize = if a.len() >= b.len() {
        a.len()
    } else {
        b.len()
    };
    let mut out: Vec<u64> = Vec::with_capacity(n);
    for i in 0..n
        invariant
            f.wf(),
            canon(a@, f.p),
            canon(b@, f.p),
            n == (if a.len() >= b.len() {
                a.len()
            } else {
                b.len()
            }),
            out.len() == i,
            canon(out@, f.p),
            forall|k: int|
                0 <= k < i ==> #[trigger] out[k] == (field::coef(ints(a@), k) - field::coef(
                    ints(b@),
                    k,
                )) % (f.p as int),
    {
        let x: u64 = if i < a.len() {
            a[i]
        } else {
            0
        };
        let y: u64 = if i < b.len() {
            b[i]
        } else {
            0
        };
        let d: u64 = f.sub(x, y);
        out.push(d);
    }
    proof {
        let p = f.p as int;
        let (ai, bi) = (ints(a@), ints(b@));
        let diff = poly_add(ai, poly_scale(bi, -1));
        assert forall|x: int| cong(#[trigger] val(out@, x), val(a@, x) - val(b@, x), p) by {
            lemma_eval_add(ai, poly_scale(bi, -1), x);
            lemma_eval_scale(bi, -1, x);
            assert forall|k: int| 0 <= k < ints(out@).len() implies cong(
                #[trigger] ints(out@)[k],
                diff[k],
                p,
            ) by {
                assert(out[k] == (field::coef(ai, k) - field::coef(bi, k)) % p);
                field::lemma_cong_mod(field::coef(ai, k) - field::coef(bi, k), p);
            }
            lemma_coeffs_cong(ints(out@), diff, x, p);
        }
    }
    let r: Vec<u64> = trim(out);
    assert(canon(r@, f.p)) by {
        assert forall|i: int| 0 <= i < r.len() implies #[trigger] r@[i] < f.p by {
            assert(r@[i] == out@[i]);
        }
    }
    r
}

/// `a * b`, accumulating raw products and reducing once per coefficient.
pub fn poly_mul(a: &Vec<u64>, b: &Vec<u64>, f: Fp) -> (r: Vec<u64>)
    requires
        f.wf(),
        f.p <= 0x10_0000_0000,
        canon(a@, f.p),
        canon(b@, f.p),
        a.len() <= MAX_LEN,
        b.len() <= MAX_LEN,
    ensures
        is_poly(r@, f.p),
        r.len() <= a.len() + b.len(),
        forall|x: int| cong(#[trigger] val(r@, x), val(a@, x) * val(b@, x), f.p as int),
{
    let ghost p = f.p as int;
    if a.len() == 0 || b.len() == 0 {
        let r: Vec<u64> = Vec::new();
        proof {
            assert forall|x: int| cong(#[trigger] val(r@, x), val(a@, x) * val(b@, x), p) by {
                assert(ints(r@) =~= Seq::<int>::empty());
                if a.len() == 0 {
                    assert(ints(a@) =~= Seq::<int>::empty());
                    assert(0 * val(b@, x) == 0);
                } else {
                    assert(ints(b@) =~= Seq::<int>::empty());
                    assert(val(a@, x) * 0 == 0);
                }
            }
        }
        return r;
    }
    let n: usize = a.len() + b.len() - 1;
    let mut acc: Vec<u128> = Vec::with_capacity(n);
    for i in 0..n
        invariant
            acc.len() == i,
            forall|k: int| 0 <= k < i ==> #[trigger] acc[k] == 0,
    {
        acc.push(0);
    }
    proof {
        assert forall|x: int| #[trigger] eval(wide_ints(acc@), x) == val(a@.take(0), x) * val(
            b@,
            x,
        ) by {
            lemma_wide_zero(acc@, x);
            assert(ints(a@.take(0)) =~= Seq::<int>::empty());
            assert(0 * val(b@, x) == 0);
        }
    }
    for i in 0..a.len()
        invariant
            f.wf(),
            f.p <= 0x10_0000_0000,
            canon(a@, f.p),
            canon(b@, f.p),
            a.len() <= MAX_LEN,
            b.len() <= MAX_LEN,
            n == a.len() + b.len() - 1,
            acc.len() == n,
            forall|k: int| 0 <= k < n ==> #[trigger] acc[k] <= i * 0x100_0000_0000_0000_0000,
            forall|x: int| #[trigger]
                eval(wide_ints(acc@), x) == val(a@.take(i as int), x) * val(b@, x),
    {
        let w: u128 = a[i] as u128;
        assert(a@[i as int] < f.p);
        let ghost start = acc@;
        proof {
            assert forall|x: int| #[trigger] eval(wide_ints(acc@), x) == eval(wide_ints(start), x)
                + w * (pow(x, i as nat) * val(b@.take(0), x)) by {
                assert(ints(b@.take(0)) =~= Seq::<int>::empty());
                assert(pow(x, i as nat) * 0 == 0);
                assert(w * 0 == 0);
            }
        }
        for j in 0..b.len()
            invariant
                f.p <= 0x10_0000_0000,
                canon(b@, f.p),
                w < f.p,
                i < a.len(),
                a.len() <= MAX_LEN,
                b.len() <= MAX_LEN,
                n == a.len() + b.len() - 1,
                acc.len() == n,
                forall|k: int|
                    i + j <= k < n ==> #[trigger] acc[k] <= i * 0x100_0000_0000_0000_0000,
                forall|k: int|
                    0 <= k < n ==> #[trigger] acc[k] <= (i + 1) * 0x100_0000_0000_0000_0000,
                forall|x: int| #[trigger]
                    eval(wide_ints(acc@), x) == eval(wide_ints(start), x) + w * (pow(x, i as nat)
                        * val(b@.take(j as int), x)),
        {
            let y: u128 = b[j] as u128;
            assert(b@[j as int] < f.p);
            assert(w * y <= 0x10_0000_0000 * 0x10_0000_0000) by (nonlinear_arith)
                requires
                    w <= 0x10_0000_0000,
                    y <= 0x10_0000_0000,
            ;
            let ghost before = acc@;
            let k: usize = i + j;
            assert(before[k as int] <= i * 0x100_0000_0000_0000_0000);
            let next: u128 = acc[k] + w * y;
            acc.set(k, next);
            proof {
                assert forall|x: int| #[trigger] eval(wide_ints(acc@), x) == eval(
                    wide_ints(start),
                    x,
                ) + w * (pow(x, i as nat) * val(b@.take(j + 1), x)) by {
                    assert(wide_ints(acc@) =~= wide_ints(before).update(k as int, next as int));
                    lemma_eval_update(wide_ints(before), k as int, next as int, x);
                    assert(eval(wide_ints(before), x) == eval(wide_ints(start), x) + w * (pow(
                        x,
                        i as nat,
                    ) * val(b@.take(j as int), x)));
                    lemma_val_take(b@, j as int, x);
                    lemma_pow_adds(x, i as nat, j as nat);
                    let (pi, pj, vb) = (
                        pow(x, i as nat),
                        pow(x, j as nat),
                        val(b@.take(j as int), x),
                    );
                    let (wi, yi) = (w as int, y as int);
                    assert(wi * (pi * (vb + yi * pj)) == wi * (pi * vb) + (wi * yi) * (pi * pj))
                        by (nonlinear_arith);
                }
            }
        }
        proof {
            assert forall|x: int| #[trigger] eval(wide_ints(acc@), x) == val(a@.take(i + 1), x)
                * val(b@, x) by {
                assert(b@.take(b.len() as int) =~= b@);
                lemma_val_take(a@, i as int, x);
                assert(eval(wide_ints(start), x) == val(a@.take(i as int), x) * val(b@, x));
                let (va, vb, pi, wi) = (
                    val(a@.take(i as int), x),
                    val(b@, x),
                    pow(x, i as nat),
                    w as int,
                );
                assert((va + wi * pi) * vb == va * vb + wi * (pi * vb)) by (nonlinear_arith);
            }
        }
    }
    let mut out: Vec<u64> = Vec::with_capacity(n);
    for k in 0..n
        invariant
            f.wf(),
            acc.len() == n,
            out.len() == k,
            canon(out@, f.p),
            forall|t: int| 0 <= t < k ==> #[trigger] out[t] == acc[t] as int % (f.p as int),
    {
        out.push(f.reduce_wide(acc[k]));
    }
    proof {
        assert(a@.take(a.len() as int) =~= a@);
        assert forall|x: int| cong(#[trigger] val(out@, x), val(a@, x) * val(b@, x), p) by {
            assert forall|t: int| 0 <= t < ints(out@).len() implies cong(
                #[trigger] ints(out@)[t],
                wide_ints(acc@)[t],
                p,
            ) by {
                assert(out[t] == acc[t] as int % p);
                field::lemma_cong_mod(acc[t] as int, p);
            }
            lemma_coeffs_cong(ints(out@), wide_ints(acc@), x, p);
            assert(eval(wide_ints(acc@), x) == val(a@.take(a.len() as int), x) * val(b@, x));
        }
    }
    let r: Vec<u64> = trim(out);
    assert(canon(r@, f.p)) by {
        assert forall|i: int| 0 <= i < r.len() implies #[trigger] r@[i] < f.p by {
            assert(r@[i] == out@[i]);
        }
    }
    r
}

/// Accumulators as integers.
pub open spec fn wide_ints(v: Seq<u128>) -> Seq<int> {
    v.map(|_i: int, x: u128| x as int)
}

proof fn lemma_wide_zero(v: Seq<u128>, x: int)
    requires
        forall|i: int| 0 <= i < v.len() ==> #[trigger] v[i] == 0,
    ensures
        eval(wide_ints(v), x) == 0,
    decreases v.len(),
{
    if v.len() > 0 {
        let low = v.drop_last();
        assert forall|i: int| 0 <= i < low.len() implies #[trigger] low[i] == 0 by {
            assert(v[i] == 0);
        }
        lemma_wide_zero(low, x);
        assert(wide_ints(v) =~= wide_ints(low).push(v[v.len() - 1] as int));
        assert(v[v.len() - 1] == 0);
        lemma_eval_push(wide_ints(low), 0, x);
        assert(0 * pow(x, wide_ints(low).len()) == 0);
    }
}

// ---------------------------------------------------------------
// Division
// ---------------------------------------------------------------

/// `a == q * b + r` at every point.
pub open spec fn divides_with(
    a: Seq<u64>,
    b: Seq<u64>,
    q: Seq<u64>,
    r: Seq<u64>,
    p: int,
) -> bool {
    forall|x: int| cong(#[trigger] val(a, x), val(q, x) * val(b, x) + val(r, x), p)
}

/// Quotient and remainder.
pub fn poly_divmod(a: &Vec<u64>, b: &Vec<u64>, f: Fp) -> (r: (Vec<u64>, Vec<u64>))
    requires
        f.wf(),
        is_prime(f.p as int),
        is_poly(a@, f.p),
        is_poly(b@, f.p),
        b.len() > 0,
    ensures
        is_poly(r.0@, f.p),
        is_poly(r.1@, f.p),
        r.1.len() < b.len(),
        r.1.len() <= a.len(),
        a.len() < b.len() ==> r.0.len() == 0,
        a.len() >= b.len() ==> r.0.len() <= a.len() - b.len() + 1,
        divides_with(a@, b@, r.0@, r.1@, f.p as int),
        a.len() >= b.len() && a[a.len() - 1] == 1 && b[b.len() - 1] == 1 ==> r.0.len() == a.len()
            - b.len() + 1 && r.0[r.0.len() - 1] == 1,
{
    let ghost p = f.p as int;
    if a.len() < b.len() {
        let q: Vec<u64> = Vec::new();
        let r: Vec<u64> = copy_poly(a);
        assert forall|x: int| cong(#[trigger] val(a@, x), val(q@, x) * val(b@, x) + val(r@, x), p) by {
            assert(ints(q@) =~= Seq::<int>::empty());
            assert(0 * val(b@, x) == 0);
        }
        return (q, r);
    }
    let lead: u64 = b[b.len() - 1];
    assert(b@[b.len() - 1] < f.p);
    let inv: u64 = f.inv(lead);
    proof {
        field::lemma_small(lead as int, p);
    }
    let mut rem: Vec<u64> = copy_poly(a);
    let nq: usize = a.len() - b.len() + 1;
    let mut q: Vec<u64> = Vec::with_capacity(nq);
    for i in 0..nq
        invariant
            q.len() == i,
            forall|k: int| 0 <= k < i ==> #[trigger] q[k] == 0,
    {
        q.push(0);
    }
    proof {
        assert forall|x: int| cong(#[trigger] val(a@, x), val(q@, x) * val(b@, x) + val(rem@, x), p)
            by {
            lemma_val_zeros(q@, x);
            assert(0 * val(b@, x) == 0);
        }
    }
    let mut left: usize = nq;
    while left > 0
        invariant
            f.wf(),
            is_prime(f.p as int),
            p == f.p,
            is_poly(a@, f.p),
            is_poly(b@, f.p),
            b.len() > 0,
            a.len() >= b.len(),
            nq == a.len() - b.len() + 1,
            left <= nq,
            q.len() == nq,
            rem.len() == a.len(),
            canon(q@, f.p),
            canon(rem@, f.p),
            lead == b[b.len() - 1],
            0 < lead < f.p,
            inv < f.p,
            cong(lead * inv, 1, p),
            lead == 1 ==> inv == 1,
            divides_with(a@, b@, q@, rem@, p),
            forall|k: int| left + b.len() - 1 <= k < rem.len() ==> #[trigger] rem[k] == 0,
            forall|k: int| 0 <= k < left ==> #[trigger] q[k] == 0,
            left == nq ==> rem@ == a@,
            a[a.len() - 1] == 1 && lead == 1 && left < nq ==> q[nq - 1] == 1,
        decreases left,
    {
        left = left - 1;
        let shift: usize = left;
        let top: usize = shift + b.len() - 1;
        assert(rem@[top as int] < f.p);
        let c: u64 = f.mul(rem[top], inv);
        let ghost (rt, ci) = (rem[top as int] as int, c as int);
        proof {
            field::lemma_cong_mod(rt * inv, p);
            field::lemma_cong_ops(lead as int, lead as int, ci, rt * inv, p);
            let (l, v) = (lead as int, inv as int);
            assert(l * (rt * v) == rt * (l * v)) by (nonlinear_arith);
            field::lemma_cong_ops(rt, rt, l * v, 1, p);
            assert(rt * 1 == rt);
            assert(cong(l * ci, rt, p));
            if inv == 1 {
                assert(rt * 1 == rt);
                field::lemma_small(rt, p);
            }
        }
        if c == 0 {
            proof {
                assert(lead * 0 == 0);
                field::lemma_small(0, p);
                field::lemma_small(rt, p);
                assert(rt == 0);
            }
            continue;
        }
        let ghost rem0 = rem@;
        let ghost q0 = q@;
        q.set(shift, c);
        let cs: u64 = f.shoup(c);
        proof {
            assert forall|x: int| cong(
                #[trigger] val(rem@, x),
                val(rem0, x) - ci * (pow(x, shift as nat) * val(b@.take(0), x)),
                p,
            ) by {
                assert(ints(b@.take(0)) =~= Seq::<int>::empty());
                assert(pow(x, shift as nat) * 0 == 0);
                assert(ci * 0 == 0);
            }
        }
        for i in 0..b.len()
            invariant
                f.wf(),
                p == f.p,
                canon(b@, f.p),
                c < f.p,
                ci == c,
                cs == (c * 0x1_0000_0000_0000_0000) / (f.p as int),
                shift + b.len() <= rem.len(),
                canon(rem@, f.p),
                rem.len() == rem0.len(),
                forall|k: int|
                    0 <= k < rem.len() && !(shift <= k < shift + i) ==> #[trigger] rem[k]
                        == rem0[k],
                forall|k: int|
                    shift <= k < shift + i ==> #[trigger] rem[k] == (rem0[k] - (b[k - shift] * ci)
                        % p) % p,
                forall|x: int|
                    cong(
                        #[trigger] val(rem@, x),
                        val(rem0, x) - ci * (pow(x, shift as nat) * val(b@.take(i as int), x)),
                        p,
                    ),
        {
            assert(b@[i as int] < f.p);
            let k: usize = shift + i;
            assert(rem@[k as int] < f.p);
            let t: u64 = f.mul_shoup(b[i], c, cs);
            let d: u64 = f.sub(rem[k], t);
            let ghost before = rem@;
            assert(before[k as int] == rem0[k as int]);
            rem.set(k, d);
            proof {
                assert forall|x: int| cong(
                    #[trigger] val(rem@, x),
                    val(rem0, x) - ci * (pow(x, shift as nat) * val(b@.take(i + 1), x)),
                    p,
                ) by {
                    assert(ints(rem@) =~= ints(before).update(k as int, d as int));
                    lemma_eval_update(ints(before), k as int, d as int, x);
                    lemma_val_take(b@, i as int, x);
                    lemma_pow_adds(x, shift as nat, i as nat);
                    let (ps, pi, vb, bi) = (
                        pow(x, shift as nat),
                        pow(x, i as nat),
                        val(b@.take(i as int), x),
                        b[i as int] as int,
                    );
                    let pk = pow(x, k as nat);
                    let old_v = val(before, x);
                    let base = val(rem0, x) - ci * (ps * vb);
                    assert(cong(old_v, base, p));
                    let bk = before[k as int] as int;
                    // d - bk is congruent to -(bi * ci)
                    field::lemma_cong_mod(bi * ci, p);
                    field::lemma_cong_mod(bk - (bi * ci) % p, p);
                    field::lemma_cong_ops(bk, bk, (bi * ci) % p, bi * ci, p);
                    field::lemma_cong_ops(d as int, bk - bi * ci, bk, bk, p);
                    field::lemma_cong_ops(d - bk, -(bi * ci), pk, pk, p);
                    field::lemma_cong_ops(old_v, base, (d - bk) * pk, -(bi * ci) * pk, p);
                    assert(base + -(bi * ci) * pk == val(rem0, x) - ci * (ps * (vb + bi * pi)))
                        by (nonlinear_arith)
                        requires
                            base == val(rem0, x) - ci * (ps * vb),
                            pk == ps * pi,
                    ;
                }
                assert(canon(rem@, f.p)) by {
                    assert forall|j: int| 0 <= j < rem.len() implies #[trigger] rem@[j] < f.p by {
                        assert(before[j] < f.p);
                    }
                }
            }
        }
        proof {
            // the top coefficient is gone
            assert(rem[top as int] == (rem0[top as int] - (b[b.len() - 1] * ci) % p) % p);
            field::lemma_cong_mod(lead * ci, p);
            assert((lead * ci) % p == rt % p);
            field::lemma_small(rt, p);
            field::lemma_small(0, p);
            assert(rem[top as int] == 0);
            assert(b@.take(b.len() as int) =~= b@);
            assert(divides_with(a@, b@, q@, rem@, p)) by {
                assert forall|x: int| cong(
                    #[trigger] val(a@, x),
                    val(q@, x) * val(b@, x) + val(rem@, x),
                    p,
                ) by {
                    assert(ints(q@) =~= ints(q0).update(shift as int, ci));
                    lemma_eval_update(ints(q0), shift as int, ci, x);
                    assert(q0[shift as int] == 0);
                    let (vq, vb, vr, ps) = (
                        val(q0, x),
                        val(b@, x),
                        val(rem0, x),
                        pow(x, shift as nat),
                    );
                    assert(cong(val(a@, x), vq * vb + vr, p));
                    let s = ci * (ps * vb);
                    assert(cong(val(rem@, x), vr - s, p));
                    let nq1 = val(q@, x) * vb;
                    field::lemma_cong_ops(nq1, nq1, val(rem@, x), vr - s, p);
                    assert(nq1 + (vr - s) == vq * vb + vr) by (nonlinear_arith)
                        requires
                            nq1 == (vq + (ci - 0) * ps) * vb,
                            s == ci * (ps * vb),
                    ;
                }
            }
            assert(canon(q@, f.p)) by {
                assert forall|j: int| 0 <= j < q.len() implies #[trigger] q@[j] < f.p by {
                    assert(q0[j] < f.p);
                }
            }
        }
    }
    let q2: Vec<u64> = trim(q);
    let rem2: Vec<u64> = trim(rem);
    proof {
        assert forall|i: int| 0 <= i < q2.len() implies #[trigger] q2@[i] < f.p by {
            assert(q2@[i] == q@[i]);
        }
        assert forall|i: int| 0 <= i < rem2.len() implies #[trigger] rem2@[i] < f.p by {
            assert(rem2@[i] == rem@[i]);
        }
        if rem2.len() >= b.len() {
            assert(rem2@[rem2.len() - 1] == rem@[rem2.len() - 1]);
            assert(rem[rem2.len() - 1] == 0);
        }
        assert(divides_with(a@, b@, q2@, rem2@, p)) by {
            assert forall|x: int| cong(
                #[trigger] val(a@, x),
                val(q2@, x) * val(b@, x) + val(rem2@, x),
                p,
            ) by {
                assert(val(q2@, x) == val(q@, x) && val(rem2@, x) == val(rem@, x));
            }
        }
    }
    (q2, rem2)
}

/// The remainder.
pub fn poly_rem(a: &Vec<u64>, b: &Vec<u64>, f: Fp) -> (r: Vec<u64>)
    requires
        f.wf(),
        is_prime(f.p as int),
        is_poly(a@, f.p),
        is_poly(b@, f.p),
        b.len() > 0,
    ensures
        is_poly(r@, f.p),
        r.len() < b.len(),
        forall|x: int|
            val(b@, x) % (f.p as int) == 0 ==> cong(#[trigger] val(r@, x), val(a@, x), f.p as int),
{
    let (q, r): (Vec<u64>, Vec<u64>) = poly_divmod(a, b, f);
    proof {
        let p = f.p as int;
        assert forall|x: int| val(b@, x) % p == 0 implies cong(
            #[trigger] val(r@, x),
            val(a@, x),
            p,
        ) by {
            assert(cong(val(a@, x), val(q@, x) * val(b@, x) + val(r@, x), p));
            field::lemma_small(0, p);
            field::lemma_cong_ops(val(q@, x), val(q@, x), val(b@, x), 0, p);
            assert(val(q@, x) * 0 == 0);
            field::lemma_cong_ops(val(q@, x) * val(b@, x), 0, val(r@, x), val(r@, x), p);
        }
    }
    r
}

// ---------------------------------------------------------------
// Common divisors
// ---------------------------------------------------------------

/// Product of two polynomials.
pub open spec fn poly_prod(a: Seq<int>, b: Seq<int>) -> Seq<int>
    decreases a.len(),
{
    if a.len() == 0 || b.len() == 0 {
        Seq::empty()
    } else {
        poly_add(poly_scale(b, a[0]), poly_shift(poly_prod(a.drop_first(), b)))
    }
}

pub proof fn lemma_prod(a: Seq<int>, b: Seq<int>, x: int)
    ensures
        eval(poly_prod(a, b), x) == eval(a, x) * eval(b, x),
        poly_prod(a, b).len() <= (if a.len() == 0 || b.len() == 0 {
            0
        } else {
            a.len() + b.len() - 1
        }),
    decreases a.len(),
{
    if a.len() == 0 {
        assert(0 * eval(b, x) == 0);
    } else if b.len() == 0 {
        assert(eval(a, x) * 0 == 0);
    } else {
        let t = a.drop_first();
        lemma_prod(t, b, x);
        lemma_eval_add(poly_scale(b, a[0]), poly_shift(poly_prod(t, b)), x);
        lemma_eval_scale(b, a[0], x);
        lemma_eval_shift(poly_prod(t, b), x);
        let (a0, et, eb) = (a[0], eval(t, x), eval(b, x));
        assert((a0 + x * et) * eb == a0 * eb + x * (et * eb)) by (nonlinear_arith);
    }
}

/// `a == g * w` at every point.
pub open spec fn is_multiple(g: Seq<int>, w: Seq<int>, a: Seq<int>, p: int) -> bool {
    forall|x: int| cong(#[trigger] eval(a, x), eval(g, x) * eval(w, x), p)
}

/// `g` times a cofactor gives `a`, and the degrees add up.
pub open spec fn divides(g: Seq<int>, a: Seq<int>, p: int) -> bool {
    exists|w: Seq<int>|
        #[trigger] is_multiple(g, w, a, p) && (w.len() == 0 || w.len() + g.len() <= a.len() + 1)
}

/// Two common multiples combine as in a division.
proof fn lemma_divides_step(
    g: Seq<int>,
    a: Seq<int>,
    b: Seq<int>,
    q: Seq<int>,
    r: Seq<int>,
    p: int,
)
    requires
        p > 0,
        divides(g, b, p),
        divides(g, r, p),
        r.len() <= b.len(),
        b.len() > 0,
        q.len() == 0 ==> r.len() <= a.len(),
        q.len() > 0 ==> q.len() + b.len() <= a.len() + 1,
        forall|x: int| cong(#[trigger] eval(a, x), eval(q, x) * eval(b, x) + eval(r, x), p),
    ensures
        divides(g, a, p),
{
    let w1 = choose|w: Seq<int>|
        #[trigger] is_multiple(g, w, b, p) && (w.len() == 0 || w.len() + g.len() <= b.len() + 1);
    let w2 = choose|w: Seq<int>|
        #[trigger] is_multiple(g, w, r, p) && (w.len() == 0 || w.len() + g.len() <= r.len() + 1);
    let w = poly_add(poly_prod(q, w1), w2);
    lemma_prod(q, w1, 0);
    assert forall|x: int| cong(#[trigger] eval(a, x), eval(g, x) * eval(w, x), p) by {
        lemma_prod(q, w1, x);
        lemma_eval_add(poly_prod(q, w1), w2, x);
        let (ea, eg, eq, eb, er) = (
            eval(a, x),
            eval(g, x),
            eval(q, x),
            eval(b, x),
            eval(r, x),
        );
        let (e1, e2) = (eval(w1, x), eval(w2, x));
        assert(cong(eb, eg * e1, p) && cong(er, eg * e2, p));
        field::lemma_cong_ops(eq, eq, eb, eg * e1, p);
        field::lemma_cong_ops(eq * eb, eq * (eg * e1), er, eg * e2, p);
        assert(eq * (eg * e1) + eg * e2 == eg * (eq * e1 + e2)) by (nonlinear_arith);
    }
    assert(is_multiple(g, w, a, p));
}

proof fn lemma_divides_zero(g: Seq<int>, a: Seq<int>, p: int)
    requires
        p > 0,
        a.len() == 0,
    ensures
        divides(g, a, p),
{
    let w = Seq::<int>::empty();
    assert forall|x: int| cong(#[trigger] eval(a, x), eval(g, x) * eval(w, x), p) by {
        assert(eval(g, x) * 0 == 0);
    }
    assert(is_multiple(g, w, a, p));
}

/// Common roots.
pub open spec fn common_root(a: Seq<u64>, b: Seq<u64>, x: int, p: int) -> bool {
    val(a, x) % p == 0 && val(b, x) % p == 0
}

/// Whatever divides `x` and `y` divides `a` and `b`.
spec fn carries(x: Seq<u64>, y: Seq<u64>, a: Seq<u64>, b: Seq<u64>, p: int) -> bool {
    forall|g: Seq<int>|
        #![trigger divides(g, ints(x), p)]
        divides(g, ints(x), p) && divides(g, ints(y), p) ==> divides(g, ints(a), p) && divides(
            g,
            ints(b),
            p,
        )
}

/// Monic greatest common divisor, or zero if both are zero.
pub fn poly_gcd(a: &Vec<u64>, b: &Vec<u64>, f: Fp) -> (r: Vec<u64>)
    requires
        f.wf(),
        is_prime(f.p as int),
        is_poly(a@, f.p),
        is_poly(b@, f.p),
    ensures
        is_poly(r@, f.p),
        r.len() == 0 <==> a.len() == 0 && b.len() == 0,
        r.len() > 0 ==> r[r.len() - 1] == 1,
        forall|x: int|
            #[trigger] val(r@, x) % (f.p as int) == 0 <==> common_root(a@, b@, x, f.p as int),
        divides(ints(r@), ints(a@), f.p as int),
        divides(ints(r@), ints(b@), f.p as int),
{
    let ghost p = f.p as int;
    let mut x: Vec<u64> = copy_poly(a);
    let mut y: Vec<u64> = copy_poly(b);
    while y.len() > 0
        invariant
            f.wf(),
            is_prime(f.p as int),
            p == f.p,
            is_poly(x@, f.p),
            is_poly(y@, f.p),
            a.len() == 0 && b.len() == 0 <==> x.len() == 0 && y.len() == 0,
            forall|t: int| #[trigger] common_root(x@, y@, t, p) <==> common_root(a@, b@, t, p),
            carries(x@, y@, a@, b@, p),
        decreases y.len(),
    {
        let (q, r): (Vec<u64>, Vec<u64>) = poly_divmod(&x, &y, f);
        proof {
            assert forall|t: int| #[trigger] common_root(y@, r@, t, p) <==> common_root(
                a@,
                b@,
                t,
                p,
            ) by {
                assert(common_root(x@, y@, t, p) <==> common_root(a@, b@, t, p));
                let (vx, vy, vq, vr) = (val(x@, t), val(y@, t), val(q@, t), val(r@, t));
                assert(cong(vx, vq * vy + vr, p));
                field::lemma_small(0, p);
                if vy % p == 0 {
                    field::lemma_cong_ops(vq, vq, vy, 0, p);
                    assert(vq * 0 == 0);
                    field::lemma_cong_ops(vq * vy, 0, vr, vr, p);
                }
            }
            assert forall|g: Seq<int>|
                #![trigger divides(g, ints(y@), p)]
                divides(g, ints(y@), p) && divides(g, ints(r@), p) implies divides(
                g,
                ints(a@),
                p,
            ) && divides(g, ints(b@), p) by {
                assert forall|t: int| cong(
                    #[trigger] eval(ints(x@), t),
                    eval(ints(q@), t) * eval(ints(y@), t) + eval(ints(r@), t),
                    p,
                ) by {
                    assert(cong(val(x@, t), val(q@, t) * val(y@, t) + val(r@, t), p));
                }
                lemma_divides_step(g, ints(x@), ints(y@), ints(q@), ints(r@), p);
                assert(divides(g, ints(x@), p));
            }
            if x.len() == 0 {
                assert(y.len() > 0);
            }
        }
        x = y;
        y = r;
    }
    if x.len() == 0 {
        proof {
            assert forall|t: int| #[trigger] val(x@, t) % p == 0 <==> common_root(
                a@,
                b@,
                t,
                p,
            ) by {
                assert(ints(x@) =~= Seq::<int>::empty());
                assert(ints(a@) =~= Seq::<int>::empty());
                assert(ints(b@) =~= Seq::<int>::empty());
                field::lemma_small(0, p);
            }
            lemma_divides_zero(ints(x@), ints(a@), p);
            lemma_divides_zero(ints(x@), ints(b@), p);
        }
        return x;
    }
    let n: usize = x.len();
    let lead: u64 = x[n - 1];
    assert(x@[n - 1] < f.p);
    let inv: u64 = f.inv(lead);
    proof {
        field::lemma_small(lead as int, p);
    }
    let mut out: Vec<u64> = Vec::with_capacity(n);
    for i in 0..n
        invariant
            f.wf(),
            n == x.len(),
            canon(x@, f.p),
            inv < f.p,
            out.len() == i,
            canon(out@, f.p),
            forall|k: int| 0 <= k < i ==> #[trigger] out[k] == (x[k] * inv) % (f.p as int),
    {
        assert(x@[i as int] < f.p);
        out.push(f.mul(x[i], inv));
    }
    proof {
        let (l, v) = (lead as int, inv as int);
        assert(out[n - 1] == (l * v) % p);
        field::lemma_small(1, p);
        assert(out[n - 1] == 1);
        assert forall|t: int| cong(#[trigger] val(out@, t), v * val(x@, t), p) by {
            lemma_eval_scale(ints(x@), v, t);
            let sc = poly_scale(ints(x@), v);
            assert forall|k: int| 0 <= k < ints(out@).len() implies cong(
                #[trigger] ints(out@)[k],
                sc[k],
                p,
            ) by {
                assert(out[k] == (x[k] * inv) % p);
                field::lemma_cong_mod(x[k] * inv, p);
                assert(x[k] * inv == v * (x[k] as int)) by (nonlinear_arith)
                    requires
                        v == inv,
                ;
            }
            lemma_coeffs_cong(ints(out@), sc, t, p);
        }
        assert forall|t: int| #[trigger] val(out@, t) % p == 0 <==> common_root(a@, b@, t, p) by {
            assert(common_root(x@, y@, t, p) <==> common_root(a@, b@, t, p));
            assert(ints(y@) =~= Seq::<int>::empty());
            field::lemma_small(0, p);
            assert(cong(val(out@, t), v * val(x@, t), p));
            if val(x@, t) % p == 0 {
                field::lemma_cong_ops(v, v, val(x@, t), 0, p);
                assert(v * 0 == 0);
            } else if val(out@, t) % p == 0 {
                lemma_prime_divides(v, val(x@, t), p);
                assert(v % p == 0);
                field::lemma_cong_ops(l, l, v, 0, p);
                assert(l * 0 == 0);
                field::lemma_small(1, p);
            }
        }
        let (og, w) = (ints(out@), seq![l]);
        assert(divides(og, ints(x@), p)) by {
            assert forall|t: int| cong(#[trigger] eval(ints(x@), t), eval(og, t) * eval(w, t), p) by {
                assert(w.drop_first() =~= Seq::<int>::empty());
                assert(eval(w.drop_first(), t) == 0);
                assert(t * 0 == 0);
                assert(eval(w, t) == l);
                let vx = val(x@, t);
                assert(cong(val(out@, t), v * vx, p));
                field::lemma_cong_ops(val(out@, t), v * vx, l, l, p);
                assert((v * vx) * l == (l * v) * vx) by (nonlinear_arith);
                field::lemma_cong_ops(l * v, 1, vx, vx, p);
                assert(1 * vx == vx);
            }
            assert(is_multiple(og, w, ints(x@), p));
        }
        lemma_divides_zero(og, ints(y@), p);
        assert(carries(x@, y@, a@, b@, p));
    }
    out
}

} // verus!
