//! Roots of polynomials that split into distinct linear factors.

use crate::field::{
    self, cong, distinct_mod, eval, is_prime, lemma_inverse_exists, lemma_prime_divides,
    lemma_root_bound,
};
use crate::fp::{lemma_pow_cong, lemma_pow_half, Fp};
use crate::fpoly::{
    common_root, divides, divides_with, ints, is_multiple, is_poly, lemma_few_roots,
    lemma_val_take, poly_divmod, poly_gcd, poly_mul, poly_rem, poly_sub, val, MAX_LEN,
};
use vstd::arithmetic::power::{lemma_pow0, lemma_pow1, pow};
use vstd::multiset::Multiset;
use vstd::prelude::*;

verus! {

/// `base^e` modulo `m`: the value at every root of `m` is that of the power.
pub fn poly_powmod(base: &Vec<u64>, e: u64, m: &Vec<u64>, f: Fp) -> (r: Vec<u64>)
    requires
        f.wf(),
        f.p <= 0x10_0000_0000,
        is_prime(f.p as int),
        is_poly(base@, f.p),
        is_poly(m@, f.p),
        2 <= m.len() <= MAX_LEN,
    ensures
        is_poly(r@, f.p),
        r.len() < m.len(),
        forall|x: int|
            val(m@, x) % (f.p as int) == 0 ==> cong(
                #[trigger] val(r@, x),
                pow(val(base@, x), e as nat),
                f.p as int,
            ),
{
    let ghost p = f.p as int;
    let mut r: Vec<u64> = Vec::new();
    r.push(1);
    let mut b: Vec<u64> = poly_rem(base, m, f);
    let mut left: u64 = e;
    proof {
        assert forall|x: int| val(m@, x) % p == 0 implies cong(
            #[trigger] val(r@, x) * pow(val(b@, x), left as nat),
            pow(val(base@, x), e as nat),
            p,
        ) by {
            lemma_one(r@, x);
            lemma_pow_cong(val(b@, x), val(base@, x), e as nat, p);
            assert(1 * pow(val(b@, x), left as nat) == pow(val(b@, x), left as nat));
        }
    }
    while left > 0
        invariant
            f.wf(),
            f.p <= 0x10_0000_0000,
            is_prime(f.p as int),
            p == f.p,
            is_poly(m@, f.p),
            2 <= m.len() <= MAX_LEN,
            is_poly(r@, f.p),
            is_poly(b@, f.p),
            r.len() < m.len(),
            b.len() < m.len(),
            forall|x: int|
                val(m@, x) % p == 0 ==> cong(
                    #[trigger] val(r@, x) * pow(val(b@, x), left as nat),
                    pow(val(base@, x), e as nat),
                    p,
                ),
        decreases left,
    {
        let ghost (r0, b0, l0) = (r@, b@, left);
        if left % 2 == 1 {
            let t: Vec<u64> = poly_mul(&r, &b, f);
            r = poly_rem(&t, m, f);
            proof {
                assert forall|x: int| val(m@, x) % p == 0 implies cong(
                    #[trigger] val(r@, x),
                    val(r0, x) * val(b0, x),
                    p,
                ) by {
                    assert(cong(val(t@, x), val(r0, x) * val(b0, x), p));
                    assert(cong(val(r@, x), val(t@, x), p));
                }
            }
        }
        let t: Vec<u64> = poly_mul(&b, &b, f);
        b = poly_rem(&t, m, f);
        left = left / 2;
        proof {
            let h = left as nat;
            assert forall|x: int| val(m@, x) % p == 0 implies cong(
                #[trigger] val(r@, x) * pow(val(b@, x), left as nat),
                pow(val(base@, x), e as nat),
                p,
            ) by {
                let (vr, vb) = (val(r0, x), val(b0, x));
                assert(cong(vr * pow(vb, l0 as nat), pow(val(base@, x), e as nat), p));
                assert(cong(val(t@, x), vb * vb, p));
                assert(cong(val(b@, x), val(t@, x), p));
                lemma_pow_cong(val(b@, x), vb * vb, h, p);
                lemma_pow_half(vb, l0 as nat);
                let sq = pow(vb * vb, h);
                let nw = pow(val(b@, x), h);
                if l0 % 2 == 1 {
                    assert(cong(val(r@, x), vr * vb, p));
                    field::lemma_cong_ops(val(r@, x), vr * vb, nw, sq, p);
                    assert((vr * vb) * sq == vr * (vb * sq)) by (nonlinear_arith);
                } else {
                    field::lemma_cong_ops(vr, vr, nw, sq, p);
                }
            }
        }
    }
    proof {
        assert forall|x: int| val(m@, x) % p == 0 implies cong(
            #[trigger] val(r@, x),
            pow(val(base@, x), e as nat),
            p,
        ) by {
            assert(cong(
                val(r@, x) * pow(val(b@, x), left as nat),
                pow(val(base@, x), e as nat),
                p,
            ));
            lemma_pow0(val(b@, x));
            assert(val(r@, x) * 1 == val(r@, x));
        }
    }
    r
}

proof fn lemma_one(r: Seq<u64>, x: int)
    requires
        r.len() == 1,
        r[0] == 1,
    ensures
        val(r, x) == 1,
{
    lemma_val_take(r, 0, x);
    assert(r.take(1) =~= r);
    assert(ints(r.take(0)) =~= Seq::<int>::empty());
    lemma_pow0(x);
}

/// The value of `c + X`.
proof fn lemma_linear(r: Seq<u64>, x: int)
    requires
        r.len() == 2,
        r[1] == 1,
    ensures
        val(r, x) == r[0] + x,
{
    lemma_val_take(r, 0, x);
    lemma_val_take(r, 1, x);
    assert(r.take(2) =~= r);
    assert(ints(r.take(0)) =~= Seq::<int>::empty());
    lemma_pow0(x);
    lemma_pow1(x);
}

// ---------------------------------------------------------------
// Splitting
// ---------------------------------------------------------------

/// Every value is a residue.
pub open spec fn residues(rs: Seq<int>, p: int) -> bool {
    forall|i: int| 0 <= i < rs.len() ==> 0 <= #[trigger] rs[i] < p
}

/// `fac` is the product of `X - r` over the distinct residues `rs`.
pub open spec fn splits(fac: Seq<u64>, rs: Seq<int>, p: int) -> bool {
    &&& fac.len() == rs.len() + 1
    &&& fac[fac.len() - 1] == 1
    &&& residues(rs, p)
    &&& rs.no_duplicates()
    &&& forall|i: int| 0 <= i < rs.len() ==> val(fac, #[trigger] rs[i]) % p == 0
}

proof fn lemma_distinct(rs: Seq<int>, p: int)
    requires
        residues(rs, p),
        rs.no_duplicates(),
    ensures
        distinct_mod(rs, p),
{
    assert forall|i: int, j: int|
        0 <= i < rs.len() && 0 <= j < rs.len() && i != j implies !cong(
        #[trigger] rs[i],
        #[trigger] rs[j],
        p,
    ) by {
        field::lemma_small(rs[i], p);
        field::lemma_small(rs[j], p);
    }
}

/// The members of `rs` that are roots of `g`, or those that are not.
pub open spec fn part(rs: Seq<int>, g: Seq<u64>, p: int, yes: bool) -> Seq<int>
    decreases rs.len(),
{
    if rs.len() == 0 {
        Seq::empty()
    } else {
        let low = part(rs.drop_last(), g, p, yes);
        if (val(g, rs.last()) % p == 0) == yes {
            low.push(rs.last())
        } else {
            low
        }
    }
}

proof fn lemma_part(rs: Seq<int>, g: Seq<u64>, p: int, yes: bool)
    requires
        residues(rs, p),
        rs.no_duplicates(),
    ensures
        residues(part(rs, g, p, yes), p),
        part(rs, g, p, yes).no_duplicates(),
        forall|i: int|
            0 <= i < part(rs, g, p, yes).len() ==> rs.contains(#[trigger] part(rs, g, p, yes)[i])
                && (val(g, part(rs, g, p, yes)[i]) % p == 0) == yes,
    decreases rs.len(),
{
    if rs.len() > 0 {
        let low = rs.drop_last();
        let n = low.len() as int;
        lemma_part(low, g, p, yes);
        let (a, b) = (part(low, g, p, yes), part(rs, g, p, yes));
        assert forall|i: int| 0 <= i < b.len() implies rs.contains(#[trigger] b[i]) && (val(g, b[i])
            % p == 0) == yes && 0 <= b[i] < p by {
            if i < a.len() {
                assert(b[i] == a[i]);
                let k = choose|k: int| 0 <= k < low.len() && low[k] == a[i];
                assert(rs[k] == b[i]);
            } else {
                assert(rs[n] == b[i]);
            }
        }
        assert forall|i: int, j: int| 0 <= i < b.len() && 0 <= j < b.len() && i != j implies b[i]
            != b[j] by {
            if i < a.len() && j < a.len() {
                assert(a[i] != a[j]);
            } else {
                let t = if i < a.len() { i } else { j };
                assert(low.contains(a[t]));
                let k = choose|k: int| 0 <= k < low.len() && low[k] == a[t];
                assert(rs[k] == b[t]);
                assert(rs[k] != rs[n]);
            }
        }
    }
}

proof fn lemma_parts_add(rs: Seq<int>, g: Seq<u64>, p: int)
    ensures
        part(rs, g, p, true).len() + part(rs, g, p, false).len() == rs.len(),
        rs.to_multiset() == part(rs, g, p, true).to_multiset().add(
            part(rs, g, p, false).to_multiset(),
        ),
    decreases rs.len(),
{
    broadcast use vstd::seq_lib::group_to_multiset_ensures;

    let (a, b) = (part(rs, g, p, true), part(rs, g, p, false));
    if rs.len() == 0 {
        assert(rs.to_multiset() =~= a.to_multiset().add(b.to_multiset()));
    } else {
        let low = rs.drop_last();
        lemma_parts_add(low, g, p);
        assert(rs =~= low.push(rs.last()));
        assert(rs.to_multiset() =~= a.to_multiset().add(b.to_multiset()));
    }
}

/// A polynomial that splits does not vanish everywhere.
proof fn lemma_not_everywhere(fac: Seq<u64>, rs: Seq<int>, p: int)
    requires
        is_prime(p),
        splits(fac, rs, p),
        fac.len() <= p,
        forall|x: int| #[trigger] val(fac, x) % p == 0,
    ensures
        p == 0,
{
    let roots = Seq::new(fac.len(), |i: int| i);
    assert(roots.no_duplicates());
    lemma_distinct(roots, p);
    field::lemma_small(1, p);
    assert(ints(fac)[fac.len() - 1] == 1);
    assert forall|i: int| 0 <= i < roots.len() implies eval(ints(fac), #[trigger] roots[i]) % p
        == 0 by {
        assert(val(fac, roots[i]) % p == 0);
    }
    lemma_few_roots(ints(fac), roots, p);
}

/// A monic divisor of a polynomial that splits, splits: its roots are those it
/// shares.
proof fn lemma_divisor_splits(fac: Seq<u64>, rs: Seq<int>, g: Seq<u64>, p: int)
    requires
        is_prime(p),
        splits(fac, rs, p),
        fac.len() <= p,
        g.len() > 0,
        g[g.len() - 1] == 1,
        divides(ints(g), ints(fac), p),
    ensures
        splits(g, part(rs, g, p, true), p),
{
    let (rg, rw) = (part(rs, g, p, true), part(rs, g, p, false));
    lemma_part(rs, g, p, true);
    lemma_part(rs, g, p, false);
    lemma_parts_add(rs, g, p);
    lemma_distinct(rg, p);
    lemma_distinct(rw, p);
    field::lemma_small(1, p);
    field::lemma_small(0, p);
    assert forall|i: int| 0 <= i < rg.len() implies eval(ints(g), #[trigger] rg[i]) % p == 0 by {
        assert((val(g, rg[i]) % p == 0) == true);
    }
    assert(ints(g)[g.len() - 1] == 1);
    lemma_few_roots(ints(g), rg, p);
    let w = choose|w: Seq<int>|
        #[trigger] is_multiple(ints(g), w, ints(fac), p) && (w.len() == 0 || w.len()
            + ints(g).len() <= ints(fac).len() + 1);
    assert forall|i: int| 0 <= i < rw.len() implies eval(w, #[trigger] rw[i]) % p == 0 by {
        let x = rw[i];
        assert(rs.contains(x));
        let k = choose|k: int| 0 <= k < rs.len() && rs[k] == x;
        assert(val(fac, rs[k]) % p == 0);
        assert(cong(eval(ints(fac), x), eval(ints(g), x) * eval(w, x), p));
        lemma_prime_divides(eval(ints(g), x), eval(w, x), p);
    }
    if rw.len() >= w.len() {
        lemma_root_bound(w, rw, p);
        assert forall|x: int| #[trigger] val(fac, x) % p == 0 by {
            field::lemma_eval_zero(w, x, p);
            let (eg, ew) = (eval(ints(g), x), eval(w, x));
            assert(cong(eval(ints(fac), x), eg * ew, p));
            field::lemma_cong_ops(eg, eg, ew, 0, p);
            assert(eg * 0 == 0);
        }
        lemma_not_everywhere(fac, rs, p);
    }
    assert(g.len() == rg.len() + 1);
    assert forall|i: int| 0 <= i < rg.len() implies val(g, #[trigger] rg[i]) % p == 0 by {}
}

/// The cofactor of such a divisor splits too, and nothing remains.
proof fn lemma_cofactor_splits(
    fac: Seq<u64>,
    rs: Seq<int>,
    g: Seq<u64>,
    cof: Seq<u64>,
    rem: Seq<u64>,
    p: u64,
)
    requires
        is_prime(p as int),
        splits(fac, rs, p as int),
        splits(g, part(rs, g, p as int, true), p as int),
        is_poly(rem, p),
        rem.len() < g.len(),
        divides_with(fac, g, cof, rem, p as int),
        cof.len() == fac.len() - g.len() + 1,
        cof[cof.len() - 1] == 1,
    ensures
        rem.len() == 0,
        splits(cof, part(rs, g, p as int, false), p as int),
{
    let m = p as int;
    let (rg, rw) = (part(rs, g, m, true), part(rs, g, m, false));
    lemma_part(rs, g, m, true);
    lemma_part(rs, g, m, false);
    lemma_parts_add(rs, g, m);
    lemma_distinct(rg, m);
    field::lemma_small(0, m);
    assert forall|i: int| 0 <= i < rg.len() implies eval(ints(rem), #[trigger] rg[i]) % m == 0 by {
        let x = rg[i];
        assert(rs.contains(x));
        let k = choose|k: int| 0 <= k < rs.len() && rs[k] == x;
        assert(val(fac, rs[k]) % m == 0);
        assert((val(g, rg[i]) % m == 0) == true);
        let (vc, vg, vr) = (val(cof, x), val(g, x), val(rem, x));
        assert(cong(val(fac, x), vc * vg + vr, m));
        field::lemma_cong_ops(vc, vc, vg, 0, m);
        assert(vc * 0 == 0);
        field::lemma_cong_ops(vc * vg, 0, vr, vr, m);
    }
    lemma_root_bound(ints(rem), rg, m);
    if rem.len() > 0 {
        let n = rem.len() - 1;
        assert(ints(rem)[n] % m == 0);
        field::lemma_small(rem[n] as int, m);
    }
    assert forall|i: int| 0 <= i < rw.len() implies val(cof, #[trigger] rw[i]) % m == 0 by {
        let x = rw[i];
        assert(rs.contains(x));
        let k = choose|k: int| 0 <= k < rs.len() && rs[k] == x;
        assert(val(fac, rs[k]) % m == 0);
        assert((val(g, rw[i]) % m == 0) == false);
        assert(cong(val(fac, x), val(cof, x) * val(g, x) + val(rem, x), m));
        assert(ints(rem) =~= Seq::<int>::empty());
        lemma_prime_divides(val(cof, x), val(g, x), m);
    }
}

// ---------------------------------------------------------------
// Separating two roots
// ---------------------------------------------------------------

/// `x` raised to half the group order is one.
pub open spec fn chi(x: int, p: int) -> bool {
    cong(pow(x, ((p - 1) / 2) as nat), 1, p)
}

proof fn lemma_chi_cong(x: int, y: int, p: int)
    requires
        p > 0,
        cong(x, y, p),
    ensures
        chi(x, p) == chi(y, p),
{
    lemma_pow_cong(x, y, ((p - 1) / 2) as nat, p);
}

/// Some shift tells two distinct residues apart.
pub proof fn lemma_separates(y: int, z: int, p: int)
    requires
        is_prime(p),
        p >= 3,
        !cong(y, z, p),
    ensures
        exists|a: int| 0 <= a < p && #[trigger] chi(y + a, p) != chi(z + a, p),
{
    if forall|a: int| 0 <= a < p ==> #[trigger] chi(y + a, p) == chi(z + a, p) {
        let d = y - z;
        assert(d % p != 0) by {
            field::lemma_cong_diff(y, z, p);
        }
        vstd::arithmetic::div_mod::lemma_mod_bound(d, p);
        lemma_inverse_exists(d % p, p);
        let b = choose|b: int| #[trigger] cong((d % p) * b, 1, p);
        let t = b % p;
        field::lemma_cong_mod(b, p);
        field::lemma_cong_mod(d, p);
        field::lemma_cong_ops(d, d % p, t, b, p);
        lemma_shift_chain(y, z, t as nat, p);
        assert(t * d == d * t) by (nonlinear_arith);
        lemma_chi_cong(t * d, 1, p);
        let e = ((p - 1) / 2) as nat;
        vstd::arithmetic::power::lemma1_pow(e);
        vstd::arithmetic::power::lemma0_pow(e);
        field::lemma_small(0, p);
        field::lemma_small(1, p);
    }
}

proof fn lemma_shift_chain(y: int, z: int, t: nat, p: int)
    requires
        p > 0,
        forall|a: int| 0 <= a < p ==> #[trigger] chi(y + a, p) == chi(z + a, p),
    ensures
        chi(t * (y - z), p) == chi(0, p),
    decreases t,
{
    let d = y - z;
    if t == 0 {
        assert(0 * d == 0);
    } else {
        let s = (t - 1) as nat;
        lemma_shift_chain(y, z, s, p);
        let u = s * d;
        let a = (u - z) % p;
        field::lemma_cong_mod(u - z, p);
        field::lemma_cong_ops(z, z, a, u - z, p);
        field::lemma_cong_ops(y, y, a, u - z, p);
        lemma_chi_cong(z + a, u, p);
        lemma_chi_cong(y + a, u + d, p);
        assert(chi(y + a, p) == chi(z + a, p));
        assert(t * d == u + d) by (nonlinear_arith)
            requires
                u == s * d,
                t == s + 1,
        ;
    }
}

// ---------------------------------------------------------------
// Finding the roots
// ---------------------------------------------------------------

/// A factor, its cofactor, and the last shift used; or nothing once every shift
/// was tried.
pub struct Split {
    pub pair: Option<(Vec<u64>, Vec<u64>)>,
    pub shift: u64,
}

/// `a` and `b` are monic, of positive degree, and multiply to `fac`.
pub open spec fn is_split_of(fac: Seq<u64>, a: Seq<u64>, b: Seq<u64>, p: u64) -> bool {
    &&& is_poly(a, p)
    &&& is_poly(b, p)
    &&& a.len() >= 2
    &&& b.len() >= 2
    &&& a.len() + b.len() == fac.len() + 1
    &&& a[a.len() - 1] == 1
    &&& b[b.len() - 1] == 1
    &&& forall|x: int|
        #[trigger] val(fac, x) % (p as int) == 0 <==> val(a, x) % (p as int) == 0 || val(b, x) % (
        p as int) == 0
}

/// Splits a polynomial of degree at least two: for a shift `a`, the roots `z`
/// for which `z + a` is a square form a factor.
fn find_split(fac: &Vec<u64>, start: u64, f: Fp) -> (r: Split)
    requires
        f.wf(),
        f.p <= 0x10_0000_0000,
        is_prime(f.p as int),
        is_poly(fac@, f.p),
        3 <= fac.len() <= MAX_LEN,
        fac.len() <= f.p,
        fac[fac.len() - 1] == 1,
        start < f.p,
    ensures
        r.shift < f.p,
        r.pair matches Some((a, b)) ==> is_split_of(fac@, a@, b@, f.p),
        forall|rs: Seq<int>| #[trigger]
            splits(fac@, rs, f.p as int) ==> (r.pair matches Some((a, b)) && splits(
                a@,
                part(rs, a@, f.p as int, true),
                f.p as int,
            ) && splits(b@, part(rs, a@, f.p as int, false), f.p as int)),
{
    let ghost p = f.p as int;
    let mut a: u64 = start;
    let mut left: u64 = f.p;
    let mut one: Vec<u64> = Vec::new();
    one.push(1);
    proof {
        field::lemma_small(start as int, p);
    }
    while left > 0
        invariant
            f.wf(),
            f.p <= 0x10_0000_0000,
            is_prime(f.p as int),
            p == f.p,
            is_poly(fac@, f.p),
            3 <= fac.len() <= MAX_LEN,
            fac.len() <= f.p,
            fac[fac.len() - 1] == 1,
            start < f.p,
            a < f.p,
            left <= f.p,
            one.len() == 1,
            one[0] == 1,
            a == (start + (p - left)) % p,
            forall|rs: Seq<int>, t: int| #[trigger]
                splits(fac@, rs, p) && 1 <= t <= p - left ==> !#[trigger] tells_apart(
                    rs,
                    (start + t) % p,
                    p,
                ),
        decreases left,
    {
        let ghost prev = a as int;
        a = if a + 1 == f.p {
            0
        } else {
            a + 1
        };
        left = left - 1;
        proof {
            lemma_next(start as int, p - left - 1, prev, p);
        }
        let mut base: Vec<u64> = Vec::new();
        base.push(a);
        base.push(1);
        let power: Vec<u64> = poly_powmod(&base, (f.p - 1) / 2, fac, f);
        let h: Vec<u64> = poly_sub(&power, &one, f);
        let g: Vec<u64> = poly_gcd(&h, fac, f);
        proof {
            assert forall|x: int| val(fac@, x) % p == 0 implies (#[trigger] val(g@, x) % p == 0
                <==> chi(x + a, p)) by {
                lemma_linear(base@, x);
                lemma_one(one@, x);
                assert(cong(val(power@, x), pow(val(base@, x), ((f.p - 1) / 2) as nat), p));
                assert(cong(val(h@, x), val(power@, x) - val(one@, x), p));
                let w = pow(x + a, ((p - 1) / 2) as nat);
                assert(a + x == x + a);
                field::lemma_cong_ops(val(power@, x), w, 1, 1, p);
                field::lemma_cong_diff(w, 1, p);
                assert(val(g@, x) % p == 0 <==> common_root(h@, fac@, x, p));
            }
            assert forall|rs: Seq<int>| #[trigger] splits(fac@, rs, p) implies splits(
                g@,
                part(rs, g@, p, true),
                p,
            ) && (tells_apart(rs, a as int, p) ==> 1 < g.len() < fac.len()) by {
                lemma_divisor_splits(fac@, rs, g@, p);
                lemma_part(rs, g@, p, true);
                lemma_parts_add(rs, g@, p);
                if tells_apart(rs, a as int, p) {
                    let (y, z) = (rs[0], rs[1]);
                    assert(val(fac@, rs[0]) % p == 0 && val(fac@, rs[1]) % p == 0);
                    let (hit, miss) = if chi(y + a, p) { (y, z) } else { (z, y) };
                    assert(val(g@, hit) % p == 0);
                    assert(val(g@, miss) % p != 0);
                    lemma_in_part(rs, g@, p, true, hit);
                    lemma_in_part(rs, g@, p, false, miss);
                }
            }
        }
        if g.len() > 1 && g.len() < fac.len() {
            let (cof, rem): (Vec<u64>, Vec<u64>) = poly_divmod(fac, &g, f);
            proof {
                assert forall|rs: Seq<int>| #[trigger] splits(fac@, rs, p) implies rem.len() == 0
                    && splits(g@, part(rs, g@, p, true), p) && splits(
                    cof@,
                    part(rs, g@, p, false),
                    p,
                ) by {
                    lemma_cofactor_splits(fac@, rs, g@, cof@, rem@, f.p);
                }
            }
            if rem.len() > 0 {
                return Split { pair: None, shift: a };
            }
            proof {
                assert forall|x: int| #[trigger] val(fac@, x) % p == 0 <==> val(g@, x) % p == 0
                    || val(cof@, x) % p == 0 by {
                    assert(cong(val(fac@, x), val(cof@, x) * val(g@, x) + val(rem@, x), p));
                    assert(ints(rem@) =~= Seq::<int>::empty());
                    let (vc, vg) = (val(cof@, x), val(g@, x));
                    field::lemma_small(0, p);
                    if vg % p == 0 {
                        field::lemma_cong_ops(vc, vc, vg, 0, p);
                        assert(vc * 0 == 0);
                    } else if vc % p == 0 {
                        field::lemma_cong_ops(vc, 0, vg, vg, p);
                        assert(0 * vg == 0);
                    } else if val(fac@, x) % p == 0 {
                        lemma_prime_divides(vc, vg, p);
                    }
                }
                assert(is_split_of(fac@, g@, cof@, f.p));
            }
            return Split { pair: Some((g, cof)), shift: a };
        }
        proof {
            assert forall|rs: Seq<int>, t: int| #[trigger]
                splits(fac@, rs, p) && 1 <= t <= p - left implies !#[trigger] tells_apart(
                rs,
                (start + t) % p,
                p,
            ) by {
                if t == p - left {
                    assert((start + t) % p == a);
                }
            }
        }
    }
    proof {
        assert forall|rs: Seq<int>| !(#[trigger] splits(fac@, rs, p)) by {
            if splits(fac@, rs, p) {
                let (y, z) = (rs[0], rs[1]);
                field::lemma_small(y, p);
                field::lemma_small(z, p);
                lemma_separates(y, z, p);
                let s = choose|s: int| 0 <= s < p && #[trigger] chi(y + s, p) != chi(z + s, p);
                assert(tells_apart(rs, s, p));
                let t = if s > start { s - start } else { s - start + p };
                assert((start + t) % p == s) by {
                    if s > start {
                        field::lemma_small(s, p);
                    } else {
                        field::lemma_cong_multiple(s, 1, p);
                        field::lemma_small(s, p);
                    }
                }
                assert(!tells_apart(rs, (start + t) % p, p));
            }
        }
    }
    Split { pair: None, shift: a }
}

/// The shift tells the first two roots apart.
pub open spec fn tells_apart(rs: Seq<int>, a: int, p: int) -> bool {
    chi(rs[0] + a, p) != chi(rs[1] + a, p)
}

proof fn lemma_next(start: int, t: int, a: int, p: int)
    requires
        p > 1,
        a == (start + t) % p,
    ensures
        (start + t + 1) % p == (if a + 1 == p {
            0
        } else {
            a + 1
        }),
{
    field::lemma_cong_mod(start + t, p);
    field::lemma_cong_ops(a, start + t, 1, 1, p);
    if a + 1 == p {
        field::lemma_cong_multiple(0, 1, p);
        field::lemma_small(0, p);
    } else {
        field::lemma_small(a + 1, p);
    }
}

/// A member with the right property is in the part, which is then not empty.
proof fn lemma_in_part(rs: Seq<int>, g: Seq<u64>, p: int, yes: bool, x: int)
    requires
        rs.contains(x),
        (val(g, x) % p == 0) == yes,
    ensures
        part(rs, g, p, yes).len() > 0,
    decreases rs.len(),
{
    let k = choose|k: int| 0 <= k < rs.len() && rs[k] == x;
    if k < rs.len() - 1 {
        let low = rs.drop_last();
        assert(low[k] == x);
        lemma_in_part(low, g, p, yes, x);
    }
}

/// All members of all groups.
pub open spec fn flat(groups: Seq<Seq<int>>) -> Multiset<int>
    decreases groups.len(),
{
    if groups.len() == 0 {
        Multiset::empty()
    } else {
        flat(groups.drop_last()).add(groups.last().to_multiset())
    }
}

/// Each factor splits into its group.
pub open spec fn grouped(stack: Seq<Vec<u64>>, groups: Seq<Seq<int>>, p: int) -> bool {
    &&& stack.len() == groups.len()
    &&& forall|i: int| 0 <= i < stack.len() ==> splits(#[trigger] stack[i]@, groups[i], p)
}

/// What is left to split: a factor of degree `d` weighs `2d - 1`.
pub open spec fn weight(stack: Seq<Vec<u64>>) -> int
    decreases stack.len(),
{
    if stack.len() == 0 {
        0
    } else {
        weight(stack.drop_last()) + 2 * stack.last().len() - 3
    }
}

proof fn lemma_weight(stack: Seq<Vec<u64>>)
    requires
        forall|i: int| 0 <= i < stack.len() ==> (#[trigger] stack[i]).len() >= 2,
    ensures
        weight(stack) >= 0,
    decreases stack.len(),
{
    if stack.len() > 0 {
        let low = stack.drop_last();
        assert forall|i: int| 0 <= i < low.len() implies (#[trigger] low[i]).len() >= 2 by {
            assert(low[i] == stack[i]);
        }
        lemma_weight(low);
        assert(stack[stack.len() - 1].len() >= 2);
    }
}

/// The values grow strictly.
pub open spec fn increasing(v: Seq<u64>) -> bool {
    forall|i: int, j: int| 0 <= i < j < v.len() ==> v[i] < v[j]
}

/// `fac` is a factor that can still be split.
pub open spec fn is_factor(fac: Seq<u64>, lam: Seq<u64>, p: u64) -> bool {
    &&& is_poly(fac, p)
    &&& 2 <= fac.len() <= lam.len()
    &&& fac[fac.len() - 1] == 1
    &&& forall|x: int| #[trigger]
        val(fac, x) % (p as int) == 0 ==> val(lam, x) % (p as int) == 0
}

/// Ascending insertion sort.
fn sort_words(v: Vec<u64>) -> (r: Vec<u64>)
    ensures
        r@.to_multiset() == v@.to_multiset(),
        forall|i: int, j: int| 0 <= i < j < r.len() ==> r[i] <= r[j],
{
    let mut r: Vec<u64> = Vec::new();
    let n: usize = v.len();
    proof {
        assert(v@.take(0) =~= Seq::<u64>::empty());
    }
    for k in 0..n
        invariant
            n == v.len(),
            r@.to_multiset() == v@.take(k as int).to_multiset(),
            forall|i: int, j: int| 0 <= i < j < r.len() ==> r[i] <= r[j],
    {
        let x: u64 = v[k];
        let mut at: usize = r.len();
        while at > 0 && r[at - 1] > x
            invariant
                at <= r.len(),
                forall|i: int, j: int| 0 <= i < j < r.len() ==> r[i] <= r[j],
                forall|i: int| at <= i < r.len() ==> x < #[trigger] r[i],
            decreases at,
        {
            at = at - 1;
        }
        proof {
            vstd::seq_lib::to_multiset_insert(r@, at as int, x);
            vstd::seq_lib::to_multiset_build(v@.take(k as int), x);
            assert(v@.take(k + 1) =~= v@.take(k as int).push(x));
        }
        r.insert(at, x);
    }
    proof {
        assert(v@.take(n as int) =~= v@);
    }
    r
}

proof fn lemma_ints_multiset(a: Seq<u64>, b: Seq<u64>)
    requires
        a.to_multiset() == b.to_multiset(),
    ensures
        ints(a).to_multiset() == ints(b).to_multiset(),
{
    lemma_map_multiset(a);
    lemma_map_multiset(b);
    assert(ints(a).to_multiset() =~= ints(b).to_multiset());
}

/// Counting is the same among the words and among their values.
proof fn lemma_map_multiset(a: Seq<u64>)
    ensures
        forall|x: int| #[trigger]
            ints(a).to_multiset().count(x) == (if 0 <= x <= u64::MAX {
                a.to_multiset().count(x as u64)
            } else {
                0
            }),
    decreases a.len(),
{
    broadcast use vstd::seq_lib::group_to_multiset_ensures;

    if a.len() == 0 {
        assert(ints(a) =~= Seq::<int>::empty());
    } else {
        let low = a.drop_last();
        lemma_map_multiset(low);
        assert(a =~= low.push(a.last()));
        assert(ints(a) =~= ints(low).push(a.last() as int));
    }
}

/// `X^p` and `X` agree modulo a polynomial that splits.
proof fn lemma_frobenius(
    lam: Seq<u64>,
    rs: Seq<int>,
    x: Seq<u64>,
    xp: Seq<u64>,
    xr: Seq<u64>,
    diff: Seq<u64>,
    p: u64,
)
    requires
        is_prime(p as int),
        splits(lam, rs, p as int),
        x =~= seq![0u64, 1u64],
        is_poly(diff, p),
        diff.len() < lam.len(),
        forall|t: int|
            val(lam, t) % (p as int) == 0 ==> cong(
                #[trigger] val(xp, t),
                pow(val(x, t), p as nat),
                p as int,
            ),
        forall|t: int|
            val(lam, t) % (p as int) == 0 ==> cong(#[trigger] val(xr, t), val(x, t), p as int),
        forall|t: int| cong(#[trigger] val(diff, t), val(xp, t) - val(xr, t), p as int),
    ensures
        diff.len() == 0,
{
    let m = p as int;
    lemma_distinct(rs, m);
    assert forall|i: int| 0 <= i < rs.len() implies eval(ints(diff), #[trigger] rs[i]) % m == 0 by {
        let t = rs[i];
        assert(val(lam, rs[i]) % m == 0);
        lemma_linear(x, t);
        lemma_pth_power(t, m);
        assert(cong(val(diff, t), val(xp, t) - val(xr, t), m));
        assert(cong(val(xp, t), pow(val(x, t), p as nat), m));
        assert(cong(val(xr, t), val(x, t), m));
        field::lemma_cong_diff(val(xp, t), val(xr, t), m);
    }
    lemma_root_bound(ints(diff), rs, m);
    if diff.len() > 0 {
        let n = diff.len() - 1;
        assert(ints(diff)[n] % m == 0);
        field::lemma_small(diff[n] as int, m);
    }
}

/// Every residue is its own `p`-th power.
proof fn lemma_pth_power(t: int, p: int)
    requires
        is_prime(p),
    ensures
        cong(pow(t, p as nat), t, p),
{
    let w = pow(t, (p - 1) as nat);
    assert(pow(t, p as nat) == t * w) by {
        reveal(pow);
    }
    if t % p == 0 {
        field::lemma_small(0, p);
        field::lemma_cong_ops(t, 0, w, w, p);
        assert(0 * w == 0);
    } else {
        field::lemma_fermat(t, p);
        field::lemma_cong_ops(t, t, w, 1, p);
        assert(t * 1 == t);
    }
}

/// `X + c` vanishes at `-c`.
proof fn lemma_linear_root(fac: Seq<u64>, root: u64, p: u64)
    requires
        p > 1,
        fac.len() == 2,
        fac[1] == 1,
        cong(root as int, 0 - fac[0], p as int),
    ensures
        val(fac, root as int) % (p as int) == 0,
{
    let m = p as int;
    let c = fac[0] as int;
    lemma_linear(fac, root as int);
    field::lemma_cong_ops(c, c, root as int, 0 - c, m);
    field::lemma_small(0, m);
}

/// ... and at no other residue.
proof fn lemma_only_root(fac: Seq<u64>, root: u64, z: int, p: u64)
    requires
        p > 1,
        fac.len() == 2,
        fac[1] == 1,
        root < p,
        0 <= z < p,
        val(fac, root as int) % (p as int) == 0,
        val(fac, z) % (p as int) == 0,
    ensures
        z == root,
{
    let m = p as int;
    lemma_linear(fac, root as int);
    lemma_linear(fac, z);
    field::lemma_cong_diff(fac[0] + root, fac[0] + z, m);
    field::lemma_cong_diff(root as int, z, m);
    field::lemma_small(root as int, m);
    field::lemma_small(z, m);
}

/// The roots of a monic polynomial of degree at least one, in ascending order,
/// when it is the product of distinct linear factors.
pub fn roots_of_split(lam: &Vec<u64>, f: Fp) -> (r: Option<Vec<u64>>)
    requires
        f.wf(),
        f.p <= 0x10_0000_0000,
        is_prime(f.p as int),
        is_poly(lam@, f.p),
        2 <= lam.len() <= MAX_LEN,
        lam.len() <= f.p,
        lam[lam.len() - 1] == 1,
    ensures
        r is Some <==> exists|rs: Seq<int>| splits(lam@, rs, f.p as int),
        r matches Some(z) ==> increasing(z@) && splits(lam@, ints(z@), f.p as int),
{
    let ghost p = f.p as int;
    let ghost goal = choose|rs: Seq<int>| splits(lam@, rs, p);
    let ghost can = splits(lam@, goal, p);
    let mut x: Vec<u64> = Vec::new();
    x.push(0);
    x.push(1);
    let xp: Vec<u64> = poly_powmod(&x, f.p, lam, f);
    let xr: Vec<u64> = poly_rem(&x, lam, f);
    let diff: Vec<u64> = poly_sub(&xp, &xr, f);
    proof {
        if can {
            lemma_frobenius(lam@, goal, x@, xp@, xr@, diff@, f.p);
        }
    }
    if diff.len() > 0 {
        return None;
    }
    let mut stack: Vec<Vec<u64>> = Vec::new();
    let first: Vec<u64> = lam.clone();
    assert(first@ =~= lam@);
    stack.push(first);
    let mut out: Vec<u64> = Vec::new();
    let mut shift: u64 = 0;
    let ghost mut groups: Seq<Seq<int>> = seq![goal];
    proof {
        broadcast use vstd::seq_lib::group_to_multiset_ensures;

        assert(groups.drop_last() =~= Seq::<Seq<int>>::empty());
        assert(ints(out@) =~= Seq::<int>::empty());
        assert(flat(groups.drop_last()) == Multiset::<int>::empty());
        assert(flat(groups).add(ints(out@).to_multiset()) =~= goal.to_multiset());
        lemma_weight(stack@);
    }
    while stack.len() > 0
        invariant
            f.wf(),
            f.p <= 0x10_0000_0000,
            is_prime(f.p as int),
            p == f.p,
            lam.len() <= MAX_LEN,
            lam.len() <= f.p,
            shift < f.p,
            can == splits(lam@, goal, p),
            goal == choose|rs: Seq<int>| splits(lam@, rs, p),
            forall|i: int| 0 <= i < stack.len() ==> is_factor(#[trigger] stack[i]@, lam@, f.p),
            forall|i: int|
                0 <= i < out.len() ==> #[trigger] out[i] < f.p && val(lam@, out[i] as int) % p
                    == 0,
            can ==> grouped(stack@, groups, p),
            can ==> flat(groups).add(ints(out@).to_multiset()) == goal.to_multiset(),
        decreases weight(stack@),
    {
        let ghost before = stack@;
        let ghost last = groups.last();
        let ghost low = groups.drop_last();
        proof {
            lemma_weight(before.drop_last());
            assert(is_factor(before[before.len() - 1]@, lam@, f.p));
        }
        let popped: Option<Vec<u64>> = stack.pop();
        if let Some(fac) = popped {
            proof {
                assert(stack@ =~= before.drop_last());
                assert forall|i: int| 0 <= i < stack.len() implies is_factor(
                    #[trigger] stack[i]@,
                    lam@,
                    f.p,
                ) by {
                    assert(stack[i] == before[i]);
                }
                if can {
                    assert(splits(before[before.len() - 1]@, groups[before.len() - 1], p));
                    assert forall|i: int| 0 <= i < stack.len() implies splits(
                        #[trigger] stack[i]@,
                        low[i],
                        p,
                    ) by {
                        assert(stack[i] == before[i]);
                        assert(splits(before[i]@, groups[i], p));
                    }
                }
            }
            if fac.len() == 2 {
                let root: u64 = f.sub(0, fac[0]);
                let ghost out0 = out@;
                out.push(root);
                proof {
                    field::lemma_cong_mod(0 - fac[0], p);
                    lemma_linear_root(fac@, root, f.p);
                    assert(val(lam@, root as int) % p == 0);
                    if can {
                        lemma_linear(fac@, last[0]);
                        lemma_only_root(fac@, root, last[0], f.p);
                        assert(last =~= Seq::<int>::empty().push(root as int));
                        assert(ints(out@) =~= ints(out0).push(root as int));
                        broadcast use vstd::seq_lib::group_to_multiset_ensures;

                        assert(flat(low).add(ints(out@).to_multiset()) =~= goal.to_multiset());
                    }
                    groups = low;
                }
            } else {
                let found: Split = find_split(&fac, shift, f);
                shift = found.shift;
                match found.pair {
                    None => {
                        return None;
                    },
                    Some((a, b)) => {
                        let ghost (ra, rb) = (part(last, a@, p, true), part(last, a@, p, false));
                        proof {
                            assert forall|x: int| #[trigger] val(a@, x) % p == 0 implies val(lam@, x) % p
                                == 0 by {
                                assert(val(fac@, x) % p == 0);
                            }
                            assert forall|x: int| #[trigger] val(b@, x) % p == 0 implies val(lam@, x) % p
                                == 0 by {
                                assert(val(fac@, x) % p == 0);
                            }
                            if can {
                                lemma_parts_add(last, a@, p);
                                let one = low.push(ra);
                                assert(one.drop_last() =~= low);
                                assert(one.push(rb).drop_last() =~= one);
                                assert(flat(one) == flat(low).add(ra.to_multiset()));
                                assert(flat(one.push(rb)) == flat(one).add(rb.to_multiset()));
                                assert(flat(groups) == flat(low).add(last.to_multiset()));
                                assert(last.to_multiset() == ra.to_multiset().add(
                                    rb.to_multiset(),
                                ));
                                assert(flat(one.push(rb)) =~= flat(groups));
                            }
                            groups = low.push(ra).push(rb);
                        }
                        let ghost rest = stack@;
                        stack.push(a);
                        let ghost mid = stack@;
                        stack.push(b);
                        proof {
                            assert(mid.drop_last() =~= rest);
                            assert(stack@.drop_last() =~= mid);
                            assert(weight(mid) == weight(rest) + 2 * a.len() - 3);
                            assert(weight(stack@) == weight(mid) + 2 * b.len() - 3);
                            assert(weight(before) == weight(rest) + 2 * fac.len() - 3);
                            lemma_weight(stack@);
                        }
                    },
                }
            }
        }
    }
    let ghost loose = out@;
    let z: Vec<u64> = sort_words(out);
    let n: usize = z.len();
    proof {
        broadcast use vstd::seq_lib::group_to_multiset_ensures;

        lemma_ints_multiset(z@, loose);
        assert forall|i: int| 0 <= i < z.len() implies #[trigger] z[i] < f.p && val(
            lam@,
            z[i] as int,
        ) % p == 0 by {
            assert(z@.to_multiset().count(z[i]) > 0) by {
                assert(z@.contains(z[i]));
            }
            assert(loose.contains(z[i]));
            let k = choose|k: int| 0 <= k < loose.len() && loose[k] == z[i];
            assert(loose[k] < f.p);
        }
        if can {
            assert(flat(groups) =~= Multiset::<int>::empty());
            assert(ints(z@).to_multiset() =~= goal.to_multiset());
            assert(ints(z@).to_multiset().len() == goal.to_multiset().len());
            goal.lemma_multiset_has_no_duplicates();
            ints(z@).lemma_multiset_has_no_duplicates_conv();
            assert(z.len() == goal.len());
            assert forall|i: int, j: int| 0 <= i < j < z.len() implies z[i] < z[j] by {
                assert(ints(z@)[i] != ints(z@)[j]);
                assert(z[i] <= z[j]);
            }
        }
    }
    if n != lam.len() - 1 {
        return None;
    }
    for i in 1..n
        invariant
            n == z.len(),
            can ==> increasing(z@),
            can == splits(lam@, goal, p),
            goal == choose|rs: Seq<int>| splits(lam@, rs, p),
            p == f.p,
            forall|a: int, b: int| 0 <= a < b < i ==> z[a] < z[b],
            forall|a: int, b: int| 0 <= a < b < z.len() ==> z[a] <= z[b],
    {
        if z[i - 1] >= z[i] {
            return None;
        }
    }
    proof {
        assert(residues(ints(z@), p));
        assert(splits(lam@, ints(z@), p));
    }
    Some(z)
}

} // verus!
