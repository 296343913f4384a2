//! Binding: what two openings of one root have in common.

use crate::cs::{
    all_within, child_digits, leaf_at, leaf_digits, leaf_holds, lemma_dot_prefix, opens,
    pair_digits, pair_hashes, path_holds, rec, CsParams, Opening, BETA_AGG_HVC, R_BOUND,
};
use crate::field::{self, cong};
use crate::hvc::{ancestor, full, is_right, lemma_dot_linear};
use crate::negacyclic::{dot_at, within, Coeffs, N};
use crate::rings::{add_polys, views, CS_MODULUS, DGT_MODULUS, HVC_MODULUS, ZETA};
use crate::share_commitment::{
    accepts, element_digits, ShareCommitmentParams, ShareOpening,
};
use crate::sss::cs_views;
use vstd::arithmetic::power2::pow2;
use vstd::prelude::*;

verus! {

/// `x` is a nonzero vector with coefficients in `[-b, b]` that `keys` takes to
/// zero modulo `m`.
pub open spec fn is_short_kernel(keys: Seq<Coeffs>, x: Seq<Coeffs>, b: int, m: int) -> bool {
    &&& x.len() == keys.len()
    &&& forall|j: int, i: int|
        0 <= j < x.len() && 0 <= i < N ==> -b <= #[trigger] x[j][i] <= b
    &&& exists|j: int, i: int| 0 <= j < x.len() && 0 <= i < N && #[trigger] x[j][i] != 0
    &&& forall|i: int| 0 <= i < N ==> cong(#[trigger] dot_at(keys, x, i, keys.len()), 0, m)
}

/// Some short nonzero vector is taken to zero.
pub open spec fn has_short_kernel(keys: Seq<Coeffs>, b: int, m: int) -> bool {
    exists|x: Seq<Coeffs>| #[trigger] is_short_kernel(keys, x, b, m)
}

/// Coefficient-wise difference.
spec fn minus(a: Seq<Coeffs>, b: Seq<Coeffs>) -> Seq<Coeffs> {
    Seq::new(a.len(), |j: int| Seq::new(N as nat, |i: int| a[j][i] - b[j][i]))
}

/// Two different short vectors with the same image differ by a kernel vector.
proof fn lemma_collision(keys: Seq<Coeffs>, a: Seq<Coeffs>, b: Seq<Coeffs>, beta: int, m: int)
    requires
        m > 0,
        full(keys),
        full(a),
        full(b),
        a.len() == keys.len(),
        b.len() == keys.len(),
        all_within(a, beta),
        all_within(b, beta),
        a != b,
        forall|i: int|
            0 <= i < N ==> cong(
                #[trigger] dot_at(keys, a, i, keys.len()),
                dot_at(keys, b, i, keys.len()),
                m,
            ),
    ensures
        has_short_kernel(keys, 2 * beta, m),
{
    let x = minus(a, b);
    assert forall|j: int, i: int| 0 <= j < x.len() && 0 <= i < N implies -(2 * beta)
        <= #[trigger] x[j][i] <= 2 * beta by {
        assert(within(a[j], beta) && within(b[j], beta));
        assert(a[j].len() == N && b[j].len() == N);
        assert(-beta <= a[j][i] <= beta && -beta <= b[j][i] <= beta);
    }
    assert(exists|j: int, i: int| 0 <= j < x.len() && 0 <= i < N && #[trigger] x[j][i] != 0) by {
        if forall|j: int, i: int| 0 <= j < x.len() && 0 <= i < N ==> #[trigger] x[j][i] == 0 {
            assert forall|j: int| 0 <= j < a.len() implies a[j] == b[j] by {
                assert(a[j].len() == N && b[j].len() == N);
                assert forall|i: int| 0 <= i < N implies a[j][i] == b[j][i] by {
                    assert(x[j][i] == 0);
                }
                assert(a[j] =~= b[j]);
            }
            assert(a =~= b);
        }
    }
    assert forall|i: int| 0 <= i < N implies cong(
        #[trigger] dot_at(keys, x, i, keys.len()),
        0,
        m,
    ) by {
        assert(full(x));
        lemma_dot_linear(keys, x, b, i, keys.len());
        assert(add_polys(x, b) =~= a) by {
            assert forall|j: int| 0 <= j < a.len() implies add_polys(x, b)[j] == a[j] by {
                assert(a[j].len() == N && b[j].len() == N);
                assert(add_polys(x, b)[j] =~= a[j]);
            }
        }
        let (da, db) = (dot_at(keys, a, i, keys.len()), dot_at(keys, b, i, keys.len()));
        field::lemma_cong_ops(da, db, db, db, m);
    }
    assert(is_short_kernel(keys, x, 2 * beta, m));
}

/// The pairs of two paths to one leaf agree down to level `l`, or the node keys
/// have a short kernel vector.
proof fn lemma_pairs_agree(
    keys: Seq<Coeffs>,
    g: Seq<Coeffs>,
    root: Coeffs,
    index: int,
    xi: int,
    plen: int,
    d: Seq<Coeffs>,
    e: Seq<Coeffs>,
    beta: int,
    l: int,
)
    requires
        keys.len() == 6,
        full(keys),
        xi >= 0,
        0 <= l < plen,
        d.len() == 3 * xi + 6 * plen,
        e.len() == d.len(),
        full(d),
        full(e),
        all_within(d, beta),
        all_within(e, beta),
        forall|i: int| 0 <= i < N ==> #[trigger] path_holds(keys, g, root, index, xi, plen, d, i),
        forall|i: int| 0 <= i < N ==> #[trigger] path_holds(keys, g, root, index, xi, plen, e, i),
    ensures
        has_short_kernel(keys, 2 * beta, HVC_MODULUS as int) || forall|t: int|
            0 <= t <= l ==> #[trigger] pair_digits(d, xi, t) == pair_digits(e, xi, t),
    decreases l,
{
    if l > 0 {
        lemma_pairs_agree(keys, g, root, index, xi, plen, d, e, beta, l - 1);
    }
    let m = HVC_MODULUS as int;
    if !has_short_kernel(keys, 2 * beta, m) {
        let (a, b) = (pair_digits(d, xi, l), pair_digits(e, xi, l));
        assert forall|i: int| 0 <= i < N implies cong(
            #[trigger] dot_at(keys, a, i, keys.len()),
            dot_at(keys, b, i, keys.len()),
            m,
        ) by {
            assert(path_holds(keys, g, root, index, xi, plen, d, i));
            assert(path_holds(keys, g, root, index, xi, plen, e, i));
            if l == 0 {
                assert(pair_hashes(keys, d, xi, 0, i, root[i]));
                assert(pair_hashes(keys, e, xi, 0, i, root[i]));
            } else {
                let right = is_right(index, (plen - l) as nat);
                lemma_child_of_pair(d, e, xi, l - 1, right);
                assert(pair_hashes(
                    keys,
                    d,
                    xi,
                    l,
                    i,
                    rec(child_digits(d, xi, l - 1, is_right(index, (plen - l) as nat)), i),
                ));
                assert(pair_hashes(
                    keys,
                    e,
                    xi,
                    l,
                    i,
                    rec(child_digits(e, xi, l - 1, is_right(index, (plen - l) as nat)), i),
                ));
            }
        }
        lemma_part(d, beta, 3 * xi + 6 * l, 3 * xi + 6 * l + 6);
        lemma_part(e, beta, 3 * xi + 6 * l, 3 * xi + 6 * l + 6);
        if a != b {
            lemma_collision(keys, a, b, beta, m);
        }
        assert forall|t: int| 0 <= t <= l implies #[trigger] pair_digits(d, xi, t) == pair_digits(
            e,
            xi,
            t,
        ) by {
            assert(t == l || t <= l - 1);
        }
    }
}

proof fn lemma_part(d: Seq<Coeffs>, beta: int, from: int, to: int)
    requires
        0 <= from <= to <= d.len(),
        full(d),
        all_within(d, beta),
    ensures
        full(d.subrange(from, to)),
        all_within(d.subrange(from, to), beta),
{
    let s = d.subrange(from, to);
    assert forall|j: int| 0 <= j < s.len() implies (#[trigger] s[j]).len() == N && within(
        s[j],
        beta,
    ) by {
        assert(s[j] == d[from + j]);
    }
}

proof fn lemma_child_of_pair(d: Seq<Coeffs>, e: Seq<Coeffs>, xi: int, l: int, right: bool)
    requires
        xi >= 0,
        l >= 0,
        d.len() == e.len(),
        3 * xi + 6 * l + 6 <= d.len(),
        pair_digits(d, xi, l) == pair_digits(e, xi, l),
    ensures
        child_digits(d, xi, l, right) == child_digits(e, xi, l, right),
{
    let at = if right { 3int } else { 0 };
    let (a, b) = (pair_digits(d, xi, l), pair_digits(e, xi, l));
    assert(child_digits(d, xi, l, right) =~= a.subrange(at, at + 3));
    assert(child_digits(e, xi, l, right) =~= b.subrange(at, at + 3));
}

/// Two paths from one root to one leaf hold the same digits, or one of the two
/// hashes has a short kernel vector.
proof fn lemma_path_binds(
    keys: Seq<Coeffs>,
    g: Seq<Coeffs>,
    root: Coeffs,
    index: int,
    xi: int,
    plen: int,
    d: Seq<Coeffs>,
    e: Seq<Coeffs>,
    beta: int,
)
    requires
        keys.len() == 6,
        g.len() == 3 * xi,
        full(keys),
        full(g),
        xi >= 0,
        plen >= 1,
        d.len() == 3 * xi + 6 * plen,
        e.len() == d.len(),
        full(d),
        full(e),
        all_within(d, beta),
        all_within(e, beta),
        forall|i: int| 0 <= i < N ==> #[trigger] path_holds(keys, g, root, index, xi, plen, d, i),
        forall|i: int| 0 <= i < N ==> #[trigger] path_holds(keys, g, root, index, xi, plen, e, i),
    ensures
        d == e || has_short_kernel(keys, 2 * beta, HVC_MODULUS as int) || has_short_kernel(
            g,
            2 * beta,
            HVC_MODULUS as int,
        ),
{
    let m = HVC_MODULUS as int;
    lemma_pairs_agree(keys, g, root, index, xi, plen, d, e, beta, plen - 1);
    if !has_short_kernel(keys, 2 * beta, m) && !has_short_kernel(g, 2 * beta, m) {
        let n = 3 * xi;
        let (a, b) = (d.subrange(0, n), e.subrange(0, n));
        let right = is_right(index, 0);
        lemma_child_of_pair(d, e, xi, plen - 1, right);
        assert forall|i: int| 0 <= i < N implies cong(
            #[trigger] dot_at(g, a, i, g.len()),
            dot_at(g, b, i, g.len()),
            m,
        ) by {
            assert(path_holds(keys, g, root, index, xi, plen, d, i));
            assert(path_holds(keys, g, root, index, xi, plen, e, i));
            lemma_dot_prefix(g, a, d, i, n as nat);
            lemma_dot_prefix(g, b, e, i, n as nat);
        }
        lemma_part(d, beta, 0, n);
        lemma_part(e, beta, 0, n);
        if a != b {
            lemma_collision(g, a, b, beta, m);
        }
        assert forall|j: int| 0 <= j < d.len() implies d[j] == e[j] by {
            if j < n {
                assert(a[j] == d[j] && b[j] == e[j]);
            } else {
                let t = (j - n) / 6;
                assert(0 <= t <= plen - 1 && 0 <= j - n - 6 * t < 6);
                assert(pair_digits(d, xi, t) == pair_digits(e, xi, t));
                assert(pair_digits(d, xi, t)[j - n - 6 * t] == d[j]);
                assert(pair_digits(e, xi, t)[j - n - 6 * t] == e[j]);
            }
        }
        assert(d =~= e);
    }
}

/// A commitment binds its owner to one share per position: two openings of one
/// root at one position that disagree on the share, modulo the ring's modulus,
/// give a short nonzero vector that the node keys, the leaf keys or the row `a`
/// take to zero. All randomness and all digits of both openings are short.
pub proof fn law_commitment_binds(
    pp: CsParams,
    root: Coeffs,
    o: Opening,
    p: Opening,
    k: int,
    i: int,
)
    requires
        pp.wf(),
        opens(pp, root, o),
        opens(pp, root, p),
        o.path_index == p.path_index,
        0 <= k < pp.mu_cs,
        0 <= i < N,
        o.rs@[pp.kappa_cs + k]@[i] % (CS_MODULUS as int) != p.rs@[pp.kappa_cs + k]@[i] % (
        CS_MODULUS as int),
    ensures
        has_short_kernel(views(pp.hasher.keys@), 20_400, HVC_MODULUS as int) || has_short_kernel(
            views(pp.leaf_hash.g@),
            20_400,
            HVC_MODULUS as int,
        ) || has_short_kernel(pp.a(), 69_600, CS_MODULUS as int),
{
    let (d, e) = (views(o.data@), views(p.data@));
    let (x, y) = (cs_views(o.rs@), cs_views(p.rs@));
    let (xi, m) = (1 + pp.mu_cs, CS_MODULUS as int);
    lemma_path_binds(
        pp.keys(),
        pp.g(),
        root,
        o.path_index as int,
        xi as int,
        pp.depth() as int,
        d,
        e,
        BETA_AGG_HVC as int,
    );
    if d == e {
        let kappa = pp.kappa_cs as nat;
        let (a, b) = (x.take(kappa as int), y.take(kappa as int));
        assert forall|c: int| 0 <= c < N implies cong(
            #[trigger] dot_at(pp.a(), a, c, pp.a().len()),
            dot_at(pp.a(), b, c, pp.a().len()),
            m,
        ) by {
            assert(leaf_holds(pp, x, d, 0));
            assert(leaf_holds(pp, y, d, 0));
            let v = rec(leaf_digits(d, 0), c);
            assert(cong(v, leaf_at(pp, x, 0, c), m));
            assert(cong(v, leaf_at(pp, y, 0, c), m));
            lemma_dot_prefix(pp.a(), a, x, c, kappa);
            lemma_dot_prefix(pp.a(), b, y, c, kappa);
        }
        if a == b {
            assert(leaf_holds(pp, x, d, k + 1));
            assert(leaf_holds(pp, y, d, k + 1));
            let v = rec(leaf_digits(d, k + 1), i);
            assert(cong(v, leaf_at(pp, x, k + 1, i), m));
            assert(cong(v, leaf_at(pp, y, k + 1, i), m));
            assert forall|t: int| 0 <= t < kappa implies #[trigger] x[t] == y[t] by {
                assert(a[t] == x[t] && b[t] == y[t]);
            }
            lemma_dot_prefix(pp.b(k), x, y, i, kappa);
            let w = dot_at(pp.b(k), x, i, kappa);
            field::lemma_cong_ops(leaf_at(pp, x, k + 1, i), leaf_at(pp, y, k + 1, i), w, w, m);
        } else {
            lemma_collision(pp.a(), a, b, R_BOUND as int, m);
        }
    }
}

/// A lane's post binds likewise: two accepted posts at one lane under one root
/// hash, in every slot, to the same label modulo the digest ring's modulus, or
/// one of the two hashes has a short kernel vector.
pub proof fn law_lane_posts_bind(
    pp: ShareCommitmentParams,
    root: Coeffs,
    s: Seq<Coeffs>,
    o: ShareOpening,
    t: Seq<Coeffs>,
    p: ShareOpening,
    k: int,
    i: int,
)
    requires
        pp.wf(),
        accepts(pp, root, s, o),
        accepts(pp, root, t, p),
        o.lane_index == p.lane_index,
        0 <= k < 3,
        0 <= i < N,
    ensures
        cong(pp.label_at(s, k, i), pp.label_at(t, k, i), DGT_MODULUS as int)
            || has_short_kernel(
            views(pp.hasher.keys@),
            2 * pp.rho_max * ZETA,
            HVC_MODULUS as int,
        ) || has_short_kernel(views(pp.leaf_key@), 2 * pp.rho_max * ZETA, HVC_MODULUS as int),
{
    let (d, e) = (views(o.data@), views(p.data@));
    let beta = (pp.rho_max * ZETA) as int;
    assert(2 * beta == 2 * pp.rho_max * ZETA) by (nonlinear_arith)
        requires
            beta == pp.rho_max * ZETA,
    ;
    lemma_path_binds(
        pp.keys(),
        pp.g(),
        root,
        o.lane_index as int,
        10,
        pp.depth() as int,
        d,
        e,
        beta,
    );
    if d == e {
        let v = rec(element_digits(d, k), i);
        assert(cong(v, pp.label_at(s, k, i), DGT_MODULUS as int));
        assert(cong(rec(element_digits(e, k), i), pp.label_at(t, k, i), DGT_MODULUS as int));
    }
}

/// The turns of a path are the binary digits of the position.
pub proof fn law_turns_are_bits(index: int, h: nat)
    requires
        index >= 0,
    ensures
        is_right(index, h) <==> (index / (pow2(h) as int)) % 2 == 1,
{
    lemma_ancestor(index, h);
}

proof fn lemma_ancestor(index: int, h: nat)
    requires
        index >= 0,
    ensures
        ancestor(index, h) == index / (pow2(h) as int),
    decreases h,
{
    vstd::arithmetic::power2::lemma_pow2_pos(h);
    if h > 0 {
        let low = (h - 1) as nat;
        lemma_ancestor(index, low);
        vstd::arithmetic::power2::lemma_pow2_pos(low);
        vstd::arithmetic::power2::lemma_pow2_unfold(h);
        let p = pow2(low) as int;
        vstd::arithmetic::div_mod::lemma_div_denominator(index, p, 2);
        assert(p * 2 == pow2(h) as int);
        assert(ancestor(index, h) == ancestor(index, low) / 2);
    } else {
        vstd::arithmetic::power2::lemma2_to64();
        assert(ancestor(index, 0) == index);
    }
}

} // verus!
