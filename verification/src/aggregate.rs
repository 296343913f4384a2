//! Sums of openings, and why they open sums of commitments.


use crate::cs::{
    all_within, child_digits, data_polys, leaf_at, leaf_digits, leaf_holds, opens, pair_digits,
    pair_hashes, path_holds, q, rec, relations, shape_fits, Commitment, CsParams,
    HidingMerkleCommitment, Opening,
};
use crate::digits::lemma_recomposed_linear;
use crate::field::{self, cong, sum};
use crate::hvc::{
    self, coefficient, full, hvc_sum, is_right, lemma_dot_cong, lemma_dot_linear, sum_hvc_polys,
};
use crate::negacyclic::{
    centered, combine, cong_poly, dot_at, lemma_centered, lemma_centered_cong, lemma_centered_id,
    within, Coeffs, N,
};
use crate::rings::{
    add_polys, column, views, CsPoly, HVCPoly, CS_MODULUS, CS_MODULUS_OVER_TWO, HVC_MODULUS,
};
use crate::sss::cs_views;
use vstd::prelude::*;

verus! {

/// Coefficient-wise sum, centered, on the commitment ring.
pub open spec fn cs_sum(s: Seq<Coeffs>) -> Coeffs {
    Seq::new(N as nat, |k: int| centered(sum(coefficient(s, k)), q()))
}

/// Sums commitment-ring elements.
pub fn sum_cs_polys(polys: &[&CsPoly]) -> (r: CsPoly)
    ensures
        r@ == cs_sum(polys@.map(|_i: int, p: &CsPoly| p@)),
        r.is_centered(),
{
    let ghost vs = polys@.map(|_i: int, p: &CsPoly| p@);
    let mut acc: CsPoly = CsPoly::default();
    proof {
        assert(acc@ =~= cs_sum(vs.take(0))) by {
            assert forall|k: int| 0 <= k < N implies acc@[k] == cs_sum(vs.take(0))[k] by {
                assert(coefficient(vs.take(0), k) =~= Seq::<int>::empty());
                assert(acc.coeffs[k] == 0);
            }
        }
    }
    for i in 0..polys.len()
        invariant
            vs == polys@.map(|_i: int, p: &CsPoly| p@),
            acc@ == cs_sum(vs.take(i as int)),
    {
        let next: CsPoly = acc + *polys[i];
        proof {
            assert(next@ =~= cs_sum(vs.take(i + 1))) by {
                assert forall|k: int| 0 <= k < N implies next@[k] == cs_sum(vs.take(i + 1))[k] by {
                    let a = coefficient(vs.take(i as int), k);
                    let y = polys[i as int]@[k];
                    assert(coefficient(vs.take(i + 1), k) =~= a.push(y));
                    field::lemma_sum_push(a, y);
                    lemma_centered(sum(a), q());
                    field::lemma_cong_ops(acc@[k], sum(a), y, y, q());
                    lemma_centered_cong(acc@[k] + 1 * y, sum(a) + y, q());
                }
            }
        }
        acc = next;
    }
    proof {
        assert(vs.take(polys.len() as int) =~= vs);
        assert forall|k: int| 0 <= k < acc@.len() implies -CS_MODULUS_OVER_TWO
            <= #[trigger] acc@[k] <= CS_MODULUS_OVER_TWO by {
            assert(acc@[k] == cs_sum(vs)[k]);
            lemma_centered(sum(coefficient(vs, k)), q());
        }
    }
    acc
}

/// Element `j` of `r` then `s`, across openings.
pub open spec fn rs_slot(os: Seq<&Opening>, j: int) -> Seq<Coeffs> {
    os.map(|_t: int, o: &Opening| o.rs[j]@)
}

/// Element `j` of the digits, across openings.
pub open spec fn data_slot(os: Seq<&Opening>, j: int) -> Seq<Coeffs> {
    os.map(|_t: int, o: &Opening| o.data[j]@)
}

/// Same position and same shape.
pub open spec fn same_shape(a: Opening, b: Opening) -> bool {
    &&& a.server_index == b.server_index
    &&& a.path_index == b.path_index
    &&& a.kappa_cs == b.kappa_cs
    &&& a.mu_cs == b.mu_cs
    &&& a.stored_path_len == b.stored_path_len
    &&& a.rs.len() == b.rs.len()
    &&& a.data.len() == b.data.len()
}

/// There is an opening, and all have its position and shape.
pub open spec fn openings_agree(os: Seq<&Opening>) -> bool {
    &&& os.len() > 0
    &&& forall|t: int| 0 <= t < os.len() ==> same_shape(*#[trigger] os[t], *os[0])
}

/// `o` is the sum of `os`.
pub open spec fn is_opening_sum(os: Seq<&Opening>, o: Opening) -> bool {
    &&& same_shape(o, *os[0])
    &&& forall|j: int| 0 <= j < o.rs.len() ==> (#[trigger] o.rs[j])@ == cs_sum(rs_slot(os, j))
    &&& forall|j: int|
        0 <= j < o.data.len() ==> (#[trigger] o.data[j])@ == hvc_sum(data_slot(os, j))
}

/// Whether the openings can be summed.
pub fn can_sum(os: &[&Opening]) -> (r: bool)
    ensures
        r == openings_agree(os@),
{
    if os.len() == 0 {
        return false;
    }
    let first: &Opening = os[0];
    for t in 0..os.len()
        invariant
            os.len() > 0,
            first == os[0],
            forall|u: int| 0 <= u < t ==> same_shape(*#[trigger] os[u], *os[0]),
    {
        let o: &Opening = os[t];
        if o.server_index != first.server_index || o.path_index != first.path_index || o.kappa_cs
            != first.kappa_cs || o.mu_cs != first.mu_cs || o.stored_path_len
            != first.stored_path_len || o.rs.len() != first.rs.len() || o.data.len()
            != first.data.len() {
            assert(!same_shape(*os[t as int], *os[0]));
            return false;
        }
    }
    true
}

impl HidingMerkleCommitment {
    /// The sum of commitments, by reference.
    pub fn sum_commitment_refs(cs: &[&Commitment]) -> (r: Commitment)
        ensures
            r.root@ == hvc_sum(cs@.map(|_i: int, c: &Commitment| c.root@)),
            r.root.is_centered(),
    {
        let mut refs: Vec<&HVCPoly> = Vec::with_capacity(cs.len());
        for i in 0..cs.len()
            invariant
                refs.len() == i,
                forall|j: int| 0 <= j < i ==> (#[trigger] refs[j])@ == cs[j].root@,
        {
            refs.push(&cs[i].root);
        }
        let root: HVCPoly = sum_hvc_polys(&refs);
        assert(refs@.map(|_i: int, p: &HVCPoly| p@) =~= cs@.map(
            |_i: int, c: &Commitment| c.root@,
        ));
        Commitment { root }
    }

    /// The sum of openings at one position: each ring centered over its own
    /// modulus.
    pub fn sum_openings(os: &[&Opening]) -> (r: Opening)
        requires
            openings_agree(os@),
        ensures
            is_opening_sum(os@, r),
    {
        let first: &Opening = os[0];
        let rs_len: usize = first.rs.len();
        let total: usize = first.data.len();
        let mut rs: Vec<CsPoly> = Vec::with_capacity(rs_len);
        for j in 0..rs_len
            invariant
                openings_agree(os@),
                rs_len == os[0].rs.len(),
                rs.len() == j,
                forall|i: int| 0 <= i < j ==> (#[trigger] rs[i])@ == cs_sum(rs_slot(os@, i)),
        {
            let mut slot: Vec<&CsPoly> = Vec::with_capacity(os.len());
            for t in 0..os.len()
                invariant
                    openings_agree(os@),
                    rs_len == os[0].rs.len(),
                    j < rs_len,
                    slot.len() == t,
                    forall|u: int| 0 <= u < t ==> (#[trigger] slot[u])@ == rs_slot(os@, j as int)[u],
            {
                assert(same_shape(*os[t as int], *os[0]));
                slot.push(&os[t].rs[j]);
            }
            assert(slot@.map(|_i: int, p: &CsPoly| p@) =~= rs_slot(os@, j as int));
            rs.push(sum_cs_polys(&slot));
        }
        let mut data: Vec<HVCPoly> = Vec::with_capacity(total);
        for j in 0..total
            invariant
                openings_agree(os@),
                total == os[0].data.len(),
                data.len() == j,
                forall|i: int| 0 <= i < j ==> (#[trigger] data[i])@ == hvc_sum(data_slot(os@, i)),
        {
            let mut slot: Vec<&HVCPoly> = Vec::with_capacity(os.len());
            for t in 0..os.len()
                invariant
                    openings_agree(os@),
                    total == os[0].data.len(),
                    j < total,
                    slot.len() == t,
                    forall|u: int|
                        0 <= u < t ==> (#[trigger] slot[u])@ == data_slot(os@, j as int)[u],
            {
                assert(same_shape(*os[t as int], *os[0]));
                slot.push(&os[t].data[j]);
            }
            assert(slot@.map(|_i: int, p: &HVCPoly| p@) =~= data_slot(os@, j as int));
            data.push(sum_hvc_polys(&slot));
        }
        Opening {
            server_index: first.server_index,
            path_index: first.path_index,
            kappa_cs: first.kappa_cs,
            mu_cs: first.mu_cs,
            stored_path_len: first.stored_path_len,
            rs,
            data,
        }
    }
}

// ---------------------------------------------------------------
// Why sums open
// ---------------------------------------------------------------

/// Coefficient-wise integer sum.
pub open spec fn exact_sum(s: Seq<Coeffs>) -> Coeffs {
    Seq::new(N as nat, |k: int| sum(coefficient(s, k)))
}

/// The integer sums of `r` then `s`.
pub open spec fn rs_total(os: Seq<&Opening>, len: nat) -> Seq<Coeffs> {
    Seq::new(len, |j: int| exact_sum(rs_slot(os, j)))
}

/// The integer sums of the digits.
pub open spec fn data_total(os: Seq<&Opening>, len: nat) -> Seq<Coeffs> {
    Seq::new(len, |j: int| exact_sum(data_slot(os, j)))
}

proof fn lemma_rec_add(x: Seq<Coeffs>, y: Seq<Coeffs>, i: int)
    requires
        x.len() == y.len(),
        full(x),
        full(y),
        0 <= i < N,
    ensures
        rec(add_polys(x, y), i) == rec(x, i) + rec(y, i),
{
    let (a, b) = (column(x, i), column(y, i));
    lemma_recomposed_linear(a, b);
    assert forall|d: int| 0 <= d < x.len() implies column(add_polys(x, y), i)[d] == a[d] + b[d] by {
        assert(x[d].len() == N);
    }
    assert(column(add_polys(x, y), i) =~= Seq::new(a.len(), |d: int| a[d] + b[d]));
}

proof fn lemma_add_subrange(x: Seq<Coeffs>, y: Seq<Coeffs>, lo: int, hi: int)
    requires
        x.len() == y.len(),
        0 <= lo <= hi <= x.len(),
        full(x),
        full(y),
    ensures
        add_polys(x, y).subrange(lo, hi) == add_polys(x.subrange(lo, hi), y.subrange(lo, hi)),
        full(x.subrange(lo, hi)),
        full(y.subrange(lo, hi)),
{
    assert(add_polys(x, y).subrange(lo, hi) =~= add_polys(x.subrange(lo, hi), y.subrange(lo, hi)));
}

/// The path relations are additive.
pub proof fn lemma_path_add(
    keys: Seq<Coeffs>,
    g: Seq<Coeffs>,
    index: int,
    xi: int,
    plen: int,
    root_a: Coeffs,
    data_a: Seq<Coeffs>,
    root_b: Coeffs,
    data_b: Seq<Coeffs>,
    i: int,
)
    requires
        plen >= 0,
        xi >= 0,
        0 <= i < N,
        full(keys),
        full(g),
        keys.len() == 6,
        g.len() == 3 * xi,
        root_a.len() == N,
        root_b.len() == N,
        data_a.len() == data_polys(xi, plen),
        data_b.len() == data_a.len(),
        full(data_a),
        full(data_b),
        path_holds(keys, g, root_a, index, xi, plen, data_a, i),
        path_holds(keys, g, root_b, index, xi, plen, data_b, i),
    ensures
        path_holds(
            keys,
            g,
            combine(root_a, 1, root_b),
            index,
            xi,
            plen,
            add_polys(data_a, data_b),
            i,
        ),
{
    let data = add_polys(data_a, data_b);
    let root = combine(root_a, 1, root_b);
    lemma_dot_linear(g, data_a, data_b, i, (3 * xi) as nat);
    let (ga, gb) = (
        dot_at(g, data_a, i, (3 * xi) as nat),
        dot_at(g, data_b, i, (3 * xi) as nat),
    );
    if plen == 0 {
        field::lemma_cong_ops(root_a[i], ga, root_b[i], gb, hvc::q());
    }
    assert forall|l: int, right: bool| 0 <= l < plen implies #[trigger] rec(
        child_digits(data, xi, l, right),
        i,
    ) == rec(child_digits(data_a, xi, l, right), i) + rec(
        child_digits(data_b, xi, l, right),
        i,
    ) by {
        let at = 3 * xi + 6 * l + (if right { 3int } else { 0 });
        lemma_add_subrange(data_a, data_b, at, at + 3);
        lemma_rec_add(
            child_digits(data_a, xi, l, right),
            child_digits(data_b, xi, l, right),
            i,
        );
    }
    assert forall|l: int, la: int, lb: int|
        0 <= l < plen && pair_hashes(keys, data_a, xi, l, i, la) && pair_hashes(
            keys,
            data_b,
            xi,
            l,
            i,
            lb,
        ) implies #[trigger] pair_hashes(keys, data, xi, l, i, la + lb) by {
        lemma_add_subrange(data_a, data_b, 3 * xi + 6 * l, 3 * xi + 6 * l + 6);
        lemma_dot_linear(
            keys,
            pair_digits(data_a, xi, l),
            pair_digits(data_b, xi, l),
            i,
            6,
        );
        field::lemma_cong_ops(
            dot_at(keys, pair_digits(data_a, xi, l), i, 6),
            la,
            dot_at(keys, pair_digits(data_b, xi, l), i, 6),
            lb,
            hvc::q(),
        );
    }
    if plen > 0 {
        assert(pair_hashes(keys, data, xi, 0, i, root_a[i] + root_b[i]));
        let right = is_right(index, 0);
        field::lemma_cong_ops(
            rec(child_digits(data_a, xi, plen - 1, right), i),
            ga,
            rec(child_digits(data_b, xi, plen - 1, right), i),
            gb,
            hvc::q(),
        );
        assert(rec(child_digits(data, xi, plen - 1, right), i) == rec(
            child_digits(data_a, xi, plen - 1, right),
            i,
        ) + rec(child_digits(data_b, xi, plen - 1, right), i));
    }
    assert forall|l: int| 1 <= l < plen implies #[trigger] pair_hashes(
        keys,
        data,
        xi,
        l,
        i,
        rec(child_digits(data, xi, l - 1, is_right(index, (plen - l) as nat)), i),
    ) by {
        let right = is_right(index, (plen - l) as nat);
        let la = rec(child_digits(data_a, xi, l - 1, right), i);
        let lb = rec(child_digits(data_b, xi, l - 1, right), i);
        assert(pair_hashes(keys, data_a, xi, l, i, la));
        assert(pair_hashes(keys, data_b, xi, l, i, lb));
        assert(pair_hashes(keys, data, xi, l, i, la + lb));
        assert(rec(child_digits(data, xi, l - 1, right), i) == la + lb);
    }
}

/// The relations are additive.
pub proof fn lemma_relations_add(
    pp: CsParams,
    index: int,
    plen: int,
    root_a: Coeffs,
    rs_a: Seq<Coeffs>,
    data_a: Seq<Coeffs>,
    root_b: Coeffs,
    rs_b: Seq<Coeffs>,
    data_b: Seq<Coeffs>,
)
    requires
        pp.wf(),
        plen >= 0,
        root_a.len() == N,
        root_b.len() == N,
        rs_a.len() == pp.kappa_cs + pp.mu_cs,
        rs_b.len() == rs_a.len(),
        data_a.len() == data_polys(1 + pp.mu_cs, plen),
        data_b.len() == data_a.len(),
        full(rs_a),
        full(rs_b),
        full(data_a),
        full(data_b),
        relations(pp, root_a, index, plen, rs_a, data_a),
        relations(pp, root_b, index, plen, rs_b, data_b),
    ensures
        relations(
            pp,
            combine(root_a, 1, root_b),
            index,
            plen,
            add_polys(rs_a, rs_b),
            add_polys(data_a, data_b),
        ),
{
    let xi = 1 + pp.mu_cs;
    let rs = add_polys(rs_a, rs_b);
    let data = add_polys(data_a, data_b);
    let root = combine(root_a, 1, root_b);
    assert forall|k: int| 0 <= k < xi implies #[trigger] leaf_holds(pp, rs, data, k) by {
        assert(leaf_holds(pp, rs_a, data_a, k) && leaf_holds(pp, rs_b, data_b, k));
        lemma_add_subrange(data_a, data_b, 3 * k, 3 * k + 3);
        assert forall|i: int| 0 <= i < N implies cong(
            #[trigger] rec(leaf_digits(data, k), i),
            leaf_at(pp, rs, k, i),
            q(),
        ) by {
            lemma_rec_add(leaf_digits(data_a, k), leaf_digits(data_b, k), i);
            let row = if k == 0 { pp.a() } else { pp.b(k - 1) };
            if k > 0 {
                assert(pp.b_matrix_ntt[k - 1].len() == pp.kappa_cs);
                assert(rs_a[pp.kappa_cs + k - 1].len() == N);
            }
            lemma_dot_linear(row, rs_a, rs_b, i, pp.kappa_cs as nat);
            field::lemma_cong_ops(
                rec(leaf_digits(data_a, k), i),
                leaf_at(pp, rs_a, k, i),
                rec(leaf_digits(data_b, k), i),
                leaf_at(pp, rs_b, k, i),
                q(),
            );
        }
    }
    assert forall|i: int| 0 <= i < N implies #[trigger] path_holds(
        pp.keys(),
        pp.g(),
        root,
        index,
        xi,
        plen,
        data,
        i,
    ) by {
        assert(path_holds(pp.keys(), pp.g(), root_a, index, xi, plen, data_a, i));
        assert(path_holds(pp.keys(), pp.g(), root_b, index, xi, plen, data_b, i));
        lemma_path_add(
            pp.keys(),
            pp.g(),
            index,
            xi,
            plen,
            root_a,
            data_a,
            root_b,
            data_b,
            i,
        );
    }
}

/// The relations see the root and `(r, s)` only modulo their rings' moduli.
pub proof fn lemma_relations_cong(
    pp: CsParams,
    index: int,
    plen: int,
    root_a: Coeffs,
    rs_a: Seq<Coeffs>,
    root_b: Coeffs,
    rs_b: Seq<Coeffs>,
    data: Seq<Coeffs>,
)
    requires
        pp.wf(),
        plen >= 0,
        rs_a.len() == pp.kappa_cs + pp.mu_cs,
        rs_b.len() == rs_a.len(),
        full(rs_a),
        full(rs_b),
        root_a.len() == N,
        root_b.len() == N,
        cong_poly(root_a, root_b, hvc::q()),
        forall|j: int| 0 <= j < rs_a.len() ==> cong_poly(#[trigger] rs_a[j], rs_b[j], q()),
        relations(pp, root_a, index, plen, rs_a, data),
    ensures
        relations(pp, root_b, index, plen, rs_b, data),
{
    let xi = 1 + pp.mu_cs;
    assert forall|k: int| 0 <= k < xi implies #[trigger] leaf_holds(pp, rs_b, data, k) by {
        assert(leaf_holds(pp, rs_a, data, k));
        assert forall|i: int| 0 <= i < N implies cong(
            #[trigger] rec(leaf_digits(data, k), i),
            leaf_at(pp, rs_b, k, i),
            q(),
        ) by {
            let row = if k == 0 { pp.a() } else { pp.b(k - 1) };
            let (da, db) = (
                dot_at(row, rs_a, i, pp.kappa_cs as nat),
                dot_at(row, rs_b, i, pp.kappa_cs as nat),
            );
            if k > 0 {
                assert(pp.b_matrix_ntt[k - 1].len() == pp.kappa_cs);
            }
            lemma_dot_cong(row, rs_a, rs_b, i, pp.kappa_cs as nat, q());
            if k > 0 {
                let j = pp.kappa_cs + k - 1;
                assert(cong_poly(rs_a[j], rs_b[j], q()));
                assert(rs_a[j].len() == N);
                assert(cong(rs_a[j][i], rs_b[j][i], q()));
                field::lemma_cong_ops(da, db, rs_a[j][i], rs_b[j][i], q());
            }
        }
    }
    assert forall|i: int| 0 <= i < N implies #[trigger] path_holds(
        pp.keys(),
        pp.g(),
        root_b,
        index,
        xi,
        plen,
        data,
        i,
    ) by {
        assert(path_holds(pp.keys(), pp.g(), root_a, index, xi, plen, data, i));
        assert(cong(root_a[i], root_b[i], hvc::q()));
    }
}

proof fn lemma_exact_push(s: Seq<Coeffs>, x: Coeffs)
    requires
        x.len() == N,
    ensures
        exact_sum(s.push(x)) == combine(exact_sum(s), 1, x),
{
    assert forall|k: int| 0 <= k < N implies exact_sum(s.push(x))[k] == exact_sum(s)[k] + 1
        * x[k] by {
        assert(coefficient(s.push(x), k) =~= coefficient(s, k).push(x[k]));
        field::lemma_sum_push(coefficient(s, k), x[k]);
    }
    assert(exact_sum(s.push(x)) =~= combine(exact_sum(s), 1, x));
}

proof fn lemma_exact_single(x: Coeffs)
    requires
        x.len() == N,
    ensures
        exact_sum(seq![x]) == x,
{
    assert forall|k: int| 0 <= k < N implies exact_sum(seq![x])[k] == x[k] by {
        let c = coefficient(seq![x], k);
        assert(c.drop_last() =~= Seq::<int>::empty());
        assert(sum(c.drop_last()) == 0);
    }
    assert(exact_sum(seq![x]) =~= x);
}

/// Every opening has the parameters' shape, sits at `index`, and satisfies the
/// relations against its root.
pub open spec fn all_relate(
    pp: CsParams,
    os: Seq<&Opening>,
    roots: Seq<Coeffs>,
    index: int,
) -> bool {
    &&& roots.len() == os.len()
    &&& full(roots)
    &&& forall|t: int|
        #![trigger os[t]]
        0 <= t < os.len() ==> {
            &&& shape_fits(pp, *os[t])
            &&& os[t].path_index == index
            &&& relations(
                pp,
                roots[t],
                index,
                pp.depth() as int,
                cs_views(os[t].rs@),
                views(os[t].data@),
            )
        }
}

proof fn lemma_total_relations(pp: CsParams, os: Seq<&Opening>, roots: Seq<Coeffs>, index: int)
    requires
        pp.wf(),
        os.len() > 0,
        all_relate(pp, os, roots, index),
    ensures
        relations(
            pp,
            exact_sum(roots),
            index,
            pp.depth() as int,
            rs_total(os, (pp.kappa_cs + pp.mu_cs) as nat),
            data_total(os, data_polys(1 + pp.mu_cs, pp.depth() as int) as nat),
        ),
    decreases os.len(),
{
    let rl = (pp.kappa_cs + pp.mu_cs) as nat;
    let dl = data_polys(1 + pp.mu_cs, pp.depth() as int) as nat;
    let last = os.last();
    assert(last == os[os.len() - 1]);
    let (lr, ld) = (cs_views(last.rs@), views(last.data@));
    assert(roots.last().len() == N);
    if os.len() == 1 {
        assert(roots =~= seq![roots[0]]);
        lemma_exact_single(roots[0]);
        assert(rs_total(os, rl) =~= lr) by {
            assert forall|j: int| 0 <= j < rl implies rs_total(os, rl)[j] == lr[j] by {
                assert(rs_slot(os, j) =~= seq![lr[j]]);
                lemma_exact_single(lr[j]);
            }
        }
        assert(data_total(os, dl) =~= ld) by {
            assert forall|j: int| 0 <= j < dl implies data_total(os, dl)[j] == ld[j] by {
                assert(data_slot(os, j) =~= seq![ld[j]]);
                lemma_exact_single(ld[j]);
            }
        }
    } else {
        let (po, pr) = (os.drop_last(), roots.drop_last());
        assert forall|t: int| #![trigger po[t]] 0 <= t < po.len() implies po[t] == os[t]
            && pr[t] == roots[t] by {}
        assert(all_relate(pp, po, pr, index));
        lemma_total_relations(pp, po, pr, index);
        lemma_relations_add(
            pp,
            index,
            pp.depth() as int,
            exact_sum(pr),
            rs_total(po, rl),
            data_total(po, dl),
            roots.last(),
            lr,
            ld,
        );
        assert(roots =~= pr.push(roots.last()));
        lemma_exact_push(pr, roots.last());
        assert(rs_total(os, rl) =~= add_polys(rs_total(po, rl), lr)) by {
            assert forall|j: int| 0 <= j < rl implies rs_total(os, rl)[j] == combine(
                rs_total(po, rl)[j],
                1,
                lr[j],
            ) by {
                assert(rs_slot(os, j) =~= rs_slot(po, j).push(lr[j]));
                lemma_exact_push(rs_slot(po, j), lr[j]);
            }
        }
        assert(data_total(os, dl) =~= add_polys(data_total(po, dl), ld)) by {
            assert forall|j: int| 0 <= j < dl implies data_total(os, dl)[j] == combine(
                data_total(po, dl)[j],
                1,
                ld[j],
            ) by {
                assert(data_slot(os, j) =~= data_slot(po, j).push(ld[j]));
                lemma_exact_push(data_slot(po, j), ld[j]);
            }
        }
    }
}

/// A sum of `n` values in `[-b, b]` lies in `[-n*b, n*b]`.
pub proof fn lemma_sum_within(s: Seq<int>, b: int)
    requires
        forall|i: int| 0 <= i < s.len() ==> -b <= #[trigger] s[i] <= b,
    ensures
        -(s.len() * b) <= sum(s) <= s.len() * b,
    decreases s.len(),
{
    if s.len() > 0 {
        let n = s.len() as int;
        lemma_sum_within(s.drop_last(), b);
        assert(-b <= s[n - 1] <= b);
        assert((n - 1) * b + b == n * b) by (nonlinear_arith);
    } else {
        assert(0 * b == 0);
    }
}

/// The sum of openings opens the sum of commitments, as long as the bounds on
/// what is summed keep the totals within the acceptance bounds.
pub proof fn law_sum_opens(
    pp: CsParams,
    os: Seq<&Opening>,
    roots: Seq<Coeffs>,
    o: Opening,
    r_bound: int,
    digit_bound: int,
)
    requires
        pp.wf(),
        os.len() > 0,
        all_relate(pp, os, roots, os[0].path_index as int),
        forall|t: int|
            #![trigger os[t]]
            0 <= t < os.len() ==> all_within(
                cs_views(os[t].rs@).take(pp.kappa_cs as int),
                r_bound,
            ) && all_within(views(os[t].data@), digit_bound),
        os.len() * r_bound <= pp.r_bound,
        os.len() * digit_bound <= pp.beta_agg_hvc,
        is_opening_sum(os, o),
    ensures
        opens(pp, hvc_sum(roots), o),
{
    let index = os[0].path_index as int;
    let rl = (pp.kappa_cs + pp.mu_cs) as nat;
    let dl = data_polys(1 + pp.mu_cs, pp.depth() as int) as nat;
    let n = os.len() as int;
    lemma_total_relations(pp, os, roots, index);
    let (rt, dt) = (rs_total(os, rl), data_total(os, dl));
    let (orv, od) = (cs_views(o.rs@), views(o.data@));
    assert(shape_fits(pp, *os[0]));
    assert forall|j: int, i: int| 0 <= j < dl && 0 <= i < N implies #[trigger] od[j][i] == dt[j][i]
        && -pp.beta_agg_hvc <= od[j][i] <= pp.beta_agg_hvc by {
        let c = coefficient(data_slot(os, j), i);
        assert forall|t: int| 0 <= t < c.len() implies -digit_bound <= #[trigger] c[t]
            <= digit_bound by {
            let d = views(os[t].data@);
            assert(all_within(d, digit_bound));
            assert(shape_fits(pp, *os[t]));
            assert(within(d[j], digit_bound));
            assert(c[t] == d[j][i]);
        }
        lemma_sum_within(c, digit_bound);
        assert(c.len() == n);
        lemma_centered_id(sum(c), hvc::q());
        assert(o.data[j]@ == hvc_sum(data_slot(os, j)));
    }
    assert(od =~= dt) by {
        assert forall|j: int| 0 <= j < dl implies od[j] == dt[j] by {
            assert(od[j].len() == N);
            assert forall|i: int| 0 <= i < N implies od[j][i] == dt[j][i] by {}
            assert(od[j] =~= dt[j]);
        }
    }
    assert(all_within(od, pp.beta_agg_hvc as int)) by {
        assert forall|j: int| 0 <= j < od.len() implies within(
            #[trigger] od[j],
            pp.beta_agg_hvc as int,
        ) by {
            assert forall|i: int| 0 <= i < od[j].len() implies -pp.beta_agg_hvc
                <= #[trigger] od[j][i] <= pp.beta_agg_hvc by {}
        }
    }
    assert(all_within(orv.take(pp.kappa_cs as int), pp.r_bound as int)) by {
        let ot = orv.take(pp.kappa_cs as int);
        assert forall|j: int| 0 <= j < ot.len() implies within(
            #[trigger] ot[j],
            pp.r_bound as int,
        ) by {
            assert forall|i: int| 0 <= i < ot[j].len() implies -pp.r_bound <= #[trigger] ot[j][i]
                <= pp.r_bound by {
                let c = coefficient(rs_slot(os, j), i);
                assert forall|t: int| 0 <= t < c.len() implies -r_bound <= #[trigger] c[t]
                    <= r_bound by {
                    assert(shape_fits(pp, *os[t]));
                    let d = cs_views(os[t].rs@).take(pp.kappa_cs as int);
                    assert(all_within(d, r_bound));
                    assert(within(d[j], r_bound));
                    assert(c[t] == d[j][i]);
                }
                lemma_sum_within(c, r_bound);
                assert(c.len() == n);
                lemma_centered_id(sum(c), q());
                assert(o.rs[j]@ == cs_sum(rs_slot(os, j)));
            }
        }
    }
    assert forall|j: int| 0 <= j < rt.len() implies cong_poly(#[trigger] rt[j], orv[j], q()) by {
        assert(o.rs[j]@ == cs_sum(rs_slot(os, j)));
        assert forall|i: int| 0 <= i < N implies cong(#[trigger] rt[j][i], orv[j][i], q()) by {
            lemma_centered(sum(coefficient(rs_slot(os, j), i)), q());
        }
    }
    let hs = hvc_sum(roots);
    assert(cong_poly(exact_sum(roots), hs, hvc::q())) by {
        assert forall|i: int| 0 <= i < N implies cong(
            #[trigger] exact_sum(roots)[i],
            hs[i],
            hvc::q(),
        ) by {
            lemma_centered(sum(coefficient(roots, i)), hvc::q());
        }
    }
    lemma_relations_cong(pp, index, pp.depth() as int, exact_sum(roots), rt, hs, orv, od);
}

/// A summed opening takes every opening: each stored coefficient is centered and
/// congruent to the sum over all of them, modulo its own ring's modulus.
pub proof fn law_sums_take_every_opening(os: Seq<&Opening>, o: Opening, j: int, k: int)
    requires
        is_opening_sum(os, o),
        0 <= k < N,
    ensures
        0 <= j < o.rs.len() ==> cong(
            o.rs[j]@[k],
            sum(Seq::new(os.len(), |t: int| os[t].rs[j]@[k])),
            CS_MODULUS as int,
        ) && -CS_MODULUS < 2 * o.rs[j]@[k] < CS_MODULUS,
        0 <= j < o.data.len() ==> cong(
            o.data[j]@[k],
            sum(Seq::new(os.len(), |t: int| os[t].data[j]@[k])),
            HVC_MODULUS as int,
        ) && -HVC_MODULUS < 2 * o.data[j]@[k] < HVC_MODULUS,
        o.path_index == os[0].path_index,
        o.rs.len() == os[0].rs.len(),
        o.data.len() == os[0].data.len(),
{
    let (a, b) = (
        Seq::new(os.len(), |t: int| os[t].rs[j]@[k]),
        Seq::new(os.len(), |t: int| os[t].data[j]@[k]),
    );
    assert(coefficient(rs_slot(os, j), k) =~= a);
    assert(coefficient(data_slot(os, j), k) =~= b);
    lemma_centered(sum(a), CS_MODULUS as int);
    lemma_centered(sum(b), HVC_MODULUS as int);
}

} // verus!
