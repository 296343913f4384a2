//! Committing, summing openings, and the laws that tie both to verification.

use crate::cs::{
    all_within, bridge_leaf, child_digits, data_polys, leaf_at, leaf_block, leaf_digits,
    leaf_holds, lemma_dot_prefix, lemma_hash_cong, lemma_rec_digits, opens, pair_digits,
    pair_hashes, path_holds, q, rec, relations, shape_fits, Commitment, CsParams,
    HidingMerkleCommitment, Opening,
};
use crate::field::cong;
use crate::hvc::{
    self, ancestor, full, hvc_hash, is_right, label_digits, node, push_polys, Path, Tree,
};
use crate::negacyclic::{centered, dot_at, lemma_centered, within, Coeffs, N};
use crate::random::{
    self, fork_seeds, gives_seed, lemma_run_empty, lemma_run_push, run, signed_values, started, starts,
};
use crate::rings::{digit_polys, views, CsPoly, HVCPoly, ZETA};
use crate::sss::cs_views;
use rand_chacha::ChaCha20Rng;
use vstd::arithmetic::power2::{lemma2_to64, lemma_pow2_adds, pow2};
use vstd::prelude::*;

verus! {

// ---------------------------------------------------------------
// Fresh openings
// ---------------------------------------------------------------

/// Leaf element `k`, centered.
pub open spec fn leaf_poly(pp: CsParams, rs: Seq<Coeffs>, k: int) -> Coeffs {
    Seq::new(N as nat, |i: int| centered(leaf_at(pp, rs, k, i), q()))
}

/// The digits of the whole leaf.
pub open spec fn leaf_u(pp: CsParams, rs: Seq<Coeffs>) -> Seq<Coeffs> {
    Seq::new(
        (3 * (1 + pp.mu_cs)) as nat,
        |j: int| digit_polys(leaf_poly(pp, rs, j / 3), q(), 3)[j % 3],
    )
}

/// The label of a leaf.
pub open spec fn leaf_label(pp: CsParams, rs: Seq<Coeffs>) -> Coeffs {
    hvc_hash(pp.g(), leaf_u(pp, rs))
}

/// The leaf labels of all servers, padded with zeros.
pub open spec fn labels(pp: CsParams, all: Seq<Seq<Coeffs>>) -> Seq<Coeffs> {
    Seq::new(
        pp.n_leaves as nat,
        |i: int|
            if i < all.len() {
                leaf_label(pp, all[i])
            } else {
                Seq::new(N as nat, |_k: int| 0int)
            },
    )
}

/// The root over leaves `ls`.
pub open spec fn root_of(pp: CsParams, ls: Seq<Coeffs>) -> Coeffs {
    node(pp.keys(), ls, pp.depth(), 0)
}

/// The digits of the pair at path level `l` of leaf `index`.
pub open spec fn fresh_pair(
    keys: Seq<Coeffs>,
    depth: nat,
    ls: Seq<Coeffs>,
    index: int,
    l: int,
) -> Seq<Coeffs> {
    let h = (depth - 1 - l) as nat;
    let p = ancestor(index, h + 1);
    label_digits(node(keys, ls, h, 2 * p)) + label_digits(node(keys, ls, h, 2 * p + 1))
}

/// `data` holds, after `3 * xi` leaf digits, the path of leaf `index` over `ls`.
pub open spec fn fresh_path(
    keys: Seq<Coeffs>,
    depth: nat,
    ls: Seq<Coeffs>,
    index: int,
    xi: int,
    data: Seq<Coeffs>,
) -> bool {
    &&& data.len() == data_polys(xi, depth as int)
    &&& forall|l: int|
        0 <= l < depth ==> #[trigger] pair_digits(data, xi, l) == fresh_pair(
            keys,
            depth,
            ls,
            index,
            l,
        )
}

/// `data` holds the leaf digits of `rs` and the path of leaf `index` over `ls`.
pub open spec fn is_fresh(
    pp: CsParams,
    ls: Seq<Coeffs>,
    index: int,
    rs: Seq<Coeffs>,
    data: Seq<Coeffs>,
) -> bool {
    &&& data.take(3 * (1 + pp.mu_cs)) == leaf_u(pp, rs)
    &&& fresh_path(pp.keys(), pp.depth(), ls, index, 1 + pp.mu_cs, data)
}

/// Halving an index below `2^(h + m)` `h` times leaves it below `2^m`.
pub proof fn lemma_ancestor_bound(i: int, h: nat, m: nat)
    requires
        0 <= i < pow2(h + m),
    ensures
        0 <= ancestor(i, h) < pow2(m),
    decreases h,
{
    if h > 0 {
        lemma_ancestor_bound(i, (h - 1) as nat, m + 1);
        lemma_pow2_adds(m, 1);
        lemma2_to64();
    }
}

proof fn lemma_leaf_u_digits(pp: CsParams, rs: Seq<Coeffs>, k: int)
    requires
        0 <= k < 1 + pp.mu_cs,
    ensures
        leaf_u(pp, rs).subrange(3 * k, 3 * k + 3) == digit_polys(leaf_poly(pp, rs, k), q(), 3),
{
    let d = digit_polys(leaf_poly(pp, rs, k), q(), 3);
    assert forall|j: int| 0 <= j < 3 implies leaf_u(pp, rs)[3 * k + j] == #[trigger] d[j] by {
        assert((3 * k + j) / 3 == k && (3 * k + j) % 3 == j);
    }
    assert(leaf_u(pp, rs).subrange(3 * k, 3 * k + 3) =~= d);
}

proof fn lemma_node_full(keys: Seq<Coeffs>, ls: Seq<Coeffs>, h: nat, i: int)
    requires
        full(ls),
        h > 0 || 0 <= i < ls.len(),
    ensures
        node(keys, ls, h, i).len() == N,
{
    if h == 0 {
        assert(ls[i].len() == N);
    }
}

proof fn lemma_label_rec(c: Coeffs, i: int)
    requires
        c.len() == N,
        0 <= i < N,
    ensures
        cong(rec(label_digits(c), i), c[i], hvc::q()),
{
    lemma_rec_digits(c, hvc::q(), i);
    lemma_centered(c[i], hvc::q());
}

/// A fresh path satisfies the path relations.
pub proof fn lemma_fresh_path(
    keys: Seq<Coeffs>,
    g: Seq<Coeffs>,
    depth: nat,
    ls: Seq<Coeffs>,
    index: int,
    xi: int,
    data: Seq<Coeffs>,
    i: int,
)
    requires
        depth >= 1,
        xi >= 0,
        0 <= i < N,
        keys.len() == 6,
        full(ls),
        ls.len() == pow2(depth),
        0 <= index < ls.len(),
        fresh_path(keys, depth, ls, index, xi, data),
        cong(ls[index][i], dot_at(g, data, i, (3 * xi) as nat), hvc::q()),
    ensures
        path_holds(keys, g, node(keys, ls, depth, 0), index, xi, depth as int, data, i),
{
    let n = depth as int;
    let root = node(keys, ls, depth, 0);
    lemma_ancestor_bound(index, depth, 0);
    lemma2_to64();
    assert forall|l: int| 0 <= l < n implies cong(
        dot_at(keys, #[trigger] pair_digits(data, xi, l), i, 6),
        node(keys, ls, (n - l) as nat, ancestor(index, (n - l) as nat))[i],
        hvc::q(),
    ) by {
        lemma_hash_cong(keys, pair_digits(data, xi, l), i);
        assert(pair_digits(data, xi, l) == fresh_pair(keys, depth, ls, index, l));
    }
    assert forall|l: int, right: bool|
        0 <= l < n && right == is_right(index, (n - 1 - l) as nat) implies cong(
        rec(#[trigger] child_digits(data, xi, l, right), i),
        node(keys, ls, (n - 1 - l) as nat, ancestor(index, (n - 1 - l) as nat))[i],
        hvc::q(),
    ) by {
        let h = (n - 1 - l) as nat;
        let p = ancestor(index, h + 1);
        let c = ancestor(index, h);
        assert(p == c / 2);
        lemma_ancestor_bound(index, h, (n - h) as nat);
        let side = if right { 2 * p + 1 } else { 2 * p };
        assert(side == c);
        let lab = node(keys, ls, h, c);
        if h == 0 {
            assert(c == index);
        }
        lemma_node_full(keys, ls, h, c);
        let pair = pair_digits(data, xi, l);
        assert(pair == fresh_pair(keys, depth, ls, index, l));
        assert(child_digits(data, xi, l, right) =~= (if right {
            pair.subrange(3, 6)
        } else {
            pair.subrange(0, 3)
        }));
        assert(child_digits(data, xi, l, right) =~= label_digits(lab));
        lemma_label_rec(lab, i);
    }
    assert(pair_hashes(keys, data, xi, 0, i, root[i])) by {
        let pd = pair_digits(data, xi, 0);
        assert(ancestor(index, n as nat) == 0);
    }
    assert forall|l: int| 1 <= l < n implies #[trigger] pair_hashes(
        keys,
        data,
        xi,
        l,
        i,
        rec(child_digits(data, xi, l - 1, is_right(index, (n - l) as nat)), i),
    ) by {
        let pd = pair_digits(data, xi, l);
        let right = is_right(index, (n - l) as nat);
        let cd = child_digits(data, xi, l - 1, right);
    }
    let right = is_right(index, 0);
    let cd = child_digits(data, xi, n - 1, right);
    assert(ancestor(index, 0) == index);
}

/// A fresh opening satisfies every relation against the root of its tree.
pub proof fn lemma_fresh_relations(
    pp: CsParams,
    ls: Seq<Coeffs>,
    index: int,
    rs: Seq<Coeffs>,
    data: Seq<Coeffs>,
)
    requires
        pp.wf(),
        full(ls),
        ls.len() == pp.n_leaves,
        0 <= index < pp.n_leaves,
        ls[index] == leaf_label(pp, rs),
        is_fresh(pp, ls, index, rs, data),
    ensures
        relations(pp, root_of(pp, ls), index, pp.depth() as int, rs, data),
{
    let xi = 1 + pp.mu_cs;
    let n = pp.depth() as int;
    let keys = pp.keys();
    let u = leaf_u(pp, rs);
    assert forall|k: int| 0 <= k < xi implies #[trigger] leaf_holds(pp, rs, data, k) by {
        lemma_leaf_u_digits(pp, rs, k);
        assert(leaf_digits(data, k) =~= u.subrange(3 * k, 3 * k + 3)) by {
            assert forall|j: int| 0 <= j < 3 implies #[trigger] leaf_digits(data, k)[j] == u[3 * k
                + j] by {
                assert(data.take(3 * xi)[3 * k + j] == u[3 * k + j]);
            }
        }
        assert forall|i: int| 0 <= i < N implies cong(
            #[trigger] rec(leaf_digits(data, k), i),
            leaf_at(pp, rs, k, i),
            q(),
        ) by {
            lemma_rec_digits(leaf_poly(pp, rs, k), q(), i);
            lemma_centered(leaf_at(pp, rs, k, i), q());
            lemma_centered(centered(leaf_at(pp, rs, k, i), q()), q());
        }
    }
    assert forall|i: int| 0 <= i < N implies #[trigger] path_holds(
        keys,
        pp.g(),
        root_of(pp, ls),
        index,
        xi,
        n,
        data,
        i,
    ) by {
        lemma_hash_cong(pp.g(), u, i);
        assert forall|t: int| 0 <= t < 3 * xi implies #[trigger] u[t] == data[t] by {
            assert(data.take(3 * xi)[t] == data[t]);
        }
        lemma_dot_prefix(pp.g(), u, data, i, (3 * xi) as nat);
        lemma_fresh_path(keys, pp.g(), pp.depth(), ls, index, xi, data, i);
    }
}

/// What one server's leaf contributes: digits and label.
fn server_leaf(pp: &CsParams, r: &Vec<CsPoly>, s: &Vec<CsPoly>) -> (out: (HVCPoly, Vec<HVCPoly>))
    requires
        pp.wf(),
        r.len() == pp.kappa_cs,
        s.len() == pp.mu_cs,
    ensures
        out.0@ == leaf_label(*pp, cs_views(r@) + cs_views(s@)),
        views(out.1@) == leaf_u(*pp, cs_views(r@) + cs_views(s@)),
        all_within(views(out.1@), ZETA as int),
{
    let ghost rs = cs_views(r@) + cs_views(s@);
    let raw: Vec<CsPoly> = leaf_block(pp, r, s);
    let u: Vec<HVCPoly> = bridge_leaf(&raw);
    proof {
        assert forall|k: int| 0 <= k < 1 + pp.mu_cs implies #[trigger] raw[k]@ == leaf_poly(
            *pp,
            rs,
            k,
        ) by {
            assert(raw[k]@ =~= leaf_poly(*pp, rs, k));
        }
        assert(views(u@) =~= leaf_u(*pp, rs)) by {
            assert forall|j: int| 0 <= j < u.len() implies views(u@)[j] == leaf_u(*pp, rs)[j] by {
                let k = j / 3;
                assert(raw[k]@ == leaf_poly(*pp, rs, k));
                let part = views(u@).subrange(3 * k, 3 * k + 3);
                assert(part == digit_polys(raw[k]@, q(), 3));
                assert(part[j % 3] == views(u@)[j]);
            }
        }
    }
    let label: HVCPoly = pp.leaf_hash.hash(&u);
    (label, u)
}

/// `r` then `s` of server `i`.
pub open spec fn server_rs(randomness: Seq<Vec<CsPoly>>, shares: Seq<Vec<CsPoly>>, i: int) -> Seq<
    Coeffs,
> {
    cs_views(randomness[i]@) + cs_views(shares[i]@)
}

/// `r` then `s` of every server.
pub open spec fn all_rs(randomness: Seq<Vec<CsPoly>>, shares: Seq<Vec<CsPoly>>) -> Seq<
    Seq<Coeffs>,
> {
    Seq::new(shares.len(), |i: int| server_rs(randomness, shares, i))
}

/// What commitment produces for server `i`.
pub open spec fn is_fresh_opening(
    pp: CsParams,
    ls: Seq<Coeffs>,
    rs: Seq<Coeffs>,
    i: int,
    o: Opening,
) -> bool {
    &&& o.server_index == i
    &&& o.path_index == i
    &&& o.shaped()
    &&& shape_fits(pp, o)
    &&& cs_views(o.rs@) == rs
    &&& is_fresh(pp, ls, i, rs, views(o.data@))
    &&& all_within(views(o.data@), ZETA as int)
}

/// Appends the decomposed path; what is there already stays.
pub(crate) fn append_path(
    data: &mut Vec<HVCPoly>,
    path: &Path,
    Ghost(xi): Ghost<int>,
    Ghost(tree): Ghost<Tree>,
)
    requires
        tree.wf(),
        xi >= 0,
        old(data).len() == 3 * xi,
        all_within(views(old(data)@), ZETA as int),
        path.nodes.len() == tree.depth(),
        forall|l: int|
            0 <= l < tree.depth() ==> tree.siblings(
                #[trigger] path.nodes[l],
                (tree.depth() - 1 - l) as nat,
                ancestor(path.index as int, (tree.depth() - l) as nat),
            ),
    ensures
        views(final(data)@).take(3 * xi) == views(old(data)@),
        fresh_path(
            tree.keys@,
            tree.depth() as nat,
            tree.leaves(),
            path.index as int,
            xi,
            views(final(data)@),
        ),
        all_within(views(final(data)@), ZETA as int),
{
    let ghost start = views(data@);
    let ghost keys = tree.keys@;
    let ghost depth = tree.depth() as nat;
    let ghost ls = tree.leaves();
    let ghost ix = path.index as int;
    assert(start.take(3 * xi) =~= start);
    for l in 0..path.nodes.len()
        invariant
            tree.wf(),
            keys == tree.keys@,
            depth == tree.depth(),
            xi >= 0,
            ls == tree.leaves(),
            ix == path.index,
            start.len() == 3 * xi,
            path.nodes.len() == tree.depth(),
            forall|l: int|
                0 <= l < tree.depth() ==> tree.siblings(
                    #[trigger] path.nodes[l],
                    (tree.depth() - 1 - l) as nat,
                    ancestor(path.index as int, (tree.depth() - l) as nat),
                ),
            data.len() == 3 * xi + 6 * l,
            views(data@).take(3 * xi) == start,
            forall|m: int|
                0 <= m < l ==> #[trigger] pair_digits(views(data@), xi, m) == fresh_pair(
                    keys,
                    depth,
                    ls,
                    ix,
                    m,
                ),
            all_within(views(data@), ZETA as int),
    {
        let ghost before = views(data@);
        let left: Vec<HVCPoly> = path.nodes[l].0.decompose_r();
        let right: Vec<HVCPoly> = path.nodes[l].1.decompose_r();
        push_polys(data, &left);
        push_polys(data, &right);
        proof {
            let now = views(data@);
            let add = views(left@) + views(right@);
            assert(now =~= before + add);
            assert(now.take(3 * xi) =~= before.take(3 * xi));
            assert(tree.siblings(
                path.nodes[l as int],
                (tree.depth() - 1 - l) as nat,
                ancestor(ix, (tree.depth() - l) as nat),
            ));
            assert(add == fresh_pair(keys, depth, ls, ix, l as int));
            assert forall|m: int| 0 <= m < l + 1 implies #[trigger] pair_digits(now, xi, m)
                == fresh_pair(keys, depth, ls, ix, m) by {
                if m < l {
                    assert(pair_digits(now, xi, m) =~= pair_digits(before, xi, m));
                } else {
                    assert(pair_digits(now, xi, m) =~= add);
                }
            }
            assert forall|j: int| 0 <= j < now.len() implies within(
                #[trigger] now[j],
                ZETA as int,
            ) by {
                let b = before.len() as int;
                if j < b {
                    assert(within(before[j], ZETA as int));
                } else if j < b + 3 {
                    assert(within(left[j - b]@, ZETA as int));
                } else {
                    assert(within(right[j - b - 3]@, ZETA as int));
                }
            }
        }
    }
}

/// Copies a vector of commitment-ring elements onto `out`.
pub fn push_cs(out: &mut Vec<CsPoly>, s: &[CsPoly])
    ensures
        final(out)@ == old(out)@ + s@,
{
    let ghost start = out@;
    for i in 0..s.len()
        invariant
            out@ == start + s@.take(i as int),
    {
        out.push(s[i]);
        assert(out@ =~= start + s@.take(i + 1));
    }
    assert(s@.take(s.len() as int) =~= s@);
}

impl HidingMerkleCommitment {
    /// Commits to per-server share vectors under given randomness.
    pub fn commit_with(
        pp: &CsParams,
        shares: &[Vec<CsPoly>],
        randomness: &[Vec<CsPoly>],
    ) -> (out: (Commitment, Vec<Opening>))
        requires
            pp.wf(),
            shares.len() == pp.n_servers,
            randomness.len() == pp.n_servers,
            forall|i: int| 0 <= i < shares.len() ==> (#[trigger] shares[i]).len() == pp.mu_cs,
            forall|i: int|
                0 <= i < randomness.len() ==> (#[trigger] randomness[i]).len() == pp.kappa_cs,
            forall|i: int|
                0 <= i < randomness.len() ==> all_within(
                    cs_views((#[trigger] randomness[i])@),
                    pp.beta_cs as int,
                ),
        ensures
            out.0.root@ == root_of(*pp, labels(*pp, all_rs(randomness@, shares@))),
            out.1.len() == pp.n_servers,
            forall|i: int|
                0 <= i < pp.n_servers ==> is_fresh_opening(
                    *pp,
                    labels(*pp, all_rs(randomness@, shares@)),
                    server_rs(randomness@, shares@, i),
                    i,
                    #[trigger] out.1[i],
                ),
            forall|i: int|
                0 <= i < pp.n_servers ==> opens(*pp, out.0.root@, #[trigger] out.1[i]),
    {
        let ghost all = all_rs(randomness@, shares@);
        let ghost ls = labels(*pp, all);
        let mut leaf_labels: Vec<HVCPoly> = Vec::with_capacity(pp.n_leaves);
        let mut server_u: Vec<Vec<HVCPoly>> = Vec::with_capacity(pp.n_servers);
        for i in 0..pp.n_servers
            invariant
                pp.wf(),
                shares.len() == pp.n_servers,
                randomness.len() == pp.n_servers,
                forall|i: int| 0 <= i < shares.len() ==> (#[trigger] shares[i]).len() == pp.mu_cs,
                forall|i: int|
                    0 <= i < randomness.len() ==> (#[trigger] randomness[i]).len() == pp.kappa_cs,
                all == all_rs(randomness@, shares@),
                ls == labels(*pp, all),
                leaf_labels.len() == i,
                server_u.len() == i,
                forall|j: int| 0 <= j < i ==> (#[trigger] leaf_labels[j])@ == ls[j],
                forall|j: int|
                    0 <= j < i ==> views((#[trigger] server_u[j])@) == leaf_u(
                        *pp,
                        server_rs(randomness@, shares@, j),
                    ) && all_within(views(server_u[j]@), ZETA as int),
        {
            assert(shares[i as int].len() == pp.mu_cs);
            assert(randomness[i as int].len() == pp.kappa_cs);
            let (label, u): (HVCPoly, Vec<HVCPoly>) = server_leaf(pp, &randomness[i], &shares[i]);
            leaf_labels.push(label);
            server_u.push(u);
        }
        for i in pp.n_servers..pp.n_leaves
            invariant
                pp.wf(),
                all.len() == pp.n_servers,
                ls == labels(*pp, all),
                leaf_labels.len() == i,
                forall|j: int| 0 <= j < i ==> (#[trigger] leaf_labels[j])@ == ls[j],
        {
            let z: HVCPoly = HVCPoly::default();
            assert(z@ =~= ls[i as int]) by {
                assert forall|k: int| 0 <= k < N implies z@[k] == 0 by {
                    assert(z.coeffs[k] == 0);
                }
            }
            leaf_labels.push(z);
        }
        let depth: usize = pp.total_path_len();
        let tree: Tree = Tree::new_with_leaf_nodes(&leaf_labels, &pp.hasher, depth);
        let root: HVCPoly = tree.root();
        assert(tree.leaves() =~= ls);
        assert(full(ls));
        let mut openings: Vec<Opening> = Vec::with_capacity(pp.n_servers);
        for i in 0..pp.n_servers
            invariant
                pp.wf(),
                shares.len() == pp.n_servers,
                randomness.len() == pp.n_servers,
                forall|i: int| 0 <= i < shares.len() ==> (#[trigger] shares[i]).len() == pp.mu_cs,
                forall|i: int|
                    0 <= i < randomness.len() ==> (#[trigger] randomness[i]).len() == pp.kappa_cs,
                forall|i: int|
                    0 <= i < randomness.len() ==> all_within(
                        cs_views((#[trigger] randomness[i])@),
                        pp.beta_cs as int,
                    ),
                all == all_rs(randomness@, shares@),
                ls == labels(*pp, all),
                full(ls),
                tree.wf(),
                tree.keys@ == pp.keys(),
                tree.leaves() == ls,
                depth == pp.depth(),
                tree.depth() == depth,
                root@ == root_of(*pp, ls),
                server_u.len() == pp.n_servers,
                forall|j: int|
                    0 <= j < pp.n_servers ==> views((#[trigger] server_u[j])@) == leaf_u(
                        *pp,
                        server_rs(randomness@, shares@, j),
                    ) && all_within(views(server_u[j]@), ZETA as int),
                openings.len() == i,
                forall|j: int|
                    0 <= j < i ==> is_fresh_opening(
                        *pp,
                        ls,
                        server_rs(randomness@, shares@, j),
                        j,
                        #[trigger] openings[j],
                    ),
                forall|j: int| 0 <= j < i ==> opens(*pp, root@, #[trigger] openings[j]),
        {
            let ghost rsi = server_rs(randomness@, shares@, i as int);
            let mut data: Vec<HVCPoly> = Vec::new();
            push_polys(&mut data, &server_u[i]);
            assert(data@ =~= server_u[i as int]@);
            assert(tree.levels[0].len() == pp.n_leaves);
            let path: Path = tree.gen_proof(i);
            append_path(&mut data, &path, Ghost(1 + pp.mu_cs), Ghost(tree));
            let mut rs: Vec<CsPoly> = Vec::with_capacity(pp.kappa_cs + pp.mu_cs);
            push_cs(&mut rs, &randomness[i]);
            push_cs(&mut rs, &shares[i]);
            assert(cs_views(rs@) =~= rsi);
            assert(shares[i as int].len() == pp.mu_cs);
            assert(randomness[i as int].len() == pp.kappa_cs);
            let o = Opening {
                server_index: i,
                path_index: path.index,
                kappa_cs: pp.kappa_cs,
                mu_cs: pp.mu_cs,
                stored_path_len: depth,
                rs,
                data,
            };
            proof {
                assert(all[i as int] == rsi);
                assert(is_fresh(*pp, ls, i as int, rsi, views(o.data@)));
                lemma_fresh_relations(*pp, ls, i as int, rsi, views(o.data@));
                assert(all_within(cs_views(o.rs@).take(pp.kappa_cs as int), pp.r_bound as int)) by {
                    assert forall|j: int| 0 <= j < pp.kappa_cs implies within(
                        #[trigger] cs_views(o.rs@).take(pp.kappa_cs as int)[j],
                        pp.r_bound as int,
                    ) by {
                        assert(all_within(cs_views(randomness[i as int]@), pp.beta_cs as int));
                        let c = cs_views(randomness[i as int]@)[j];
                        assert(within(c, pp.beta_cs as int));
                        assert(cs_views(o.rs@).take(pp.kappa_cs as int)[j] == c);
                    }
                }
                assert(all_within(views(o.data@), pp.beta_agg_hvc as int)) by {
                    assert forall|j: int| 0 <= j < o.data.len() implies within(
                        #[trigger] views(o.data@)[j],
                        pp.beta_agg_hvc as int,
                    ) by {
                        assert(within(views(o.data@)[j], ZETA as int));
                    }
                }
                assert(opens(*pp, root@, o));
            }
            openings.push(o);
        }
        (Commitment { root }, openings)
    }

    /// Commits under randomness drawn from `rng`: every opening it emits opens
    /// the commitment, at its own position, to the share given for it.
    pub fn commit(rng: &mut ChaCha20Rng, pp: &CsParams, shares: &[Vec<CsPoly>]) -> (out: (
        Commitment,
        Vec<Opening>,
    ))
        requires
            pp.wf(),
            shares.len() == pp.n_servers,
            forall|i: int| 0 <= i < shares.len() ==> (#[trigger] shares[i]).len() == pp.mu_cs,
        ensures
            exists|randomness: Seq<Vec<CsPoly>>| #[trigger]
                committed(*pp, shares@, randomness, out.0, out.1@) && is_drawn_randomness(
                    *pp,
                    randomness,
                    *old(rng),
                    *final(rng),
                ),
    {
        let seeds: Vec<[u8; 32]> = fork_seeds(rng, pp.n_servers);
        let mut randomness: Vec<Vec<CsPoly>> = Vec::with_capacity(pp.n_servers);
        for i in 0..pp.n_servers
            invariant
                pp.wf(),
                seeds.len() == pp.n_servers,
                randomness.len() == i,
                forall|j: int|
                    0 <= j < i ==> (#[trigger] randomness[j]).len() == pp.kappa_cs && all_within(
                        cs_views(randomness[j]@),
                        pp.beta_cs as int,
                    ),
                forall|j: int|
                    0 <= j < i ==> is_seeded(
                        seeds[j],
                        pp.beta_cs as int,
                        cs_views((#[trigger] randomness[j])@),
                    ),
        {
            let mut item_rng: ChaCha20Rng = started(&seeds[i]);
            let ghost first = item_rng;
            let ghost draws = short_elements(pp.beta_cs as int);
            let mut r: Vec<CsPoly> = Vec::with_capacity(pp.kappa_cs);
            proof {
                lemma_run_empty(draws, item_rng);
                assert(cs_views(r@) =~= Seq::<Coeffs>::empty());
            }
            for j in 0..pp.kappa_cs
                invariant
                    pp.wf(),
                    r.len() == j,
                    draws == short_elements(pp.beta_cs as int),
                    run(draws, first, cs_views(r@), item_rng),
                    forall|t: int|
                        0 <= t < j ==> within(#[trigger] cs_views(r@)[t], pp.beta_cs as int),
            {
                let ghost m = item_rng;
                let p: CsPoly = CsPoly::rand_mod_p(&mut item_rng, pp.beta_cs);
                let ghost before = r@;
                r.push(p);
                proof {
                    lemma_run_push(draws, first, cs_views(before), m, p@, item_rng);
                    assert(cs_views(r@) =~= cs_views(before).push(p@));
                    assert forall|t: int| 0 <= t < j + 1 implies within(
                        #[trigger] cs_views(r@)[t],
                        pp.beta_cs as int,
                    ) by {
                        if t < j {
                            assert(within(cs_views(before)[t], pp.beta_cs as int));
                        }
                    }
                }
            }
            assert(is_seeded(seeds[i as int], pp.beta_cs as int, cs_views(r@)));
            randomness.push(r);
        }
        let out = Self::commit_with(pp, shares, &randomness);
        proof {
            assert(committed(*pp, shares@, randomness@, out.0, out.1@));
            assert(run(random::seeds(), *old(rng), seeds@, *rng));
            assert(is_drawn_randomness(*pp, randomness@, *old(rng), *rng));
        }
        out
    }
}

/// Elements with coefficients out of `-beta..=beta` that the generator gives.
pub open spec fn short_elements(beta: int) -> spec_fn(ChaCha20Rng, Coeffs, ChaCha20Rng) -> bool {
    |g: ChaCha20Rng, c: Coeffs, h: ChaCha20Rng|
        run(signed_values((-beta) as i64, beta as i64), g, c, h)
}

/// The short elements `r` are what the generator of `seed` gives, in order.
pub open spec fn is_seeded(seed: [u8; 32], beta: int, r: Seq<Coeffs>) -> bool {
    exists|g: ChaCha20Rng, h: ChaCha20Rng| #[trigger]
        starts(seed, g) && #[trigger] run(short_elements(beta), g, r, h)
}

/// The generator gives one seed per server from `g` to `h`, and each server's
/// randomness is what its seed's generator gives.
pub open spec fn is_drawn_randomness(
    pp: CsParams,
    randomness: Seq<Vec<CsPoly>>,
    g: ChaCha20Rng,
    h: ChaCha20Rng,
) -> bool {
    exists|seeds: Seq<[u8; 32]>| #[trigger]
        run(random::seeds(), g, seeds, h) && seeds.len() == pp.n_servers && forall|i: int|
            0 <= i < pp.n_servers ==> is_seeded(
                seeds[i],
                pp.beta_cs as int,
                cs_views((#[trigger] randomness[i])@),
            )
}

/// The randomness of a commitment is drawn: from the generators of successive
/// seeds, element by element and coefficient by coefficient, each of these out of
/// `-beta..=beta`.
pub proof fn law_randomness_is_drawn(
    pp: CsParams,
    randomness: Seq<Vec<CsPoly>>,
    g: ChaCha20Rng,
    h: ChaCha20Rng,
)
    requires
        is_drawn_randomness(pp, randomness, g, h),
        randomness.len() == pp.n_servers,
        0 <= pp.beta_cs <= i32::MAX,
    ensures
        exists|seeds: Seq<[u8; 32]>, gs: Seq<ChaCha20Rng>|
            #![trigger seeds.len(), gs.len()]
            seeds.len() == pp.n_servers && gs.len() == seeds.len() + 1 && gs[0] == g && gs.last()
                == h && (forall|i: int|
                0 <= i < seeds.len() ==> gives_seed(gs[i], #[trigger] seeds[i], gs[i + 1]) && exists|
                    hs: Seq<ChaCha20Rng>,
                |
                    #![trigger hs.len()]
                    hs.len() == randomness[i].len() + 1 && starts(seeds[i], hs[0]) && forall|j: int|
                        0 <= j < randomness[i].len() ==> run(
                            signed_values((-pp.beta_cs) as i64, pp.beta_cs as i64),
                            hs[j],
                            (#[trigger] randomness[i][j])@,
                            hs[j + 1],
                        )),
{
    let seeds = choose|seeds: Seq<[u8; 32]>| #[trigger]
        run(random::seeds(), g, seeds, h) && seeds.len() == pp.n_servers && forall|i: int|
            0 <= i < pp.n_servers ==> is_seeded(
                seeds[i],
                pp.beta_cs as int,
                cs_views((#[trigger] randomness[i])@),
            );
    let gs = choose|gs: Seq<ChaCha20Rng>| #[trigger]
        random::linked(random::seeds(), gs, seeds) && gs[0] == g && gs[seeds.len() as int] == h;
    assert forall|i: int| 0 <= i < seeds.len() implies gives_seed(
        gs[i],
        #[trigger] seeds[i],
        gs[i + 1],
    ) && exists|hs: Seq<ChaCha20Rng>|
        #![trigger hs.len()]
        hs.len() == randomness[i].len() + 1 && starts(seeds[i], hs[0]) && forall|j: int|
            0 <= j < randomness[i].len() ==> run(
                signed_values((-pp.beta_cs) as i64, pp.beta_cs as i64),
                hs[j],
                (#[trigger] randomness[i][j])@,
                hs[j + 1],
            ) by {
        let beta = pp.beta_cs as int;
        let r = cs_views(randomness[i]@);
        assert(is_seeded(seeds[i], beta, r));
        let (a, b) = choose|a: ChaCha20Rng, b: ChaCha20Rng| #[trigger]
            starts(seeds[i], a) && #[trigger] run(short_elements(beta), a, r, b);
        let hs = choose|hs: Seq<ChaCha20Rng>| #[trigger]
            random::linked(short_elements(beta), hs, r) && hs[0] == a && hs[r.len() as int] == b;
        assert(hs.len() == randomness[i].len() + 1);
        assert forall|j: int| 0 <= j < randomness[i].len() implies run(
            signed_values((-pp.beta_cs) as i64, pp.beta_cs as i64),
            hs[j],
            (#[trigger] randomness[i][j])@,
            hs[j + 1],
        ) by {
            assert(r[j] == randomness[i][j]@);
            assert(short_elements(beta)(hs[j], r[j], hs[j + 1]));
        }
    }
    assert(gs.len() == seeds.len() + 1);
}

/// `c` and `os` commit to `shares` under `randomness`: short randomness, one
/// fresh opening per server, each opening the commitment.
pub open spec fn committed(
    pp: CsParams,
    shares: Seq<Vec<CsPoly>>,
    randomness: Seq<Vec<CsPoly>>,
    c: Commitment,
    os: Seq<Opening>,
) -> bool {
    &&& randomness.len() == pp.n_servers
    &&& forall|i: int|
        0 <= i < randomness.len() ==> (#[trigger] randomness[i]).len() == pp.kappa_cs && all_within(
            cs_views(randomness[i]@),
            pp.beta_cs as int,
        )
    &&& c.root@ == root_of(pp, labels(pp, all_rs(randomness, shares)))
    &&& os.len() == pp.n_servers
    &&& forall|i: int|
        0 <= i < pp.n_servers ==> is_fresh_opening(
            pp,
            labels(pp, all_rs(randomness, shares)),
            server_rs(randomness, shares, i),
            i,
            #[trigger] os[i],
        ) && opens(pp, c.root@, os[i])
}

} // verus!
