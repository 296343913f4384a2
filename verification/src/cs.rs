//! Commitment scheme: hiding vector commitments to per-server shares.
//!
//! A leaf commits to a share vector `s` under randomness `r` as
//! `(a * r, B * r + s)` over the commitment ring. The leaf elements are split
//! into base-69 digits `u`, the leaf label is the linear hash `g * u`, and the
//! labels of all servers are the leaves of a hash tree whose root is the
//! commitment. An opening stores `r`, `s`, the digits `u` and the digits of the
//! path above the leaf. Every check is linear in what an opening stores, so sums
//! of openings open sums of commitments.

use crate::bits::lemma_pow2_monotonic;
use crate::digits::{digits_of, lemma_base_powers, lemma_digits_exact, reach, recomposed};
use crate::field::{self, cong};
use crate::hvc::{
    self, all_centered, full, hvc_dot, hvc_elements, hvc_hash, hvc_sum, is_right, position_list,
    push_polys, random_keys, sum_hvc_polys, HVCHash,
};
use crate::negacyclic::{
    centered, cong_poly, dot_at, lemma_centered, lemma_centered_cong, within, Coeffs, N,
};
use crate::random::{lemma_run_empty, lemma_run_push, run};
use crate::rings::{
    column, digit_polys, pointwise_dot_cs, views, CsNTTPoly, CsPoly, HVCPoly, CS_MODULUS,
    HVC_WIDTH, ZETA,
};
use crate::sss::{cs_elements, cs_views};
use rand_chacha::ChaCha20Rng;
use vstd::arithmetic::power2::{lemma2_to64, lemma2_to64_rest, lemma_pow2_adds, pow2};
use vstd::prelude::*;

verus! {

/// The commitment modulus as an integer.
pub open spec fn q() -> int {
    CS_MODULUS as int
}

/// Fresh per-opening randomness radius.
pub const BETA_CS: u32 = 116;

/// Aggregate bound on the randomness: 300 fresh radii.
pub const R_BOUND: u32 = 34_800;

/// Aggregate bound on digits: 300 fresh digits.
pub const BETA_AGG_HVC: u32 = 10_200;

pub fn beta_agg_hvc() -> (r: u32)
    ensures
        r == 300 * ZETA,
{
    BETA_AGG_HVC
}

/// The linear hash labelling a leaf.
pub struct LeafHash {
    pub g: Vec<HVCPoly>,
}

impl LeafHash {
    pub fn init(rng: &mut ChaCha20Rng, xi: usize) -> (r: Self)
        requires
            xi * HVC_WIDTH <= usize::MAX,
        ensures
            r.g.len() == xi * HVC_WIDTH,
            all_centered(r.g@),
            run(hvc_elements(), *old(rng), views(r.g@), *final(rng)),
    {
        LeafHash { g: random_keys(rng, xi * HVC_WIDTH) }
    }

    /// `g * u`, linear in `u`.
    pub fn hash(&self, u: &[HVCPoly]) -> (r: HVCPoly)
        requires
            u.len() == self.g.len(),
        ensures
            r@ == hvc_hash(views(self.g@), views(u@)),
            r.is_centered(),
    {
        hvc_dot(&self.g, u)
    }
}

/// The exponent of a power of two.
pub open spec fn log2(n: int) -> nat
    decreases n,
{
    if n <= 1 {
        0
    } else {
        log2(n / 2) + 1
    }
}

/// Leaves of a tree over `n` entries: a power of two, at least two, and the
/// smallest that holds them.
pub open spec fn is_leaf_count(n: int, leaves: int) -> bool {
    &&& leaves == pow2(log2(leaves))
    &&& 2 <= leaves
    &&& n <= leaves
    &&& leaves == 2 || leaves / 2 < n
}

/// Levels of the deepest tree whose leaves a machine word can count.
pub const MAX_DEPTH: usize = 63;

/// Half the machine words are a power of two.
proof fn lemma_half_word() -> (k: nat)
    ensures
        k <= MAX_DEPTH,
        usize::MAX / 2 + 1 == pow2(k),
{
    lemma2_to64();
    lemma2_to64_rest();
    if usize::MAX == 0xffff_ffff {
        31
    } else {
        63
    }
}

/// The smallest power of two holding `n` entries, at least two.
pub fn leaf_count(n: usize) -> (r: usize)
    requires
        n <= usize::MAX / 2 + 1,
    ensures
        is_leaf_count(n as int, r as int),
        1 <= log2(r as int) <= MAX_DEPTH,
{
    let mut p: usize = 2;
    let ghost top = lemma_half_word();
    proof {
        reveal_with_fuel(log2, 3);
        lemma2_to64();
    }
    while p < n
        invariant
            n <= usize::MAX / 2 + 1,
            usize::MAX / 2 + 1 == pow2(top),
            top <= MAX_DEPTH,
            p == pow2(log2(p as int)),
            1 <= log2(p as int) <= top,
            p == 2 || p / 2 < n,
        decreases usize::MAX - p,
    {
        proof {
            let d = log2(p as int);
            if d >= top {
                lemma_pow2_monotonic(top, d);
            }
            lemma_pow2_adds(d, 1);
            lemma2_to64();
            lemma_pow2_monotonic(d + 1, top);
            assert((2 * p) as int / 2 == p);
            assert(log2(2 * p as int) == d + 1);
        }
        p = 2 * p;
    }
    p
}

/// Levels of the tree over `n` entries.
pub proof fn lemma_leaf_depth(n: int, leaves: int)
    requires
        n <= usize::MAX / 2 + 1,
        is_leaf_count(n, leaves),
    ensures
        log2(leaves) <= MAX_DEPTH,
{
    let k = lemma_half_word();
    let d = log2(leaves);
    lemma2_to64();
    if d > k {
        lemma_pow2_adds(k, 1);
        lemma_pow2_monotonic(k + 1, d);
        if leaves == 2 {
            lemma_pow2_monotonic(0, k);
        }
    }
}

/// Public parameters.
pub struct CsParams {
    pub a_ntt: Vec<CsNTTPoly>,
    pub b_matrix_ntt: Vec<Vec<CsNTTPoly>>,
    pub mu_cs: usize,
    pub kappa_cs: usize,
    /// Fresh randomness radius.
    pub beta_cs: u32,
    /// Bound on the randomness of an accepted opening.
    pub r_bound: u32,
    /// Bound on the digits of an accepted opening.
    pub beta_agg_hvc: u32,
    /// Labels a leaf from its digits.
    pub leaf_hash: LeafHash,
    /// Hashes sibling pairs above the leaves.
    pub hasher: HVCHash,
    pub n_servers: usize,
    pub n_leaves: usize,
}

/// The coefficient vectors of a row of elements.
pub open spec fn row_views(s: Seq<CsNTTPoly>) -> Seq<Coeffs> {
    s.map(|_i: int, p: CsNTTPoly| p@)
}

pub open spec fn all_wf(s: Seq<CsNTTPoly>) -> bool {
    forall|i: int| 0 <= i < s.len() ==> (#[trigger] s[i]).wf()
}

/// Largest dimension that the header of a packed opening may claim.
pub const MAX_OPENING_DIM: usize = 1_048_576;

impl CsParams {
    pub open spec fn a(&self) -> Seq<Coeffs> {
        row_views(self.a_ntt@)
    }

    pub open spec fn b(&self, k: int) -> Seq<Coeffs> {
        row_views(self.b_matrix_ntt[k]@)
    }

    pub open spec fn g(&self) -> Seq<Coeffs> {
        views(self.leaf_hash.g@)
    }

    pub open spec fn keys(&self) -> Seq<Coeffs> {
        views(self.hasher.keys@)
    }

    pub open spec fn depth(&self) -> nat {
        log2(self.n_leaves as int)
    }

    pub open spec fn wf(&self) -> bool {
        &&& 1 <= self.mu_cs
        &&& 1 <= self.kappa_cs
        &&& self.kappa_cs + self.mu_cs <= usize::MAX
        &&& data_polys(1 + self.mu_cs, MAX_DEPTH as int) <= usize::MAX
        &&& self.a_ntt.len() == self.kappa_cs
        &&& all_wf(self.a_ntt@)
        &&& self.b_matrix_ntt.len() == self.mu_cs
        &&& forall|k: int|
            0 <= k < self.mu_cs ==> (#[trigger] self.b_matrix_ntt[k]).len() == self.kappa_cs
                && all_wf(self.b_matrix_ntt[k]@)
        &&& self.leaf_hash.g.len() == (1 + self.mu_cs) * HVC_WIDTH
        &&& self.hasher.wf()
        &&& self.n_servers <= usize::MAX / 2 + 1
        &&& is_leaf_count(self.n_servers as int, self.n_leaves as int)
        &&& 1 <= self.depth() <= MAX_DEPTH
        &&& self.beta_cs == BETA_CS
        &&& self.r_bound == R_BOUND
        &&& self.beta_agg_hvc == BETA_AGG_HVC
    }

    /// Leaf vector width.
    pub fn xi(&self) -> (r: usize)
        requires
            self.mu_cs < usize::MAX,
        ensures
            r == 1 + self.mu_cs,
    {
        1 + self.mu_cs
    }

    /// Depth of the tree over the leaf labels.
    pub fn total_path_len(&self) -> (r: usize)
        ensures
            r == self.depth(),
    {
        let mut n: usize = self.n_leaves;
        let mut d: usize = 0;
        while n > 1
            invariant
                d + log2(n as int) == log2(self.n_leaves as int),
                d + n <= usize::MAX,
            decreases n,
        {
            n = n / 2;
            d = d + 1;
        }
        d
    }

    /// Path levels stored in an opening: all of them.
    pub fn stored_path_len(&self) -> (r: usize)
        ensures
            r == self.depth(),
    {
        self.total_path_len()
    }
}

/// A commitment: the root label.
#[derive(Clone, Copy)]
pub struct Commitment {
    pub root: HVCPoly,
}

/// An opening at one server's position.
pub struct Opening {
    pub server_index: usize,
    pub path_index: usize,
    pub kappa_cs: usize,
    pub mu_cs: usize,
    pub stored_path_len: usize,
    /// `r` then `s`, on the commitment ring.
    pub rs: Vec<CsPoly>,
    /// Leaf digits, then the decomposed path, on the tree-hash ring.
    pub data: Vec<HVCPoly>,
}

/// Number of elements in an opening's `data`.
pub open spec fn data_polys(xi: int, stored_path_len: int) -> int {
    xi * 3 + stored_path_len * 6
}

pub fn opening_data_polys(xi: usize, stored_path_len: usize) -> (r: usize)
    requires
        data_polys(xi as int, stored_path_len as int) <= usize::MAX,
    ensures
        r == data_polys(xi as int, stored_path_len as int),
{
    xi * HVC_WIDTH + stored_path_len * 2 * HVC_WIDTH
}

impl Opening {
    /// The buffers have the lengths the dimensions call for.
    pub open spec fn shaped(&self) -> bool {
        &&& self.rs.len() == self.kappa_cs + self.mu_cs
        &&& self.data.len() == data_polys(1 + self.mu_cs, self.stored_path_len as int)
    }

    pub fn kappa_cs(&self) -> (r: usize)
        ensures
            r == self.kappa_cs,
    {
        self.kappa_cs
    }

    pub fn mu_cs(&self) -> (r: usize)
        ensures
            r == self.mu_cs,
    {
        self.mu_cs
    }

    pub fn xi(&self) -> (r: usize)
        requires
            self.mu_cs < usize::MAX,
        ensures
            r == 1 + self.mu_cs,
    {
        1 + self.mu_cs
    }

    pub fn stored_path_len(&self) -> (r: usize)
        ensures
            r == self.stored_path_len,
    {
        self.stored_path_len
    }

    /// The randomness.
    pub fn r(&self) -> (r: &[CsPoly])
        requires
            self.shaped(),
        ensures
            r@ == self.rs@.take(self.kappa_cs as int),
    {
        let s: &[CsPoly] = self.rs.as_slice();
        &s[0..self.kappa_cs]
    }

    /// The committed share vector.
    pub fn s(&self) -> (r: &[CsPoly])
        requires
            self.shaped(),
        ensures
            r@ == self.rs@.skip(self.kappa_cs as int),
    {
        let s: &[CsPoly] = self.rs.as_slice();
        let t = &s[self.kappa_cs..self.kappa_cs + self.mu_cs];
        assert(t@ =~= self.rs@.skip(self.kappa_cs as int));
        t
    }

    /// The leaf digits.
    pub fn u(&self) -> (r: &[HVCPoly])
        requires
            self.shaped(),
        ensures
            r@ == self.data@.take((1 + self.mu_cs) * 3),
    {
        let s: &[HVCPoly] = self.data.as_slice();
        &s[0..(1 + self.mu_cs) * HVC_WIDTH]
    }

    /// The digits of leaf element `k`.
    pub fn u_element(&self, k: usize) -> (r: &[HVCPoly])
        requires
            self.shaped(),
            k < 1 + self.mu_cs,
        ensures
            r@ == self.data@.subrange(3 * k, 3 * k + 3),
    {
        let s: &[HVCPoly] = self.data.as_slice();
        &s[k * HVC_WIDTH..(k + 1) * HVC_WIDTH]
    }

    /// The digits of the left and right child at a path level.
    pub fn path_node(&self, level: usize) -> (r: (&[HVCPoly], &[HVCPoly]))
        requires
            self.shaped(),
            level < self.stored_path_len,
        ensures
            r.0@ == self.data@.subrange(
                (1 + self.mu_cs) * 3 + 6 * level,
                (1 + self.mu_cs) * 3 + 6 * level + 3,
            ),
            r.1@ == self.data@.subrange(
                (1 + self.mu_cs) * 3 + 6 * level + 3,
                (1 + self.mu_cs) * 3 + 6 * level + 6,
            ),
    {
        let base: usize = (1 + self.mu_cs) * HVC_WIDTH + level * 2 * HVC_WIDTH;
        let s: &[HVCPoly] = self.data.as_slice();
        (&s[base..base + HVC_WIDTH], &s[base + HVC_WIDTH..base + 2 * HVC_WIDTH])
    }
}

// ---------------------------------------------------------------
// What an opening has to satisfy
// ---------------------------------------------------------------

/// The integer that digits `d` stand for, at coefficient `i`.
pub open spec fn rec(d: Seq<Coeffs>, i: int) -> int {
    recomposed(column(d, i))
}

/// Leaf element `k` at coefficient `i`: `a * r`, then `B[k-1] * r + s[k-1]`.
pub open spec fn leaf_at(pp: CsParams, rs: Seq<Coeffs>, k: int, i: int) -> int {
    if k == 0 {
        dot_at(pp.a(), rs, i, pp.kappa_cs as nat)
    } else {
        dot_at(pp.b(k - 1), rs, i, pp.kappa_cs as nat) + rs[pp.kappa_cs + k - 1][i]
    }
}

/// The digits of leaf element `k`.
pub open spec fn leaf_digits(data: Seq<Coeffs>, k: int) -> Seq<Coeffs> {
    data.subrange(3 * k, 3 * k + 3)
}

/// The digits of both children at path level `l`.
pub open spec fn pair_digits(data: Seq<Coeffs>, xi: int, l: int) -> Seq<Coeffs> {
    data.subrange(3 * xi + 6 * l, 3 * xi + 6 * l + 6)
}

/// The digits of one child at path level `l`.
pub open spec fn child_digits(data: Seq<Coeffs>, xi: int, l: int, right: bool) -> Seq<Coeffs> {
    let at = 3 * xi + 6 * l + (if right { 3int } else { 0 });
    data.subrange(at, at + 3)
}

/// The digits of leaf element `k` stand for the leaf element.
pub open spec fn leaf_holds(pp: CsParams, rs: Seq<Coeffs>, data: Seq<Coeffs>, k: int) -> bool {
    forall|i: int|
        0 <= i < N ==> cong(#[trigger] rec(leaf_digits(data, k), i), leaf_at(pp, rs, k, i), q())
}

/// The pair at path level `l` hashes to `label`.
pub open spec fn pair_hashes(keys: Seq<Coeffs>, data: Seq<Coeffs>, xi: int, l: int, i: int, label: int) -> bool {
    cong(dot_at(keys, pair_digits(data, xi, l), i, 6), label, hvc::q())
}

/// The path: the top pair hashes to the root, each lower pair to the child
/// above it on the way to leaf `index`, and the last child is the leaf label.
pub open spec fn path_holds(
    keys: Seq<Coeffs>,
    g: Seq<Coeffs>,
    root: Coeffs,
    index: int,
    xi: int,
    plen: int,
    data: Seq<Coeffs>,
    i: int,
) -> bool {
    &&& plen == 0 ==> cong(root[i], dot_at(g, data, i, (3 * xi) as nat), hvc::q())
    &&& plen > 0 ==> pair_hashes(keys, data, xi, 0, i, root[i])
    &&& forall|l: int|
        1 <= l < plen ==> #[trigger] pair_hashes(
            keys,
            data,
            xi,
            l,
            i,
            rec(child_digits(data, xi, l - 1, is_right(index, (plen - l) as nat)), i),
        )
    &&& plen > 0 ==> cong(
        rec(child_digits(data, xi, plen - 1, is_right(index, 0)), i),
        dot_at(g, data, i, (3 * xi) as nat),
        hvc::q(),
    )
}

/// The linear relations between a root and what an opening stores.
pub open spec fn relations(
    pp: CsParams,
    root: Coeffs,
    index: int,
    plen: int,
    rs: Seq<Coeffs>,
    data: Seq<Coeffs>,
) -> bool {
    &&& forall|k: int| 0 <= k < 1 + pp.mu_cs ==> #[trigger] leaf_holds(pp, rs, data, k)
    &&& forall|i: int|
        0 <= i < N ==> #[trigger] path_holds(
            pp.keys(),
            pp.g(),
            root,
            index,
            1 + pp.mu_cs,
            plen,
            data,
            i,
        )
}

/// Every element lies in `[-b, b]`.
pub open spec fn all_within(s: Seq<Coeffs>, b: int) -> bool {
    forall|j: int| 0 <= j < s.len() ==> within(#[trigger] s[j], b)
}

/// The opening has the shape the parameters call for.
pub open spec fn shape_fits(pp: CsParams, o: Opening) -> bool {
    &&& o.kappa_cs == pp.kappa_cs
    &&& o.mu_cs == pp.mu_cs
    &&& o.stored_path_len == pp.depth()
    &&& o.rs.len() == pp.kappa_cs + pp.mu_cs
    &&& o.data.len() == data_polys(1 + pp.mu_cs, pp.depth() as int)
}

/// `o` opens `root`: right shape, short randomness, short digits, and all
/// relations hold.
pub open spec fn opens(pp: CsParams, root: Coeffs, o: Opening) -> bool {
    &&& shape_fits(pp, o)
    &&& all_within(cs_views(o.rs@).take(pp.kappa_cs as int), pp.r_bound as int)
    &&& all_within(views(o.data@), pp.beta_agg_hvc as int)
    &&& relations(
        pp,
        root,
        o.path_index as int,
        pp.depth() as int,
        cs_views(o.rs@),
        views(o.data@),
    )
}

// ---------------------------------------------------------------
// Leaves
// ---------------------------------------------------------------

/// The leaf elements of `(r, s)`.
pub fn leaf_block(pp: &CsParams, r: &[CsPoly], s: &[CsPoly]) -> (out: Vec<CsPoly>)
    requires
        pp.wf(),
        r.len() == pp.kappa_cs,
        s.len() == pp.mu_cs,
    ensures
        out.len() == 1 + pp.mu_cs,
        forall|k: int, i: int|
            0 <= k < 1 + pp.mu_cs && 0 <= i < N ==> #[trigger] out[k]@[i] == centered(
                leaf_at(*pp, cs_views(r@) + cs_views(s@), k, i),
                q(),
            ),
{
    let ghost rs = cs_views(r@) + cs_views(s@);
    let mut r_ntt: Vec<CsNTTPoly> = Vec::with_capacity(r.len());
    for j in 0..r.len()
        invariant
            r_ntt.len() == j,
            all_wf(r_ntt@),
            forall|t: int, i: int|
                0 <= t < j && 0 <= i < N ==> #[trigger] r_ntt[t]@[i] == r[t]@[i] % q(),
    {
        r_ntt.push(CsNTTPoly::from_poly(&r[j]));
    }
    let ghost rv = row_views(r_ntt@);
    proof {
        assert forall|t: int| 0 <= t < rv.len() implies cong_poly(
            #[trigger] rv[t],
            rs.take(pp.kappa_cs as int)[t],
            q(),
        ) by {
            assert forall|i: int| 0 <= i < N implies cong(#[trigger] rv[t][i], r[t]@[i], q()) by {
                assert(r_ntt[t]@[i] == r[t]@[i] % q());
                field::lemma_cong_mod(r[t]@[i], q());
            }
        }
    }
    let mut out: Vec<CsPoly> = Vec::with_capacity(1 + pp.mu_cs);
    let top: CsPoly = pointwise_dot_cs(&pp.a_ntt, &r_ntt).to_poly();
    proof {
        assert forall|i: int| 0 <= i < N implies #[trigger] top@[i] == centered(
            leaf_at(*pp, rs, 0, i),
            q(),
        ) by {
            lemma_row_dot(pp.a(), rv, rs, pp.kappa_cs as nat, i);
        }
    }
    out.push(top);
    for k in 0..pp.mu_cs
        invariant
            pp.wf(),
            r.len() == pp.kappa_cs,
            s.len() == pp.mu_cs,
            rs == cs_views(r@) + cs_views(s@),
            r_ntt.len() == pp.kappa_cs,
            all_wf(r_ntt@),
            rv == row_views(r_ntt@),
            forall|t: int|
                0 <= t < rv.len() ==> cong_poly(
                    #[trigger] rv[t],
                    rs.take(pp.kappa_cs as int)[t],
                    q(),
                ),
            out.len() == 1 + k,
            forall|j: int, i: int|
                0 <= j < 1 + k && 0 <= i < N ==> #[trigger] out[j]@[i] == centered(
                    leaf_at(*pp, rs, j, i),
                    q(),
                ),
    {
        assert(pp.b_matrix_ntt[k as int].len() == pp.kappa_cs && all_wf(
            pp.b_matrix_ntt[k as int]@,
        ));
        let dot: CsPoly = pointwise_dot_cs(&pp.b_matrix_ntt[k], &r_ntt).to_poly();
        let leaf: CsPoly = dot + s[k];
        proof {
            assert forall|i: int| 0 <= i < N implies #[trigger] leaf@[i] == centered(
                leaf_at(*pp, rs, k + 1, i),
                q(),
            ) by {
                lemma_row_dot(pp.b(k as int), rv, rs, pp.kappa_cs as nat, i);
                let d = dot_at(pp.b(k as int), rs, i, pp.kappa_cs as nat);
                let x = rs[pp.kappa_cs + k][i];
                assert(x == s[k as int]@[i]);
                lemma_centered(d, q());
                field::lemma_cong_ops(dot@[i], d, x, x, q());
                lemma_centered_cong(dot@[i] + 1 * x, d + x, q());
            }
        }
        out.push(leaf);
    }
    out
}

proof fn lemma_row_dot(row: Seq<Coeffs>, rv: Seq<Coeffs>, rs: Seq<Coeffs>, kappa: nat, i: int)
    requires
        full(row),
        full(rv),
        full(rs),
        row.len() == kappa,
        rv.len() == kappa,
        rs.len() >= kappa,
        0 <= i < N,
        forall|t: int|
            0 <= t < rv.len() ==> cong_poly(#[trigger] rv[t], rs.take(kappa as int)[t], q()),
    ensures
        centered(dot_at(row, rv, i, kappa) % q(), q()) == centered(
            dot_at(row, rs, i, kappa),
            q(),
        ),
{
    let t = rs.take(kappa as int);
    hvc::lemma_dot_cong(row, rv, t, i, kappa, q());
    lemma_dot_prefix(row, t, rs, i, kappa);
    let d = dot_at(row, rv, i, kappa);
    field::lemma_cong_mod(d, q());
    lemma_centered_cong(d % q(), dot_at(row, rs, i, kappa), q());
}

/// A dot product reads only the entries it multiplies.
pub proof fn lemma_dot_prefix(keys: Seq<Coeffs>, a: Seq<Coeffs>, b: Seq<Coeffs>, i: int, upto: nat)
    requires
        upto <= a.len(),
        upto <= b.len(),
        forall|t: int| 0 <= t < upto ==> #[trigger] a[t] == b[t],
    ensures
        dot_at(keys, a, i, upto) == dot_at(keys, b, i, upto),
    decreases upto,
{
    if upto > 0 {
        lemma_dot_prefix(keys, a, b, i, (upto - 1) as nat);
        assert(a[upto - 1] == b[upto - 1]);
    }
}

/// The digits of all leaf elements, in order.
pub fn bridge_leaf(raw: &[CsPoly]) -> (r: Vec<HVCPoly>)
    requires
        3 * raw.len() <= usize::MAX,
    ensures
        r.len() == 3 * raw.len(),
        forall|k: int|
            0 <= k < raw.len() ==> #[trigger] views(r@).subrange(3 * k, 3 * k + 3) == digit_polys(
                raw[k]@,
                q(),
                3,
            ),
        all_within(views(r@), ZETA as int),
{
    let mut out: Vec<HVCPoly> = Vec::with_capacity(3 * raw.len());
    for k in 0..raw.len()
        invariant
            3 * raw.len() <= usize::MAX,
            out.len() == 3 * k,
            forall|j: int|
                0 <= j < k ==> #[trigger] views(out@).subrange(3 * j, 3 * j + 3) == digit_polys(
                    raw[j]@,
                    q(),
                    3,
                ),
            all_within(views(out@), ZETA as int),
    {
        let d: [HVCPoly; HVC_WIDTH] = raw[k].decompose_r_to_hvc();
        let ghost before = out@;
        push_polys(&mut out, d.as_slice());
        proof {
            assert(views(out@) =~= views(before) + views(d@));
            assert forall|j: int| 0 <= j < k + 1 implies #[trigger] views(out@).subrange(
                3 * j,
                3 * j + 3,
            ) == digit_polys(raw[j]@, q(), 3) by {
                if j < k {
                    assert(views(out@).subrange(3 * j, 3 * j + 3) =~= views(before).subrange(
                        3 * j,
                        3 * j + 3,
                    ));
                } else {
                    assert(views(out@).subrange(3 * j, 3 * j + 3) =~= views(d@));
                }
            }
            assert forall|j: int| 0 <= j < views(out@).len() implies within(
                #[trigger] views(out@)[j],
                ZETA as int,
            ) by {
                if j < before.len() {
                    assert(within(views(before)[j], ZETA as int));
                } else {
                    assert(within(d[j - before.len()]@, ZETA as int));
                }
            }
        }
    }
    out
}

/// The digits of an element within reach stand for its centered coefficients.
pub proof fn lemma_rec_digits(c: Coeffs, m: int, i: int)
    requires
        m > 1,
        m / 2 <= 164_254,
        c.len() == N,
        0 <= i < N,
    ensures
        rec(digit_polys(c, m, 3), i) == centered(c[i], m),
{
    let v = centered(c[i], m);
    lemma_centered(c[i], m);
    lemma_base_powers();
    assert(column(digit_polys(c, m, 3), i) =~= digits_of(v, 3));
    lemma_digits_exact(v, 3);
}

// ---------------------------------------------------------------
// The scheme
// ---------------------------------------------------------------

/// The vector commitment.
pub struct HidingMerkleCommitment;

/// Whether every element of `s` lies in `[-bound, bound]`.
pub fn digits_short(s: &[HVCPoly], bound: u32) -> (r: bool)
    ensures
        r == all_within(views(s@), bound as int),
{
    for j in 0..s.len()
        invariant
            forall|t: int| 0 <= t < j ==> within(#[trigger] views(s@)[t], bound as int),
    {
        assert(views(s@)[j as int] == s[j as int]@);
        if !s[j].norm_at_most(bound) {
            return false;
        }
    }
    true
}

fn randomness_short(s: &[CsPoly], bound: u32) -> (r: bool)
    ensures
        r == all_within(cs_views(s@), bound as int),
{
    for j in 0..s.len()
        invariant
            forall|t: int| 0 <= t < j ==> within(#[trigger] cs_views(s@)[t], bound as int),
    {
        assert(cs_views(s@)[j as int] == s[j as int]@);
        if !s[j].norm_at_most(bound) {
            return false;
        }
    }
    true
}

/// Whether the stored digits stand for the leaf elements.
fn leaf_matches(pp: &CsParams, o: &Opening) -> (r: bool)
    requires
        pp.wf(),
        shape_fits(*pp, *o),
        o.shaped(),
    ensures
        r == forall|k: int|
            0 <= k < 1 + pp.mu_cs ==> #[trigger] leaf_holds(
                *pp,
                cs_views(o.rs@),
                views(o.data@),
                k,
            ),
{
    let raw: Vec<CsPoly> = leaf_block(pp, o.r(), o.s());
    let ghost (rs, data) = (cs_views(o.rs@), views(o.data@));
    assert(cs_views(o.rs@.take(pp.kappa_cs as int)) + cs_views(o.rs@.skip(pp.kappa_cs as int))
        =~= rs);
    for k in 0..raw.len()
        invariant
            o.shaped(),
            shape_fits(*pp, *o),
            raw.len() == 1 + pp.mu_cs,
            rs == cs_views(o.rs@),
            data == views(o.data@),
            forall|j: int, i: int|
                0 <= j < 1 + pp.mu_cs && 0 <= i < N ==> #[trigger] raw[j]@[i] == centered(
                    leaf_at(*pp, rs, j, i),
                    q(),
                ),
            forall|j: int| 0 <= j < k ==> #[trigger] leaf_holds(*pp, rs, data, j),
    {
        let d: &[HVCPoly] = o.u_element(k);
        let p: CsPoly = CsPoly::project_r_from_hvc(d);
        assert(views(d@) =~= leaf_digits(data, k as int));
        proof {
            assert(cong_poly(p@, raw[k as int]@, q()) <==> leaf_holds(
                *pp,
                rs,
                data,
                k as int,
            )) by {
                assert forall|i: int| 0 <= i < N implies (cong(
                    #[trigger] p@[i],
                    raw[k as int]@[i],
                    q(),
                ) <==> cong(rec(leaf_digits(data, k as int), i), leaf_at(*pp, rs, k as int, i), q())) by {
                    lemma_centered(rec(leaf_digits(data, k as int), i), q());
                    lemma_centered(leaf_at(*pp, rs, k as int, i), q());
                    assert(raw[k as int]@[i] == centered(leaf_at(*pp, rs, k as int, i), q()));
                }
                if leaf_holds(*pp, rs, data, k as int) {
                    assert forall|i: int| 0 <= i < p@.len() implies cong(
                        #[trigger] p@[i],
                        raw[k as int]@[i],
                        q(),
                    ) by {
                        assert(cong(
                            rec(leaf_digits(data, k as int), i),
                            leaf_at(*pp, rs, k as int, i),
                            q(),
                        ));
                    }
                }
                if cong_poly(p@, raw[k as int]@, q()) {
                    assert forall|i: int| 0 <= i < N implies cong(
                        #[trigger] rec(leaf_digits(data, k as int), i),
                        leaf_at(*pp, rs, k as int, i),
                        q(),
                    ) by {
                        assert(cong(p@[i], raw[k as int]@[i], q()));
                    }
                }
            }
        }
        if p != raw[k] {
            return false;
        }
    }
    true
}

/// Coefficient-wise congruence of two centered forms is that of what they stand
/// for.
pub proof fn lemma_cong_centered(x: Coeffs, y: Coeffs, fx: spec_fn(int) -> int, fy: spec_fn(int) -> int, m: int)
    requires
        m > 1,
        x.len() == N,
        y.len() == N,
        forall|i: int| 0 <= i < N ==> cong(#[trigger] x[i], fx(i), m),
        forall|i: int| 0 <= i < N ==> cong(#[trigger] y[i], fy(i), m),
    ensures
        cong_poly(x, y, m) <==> forall|i: int| 0 <= i < N ==> cong(#[trigger] fx(i), fy(i), m),
{
    if cong_poly(x, y, m) {
        assert forall|i: int| 0 <= i < N implies cong(#[trigger] fx(i), fy(i), m) by {
            assert(cong(x[i], y[i], m));
            assert(cong(x[i], fx(i), m));
            assert(cong(y[i], fy(i), m));
        }
    }
    if forall|i: int| 0 <= i < N ==> cong(#[trigger] fx(i), fy(i), m) {
        assert forall|i: int| 0 <= i < x.len() implies cong(#[trigger] x[i], y[i], m) by {
            assert(cong(x[i], fx(i), m));
            assert(cong(y[i], fy(i), m));
            assert(cong(fx(i), fy(i), m));
        }
    }
}

/// A centered hash value is congruent to the dot product.
pub proof fn lemma_hash_cong(keys: Seq<Coeffs>, inputs: Seq<Coeffs>, i: int)
    requires
        0 <= i < N,
    ensures
        cong(hvc_hash(keys, inputs)[i], dot_at(keys, inputs, i, keys.len()), hvc::q()),
{
    lemma_centered(dot_at(keys, inputs, i, keys.len()), hvc::q());
}

/// Walks a decomposed path from the root to a leaf label.
///
/// `data` holds the leaf digits, `3 * xi` of them, then `plen` pairs.
pub fn path_matches(
    hasher: &HVCHash,
    g: &Vec<HVCPoly>,
    root: &HVCPoly,
    index: usize,
    xi: usize,
    plen: usize,
    data: &Vec<HVCPoly>,
) -> (r: bool)
    requires
        hasher.wf(),
        g.len() == 3 * xi,
        data.len() == data_polys(xi as int, plen as int),
    ensures
        r == forall|i: int|
            0 <= i < N ==> #[trigger] path_holds(
                views(hasher.keys@),
                views(g@),
                root@,
                index as int,
                xi as int,
                plen as int,
                views(data@),
                i,
            ),
{
    let ghost keys = views(hasher.keys@);
    let ghost gs = views(g@);
    let ghost d = views(data@);
    let ghost x = xi as int;
    let ghost n = plen as int;
    let ghost ix = index as int;
    let all: &[HVCPoly] = data.as_slice();
    let leaf_label: HVCPoly = hvc_dot(g, &all[0..3 * xi]);
    proof {
        assert forall|i: int| 0 <= i < N implies cong(
            #[trigger] leaf_label@[i],
            dot_at(gs, d, i, (3 * x) as nat),
            hvc::q(),
        ) by {
            let u = views(data@.subrange(0, 3 * x));
            lemma_hash_cong(gs, u, i);
            lemma_dot_prefix(gs, u, d, i, (3 * x) as nat);
        }
    }
    let ghost lab = |i: int| dot_at(gs, d, i, (3 * x) as nat);
    if plen == 0 {
        proof {
            lemma_cong_centered(root@, leaf_label@, |i: int| root@[i], lab, hvc::q());
            if cong_poly(root@, leaf_label@, hvc::q()) {
                assert forall|i: int| 0 <= i < N implies #[trigger] path_holds(
                    keys,
                    gs,
                    root@,
                    ix,
                    x,
                    n,
                    d,
                    i,
                ) by {
                    assert(cong(root@[i], leaf_label@[i], hvc::q()));
                    assert(cong(leaf_label@[i], lab(i), hvc::q()));
                }
            } else {
                let i = choose|i: int| 0 <= i < root@.len() && !cong(#[trigger] root@[i], leaf_label@[i], hvc::q());
                assert(cong(leaf_label@[i], lab(i), hvc::q()));
                assert(!path_holds(keys, gs, root@, ix, x, n, d, i));
            }
        }
        return *root == leaf_label;
    }
    let pos: Vec<bool> = position_list(index, plen);
    let top: HVCPoly = pair_label(hasher, all, 3 * xi);
    assert(d.subrange(3 * x, 3 * x + 6) =~= pair_digits(d, x, 0));
    if top != *root {
        proof {
            let i = choose|i: int| 0 <= i < top@.len() && !cong(#[trigger] top@[i], root@[i], hvc::q());
            assert(cong(top@[i], dot_at(keys, pair_digits(d, x, 0), i, 6), hvc::q()));
            assert(!path_holds(keys, gs, root@, ix, x, n, d, i));
        }
        return false;
    }
    proof {
        assert forall|i: int| 0 <= i < N implies #[trigger] pair_hashes(
            keys,
            d,
            x,
            0,
            i,
            root@[i],
        ) by {
            assert(cong(top@[i], root@[i], hvc::q()));
            assert(cong(top@[i], dot_at(keys, pair_digits(d, x, 0), i, 6), hvc::q()));
        }
    }
    for l in 1..plen
        invariant
            hasher.wf(),
            1 <= plen,
            all@ == data@,
            data.len() == data_polys(xi as int, plen as int),
            keys == views(hasher.keys@),
            gs == views(g@),
            d == views(data@),
            x == xi,
            n == plen,
            ix == index,
            pos.len() == plen + 1,
            forall|j: int| 0 <= j <= plen ==> #[trigger] pos[j] == is_right(ix, (n - j) as nat),
            forall|m: int, i: int|
                1 <= m < l && 0 <= i < N ==> #[trigger] pair_hashes(
                    keys,
                    d,
                    x,
                    m,
                    i,
                    rec(child_digits(d, x, m - 1, is_right(ix, (n - m) as nat)), i),
                ),
    {
        let label: HVCPoly = pair_label(hasher, all, 3 * xi + 6 * l);
        let right: bool = pos[l];
        let at: usize = 3 * xi + 6 * (l - 1) + if right {
            3
        } else {
            0
        };
        let expected: HVCPoly = HVCPoly::projection_r(&all[at..at + 3]);
        let ghost child = child_digits(d, x, l - 1, is_right(ix, (n - l) as nat));
        proof {
            assert(d.subrange(3 * x + 6 * l, 3 * x + 6 * l + 6) =~= pair_digits(d, x, l as int));
            assert(views(data@.subrange(at as int, at + 3)) =~= child);
            assert forall|i: int| 0 <= i < N implies cong(
                #[trigger] expected@[i],
                rec(child, i),
                hvc::q(),
            ) by {
                lemma_centered(rec(child, i), hvc::q());
            }
        }
        if label != expected {
            proof {
                let i = choose|i: int|
                    0 <= i < label@.len() && !cong(#[trigger] label@[i], expected@[i], hvc::q());
                assert(cong(label@[i], dot_at(keys, pair_digits(d, x, l as int), i, 6), hvc::q()));
                assert(cong(expected@[i], rec(child, i), hvc::q()));
                assert(!pair_hashes(keys, d, x, l as int, i, rec(child, i)));
                assert(!path_holds(keys, gs, root@, ix, x, n, d, i));
            }
            return false;
        }
        proof {
            assert forall|i: int| 0 <= i < N implies #[trigger] pair_hashes(
                keys,
                d,
                x,
                l as int,
                i,
                rec(child, i),
            ) by {
                assert(cong(label@[i], expected@[i], hvc::q()));
                assert(cong(label@[i], dot_at(keys, pair_digits(d, x, l as int), i, 6), hvc::q()));
                assert(cong(expected@[i], rec(child, i), hvc::q()));
            }
        }
    }
    let right: bool = pos[plen];
    let at: usize = 3 * xi + 6 * (plen - 1) + if right {
        3
    } else {
        0
    };
    let running: HVCPoly = HVCPoly::projection_r(&all[at..at + 3]);
    let ghost child = child_digits(d, x, n - 1, is_right(ix, 0));
    proof {
        assert(views(data@.subrange(at as int, at + 3)) =~= child);
        assert forall|i: int| 0 <= i < N implies cong(
            #[trigger] running@[i],
            rec(child, i),
            hvc::q(),
        ) by {
            lemma_centered(rec(child, i), hvc::q());
        }
        if cong_poly(running@, leaf_label@, hvc::q()) {
            assert forall|i: int| 0 <= i < N implies #[trigger] path_holds(
                keys,
                gs,
                root@,
                ix,
                x,
                n,
                d,
                i,
            ) by {
                assert(cong(running@[i], leaf_label@[i], hvc::q()));
                assert(cong(leaf_label@[i], dot_at(gs, d, i, (3 * x) as nat), hvc::q()));
                assert(cong(running@[i], rec(child, i), hvc::q()));
                assert(pair_hashes(keys, d, x, 0, i, root@[i]));
            }
        } else {
            let i = choose|i: int|
                0 <= i < running@.len() && !cong(#[trigger] running@[i], leaf_label@[i], hvc::q());
            assert(cong(leaf_label@[i], dot_at(gs, d, i, (3 * x) as nat), hvc::q()));
            assert(cong(running@[i], rec(child, i), hvc::q()));
            assert(!path_holds(keys, gs, root@, ix, x, n, d, i));
        }
    }
    running == leaf_label
}

/// The label of the pair whose digits start at `at`.
fn pair_label(hasher: &HVCHash, all: &[HVCPoly], at: usize) -> (r: HVCPoly)
    requires
        hasher.wf(),
        at + 6 <= all.len(),
    ensures
        forall|i: int|
            0 <= i < N ==> cong(
                #[trigger] r@[i],
                dot_at(views(hasher.keys@), views(all@).subrange(at as int, at + 6), i, 6),
                hvc::q(),
            ),
{
    let l: &[HVCPoly] = &all[at..at + 3];
    let rr: &[HVCPoly] = &all[at + 3..at + 6];
    let r: HVCPoly = hasher.hash_separate_inputs(l, rr);
    proof {
        let pair = views(all@).subrange(at as int, at + 6);
        assert(views(l@) + views(rr@) =~= pair);
        assert forall|i: int| 0 <= i < N implies cong(
            #[trigger] r@[i],
            dot_at(views(hasher.keys@), pair, i, 6),
            hvc::q(),
        ) by {
            lemma_hash_cong(views(hasher.keys@), pair, i);
        }
    }
    r
}

impl HidingMerkleCommitment {
    /// Parameters for the given dimensions, with all matrices drawn from `rng`.
    pub fn setup_with_dims(
        rng: &mut ChaCha20Rng,
        num_servers: usize,
        mu_cs: usize,
        kappa_cs: usize,
    ) -> (r: CsParams)
        requires
            1 <= mu_cs,
            1 <= kappa_cs,
            kappa_cs + mu_cs <= usize::MAX,
            data_polys(1 + mu_cs, MAX_DEPTH as int) <= usize::MAX,
            num_servers <= usize::MAX / 2 + 1,
        ensures
            r.wf(),
            r.mu_cs == mu_cs,
            r.kappa_cs == kappa_cs,
            r.n_servers == num_servers,
            drawn_between(r, *old(rng), *final(rng)),
    {
        let a_ntt: Vec<CsNTTPoly> = random_row(rng, kappa_cs);
        let ghost g1 = *rng;
        let ghost draws = cs_rows(kappa_cs as nat);
        let ghost mut b: Seq<Seq<Coeffs>> = Seq::empty();
        proof {
            lemma_run_empty(draws, *rng);
        }
        let mut b_matrix_ntt: Vec<Vec<CsNTTPoly>> = Vec::with_capacity(mu_cs);
        for k in 0..mu_cs
            invariant
                b_matrix_ntt.len() == k,
                draws == cs_rows(kappa_cs as nat),
                b.len() == k,
                run(draws, g1, b, *rng),
                forall|j: int|
                    0 <= j < k ==> are_residues((#[trigger] b_matrix_ntt[j])@, b[j]),
                forall|j: int|
                    0 <= j < k ==> (#[trigger] b_matrix_ntt[j]).len() == kappa_cs && all_wf(
                        b_matrix_ntt[j]@,
                    ),
        {
            let ghost m = *rng;
            let row: Vec<CsNTTPoly> = random_row(rng, kappa_cs);
            proof {
                let drawn = choose|drawn: Seq<Coeffs>|
                    are_residues(row@, drawn) && #[trigger] run(cs_elements(), m, drawn, *rng);
                lemma_run_push(draws, g1, b, m, drawn, *rng);
                b = b.push(drawn);
            }
            b_matrix_ntt.push(row);
        }
        let ghost g2 = *rng;
        let leaf_hash = LeafHash::init(rng, 1 + mu_cs);
        let ghost g3 = *rng;
        let hasher = HVCHash::init(rng);
        let n_leaves: usize = leaf_count(num_servers);
        proof {
            let a = choose|a: Seq<Coeffs>|
                are_residues(a_ntt@, a) && #[trigger] run(cs_elements(), *old(rng), a, g1);
            assert(run(cs_elements(), *old(rng), a, g1));
            assert(run(cs_rows(kappa_cs as nat), g1, b, g2));
            assert(run(hvc_elements(), g2, views(leaf_hash.g@), g3));
        }
        CsParams {
            a_ntt,
            b_matrix_ntt,
            mu_cs,
            kappa_cs,
            beta_cs: BETA_CS,
            r_bound: R_BOUND,
            beta_agg_hvc: beta_agg_hvc(),
            leaf_hash,
            hasher,
            n_servers: num_servers,
            n_leaves,
        }
    }

    /// One committed component, randomness width five.
    pub fn setup(rng: &mut ChaCha20Rng, num_servers: usize) -> (r: CsParams)
        requires
            num_servers <= usize::MAX / 2 + 1,
        ensures
            r.wf(),
            r.mu_cs == 1,
            r.kappa_cs == 5,
            r.n_servers == num_servers,
            drawn_between(r, *old(rng), *final(rng)),
    {
        Self::setup_with_dims(rng, num_servers, 1, 5)
    }

    /// Whether `o` opens `c`.
    pub fn verify(pp: &CsParams, c: &Commitment, o: &Opening) -> (r: bool)
        requires
            pp.wf(),
        ensures
            r == opens(*pp, c.root@, *o),
    {
        let depth: usize = pp.stored_path_len();
        if o.kappa_cs != pp.kappa_cs || o.mu_cs != pp.mu_cs || o.stored_path_len != depth {
            return false;
        }
        if o.rs.len() != pp.kappa_cs + pp.mu_cs || o.data.len() != opening_data_polys(
            1 + pp.mu_cs,
            depth,
        ) {
            return false;
        }
        assert(cs_views(o.rs@.take(pp.kappa_cs as int)) =~= cs_views(o.rs@).take(
            pp.kappa_cs as int,
        ));
        if !randomness_short(o.r(), pp.r_bound) {
            return false;
        }
        if !digits_short(&o.data, pp.beta_agg_hvc) {
            return false;
        }
        if !leaf_matches(pp, o) {
            return false;
        }
        let xi: usize = 1 + pp.mu_cs;
        let ok: bool = path_matches(
            &pp.hasher,
            &pp.leaf_hash.g,
            &c.root,
            o.path_index,
            xi,
            depth,
            &o.data,
        );
        proof {
            let (ix, d) = (o.path_index as int, views(o.data@));
            if ok {
                assert forall|i: int| 0 <= i < N implies #[trigger] path_holds(
                    pp.keys(),
                    pp.g(),
                    c.root@,
                    ix,
                    1 + pp.mu_cs,
                    pp.depth() as int,
                    d,
                    i,
                ) by {
                    assert(path_holds(
                        views(pp.hasher.keys@),
                        views(pp.leaf_hash.g@),
                        c.root@,
                        ix,
                        xi as int,
                        depth as int,
                        d,
                        i,
                    ));
                }
            } else {
                let i = choose|i: int|
                    0 <= i < N && !#[trigger] path_holds(
                        views(pp.hasher.keys@),
                        views(pp.leaf_hash.g@),
                        c.root@,
                        ix,
                        xi as int,
                        depth as int,
                        d,
                        i,
                    );
                assert(!path_holds(
                    pp.keys(),
                    pp.g(),
                    c.root@,
                    ix,
                    1 + pp.mu_cs,
                    pp.depth() as int,
                    d,
                    i,
                ));
            }
        }
        ok
    }

    /// The sum of commitments.
    pub fn sum_commitments(cs: &[Commitment]) -> (r: Commitment)
        ensures
            r.root@ == hvc_sum(cs@.map(|_i: int, c: Commitment| c.root@)),
            r.root.is_centered(),
    {
        let mut refs: Vec<&HVCPoly> = Vec::with_capacity(cs.len());
        for i in 0..cs.len()
            invariant
                refs.len() == i,
                forall|j: int| 0 <= j < i ==> (#[trigger] refs[j])@ == cs[j].root@,
        {
            refs.push(&cs[i].root);
        }
        let root: HVCPoly = sum_hvc_polys(&refs);
        assert(refs@.map(|_i: int, p: &HVCPoly| p@) =~= cs@.map(
            |_i: int, c: Commitment| c.root@,
        ));
        Commitment { root }
    }
}

/// Uniform commitment-ring elements.
fn random_row(rng: &mut ChaCha20Rng, len: usize) -> (r: Vec<CsNTTPoly>)
    ensures
        r.len() == len,
        all_wf(r@),
        exists|row: Seq<Coeffs>|
            are_residues(r@, row) && #[trigger] run(cs_elements(), *old(rng), row, *final(rng)),
{
    let mut out: Vec<CsNTTPoly> = Vec::with_capacity(len);
    let ghost mut row: Seq<Coeffs> = Seq::empty();
    proof {
        lemma_run_empty(cs_elements(), *rng);
    }
    for i in 0..len
        invariant
            out.len() == i,
            all_wf(out@),
            are_residues(out@, row),
            run(cs_elements(), *old(rng), row, *rng),
    {
        let ghost m = *rng;
        let p: CsPoly = CsPoly::rand_poly(rng);
        proof {
            lemma_run_push(cs_elements(), *old(rng), row, m, p@, *rng);
            row = row.push(p@);
        }
        out.push(CsNTTPoly::from_poly(&p));
    }
    out
}

/// The elements of `r` are those of `row`, reduced.
pub open spec fn are_residues(r: Seq<CsNTTPoly>, row: Seq<Coeffs>) -> bool {
    &&& r.len() == row.len()
    &&& forall|j: int, i: int|
        0 <= j < r.len() && 0 <= i < N ==> #[trigger] r[j]@[i] == row[j][i] % (CS_MODULUS as int)
}

/// Rows of `len` elements that the generator gives.
pub open spec fn cs_rows(len: nat) -> spec_fn(ChaCha20Rng, Seq<Coeffs>, ChaCha20Rng) -> bool {
    |g: ChaCha20Rng, row: Seq<Coeffs>, h: ChaCha20Rng|
        row.len() == len && run(cs_elements(), g, row, h)
}

/// The matrices of `pp` are what the generator gives from `g` to `h`: the row
/// `a`, the rows of `b`, the leaf keys and the tree keys, in this order.
pub open spec fn drawn_between(pp: CsParams, g: ChaCha20Rng, h: ChaCha20Rng) -> bool {
    exists|
        a: Seq<Coeffs>,
        b: Seq<Seq<Coeffs>>,
        g1: ChaCha20Rng,
        g2: ChaCha20Rng,
        g3: ChaCha20Rng,
    |
        {
            &&& #[trigger] run(cs_elements(), g, a, g1)
            &&& #[trigger] run(cs_rows(pp.kappa_cs as nat), g1, b, g2)
            &&& #[trigger] run(hvc_elements(), g2, views(pp.leaf_hash.g@), g3)
            &&& run(hvc_elements(), g3, views(pp.hasher.keys@), h)
            &&& are_residues(pp.a_ntt@, a)
            &&& b.len() == pp.b_matrix_ntt.len()
            &&& forall|k: int|
                0 <= k < b.len() ==> are_residues((#[trigger] pp.b_matrix_ntt[k])@, b[k])
        }
}

/// An opening whose share component differs modulo `q` from one that opens the
/// root, with the same randomness and digits, is refused.
pub proof fn law_other_share_is_refused(
    pp: CsParams,
    root: Coeffs,
    o: Opening,
    other: Opening,
    k: int,
    i: int,
)
    requires
        pp.wf(),
        opens(pp, root, o),
        other.data@ == o.data@,
        other.rs.len() == o.rs.len(),
        forall|j: int| 0 <= j < pp.kappa_cs ==> #[trigger] other.rs@[j] == o.rs@[j],
        0 <= k < pp.mu_cs,
        0 <= i < N,
        !cong(other.rs@[pp.kappa_cs + k]@[i], o.rs@[pp.kappa_cs + k]@[i], q()),
    ensures
        !opens(pp, root, other),
{
    if opens(pp, root, other) {
        let (a, b) = (cs_views(o.rs@), cs_views(other.rs@));
        let data = views(o.data@);
        assert(leaf_holds(pp, a, data, k + 1));
        assert(leaf_holds(pp, b, data, k + 1));
        let d = rec(leaf_digits(data, k + 1), i);
        assert(cong(d, leaf_at(pp, a, k + 1, i), q()));
        assert(cong(d, leaf_at(pp, b, k + 1, i), q()));
        assert forall|j: int| 0 <= j < pp.kappa_cs implies #[trigger] a[j] == b[j] by {
            assert(other.rs@[j] == o.rs@[j]);
        }
        lemma_dot_prefix(pp.b(k), a, b, i, pp.kappa_cs as nat);
        let x = dot_at(pp.b(k), a, i, pp.kappa_cs as nat);
        field::lemma_cong_ops(leaf_at(pp, b, k + 1, i), leaf_at(pp, a, k + 1, i), x, x, q());
    }
}

/// Every matrix of the parameters is drawn: the row `a`, then each row of `b`,
/// then the leaf keys and the tree keys, element by element.
pub proof fn law_matrices_are_drawn(pp: CsParams, g: ChaCha20Rng, h: ChaCha20Rng)
    requires
        drawn_between(pp, g, h),
    ensures
        exists|
            a: Seq<Coeffs>,
            b: Seq<Seq<Coeffs>>,
            gs: Seq<ChaCha20Rng>,
            g1: ChaCha20Rng,
            g3: ChaCha20Rng,
        |
            {
                &&& #[trigger] run(cs_elements(), g, a, g1)
                &&& a.len() == pp.a_ntt.len()
                &&& forall|j: int, i: int|
                    0 <= j < a.len() && 0 <= i < N ==> #[trigger] pp.a_ntt[j]@[i] == a[j][i] % (
                    CS_MODULUS as int)
                &&& #[trigger] b.len() == pp.b_matrix_ntt.len()
                &&& gs.len() == b.len() + 1
                &&& gs[0] == g1
                &&& forall|k: int|
                    0 <= k < b.len() ==> run(cs_elements(), gs[k], #[trigger] b[k], gs[k + 1])
                        && b[k].len() == pp.b_matrix_ntt[k].len()
                &&& forall|k: int, j: int, i: int|
                    0 <= k < b.len() && 0 <= j < b[k].len() && 0 <= i < N
                        ==> #[trigger] pp.b_matrix_ntt[k][j]@[i] == b[k][j][i] % (CS_MODULUS as int)
                &&& #[trigger] run(hvc_elements(), gs.last(), views(pp.leaf_hash.g@), g3)
                &&& run(hvc_elements(), g3, views(pp.hasher.keys@), h)
            },
{
    let (a, b, g1, g2, g3) = choose|
        a: Seq<Coeffs>,
        b: Seq<Seq<Coeffs>>,
        g1: ChaCha20Rng,
        g2: ChaCha20Rng,
        g3: ChaCha20Rng,
    |
        {
            &&& #[trigger] run(cs_elements(), g, a, g1)
            &&& #[trigger] run(cs_rows(pp.kappa_cs as nat), g1, b, g2)
            &&& #[trigger] run(hvc_elements(), g2, views(pp.leaf_hash.g@), g3)
            &&& run(hvc_elements(), g3, views(pp.hasher.keys@), h)
            &&& are_residues(pp.a_ntt@, a)
            &&& b.len() == pp.b_matrix_ntt.len()
            &&& forall|k: int|
                0 <= k < b.len() ==> are_residues((#[trigger] pp.b_matrix_ntt[k])@, b[k])
        };
    let draws = cs_rows(pp.kappa_cs as nat);
    let gs = choose|gs: Seq<ChaCha20Rng>| #[trigger]
        crate::random::linked(draws, gs, b) && gs[0] == g1 && gs[b.len() as int] == g2;
    assert forall|k: int| 0 <= k < b.len() implies run(
        cs_elements(),
        gs[k],
        #[trigger] b[k],
        gs[k + 1],
    ) && b[k].len() == pp.b_matrix_ntt[k].len() by {
        assert(draws(gs[k], b[k], gs[k + 1]));
        assert(are_residues(pp.b_matrix_ntt[k]@, b[k]));
    }
    assert forall|k: int, j: int, i: int|
        0 <= k < b.len() && 0 <= j < b[k].len() && 0 <= i < N implies
        #[trigger] pp.b_matrix_ntt[k][j]@[i] == b[k][j][i] % (CS_MODULUS as int) by {
        assert(are_residues(pp.b_matrix_ntt[k]@, b[k]));
    }
    assert(run(cs_elements(), g, a, g1));
    assert(b.len() == pp.b_matrix_ntt.len());
    assert(run(hvc_elements(), gs.last(), views(pp.leaf_hash.g@), g3));
}

/// A tree has the fewest leaves, a power of two and at least two, that hold all
/// servers.
pub proof fn law_leaves_are_fewest(n: int, leaves: int, k: nat)
    requires
        is_leaf_count(n, leaves),
        k >= 1,
        pow2(k) >= n,
    ensures
        n <= leaves <= pow2(k),
        2 <= leaves,
{
    lemma2_to64();
    let h = log2(leaves);
    if leaves > pow2(k) {
        assert(h > k) by {
            if h <= k {
                crate::bits::lemma_pow2_monotonic(h, k);
            }
        }
        crate::bits::lemma_pow2_monotonic(k, (h - 1) as nat);
        lemma_pow2_adds((h - 1) as nat, 1);
        assert(leaves / 2 == pow2((h - 1) as nat));
        crate::bits::lemma_pow2_monotonic(1, k);
    } else {
        crate::bits::lemma_pow2_monotonic(1, k);
    }
}

} // verus!
