//! The homomorphic tree hash: a linear hash over the tree-hash ring and the
//! binary tree built with it.

use crate::field::{self, cong};
use crate::negacyclic::{
    self, center_canonical_i64, centered, combine, cong_poly, dot_at, lemma_centered,
    lemma_centered_cong, product_at, rem_euclid_i64, Coeffs, N,
};
use crate::ntt;
use crate::rings::{
    add_polys, centered_poly, digit_polys, views, HVCPoly, HVC_MODULUS, HVC_MODULUS_OVER_TWO,
    HVC_WIDTH,
};
use crate::random::{elements, lemma_run_empty, lemma_run_push, run};
use rand_chacha::ChaCha20Rng;
use vstd::arithmetic::power2::{lemma2_to64, lemma_pow2_adds, pow2};
use vstd::prelude::*;

verus! {

/// The tree-hash modulus as an integer.
pub open spec fn q() -> int {
    HVC_MODULUS as int
}

/// `sum_j keys[j] * inputs[j]`, centered.
pub open spec fn hvc_hash(keys: Seq<Coeffs>, inputs: Seq<Coeffs>) -> Coeffs {
    Seq::new(N as nat, |k: int| centered(dot_at(keys, inputs, k, keys.len()), q()))
}

/// Every element has `N` coefficients.
pub open spec fn full(s: Seq<Coeffs>) -> bool {
    forall|i: int| 0 <= i < s.len() ==> (#[trigger] s[i]).len() == N
}

/// Dot products are additive in the inputs.
pub proof fn lemma_dot_linear(keys: Seq<Coeffs>, a: Seq<Coeffs>, b: Seq<Coeffs>, k: int, upto: nat)
    requires
        full(keys),
        full(a),
        full(b),
        a.len() == b.len(),
        upto <= keys.len(),
        upto <= a.len(),
        0 <= k < N,
    ensures
        dot_at(keys, add_polys(a, b), k, upto) == dot_at(keys, a, k, upto) + dot_at(
            keys,
            b,
            k,
            upto,
        ),
    decreases upto,
{
    if upto > 0 {
        let m = (upto - 1) as nat;
        lemma_dot_linear(keys, a, b, k, m);
        assert(keys[m as int].len() == N && a[m as int].len() == N && b[m as int].len() == N);
        negacyclic::lemma_product_linear(
            keys[m as int],
            a[m as int],
            1,
            b[m as int],
            k,
            N as nat,
        );
    }
}

/// Dot products depend on the inputs only modulo `m`.
pub proof fn lemma_dot_cong(
    keys: Seq<Coeffs>,
    a: Seq<Coeffs>,
    b: Seq<Coeffs>,
    k: int,
    upto: nat,
    m: int,
)
    requires
        m > 0,
        full(keys),
        full(a),
        full(b),
        a.len() == b.len(),
        upto <= keys.len(),
        upto <= a.len(),
        0 <= k < N,
        forall|j: int| 0 <= j < a.len() ==> cong_poly(#[trigger] a[j], b[j], m),
    ensures
        cong(dot_at(keys, a, k, upto), dot_at(keys, b, k, upto), m),
    decreases upto,
{
    if upto > 0 {
        let i = upto - 1;
        lemma_dot_cong(keys, a, b, k, i as nat, m);
        assert(keys[i].len() == N && a[i].len() == N && b[i].len() == N);
        assert(cong_poly(a[i], b[i], m));
        assert(cong_poly(keys[i], keys[i], m));
        negacyclic::lemma_product_cong(keys[i], a[i], keys[i], b[i], k, N as nat, m);
        field::lemma_cong_ops(
            dot_at(keys, a, k, i as nat),
            dot_at(keys, b, k, i as nat),
            product_at(keys[i], a[i], k),
            product_at(keys[i], b[i], k),
            m,
        );
    }
}

/// The hash is linear: the hash of summed inputs is the sum of the hashes.
pub proof fn law_hash_is_linear(keys: Seq<Coeffs>, a: Seq<Coeffs>, b: Seq<Coeffs>)
    requires
        full(keys),
        full(a),
        full(b),
        a.len() == keys.len(),
        b.len() == keys.len(),
    ensures
        hvc_hash(keys, add_polys(a, b)) == centered_poly(
            combine(hvc_hash(keys, a), 1, hvc_hash(keys, b)),
            q(),
        ),
{
    let (x, y) = (hvc_hash(keys, a), hvc_hash(keys, b));
    assert forall|k: int| 0 <= k < N implies hvc_hash(keys, add_polys(a, b))[k] == centered(
        x[k] + 1 * y[k],
        q(),
    ) by {
        lemma_dot_linear(keys, a, b, k, keys.len());
        let (u, v) = (dot_at(keys, a, k, keys.len()), dot_at(keys, b, k, keys.len()));
        lemma_centered(u, q());
        lemma_centered(v, q());
        field::lemma_cong_ops(x[k], u, y[k], v, q());
        lemma_centered_cong(x[k] + y[k], u + v, q());
    }
    assert(hvc_hash(keys, add_polys(a, b)) =~= centered_poly(combine(x, 1, y), q()));
}

/// The canonical residues of polynomials.
fn canonical(polys: &[HVCPoly]) -> (r: Vec<Vec<u64>>)
    ensures
        r.len() == polys.len(),
        forall|j: int|
            0 <= j < r.len() ==> (#[trigger] r[j]).len() == N && ntt::reduced(r[j]@, q()),
        forall|j: int|
            0 <= j < r.len() ==> cong_poly(
                #[trigger] ntt::residues(r@)[j],
                views(polys@)[j],
                q(),
            ),
{
    let mut out: Vec<Vec<u64>> = Vec::with_capacity(polys.len());
    for j in 0..polys.len()
        invariant
            out.len() == j,
            forall|i: int|
                0 <= i < j ==> (#[trigger] out[i]).len() == N && ntt::reduced(out[i]@, q()),
            forall|i: int|
                0 <= i < j ==> cong_poly(ntt::words((#[trigger] out[i])@), views(polys@)[i], q()),
    {
        let mut v: Vec<u64> = Vec::with_capacity(N);
        for i in 0..N
            invariant
                j < polys.len(),
                v.len() == i,
                forall|k: int|
                    0 <= k < i ==> #[trigger] v@[k] == polys[j as int].coeffs[k] as int % q(),
                ntt::reduced(v@, q()),
        {
            v.push(rem_euclid_i64(polys[j].coeffs[i] as i64, HVC_MODULUS as i64) as u64);
        }
        proof {
            let (w, p) = (ntt::words(v@), views(polys@)[j as int]);
            assert forall|k: int| 0 <= k < w.len() implies cong(#[trigger] w[k], p[k], q()) by {
                assert(v@[k] == polys[j as int].coeffs[k] as int % q());
                field::lemma_cong_mod(p[k], q());
            }
        }
        out.push(v);
    }
    out
}

/// `sum_j keys[j] * inputs[j]`, centered.
pub fn hvc_dot(keys: &[HVCPoly], inputs: &[HVCPoly]) -> (r: HVCPoly)
    requires
        keys.len() == inputs.len(),
    ensures
        r@ == hvc_hash(views(keys@), views(inputs@)),
        r.is_centered(),
{
    let ghost (gk, gi) = (views(keys@), views(inputs@));
    let a: Vec<Vec<u64>> = canonical(keys);
    let b: Vec<Vec<u64>> = canonical(inputs);
    proof {
        crate::primes::lemma_hvc_modulus_prime();
        crate::primes::lemma_hvc_root();
    }
    let acc: Vec<u64> = ntt::dot::<40961>(18088, &a, &b);
    proof {
        let (ra, rb) = (ntt::residues(a@), ntt::residues(b@));
        let n = keys.len() as nat;
        assert forall|j: int| 0 <= j < ra.len() implies (#[trigger] ra[j]).len() == N by {
            assert(a[j].len() == N);
        }
        assert forall|j: int| 0 <= j < rb.len() implies (#[trigger] rb[j]).len() == N by {
            assert(b[j].len() == N);
        }
        assert forall|k: int| 0 <= k < N implies #[trigger] acc[k] == dot_at(gk, gi, k, n)
            % q() by {
            ntt::lemma_dot_cong(ra, rb, gk, gi, k, n, q());
        }
    }
    let mut coeffs: [i32; N] = [0i32; N];
    for k in 0..N
        invariant
            gk.len() == keys.len(),
            acc.len() == N,
            forall|i: int|
                0 <= i < N ==> #[trigger] acc[i] == dot_at(gk, gi, i, keys.len() as nat) % q(),
            forall|i: int|
                0 <= i < k ==> #[trigger] coeffs[i] == hvc_hash(gk, gi)[i]
                    && -HVC_MODULUS_OVER_TWO <= coeffs[i] <= HVC_MODULUS_OVER_TWO,
    {
        proof {
            let d = dot_at(gk, gi, k as int, keys.len() as nat);
            assert(acc[k as int] == d % q());
            field::lemma_cong_mod(d, q());
            lemma_centered_cong(d % q(), d, q());
            lemma_centered(d, q());
            vstd::arithmetic::div_mod::lemma_mod_bound(d, q());
        }
        coeffs[k] = center_canonical_i64(acc[k] as i64, HVC_MODULUS as i64) as i32;
    }
    let r = HVCPoly { coeffs };
    assert(r@ =~= hvc_hash(gk, gi));
    assert forall|i: int| 0 <= i < r@.len() implies -HVC_MODULUS_OVER_TWO <= #[trigger] r@[i]
        <= HVC_MODULUS_OVER_TWO by {
        assert(-HVC_MODULUS_OVER_TWO <= coeffs[i] <= HVC_MODULUS_OVER_TWO);
    }
    r
}

/// Every element has centered coefficients.
pub open spec fn all_centered(s: Seq<HVCPoly>) -> bool {
    forall|i: int| 0 <= i < s.len() ==> (#[trigger] s[i]).is_centered()
}

/// Uniform hash keys, drawn one after the other.
pub fn random_keys(rng: &mut ChaCha20Rng, len: usize) -> (r: Vec<HVCPoly>)
    ensures
        r.len() == len,
        all_centered(r@),
        run(hvc_elements(), *old(rng), views(r@), *final(rng)),
{
    let mut out: Vec<HVCPoly> = Vec::with_capacity(len);
    proof {
        lemma_run_empty(hvc_elements(), *rng);
        assert(views(out@) =~= Seq::<Coeffs>::empty());
    }
    for i in 0..len
        invariant
            out.len() == i,
            all_centered(out@),
            run(hvc_elements(), *old(rng), views(out@), *rng),
    {
        let ghost m = *rng;
        let p: HVCPoly = HVCPoly::rand_poly(rng);
        proof {
            lemma_run_push(hvc_elements(), *old(rng), views(out@), m, p@, *rng);
            assert(views(out@.push(p)) =~= views(out@).push(p@));
        }
        out.push(p);
    }
    out
}

/// Tree-hash elements that the generator gives.
pub open spec fn hvc_elements() -> spec_fn(ChaCha20Rng, Coeffs, ChaCha20Rng) -> bool {
    elements(HVC_MODULUS as int, HVC_MODULUS_OVER_TWO as int)
}

// ---------------------------------------------------------------
// Sums
// ---------------------------------------------------------------

/// Coefficient `k` across elements.
pub open spec fn coefficient(s: Seq<Coeffs>, k: int) -> Seq<int> {
    s.map(|_i: int, p: Coeffs| p[k])
}

/// Coefficient-wise sum, centered.
pub open spec fn hvc_sum(s: Seq<Coeffs>) -> Coeffs {
    Seq::new(N as nat, |k: int| centered(field::sum(coefficient(s, k)), q()))
}

/// Sums tree-ring elements.
pub fn sum_hvc_polys(polys: &[&HVCPoly]) -> (r: HVCPoly)
    ensures
        r@ == hvc_sum(polys@.map(|_i: int, p: &HVCPoly| p@)),
        r.is_centered(),
{
    let ghost vs = polys@.map(|_i: int, p: &HVCPoly| p@);
    let mut acc: HVCPoly = HVCPoly::default();
    proof {
        assert(acc@ =~= hvc_sum(vs.take(0))) by {
            assert forall|k: int| 0 <= k < N implies acc@[k] == hvc_sum(vs.take(0))[k] by {
                assert(coefficient(vs.take(0), k) =~= Seq::<int>::empty());
                assert(acc.coeffs[k] == 0);
            }
        }
    }
    for i in 0..polys.len()
        invariant
            vs == polys@.map(|_i: int, p: &HVCPoly| p@),
            acc@ == hvc_sum(vs.take(i as int)),
    {
        let next: HVCPoly = acc + *polys[i];
        proof {
            assert(next@ =~= hvc_sum(vs.take(i + 1))) by {
                assert forall|k: int| 0 <= k < N implies next@[k] == hvc_sum(vs.take(i + 1))[k] by {
                    let a = coefficient(vs.take(i as int), k);
                    let y = polys[i as int]@[k];
                    assert(coefficient(vs.take(i + 1), k) =~= a.push(y));
                    field::lemma_sum_push(a, y);
                    lemma_centered(field::sum(a), q());
                    field::lemma_cong_ops(acc@[k], field::sum(a), y, y, q());
                    lemma_centered_cong(acc@[k] + 1 * y, field::sum(a) + y, q());
                }
            }
        }
        acc = next;
    }
    proof {
        assert(vs.take(polys.len() as int) =~= vs);
        assert forall|k: int| 0 <= k < acc@.len() implies -HVC_MODULUS_OVER_TWO
            <= #[trigger] acc@[k] <= HVC_MODULUS_OVER_TWO by {
            assert(acc@[k] == hvc_sum(vs)[k]);
            lemma_centered(field::sum(coefficient(vs, k)), q());
        }
    }
    acc
}

/// A dot-product hash over a fixed key vector.
pub struct StreamingHvcDot {
    pub bases: Vec<HVCPoly>,
}

impl StreamingHvcDot {
    pub fn init(rng: &mut ChaCha20Rng, len: usize) -> (r: Self)
        ensures
            r.bases.len() == len,
            all_centered(r.bases@),
            run(hvc_elements(), *old(rng), views(r.bases@), *final(rng)),
    {
        StreamingHvcDot { bases: random_keys(rng, len) }
    }

    /// `sum_j bases[j] * inputs[j]`, centered.
    pub fn hash(&self, inputs: &[HVCPoly]) -> (r: HVCPoly)
        requires
            inputs.len() == self.bases.len(),
        ensures
            r@ == hvc_hash(views(self.bases@), views(inputs@)),
            r.is_centered(),
    {
        hvc_dot(&self.bases, inputs)
    }
}

// ---------------------------------------------------------------
// Tree
// ---------------------------------------------------------------

/// The sibling-pair hash: one key per digit of the left and right child.
pub struct HVCHash {
    pub keys: Vec<HVCPoly>,
}

/// The digits of a node label.
pub open spec fn label_digits(c: Coeffs) -> Seq<Coeffs> {
    digit_polys(c, q(), HVC_WIDTH as nat)
}

/// The label of a node over its children's labels.
pub open spec fn parent(keys: Seq<Coeffs>, l: Coeffs, r: Coeffs) -> Coeffs {
    hvc_hash(keys, label_digits(l) + label_digits(r))
}

/// Hash values are centered.
pub proof fn lemma_parent_centered(keys: Seq<Coeffs>, l: Coeffs, r: Coeffs, k: int)
    requires
        0 <= k < N,
    ensures
        -HVC_MODULUS_OVER_TWO <= parent(keys, l, r)[k] <= HVC_MODULUS_OVER_TWO,
{
    lemma_centered(dot_at(keys, label_digits(l) + label_digits(r), k, keys.len()), q());
}

impl HVCHash {
    pub open spec fn wf(&self) -> bool {
        self.keys.len() == 2 * HVC_WIDTH
    }

    pub fn init(rng: &mut ChaCha20Rng) -> (r: Self)
        ensures
            r.wf(),
            all_centered(r.keys@),
            run(hvc_elements(), *old(rng), views(r.keys@), *final(rng)),
    {
        HVCHash { keys: random_keys(rng, 2 * HVC_WIDTH) }
    }

    /// Hashes the digits of two children.
    pub fn hash_separate_inputs(&self, left: &[HVCPoly], right: &[HVCPoly]) -> (r: HVCPoly)
        requires
            self.wf(),
            left.len() == HVC_WIDTH,
            right.len() == HVC_WIDTH,
        ensures
            r@ == hvc_hash(views(self.keys@), views(left@) + views(right@)),
            r.is_centered(),
    {
        let mut both: Vec<HVCPoly> = Vec::with_capacity(2 * HVC_WIDTH);
        push_polys(&mut both, left);
        push_polys(&mut both, right);
        assert(views(both@) =~= views(left@) + views(right@));
        hvc_dot(&self.keys, &both)
    }
}

/// Appends copies of a slice of elements.
pub fn push_polys(out: &mut Vec<HVCPoly>, s: &[HVCPoly])
    ensures
        final(out)@ == old(out)@ + s@,
{
    let ghost start = out@;
    for i in 0..s.len()
        invariant
            out@ == start + s@.take(i as int),
    {
        out.push(s[i]);
        assert(out@ =~= start + s@.take(i + 1));
    }
    assert(s@.take(s.len() as int) =~= s@);
}

/// Label of node `i` at height `h` over `leaves`.
pub open spec fn node(keys: Seq<Coeffs>, leaves: Seq<Coeffs>, h: nat, i: int) -> Coeffs
    decreases h,
{
    if h == 0 {
        leaves[i]
    } else {
        parent(
            keys,
            node(keys, leaves, (h - 1) as nat, 2 * i),
            node(keys, leaves, (h - 1) as nat, 2 * i + 1),
        )
    }
}

/// A binary tree over a power of two of leaves.
pub struct Tree {
    /// `levels[h]` holds the labels at height `h`.
    pub levels: Vec<Vec<HVCPoly>>,
    /// The keys the labels were hashed with.
    pub keys: Ghost<Seq<Coeffs>>,
}

/// A leaf's path: the pairs of siblings from the root's children down.
pub struct Path {
    pub index: usize,
    pub nodes: Vec<(HVCPoly, HVCPoly)>,
}

impl Tree {
    pub open spec fn leaves(&self) -> Seq<Coeffs> {
        views(self.levels[0]@)
    }

    pub open spec fn depth(&self) -> int {
        self.levels.len() - 1
    }

    pub open spec fn wf(&self) -> bool {
        &&& 1 <= self.levels.len() <= 64
        &&& forall|h: int|
            0 <= h < self.levels.len() ==> (#[trigger] self.levels[h]).len() == pow2(
                (self.depth() - h) as nat,
            )
        &&& forall|h: int, i: int|
            0 <= h < self.levels.len() && 0 <= i < self.levels[h].len()
                ==> #[trigger] self.levels[h][i]@ == node(self.keys@, self.leaves(), h as nat, i)
    }

    /// Builds the tree over `leaves`, of which there are `2^depth`.
    pub fn new_with_leaf_nodes(leaves: &Vec<HVCPoly>, hasher: &HVCHash, depth: usize) -> (r: Self)
        requires
            hasher.wf(),
            depth <= 63,
            leaves.len() == pow2(depth as nat),
        ensures
            r.wf(),
            r.keys@ == views(hasher.keys@),
            r.leaves() == views(leaves@),
            r.depth() == depth,
    {
        let ghost keys = views(hasher.keys@);
        let mut first: Vec<HVCPoly> = Vec::with_capacity(leaves.len());
        push_polys(&mut first, leaves);
        assert(first@ =~= leaves@);
        let mut levels: Vec<Vec<HVCPoly>> = Vec::with_capacity(depth + 1);
        levels.push(first);
        for h in 0..depth
            invariant
                hasher.wf(),
                depth <= 63,
                keys == views(hasher.keys@),
                levels.len() == h + 1,
                views(levels[0]@) == views(leaves@),
                forall|j: int|
                    0 <= j <= h ==> (#[trigger] levels[j]).len() == pow2((depth - j) as nat),
                forall|j: int, i: int|
                    0 <= j <= h && 0 <= i < levels[j].len() ==> #[trigger] levels[j][i]@ == node(
                        keys,
                        views(leaves@),
                        j as nat,
                        i,
                    ),
        {
            let mut next: Vec<HVCPoly> = Vec::new();
            let half: usize = levels[h].len() / 2;
            proof {
                lemma_pow2_adds((depth - h - 1) as nat, 1);
                lemma2_to64();
                assert(levels[h as int].len() == pow2((depth - h) as nat));
            }
            for i in 0..half
                invariant
                    hasher.wf(),
                    h < depth,
                    keys == views(hasher.keys@),
                    levels.len() == h + 1,
                    half == levels[h as int].len() / 2,
                    next.len() == i,
                    forall|j: int, i: int|
                        0 <= j <= h && 0 <= i < levels[j].len() ==> #[trigger] levels[j][i]@
                            == node(keys, views(leaves@), j as nat, i),
                    forall|j: int|
                        0 <= j < i ==> (#[trigger] next[j])@ == node(
                            keys,
                            views(leaves@),
                            (h + 1) as nat,
                            j,
                        ),
            {
                let l: Vec<HVCPoly> = levels[h][2 * i].decompose_r();
                let r: Vec<HVCPoly> = levels[h][2 * i + 1].decompose_r();
                let p: HVCPoly = hasher.hash_separate_inputs(&l, &r);
                proof {
                    assert(levels[h as int][2 * i]@ == node(
                        keys,
                        views(leaves@),
                        h as nat,
                        2 * i,
                    ));
                    assert(levels[h as int][2 * i + 1]@ == node(
                        keys,
                        views(leaves@),
                        h as nat,
                        2 * i + 1,
                    ));
                }
                next.push(p);
            }
            let ghost old_levels = levels@;
            levels.push(next);
            proof {
                assert forall|j: int, i: int|
                    0 <= j <= h + 1 && 0 <= i < levels[j].len() implies #[trigger] levels[j][i]@
                    == node(keys, views(leaves@), j as nat, i) by {
                    if j <= h {
                        assert(levels[j] == old_levels[j]);
                    }
                }
                assert forall|j: int| 0 <= j <= h + 1 implies (#[trigger] levels[j]).len() == pow2(
                    (depth - j) as nat,
                ) by {
                    if j <= h {
                        assert(levels[j] == old_levels[j]);
                    }
                }
            }
        }
        Tree { levels, keys: Ghost(keys) }
    }

    /// The label at the top.
    pub fn root(&self) -> (r: HVCPoly)
        requires
            self.wf(),
        ensures
            r@ == node(self.keys@, self.leaves(), self.depth() as nat, 0),
    {
        proof {
            lemma2_to64();
            assert(self.levels[self.depth()].len() == pow2(0));
        }
        self.levels[self.levels.len() - 1][0]
    }

    /// The path of leaf `index`.
    pub fn gen_proof(&self, index: usize) -> (r: Path)
        requires
            self.wf(),
            index < self.levels[0].len(),
        ensures
            r.index == index,
            r.nodes.len() == self.depth(),
            forall|l: int|
                0 <= l < self.depth() ==> self.siblings(
                    #[trigger] r.nodes[l],
                    (self.depth() - 1 - l) as nat,
                    ancestor(index as int, (self.depth() - l) as nat),
                ),
    {
        let depth: usize = self.levels.len() - 1;
        let mut up: Vec<(HVCPoly, HVCPoly)> = Vec::with_capacity(depth);
        let mut p: usize = index;
        for h in 0..depth
            invariant
                self.wf(),
                depth == self.depth(),
                p == ancestor(index as int, h as nat),
                p < pow2((depth - h) as nat),
                up.len() == h,
                forall|j: int|
                    0 <= j < h ==> self.siblings(
                        #[trigger] up[j],
                        j as nat,
                        ancestor(index as int, (j + 1) as nat),
                    ),
        {
            let parent_index: usize = p / 2;
            proof {
                lemma_pow2_adds((depth - h - 1) as nat, 1);
                lemma2_to64();
                assert(self.levels[h as int].len() == pow2((depth - h) as nat));
                assert(2 * parent_index + 1 < pow2((depth - h) as nat));
            }
            let pair: (HVCPoly, HVCPoly) = (
                self.levels[h][2 * parent_index],
                self.levels[h][2 * parent_index + 1],
            );
            proof {
                assert(ancestor(index as int, (h + 1) as nat) == parent_index);
                assert(self.levels[h as int][2 * parent_index]@ == node(
                    self.keys@,
                    self.leaves(),
                    h as nat,
                    2 * parent_index,
                ));
                assert(self.levels[h as int][2 * parent_index + 1]@ == node(
                    self.keys@,
                    self.leaves(),
                    h as nat,
                    2 * parent_index + 1,
                ));
                assert(self.siblings(pair, h as nat, parent_index as int));
            }
            up.push(pair);
            p = parent_index;
        }
        let mut nodes: Vec<(HVCPoly, HVCPoly)> = Vec::with_capacity(depth);
        for l in 0..depth
            invariant
                depth == self.depth(),
                up.len() == depth,
                nodes.len() == l,
                forall|j: int| 0 <= j < l ==> #[trigger] nodes[j] == up[depth - 1 - j],
        {
            nodes.push(up[depth - 1 - l]);
        }
        proof {
            assert forall|l: int| 0 <= l < self.depth() implies self.siblings(
                #[trigger] nodes[l],
                (self.depth() - 1 - l) as nat,
                ancestor(index as int, (self.depth() - l) as nat),
            ) by {
                assert(nodes[l] == up[depth - 1 - l]);
            }
        }
        Path { index, nodes }
    }

    /// `pair` holds the children of node `p` at height `h + 1`.
    pub open spec fn siblings(&self, pair: (HVCPoly, HVCPoly), h: nat, p: int) -> bool {
        &&& 0 <= p
        &&& 2 * p + 1 < pow2((self.depth() - h) as nat)
        &&& pair.0@ == node(self.keys@, self.leaves(), h, 2 * p)
        &&& pair.1@ == node(self.keys@, self.leaves(), h, 2 * p + 1)
    }
}

/// `i` halved `h` times.
pub open spec fn ancestor(i: int, h: nat) -> int
    decreases h,
{
    if h == 0 {
        i
    } else {
        ancestor(i, (h - 1) as nat) / 2
    }
}

/// Whether ancestor `h` of leaf `i` is a right child.
pub open spec fn is_right(i: int, h: nat) -> bool {
    ancestor(i, h) % 2 == 1
}

/// The turns from the root to leaf `index`: entry `j` tells whether the node at
/// depth `j` is a right child.
pub fn position_list(index: usize, depth: usize) -> (r: Vec<bool>)
    requires
        depth < usize::MAX,
    ensures
        r.len() == depth + 1,
        forall|j: int| 0 <= j <= depth ==> #[trigger] r[j] == is_right(index as int, (depth - j) as nat),
{
    let mut up: Vec<bool> = Vec::with_capacity(depth + 1);
    let mut p: usize = index;
    for h in 0..depth + 1
        invariant
            depth < usize::MAX,
            p == ancestor(index as int, h as nat),
            up.len() == h,
            forall|j: int| 0 <= j < h ==> #[trigger] up[j] == is_right(index as int, j as nat),
    {
        up.push(p % 2 == 1);
        p = p / 2;
    }
    let mut out: Vec<bool> = Vec::with_capacity(depth + 1);
    for j in 0..depth + 1
        invariant
            depth < usize::MAX,
            up.len() == depth + 1,
            out.len() == j,
            forall|i: int| 0 <= i <= depth ==> #[trigger] up[i] == is_right(index as int, i as nat),
            forall|i: int|
                0 <= i < j ==> #[trigger] out[i] == is_right(index as int, (depth - i) as nat),
    {
        out.push(up[depth - j]);
    }
    out
}

/// Tree-hash elements drawn one after the other take all their coefficients from the
/// generator: uniform residues, each half the modulus above its coefficient.
pub proof fn law_tree_elements_are_drawn(g: ChaCha20Rng, s: Seq<Coeffs>, h: ChaCha20Rng)
    requires
        run(hvc_elements(), g, s, h),
    ensures
        exists|gs: Seq<ChaCha20Rng>|
            #![trigger gs.len()]
            gs.len() == s.len() + 1 && gs[0] == g && gs.last() == h && (forall|k: int|
                0 <= k < s.len() ==> run(
                    crate::random::uniform_values(HVC_MODULUS as int),
                    gs[k],
                    Seq::new(N as nat, |i: int| (#[trigger] s[k])[i] + HVC_MODULUS / 2),
                    gs[k + 1],
                )),
{
    let gs = choose|gs: Seq<ChaCha20Rng>| #[trigger]
        crate::random::linked(hvc_elements(), gs, s) && gs[0] == g && gs[s.len() as int] == h;
    assert(gs.len() == s.len() + 1);
    assert forall|k: int| 0 <= k < s.len() implies run(
        crate::random::uniform_values(HVC_MODULUS as int),
        gs[k],
        Seq::new(N as nat, |i: int| (#[trigger] s[k])[i] + HVC_MODULUS / 2),
        gs[k + 1],
    ) by {
        assert(hvc_elements()(gs[k], s[k], gs[k + 1]));
        assert(crate::random::lifted(s[k], HVC_MODULUS_OVER_TWO as int) =~= Seq::new(
            N as nat,
            |i: int| s[k][i] + HVC_MODULUS / 2,
        ));
    }
}

} // verus!
