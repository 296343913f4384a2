//! Commitments to coded shares, one leaf per lane.
//!
//! The label of a share `s` is its hash `A * s` over the digest ring. A leaf is
//! the base-69 digits of the label; the leaves' linear hashes are the leaves of
//! a hash tree whose root is the commitment. A lane's post is the sum of its
//! shares together with the digit-wise sum of the openings: it is accepted when
//! the digits are short, walk to the sum of the roots, and stand for the label
//! of the posted share sum.

use crate::aggregate::{exact_sum, lemma_path_add, lemma_sum_within};
use crate::bits::{bits_for_signed, packed_len};
use crate::commit::{append_path, fresh_path, lemma_fresh_path};
use crate::cs::{
    all_within, data_polys, digits_short, is_leaf_count, leaf_count, lemma_dot_prefix,
    lemma_hash_cong, log2, pair_digits, path_holds, path_matches, rec, MAX_DEPTH,
};
use crate::digits::{
    base_power, digit, digits_of, lemma_base_powers, lemma_digit_bound, lemma_digits_exact, lemma_recomposed_linear,
    reach, recomposed, rest_after, split_digit,
};
use crate::field::{self, cong, sum};
use crate::hvc::{
    self, coefficient, full, hvc_dot, hvc_hash, hvc_sum, node,
    push_polys, HVCHash, Path, Tree,
};
use crate::negacyclic::{
    center_canonical_i64, centered, combine, cong_poly, lemma_centered, lemma_centered_cong, lemma_centered_id,
    rem_euclid_i128, within, Coeffs, N,
};
use crate::random::{draw_at, lemma_draw_on, place_after, Stream};
use crate::rings::{
    add_polys, column, digit_polys, lemma_slot_cong, lemma_slot_linear, pointwise_dot_dgt, slot_dot,
    views, DgtNTTPoly, HVCPoly, DGT_MODULUS,
    HVC_MODULUS, HVC_MODULUS_OVER_TWO, HVC_WIDTH, KAHE_MODULUS, ZETA,
};
use crate::rs::Share;
use crate::wire::{lemma_width_of, width_of};
use vstd::prelude::*;

verus! {

/// Ten balanced base-69 digits reach every digest-ring residue.
pub const DGT_WIDTH: usize = 10;

/// Elements of a label.
pub const LABEL_POLYS: usize = 3;

/// The digest modulus as an integer.
pub open spec fn q() -> int {
    DGT_MODULUS as int
}

/// The coefficient vectors of a share.
pub open spec fn dgt_views(s: Seq<DgtNTTPoly>) -> Seq<Coeffs> {
    s.map(|_j: int, p: DgtNTTPoly| p@)
}

/// Every element is canonical.
pub open spec fn dgt_wf(s: Seq<DgtNTTPoly>) -> bool {
    forall|j: int| 0 <= j < s.len() ==> (#[trigger] s[j]).wf()
}

// ---------------------------------------------------------------
// Digits of digest-ring elements
// ---------------------------------------------------------------

proof fn lemma_ten_digits_reach()
    ensures
        q() / 2 <= reach(10),
{
    lemma_base_powers();
}

/// Balanced base-69 digits of the centered values, lowest first.
pub fn decompose_share_poly(p: &DgtNTTPoly) -> (r: [HVCPoly; DGT_WIDTH])
    requires
        p.wf(),
    ensures
        views(r@) == digit_polys(p@, q(), 10),
        all_within(views(r@), ZETA as int),
{
    let mut rest: [i64; N] = [0i64; N];
    for i in 0..N
        invariant
            p.wf(),
            forall|j: int| 0 <= j < i ==> #[trigger] rest[j] == centered(p@[j], q()),
    {
        assert(p@[i as int] == p.coeffs[i as int]);
        rest[i] = center_canonical_i64(p.coeffs[i] as i64, DGT_MODULUS as i64);
    }
    let zero = HVCPoly::default();
    let mut out: [HVCPoly; DGT_WIDTH] = [zero; DGT_WIDTH];
    proof {
        assert forall|i: int| 0 <= i < N implies -0x1000_0000_0000_0000 <= #[trigger] rest[i]
            <= 0x1000_0000_0000_0000 by {
            lemma_centered(p@[i], q());
        }
    }
    for d in 0..DGT_WIDTH
        invariant
            forall|i: int|
                0 <= i < N ==> #[trigger] rest[i] == rest_after(centered(p@[i], q()), d as nat)
                    && -0x1000_0000_0000_0000 <= rest[i] <= 0x1000_0000_0000_0000,
            forall|e: int, i: int|
                0 <= e < d && 0 <= i < N ==> #[trigger] out[e]@[i] == digit(
                    centered(p@[i], q()),
                    e as nat,
                ),
    {
        let mut low: [i32; N] = [0i32; N];
        let ghost before = rest;
        for i in 0..N
            invariant
                d < DGT_WIDTH,
                forall|j: int|
                    0 <= j < N ==> #[trigger] before[j] == rest_after(
                        centered(p@[j], q()),
                        d as nat,
                    ) && -0x1000_0000_0000_0000 <= before[j] <= 0x1000_0000_0000_0000,
                forall|j: int| i <= j < N ==> #[trigger] rest[j] == before[j],
                forall|j: int|
                    0 <= j < i ==> #[trigger] rest[j] == rest_after(
                        centered(p@[j], q()),
                        (d + 1) as nat,
                    ) && -0x1000_0000_0000_0000 <= rest[j] <= 0x1000_0000_0000_0000,
                forall|j: int|
                    0 <= j < i ==> #[trigger] low[j] == digit(centered(p@[j], q()), d as nat),
        {
            assert(rest[i as int] == before[i as int]);
            let (x, r): (i64, i64) = split_digit(rest[i]);
            proof {
                lemma_digit_bound(centered(p@[i as int], q()), d as nat);
            }
            low[i] = x as i32;
            rest[i] = r;
        }
        let poly = HVCPoly::from_coeffs(low);
        assert forall|i: int| 0 <= i < N implies #[trigger] poly@[i] == digit(
            centered(p@[i], q()),
            d as nat,
        ) by {
            assert(low[i] == digit(centered(p@[i], q()), d as nat));
        }
        out[d] = poly;
    }
    proof {
        let want = digit_polys(p@, q(), 10);
        assert forall|e: int| 0 <= e < 10 implies views(out@)[e] =~= want[e] by {
            assert forall|i: int| 0 <= i < N implies views(out@)[e][i] == want[e][i] by {
                assert(out[e]@[i] == digit(centered(p@[i], q()), e as nat));
            }
        }
        assert(views(out@) =~= want);
        assert forall|e: int| 0 <= e < 10 implies within(#[trigger] views(out@)[e], 34) by {
            assert forall|i: int| 0 <= i < N implies -34 <= #[trigger] views(out@)[e][i] <= 34 by {
                assert(out[e]@[i] == digit(centered(p@[i], q()), e as nat));
                lemma_digit_bound(centered(p@[i], q()), e as nat);
            }
        }
    }
    out
}

proof fn lemma_small_power(d: nat)
    requires
        d <= 9,
    ensures
        base_power(d + 1) == 69 * base_power(d),
        base_power(d + 1) <= 2_446_194_060_654_759_801,
    decreases 9 - d,
{
    lemma_base_powers();
    if d < 9 {
        lemma_small_power(d + 1);
    }
}

/// The residues that digits stand for; linear in the digits.
pub fn project_share_poly(digits: &[HVCPoly]) -> (r: DgtNTTPoly)
    requires
        digits.len() == DGT_WIDTH,
    ensures
        r.wf(),
        forall|i: int| 0 <= i < N ==> #[trigger] r@[i] == rec(views(digits@), i) % q(),
{
    let mut raw: [u64; N] = [0u64; N];
    let ghost ds = views(digits@);
    for i in 0..N
        invariant
            digits.len() == DGT_WIDTH,
            ds == views(digits@),
            forall|j: int| 0 <= j < i ==> #[trigger] raw[j] == rec(ds, j) % q(),
    {
        let mut acc: i128 = 0;
        let mut power: i128 = 1;
        let ghost col = column(ds, i as int);
        assert(col.take(0) =~= Seq::<int>::empty());
        assert(base_power(0) == 1);
        for d in 0..DGT_WIDTH
            invariant
                digits.len() == DGT_WIDTH,
                i < N,
                ds == views(digits@),
                col == column(ds, i as int),
                power == base_power(d as nat),
                1 <= power,
                power <= 0x1_0000_0000_0000_0000,
                acc == recomposed(col.take(d as int)),
                -(d * 0x1_0000_0000_0000_0000_0000_0000) <= acc <= d
                    * 0x1_0000_0000_0000_0000_0000_0000,
        {
            let c: i32 = digits[d].coeffs[i];
            assert(c == col[d as int]);
            assert(power * c <= 0x1_0000_0000_0000_0000_0000_0000 && power * c
                >= -0x1_0000_0000_0000_0000_0000_0000) by (nonlinear_arith)
                requires
                    1 <= power <= 0x1_0000_0000_0000_0000,
                    -0x8000_0000 <= c <= 0x7fff_ffff,
            ;
            proof {
                assert(col.take(d + 1).drop_last() =~= col.take(d as int));
                lemma_small_power(d as nat);
            }
            acc = acc + power * c as i128;
            power = power * 69;
        }
        assert(col.take(10) =~= col);
        raw[i] = rem_euclid_i128(acc, DGT_MODULUS as i64) as u64;
    }
    let r = DgtNTTPoly::from_raw(&raw);
    proof {
        assert forall|i: int| 0 <= i < N implies #[trigger] r@[i] == rec(ds, i) % q() by {
            assert(raw[i] == rec(ds, i) % q());
        }
    }
    r
}

/// The digits of a residue stand for it.
proof fn lemma_ten_digits(c: Coeffs, i: int)
    requires
        c.len() == N,
        0 <= i < N,
    ensures
        rec(digit_polys(c, q(), 10), i) == centered(c[i], q()),
        cong(rec(digit_polys(c, q(), 10), i), c[i], q()),
{
    let v = centered(c[i], q());
    lemma_centered(c[i], q());
    lemma_ten_digits_reach();
    assert(column(digit_polys(c, q(), 10), i) =~= digits_of(v, 10));
    lemma_digits_exact(v, 10);
}

/// Projecting the digits of a residue vector gives it back.
pub proof fn law_project_inverts_decompose(p: DgtNTTPoly, r: DgtNTTPoly)
    requires
        p.wf(),
        forall|i: int|
            0 <= i < N ==> #[trigger] r@[i] == rec(digit_polys(p@, q(), 10), i) % q(),
    ensures
        r@ == p@,
{
    assert forall|i: int| 0 <= i < N implies r@[i] == p@[i] by {
        lemma_ten_digits(p@, i);
        assert(0 <= p@[i] < q());
        vstd::arithmetic::div_mod::lemma_small_mod(p@[i] as nat, q() as nat);
    }
    assert(r@ =~= p@);
}

// ---------------------------------------------------------------
// Parameters
// ---------------------------------------------------------------

/// Public parameters.
pub struct ShareCommitmentParams {
    /// Elements per share.
    pub block_len: usize,
    pub n_lanes: usize,
    pub n_leaves: usize,
    pub rho_max: usize,
    /// The rows of `A`.
    pub a_rows: Vec<Vec<DgtNTTPoly>>,
    /// Hash key of the leaf digits.
    pub leaf_key: Vec<HVCPoly>,
    pub hasher: HVCHash,
}

/// Why parameters are refused.
#[derive(Debug, Clone, Copy, PartialEq, Eq, Structural)]
pub enum ShareSetupError {
    EmptyShare,
    NoLanes,
    TooManyLanes,
    NoClients,
    /// Sums of `rho_max` ciphertexts would wrap the digest modulus.
    ExceedsDigestRing,
    /// Sums of `rho_max` digits would wrap the tree modulus.
    ExceedsDigitBudget,
}

/// The first condition the dimensions break.
pub open spec fn setup_fault(block_len: int, n_lanes: int, rho_max: int) -> Option<ShareSetupError> {
    if block_len < 1 {
        Some(ShareSetupError::EmptyShare)
    } else if n_lanes < 1 {
        Some(ShareSetupError::NoLanes)
    } else if n_lanes > usize::MAX / 2 + 1 {
        Some(ShareSetupError::TooManyLanes)
    } else if rho_max < 1 {
        Some(ShareSetupError::NoClients)
    } else if rho_max * KAHE_MODULUS >= DGT_MODULUS {
        Some(ShareSetupError::ExceedsDigestRing)
    } else if rho_max * ZETA >= HVC_MODULUS_OVER_TWO {
        Some(ShareSetupError::ExceedsDigitBudget)
    } else {
        None
    }
}

/// The first condition the dimensions break.
pub fn check_setup(block_len: usize, n_lanes: usize, rho_max: usize) -> (r: Option<ShareSetupError>)
    ensures
        r == setup_fault(block_len as int, n_lanes as int, rho_max as int),
{
    if block_len < 1 {
        return Some(ShareSetupError::EmptyShare);
    }
    if n_lanes < 1 {
        return Some(ShareSetupError::NoLanes);
    }
    if n_lanes > usize::MAX / 2 + 1 {
        return Some(ShareSetupError::TooManyLanes);
    }
    if rho_max < 1 {
        return Some(ShareSetupError::NoClients);
    }
    let bound: u128 = rho_max as u128 * KAHE_MODULUS as u128;
    if bound >= DGT_MODULUS as u128 {
        return Some(ShareSetupError::ExceedsDigestRing);
    }
    if rho_max as u128 * ZETA as u128 >= HVC_MODULUS_OVER_TWO as u128 {
        return Some(ShareSetupError::ExceedsDigitBudget);
    }
    None
}

/// A seed with its first byte masked.
pub open spec fn masked(seed: Seq<u8>) -> Seq<u8> {
    seed.update(0, seed[0] ^ 0xC0)
}

/// The seed the keys are drawn under: the session seed with its first byte
/// masked.
pub fn key_seed(seed: [u8; 32]) -> (r: [u8; 32])
    ensures
        r@ == masked(seed@),
{
    let mut s: [u8; 32] = seed;
    s[0] = s[0] ^ 0xC0;
    s
}

/// The residues of a row are those drawn from the front of the stream, after
/// `from` elements.
pub open spec fn is_drawn_row(seed: Seq<u8>, from: int, row: Seq<DgtNTTPoly>) -> bool {
    forall|j: int, i: int|
        0 <= j < row.len() && 0 <= i < N ==> #[trigger] row[j]@[i] == draw_at(
            seed,
            DGT_MODULUS as int,
            0,
            ((from + j) * N + i) as nat,
        )
}

/// The keys are residues drawn from `at`, shifted down to centered coefficients.
pub open spec fn are_drawn_keys(seed: Seq<u8>, at: nat, keys: Seq<HVCPoly>) -> bool {
    forall|j: int, i: int|
        0 <= j < keys.len() && 0 <= i < N ==> #[trigger] keys[j]@[i] == draw_at(
            seed,
            HVC_MODULUS as int,
            at,
            (j * N + i) as nat,
        ) - HVC_MODULUS_OVER_TWO
}

/// All keys are drawn from the stream of the seed, one after the other: the
/// rows, the leaf key, the node keys.
pub open spec fn is_drawn_under(seed: Seq<u8>, p: ShareCommitmentParams) -> bool {
    let rows = place_after(
        seed,
        DGT_MODULUS as int,
        0,
        (LABEL_POLYS * p.block_len * N) as nat,
    );
    let leaf = place_after(seed, HVC_MODULUS as int, rows, (LABEL_POLYS * DGT_WIDTH * N) as nat);
    &&& forall|k: int|
        0 <= k < LABEL_POLYS ==> is_drawn_row(seed, k * p.block_len, #[trigger] p.a_rows[k]@)
    &&& are_drawn_keys(seed, rows, p.leaf_key@)
    &&& are_drawn_keys(seed, leaf, p.hasher.keys@)
}

/// Parameters of the same size drawn under the same seed have the same keys.
pub proof fn law_equal_seeds_give_equal_keys(
    seed: Seq<u8>,
    a: ShareCommitmentParams,
    b: ShareCommitmentParams,
)
    requires
        a.wf(),
        b.wf(),
        a.block_len == b.block_len,
        is_drawn_under(seed, a),
        is_drawn_under(seed, b),
    ensures
        forall|k: int| 0 <= k < LABEL_POLYS ==> #[trigger] a.row(k) == b.row(k),
        a.g() == b.g(),
        a.keys() == b.keys(),
{
    assert forall|k: int| 0 <= k < LABEL_POLYS implies #[trigger] a.row(k) == b.row(k) by {
        let (x, y) = (a.a_rows[k]@, b.a_rows[k]@);
        assert forall|j: int| 0 <= j < x.len() implies #[trigger] a.row(k)[j] == b.row(k)[j] by {
            assert(x[j]@ =~= y[j]@);
        }
        assert(a.row(k) =~= b.row(k));
    }
    lemma_same_keys(a.leaf_key@, b.leaf_key@);
    lemma_same_keys(a.hasher.keys@, b.hasher.keys@);
}

proof fn lemma_same_keys(a: Seq<HVCPoly>, b: Seq<HVCPoly>)
    requires
        a.len() == b.len(),
        forall|j: int, i: int|
            0 <= j < a.len() && 0 <= i < N ==> #[trigger] a[j]@[i] == b[j]@[i],
    ensures
        views(a) == views(b),
{
    assert forall|j: int| 0 <= j < a.len() implies #[trigger] views(a)[j] == views(b)[j] by {
        assert(a[j]@ =~= b[j]@);
    }
    assert(views(a) =~= views(b));
}

/// Draws hash keys from a stream.
fn drawn_keys(stream: &mut Stream, len: usize) -> (r: Vec<HVCPoly>)
    requires
        old(stream).wf(),
    ensures
        final(stream).wf(),
        final(stream).seed == old(stream).seed,
        final(stream).at == place_after(
            old(stream).seed@,
            HVC_MODULUS as int,
            old(stream).at as nat,
            (len * N) as nat,
        ),
        r.len() == len,
        are_drawn_keys(old(stream).seed@, old(stream).at as nat, r@),
{
    let mut out: Vec<HVCPoly> = Vec::with_capacity(len);
    let ghost (s, at) = (stream.seed@, stream.at as nat);
    for j in 0..len
        invariant
            s == old(stream).seed@,
            at == old(stream).at,
            stream.wf(),
            stream.seed == old(stream).seed,
            stream.at == place_after(s, HVC_MODULUS as int, at, (j * N) as nat),
            out.len() == j,
            are_drawn_keys(s, at, out@),
    {
        let ghost m = (j * N) as nat;
        proof {
            lemma_draw_on(s, HVC_MODULUS as int, at, m, N as nat);
        }
        let residues: [u64; N] = stream.residues(HVC_MODULUS as u64);
        let poly = HVCPoly::from_draws(&residues);
        proof {
            assert forall|i: int| 0 <= i < N implies #[trigger] poly@[i] == draw_at(
                s,
                HVC_MODULUS as int,
                at,
                (j * N + i) as nat,
            ) - HVC_MODULUS_OVER_TWO by {
                lemma_draw_on(s, HVC_MODULUS as int, at, m, i as nat);
                assert(poly.coeffs[i] == residues[i] - HVC_MODULUS_OVER_TWO);
            }
        }
        out.push(poly);
    }
    out
}

impl ShareCommitmentParams {
    pub open spec fn wf(&self) -> bool {
        &&& setup_fault(self.block_len as int, self.n_lanes as int, self.rho_max as int) is None
        &&& is_leaf_count(self.n_lanes as int, self.n_leaves as int)
        &&& 1 <= self.depth() <= MAX_DEPTH
        &&& self.a_rows.len() == LABEL_POLYS
        &&& forall|k: int|
            0 <= k < LABEL_POLYS ==> (#[trigger] self.a_rows[k]).len() == self.block_len && dgt_wf(
                self.a_rows[k]@,
            )
        &&& self.leaf_key.len() == LABEL_POLYS * DGT_WIDTH
        &&& self.hasher.wf()
    }

    pub open spec fn depth(&self) -> nat {
        log2(self.n_leaves as int)
    }

    pub open spec fn keys(&self) -> Seq<Coeffs> {
        views(self.hasher.keys@)
    }

    pub open spec fn g(&self) -> Seq<Coeffs> {
        views(self.leaf_key@)
    }

    /// Row `k` of `A`.
    pub open spec fn row(&self, k: int) -> Seq<Coeffs> {
        dgt_views(self.a_rows[k]@)
    }

    /// Value `i` of element `k` of the label `A * s`, an integer.
    pub open spec fn label_at(&self, s: Seq<Coeffs>, k: int, i: int) -> int {
        slot_dot(self.row(k), s, i, self.block_len as nat)
    }

    /// Parameters derived from a session seed: everyone who knows the seed draws
    /// the same keys.
    pub fn from_seed(seed: [u8; 32], block_len: usize, n_lanes: usize, rho_max: usize) -> (r: Self)
        requires
            setup_fault(block_len as int, n_lanes as int, rho_max as int) is None,
        ensures
            r.wf(),
            r.block_len == block_len,
            r.n_lanes == n_lanes,
            r.rho_max == rho_max,
            is_drawn_under(masked(seed@), r),
    {
        let mut stream: Stream = Stream::new(key_seed(seed));
        let ghost s = masked(seed@);
        assert(0 * block_len * N == 0);
        let mut a_rows: Vec<Vec<DgtNTTPoly>> = Vec::with_capacity(LABEL_POLYS);
        for k in 0..LABEL_POLYS
            invariant
                s == masked(seed@),
                stream.wf(),
                stream.seed@ == s,
                stream.at == place_after(s, DGT_MODULUS as int, 0, (k * block_len * N) as nat),
                a_rows.len() == k,
                forall|j: int|
                    0 <= j < k ==> (#[trigger] a_rows[j]).len() == block_len && dgt_wf(a_rows[j]@),
                forall|j: int| 0 <= j < k ==> is_drawn_row(s, j * block_len, #[trigger] a_rows[j]@),
        {
            let mut row: Vec<DgtNTTPoly> = Vec::with_capacity(block_len);
            for j in 0..block_len
                invariant
                    k < LABEL_POLYS,
                    s == masked(seed@),
                    stream.wf(),
                    stream.seed@ == s,
                    stream.at == place_after(
                        s,
                        DGT_MODULUS as int,
                        0,
                        ((k * block_len + j) * N) as nat,
                    ),
                    row.len() == j,
                    dgt_wf(row@),
                    is_drawn_row(s, k * block_len, row@),
            {
                let ghost m = ((k * block_len + j) * N) as nat;
                proof {
                    let (k0, l) = (k as int, block_len as int);
                    assert(0 <= k0 * l <= 10 * l) by (nonlinear_arith)
                        requires
                            0 <= k0 <= 10,
                            l >= 0,
                    ;
                    lemma_draw_on(s, DGT_MODULUS as int, 0, m, N as nat);
                    assert(m + N == ((k * block_len + j + 1) * N) as nat);
                }
                let residues: [u64; N] = stream.residues(DGT_MODULUS);
                let poly = DgtNTTPoly::from_raw(&residues);
                proof {
                    assert forall|i: int| 0 <= i < N implies #[trigger] poly@[i] == draw_at(
                        s,
                        DGT_MODULUS as int,
                        0,
                        ((k * block_len + j) * N + i) as nat,
                    ) by {
                        lemma_draw_on(s, DGT_MODULUS as int, 0, m, i as nat);
                        assert(residues[i] < DGT_MODULUS);
                    }
                }
                row.push(poly);
            }
            proof {
                let (k0, l) = (k as int, block_len as int);
                assert((k0 + 1) * l == k0 * l + l) by (nonlinear_arith);
            }
            a_rows.push(row);
        }
        proof {
            let l = block_len as int;
            assert(LABEL_POLYS * block_len == 3 * l);
        }
        let leaf_key: Vec<HVCPoly> = drawn_keys(&mut stream, LABEL_POLYS * DGT_WIDTH);
        let hasher: HVCHash = HVCHash { keys: drawn_keys(&mut stream, 2 * HVC_WIDTH) };
        let n_leaves: usize = leaf_count(n_lanes);
        ShareCommitmentParams { block_len, n_lanes, n_leaves, rho_max, a_rows, leaf_key, hasher }
    }

    /// Depth of the tree.
    pub fn path_len(&self) -> (r: usize)
        ensures
            r == self.depth(),
    {
        let mut n: usize = self.n_leaves;
        let mut d: usize = 0;
        while n > 1
            invariant
                d + log2(n as int) == log2(self.n_leaves as int),
                d + n <= usize::MAX,
            decreases n,
        {
            n = n / 2;
            d = d + 1;
        }
        d
    }

    /// Bound on summed digits.
    pub fn beta_agg(&self) -> (r: u32)
        requires
            self.wf(),
        ensures
            r == self.rho_max * ZETA,
    {
        self.rho_max as u32 * ZETA as u32
    }

    /// Number of digit polynomials in an opening.
    pub fn data_polys(&self) -> (r: usize)
        requires
            self.wf(),
        ensures
            r == data_polys(10, self.depth() as int),
    {
        LABEL_POLYS * DGT_WIDTH + self.path_len() * 2 * HVC_WIDTH
    }

    /// The label `A * s`.
    pub fn hash_share(&self, share: &[DgtNTTPoly]) -> (r: Vec<DgtNTTPoly>)
        requires
            self.wf(),
            share.len() == self.block_len,
            dgt_wf(share@),
        ensures
            r.len() == LABEL_POLYS,
            dgt_wf(r@),
            forall|k: int, i: int|
                0 <= k < LABEL_POLYS && 0 <= i < N ==> #[trigger] r[k]@[i] == self.label_at(
                    dgt_views(share@),
                    k,
                    i,
                ) % q(),
    {
        let mut out: Vec<DgtNTTPoly> = Vec::with_capacity(LABEL_POLYS);
        for k in 0..LABEL_POLYS
            invariant
                self.wf(),
                share.len() == self.block_len,
                dgt_wf(share@),
                out.len() == k,
                dgt_wf(out@),
                forall|j: int, i: int|
                    0 <= j < k && 0 <= i < N ==> #[trigger] out[j]@[i] == self.label_at(
                        dgt_views(share@),
                        j,
                        i,
                    ) % q(),
        {
            assert(self.a_rows[k as int].len() == self.block_len && dgt_wf(
                self.a_rows[k as int]@,
            ));
            let d: DgtNTTPoly = pointwise_dot_dgt(&self.a_rows[k], share);
            out.push(d);
        }
        out
    }
}

/// The label of a sum is the sum of the labels, modulo the digest modulus.
pub proof fn law_share_hash_is_linear(
    pp: ShareCommitmentParams,
    a: Seq<Coeffs>,
    b: Seq<Coeffs>,
    k: int,
    i: int,
)
    requires
        pp.wf(),
        full(a),
        full(b),
        a.len() == pp.block_len,
        b.len() == pp.block_len,
        0 <= k < LABEL_POLYS,
        0 <= i < N,
    ensures
        pp.label_at(add_polys(a, b), k, i) == pp.label_at(a, k, i) + pp.label_at(b, k, i),
{
    lemma_slot_linear(pp.row(k), a, b, i, pp.block_len as nat);
}

// ---------------------------------------------------------------
// Openings
// ---------------------------------------------------------------

/// What travels with a share: the decomposed path of its leaf.
#[derive(Clone)]
pub struct SharePath {
    pub lane_index: usize,
    /// Per level, the digits of the left child then of the right child; level 0
    /// holds the root's children.
    pub nodes: Vec<HVCPoly>,
}

/// A fresh or summed opening: label digits, then path digits.
#[derive(Clone)]
pub struct ShareOpening {
    pub lane_index: usize,
    pub path_len: usize,
    pub data: Vec<HVCPoly>,
}

/// The digits of label element `k`.
pub open spec fn element_digits(data: Seq<Coeffs>, k: int) -> Seq<Coeffs> {
    data.subrange(10 * k, 10 * k + 10)
}

impl ShareOpening {
    /// The label digits.
    pub fn digits(&self) -> (r: &[HVCPoly])
        requires
            self.data.len() >= LABEL_POLYS * DGT_WIDTH,
        ensures
            r@ == self.data@.take(30),
    {
        let s: &[HVCPoly] = self.data.as_slice();
        &s[0..LABEL_POLYS * DGT_WIDTH]
    }

    /// The digits of the left and right child at a path level.
    pub fn path_node(&self, level: usize) -> (r: (&[HVCPoly], &[HVCPoly]))
        requires
            level < 0x1000_0000,
            self.data.len() >= 30 + 6 * level + 6,
        ensures
            r.0@ == self.data@.subrange(30 + 6 * level, 30 + 6 * level + 3),
            r.1@ == self.data@.subrange(30 + 6 * level + 3, 30 + 6 * level + 6),
    {
        let base: usize = LABEL_POLYS * DGT_WIDTH + level * 2 * HVC_WIDTH;
        let s: &[HVCPoly] = self.data.as_slice();
        (&s[base..base + HVC_WIDTH], &s[base + HVC_WIDTH..base + 2 * HVC_WIDTH])
    }

    /// The label that the digits stand for.
    pub fn project_labels(&self) -> (r: Vec<DgtNTTPoly>)
        requires
            self.data.len() >= LABEL_POLYS * DGT_WIDTH,
        ensures
            r.len() == LABEL_POLYS,
            dgt_wf(r@),
            forall|k: int, i: int|
                0 <= k < LABEL_POLYS && 0 <= i < N ==> #[trigger] r[k]@[i] == rec(
                    element_digits(views(self.data@), k),
                    i,
                ) % q(),
    {
        let all: &[HVCPoly] = self.data.as_slice();
        let mut out: Vec<DgtNTTPoly> = Vec::with_capacity(LABEL_POLYS);
        for k in 0..LABEL_POLYS
            invariant
                all@ == self.data@,
                all.len() >= 30,
                out.len() == k,
                dgt_wf(out@),
                forall|j: int, i: int|
                    0 <= j < k && 0 <= i < N ==> #[trigger] out[j]@[i] == rec(
                        element_digits(views(self.data@), j),
                        i,
                    ) % q(),
        {
            let part: &[HVCPoly] = &all[k * DGT_WIDTH..(k + 1) * DGT_WIDTH];
            assert(views(part@) =~= element_digits(views(self.data@), k as int));
            out.push(project_share_poly(part));
        }
        out
    }
}

/// The digits of a label, in order.
pub open spec fn is_label_digits(label: Seq<Coeffs>, d: Seq<Coeffs>) -> bool {
    &&& d.len() == 10 * label.len()
    &&& forall|k: int|
        0 <= k < label.len() ==> #[trigger] element_digits(d, k) == digit_polys(label[k], q(), 10)
    &&& all_within(d, ZETA as int)
}

/// The digits of a label, in order.
pub fn label_digits(label: &[DgtNTTPoly]) -> (r: Vec<HVCPoly>)
    requires
        dgt_wf(label@),
    ensures
        is_label_digits(dgt_views(label@), views(r@)),
{
    let mut out: Vec<HVCPoly> = Vec::new();
    for k in 0..label.len()
        invariant
            dgt_wf(label@),
            out.len() == 10 * k,
            forall|j: int|
                0 <= j < k ==> #[trigger] element_digits(views(out@), j) == digit_polys(
                    label[j]@,
                    q(),
                    10,
                ),
            all_within(views(out@), ZETA as int),
    {
        let ghost before = views(out@);
        let part: [HVCPoly; DGT_WIDTH] = decompose_share_poly(&label[k]);
        push_polys(&mut out, part.as_slice());
        proof {
            let now = views(out@);
            assert(now =~= before + views(part@));
            assert forall|j: int| 0 <= j < k + 1 implies #[trigger] element_digits(now, j)
                == digit_polys(label[j]@, q(), 10) by {
                if j < k {
                    assert(element_digits(now, j) =~= element_digits(before, j));
                } else {
                    assert(element_digits(now, j) =~= views(part@));
                }
            }
            assert forall|j: int| 0 <= j < now.len() implies within(
                #[trigger] now[j],
                ZETA as int,
            ) by {
                if j < before.len() {
                    assert(within(before[j], ZETA as int));
                } else {
                    assert(within(views(part@)[j - before.len()], ZETA as int));
                }
            }
        }
    }
    out
}

/// The label of a share, canonical.
pub open spec fn label_of(pp: ShareCommitmentParams, s: Seq<Coeffs>) -> Seq<Coeffs> {
    Seq::new(3, |k: int| Seq::new(N as nat, |i: int| pp.label_at(s, k, i) % q()))
}

/// The digits of a share's label.
pub open spec fn share_digits(pp: ShareCommitmentParams, s: Seq<Coeffs>) -> Seq<Coeffs> {
    Seq::new(30, |j: int| digit_polys(label_of(pp, s)[j / 10], q(), 10)[j % 10])
}

/// The label of a share's digits in the tree.
pub open spec fn lane_label(pp: ShareCommitmentParams, s: Seq<Coeffs>) -> Coeffs {
    hvc_hash(pp.g(), share_digits(pp, s))
}

/// Digits of the label of `share`.
fn digits_of_share(pp: &ShareCommitmentParams, share: &[DgtNTTPoly]) -> (r: Vec<HVCPoly>)
    requires
        pp.wf(),
        share.len() == pp.block_len,
        dgt_wf(share@),
    ensures
        r.len() == 30,
        views(r@) == share_digits(*pp, dgt_views(share@)),
        all_within(views(r@), ZETA as int),
        forall|k: int, i: int|
            0 <= k < LABEL_POLYS && 0 <= i < N ==> cong(
                #[trigger] rec(element_digits(views(r@), k), i),
                pp.label_at(dgt_views(share@), k, i),
                q(),
            ),
{
    let label: Vec<DgtNTTPoly> = pp.hash_share(share);
    let out: Vec<HVCPoly> = label_digits(&label);
    proof {
        let s = dgt_views(share@);
        let d = views(out@);
        assert forall|k: int| 0 <= k < 3 implies dgt_views(label@)[k] == label_of(*pp, s)[k] by {
            assert forall|i: int| 0 <= i < N implies label[k]@[i] == label_of(*pp, s)[k][i] by {}
            assert(label[k]@ =~= label_of(*pp, s)[k]);
        }
        assert(dgt_views(label@) =~= label_of(*pp, s));
        assert(d =~= share_digits(*pp, s)) by {
            assert forall|j: int| 0 <= j < 30 implies d[j] == share_digits(*pp, s)[j] by {
                let k = j / 10;
                assert(element_digits(d, k) == digit_polys(label_of(*pp, s)[k], q(), 10));
                assert(element_digits(d, k)[j % 10] == d[j]);
            }
        }
        assert forall|k: int, i: int| 0 <= k < LABEL_POLYS && 0 <= i < N implies cong(
            #[trigger] rec(element_digits(d, k), i),
            pp.label_at(s, k, i),
            q(),
        ) by {
            assert(element_digits(d, k) == digit_polys(label_of(*pp, s)[k], q(), 10));
            lemma_ten_digits(label_of(*pp, s)[k], i);
            field::lemma_cong_mod(pp.label_at(s, k, i), q());
        }
    }
    out
}

/// `o` walks to `root` with digits in `[-bound, bound]`.
pub open spec fn walks(
    pp: ShareCommitmentParams,
    root: Coeffs,
    o: ShareOpening,
    bound: int,
) -> bool {
    &&& o.lane_index < pp.n_lanes
    &&& o.path_len == pp.depth()
    &&& o.data.len() == data_polys(10, pp.depth() as int)
    &&& all_within(views(o.data@), bound)
    &&& forall|i: int|
        0 <= i < N ==> #[trigger] path_holds(
            pp.keys(),
            pp.g(),
            root,
            o.lane_index as int,
            10,
            pp.depth() as int,
            views(o.data@),
            i,
        )
}

/// The digits of `data` stand for the label of `s`.
pub open spec fn labels_match(
    pp: ShareCommitmentParams,
    s: Seq<Coeffs>,
    data: Seq<Coeffs>,
) -> bool {
    forall|k: int, i: int|
        0 <= k < LABEL_POLYS && 0 <= i < N ==> cong(
            #[trigger] rec(element_digits(data, k), i),
            pp.label_at(s, k, i),
            q(),
        )
}

/// Whether `o` walks to `root` at a digit bound.
fn verify_walk(pp: &ShareCommitmentParams, root: &HVCPoly, o: &ShareOpening, bound: u32) -> (r: bool)
    requires
        pp.wf(),
    ensures
        r == walks(*pp, root@, *o, bound as int),
{
    let depth: usize = pp.path_len();
    if o.lane_index >= pp.n_lanes || o.path_len != depth || o.data.len() != pp.data_polys() {
        return false;
    }
    if !digits_short(&o.data, bound) {
        return false;
    }
    let ok: bool = path_matches(&pp.hasher, &pp.leaf_key, root, o.lane_index, 10, depth, &o.data);
    proof {
        let d = views(o.data@);
        if ok {
            assert forall|i: int| 0 <= i < N implies #[trigger] path_holds(
                pp.keys(),
                pp.g(),
                root@,
                o.lane_index as int,
                10,
                pp.depth() as int,
                d,
                i,
            ) by {
                assert(path_holds(
                    views(pp.hasher.keys@),
                    views(pp.leaf_key@),
                    root@,
                    o.lane_index as int,
                    10,
                    depth as int,
                    d,
                    i,
                ));
            }
        } else {
            let i = choose|i: int|
                0 <= i < N && !#[trigger] path_holds(
                    views(pp.hasher.keys@),
                    views(pp.leaf_key@),
                    root@,
                    o.lane_index as int,
                    10,
                    depth as int,
                    d,
                    i,
                );
            assert(!path_holds(
                pp.keys(),
                pp.g(),
                root@,
                o.lane_index as int,
                10,
                pp.depth() as int,
                d,
                i,
            ));
        }
    }
    ok
}

/// The lane, the share and the path have the right shape, and the path digits
/// are fresh.
pub open spec fn can_open(
    pp: ShareCommitmentParams,
    lane: int,
    share_len: int,
    path: SharePath,
) -> bool {
    &&& lane < pp.n_lanes
    &&& path.lane_index == lane
    &&& share_len == pp.block_len
    &&& path.nodes.len() == 6 * pp.depth()
    &&& all_within(views(path.nodes@), ZETA as int)
}

/// `o` is the opening of `share` along `path`.
pub open spec fn is_opening_of(
    pp: ShareCommitmentParams,
    lane: int,
    share: Seq<Coeffs>,
    path: SharePath,
    o: ShareOpening,
) -> bool {
    &&& o.lane_index == lane
    &&& o.path_len == pp.depth()
    &&& views(o.data@) == share_digits(pp, share) + views(path.nodes@)
    &&& labels_match(pp, share, views(o.data@))
    &&& all_within(views(o.data@), ZETA as int)
}

/// Builds a client's opening without walking the tree. By linearity one walk of
/// the sum proves what a walk per client would.
pub fn open_share(
    pp: &ShareCommitmentParams,
    lane: usize,
    share: &[DgtNTTPoly],
    path: &SharePath,
) -> (r: Option<ShareOpening>)
    requires
        pp.wf(),
        dgt_wf(share@),
    ensures
        r is Some <==> can_open(*pp, lane as int, share.len() as int, *path),
        r matches Some(o) ==> is_opening_of(*pp, lane as int, dgt_views(share@), *path, o),
{
    if lane >= pp.n_lanes || path.lane_index != lane || share.len() != pp.block_len {
        return None;
    }
    if path.nodes.len() != pp.path_len() * 2 * HVC_WIDTH {
        return None;
    }
    if !digits_short(&path.nodes, ZETA as u32) {
        return None;
    }
    let mut data: Vec<HVCPoly> = digits_of_share(pp, share);
    let ghost lab = views(data@);
    push_polys(&mut data, &path.nodes);
    proof {
        let all = views(data@);
        assert(all =~= lab + views(path.nodes@));
        assert forall|k: int, i: int| 0 <= k < LABEL_POLYS && 0 <= i < N implies cong(
            #[trigger] rec(element_digits(all, k), i),
            pp.label_at(dgt_views(share@), k, i),
            q(),
        ) by {
            assert(element_digits(all, k) =~= element_digits(lab, k));
        }
        assert forall|j: int| 0 <= j < all.len() implies within(#[trigger] all[j], ZETA as int) by {
            if j < 30 {
                assert(within(lab[j], ZETA as int));
            } else {
                assert(within(views(path.nodes@)[j - 30], ZETA as int));
            }
        }
    }
    Some(ShareOpening { lane_index: lane, path_len: pp.path_len(), data })
}

/// Whether `share` along `path` opens `root` at `lane`.
pub open spec fn ingests(
    pp: ShareCommitmentParams,
    root: Coeffs,
    lane: int,
    share: Seq<Coeffs>,
    path: SharePath,
) -> bool {
    &&& can_open(pp, lane, share.len() as int, path)
    &&& forall|i: int|
        0 <= i < N ==> #[trigger] path_holds(
            pp.keys(),
            pp.g(),
            root,
            lane,
            10,
            pp.depth() as int,
            share_digits(pp, share) + views(path.nodes@),
            i,
        )
}

/// Checks one client's share and path against its root at the fresh bound.
pub fn ingest_share(
    pp: &ShareCommitmentParams,
    root: &HVCPoly,
    lane: usize,
    share: &[DgtNTTPoly],
    path: &SharePath,
) -> (r: Option<ShareOpening>)
    requires
        pp.wf(),
        dgt_wf(share@),
    ensures
        r is Some <==> ingests(*pp, root@, lane as int, dgt_views(share@), *path),
        r matches Some(o) ==> is_opening_of(*pp, lane as int, dgt_views(share@), *path, o)
            && walks(*pp, root@, o, ZETA as int),
{
    match open_share(pp, lane, share, path) {
        None => None,
        Some(o) => {
            assert(o.data.len() == views(o.data@).len());
            if verify_walk(pp, root, &o, ZETA as u32) {
                Some(o)
            } else {
                None
            }
        },
    }
}

/// A lane's post is accepted: the summed opening walks to the summed root with
/// digits in range, and its digits stand for the label of the posted sum.
pub open spec fn accepts(
    pp: ShareCommitmentParams,
    root: Coeffs,
    share_sum: Seq<Coeffs>,
    o: ShareOpening,
) -> bool {
    &&& share_sum.len() == pp.block_len
    &&& walks(pp, root, o, (pp.rho_max * ZETA) as int)
    &&& labels_match(pp, share_sum, views(o.data@))
}

/// Checks a lane's post against the sum of the signed roots.
pub fn verify_aggregated(
    pp: &ShareCommitmentParams,
    summed_root: &HVCPoly,
    share_sum: &[DgtNTTPoly],
    o: &ShareOpening,
) -> (r: bool)
    requires
        pp.wf(),
        dgt_wf(share_sum@),
    ensures
        r == accepts(*pp, summed_root@, dgt_views(share_sum@), *o),
{
    if share_sum.len() != pp.block_len {
        return false;
    }
    if !verify_walk(pp, summed_root, o, pp.beta_agg()) {
        return false;
    }
    let want: Vec<DgtNTTPoly> = pp.hash_share(share_sum);
    let got: Vec<DgtNTTPoly> = o.project_labels();
    let ghost s = dgt_views(share_sum@);
    let ghost d = views(o.data@);
    for k in 0..LABEL_POLYS
        invariant
            want.len() == LABEL_POLYS,
            got.len() == LABEL_POLYS,
            forall|j: int, i: int|
                0 <= j < LABEL_POLYS && 0 <= i < N ==> #[trigger] want[j]@[i] == pp.label_at(
                    s,
                    j,
                    i,
                ) % q(),
            forall|j: int, i: int|
                0 <= j < LABEL_POLYS && 0 <= i < N ==> #[trigger] got[j]@[i] == rec(
                    element_digits(d, j),
                    i,
                ) % q(),
            s == dgt_views(share_sum@),
            d == views(o.data@),
            forall|j: int, i: int|
                0 <= j < k && 0 <= i < N ==> cong(
                    #[trigger] rec(element_digits(d, j), i),
                    pp.label_at(s, j, i),
                    q(),
                ),
    {
        if want[k] != got[k] {
            proof {
                if labels_match(*pp, s, d) {
                    assert forall|i: int| 0 <= i < N implies want[k as int]@[i]
                        == got[k as int]@[i] by {
                        assert(cong(
                            rec(element_digits(d, k as int), i),
                            pp.label_at(s, k as int, i),
                            q(),
                        ));
                    }
                    assert(want[k as int]@ =~= got[k as int]@);
                }
            }
            return false;
        }
        assert forall|i: int| 0 <= i < N implies cong(
            #[trigger] rec(element_digits(d, k as int), i),
            pp.label_at(s, k as int, i),
            q(),
        ) by {
            assert(want[k as int]@[i] == got[k as int]@[i]);
        }
    }
    true
}

// ---------------------------------------------------------------
// Committing
// ---------------------------------------------------------------

/// The leaf labels of all lanes, padded with zeros.
pub open spec fn lane_labels(pp: ShareCommitmentParams, shares: Seq<Seq<Coeffs>>) -> Seq<Coeffs> {
    Seq::new(
        pp.n_leaves as nat,
        |j: int|
            if j < shares.len() {
                lane_label(pp, shares[j])
            } else {
                Seq::new(N as nat, |_k: int| 0int)
            },
    )
}

/// The coefficient vectors of all shares.
pub open spec fn all_views(shares: Seq<Share>) -> Seq<Seq<Coeffs>> {
    shares.map(|_j: int, s: Share| dgt_views(s@))
}

/// `path` is the fresh path of `lane` over leaves `ls`.
pub open spec fn is_path_of(
    pp: ShareCommitmentParams,
    ls: Seq<Coeffs>,
    lane: int,
    share: Seq<Coeffs>,
    path: SharePath,
) -> bool {
    &&& path.lane_index == lane
    &&& path.nodes.len() == 6 * pp.depth()
    &&& all_within(views(path.nodes@), ZETA as int)
    &&& fresh_path(
        pp.keys(),
        pp.depth(),
        ls,
        lane,
        10,
        share_digits(pp, share) + views(path.nodes@),
    )
}

/// A committed share along its own path opens the root.
proof fn lemma_honest_path(
    pp: ShareCommitmentParams,
    shares: Seq<Seq<Coeffs>>,
    lane: int,
    path: SharePath,
)
    requires
        pp.wf(),
        shares.len() == pp.n_lanes,
        0 <= lane < pp.n_lanes,
        shares[lane].len() == pp.block_len,
        is_path_of(pp, lane_labels(pp, shares), lane, shares[lane], path),
    ensures
        ingests(
            pp,
            node(pp.keys(), lane_labels(pp, shares), pp.depth(), 0),
            lane,
            shares[lane],
            path,
        ),
{
    let ls = lane_labels(pp, shares);
    let u = share_digits(pp, shares[lane]);
    let data = u + views(path.nodes@);
    assert forall|i: int| 0 <= i < N implies #[trigger] path_holds(
        pp.keys(),
        pp.g(),
        node(pp.keys(), ls, pp.depth(), 0),
        lane,
        10,
        pp.depth() as int,
        data,
        i,
    ) by {
        lemma_hash_cong(pp.g(), u, i);
        lemma_dot_prefix(pp.g(), u, data, i, 30);
        lemma_fresh_path(pp.keys(), pp.g(), pp.depth(), ls, lane, 10, data, i);
    }
}

/// Commits to one share per lane: the root, and the path of every lane. Every
/// share opens the root along its path.
pub fn commit_shares(pp: &ShareCommitmentParams, shares: &[Share]) -> (r: (HVCPoly, Vec<SharePath>))
    requires
        pp.wf(),
        shares.len() == pp.n_lanes,
        forall|j: int|
            0 <= j < shares.len() ==> (#[trigger] shares[j]).len() == pp.block_len && dgt_wf(
                shares[j]@,
            ),
    ensures
        r.0@ == node(pp.keys(), lane_labels(*pp, all_views(shares@)), pp.depth(), 0),
        r.0.is_centered(),
        r.1.len() == pp.n_lanes,
        forall|j: int|
            0 <= j < pp.n_lanes ==> is_path_of(
                *pp,
                lane_labels(*pp, all_views(shares@)),
                j,
                dgt_views(shares[j]@),
                #[trigger] r.1[j],
            ) && ingests(*pp, r.0@, j, dgt_views(shares[j]@), r.1[j]),
{
    let ghost all = all_views(shares@);
    let ghost ls = lane_labels(*pp, all);
    let mut labels: Vec<HVCPoly> = Vec::with_capacity(pp.n_leaves);
    for j in 0..pp.n_lanes
        invariant
            pp.wf(),
            shares.len() == pp.n_lanes,
            forall|j: int|
                0 <= j < shares.len() ==> (#[trigger] shares[j]).len() == pp.block_len && dgt_wf(
                    shares[j]@,
                ),
            all == all_views(shares@),
            ls == lane_labels(*pp, all),
            labels.len() == j,
            forall|i: int| 0 <= i < j ==> (#[trigger] labels[i])@ == ls[i],
    {
        assert(shares[j as int].len() == pp.block_len && dgt_wf(shares[j as int]@));
        let u: Vec<HVCPoly> = digits_of_share(pp, &shares[j]);
        let label: HVCPoly = hvc_dot(&pp.leaf_key, &u);
        labels.push(label);
    }
    for j in pp.n_lanes..pp.n_leaves
        invariant
            pp.wf(),
            all.len() == pp.n_lanes,
            ls == lane_labels(*pp, all),
            labels.len() == j,
            forall|i: int| 0 <= i < j ==> (#[trigger] labels[i])@ == ls[i],
    {
        let z: HVCPoly = HVCPoly::default();
        assert(z@ =~= ls[j as int]) by {
            assert forall|k: int| 0 <= k < N implies z@[k] == 0 by {
                assert(z.coeffs[k] == 0);
            }
        }
        labels.push(z);
    }
    let depth: usize = pp.path_len();
    let tree: Tree = Tree::new_with_leaf_nodes(&labels, &pp.hasher, depth);
    let root: HVCPoly = tree.root();
    assert(tree.leaves() =~= ls);
    let mut paths: Vec<SharePath> = Vec::with_capacity(pp.n_lanes);
    for j in 0..pp.n_lanes
        invariant
            pp.wf(),
            shares.len() == pp.n_lanes,
            forall|j: int|
                0 <= j < shares.len() ==> (#[trigger] shares[j]).len() == pp.block_len && dgt_wf(
                    shares[j]@,
                ),
            all == all_views(shares@),
            ls == lane_labels(*pp, all),
            tree.wf(),
            tree.keys@ == pp.keys(),
            tree.leaves() == ls,
            depth == pp.depth(),
            tree.depth() == depth,
            root@ == node(pp.keys(), ls, pp.depth(), 0),
            paths.len() == j,
            forall|i: int|
                0 <= i < j ==> is_path_of(*pp, ls, i, dgt_views(shares[i]@), #[trigger] paths[i])
                    && ingests(*pp, root@, i, dgt_views(shares[i]@), paths[i]),
    {
        assert(tree.levels[0].len() == pp.n_leaves);
        let raw: Path = tree.gen_proof(j);
        let mut nodes: Vec<HVCPoly> = Vec::with_capacity(depth * 2 * HVC_WIDTH);
        append_path(&mut nodes, &raw, Ghost(0), Ghost(tree));
        let path = SharePath { lane_index: j, nodes };
        proof {
            let s = dgt_views(shares[j as int]@);
            let nv = views(path.nodes@);
            let data = share_digits(*pp, s) + nv;
            assert forall|l: int| 0 <= l < depth implies #[trigger] pair_digits(data, 10, l)
                == pair_digits(nv, 0, l) by {
                assert(pair_digits(data, 10, l) =~= pair_digits(nv, 0, l));
            }
            assert(all[j as int] == s);
            assert(shares[j as int].len() == pp.block_len);
            lemma_honest_path(*pp, all, j as int, path);
        }
        paths.push(path);
    }
    (root, paths)
}

// ---------------------------------------------------------------
// Sums
// ---------------------------------------------------------------

/// Element `j` of the digits, across openings.
pub open spec fn opening_slot(os: Seq<&ShareOpening>, j: int) -> Seq<Coeffs> {
    os.map(|_t: int, o: &ShareOpening| o.data[j]@)
}

/// A running digit-wise sum, kept centered.
pub struct ShareOpeningAcc {
    pub lane_index: usize,
    pub path_len: usize,
    pub data: Vec<HVCPoly>,
}

impl ShareOpeningAcc {
    /// The accumulator holds the sum of `os`.
    pub open spec fn holds(&self, os: Seq<&ShareOpening>) -> bool {
        forall|j: int|
            0 <= j < self.data.len() ==> (#[trigger] self.data[j])@ == hvc_sum(opening_slot(os, j))
    }

    /// Same lane, same shape.
    pub open spec fn takes(&self, lane: int, path_len: int, len: int) -> bool {
        &&& lane == self.lane_index
        &&& path_len == self.path_len
        &&& len == self.data.len()
    }

    /// The empty sum.
    pub fn zero(pp: &ShareCommitmentParams, lane: usize) -> (r: Self)
        requires
            pp.wf(),
        ensures
            r.takes(lane as int, pp.depth() as int, data_polys(10, pp.depth() as int)),
            r.holds(Seq::empty()),
    {
        let data: Vec<HVCPoly> = zero_polys(pp.data_polys());
        let r = ShareOpeningAcc { lane_index: lane, path_len: pp.path_len(), data };
        proof {
            lemma_zero_holds(r);
        }
        r
    }

    /// Adds one opening.
    pub fn add(&mut self, o: &ShareOpening)
        requires
            old(self).takes(o.lane_index as int, o.path_len as int, o.data.len() as int),
        ensures
            final(self).takes(o.lane_index as int, o.path_len as int, o.data.len() as int),
            forall|os: Seq<&ShareOpening>|
                old(self).holds(os) ==> #[trigger] final(self).holds(os.push(o)),
    {
        let ghost before = *self;
        let len: usize = self.data.len();
        for j in 0..len
            invariant
                len == self.data.len(),
                self.takes(o.lane_index as int, o.path_len as int, o.data.len() as int),
                before.takes(o.lane_index as int, o.path_len as int, o.data.len() as int),
                forall|i: int| j <= i < self.data.len() ==> self.data[i] == before.data[i],
                forall|i: int, k: int|
                    0 <= i < j && 0 <= k < N ==> #[trigger] self.data[i]@[k] == centered(
                        before.data[i]@[k] + o.data[i]@[k],
                        hvc::q(),
                    ),
        {
            let sum_j: HVCPoly = self.data[j] + o.data[j];
            assert forall|k: int| 0 <= k < N implies #[trigger] sum_j@[k] == centered(
                before.data[j as int]@[k] + o.data[j as int]@[k],
                hvc::q(),
            ) by {
                assert(before.data[j as int]@[k] + 1 * o.data[j as int]@[k]
                    == before.data[j as int]@[k] + o.data[j as int]@[k]);
            }
            self.data[j] = sum_j;
        }
        proof {
            assert forall|os: Seq<&ShareOpening>| before.holds(os) implies #[trigger] self.holds(
                os.push(o),
            ) by {
                lemma_acc_push(before, os, o, *self);
            }
        }
    }

    /// Folds another partial sum in.
    pub fn merge(&mut self, other: &Self)
        requires
            old(self).takes(other.lane_index as int, other.path_len as int, other.data.len() as int),
        ensures
            final(self).takes(
                other.lane_index as int,
                other.path_len as int,
                other.data.len() as int,
            ),
            forall|a: Seq<&ShareOpening>, b: Seq<&ShareOpening>|
                old(self).holds(a) && other.holds(b) ==> #[trigger] final(self).holds(a + b),
    {
        let ghost before = *self;
        let len: usize = self.data.len();
        for j in 0..len
            invariant
                len == self.data.len(),
                self.takes(other.lane_index as int, other.path_len as int, other.data.len() as int),
                before.takes(
                    other.lane_index as int,
                    other.path_len as int,
                    other.data.len() as int,
                ),
                forall|i: int| j <= i < self.data.len() ==> self.data[i] == before.data[i],
                forall|i: int, k: int|
                    0 <= i < j && 0 <= k < N ==> #[trigger] self.data[i]@[k] == centered(
                        before.data[i]@[k] + other.data[i]@[k],
                        hvc::q(),
                    ),
        {
            let sum_j: HVCPoly = self.data[j] + other.data[j];
            assert forall|k: int| 0 <= k < N implies #[trigger] sum_j@[k] == centered(
                before.data[j as int]@[k] + other.data[j as int]@[k],
                hvc::q(),
            ) by {
                assert(before.data[j as int]@[k] + 1 * other.data[j as int]@[k]
                    == before.data[j as int]@[k] + other.data[j as int]@[k]);
            }
            self.data[j] = sum_j;
        }
        proof {
            assert forall|a: Seq<&ShareOpening>, b: Seq<&ShareOpening>|
                before.holds(a) && other.holds(b) implies #[trigger] self.holds(a + b) by {
                lemma_acc_merge(before, a, *other, b, *self);
            }
        }
    }

    /// The summed opening.
    pub fn finish(self) -> (r: ShareOpening)
        ensures
            self.takes(r.lane_index as int, r.path_len as int, r.data.len() as int),
            r.data@ == self.data@,
    {
        ShareOpening { lane_index: self.lane_index, path_len: self.path_len, data: self.data }
    }
}

fn zero_polys(len: usize) -> (r: Vec<HVCPoly>)
    ensures
        r.len() == len,
        forall|j: int, k: int| 0 <= j < len && 0 <= k < N ==> #[trigger] r[j]@[k] == 0,
{
    let mut out: Vec<HVCPoly> = Vec::with_capacity(len);
    for i in 0..len
        invariant
            out.len() == i,
            forall|j: int, k: int| 0 <= j < i && 0 <= k < N ==> #[trigger] out[j]@[k] == 0,
    {
        let z: HVCPoly = HVCPoly::default();
        assert forall|k: int| 0 <= k < N implies #[trigger] z@[k] == 0 by {
            assert(z.coeffs[k] == 0);
        }
        out.push(z);
    }
    out
}

proof fn lemma_zero_holds(acc: ShareOpeningAcc)
    requires
        forall|j: int, k: int|
            0 <= j < acc.data.len() && 0 <= k < N ==> #[trigger] acc.data[j]@[k] == 0,
    ensures
        acc.holds(Seq::empty()),
{
    let none = Seq::<&ShareOpening>::empty();
    assert forall|j: int| 0 <= j < acc.data.len() implies (#[trigger] acc.data[j])@ == hvc_sum(
        opening_slot(none, j),
    ) by {
        assert forall|k: int| 0 <= k < N implies acc.data[j]@[k] == hvc_sum(
            opening_slot(none, j),
        )[k] by {
            assert(coefficient(opening_slot(none, j), k) =~= Seq::<int>::empty());
        }
        assert(acc.data[j]@ =~= hvc_sum(opening_slot(none, j)));
    }
}

proof fn lemma_acc_push(
    before: ShareOpeningAcc,
    os: Seq<&ShareOpening>,
    o: &ShareOpening,
    after: ShareOpeningAcc,
)
    requires
        before.holds(os),
        after.data.len() == before.data.len(),
        o.data.len() == before.data.len(),
        forall|i: int, k: int|
            0 <= i < after.data.len() && 0 <= k < N ==> #[trigger] after.data[i]@[k] == centered(
                before.data[i]@[k] + o.data[i]@[k],
                hvc::q(),
            ),
    ensures
        after.holds(os.push(o)),
{
    assert forall|j: int| 0 <= j < after.data.len() implies (#[trigger] after.data[j])@ == hvc_sum(
        opening_slot(os.push(o), j),
    ) by {
        let slot = opening_slot(os, j);
        assert(before.data[j]@ == hvc_sum(slot));
        assert forall|k: int| 0 <= k < N implies after.data[j]@[k] == hvc_sum(
            opening_slot(os.push(o), j),
        )[k] by {
            let (c, y) = (coefficient(slot, k), o.data[j]@[k]);
            assert(coefficient(opening_slot(os.push(o), j), k) =~= c.push(y));
            field::lemma_sum_push(c, y);
            lemma_centered(sum(c), hvc::q());
            field::lemma_cong_ops(before.data[j]@[k], sum(c), y, y, hvc::q());
            lemma_centered_cong(before.data[j]@[k] + y, sum(c) + y, hvc::q());
        }
        assert(after.data[j]@ =~= hvc_sum(opening_slot(os.push(o), j)));
    }
}

proof fn lemma_sum_concat(a: Seq<int>, b: Seq<int>)
    ensures
        sum(a + b) == sum(a) + sum(b),
    decreases b.len(),
{
    if b.len() == 0 {
        assert(a + b =~= a);
    } else {
        lemma_sum_concat(a, b.drop_last());
        assert((a + b).drop_last() =~= a + b.drop_last());
    }
}

proof fn lemma_acc_merge(
    before: ShareOpeningAcc,
    a: Seq<&ShareOpening>,
    other: ShareOpeningAcc,
    b: Seq<&ShareOpening>,
    after: ShareOpeningAcc,
)
    requires
        before.holds(a),
        other.holds(b),
        after.data.len() == before.data.len(),
        other.data.len() == before.data.len(),
        forall|i: int, k: int|
            0 <= i < after.data.len() && 0 <= k < N ==> #[trigger] after.data[i]@[k] == centered(
                before.data[i]@[k] + other.data[i]@[k],
                hvc::q(),
            ),
    ensures
        after.holds(a + b),
{
    assert forall|j: int| 0 <= j < after.data.len() implies (#[trigger] after.data[j])@ == hvc_sum(
        opening_slot(a + b, j),
    ) by {
        assert(before.data[j]@ == hvc_sum(opening_slot(a, j)));
        assert(other.data[j]@ == hvc_sum(opening_slot(b, j)));
        assert forall|k: int| 0 <= k < N implies after.data[j]@[k] == hvc_sum(
            opening_slot(a + b, j),
        )[k] by {
            let (x, y) = (
                coefficient(opening_slot(a, j), k),
                coefficient(opening_slot(b, j), k),
            );
            assert(coefficient(opening_slot(a + b, j), k) =~= x + y);
            lemma_sum_concat(x, y);
            lemma_centered(sum(x), hvc::q());
            lemma_centered(sum(y), hvc::q());
            field::lemma_cong_ops(
                before.data[j]@[k],
                sum(x),
                other.data[j]@[k],
                sum(y),
                hvc::q(),
            );
            lemma_centered_cong(
                before.data[j]@[k] + other.data[j]@[k],
                sum(x) + sum(y),
                hvc::q(),
            );
        }
        assert(after.data[j]@ =~= hvc_sum(opening_slot(a + b, j)));
    }
}

/// `o` is the sum of `os`, all at its lane and of its shape.
pub open spec fn is_share_sum(os: Seq<&ShareOpening>, o: ShareOpening) -> bool {
    &&& o.lane_index == os[0].lane_index
    &&& o.path_len == os[0].path_len
    &&& o.data.len() == os[0].data.len()
    &&& forall|j: int|
        0 <= j < o.data.len() ==> (#[trigger] o.data[j])@ == hvc_sum(opening_slot(os, j))
}

/// Digit-wise sum of openings of one lane.
pub fn sum_openings(os: &[&ShareOpening]) -> (r: ShareOpening)
    requires
        os.len() > 0,
        forall|t: int|
            0 <= t < os.len() ==> (#[trigger] os[t]).lane_index == os[0].lane_index
                && os[t].path_len == os[0].path_len && os[t].data.len() == os[0].data.len(),
    ensures
        is_share_sum(os@, r),
{
    let first: &ShareOpening = os[0];
    let data: Vec<HVCPoly> = zero_polys(first.data.len());
    let mut acc = ShareOpeningAcc { lane_index: first.lane_index, path_len: first.path_len, data };
    proof {
        lemma_zero_holds(acc);
        assert(os@.take(0) =~= Seq::<&ShareOpening>::empty());
    }
    for t in 0..os.len()
        invariant
            os.len() > 0,
            forall|t: int|
                0 <= t < os.len() ==> (#[trigger] os[t]).lane_index == os[0].lane_index
                    && os[t].path_len == os[0].path_len && os[t].data.len() == os[0].data.len(),
            acc.takes(
                os[0].lane_index as int,
                os[0].path_len as int,
                os[0].data.len() as int,
            ),
            acc.holds(os@.take(t as int)),
    {
        let o: &ShareOpening = os[t];
        acc.add(o);
        assert(os@.take(t + 1) =~= os@.take(t as int).push(o));
    }
    assert(os@.take(os.len() as int) =~= os@);
    let r = acc.finish();
    r
}

/// The integer sums of digits across openings.
pub open spec fn digit_totals(os: Seq<&ShareOpening>, len: nat) -> Seq<Coeffs> {
    Seq::new(len, |j: int| exact_sum(opening_slot(os, j)))
}

/// Element `j` across shares.
pub open spec fn share_slot(shares: Seq<Seq<Coeffs>>, j: int) -> Seq<Coeffs> {
    shares.map(|_t: int, s: Seq<Coeffs>| s[j])
}

/// The integer sums of shares.
pub open spec fn share_totals(shares: Seq<Seq<Coeffs>>, len: nat) -> Seq<Coeffs> {
    Seq::new(len, |j: int| exact_sum(share_slot(shares, j)))
}

/// Every opening walks to its root at the fresh bound and stands for the label
/// of its share.
pub open spec fn all_open(
    pp: ShareCommitmentParams,
    os: Seq<&ShareOpening>,
    roots: Seq<Coeffs>,
    shares: Seq<Seq<Coeffs>>,
    lane: int,
) -> bool {
    &&& roots.len() == os.len()
    &&& shares.len() == os.len()
    &&& full(roots)
    &&& forall|t: int|
        #![trigger os[t]]
        0 <= t < os.len() ==> {
            &&& os[t].lane_index == lane
            &&& walks(pp, roots[t], *os[t], ZETA as int)
            &&& shares[t].len() == pp.block_len
            &&& full(shares[t])
            &&& labels_match(pp, shares[t], views(os[t].data@))
        }
}

proof fn lemma_exact_push(s: Seq<Coeffs>, x: Coeffs)
    requires
        x.len() == N,
    ensures
        exact_sum(s.push(x)) == combine(exact_sum(s), 1, x),
{
    assert forall|k: int| 0 <= k < N implies exact_sum(s.push(x))[k] == exact_sum(s)[k] + 1
        * x[k] by {
        assert(coefficient(s.push(x), k) =~= coefficient(s, k).push(x[k]));
        field::lemma_sum_push(coefficient(s, k), x[k]);
    }
    assert(exact_sum(s.push(x)) =~= combine(exact_sum(s), 1, x));
}

proof fn lemma_exact_single(s: Seq<Coeffs>, x: Coeffs)
    requires
        x.len() == N,
        s == seq![x],
    ensures
        exact_sum(s) == x,
{
    assert forall|k: int| 0 <= k < N implies exact_sum(s)[k] == x[k] by {
        let c = coefficient(s, k);
        assert(c.drop_last() =~= Seq::<int>::empty());
        assert(sum(c.drop_last()) == 0);
    }
    assert(exact_sum(s) =~= x);
}

proof fn lemma_rec_add(x: Seq<Coeffs>, y: Seq<Coeffs>, i: int)
    requires
        x.len() == y.len(),
        full(x),
        full(y),
        0 <= i < N,
    ensures
        rec(add_polys(x, y), i) == rec(x, i) + rec(y, i),
{
    let (a, b) = (column(x, i), column(y, i));
    lemma_recomposed_linear(a, b);
    assert forall|d: int| 0 <= d < x.len() implies column(add_polys(x, y), i)[d] == a[d] + b[d] by {
        assert(x[d].len() == N);
    }
    assert(column(add_polys(x, y), i) =~= Seq::new(a.len(), |d: int| a[d] + b[d]));
}

/// Integer totals satisfy the path relations and stand for the total label.
proof fn lemma_totals(
    pp: ShareCommitmentParams,
    os: Seq<&ShareOpening>,
    roots: Seq<Coeffs>,
    shares: Seq<Seq<Coeffs>>,
    lane: int,
)
    requires
        pp.wf(),
        os.len() > 0,
        all_open(pp, os, roots, shares, lane),
    ensures
        forall|i: int|
            0 <= i < N ==> #[trigger] path_holds(
                pp.keys(),
                pp.g(),
                exact_sum(roots),
                lane,
                10,
                pp.depth() as int,
                digit_totals(os, data_polys(10, pp.depth() as int) as nat),
                i,
            ),
        labels_match(
            pp,
            share_totals(shares, pp.block_len as nat),
            digit_totals(os, data_polys(10, pp.depth() as int) as nat),
        ),
    decreases os.len(),
{
    let dl = data_polys(10, pp.depth() as int) as nat;
    let bl = pp.block_len as nat;
    let n = os.len() - 1;
    let last = os[n];
    let (lr, ld, lsh) = (roots[n], views(last.data@), shares[n]);
    assert(walks(pp, roots[n], *os[n], ZETA as int));
    if n == 0 {
        assert(roots =~= seq![lr]);
        lemma_exact_single(roots, lr);
        assert(digit_totals(os, dl) =~= ld) by {
            assert forall|j: int| 0 <= j < dl implies digit_totals(os, dl)[j] == ld[j] by {
                assert(opening_slot(os, j) =~= seq![ld[j]]);
                lemma_exact_single(opening_slot(os, j), ld[j]);
            }
        }
        assert(share_totals(shares, bl) =~= lsh) by {
            assert forall|j: int| 0 <= j < bl implies share_totals(shares, bl)[j] == lsh[j] by {
                assert(share_slot(shares, j) =~= seq![lsh[j]]);
                assert(lsh[j].len() == N);
                lemma_exact_single(share_slot(shares, j), lsh[j]);
            }
        }
        assert forall|i: int| 0 <= i < N implies #[trigger] path_holds(
            pp.keys(),
            pp.g(),
            exact_sum(roots),
            lane,
            10,
            pp.depth() as int,
            digit_totals(os, dl),
            i,
        ) by {
            assert(path_holds(pp.keys(), pp.g(), lr, lane, 10, pp.depth() as int, ld, i));
        }
    } else {
        let (po, pr, ps) = (os.drop_last(), roots.drop_last(), shares.drop_last());
        assert forall|t: int| #![trigger po[t]] 0 <= t < po.len() implies po[t] == os[t]
            && pr[t] == roots[t] && ps[t] == shares[t] by {}
        assert(all_open(pp, po, pr, ps, lane));
        lemma_totals(pp, po, pr, ps, lane);
        let (pd, pt) = (digit_totals(po, dl), share_totals(ps, bl));
        assert(roots =~= pr.push(lr));
        lemma_exact_push(pr, lr);
        assert(digit_totals(os, dl) =~= add_polys(pd, ld)) by {
            assert forall|j: int| 0 <= j < dl implies digit_totals(os, dl)[j] == combine(
                pd[j],
                1,
                ld[j],
            ) by {
                assert(opening_slot(os, j) =~= opening_slot(po, j).push(ld[j]));
                lemma_exact_push(opening_slot(po, j), ld[j]);
            }
        }
        assert(share_totals(shares, bl) =~= add_polys(pt, lsh)) by {
            assert forall|j: int| 0 <= j < bl implies share_totals(shares, bl)[j] == combine(
                pt[j],
                1,
                lsh[j],
            ) by {
                assert(share_slot(shares, j) =~= share_slot(ps, j).push(lsh[j]));
                assert(lsh[j].len() == N);
                lemma_exact_push(share_slot(ps, j), lsh[j]);
            }
        }
        assert forall|i: int| 0 <= i < N implies #[trigger] path_holds(
            pp.keys(),
            pp.g(),
            exact_sum(roots),
            lane,
            10,
            pp.depth() as int,
            digit_totals(os, dl),
            i,
        ) by {
            assert(path_holds(
                pp.keys(),
                pp.g(),
                exact_sum(pr),
                lane,
                10,
                pp.depth() as int,
                pd,
                i,
            ));
            assert(path_holds(pp.keys(), pp.g(), lr, lane, 10, pp.depth() as int, ld, i));
            lemma_path_add(
                pp.keys(),
                pp.g(),
                lane,
                10,
                pp.depth() as int,
                exact_sum(pr),
                pd,
                lr,
                ld,
                i,
            );
        }
        assert forall|k: int, i: int| 0 <= k < LABEL_POLYS && 0 <= i < N implies cong(
            #[trigger] rec(element_digits(digit_totals(os, dl), k), i),
            pp.label_at(share_totals(shares, bl), k, i),
            q(),
        ) by {
            assert(cong(rec(element_digits(pd, k), i), pp.label_at(pt, k, i), q()));
            assert(cong(rec(element_digits(ld, k), i), pp.label_at(lsh, k, i), q()));
            assert(element_digits(add_polys(pd, ld), k) =~= add_polys(
                element_digits(pd, k),
                element_digits(ld, k),
            ));
            lemma_rec_add(element_digits(pd, k), element_digits(ld, k), i);
            law_share_hash_is_linear(pp, pt, lsh, k, i);
            field::lemma_cong_ops(
                rec(element_digits(pd, k), i),
                pp.label_at(pt, k, i),
                rec(element_digits(ld, k), i),
                pp.label_at(lsh, k, i),
                q(),
            );
        }
    }
}

/// The post of a lane that summed fresh openings of at most `rho_max` clients
/// is accepted against the sum of their roots.
pub proof fn law_sum_is_accepted(
    pp: ShareCommitmentParams,
    os: Seq<&ShareOpening>,
    roots: Seq<Coeffs>,
    shares: Seq<Seq<Coeffs>>,
    o: ShareOpening,
    share_sum: Seq<Coeffs>,
)
    requires
        pp.wf(),
        0 < os.len() <= pp.rho_max,
        all_open(pp, os, roots, shares, os[0].lane_index as int),
        is_share_sum(os, o),
        share_sum.len() == pp.block_len,
        full(share_sum),
        forall|j: int|
            0 <= j < pp.block_len ==> cong_poly(
                #[trigger] share_sum[j],
                share_totals(shares, pp.block_len as nat)[j],
                q(),
            ),
    ensures
        accepts(pp, hvc_sum(roots), share_sum, o),
{
    let lane = os[0].lane_index as int;
    let depth = pp.depth() as int;
    let dl = data_polys(10, depth) as nat;
    let bl = pp.block_len as nat;
    lemma_totals(pp, os, roots, shares, lane);
    let dt = digit_totals(os, dl);
    let od = views(o.data@);
    let bound = (pp.rho_max * ZETA) as int;
    assert(walks(pp, roots[0], *os[0], ZETA as int));
    assert forall|j: int, i: int| 0 <= j < dl && 0 <= i < N implies #[trigger] od[j][i] == dt[j][i]
        && -bound <= od[j][i] <= bound by {
        let c = coefficient(opening_slot(os, j), i);
        assert forall|t: int| 0 <= t < c.len() implies -34 <= #[trigger] c[t] <= 34 by {
            assert(walks(pp, roots[t], *os[t], ZETA as int));
            let d = views(os[t].data@);
            assert(within(d[j], ZETA as int));
            assert(c[t] == d[j][i]);
        }
        lemma_sum_within(c, 34);
        lemma_centered_id(sum(c), hvc::q());
        assert(o.data[j]@ == hvc_sum(opening_slot(os, j)));
    }
    assert(od =~= dt) by {
        assert forall|j: int| 0 <= j < dl implies od[j] == dt[j] by {
            assert forall|i: int| 0 <= i < N implies od[j][i] == dt[j][i] by {}
            assert(od[j] =~= dt[j]);
        }
    }
    assert(all_within(od, bound)) by {
        assert forall|j: int| 0 <= j < od.len() implies within(#[trigger] od[j], bound) by {
            assert forall|i: int| 0 <= i < od[j].len() implies -bound <= #[trigger] od[j][i]
                <= bound by {}
        }
    }
    let hs = hvc_sum(roots);
    assert forall|i: int| 0 <= i < N implies #[trigger] path_holds(
        pp.keys(),
        pp.g(),
        hs,
        lane,
        10,
        depth,
        od,
        i,
    ) by {
        assert(path_holds(pp.keys(), pp.g(), exact_sum(roots), lane, 10, depth, dt, i));
        lemma_centered(sum(coefficient(roots, i)), hvc::q());
    }
    let st = share_totals(shares, bl);
    assert forall|k: int, i: int| 0 <= k < LABEL_POLYS && 0 <= i < N implies cong(
        #[trigger] rec(element_digits(od, k), i),
        pp.label_at(share_sum, k, i),
        q(),
    ) by {
        assert(cong(rec(element_digits(dt, k), i), pp.label_at(st, k, i), q()));
        assert forall|j: int| 0 <= j < bl implies cong(#[trigger] share_sum[j][i], st[j][i], q()) by {
            assert(cong_poly(share_sum[j], st[j], q()));
        }
        lemma_slot_cong(pp.row(k), share_sum, st, i, bl, q());
    }
}

// ---------------------------------------------------------------
// Sizes
// ---------------------------------------------------------------

/// Depth of the tree over `n` lanes.
fn depth_for(n: usize) -> (r: usize)
    requires
        n <= usize::MAX / 2 + 1,
    ensures
        exists|leaves: int| #[trigger] is_leaf_count(n as int, leaves) && r == log2(leaves),
        r <= MAX_DEPTH,
{
    let leaves: usize = leaf_count(n);
    let mut m: usize = leaves;
    let mut d: usize = 0;
    while m > 1
        invariant
            d + log2(m as int) == log2(leaves as int),
            log2(leaves as int) <= MAX_DEPTH,
        decreases m,
    {
        m = m / 2;
        d = d + 1;
    }
    assert(is_leaf_count(n as int, leaves as int));
    d
}

/// Wire bytes of a fresh path over `n_lanes` lanes.
pub fn fresh_path_packed_len(n_lanes: usize) -> (r: usize)
    requires
        n_lanes <= usize::MAX / 2 + 1,
    ensures
        exists|leaves: int| #[trigger] is_leaf_count(n_lanes as int, leaves) && r == packed_len(
            6 * log2(leaves) * N,
            width_of(ZETA as int) as int,
        ),
{
    let depth: usize = depth_for(n_lanes);
    let bits: u32 = bits_for_signed(ZETA as u32);
    proof {
        lemma_width_of(ZETA as int, bits as nat);
    }
    let polys: usize = depth * 2 * HVC_WIDTH;
    assert(polys * N * bits <= 378 * 2048 * 33) by (nonlinear_arith)
        requires
            polys <= 378,
            bits <= 33,
            N == 2048,
    ;
    (polys * N * bits as usize + 7) / 8
}

/// Wire bytes of a lane's post: eight bytes per coefficient of the share sum,
/// then the packed opening.
pub fn lane_post_packed_len(block_len: usize, n_lanes: usize, rho_max: usize) -> (r: usize)
    requires
        block_len * N * 8 + 408 * 256 * 33 <= usize::MAX,
        n_lanes <= usize::MAX / 2 + 1,
        rho_max * ZETA <= u32::MAX,
    ensures
        exists|leaves: int| #[trigger] is_leaf_count(n_lanes as int, leaves) && r == block_len * N
            * 8 + packed_len(
            data_polys(10, log2(leaves) as int) * N,
            width_of((rho_max * ZETA) as int) as int,
        ),
{
    let depth: usize = depth_for(n_lanes);
    let bound: u32 = rho_max as u32 * ZETA as u32;
    let bits: u32 = bits_for_signed(bound);
    proof {
        lemma_width_of(bound as int, bits as nat);
    }
    let polys: usize = LABEL_POLYS * DGT_WIDTH + depth * 2 * HVC_WIDTH;
    assert(polys * N * bits <= 408 * 2048 * 33) by (nonlinear_arith)
        requires
            polys <= 408,
            bits <= 33,
            N == 2048,
    ;
    block_len * N * 8 + (polys * N * bits as usize + 7) / 8
}

/// Dimensions are admitted exactly if nothing is empty, the lanes can be counted,
/// the sums of that many ciphertexts are exact in the digest ring, and those of
/// that many digits in the tree's.
pub proof fn law_setup_limits(block_len: int, n_lanes: int, rho_max: int)
    requires
        0 <= block_len,
        0 <= n_lanes,
        0 <= rho_max,
    ensures
        setup_fault(block_len, n_lanes, rho_max) is None <==> {
            &&& block_len >= 1
            &&& 1 <= n_lanes <= usize::MAX / 2 + 1
            &&& rho_max >= 1
            &&& rho_max * KAHE_MODULUS < DGT_MODULUS
            &&& 2 * (rho_max * ZETA) < HVC_MODULUS - 1
        },
{
}

/// A lane's post is accepted exactly if it has the right shape, names a lane,
/// its digits are no larger than that many clients' can be, they spell the hash
/// of the summed share in every slot, and the path leads to the root.
pub proof fn law_lane_post_is_accepted(
    pp: ShareCommitmentParams,
    root: Coeffs,
    s: Seq<Coeffs>,
    o: ShareOpening,
)
    ensures
        accepts(pp, root, s, o) <==> {
            &&& s.len() == pp.block_len
            &&& o.lane_index < pp.n_lanes
            &&& o.path_len == pp.depth()
            &&& o.data.len() == 30 + 6 * pp.depth()
            &&& forall|j: int, i: int|
                0 <= j < o.data.len() && 0 <= i < N ==> -(pp.rho_max * ZETA)
                    <= #[trigger] o.data[j]@[i] <= pp.rho_max * ZETA
            &&& forall|k: int, i: int|
                0 <= k < 3 && 0 <= i < N ==> cong(
                    #[trigger] rec(views(o.data@).subrange(10 * k, 10 * k + 10), i),
                    slot_dot(pp.row(k), s, i, pp.block_len as nat),
                    DGT_MODULUS as int,
                )
            &&& forall|i: int|
                0 <= i < N ==> #[trigger] path_holds(
                    views(pp.hasher.keys@),
                    views(pp.leaf_key@),
                    root,
                    o.lane_index as int,
                    10,
                    pp.depth() as int,
                    views(o.data@),
                    i,
                )
        },
{
    let d = views(o.data@);
    let b = (pp.rho_max * ZETA) as int;
    let short = forall|j: int, i: int|
        0 <= j < o.data.len() && 0 <= i < N ==> -b <= #[trigger] o.data[j]@[i] <= b;
    assert(all_within(d, b) <==> short) by {
        if all_within(d, b) {
            assert forall|j: int, i: int| 0 <= j < o.data.len() && 0 <= i < N implies -b
                <= #[trigger] o.data[j]@[i] <= b by {
                assert(within(d[j], b));
                assert(d[j][i] == o.data[j]@[i]);
            }
        }
        if short {
            assert forall|j: int| 0 <= j < d.len() implies within(#[trigger] d[j], b) by {
                assert forall|i: int| 0 <= i < d[j].len() implies -b <= #[trigger] d[j][i] <= b by {
                    assert(-b <= o.data[j]@[i] <= b);
                }
            }
        }
    }
    let spelled = forall|k: int, i: int|
        0 <= k < 3 && 0 <= i < N ==> cong(
            #[trigger] rec(d.subrange(10 * k, 10 * k + 10), i),
            slot_dot(pp.row(k), s, i, pp.block_len as nat),
            DGT_MODULUS as int,
        );
    assert(labels_match(pp, s, d) <==> spelled) by {
        if labels_match(pp, s, d) {
            assert forall|k: int, i: int| 0 <= k < 3 && 0 <= i < N implies cong(
                #[trigger] rec(d.subrange(10 * k, 10 * k + 10), i),
                slot_dot(pp.row(k), s, i, pp.block_len as nat),
                DGT_MODULUS as int,
            ) by {
                assert(cong(rec(element_digits(d, k), i), pp.label_at(s, k, i), q()));
            }
        }
        if spelled {
            assert forall|k: int, i: int| 0 <= k < LABEL_POLYS && 0 <= i < N implies cong(
                #[trigger] rec(element_digits(d, k), i),
                pp.label_at(s, k, i),
                q(),
            ) by {
                assert(cong(
                    rec(d.subrange(10 * k, 10 * k + 10), i),
                    slot_dot(pp.row(k), s, i, pp.block_len as nat),
                    DGT_MODULUS as int,
                ));
            }
        }
    }
    assert(pp.keys() == views(pp.hasher.keys@) && pp.g() == views(pp.leaf_key@));
    assert(data_polys(10, pp.depth() as int) == 30 + 6 * pp.depth());
    assert(walks(pp, root, o, b) <==> {
        &&& o.lane_index < pp.n_lanes
        &&& o.path_len == pp.depth()
        &&& o.data.len() == 30 + 6 * pp.depth()
        &&& short
        &&& forall|i: int|
            0 <= i < N ==> #[trigger] path_holds(
                pp.keys(),
                pp.g(),
                root,
                o.lane_index as int,
                10,
                pp.depth() as int,
                d,
                i,
            )
    });
}

/// Masking changes the first byte of a seed alone, and is undone by itself.
pub proof fn law_mask_is_undone(seed: Seq<u8>)
    requires
        seed.len() >= 1,
    ensures
        masked(seed).len() == seed.len(),
        masked(seed)[0] != seed[0],
        masked(seed).skip(1) == seed.skip(1),
        masked(masked(seed)) == seed,
{
    let b = seed[0];
    assert(b ^ 0xC0 != b && (b ^ 0xC0) ^ 0xC0 == b) by (bit_vector);
    assert(masked(seed).skip(1) =~= seed.skip(1));
    assert(masked(masked(seed)) =~= seed);
}

} // verus!
