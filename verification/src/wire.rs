//! Wire forms of commitments, shares and openings.
//!
//! Every coefficient of a region takes just enough bits for the region's bound,
//! offset by the bound to become unsigned.

use crate::bits::{
    bits_for_signed, bits_for_signed64, in_range, in_range64, is_width, law_bits64_round_trip,
    law_bits_round_trip, lemma_pow2_monotonic, lemma_width_unique, offset, offset64, pack_bits, pack_bits64, packed,
    packed_len, stream, unpack_bits, unpack_bits64, unpacked_at,
};
use crate::bytes::{
    byte_span, copy_range, le_bytes, le_value, lemma_le_len, lemma_le_round_trip, lemma_le_value, push_all, push_le, read_le,
};
use crate::cs::{
    data_polys, is_leaf_count, leaf_count, log2, opening_data_polys, Commitment, CsParams, Opening, BETA_AGG_HVC,
    BETA_CS, MAX_DEPTH, MAX_OPENING_DIM, R_BOUND,
};
use crate::negacyclic::N;
use crate::rings::{CsPoly, HVCPoly, CS_MODULUS, HVC_MODULUS, ZETA};
use vstd::arithmetic::power2::{lemma2_to64, lemma2_to64_rest, lemma_pow2_adds, pow2};
use vstd::prelude::*;

verus! {

// ---------------------------------------------------------------
// One polynomial
// ---------------------------------------------------------------

/// Bits per value in `[-bound, bound]`.
pub open spec fn width_of(bound: int) -> nat {
    choose|b: nat| is_width(bound, b as int)
}

pub proof fn lemma_width_of(bound: int, b: nat)
    requires
        is_width(bound, b as int),
    ensures
        width_of(bound) == b,
{
    lemma_width_unique(bound, b as int, width_of(bound) as int);
}

fn width(bound: u32) -> (r: u32)
    ensures
        r == width_of(bound as int),
        is_width(bound as int, r as int),
        1 <= r <= 33,
{
    let r: u32 = bits_for_signed(bound);
    proof {
        lemma_width_of(bound as int, r as nat);
    }
    r
}

fn scaled(count: usize, bits: u32) -> (r: u128)
    requires
        bits <= 33,
    ensures
        r == count * bits,
        r <= 0x1_0000_0000_0000_0000 * 33,
{
    assert(count * bits <= 0x1_0000_0000_0000_0000 * 33) by (nonlinear_arith)
        requires
            count <= 0x1_0000_0000_0000_0000,
            bits <= 33,
    ;
    count as u128 * bits as u128
}

/// Bytes of one polynomial packed against `bound`.
pub open spec fn poly_len(bound: int) -> int {
    packed_len(N as int, width_of(bound) as int)
}

/// The bytes of one polynomial packed against `bound`.
pub open spec fn poly_bytes(c: Seq<i32>, bound: int) -> Seq<u8> {
    packed(offset(c, bound), width_of(bound))
}

/// The coefficients read from the bytes of one polynomial.
pub open spec fn poly_value(s: Seq<u8>, bound: int) -> Seq<i32> {
    Seq::new(N as nat, |i: int| (unpacked_at(s, width_of(bound), i as nat) - bound) as i32)
}

/// As [`poly_bytes`], for wide coefficients.
pub open spec fn poly_bytes64(c: Seq<i64>, bound: int) -> Seq<u8> {
    packed(offset64(c, bound), width_of(bound))
}

/// As [`poly_value`], for wide coefficients.
pub open spec fn poly_value64(s: Seq<u8>, bound: int) -> Seq<i64> {
    Seq::new(N as nat, |i: int| (unpacked_at(s, width_of(bound), i as nat) - bound) as i64)
}

/// Unpacking gives back what was packed.
pub proof fn law_poly_round_trip(c: Seq<i32>, bound: u32)
    requires
        c.len() == N,
        in_range(c, bound as int),
    ensures
        poly_value(poly_bytes(c, bound as int), bound as int) == c,
        poly_bytes(c, bound as int).len() == poly_len(bound as int),
{
    let b = bound as int;
    lemma_has_width(bound as u64);
    lemma_le_len(
        stream(offset(c, b), width_of(b)),
        packed_len(c.len() as int, width_of(b) as int) as nat,
    );
    assert forall|i: int| 0 <= i < N implies poly_value(poly_bytes(c, b), b)[i] == c[i] by {
        law_bits_round_trip(c, b, width_of(b), i);
    }
    assert(poly_value(poly_bytes(c, b), b) =~= c);
}

/// Unpacking gives back what was packed, for wide coefficients.
pub proof fn law_poly64_round_trip(c: Seq<i64>, bound: u64)
    requires
        c.len() == N,
        in_range64(c, bound as int),
    ensures
        poly_value64(poly_bytes64(c, bound as int), bound as int) == c,
        poly_bytes64(c, bound as int).len() == poly_len(bound as int),
{
    let b = bound as int;
    lemma_has_width(bound);
    lemma_le_len(
        stream(offset64(c, b), width_of(b)),
        packed_len(c.len() as int, width_of(b) as int) as nat,
    );
    assert forall|i: int| 0 <= i < N implies poly_value64(poly_bytes64(c, b), b)[i] == c[i] by {
        law_bits64_round_trip(c, b, width_of(b), i);
    }
    assert(poly_value64(poly_bytes64(c, b), b) =~= c);
}

/// Every bound has a width.
pub proof fn lemma_has_width(bound: u64)
    ensures
        is_width(bound as int, width_of(bound as int) as int),
{
    lemma_some_width(bound as int, 0);
    let b = choose|b: nat| is_width(bound as int, b as int);
    assert(is_width(bound as int, b as int));
}

/// Widths of 32-bit bounds.
pub proof fn lemma_width_bound(bound: u32)
    ensures
        1 <= width_of(bound as int) <= 33,
{
    lemma_has_width(bound as u64);
    let w = width_of(bound as int);
    lemma2_to64();
    lemma2_to64_rest();
    if w > 33 {
        lemma_pow2_monotonic(33, (w - 1) as nat);
    }
}

proof fn lemma_some_width(bound: int, from: nat)
    requires
        bound >= 0,
        from == 0 || pow2(from) <= 2 * bound + 1,
    ensures
        exists|b: nat| #[trigger] is_width(bound, b as int),
    decreases 2 * bound + 1 - from,
{
    lemma2_to64();
    let next = from + 1;
    if from == 0 {
        assert(pow2(0) == 1);
    } else {
        lemma_pow2_exceeds(from);
    }
    if 2 * bound + 1 < pow2(next) {
        assert(is_width(bound, next as int));
    } else {
        lemma_some_width(bound, next);
    }
}

proof fn lemma_pow2_exceeds(k: nat)
    ensures
        pow2(k) > k,
    decreases k,
{
    lemma2_to64();
    if k > 0 {
        lemma_pow2_exceeds((k - 1) as nat);
        lemma_pow2_adds((k - 1) as nat, 1);
    }
}

/// Bytes one polynomial occupies when packed against `modulus`.
pub fn poly_packed_len(modulus: i32) -> (r: usize)
    requires
        modulus > 0,
    ensures
        r == poly_len(modulus as int),
        r <= 256 * 33,
{
    let b: u32 = width(modulus as u32);
    (N * b as usize + 7) / 8
}

/// Bytes one polynomial occupies when packed against `modulus`.
pub fn poly_packed_len64(modulus: i64) -> (r: usize)
    requires
        modulus > 0,
    ensures
        r == poly_len(modulus as int),
{
    let b: u32 = bits_for_signed64(modulus as u64);
    proof {
        lemma_width_of(modulus as int, b as nat);
    }
    (N * b as usize + 7) / 8
}

/// Appends one polynomial's coefficients packed against `modulus`. Values are
/// offset by the whole modulus, so any representative in `[-modulus, modulus]`
/// comes back as itself.
pub fn pack_poly(coeffs: &[i32], modulus: i32, out: &mut Vec<u8>)
    requires
        modulus > 0,
        coeffs.len() == N,
        in_range(coeffs@, modulus as int),
    ensures
        final(out)@ == old(out)@ + poly_bytes(coeffs@, modulus as int),
{
    let bound: u32 = modulus as u32;
    pack_bits(out, coeffs, bound, width(bound));
}

/// Reads one polynomial's coefficients starting at `start`; returns them and the
/// next byte index.
pub fn unpack_poly(input: &[u8], start: usize, modulus: i32) -> (r: ([i32; N], usize))
    requires
        modulus > 0,
        start + poly_len(modulus as int) <= input.len(),
    ensures
        r.1 == start + poly_len(modulus as int),
        r.0@ == poly_value(input@.subrange(start as int, r.1 as int), modulus as int),
{
    read_poly(input, start, modulus as u32)
}

fn read_poly(input: &[u8], start: usize, bound: u32) -> (r: ([i32; N], usize))
    requires
        start + poly_len(bound as int) <= input.len(),
    ensures
        r.1 == start + poly_len(bound as int),
        r.0@ == poly_value(input@.subrange(start as int, r.1 as int), bound as int),
{
    let (vals, next): (Vec<i32>, usize) = unpack_bits(input, start, N, bound, width(bound));
    let mut coeffs: [i32; N] = [0i32; N];
    for i in 0..N
        invariant
            vals.len() == N,
            forall|k: int| 0 <= k < i ==> #[trigger] coeffs@[k] == vals[k],
    {
        coeffs[i] = vals[i];
    }
    assert(coeffs@ =~= poly_value(input@.subrange(start as int, next as int), bound as int));
    (coeffs, next)
}

/// [`pack_poly`] for wide coefficients.
pub fn pack_poly64(coeffs: &[i64], modulus: i64, out: &mut Vec<u8>)
    requires
        0 < modulus <= 0x1_ffff_ffff_ffff,
        coeffs.len() == N,
        in_range64(coeffs@, modulus as int),
    ensures
        final(out)@ == old(out)@ + poly_bytes64(coeffs@, modulus as int),
{
    let bound: u64 = modulus as u64;
    let b: u32 = bits_for_signed64(bound);
    proof {
        lemma_width_of(modulus as int, b as nat);
    }
    pack_bits64(out, coeffs, bound, b);
}

/// [`unpack_poly`] for wide coefficients.
pub fn unpack_poly64(input: &[u8], start: usize, modulus: i64) -> (r: ([i64; N], usize))
    requires
        0 < modulus <= 0x1_ffff_ffff_ffff,
        start + poly_len(modulus as int) <= input.len(),
    ensures
        r.1 == start + poly_len(modulus as int),
        r.0@ == poly_value64(input@.subrange(start as int, r.1 as int), modulus as int),
{
    let bound: u64 = modulus as u64;
    let b: u32 = bits_for_signed64(bound);
    proof {
        lemma_width_of(modulus as int, b as nat);
    }
    let (vals, next): (Vec<i64>, usize) = unpack_bits64(input, start, N, bound, b);
    let mut coeffs: [i64; N] = [0i64; N];
    for i in 0..N
        invariant
            vals.len() == N,
            forall|k: int| 0 <= k < i ==> #[trigger] coeffs@[k] == vals[k],
    {
        coeffs[i] = vals[i];
    }
    assert(coeffs@ =~= poly_value64(input@.subrange(start as int, next as int), modulus as int));
    (coeffs, next)
}

// ---------------------------------------------------------------
// Runs of polynomials
// ---------------------------------------------------------------

/// The coefficient arrays of a run.
pub open spec fn cs_arrays(s: Seq<CsPoly>) -> Seq<Seq<i32>> {
    s.map(|_i: int, p: CsPoly| p.coeffs@)
}

/// The coefficient arrays of a run.
pub open spec fn hvc_arrays(s: Seq<HVCPoly>) -> Seq<Seq<i32>> {
    s.map(|_i: int, p: HVCPoly| p.coeffs@)
}

/// Every array holds `N` values in `[-bound, bound]`.
pub open spec fn arrays_fit(s: Seq<Seq<i32>>, bound: int) -> bool {
    forall|j: int| 0 <= j < s.len() ==> (#[trigger] s[j]).len() == N && in_range(s[j], bound)
}

/// The bytes of a run.
pub open spec fn run_bytes(s: Seq<Seq<i32>>, bound: int) -> Seq<u8>
    decreases s.len(),
{
    if s.len() == 0 {
        Seq::empty()
    } else {
        run_bytes(s.drop_last(), bound) + poly_bytes(s.last(), bound)
    }
}

/// The coefficient arrays of a run of `count`, read back.
pub open spec fn run_values(s: Seq<u8>, count: nat, bound: int) -> Seq<Seq<i32>> {
    Seq::new(
        count,
        |j: int| poly_value(s.subrange(j * poly_len(bound), (j + 1) * poly_len(bound)), bound),
    )
}

/// Unpacking a run gives back what was packed.
pub proof fn law_run_round_trip(s: Seq<Seq<i32>>, bound: u32)
    requires
        arrays_fit(s, bound as int),
    ensures
        run_bytes(s, bound as int).len() == s.len() * poly_len(bound as int),
        run_values(run_bytes(s, bound as int), s.len(), bound as int) == s,
    decreases s.len(),
{
    let b = bound as int;
    let l = poly_len(b);
    if s.len() == 0 {
        assert(0 * l == 0);
        assert(run_values(run_bytes(s, b), 0, b) =~= s);
    } else {
        let low = s.drop_last();
        let n = low.len() as int;
        let all = run_bytes(s, b);
        assert(arrays_fit(low, b));
        law_run_round_trip(low, bound);
        assert(s[n].len() == N && in_range(s[n], b));
        law_poly_round_trip(s.last(), bound);
        assert((n + 1) * l == n * l + l) by (nonlinear_arith);
        assert forall|j: int| 0 <= j < s.len() implies run_values(all, s.len(), b)[j] == s[j] by {
            assert(0 <= j * l && (j + 1) * l == j * l + l && (j < n ==> (j + 1) * l <= n * l))
                by (nonlinear_arith)
                requires
                    0 <= j,
                    0 <= l,
            ;
            if j < n {
                assert(all.subrange(j * l, (j + 1) * l) =~= run_bytes(low, b).subrange(
                    j * l,
                    (j + 1) * l,
                ));
                assert(run_values(run_bytes(low, b), low.len(), b)[j] == low[j]);
            } else {
                assert(all.subrange(n * l, (n + 1) * l) =~= poly_bytes(s.last(), b));
            }
        }
        assert(run_values(all, s.len(), b) =~= s);
    }
}

/// Appends a run packed against `bound`.
fn pack_cs_run(polys: &[CsPoly], bound: u32, out: &mut Vec<u8>)
    requires
        arrays_fit(cs_arrays(polys@), bound as int),
    ensures
        final(out)@ == old(out)@ + run_bytes(cs_arrays(polys@), bound as int),
{
    let ghost start = out@;
    let ghost all = cs_arrays(polys@);
    let b: u32 = width(bound);
    assert(start + Seq::<u8>::empty() =~= start);
    for j in 0..polys.len()
        invariant
            arrays_fit(all, bound as int),
            all == cs_arrays(polys@),
            b == width_of(bound as int),
            b <= 33,
            is_width(bound as int, b as int),
            out@ == start + run_bytes(all.take(j as int), bound as int),
    {
        assert(all[j as int].len() == N && in_range(all[j as int], bound as int));
        let c: &[i32] = polys[j].coeffs.as_slice();
        assert(c@ == all[j as int]);
        assert(c.len() * b <= 2048 * 33) by (nonlinear_arith)
            requires
                c.len() == 2048,
                b <= 33,
        ;
        pack_bits(out, c, bound, b);
        proof {
            let t = all.take(j + 1);
            assert(t.drop_last() =~= all.take(j as int));
            let (x, y) = (
                run_bytes(all.take(j as int), bound as int),
                poly_bytes(all[j as int], bound as int),
            );
            assert(start + x + y =~= start + (x + y));
        }
    }
    assert(all.take(polys.len() as int) =~= all);
}

/// Reads a run of `count` starting at `start`.
fn unpack_cs_run(input: &[u8], start: usize, count: usize, bound: u32) -> (r: (Vec<CsPoly>, usize))
    requires
        start + count * poly_len(bound as int) <= input.len(),
    ensures
        r.1 == start + count * poly_len(bound as int),
        cs_arrays(r.0@) == run_values(
            input@.subrange(start as int, r.1 as int),
            count as nat,
            bound as int,
        ),
{
    let ghost l = poly_len(bound as int);
    let ghost region = input@.subrange(start as int, start + count * l);
    let mut out: Vec<CsPoly> = Vec::with_capacity(count);
    let mut at: usize = start;
    assert(0 * l == 0);
    proof {
        lemma_has_width(bound as u64);
    }
    for j in 0..count
        invariant
            l == poly_len(bound as int),
            l >= 0,
            start + count * l <= input.len(),
            region == input@.subrange(start as int, start + count * l),
            at == start + j * l,
            out.len() == j,
            forall|i: int|
                0 <= i < j ==> (#[trigger] out[i]).coeffs@ == poly_value(
                    region.subrange(i * l, (i + 1) * l),
                    bound as int,
                ),
    {
        assert(0 <= j * l && (j + 1) * l == j * l + l && (j + 1) * l <= count * l)
            by (nonlinear_arith)
            requires
                j < count,
                0 <= l,
        ;
        let (coeffs, next): ([i32; N], usize) = read_poly(input, at, bound);
        assert(input@.subrange(at as int, next as int) =~= region.subrange(j * l, (j + 1) * l));
        out.push(CsPoly::from_coeffs(coeffs));
        at = next;
    }
    assert(cs_arrays(out@) =~= run_values(region, count as nat, bound as int));
    (out, at)
}

/// Appends a run packed against `bound`.
fn pack_hvc_run(polys: &[HVCPoly], bound: u32, out: &mut Vec<u8>)
    requires
        arrays_fit(hvc_arrays(polys@), bound as int),
    ensures
        final(out)@ == old(out)@ + run_bytes(hvc_arrays(polys@), bound as int),
{
    let ghost start = out@;
    let ghost all = hvc_arrays(polys@);
    let b: u32 = width(bound);
    assert(start + Seq::<u8>::empty() =~= start);
    for j in 0..polys.len()
        invariant
            arrays_fit(all, bound as int),
            all == hvc_arrays(polys@),
            b == width_of(bound as int),
            b <= 33,
            is_width(bound as int, b as int),
            out@ == start + run_bytes(all.take(j as int), bound as int),
    {
        assert(all[j as int].len() == N && in_range(all[j as int], bound as int));
        let c: &[i32] = polys[j].coeffs.as_slice();
        assert(c@ == all[j as int]);
        assert(c.len() * b <= 2048 * 33) by (nonlinear_arith)
            requires
                c.len() == 2048,
                b <= 33,
        ;
        pack_bits(out, c, bound, b);
        proof {
            let t = all.take(j + 1);
            assert(t.drop_last() =~= all.take(j as int));
            let (x, y) = (
                run_bytes(all.take(j as int), bound as int),
                poly_bytes(all[j as int], bound as int),
            );
            assert(start + x + y =~= start + (x + y));
        }
    }
    assert(all.take(polys.len() as int) =~= all);
}

/// Reads a run of `count` starting at `start`.
fn unpack_hvc_run(input: &[u8], start: usize, count: usize, bound: u32) -> (r: (Vec<HVCPoly>, usize))
    requires
        start + count * poly_len(bound as int) <= input.len(),
    ensures
        r.1 == start + count * poly_len(bound as int),
        hvc_arrays(r.0@) == run_values(
            input@.subrange(start as int, r.1 as int),
            count as nat,
            bound as int,
        ),
{
    let ghost l = poly_len(bound as int);
    let ghost region = input@.subrange(start as int, start + count * l);
    let mut out: Vec<HVCPoly> = Vec::with_capacity(count);
    let mut at: usize = start;
    assert(0 * l == 0);
    proof {
        lemma_has_width(bound as u64);
    }
    for j in 0..count
        invariant
            l == poly_len(bound as int),
            l >= 0,
            start + count * l <= input.len(),
            region == input@.subrange(start as int, start + count * l),
            at == start + j * l,
            out.len() == j,
            forall|i: int|
                0 <= i < j ==> (#[trigger] out[i]).coeffs@ == poly_value(
                    region.subrange(i * l, (i + 1) * l),
                    bound as int,
                ),
    {
        assert(0 <= j * l && (j + 1) * l == j * l + l && (j + 1) * l <= count * l)
            by (nonlinear_arith)
            requires
                j < count,
                0 <= l,
        ;
        let (coeffs, next): ([i32; N], usize) = read_poly(input, at, bound);
        assert(input@.subrange(at as int, next as int) =~= region.subrange(j * l, (j + 1) * l));
        out.push(HVCPoly::from_coeffs(coeffs));
        at = next;
    }
    assert(hvc_arrays(out@) =~= run_values(region, count as nat, bound as int));
    (out, at)
}

// ---------------------------------------------------------------
// Commitments and shares
// ---------------------------------------------------------------

impl Commitment {
    /// The root packed against the tree-hash modulus.
    pub fn to_bytes(&self) -> (r: Vec<u8>)
        requires
            in_range(self.root.coeffs@, HVC_MODULUS as int),
        ensures
            r@ == poly_bytes(self.root.coeffs@, HVC_MODULUS as int),
    {
        let mut out: Vec<u8> = Vec::with_capacity(poly_packed_len(HVC_MODULUS));
        pack_poly(self.root.coeffs.as_slice(), HVC_MODULUS, &mut out);
        out
    }

    /// Reads a packed commitment; `None` unless `bytes` is exactly one packed
    /// polynomial.
    pub fn from_bytes(bytes: &[u8]) -> (r: Option<Self>)
        ensures
            r is Some <==> bytes.len() == poly_len(HVC_MODULUS as int),
            r matches Some(c) ==> c.root.coeffs@ == poly_value(bytes@, HVC_MODULUS as int),
    {
        if bytes.len() != poly_packed_len(HVC_MODULUS) {
            return None;
        }
        let (coeffs, _next): ([i32; N], usize) = unpack_poly(bytes, 0, HVC_MODULUS);
        assert(bytes@.subrange(0, bytes.len() as int) =~= bytes@);
        Some(Commitment { root: HVCPoly::from_coeffs(coeffs) })
    }
}

/// Packs a vector of commitment-ring shares against the commitment modulus.
pub fn pack_cs_shares(shares: &[CsPoly]) -> (r: Vec<u8>)
    requires
        arrays_fit(cs_arrays(shares@), CS_MODULUS as int),
    ensures
        r@ == run_bytes(cs_arrays(shares@), CS_MODULUS as int),
{
    let mut out: Vec<u8> = Vec::new();
    pack_cs_run(shares, CS_MODULUS as u32, &mut out);
    assert(Seq::<u8>::empty() + run_bytes(cs_arrays(shares@), CS_MODULUS as int) =~= run_bytes(
        cs_arrays(shares@),
        CS_MODULUS as int,
    ));
    out
}

/// Reads packed shares; `None` unless `bytes` is exactly `count` packed
/// polynomials.
pub fn unpack_cs_shares(bytes: &[u8], count: usize) -> (r: Option<Vec<CsPoly>>)
    ensures
        r is Some <==> bytes.len() == count * poly_len(CS_MODULUS as int),
        r matches Some(v) ==> cs_arrays(v@) == run_values(
            bytes@,
            count as nat,
            CS_MODULUS as int,
        ),
{
    let each: usize = poly_packed_len(CS_MODULUS);
    assert(count * each <= usize::MAX * 8449) by (nonlinear_arith)
        requires
            each <= 8449,
            count <= usize::MAX,
    ;
    let want: u128 = count as u128 * each as u128;
    if bytes.len() as u128 != want {
        return None;
    }
    let (out, _next): (Vec<CsPoly>, usize) = unpack_cs_run(bytes, 0, count, CS_MODULUS as u32);
    assert(bytes@.subrange(0, bytes.len() as int) =~= bytes@);
    Some(out)
}

// ---------------------------------------------------------------
// Openings
// ---------------------------------------------------------------

/// A bit-packed opening. The bounds are stored, so unpacking needs nothing
/// else. `bytes` holds `r`, `s`, the leaf digits, then the path.
#[derive(Clone, Debug, PartialEq, Eq)]
pub struct PackedOpening {
    pub server_index: u32,
    pub path_index: u32,
    pub kappa_cs: u32,
    pub mu_cs: u32,
    pub stored_path_len: u32,
    pub r_bound: u32,
    pub s_bound: u32,
    pub tree_bound: u32,
    pub bytes: Vec<u8>,
}

/// Header size on the wire: eight little-endian words.
pub const PACKED_OPENING_HEADER_LEN: usize = 32;

/// The header words.
pub open spec fn header_words(p: PackedOpening) -> Seq<u32> {
    seq![
        p.server_index,
        p.path_index,
        p.kappa_cs,
        p.mu_cs,
        p.stored_path_len,
        p.r_bound,
        p.s_bound,
        p.tree_bound,
    ]
}

/// Words as little-endian bytes.
pub open spec fn words_bytes(w: Seq<u32>) -> Seq<u8>
    decreases w.len(),
{
    if w.len() == 0 {
        Seq::empty()
    } else {
        words_bytes(w.drop_last()) + le_bytes(w.last() as nat, 4)
    }
}

proof fn lemma_words_bytes(w: Seq<u32>)
    ensures
        words_bytes(w).len() == 4 * w.len(),
        forall|i: int|
            0 <= i < w.len() ==> le_value(words_bytes(w).subrange(4 * i, 4 * i + 4))
                == #[trigger] w[i],
    decreases w.len(),
{
    if w.len() > 0 {
        let low = w.drop_last();
        lemma_words_bytes(low);
        let n = low.len() as int;
        lemma_le_len(w.last() as nat, 4);
        assert forall|i: int| 0 <= i < w.len() implies le_value(
            words_bytes(w).subrange(4 * i, 4 * i + 4),
        ) == #[trigger] w[i] by {
            if i < n {
                assert(words_bytes(w).subrange(4 * i, 4 * i + 4) =~= words_bytes(low).subrange(
                    4 * i,
                    4 * i + 4,
                ));
                assert(low[i] == w[i]);
            } else {
                assert(words_bytes(w).subrange(4 * i, 4 * i + 4) =~= le_bytes(w.last() as nat, 4));
                reveal_with_fuel(byte_span, 5);
                lemma_le_round_trip(w.last() as nat, 4);
            }
        }
    }
}

/// The wire form of a packed opening.
pub open spec fn packed_wire(p: PackedOpening) -> Seq<u8> {
    words_bytes(header_words(p)) + p.bytes@
}

/// The header has a fixed size.
pub proof fn lemma_header_len(p: PackedOpening)
    ensures
        packed_wire(p).len() == PACKED_OPENING_HEADER_LEN + p.bytes.len(),
{
    lemma_words_bytes(header_words(p));
}

/// `p` is what `data` encodes.
pub open spec fn reads_packed(data: Seq<u8>, p: PackedOpening) -> bool {
    &&& forall|i: int|
        0 <= i < 8 ==> #[trigger] header_words(p)[i] == le_value(data.subrange(4 * i, 4 * i + 4))
    &&& p.bytes@ == data.skip(32)
}

/// The wire form of a packed opening encodes it.
pub proof fn lemma_reads_own(p: PackedOpening)
    ensures
        reads_packed(packed_wire(p), p),
{
    let w = header_words(p);
    lemma_words_bytes(w);
    assert forall|i: int| 0 <= i < 8 implies #[trigger] w[i] == le_value(
        packed_wire(p).subrange(4 * i, 4 * i + 4),
    ) by {
        assert(packed_wire(p).subrange(4 * i, 4 * i + 4) =~= words_bytes(w).subrange(
            4 * i,
            4 * i + 4,
        ));
    }
    assert(packed_wire(p).skip(32) =~= p.bytes@);
}

/// Decoding the wire form of a packed opening gives it back.
pub proof fn law_packed_wire_round_trip(p: PackedOpening, d: PackedOpening)
    requires
        reads_packed(packed_wire(p), d),
    ensures
        header_words(d) == header_words(p),
        d.bytes@ == p.bytes@,
        packed_wire(p).len() == PACKED_OPENING_HEADER_LEN + p.bytes.len(),
{
    let w = header_words(p);
    lemma_words_bytes(w);
    assert forall|i: int| 0 <= i < 8 implies header_words(d)[i] == w[i] by {
        assert(packed_wire(p).subrange(4 * i, 4 * i + 4) =~= words_bytes(w).subrange(
            4 * i,
            4 * i + 4,
        ));
    }
    assert(header_words(d) =~= w);
    assert(packed_wire(p).skip(32) =~= p.bytes@);
}

fn push_word(out: &mut Vec<u8>, w: u32, Ghost(done): Ghost<Seq<u32>>)
    requires
        old(out)@ == words_bytes(done),
    ensures
        final(out)@ == words_bytes(done.push(w)),
{
    push_le(out, w as u64, 4);
    assert(done.push(w).drop_last() =~= done);
}

impl PackedOpening {
    /// Byte length of the packed payload, header excluded.
    pub fn body_len(&self) -> (r: usize)
        ensures
            r == self.bytes.len(),
    {
        self.bytes.len()
    }

    /// The header, then the payload.
    pub fn to_bytes(&self) -> (r: Vec<u8>)
        ensures
            r@ == packed_wire(*self),
    {
        let mut out: Vec<u8> = Vec::new();
        let ghost w0 = Seq::<u32>::empty();
        push_word(&mut out, self.server_index, Ghost(w0));
        let ghost w1 = w0.push(self.server_index);
        push_word(&mut out, self.path_index, Ghost(w1));
        let ghost w2 = w1.push(self.path_index);
        push_word(&mut out, self.kappa_cs, Ghost(w2));
        let ghost w3 = w2.push(self.kappa_cs);
        push_word(&mut out, self.mu_cs, Ghost(w3));
        let ghost w4 = w3.push(self.mu_cs);
        push_word(&mut out, self.stored_path_len, Ghost(w4));
        let ghost w5 = w4.push(self.stored_path_len);
        push_word(&mut out, self.r_bound, Ghost(w5));
        let ghost w6 = w5.push(self.r_bound);
        push_word(&mut out, self.s_bound, Ghost(w6));
        let ghost w7 = w6.push(self.s_bound);
        push_word(&mut out, self.tree_bound, Ghost(w7));
        assert(w7.push(self.tree_bound) =~= header_words(*self));
        push_all(&mut out, &self.bytes);
        out
    }

    /// Reads a packed opening; only the length is checked here.
    pub fn from_bytes(data: &[u8]) -> (r: Option<PackedOpening>)
        ensures
            r is Some <==> data.len() >= PACKED_OPENING_HEADER_LEN,
            r matches Some(p) ==> reads_packed(data@, p),
    {
        if data.len() < PACKED_OPENING_HEADER_LEN {
            return None;
        }
        let mut f: Vec<u32> = Vec::with_capacity(8);
        for i in 0..8usize
            invariant
                data.len() >= PACKED_OPENING_HEADER_LEN,
                f.len() == i,
                forall|j: int|
                    0 <= j < i ==> #[trigger] f[j] == le_value(data@.subrange(4 * j, 4 * j + 4)),
        {
            let v: u64 = read_le(data, i * 4, 4);
            proof {
                lemma_le_value(data@.subrange(4 * i, 4 * i + 4));
                reveal_with_fuel(byte_span, 5);
            }
            f.push(v as u32);
        }
        let bytes: Vec<u8> = copy_range(data, PACKED_OPENING_HEADER_LEN, data.len());
        assert(bytes@ =~= data@.skip(32));
        Some(
            PackedOpening {
                server_index: f[0],
                path_index: f[1],
                kappa_cs: f[2],
                mu_cs: f[3],
                stored_path_len: f[4],
                r_bound: f[5],
                s_bound: f[6],
                tree_bound: f[7],
                bytes,
            },
        )
    }
}

#[derive(Debug, PartialEq, Eq, Structural, Clone, Copy)]
pub enum OpeningDecodeError {
    /// Header shape fields are zero or implausibly large.
    BadHeader,
    /// `bytes` is shorter than the declared regions require.
    Truncated,
}

/// The three runs of an opening's payload.
pub open spec fn payload(o: Opening, r_bound: int, s_bound: int, tree_bound: int) -> Seq<u8> {
    run_bytes(cs_arrays(o.rs@).take(o.kappa_cs as int), r_bound) + run_bytes(
        cs_arrays(o.rs@).skip(o.kappa_cs as int),
        s_bound,
    ) + run_bytes(hvc_arrays(o.data@), tree_bound)
}

/// What an opening stores lies within the three bounds.
pub open spec fn within_bounds(o: Opening, r_bound: int, s_bound: int, tree_bound: int) -> bool {
    &&& arrays_fit(cs_arrays(o.rs@).take(o.kappa_cs as int), r_bound)
    &&& arrays_fit(cs_arrays(o.rs@).skip(o.kappa_cs as int), s_bound)
    &&& arrays_fit(hvc_arrays(o.data@), tree_bound)
}

/// `p` packs `o` against the three bounds.
pub open spec fn packs(o: Opening, r_bound: u32, s_bound: u32, tree_bound: u32, p: PackedOpening) -> bool {
    &&& p.server_index == o.server_index as u32
    &&& p.path_index == o.path_index as u32
    &&& p.kappa_cs == o.kappa_cs as u32
    &&& p.mu_cs == o.mu_cs as u32
    &&& p.stored_path_len == o.stored_path_len as u32
    &&& p.r_bound == r_bound
    &&& p.s_bound == s_bound
    &&& p.tree_bound == tree_bound
    &&& p.bytes@ == payload(o, r_bound as int, s_bound as int, tree_bound as int)
}

/// A dimension is zero or out of range.
pub open spec fn bad_header(p: PackedOpening) -> bool {
    ||| p.kappa_cs == 0
    ||| p.mu_cs == 0
    ||| p.kappa_cs > MAX_OPENING_DIM
    ||| p.mu_cs > MAX_OPENING_DIM
    ||| p.stored_path_len > MAX_OPENING_DIM
}

/// Byte lengths of the three runs.
pub open spec fn r_len(p: PackedOpening) -> int {
    p.kappa_cs * poly_len(p.r_bound as int)
}

pub open spec fn s_len(p: PackedOpening) -> int {
    p.mu_cs * poly_len(p.s_bound as int)
}

pub open spec fn digits_len(p: PackedOpening) -> int {
    data_polys(1 + p.mu_cs, p.stored_path_len as int) * poly_len(p.tree_bound as int)
}

/// Payload bytes the header calls for.
pub open spec fn payload_len(p: PackedOpening) -> int {
    r_len(p) + s_len(p) + digits_len(p)
}

/// `o` is what `p` encodes.
pub open spec fn unpacks(p: PackedOpening, o: Opening) -> bool {
    let b = p.bytes@;
    let (x, y) = (r_len(p), r_len(p) + s_len(p));
    &&& o.server_index == p.server_index
    &&& o.path_index == p.path_index
    &&& o.kappa_cs == p.kappa_cs
    &&& o.mu_cs == p.mu_cs
    &&& o.stored_path_len == p.stored_path_len
    &&& cs_arrays(o.rs@) == run_values(b.subrange(0, x), p.kappa_cs as nat, p.r_bound as int)
        + run_values(b.subrange(x, y), p.mu_cs as nat, p.s_bound as int)
    &&& hvc_arrays(o.data@) == run_values(
        b.subrange(y, payload_len(p)),
        data_polys(1 + p.mu_cs, p.stored_path_len as int) as nat,
        p.tree_bound as int,
    )
}

impl Opening {
    /// Packs each region at the tightest width for its bound.
    pub fn pack(&self, r_bound: u32, s_bound: u32, tree_bound: u32) -> (r: PackedOpening)
        requires
            self.shaped(),
            within_bounds(*self, r_bound as int, s_bound as int, tree_bound as int),
        ensures
            packs(*self, r_bound, s_bound, tree_bound, r),
    {
        let mut bytes: Vec<u8> = Vec::new();
        assert(cs_arrays(self.rs@.take(self.kappa_cs as int)) =~= cs_arrays(self.rs@).take(
            self.kappa_cs as int,
        ));
        assert(cs_arrays(self.rs@.skip(self.kappa_cs as int)) =~= cs_arrays(self.rs@).skip(
            self.kappa_cs as int,
        ));
        pack_cs_run(self.r(), r_bound, &mut bytes);
        pack_cs_run(self.s(), s_bound, &mut bytes);
        pack_hvc_run(&self.data, tree_bound, &mut bytes);
        assert(bytes@ =~= payload(*self, r_bound as int, s_bound as int, tree_bound as int));
        PackedOpening {
            server_index: self.server_index as u32,
            path_index: self.path_index as u32,
            kappa_cs: self.kappa_cs as u32,
            mu_cs: self.mu_cs as u32,
            stored_path_len: self.stored_path_len as u32,
            r_bound,
            s_bound,
            tree_bound,
            bytes,
        }
    }

    /// Unpacks an opening, validating the header first.
    pub fn from_packed(p: &PackedOpening) -> (r: Result<Opening, OpeningDecodeError>)
        ensures
            bad_header(*p) <==> r == Err::<Opening, _>(OpeningDecodeError::BadHeader),
            !bad_header(*p) && p.bytes.len() < payload_len(*p) <==> r == Err::<Opening, _>(
                OpeningDecodeError::Truncated,
            ),
            r matches Ok(o) ==> unpacks(*p, o) && o.shaped(),
    {
        let kappa_cs: usize = p.kappa_cs as usize;
        let mu_cs: usize = p.mu_cs as usize;
        let stored_path_len: usize = p.stored_path_len as usize;
        if kappa_cs == 0 || mu_cs == 0 || kappa_cs > MAX_OPENING_DIM || mu_cs > MAX_OPENING_DIM
            || stored_path_len > MAX_OPENING_DIM {
            return Err(OpeningDecodeError::BadHeader);
        }
        let polys: usize = opening_data_polys(1 + mu_cs, stored_path_len);
        let r_bits: u32 = width(p.r_bound);
        let s_bits: u32 = width(p.s_bound);
        let tree_bits: u32 = width(p.tree_bound);
        let need: u128 = 256 * (scaled(kappa_cs, r_bits) + scaled(mu_cs, s_bits) + scaled(
            polys,
            tree_bits,
        ));
        proof {
            let (a, b, c) = (r_bits as int, s_bits as int, tree_bits as int);
            assert(poly_len(p.r_bound as int) == 256 * a);
            assert(poly_len(p.s_bound as int) == 256 * b);
            assert(poly_len(p.tree_bound as int) == 256 * c);
            assert(need == payload_len(*p)) by {
                let (k, m, d) = (kappa_cs as int, mu_cs as int, polys as int);
                assert(k * (256 * a) == 256 * (k * a)) by (nonlinear_arith);
                assert(m * (256 * b) == 256 * (m * b)) by (nonlinear_arith);
                assert(d * (256 * c) == 256 * (d * c)) by (nonlinear_arith);
            }
        }
        if (p.bytes.len() as u128) < need {
            return Err(OpeningDecodeError::Truncated);
        }
        let bytes: &[u8] = p.bytes.as_slice();
        assert(r_len(*p) >= 0 && s_len(*p) >= 0 && digits_len(*p) >= 0) by {
            let (k, m, d) = (kappa_cs as int, mu_cs as int, polys as int);
            let (a, b, c) = (
                poly_len(p.r_bound as int),
                poly_len(p.s_bound as int),
                poly_len(p.tree_bound as int),
            );
            assert(k * a >= 0 && m * b >= 0 && d * c >= 0) by (nonlinear_arith)
                requires
                    k >= 0,
                    m >= 0,
                    d >= 0,
                    a >= 0,
                    b >= 0,
                    c >= 0,
            ;
        }
        let (mut rs, after_r): (Vec<CsPoly>, usize) = unpack_cs_run(bytes, 0, kappa_cs, p.r_bound);
        let ghost rv = cs_arrays(rs@);
        let (mut s, after_s): (Vec<CsPoly>, usize) = unpack_cs_run(
            bytes,
            after_r,
            mu_cs,
            p.s_bound,
        );
        let ghost sv = cs_arrays(s@);
        let (data, _end): (Vec<HVCPoly>, usize) = unpack_hvc_run(
            bytes,
            after_s,
            polys,
            p.tree_bound,
        );
        rs.append(&mut s);
        assert(cs_arrays(rs@) =~= rv + sv);
        assert(rv.len() == kappa_cs && sv.len() == mu_cs);
        assert(cs_arrays(rs@).len() == rs.len() && hvc_arrays(data@).len() == data.len());
        Ok(
            Opening {
                server_index: p.server_index as usize,
                path_index: p.path_index as usize,
                kappa_cs,
                mu_cs,
                stored_path_len,
                rs,
                data,
            },
        )
    }
}

/// Unpacking a packed opening gives the opening back.
pub proof fn law_opening_round_trip(
    o: Opening,
    r_bound: u32,
    s_bound: u32,
    tree_bound: u32,
    p: PackedOpening,
    back: Opening,
)
    requires
        o.shaped(),
        0 < o.kappa_cs <= MAX_OPENING_DIM,
        0 < o.mu_cs <= MAX_OPENING_DIM,
        o.stored_path_len <= MAX_OPENING_DIM,
        o.server_index <= u32::MAX,
        o.path_index <= u32::MAX,
        within_bounds(o, r_bound as int, s_bound as int, tree_bound as int),
        packs(o, r_bound, s_bound, tree_bound, p),
        unpacks(p, back),
    ensures
        !bad_header(p),
        p.bytes.len() == payload_len(p),
        back.server_index == o.server_index,
        back.path_index == o.path_index,
        back.kappa_cs == o.kappa_cs,
        back.mu_cs == o.mu_cs,
        back.stored_path_len == o.stored_path_len,
        cs_arrays(back.rs@) == cs_arrays(o.rs@),
        hvc_arrays(back.data@) == hvc_arrays(o.data@),
{
    let r = cs_arrays(o.rs@).take(o.kappa_cs as int);
    let s = cs_arrays(o.rs@).skip(o.kappa_cs as int);
    let d = hvc_arrays(o.data@);
    law_run_round_trip(r, r_bound);
    law_run_round_trip(s, s_bound);
    law_run_round_trip(d, tree_bound);
    let b = p.bytes@;
    let (x, y) = (r_len(p), r_len(p) + s_len(p));
    assert(b.subrange(0, x) =~= run_bytes(r, r_bound as int));
    assert(b.subrange(x, y) =~= run_bytes(s, s_bound as int));
    assert(b.subrange(y, payload_len(p)) =~= run_bytes(d, tree_bound as int));
    assert(r + s =~= cs_arrays(o.rs@));
}

// ---------------------------------------------------------------
// Bounds and sizes
// ---------------------------------------------------------------

/// Bounds for a fresh single-client opening.
pub fn fresh_opening_pack_bounds(p: &CsParams) -> (r: (u32, u32, u32))
    ensures
        r == (p.beta_cs, CS_MODULUS as u32, ZETA as u32),
{
    (p.beta_cs, CS_MODULUS as u32, ZETA as u32)
}

/// `rho` times a fresh bound, capped.
pub open spec fn capped(rho: int, fresh: int, cap: int) -> int {
    if rho * fresh < cap {
        rho * fresh
    } else {
        cap
    }
}

/// Bounds for the sum of `rho` openings, capped at the acceptance bounds.
pub fn aggregated_opening_pack_bounds(p: &CsParams, rho: u32) -> (r: (u32, u32, u32))
    ensures
        r.0 == capped(rho as int, p.beta_cs as int, p.r_bound as int),
        r.1 == CS_MODULUS,
        r.2 == capped(rho as int, ZETA as int, p.beta_agg_hvc as int),
{
    aggregated_bounds(p.beta_cs, p.r_bound, p.beta_agg_hvc, rho)
}

fn aggregated_bounds(beta_cs: u32, r_bound: u32, beta_agg: u32, rho: u32) -> (r: (u32, u32, u32))
    ensures
        r.0 == capped(rho as int, beta_cs as int, r_bound as int),
        r.1 == CS_MODULUS,
        r.2 == capped(rho as int, ZETA as int, beta_agg as int),
{
    assert(rho * beta_cs <= u32::MAX * u32::MAX) by (nonlinear_arith)
        requires
            rho <= u32::MAX,
            beta_cs <= u32::MAX,
    ;
    let r: u64 = rho as u64 * beta_cs as u64;
    let zeta: u64 = ZETA as u64;
    assert(rho * zeta <= u32::MAX * 34) by (nonlinear_arith)
        requires
            rho <= u32::MAX,
            zeta == 34,
    ;
    let tree: u64 = rho as u64 * zeta;
    (
        if r < r_bound as u64 {
            r as u32
        } else {
            r_bound
        },
        CS_MODULUS as u32,
        if tree < beta_agg as u64 {
            tree as u32
        } else {
            beta_agg
        },
    )
}

/// Wire bytes of one server's summed opening and share over `rho` clients:
/// header, payload, and the packed share.
pub open spec fn server_crypto_len(depth: int, mu_cs: int, kappa_cs: int, rho: int) -> int {
    PACKED_OPENING_HEADER_LEN + kappa_cs * poly_len(capped(rho, BETA_CS as int, R_BOUND as int))
        + mu_cs * poly_len(CS_MODULUS as int) + data_polys(1 + mu_cs, depth) * poly_len(
        capped(rho, ZETA as int, BETA_AGG_HVC as int),
    ) + mu_cs * poly_len(CS_MODULUS as int)
}

/// With a handful of dimensions the size fits any machine word.
pub proof fn lemma_server_crypto_len(depth: int, mu_cs: int, kappa_cs: int, rho: int)
    requires
        0 <= depth <= MAX_DEPTH,
        0 <= mu_cs <= 16,
        0 <= kappa_cs <= 16,
        rho >= 0,
    ensures
        server_crypto_len(depth, mu_cs, kappa_cs, rho) <= u32::MAX,
{
    let (a, b, c) = (
        capped(rho, BETA_CS as int, R_BOUND as int),
        CS_MODULUS as int,
        capped(rho, ZETA as int, BETA_AGG_HVC as int),
    );
    let beta = BETA_CS as int;
    let zeta = ZETA as int;
    assert(rho * beta >= 0 && rho * zeta >= 0) by (nonlinear_arith)
        requires
            rho >= 0,
            beta >= 0,
            zeta >= 0,
    ;
    lemma_width_bound(a as u32);
    lemma_width_bound(b as u32);
    lemma_width_bound(c as u32);
    let d = data_polys(1 + mu_cs, depth);
    let (x, y, z) = (poly_len(a), poly_len(b), poly_len(c));
    assert(kappa_cs * x <= 16 * 8448 && mu_cs * y <= 16 * 8448 && d * z <= 500 * 8448)
        by (nonlinear_arith)
        requires
            0 <= kappa_cs <= 16,
            0 <= mu_cs <= 16,
            0 <= d <= 500,
            0 <= x <= 8448,
            0 <= y <= 8448,
            0 <= z <= 8448,
    ;
}

/// The size from dimensions alone.
pub fn aggregated_server_crypto_len_for(
    n_servers: usize,
    mu_cs: usize,
    kappa_cs: usize,
    rho: u32,
) -> (r: usize)
    requires
        n_servers <= usize::MAX / 2 + 1,
        forall|leaves: int| #[trigger]
            is_leaf_count(n_servers as int, leaves) ==> server_crypto_len(
                log2(leaves) as int,
                mu_cs as int,
                kappa_cs as int,
                rho as int,
            ) <= usize::MAX,
    ensures
        exists|leaves: int| #[trigger] is_leaf_count(n_servers as int, leaves) && r
            == server_crypto_len(
            log2(leaves) as int,
            mu_cs as int,
            kappa_cs as int,
            rho as int,
        ),
{
    let leaves: usize = leaf_count(n_servers);
    let mut depth: usize = 0;
    let mut n: usize = leaves;
    while n > 1
        invariant
            depth + log2(n as int) == log2(leaves as int),
            log2(leaves as int) <= MAX_DEPTH,
        decreases n,
    {
        n = n / 2;
        depth = depth + 1;
    }
    let (rb, sb, tb): (u32, u32, u32) = aggregated_bounds(BETA_CS, R_BOUND, BETA_AGG_HVC, rho);
    let (a, b, c): (u32, u32, u32) = (width(rb), width(sb), width(tb));
    let ghost d = data_polys(1 + mu_cs, depth as int);
    proof {
        let (k, m) = (kappa_cs as int, mu_cs as int);
        let (x, y, z) = (a as int, b as int, c as int);
        assert(is_leaf_count(n_servers as int, leaves as int));
        assert(k * (256 * x) == 256 * (k * x)) by (nonlinear_arith);
        assert(m * (256 * y) == 256 * (m * y)) by (nonlinear_arith);
        assert(d * (256 * z) == 256 * (d * z)) by (nonlinear_arith);
        assert(k * x >= 0 && m * y >= 0 && d * z >= d) by (nonlinear_arith)
            requires
                k >= 0,
                m >= 0,
                d >= 0,
                x >= 1,
                y >= 1,
                z >= 1,
        ;
    }
    let polys: usize = opening_data_polys(1 + mu_cs, depth);
    let body: u128 = 256 * (scaled(kappa_cs, a) + scaled(mu_cs, b) + scaled(polys, c));
    let r: u128 = PACKED_OPENING_HEADER_LEN as u128 + body + 256 * scaled(mu_cs, b);
    r as usize
}

impl CsParams {
    /// Wire bytes of one server's summed opening and share over `rho` clients.
    pub fn aggregated_server_crypto_len(&self, rho: u32) -> (r: usize)
        requires
            self.wf(),
            server_crypto_len(
                self.depth() as int,
                self.mu_cs as int,
                self.kappa_cs as int,
                rho as int,
            ) <= usize::MAX,
        ensures
            r == server_crypto_len(
                self.depth() as int,
                self.mu_cs as int,
                self.kappa_cs as int,
                rho as int,
            ),
    {
        proof {
            assert forall|leaves: int| #[trigger]
                is_leaf_count(self.n_servers as int, leaves) implies leaves == self.n_leaves by {
                lemma_leaf_count_unique(self.n_servers as int, leaves, self.n_leaves as int);
            }
        }
        aggregated_server_crypto_len_for(self.n_servers, self.mu_cs, self.kappa_cs, rho)
    }
}

/// The number of leaves is determined by the number of entries.
pub proof fn lemma_leaf_count_unique(n: int, a: int, b: int)
    requires
        is_leaf_count(n, a),
        is_leaf_count(n, b),
    ensures
        a == b,
{
    if a < b {
        lemma_power_gap(log2(a), log2(b));
    } else if b < a {
        lemma_power_gap(log2(b), log2(a));
    }
}

proof fn lemma_power_gap(i: nat, j: nat)
    requires
        pow2(i) < pow2(j),
    ensures
        2 * pow2(i) <= pow2(j),
{
    if j <= i {
        lemma_pow2_monotonic(j, i);
    } else {
        lemma_pow2_monotonic(i + 1, j);
        lemma_pow2_adds(i, 1);
        lemma2_to64();
    }
}

// ---------------------------------------------------------------
// Layout
// ---------------------------------------------------------------

/// A packed polynomial is one number, least significant byte first, whose `w`
/// lowest bits are the first coefficient plus the bound, the next `w` the second
/// one's, and so on; `w` is the length of `2 * bound + 1` in binary.
pub proof fn law_coefficients_lie_in_order(c: Seq<i32>, bound: u32, w: nat, i: int)
    requires
        c.len() == N,
        forall|j: int| 0 <= j < N ==> -bound <= #[trigger] c[j] <= bound,
        w >= 1,
        pow2((w - 1) as nat) <= 2 * bound + 1 < pow2(w),
        0 <= i < N,
    ensures
        poly_bytes(c, bound as int).len() == (2048 * w + 7) / 8,
        (le_value(poly_bytes(c, bound as int)) / pow2(w * (i as nat))) % pow2(w) == c[i] + bound,
{
    let b = bound as int;
    assert(in_range(c, b));
    lemma_width_of(b, w);
    lemma_le_len(stream(offset(c, b), w), packed_len(N as int, w as int) as nat);
    crate::bits::lemma_offset_fits(c, b, w);
    crate::bits::lemma_packed_digit(offset(c, b), w, i);
}

/// The same of wide coefficients.
pub proof fn law_wide_coefficients_lie_in_order(c: Seq<i64>, bound: u64, w: nat, i: int)
    requires
        c.len() == N,
        forall|j: int| 0 <= j < N ==> -bound <= #[trigger] c[j] <= bound,
        w >= 1,
        pow2((w - 1) as nat) <= 2 * bound + 1 < pow2(w),
        0 <= i < N,
    ensures
        poly_bytes64(c, bound as int).len() == (2048 * w + 7) / 8,
        (le_value(poly_bytes64(c, bound as int)) / pow2(w * (i as nat))) % pow2(w) == c[i] + bound,
{
    let b = bound as int;
    assert(crate::bits::in_range64(c, b));
    lemma_width_of(b, w);
    lemma_le_len(stream(offset64(c, b), w), packed_len(N as int, w as int) as nat);
    crate::bits::lemma_offset64_fits(c, b, w);
    crate::bits::lemma_packed_digit(offset64(c, b), w, i);
}

/// Reading takes the same bits, less the bound.
pub proof fn law_coefficients_are_read_in_order(s: Seq<u8>, bound: u32, w: nat, i: int)
    requires
        bound <= 0x2000_0000,
        w >= 1,
        pow2((w - 1) as nat) <= 2 * bound + 1 < pow2(w),
        0 <= i < N,
    ensures
        poly_value(s, bound as int)[i] == (le_value(s) / pow2(w * (i as nat))) % pow2(w) - bound,
{
    let b = bound as int;
    lemma_width_of(b, w);
    vstd::arithmetic::power2::lemma_pow2_pos(w);
    let v = (le_value(s) / pow2(w * (i as nat))) % pow2(w);
    assert(pow2(w) == 2 * pow2((w - 1) as nat)) by {
        lemma_pow2_adds((w - 1) as nat, 1);
        lemma2_to64();
    }
    assert(0 <= v < 4 * b + 3);
}

/// The polynomials of a run stand side by side, in order.
pub proof fn law_runs_are_side_by_side(s: Seq<Seq<i32>>, bound: u32, j: int)
    requires
        forall|i: int| 0 <= i < s.len() ==> (#[trigger] s[i]).len() == N,
        0 <= j < s.len(),
    ensures
        run_bytes(s, bound as int).len() == s.len() * poly_len(bound as int),
        run_bytes(s, bound as int).subrange(
            j * poly_len(bound as int),
            (j + 1) * poly_len(bound as int),
        ) == poly_bytes(s[j], bound as int),
    decreases s.len(),
{
    let (b, l, low) = (bound as int, poly_len(bound as int), s.drop_last());
    let n = low.len() as int;
    lemma_run_len(low, bound);
    lemma_run_len(s, bound);
    lemma_le_len(
        stream(offset(s.last(), b), width_of(b)),
        packed_len(N as int, width_of(b) as int) as nat,
    );
    lemma_has_width(bound as u64);
    assert(l >= 0);
    assert((n + 1) * l == n * l + l) by (nonlinear_arith);
    assert((j + 1) * l == j * l + l) by (nonlinear_arith);
    assert(0 <= j * l <= n * l) by (nonlinear_arith)
        requires
            0 <= j <= n,
            l >= 0,
    ;
    let all = run_bytes(s, b);
    if j == n {
        assert(all.subrange(j * l, (j + 1) * l) =~= poly_bytes(s[j], b));
    } else {
        assert forall|i: int| 0 <= i < low.len() implies (#[trigger] low[i]).len() == N by {
            assert(low[i] == s[i]);
        }
        law_runs_are_side_by_side(low, bound, j);
        assert((j + 1) * l <= n * l) by (nonlinear_arith)
            requires
                j + 1 <= n,
                l >= 0,
        ;
        assert(all.subrange(j * l, (j + 1) * l) =~= run_bytes(low, b).subrange(
            j * l,
            (j + 1) * l,
        ));
    }
}

proof fn lemma_run_len(s: Seq<Seq<i32>>, bound: u32)
    requires
        forall|i: int| 0 <= i < s.len() ==> (#[trigger] s[i]).len() == N,
    ensures
        run_bytes(s, bound as int).len() == s.len() * poly_len(bound as int),
    decreases s.len(),
{
    let (b, l) = (bound as int, poly_len(bound as int));
    if s.len() == 0 {
        assert(0 * l == 0);
    } else {
        let low = s.drop_last();
        assert forall|i: int| 0 <= i < low.len() implies (#[trigger] low[i]).len() == N by {
            assert(low[i] == s[i]);
        }
        lemma_run_len(low, bound);
        lemma_le_len(
            stream(offset(s.last(), b), width_of(b)),
            packed_len(N as int, width_of(b) as int) as nat,
        );
        lemma_has_width(bound as u64);
        let n = low.len() as int;
        assert((n + 1) * l == n * l + l) by (nonlinear_arith);
    }
}

/// A packed opening starts with eight numbers of four bytes each, least
/// significant byte first; the payload follows.
pub proof fn law_opening_fields(p: PackedOpening)
    ensures
        ({
            let (d, word) = (
                packed_wire(p),
                |i: int| le_value(packed_wire(p).subrange(4 * i, 4 * i + 4)),
            );
            &&& d.len() == 32 + p.bytes.len()
            &&& word(0) == p.server_index
            &&& word(1) == p.path_index
            &&& word(2) == p.kappa_cs
            &&& word(3) == p.mu_cs
            &&& word(4) == p.stored_path_len
            &&& word(5) == p.r_bound
            &&& word(6) == p.s_bound
            &&& word(7) == p.tree_bound
            &&& d.skip(32) == p.bytes@
        }),
{
    lemma_header_len(p);
    lemma_reads_own(p);
    let w = header_words(p);
    assert(w[0] == p.server_index && w[1] == p.path_index && w[2] == p.kappa_cs && w[3] == p.mu_cs
        && w[4] == p.stored_path_len && w[5] == p.r_bound && w[6] == p.s_bound && w[7]
        == p.tree_bound);
}

/// The bound for a sum is that of its parts together, or the cap if that is
/// lower.
pub proof fn law_sum_bounds(rho: int, fresh: int, cap: int)
    ensures
        capped(rho, fresh, cap) <= rho * fresh,
        capped(rho, fresh, cap) <= cap,
        capped(rho, fresh, cap) == rho * fresh || capped(rho, fresh, cap) == cap,
{
}

/// A header is refused exactly if a vector would be empty or a dimension is past
/// the limit.
pub proof fn law_headers_refused(p: PackedOpening)
    ensures
        bad_header(p) <==> !(1 <= p.kappa_cs <= MAX_OPENING_DIM && 1 <= p.mu_cs <= MAX_OPENING_DIM
            && p.stored_path_len <= MAX_OPENING_DIM),
{
}

} // verus!
