//! Systematic Reed-Solomon coding of ciphertexts. Every channel of a polynomial
//! is coded independently, value by value.

use crate::bytes::{le_bytes, le_value, lemma_le_len, lemma_le_round_trip, push_le, read_le};
use crate::field::{
    self, cong, distinct_mod, interpolate, is_prime, lagrange_weight, mul_mod, others_product,
    pow_mod, sum,
};
use crate::negacyclic::{center_i64, centered, rem_euclid_i64, Coeffs, N};
use crate::ntt;
use crate::primes;
use crate::rings::{
    zero_words, DgtNTTPoly, KahePoly, DGT_MODULUS, KAHE_MODULUS, RS_MODULUS, RS_MODULUS_0, RS_MODULUS_1,
};
use vstd::arithmetic::div_mod::{lemma_fundamental_div_mod, lemma_mod_bound};
use vstd::arithmetic::power::{lemma_pow_mod_noop, pow};
use vstd::prelude::*;

verus! {

/// A polynomial held as residues modulo one or more primes.
pub trait Coded: Sized + Copy {
    /// Every residue is canonical.
    spec fn canonical(&self) -> bool;

    /// Number of channels.
    spec fn channels() -> int;

    /// Prime modulus of channel `c`.
    spec fn modulus(c: int) -> int;

    /// Residue `i` of channel `c`.
    spec fn residue(&self, c: int, i: int) -> int;

    proof fn lemma_moduli(c: int)
        requires
            0 <= c < Self::channels(),
        ensures
            is_prime(Self::modulus(c)),
            RS_MODULUS_1 <= Self::modulus(c) < 0x4000_0000_0000_0000,
    ;

    proof fn lemma_residues(&self, c: int, i: int)
        requires
            self.canonical(),
            0 <= c < Self::channels(),
            0 <= i < N,
        ensures
            0 <= self.residue(c, i) < Self::modulus(c),
    ;

    fn channel_count() -> (r: usize)
        ensures
            r == Self::channels(),
    ;

    fn channel_modulus(c: usize) -> (r: u64)
        requires
            c < Self::channels(),
        ensures
            r == Self::modulus(c as int),
    ;

    fn zero() -> (r: Self)
        ensures
            r.canonical(),
            forall|c: int, i: int|
                0 <= c < Self::channels() && 0 <= i < N ==> #[trigger] r.residue(c, i) == 0,
    ;

    fn get(&self, c: usize, i: usize) -> (r: u64)
        requires
            c < Self::channels(),
            i < N,
        ensures
            r == self.residue(c as int, i as int),
    ;

    fn put(&mut self, c: usize, i: usize, v: u64)
        requires
            c < Self::channels(),
            i < N,
            v < Self::modulus(c as int),
        ensures
            old(self).canonical() ==> final(self).canonical(),
            forall|d: int, j: int|
                0 <= d < Self::channels() && 0 <= j < N ==> #[trigger] final(self).residue(d, j)
                    == (if d == c && j == i {
                    v as int
                } else {
                    old(self).residue(d, j)
                }),
    ;
}

impl Coded for DgtNTTPoly {
    open spec fn canonical(&self) -> bool {
        self.wf()
    }

    open spec fn channels() -> int {
        1
    }

    open spec fn modulus(c: int) -> int {
        DGT_MODULUS as int
    }

    open spec fn residue(&self, c: int, i: int) -> int {
        self@[i]
    }

    proof fn lemma_moduli(c: int) {
        primes::lemma_dgt_modulus_prime();
    }

    proof fn lemma_residues(&self, c: int, i: int) {
    }

    fn channel_count() -> (r: usize) {
        1
    }

    fn channel_modulus(c: usize) -> (r: u64) {
        DGT_MODULUS
    }

    fn zero() -> (r: Self) {
        DgtNTTPoly::default()
    }

    fn get(&self, c: usize, i: usize) -> (r: u64) {
        self.coeffs[i]
    }

    fn put(&mut self, c: usize, i: usize, v: u64) {
        let ghost before = *self;
        self.coeffs[i] = v;
        proof {
            if before.wf() {
                assert forall|j: int| 0 <= j < N implies 0 <= #[trigger] self@[j] < DGT_MODULUS by {
                    assert(0 <= before@[j] < DGT_MODULUS);
                }
            }
        }
    }
}

/// An element of the two-channel ring: its values at the roots of each channel, in
/// canonical residues.
#[derive(Debug, Clone, Copy)]
pub struct RsNTTPoly {
    pub first: [u32; N],
    pub second: [u32; N],
}

impl Coded for RsNTTPoly {
    open spec fn canonical(&self) -> bool {
        &&& forall|i: int| 0 <= i < N ==> #[trigger] self.first[i] < RS_MODULUS_0
        &&& forall|i: int| 0 <= i < N ==> #[trigger] self.second[i] < RS_MODULUS_1
    }

    open spec fn channels() -> int {
        2
    }

    open spec fn modulus(c: int) -> int {
        if c == 0 {
            RS_MODULUS_0 as int
        } else {
            RS_MODULUS_1 as int
        }
    }

    open spec fn residue(&self, c: int, i: int) -> int {
        if c == 0 {
            self.first[i] as int
        } else {
            self.second[i] as int
        }
    }

    proof fn lemma_moduli(c: int) {
        primes::lemma_rs_modulus0_prime();
        primes::lemma_rs_modulus1_prime();
    }

    proof fn lemma_residues(&self, c: int, i: int) {
        assert(self.first[i] < RS_MODULUS_0 && self.second[i] < RS_MODULUS_1);
    }

    fn channel_count() -> (r: usize) {
        2
    }

    fn channel_modulus(c: usize) -> (r: u64) {
        if c == 0 {
            RS_MODULUS_0 as u64
        } else {
            RS_MODULUS_1 as u64
        }
    }

    fn zero() -> (r: Self) {
        RsNTTPoly::default()
    }

    fn get(&self, c: usize, i: usize) -> (r: u64) {
        if c == 0 {
            self.first[i] as u64
        } else {
            self.second[i] as u64
        }
    }

    fn put(&mut self, c: usize, i: usize, v: u64) {
        let ghost before = *self;
        if c == 0 {
            self.first[i] = v as u32;
        } else {
            self.second[i] = v as u32;
        }
        proof {
            if before.canonical() {
                assert forall|j: int| 0 <= j < N implies #[trigger] self.first[j] < RS_MODULUS_0 by {
                    assert(before.first[j] < RS_MODULUS_0);
                }
                assert forall|j: int| 0 <= j < N implies #[trigger] self.second[j]
                    < RS_MODULUS_1 by {
                    assert(before.second[j] < RS_MODULUS_1);
                }
            }
        }
    }
}

impl Default for RsNTTPoly {
    fn default() -> (r: Self)
        ensures
            r.canonical(),
            forall|i: int| 0 <= i < N ==> #[trigger] r.first[i] == 0,
            forall|i: int| 0 <= i < N ==> #[trigger] r.second[i] == 0,
    {
        let zeros: [u32; N] = zero_words();
        RsNTTPoly { first: zeros, second: zeros }
    }
}

impl PartialEq for RsNTTPoly {
    fn eq(&self, other: &Self) -> (r: bool) {
        for i in 0..N
            invariant
                forall|j: int| 0 <= j < i ==> #[trigger] self.first[j] == other.first[j],
                forall|j: int| 0 <= j < i ==> #[trigger] self.second[j] == other.second[j],
        {
            if self.first[i] != other.first[i] || self.second[i] != other.second[i] {
                return false;
            }
        }
        assert(self.first@ =~= other.first@);
        assert(self.second@ =~= other.second@);
        true
    }
}

impl vstd::std_specs::cmp::PartialEqSpecImpl for RsNTTPoly {
    open spec fn obeys_eq_spec() -> bool {
        true
    }

    open spec fn eq_spec(&self, other: &Self) -> bool {
        self.first@ == other.first@ && self.second@ == other.second@
    }
}

impl Eq for RsNTTPoly {

}

/// Inverse of the first channel modulus modulo the second.
const PREFIX_INVERSE: u64 = 16_735_576;

/// The integer in `[0, q0 * q1)` with residues `a` and `b`.
fn lift_residues(a: u32, b: u32) -> (r: i64)
    requires
        a < RS_MODULUS_0,
        b < RS_MODULUS_1,
    ensures
        0 <= r < RS_MODULUS,
        r as int % (RS_MODULUS_0 as int) == a,
        r as int % (RS_MODULUS_1 as int) == b,
{
    let q1: u64 = RS_MODULUS_1 as u64;
    let delta: u64 = (b as u64 + 2 * q1 - a as u64) % q1;
    let digit: u64 = mul_mod(delta, PREFIX_INVERSE, q1);
    let r: i64 = a as i64 + RS_MODULUS_0 as i64 * digit as i64;
    proof {
        let (p0, p1) = (RS_MODULUS_0 as int, RS_MODULUS_1 as int);
        field::lemma_cong_multiple(a as int, digit as int, p0);
        field::lemma_small(a as int, p0);
        // q0 * digit = q0 * inverse * delta = delta (mod q1)
        field::lemma_cong_mod(delta * PREFIX_INVERSE, p1);
        field::lemma_cong_ops(p0, p0, digit as int, delta * PREFIX_INVERSE, p1);
        assert(p0 * (delta * PREFIX_INVERSE) == delta * (p0 * PREFIX_INVERSE)) by (nonlinear_arith);
        assert(cong(p0 * PREFIX_INVERSE, 1, p1));
        field::lemma_cong_ops(delta as int, delta as int, p0 * PREFIX_INVERSE, 1, p1);
        let wide = b as int + 2 * p1 - a as int;
        field::lemma_cong_mod(wide, p1);
        field::lemma_cong_multiple(b as int - a as int, 2, p1);
        field::lemma_cong_ops(a as int, a as int, p0 * digit, b as int - a as int, p1);
        field::lemma_small(b as int, p1);
        assert(p0 * digit <= p0 * (p1 - 1)) by (nonlinear_arith)
            requires
                digit <= p1 - 1,
                p0 > 0,
        ;
    }
    r
}

/// A root of `X^2048 + 1` modulo the first channel modulus.
pub const RS_PSI_0: u64 = 13290827;

/// A root of `X^2048 + 1` modulo the second channel modulus.
pub const RS_PSI_1: u64 = 8043402;

/// The channels have their transforms.
proof fn lemma_channel_roots()
    ensures
        ntt::is_root(RS_PSI_0 as int, RS_MODULUS_0 as int),
        ntt::is_root(RS_PSI_1 as int, RS_MODULUS_1 as int),
{
    primes::lemma_rs_modulus0_prime();
    primes::lemma_rs_modulus1_prime();
    primes::lemma_rs0_root();
    primes::lemma_rs1_root();
}

impl RsNTTPoly {
    /// The values of a channel.
    pub open spec fn channel(&self, c: int) -> Coeffs {
        Seq::new(N as nat, |i: int| self.residue(c, i))
    }

    /// The root a channel's values are taken at powers of.
    pub open spec fn psi(c: int) -> int {
        if c == 0 {
            RS_PSI_0 as int
        } else {
            RS_PSI_1 as int
        }
    }

    /// The element whose values a channel holds.
    pub open spec fn poly(&self, c: int) -> Coeffs {
        ntt::coefficients_of(Self::psi(c), Self::modulus(c), self.channel(c))
    }

    /// The channel holds the values of `p`.
    pub open spec fn holds(&self, c: int, p: Coeffs) -> bool {
        ntt::is_transform(Self::psi(c), Self::modulus(c), p, self.channel(c))
    }

    /// A ciphertext element's centered coefficients, in a channel.
    pub open spec fn embedding(p: Coeffs, c: int) -> Coeffs {
        Seq::new(N as nat, |i: int| centered(p[i], KAHE_MODULUS as int) % Self::modulus(c))
    }

    /// The values of a ciphertext element's centered coefficients.
    pub fn from_kahe(poly: &KahePoly) -> (r: Self)
        ensures
            r.canonical(),
            r.holds(0, Self::embedding(poly@, 0)),
            r.holds(1, Self::embedding(poly@, 1)),
            r.poly(0) == Self::embedding(poly@, 0),
            r.poly(1) == Self::embedding(poly@, 1),
    {
        let mut first: [u64; N] = [0u64; N];
        let mut second: [u64; N] = [0u64; N];
        for i in 0..N
            invariant
                forall|j: int|
                    0 <= j < i ==> #[trigger] first@[j] == Self::embedding(poly@, 0)[j] && first@[j]
                        < RS_MODULUS_0,
                forall|j: int|
                    0 <= j < i ==> #[trigger] second@[j] == Self::embedding(poly@, 1)[j]
                        && second@[j] < RS_MODULUS_1,
        {
            assert(poly@[i as int] == poly.coeffs[i as int]);
            let v: i64 = center_i64(poly.coeffs[i], KAHE_MODULUS);
            first[i] = rem_euclid_i64(v, RS_MODULUS_0 as i64) as u64;
            second[i] = rem_euclid_i64(v, RS_MODULUS_1 as i64) as u64;
        }
        proof {
            lemma_channel_roots();
            assert(ntt::words(first@) =~= Self::embedding(poly@, 0));
            assert(ntt::words(second@) =~= Self::embedding(poly@, 1));
        }
        let x: [u64; N] = ntt::transform::<16_760_833>(RS_PSI_0, &first);
        let y: [u64; N] = ntt::transform::<16_736_257>(RS_PSI_1, &second);
        let mut r = RsNTTPoly::default();
        for i in 0..N
            invariant
                r.canonical(),
                ntt::reduced(x@, RS_MODULUS_0 as int),
                ntt::reduced(y@, RS_MODULUS_1 as int),
                forall|j: int| 0 <= j < i ==> #[trigger] r.first[j] == x@[j],
                forall|j: int| 0 <= j < i ==> #[trigger] r.second[j] == y@[j],
        {
            assert(x@[i as int] < RS_MODULUS_0 && y@[i as int] < RS_MODULUS_1);
            let ghost before = r;
            r.first[i] = x[i] as u32;
            r.second[i] = y[i] as u32;
            proof {
                assert forall|j: int| 0 <= j < N implies #[trigger] r.first[j] < RS_MODULUS_0 && (j
                    < i + 1 ==> r.first[j] == x@[j]) by {
                    assert(before.first[j] < RS_MODULUS_0);
                }
                assert forall|j: int| 0 <= j < N implies #[trigger] r.second[j] < RS_MODULUS_1 && (j
                    < i + 1 ==> r.second[j] == y@[j]) by {
                    assert(before.second[j] < RS_MODULUS_1);
                }
            }
        }
        proof {
            assert(r.channel(0) =~= ntt::words(x@)) by {
                assert forall|j: int| 0 <= j < N implies r.channel(0)[j] == ntt::words(x@)[j] by {
                    assert(r.first[j] == x@[j]);
                }
            }
            assert(r.channel(1) =~= ntt::words(y@)) by {
                assert forall|j: int| 0 <= j < N implies r.channel(1)[j] == ntt::words(y@)[j] by {
                    assert(r.second[j] == y@[j]);
                }
            }
            ntt::lemma_coefficients(
                RS_PSI_0 as int,
                RS_MODULUS_0 as int,
                Self::embedding(poly@, 0),
                r.channel(0),
            );
            ntt::lemma_coefficients(
                RS_PSI_1 as int,
                RS_MODULUS_1 as int,
                Self::embedding(poly@, 1),
                r.channel(1),
            );
        }
        r
    }

    /// The centered integers modulo the product of the channel moduli.
    pub fn to_centered_coeffs(&self) -> (r: [i64; N])
        requires
            self.canonical(),
        ensures
            forall|i: int|
                0 <= i < N ==> {
                    &&& -(RS_MODULUS / 2) <= #[trigger] r[i] <= RS_MODULUS / 2
                    &&& forall|c: int|
                        0 <= c < 2 ==> r[i] as int % #[trigger] RsNTTPoly::modulus(c)
                            == self.poly(c)[i]
                },
    {
        let mut x: [u64; N] = [0u64; N];
        let mut y: [u64; N] = [0u64; N];
        for i in 0..N
            invariant
                self.canonical(),
                forall|j: int| 0 <= j < i ==> #[trigger] x@[j] == self.first[j] && x@[j] < RS_MODULUS_0,
                forall|j: int|
                    0 <= j < i ==> #[trigger] y@[j] == self.second[j] && y@[j] < RS_MODULUS_1,
        {
            assert(self.first[i as int] < RS_MODULUS_0 && self.second[i as int] < RS_MODULUS_1);
            x[i] = self.first[i] as u64;
            y[i] = self.second[i] as u64;
        }
        proof {
            lemma_channel_roots();
            assert(ntt::words(x@) =~= self.channel(0));
            assert(ntt::words(y@) =~= self.channel(1));
        }
        let a: [u64; N] = ntt::restore::<16_760_833>(RS_PSI_0, &x);
        let b: [u64; N] = ntt::restore::<16_736_257>(RS_PSI_1, &y);
        proof {
            ntt::lemma_coefficients(
                RS_PSI_0 as int,
                RS_MODULUS_0 as int,
                ntt::words(a@),
                self.channel(0),
            );
            ntt::lemma_coefficients(
                RS_PSI_1 as int,
                RS_MODULUS_1 as int,
                ntt::words(b@),
                self.channel(1),
            );
        }
        let mut out: [i64; N] = [0i64; N];
        for i in 0..N
            invariant
                ntt::reduced(a@, RS_MODULUS_0 as int),
                ntt::reduced(b@, RS_MODULUS_1 as int),
                self.poly(0) == ntt::words(a@),
                self.poly(1) == ntt::words(b@),
                forall|j: int|
                    0 <= j < i ==> {
                        &&& -(RS_MODULUS / 2) <= #[trigger] out[j] <= RS_MODULUS / 2
                        &&& forall|c: int|
                            0 <= c < 2 ==> out[j] as int % #[trigger] RsNTTPoly::modulus(c)
                                == self.poly(c)[j]
                    },
        {
            assert(a@[i as int] < RS_MODULUS_0 && b@[i as int] < RS_MODULUS_1);
            let v: i64 = lift_residues(a[i] as u32, b[i] as u32);
            let w: i64 = if v > RS_MODULUS / 2 {
                v - RS_MODULUS
            } else {
                v
            };
            proof {
                let (p0, p1) = (RS_MODULUS_0 as int, RS_MODULUS_1 as int);
                assert(p0 * p1 == RS_MODULUS && p1 * p0 == RS_MODULUS);
                field::lemma_cong_multiple(v as int, p1, p0);
                field::lemma_cong_multiple(v as int, p0, p1);
            }
            out[i] = w;
        }
        out
    }
}

/// One node's share: a block of polynomials.
pub type Share = Vec<DgtNTTPoly>;

// ---------------------------------------------------------------
// Wire form
// ---------------------------------------------------------------

/// Bytes of one packed polynomial: two 24-bit residues per coefficient.
pub const RS_POLY_PACKED_LEN: usize = 12_288;

/// The wire bytes of one channel of a polynomial, the first `upto` coefficients.
pub open spec fn channel_bytes(p: RsNTTPoly, c: int, upto: nat) -> Seq<u8>
    decreases upto,
{
    if upto == 0 {
        Seq::empty()
    } else {
        channel_bytes(p, c, (upto - 1) as nat) + le_bytes(p.residue(c, upto - 1) as nat, 3)
    }
}

/// The wire bytes of one channel of the first `upto` polynomials.
pub open spec fn limb_bytes(share: Seq<RsNTTPoly>, c: int, upto: nat) -> Seq<u8>
    decreases upto,
{
    if upto == 0 {
        Seq::empty()
    } else {
        limb_bytes(share, c, (upto - 1) as nat) + channel_bytes(share[upto - 1], c, N as nat)
    }
}

/// The wire bytes of a share: the first channel of every polynomial, then the
/// second.
pub open spec fn share_bytes(share: Seq<RsNTTPoly>) -> Seq<u8> {
    limb_bytes(share, 0, share.len()) + limb_bytes(share, 1, share.len())
}

proof fn lemma_channel_bytes_at(p: RsNTTPoly, c: int, upto: nat)
    ensures
        channel_bytes(p, c, upto).len() == 3 * upto,
        forall|i: int|
            0 <= i < upto ==> channel_bytes(p, c, upto).subrange(3 * i, 3 * i + 3)
                == #[trigger] le_bytes(p.residue(c, i) as nat, 3),
    decreases upto,
{
    if upto > 0 {
        let m = (upto - 1) as nat;
        lemma_channel_bytes_at(p, c, m);
        lemma_le_len(p.residue(c, m as int) as nat, 3);
        let s = channel_bytes(p, c, upto);
        assert forall|i: int| 0 <= i < upto implies s.subrange(3 * i, 3 * i + 3)
            == #[trigger] le_bytes(p.residue(c, i) as nat, 3) by {
            if i < m {
                assert(s.subrange(3 * i, 3 * i + 3) =~= channel_bytes(p, c, m).subrange(
                    3 * i,
                    3 * i + 3,
                ));
            } else {
                assert(s.subrange(3 * i, 3 * i + 3) =~= le_bytes(p.residue(c, i) as nat, 3));
            }
        }
    }
}

proof fn lemma_limb_bytes_at(share: Seq<RsNTTPoly>, c: int, upto: nat)
    requires
        upto <= share.len(),
    ensures
        limb_bytes(share, c, upto).len() == 6144 * upto,
        forall|k: int|
            0 <= k < upto ==> limb_bytes(share, c, upto).subrange(6144 * k, 6144 * k + 6144)
                == #[trigger] channel_bytes(share[k], c, N as nat),
    decreases upto,
{
    if upto > 0 {
        let m = (upto - 1) as nat;
        lemma_limb_bytes_at(share, c, m);
        lemma_channel_bytes_at(share[m as int], c, N as nat);
        let s = limb_bytes(share, c, upto);
        assert forall|k: int| 0 <= k < upto implies s.subrange(6144 * k, 6144 * k + 6144)
            == #[trigger] channel_bytes(share[k], c, N as nat) by {
            if k < m {
                assert(s.subrange(6144 * k, 6144 * k + 6144) =~= limb_bytes(share, c, m).subrange(
                    6144 * k,
                    6144 * k + 6144,
                ));
            } else {
                assert(s.subrange(6144 * k, 6144 * k + 6144) =~= channel_bytes(
                    share[k],
                    c,
                    N as nat,
                ));
            }
        }
    }
}

/// Appends a share's residues, three little-endian bytes each.
pub fn pack_share(share: &[RsNTTPoly], out: &mut Vec<u8>)
    requires
        forall|k: int| 0 <= k < share.len() ==> (#[trigger] share[k]).canonical(),
    ensures
        final(out)@ == old(out)@ + share_bytes(share@),
        share_bytes(share@).len() == share.len() * RS_POLY_PACKED_LEN,
{
    let ghost start = out@;
    for c in 0..2usize
        invariant
            out@ == start + (if c == 0 {
                Seq::empty()
            } else if c == 1 {
                limb_bytes(share@, 0, share.len() as nat)
            } else {
                share_bytes(share@)
            }),
    {
        let ghost before = out@;
        for k in 0..share.len()
            invariant
                c < 2,
                out@ == before + limb_bytes(share@, c as int, k as nat),
        {
            let ghost inner = out@;
            for i in 0..N
                invariant
                    c < 2,
                    k < share.len(),
                    out@ == inner + channel_bytes(share[k as int], c as int, i as nat),
            {
                let v: u64 = share[k].get(c, i);
                push_le(out, v, 3);
                assert(out@ =~= inner + channel_bytes(share[k as int], c as int, (i + 1) as nat));
            }
            assert(out@ =~= before + limb_bytes(share@, c as int, (k + 1) as nat));
        }
        assert(c == 0 ==> out@ =~= start + limb_bytes(share@, 0, share.len() as nat));
        assert(c == 1 ==> out@ =~= start + share_bytes(share@));
    }
    proof {
        lemma_limb_bytes_at(share@, 0, share.len() as nat);
        lemma_limb_bytes_at(share@, 1, share.len() as nat);
    }
}

/// The residue on the wire of coefficient `i` of polynomial `k` in channel `c`.
pub open spec fn wire_residue(bytes: Seq<u8>, n_polys: int, c: int, k: int, i: int) -> int {
    let at = 6144 * (c * n_polys + k) + 3 * i;
    le_value(bytes.subrange(at, at + 3)) as int
}

/// Every residue on the wire is canonical.
pub open spec fn wire_canonical(bytes: Seq<u8>, n_polys: int) -> bool {
    forall|c: int, k: int, i: int|
        0 <= c < 2 && 0 <= k < n_polys && 0 <= i < N ==> #[trigger] wire_residue(
            bytes,
            n_polys,
            c,
            k,
            i,
        ) < RsNTTPoly::modulus(c)
}

/// Inverse of [`pack_share`], for exactly `n_polys` polynomials.
pub fn unpack_share(bytes: &[u8], n_polys: usize) -> (r: Option<Vec<RsNTTPoly>>)
    ensures
        r is Some <==> bytes.len() == n_polys * RS_POLY_PACKED_LEN && wire_canonical(
            bytes@,
            n_polys as int,
        ),
        r matches Some(share) ==> share.len() == n_polys && forall|c: int, k: int, i: int|
            0 <= c < 2 && 0 <= k < n_polys && 0 <= i < N ==> #[trigger] share[k].residue(c, i)
                == wire_residue(bytes@, n_polys as int, c, k, i),
        r matches Some(share) ==> forall|k: int|
            0 <= k < n_polys ==> (#[trigger] share[k]).canonical(),
{
    match n_polys.checked_mul(RS_POLY_PACKED_LEN) {
        None => {
            return None;
        },
        Some(want) => {
            if bytes.len() != want {
                return None;
            }
        },
    }
    let mut share: Vec<RsNTTPoly> = Vec::with_capacity(n_polys);
    for k in 0..n_polys
        invariant
            bytes.len() == n_polys * RS_POLY_PACKED_LEN,
            share.len() == k,
            forall|j: int| 0 <= j < k ==> (#[trigger] share[j]).canonical(),
            forall|c: int, j: int, i: int|
                0 <= c < 2 && 0 <= j < k && 0 <= i < N ==> #[trigger] share[j].residue(c, i)
                    == wire_residue(bytes@, n_polys as int, c, j, i),
    {
        let mut p = RsNTTPoly::default();
        for i in 0..N
            invariant
                k < n_polys,
                bytes.len() == n_polys * RS_POLY_PACKED_LEN,
                p.canonical(),
                forall|c: int, j: int|
                    0 <= c < 2 && 0 <= j < i ==> #[trigger] p.residue(c, j) == wire_residue(
                        bytes@,
                        n_polys as int,
                        c,
                        k as int,
                        j,
                    ),
        {
            let a: u64 = read_le(bytes, 6144 * k + 3 * i, 3);
            let b: u64 = read_le(bytes, 6144 * (n_polys + k) + 3 * i, 3);
            assert(a == wire_residue(bytes@, n_polys as int, 0, k as int, i as int)) by {
                assert(0 * n_polys == 0);
            }
            assert(b == wire_residue(bytes@, n_polys as int, 1, k as int, i as int)) by {
                assert(1 * n_polys == n_polys);
            }
            if a >= RS_MODULUS_0 as u64 || b >= RS_MODULUS_1 as u64 {
                assert(!wire_canonical(bytes@, n_polys as int));
                return None;
            }
            p.put(0, i, a);
            p.put(1, i, b);
        }
        share.push(p);
    }
    proof {
        assert forall|c: int, k: int, i: int|
            0 <= c < 2 && 0 <= k < n_polys && 0 <= i < N implies #[trigger] wire_residue(
            bytes@,
            n_polys as int,
            c,
            k,
            i,
        ) < RsNTTPoly::modulus(c) by {
            share[k].lemma_residues(c, i);
            assert(share[k].residue(c, i) == wire_residue(bytes@, n_polys as int, c, k, i));
        }
    }
    Some(share)
}

/// Unpacking the bytes of a share gives back its residues.
pub proof fn law_share_wire_round_trip(share: Seq<RsNTTPoly>, c: int, k: int, i: int)
    requires
        forall|j: int| 0 <= j < share.len() ==> (#[trigger] share[j]).canonical(),
        0 <= c < 2,
        0 <= k < share.len(),
        0 <= i < N,
    ensures
        share_bytes(share).len() == share.len() * RS_POLY_PACKED_LEN,
        wire_residue(share_bytes(share), share.len() as int, c, k, i) == share[k].residue(c, i),
{
    let n = share.len();
    lemma_limb_bytes_at(share, 0, n);
    lemma_limb_bytes_at(share, 1, n);
    lemma_channel_bytes_at(share[k], c, N as nat);
    let all = share_bytes(share);
    let limb = limb_bytes(share, c, n);
    let at = 6144 * (c * n + k) + 3 * i;
    assert(c == 0 ==> c * n == 0);
    assert(c == 1 ==> c * n == n);
    let chan = channel_bytes(share[k], c, N as nat);
    assert(all.subrange(at, at + 3) =~= limb.subrange(6144 * k + 3 * i, 6144 * k + 3 * i + 3));
    assert(limb.subrange(6144 * k, 6144 * k + 6144) == chan);
    assert(limb.subrange(6144 * k + 3 * i, 6144 * k + 3 * i + 3) =~= chan.subrange(
        3 * i,
        3 * i + 3,
    ));
    share[k].lemma_residues(c, i);
    let v = share[k].residue(c, i) as nat;
    reveal_with_fuel(crate::bytes::byte_span, 4);
    lemma_le_round_trip(v, 3);
    assert(chan.subrange(3 * i, 3 * i + 3) == le_bytes(v, 3));
}

// ---------------------------------------------------------------
// Parameters
// ---------------------------------------------------------------

#[derive(Debug, PartialEq, Eq, Structural, Clone, Copy)]
pub enum RsError {
    NotEnoughShares,
    DuplicateIndex,
    IndexOutOfRange,
    ShareLenMismatch,
}

#[derive(Clone, Copy, Debug)]
pub struct RsParams {
    /// Blocks needed to reconstruct.
    pub k: usize,
    /// Coded shares emitted, one per node.
    pub n: usize,
}

/// Blocks of `len` polynomials split `k` ways.
pub open spec fn block_len_of(len: int, k: int) -> int {
    (len + k - 1) / k
}

impl RsParams {
    pub open spec fn wf(&self) -> bool {
        1 <= self.k <= self.n < RS_MODULUS_1
    }

    pub fn new(k: usize, n: usize) -> (r: Self)
        requires
            1 <= k <= n < RS_MODULUS_1,
        ensures
            r.k == k,
            r.n == n,
            r.wf(),
    {
        RsParams { k, n }
    }

    /// Polynomials per block; the final block is zero-padded up to it.
    pub fn block_len(&self, ctxt_len: usize) -> (r: usize)
        requires
            self.wf(),
        ensures
            r == block_len_of(ctxt_len as int, self.k as int),
            r <= ctxt_len,
    {
        let d: usize = ctxt_len / self.k;
        let m: usize = ctxt_len % self.k;
        proof {
            let (l, k) = (ctxt_len as int, self.k as int);
            lemma_fundamental_div_mod(l, k);
            lemma_mod_bound(l, k);
            let q = if m == 0 { d as int } else { d + 1 };
            let left = if m == 0 { k - 1 } else { m - 1 };
            assert(l + k - 1 == q * k + left) by (nonlinear_arith)
                requires
                    l == k * d + m,
                    q == (if m == 0 { d as int } else { d + 1 }),
                    left == (if m == 0 { k - 1 } else { m - 1 }),
            ;
            assert(0 <= left < k);
            vstd::arithmetic::div_mod::lemma_fundamental_div_mod_converse(l + k - 1, k, q, left);
            assert(q <= l) by (nonlinear_arith)
                requires
                    l == k * d + m,
                    k >= 1,
                    0 <= m,
                    d >= 0,
                    q == (if m == 0 { d as int } else { d + 1 }),
            ;
        }
        if m == 0 {
            d
        } else {
            d + 1
        }
    }
}

// ---------------------------------------------------------------
// Interpolation
// ---------------------------------------------------------------

/// The points `1..=k`.
pub open spec fn points(k: int) -> Seq<int> {
    Seq::new(k as nat, |i: int| i + 1)
}

pub open spec fn to_ints(xs: Seq<u64>) -> Seq<int> {
    xs.map(|_i: int, x: u64| x as int)
}

/// Small distinct points stay distinct modulo `q`.
pub proof fn lemma_distinct_points(xs: Seq<int>, q: int)
    requires
        q > 0,
        forall|i: int| 0 <= i < xs.len() ==> 0 <= #[trigger] xs[i] < q,
        xs.no_duplicates(),
    ensures
        distinct_mod(xs, q),
{
    assert forall|i: int, j: int| 0 <= i < xs.len() && 0 <= j < xs.len() && i != j implies !cong(
        #[trigger] xs[i],
        #[trigger] xs[j],
        q,
    ) by {
        if cong(xs[i], xs[j], q) {
            field::lemma_cong_close(xs[i], xs[j], q);
        }
    }
}

/// Product of `x - xs[j]` over `j != skip`, modulo `q`.
fn product_of_others(xs: &[u64], skip: usize, x: u64, q: u64) -> (r: u64)
    requires
        1 < q < 0x4000_0000_0000_0000,
        x < q,
        forall|j: int| 0 <= j < xs.len() ==> #[trigger] xs[j] < q,
    ensures
        r == others_product(to_ints(xs@), skip as int, x as int, xs.len() as nat) % (q as int),
        r < q,
{
    let mut acc: u64 = 1;
    let ghost gs = to_ints(xs@);
    proof {
        field::lemma_small(1, q as int);
    }
    for j in 0..xs.len()
        invariant
            1 < q < 0x4000_0000_0000_0000,
            x < q,
            gs == to_ints(xs@),
            forall|i: int| 0 <= i < xs.len() ==> #[trigger] xs[i] < q,
            acc == others_product(gs, skip as int, x as int, j as nat) % (q as int),
            acc < q,
    {
        if j != skip {
            let d: u64 = (x + (q - xs[j])) % q;
            let ghost before = acc as int;
            acc = mul_mod(acc, d, q);
            proof {
                let m = q as int;
                let t = x as int - gs[j as int];
                field::lemma_cong_multiple(t, 1, m);
                assert(m * 1 == m);
                field::lemma_cong_mod(t + m, m);
                let o = others_product(gs, skip as int, x as int, j as nat);
                field::lemma_cong_mod(o, m);
                field::lemma_cong_ops(before, o, d as int, t, m);
                field::lemma_cong_mod(before * d, m);
            }
        }
    }
    acc
}

/// The interpolation weights of `xs` at `x`, modulo `q`.
pub fn lagrange_at(xs: &[u64], x: u64, q: u64) -> (r: Vec<u64>)
    requires
        2 < q < 0x4000_0000_0000_0000,
        x < q,
        forall|j: int| 0 <= j < xs.len() ==> #[trigger] xs[j] < q,
    ensures
        r.len() == xs.len(),
        forall|i: int|
            0 <= i < xs.len() ==> #[trigger] r[i] == lagrange_weight(
                to_ints(xs@),
                i,
                x as int,
                q as int,
            ) % (q as int),
{
    let mut out: Vec<u64> = Vec::with_capacity(xs.len());
    let ghost gs = to_ints(xs@);
    for i in 0..xs.len()
        invariant
            2 < q < 0x4000_0000_0000_0000,
            x < q,
            gs == to_ints(xs@),
            forall|j: int| 0 <= j < xs.len() ==> #[trigger] xs[j] < q,
            out.len() == i,
            forall|j: int|
                0 <= j < i ==> #[trigger] out[j] == lagrange_weight(gs, j, x as int, q as int) % (
                q as int),
    {
        assert(xs[i as int] < q);
        let num: u64 = product_of_others(xs, i, x, q);
        let den: u64 = product_of_others(xs, i, xs[i], q);
        let inv: u64 = pow_mod(den, q - 2, q);
        let w: u64 = mul_mod(num, inv, q);
        proof {
            let m = q as int;
            let o = others_product(gs, i as int, x as int, gs.len());
            let d = others_product(gs, i as int, gs[i as int], gs.len());
            lemma_pow_mod_noop(d, (q - 2) as nat, m);
            field::lemma_cong_mod(o, m);
            field::lemma_cong_mod(pow(den as int, (q - 2) as nat), m);
            field::lemma_cong_mod(pow(d, (q - 2) as nat), m);
            field::lemma_cong_ops(num as int, o, inv as int, pow(d, (q - 2) as nat), m);
        }
        out.push(w);
    }
    out
}

/// The values of coefficient `i`, channel `c`, position `pos` across blocks.
pub open spec fn value_column<P: Coded>(blocks: Seq<Seq<P>>, pos: int, c: int, i: int) -> Seq<
    int,
> {
    Seq::new(blocks.len(), |b: int| blocks[b][pos].residue(c, i))
}

/// Interpolates the blocks, given at `xs`, to the point `x`.
pub open spec fn interpolated<P: Coded>(
    xs: Seq<int>,
    blocks: Seq<Seq<P>>,
    x: int,
    pos: int,
    c: int,
    i: int,
) -> int {
    interpolate(xs, value_column(blocks, pos, c, i), x, P::modulus(c)) % P::modulus(c)
}

pub open spec fn slices<P>(s: Seq<Vec<P>>) -> Seq<Seq<P>> {
    s.map(|_i: int, v: Vec<P>| v@)
}

/// One interpolated polynomial.
fn combine_at<P: Coded>(xs: &[u64], blocks: &Vec<Vec<P>>, x: u64, pos: usize) -> (r: P)
    requires
        xs.len() == blocks.len(),
        x < RS_MODULUS_1,
        forall|j: int| 0 <= j < xs.len() ==> #[trigger] xs[j] < RS_MODULUS_1,
        forall|b: int| 0 <= b < blocks.len() ==> pos < (#[trigger] blocks[b]).len(),
        forall|b: int, t: int|
            0 <= b < blocks.len() && 0 <= t < blocks[b].len() ==> (
            #[trigger] blocks[b][t]).canonical(),
    ensures
        r.canonical(),
        forall|c: int, i: int|
            0 <= c < P::channels() && 0 <= i < N ==> #[trigger] r.residue(c, i) == interpolated(
                to_ints(xs@),
                slices(blocks@),
                x as int,
                pos as int,
                c,
                i,
            ),
{
    let mut out: P = P::zero();
    let nc: usize = P::channel_count();
    let ghost (gs, gb) = (to_ints(xs@), slices(blocks@));
    for c in 0..nc
        invariant
            nc == P::channels(),
            xs.len() == blocks.len(),
            x < RS_MODULUS_1,
            gs == to_ints(xs@),
            gb == slices(blocks@),
            forall|j: int| 0 <= j < xs.len() ==> #[trigger] xs[j] < RS_MODULUS_1,
            forall|b: int| 0 <= b < blocks.len() ==> pos < (#[trigger] blocks[b]).len(),
            forall|b: int, t: int|
                0 <= b < blocks.len() && 0 <= t < blocks[b].len() ==> (
                #[trigger] blocks[b][t]).canonical(),
            out.canonical(),
            forall|d: int, i: int|
                0 <= d < c && 0 <= i < N ==> #[trigger] out.residue(d, i) == interpolated(
                    gs,
                    gb,
                    x as int,
                    pos as int,
                    d,
                    i,
                ),
    {
        let q: u64 = P::channel_modulus(c);
        proof {
            P::lemma_moduli(c as int);
            assert forall|j: int| 0 <= j < xs.len() implies #[trigger] xs[j] < q by {
                assert(xs[j] < RS_MODULUS_1);
            }
        }
        let weights: Vec<u64> = lagrange_at(xs, x, q);
        for i in 0..N
            invariant
                c < nc,
                nc == P::channels(),
                q == P::modulus(c as int),
                RS_MODULUS_1 <= q < 0x4000_0000_0000_0000,
                xs.len() == blocks.len(),
                weights.len() == xs.len(),
                gs == to_ints(xs@),
                gb == slices(blocks@),
                forall|b: int| 0 <= b < blocks.len() ==> pos < (#[trigger] blocks[b]).len(),
                forall|b: int, t: int|
                    0 <= b < blocks.len() && 0 <= t < blocks[b].len() ==> (
                    #[trigger] blocks[b][t]).canonical(),
                forall|j: int|
                    0 <= j < xs.len() ==> #[trigger] weights[j] == lagrange_weight(
                        gs,
                        j,
                        x as int,
                        q as int,
                    ) % (q as int),
                out.canonical(),
                forall|d: int, j: int|
                    0 <= d < c && 0 <= j < N ==> #[trigger] out.residue(d, j) == interpolated(
                        gs,
                        gb,
                        x as int,
                        pos as int,
                        d,
                        j,
                    ),
                forall|j: int|
                    0 <= j < i ==> #[trigger] out.residue(c as int, j) == interpolated(
                        gs,
                        gb,
                        x as int,
                        pos as int,
                        c as int,
                        j,
                    ),
        {
            let mut acc: u64 = 0;
            let ghost terms = Seq::new(
                xs.len() as nat,
                |b: int|
                    value_column(gb, pos as int, c as int, i as int)[b] * lagrange_weight(
                        gs,
                        b,
                        x as int,
                        q as int,
                    ),
            );
            proof {
                field::lemma_small(0, q as int);
                assert(terms.take(0) =~= Seq::<int>::empty());
            }
            for b in 0..blocks.len()
                invariant
                    c < nc,
                    i < N,
                    nc == P::channels(),
                    q == P::modulus(c as int),
                    RS_MODULUS_1 <= q < 0x4000_0000_0000_0000,
                    xs.len() == blocks.len(),
                    weights.len() == xs.len(),
                    gs == to_ints(xs@),
                    gb == slices(blocks@),
                    forall|a: int| 0 <= a < blocks.len() ==> pos < (#[trigger] blocks[a]).len(),
                    forall|a: int, t: int|
                        0 <= a < blocks.len() && 0 <= t < blocks[a].len() ==> (
                        #[trigger] blocks[a][t]).canonical(),
                    forall|j: int|
                        0 <= j < xs.len() ==> #[trigger] weights[j] == lagrange_weight(
                            gs,
                            j,
                            x as int,
                            q as int,
                        ) % (q as int),
                    terms == Seq::new(
                        xs.len() as nat,
                        |b: int|
                            value_column(gb, pos as int, c as int, i as int)[b] * lagrange_weight(
                                gs,
                                b,
                                x as int,
                                q as int,
                            ),
                    ),
                    acc < q,
                    acc == sum(terms.take(b as int)) % (q as int),
            {
                assert(pos < blocks[b as int].len());
                let v: u64 = blocks[b][pos].get(c, i);
                proof {
                    assert(blocks[b as int][pos as int].canonical());
                    blocks[b as int][pos as int].lemma_residues(c as int, i as int);
                }
                let t: u64 = mul_mod(v, weights[b], q);
                let ghost before = acc as int;
                acc = (acc + t) % q;
                proof {
                    let m = q as int;
                    let w = lagrange_weight(gs, b as int, x as int, m);
                    assert(terms[b as int] == v * w);
                    assert(terms.take(b + 1).drop_last() =~= terms.take(b as int));
                    field::lemma_cong_mod(w, m);
                    field::lemma_cong_ops(v as int, v as int, weights[b as int] as int, w, m);
                    field::lemma_cong_mod(v * weights[b as int], m);
                    field::lemma_cong_mod(sum(terms.take(b as int)), m);
                    field::lemma_cong_ops(
                        before,
                        sum(terms.take(b as int)),
                        t as int,
                        terms[b as int],
                        m,
                    );
                }
            }
            proof {
                assert(terms.take(xs.len() as int) =~= terms);
            }
            out.put(c, i, acc);
        }
    }
    out
}

/// Interpolates whole blocks to the point `x`.
pub fn combine<P: Coded>(xs: &[u64], blocks: &Vec<Vec<P>>, x: u64, block_len: usize) -> (r: Vec<P>)
    requires
        xs.len() == blocks.len(),
        x < RS_MODULUS_1,
        forall|j: int| 0 <= j < xs.len() ==> #[trigger] xs[j] < RS_MODULUS_1,
        forall|b: int| 0 <= b < blocks.len() ==> block_len <= (#[trigger] blocks[b]).len(),
        forall|b: int, t: int|
            0 <= b < blocks.len() && 0 <= t < blocks[b].len() ==> (
            #[trigger] blocks[b][t]).canonical(),
    ensures
        r.len() == block_len,
        forall|t: int| 0 <= t < block_len ==> (#[trigger] r[t]).canonical(),
        forall|t: int, c: int, i: int|
            0 <= t < block_len && 0 <= c < P::channels() && 0 <= i < N ==> #[trigger] r[t].residue(
                c,
                i,
            ) == interpolated(to_ints(xs@), slices(blocks@), x as int, t, c, i),
{
    let mut out: Vec<P> = Vec::with_capacity(block_len);
    for t in 0..block_len
        invariant
            xs.len() == blocks.len(),
            x < RS_MODULUS_1,
            forall|j: int| 0 <= j < xs.len() ==> #[trigger] xs[j] < RS_MODULUS_1,
            forall|b: int| 0 <= b < blocks.len() ==> block_len <= (#[trigger] blocks[b]).len(),
            forall|b: int, t: int|
                0 <= b < blocks.len() && 0 <= t < blocks[b].len() ==> (
                #[trigger] blocks[b][t]).canonical(),
            out.len() == t,
            forall|s: int| 0 <= s < t ==> (#[trigger] out[s]).canonical(),
            forall|s: int, c: int, i: int|
                0 <= s < t && 0 <= c < P::channels() && 0 <= i < N ==> #[trigger] out[s].residue(
                    c,
                    i,
                ) == interpolated(to_ints(xs@), slices(blocks@), x as int, s, c, i),
    {
        assert forall|b: int| 0 <= b < blocks.len() implies t < (#[trigger] blocks[b]).len() by {
            assert(block_len <= blocks[b].len());
        }
        let p: P = combine_at(xs, blocks, x, t);
        out.push(p);
    }
    out
}

// ---------------------------------------------------------------
// The code
// ---------------------------------------------------------------

/// Residue of position `pos` of block `b`: the ciphertext in order, then zeros.
pub open spec fn block_residue<P: Coded>(ctxt: Seq<P>, bl: int, b: int, pos: int, c: int, i: int) -> int {
    if b * bl + pos < ctxt.len() {
        ctxt[b * bl + pos].residue(c, i)
    } else {
        0
    }
}

/// The residues at one position across all `k` data blocks.
pub open spec fn data_column<P: Coded>(ctxt: Seq<P>, k: int, bl: int, pos: int, c: int, i: int) -> Seq<
    int,
> {
    Seq::new(k as nat, |b: int| block_residue(ctxt, bl, b, pos, c, i))
}

/// Residue of position `pos` of the share of node `j`: the polynomial through
/// the data blocks at `1..=k`, taken at `j + 1`.
pub open spec fn coded_residue<P: Coded>(ctxt: Seq<P>, k: int, bl: int, j: int, pos: int, c: int, i: int) -> int {
    interpolate(points(k), data_column(ctxt, k, bl, pos, c, i), j + 1, P::modulus(c)) % P::modulus(
        c,
    )
}

pub open spec fn all_canonical<P: Coded>(s: Seq<P>) -> bool {
    forall|t: int| 0 <= t < s.len() ==> (#[trigger] s[t]).canonical()
}

proof fn lemma_points(k: int, q: int)
    requires
        0 <= k < q,
    ensures
        distinct_mod(points(k), q),
{
    lemma_distinct_points(points(k), q);
}

/// The code is systematic: the share of node `j < k` is block `j`.
pub proof fn law_systematic<P: Coded>(ctxt: Seq<P>, k: int, bl: int, j: int, pos: int, c: int, i: int)
    requires
        all_canonical(ctxt),
        0 <= j < k < RS_MODULUS_1,
        bl >= 0,
        pos >= 0,
        0 <= c < P::channels(),
        0 <= i < N,
    ensures
        coded_residue(ctxt, k, bl, j, pos, c, i) == block_residue(ctxt, bl, j, pos, c, i),
{
    P::lemma_moduli(c);
    let q = P::modulus(c);
    lemma_points(k, q);
    let col = data_column(ctxt, k, bl, pos, c, i);
    field::lemma_interpolate_at_point(points(k), col, j, q);
    assert(j * bl >= 0) by (nonlinear_arith)
        requires
            j >= 0,
            bl >= 0,
    ;
    if j * bl + pos < ctxt.len() {
        ctxt[j * bl + pos].lemma_residues(c, i);
    }
    field::lemma_small(col[j], q);
}

/// What [`Rs::reconstruct`] computes at position `pos` of block `b` from the
/// shares `values` of the nodes `nodes`.
pub open spec fn recovered_residue(nodes: Seq<int>, values: Seq<int>, b: int, q: int) -> int {
    interpolate(nodes.map(|_i: int, j: int| j + 1), values, b + 1, q) % q
}

/// Any `k` distinct nodes' shares determine every data block.
pub proof fn law_any_k_reconstruct<P: Coded>(
    ctxt: Seq<P>,
    k: int,
    n: int,
    bl: int,
    nodes: Seq<int>,
    b: int,
    pos: int,
    c: int,
    i: int,
)
    requires
        all_canonical(ctxt),
        1 <= k <= n < RS_MODULUS_1,
        bl >= 0,
        nodes.len() == k,
        nodes.no_duplicates(),
        forall|t: int| 0 <= t < k ==> 0 <= #[trigger] nodes[t] < n,
        0 <= b < k,
        pos >= 0,
        0 <= c < P::channels(),
        0 <= i < N,
    ensures
        recovered_residue(
            nodes,
            Seq::new(k as nat, |t: int| coded_residue(ctxt, k, bl, nodes[t], pos, c, i)),
            b,
            P::modulus(c),
        ) == block_residue(ctxt, bl, b, pos, c, i),
{
    P::lemma_moduli(c);
    let q = P::modulus(c);
    let col = data_column(ctxt, k, bl, pos, c, i);
    let poly = field::lemma_interpolate_is_poly(points(k), col, q);
    let xs = nodes.map(|_i: int, j: int| j + 1);
    let ys = Seq::new(k as nat, |t: int| coded_residue(ctxt, k, bl, nodes[t], pos, c, i));
    assert(xs.no_duplicates()) by {
        assert forall|s: int, t: int|
            0 <= s < xs.len() && 0 <= t < xs.len() && s != t implies xs[s] != xs[t] by {
            assert(nodes[s] != nodes[t]);
        }
    }
    assert forall|t: int| 0 <= t < xs.len() implies 0 <= #[trigger] xs[t] < q by {
        assert(0 <= nodes[t] < n);
    }
    lemma_distinct_points(xs, q);
    assert forall|t: int| 0 <= t < xs.len() implies cong(
        #[trigger] ys[t],
        field::eval(poly, xs[t]),
        q,
    ) by {
        field::lemma_cong_mod(interpolate(points(k), col, nodes[t] + 1, q), q);
    }
    field::lemma_interpolation(poly, xs, ys, b + 1, q);
    law_systematic(ctxt, k, bl, b, pos, c, i);
}

/// Coding is linear: a lane-wise sum of codewords is the codeword of the sum.
pub proof fn law_coding_is_linear<P: Coded>(
    x: Seq<P>,
    y: Seq<P>,
    z: Seq<P>,
    k: int,
    bl: int,
    j: int,
    pos: int,
    c: int,
    i: int,
)
    requires
        x.len() == y.len(),
        x.len() == z.len(),
        k >= 0,
        bl >= 0,
        pos >= 0,
        0 <= c < P::channels(),
        forall|t: int|
            0 <= t < x.len() ==> #[trigger] z[t].residue(c, i) == (x[t].residue(c, i)
                + y[t].residue(c, i)) % P::modulus(c),
    ensures
        coded_residue(z, k, bl, j, pos, c, i) == (coded_residue(x, k, bl, j, pos, c, i)
            + coded_residue(y, k, bl, j, pos, c, i)) % P::modulus(c),
{
    P::lemma_moduli(c);
    let q = P::modulus(c);
    let (cx, cy, cz) = (
        data_column(x, k, bl, pos, c, i),
        data_column(y, k, bl, pos, c, i),
        data_column(z, k, bl, pos, c, i),
    );
    let ps = points(k);
    let s = Seq::new(ps.len(), |b: int| cx[b] + cy[b]);
    field::lemma_interpolate_add(ps, cx, cy, j + 1, q);
    field::lemma_small(0, q);
    assert forall|b: int| 0 <= b < cz.len() implies cong(#[trigger] cz[b], s[b], q) by {
        let t = b * bl + pos;
        assert(b * bl >= 0) by (nonlinear_arith)
            requires
                b >= 0,
                bl >= 0,
        ;
        if t < x.len() {
            assert(z[t].residue(c, i) == (x[t].residue(c, i) + y[t].residue(c, i)) % q);
            field::lemma_cong_mod(x[t].residue(c, i) + y[t].residue(c, i), q);
        }
    }
    field::lemma_interpolate_cong(ps, cz, s, j + 1, q);
    let (a, b) = (interpolate(ps, cx, j + 1, q), interpolate(ps, cy, j + 1, q));
    field::lemma_cong_mod(a, q);
    field::lemma_cong_mod(b, q);
    field::lemma_cong_ops(a % q, a, b % q, b, q);
}

/// Why sample `i` of `samples` is refused, or `None` if it is not.
pub open spec fn sample_fault<P>(params: RsParams, bl: int, samples: Seq<(usize, &[P])>, i: int) -> Option<
    RsError,
> {
    if samples[i].0 >= params.n {
        Some(RsError::IndexOutOfRange)
    } else if samples[i].1@.len() != bl {
        Some(RsError::ShareLenMismatch)
    } else if exists|j: int| 0 <= j < i && (#[trigger] samples[j]).0 == samples[i].0 {
        Some(RsError::DuplicateIndex)
    } else {
        None
    }
}

/// The first `k` samples are in range, of the right length and distinct.
pub open spec fn samples_fit<P>(params: RsParams, bl: int, samples: Seq<(usize, &[P])>) -> bool {
    &&& samples.len() >= params.k
    &&& forall|i: int|
        0 <= i < params.k ==> #[trigger] sample_fault(params, bl, samples, i) is None
}

/// The error owed on samples that do not fit: too few, else that of the first
/// sample refused.
pub open spec fn samples_refused<P>(
    params: RsParams,
    bl: int,
    samples: Seq<(usize, &[P])>,
    e: RsError,
) -> bool {
    if samples.len() < params.k {
        e == RsError::NotEnoughShares
    } else {
        exists|i: int|
            0 <= i < params.k && #[trigger] sample_fault(params, bl, samples, i) == Some(e)
                && forall|j: int|
                0 <= j < i ==> #[trigger] sample_fault(params, bl, samples, j) is None
    }
}

/// The node indices of the first `k` samples.
pub open spec fn sample_nodes<P>(samples: Seq<(usize, &[P])>, k: int) -> Seq<int> {
    Seq::new(k as nat, |i: int| samples[i].0 as int)
}

/// The residues at one position across the first `k` samples.
pub open spec fn sample_column<P: Coded>(
    samples: Seq<(usize, &[P])>,
    k: int,
    pos: int,
    c: int,
    i: int,
) -> Seq<int> {
    Seq::new(k as nat, |t: int| samples[t].1@[pos].residue(c, i))
}

/// Checks the first `k` samples.
fn check_samples<P: Coded>(params: &RsParams, bl: usize, samples: &[(usize, &[P])]) -> (r: Result<
    (),
    RsError,
>)
    ensures
        r is Ok <==> samples_fit(*params, bl as int, samples@),
        r matches Err(e) ==> samples_refused(*params, bl as int, samples@, e),
{
    if samples.len() < params.k {
        return Err(RsError::NotEnoughShares);
    }
    for i in 0..params.k
        invariant
            samples.len() >= params.k,
            forall|j: int|
                0 <= j < i ==> #[trigger] sample_fault(*params, bl as int, samples@, j) is None,
    {
        let idx: usize = samples[i].0;
        if idx >= params.n {
            assert(sample_fault(*params, bl as int, samples@, i as int) == Some(
                RsError::IndexOutOfRange,
            ));
            return Err(RsError::IndexOutOfRange);
        }
        if samples[i].1.len() != bl {
            assert(sample_fault(*params, bl as int, samples@, i as int) == Some(
                RsError::ShareLenMismatch,
            ));
            return Err(RsError::ShareLenMismatch);
        }
        for j in 0..i
            invariant
                i < params.k <= samples.len(),
                idx == samples[i as int].0,
                idx < params.n,
                samples[i as int].1@.len() == bl,
                forall|t: int| 0 <= t < j ==> (#[trigger] samples[t]).0 != idx,
                forall|j: int|
                    0 <= j < i ==> #[trigger] sample_fault(*params, bl as int, samples@, j) is None,
        {
            if samples[j].0 == idx {
                assert(samples[j as int].0 == samples[i as int].0);
                assert(sample_fault(*params, bl as int, samples@, i as int) == Some(
                    RsError::DuplicateIndex,
                ));
                return Err(RsError::DuplicateIndex);
            }
        }
    }
    Ok(())
}

/// The Reed-Solomon code.
pub struct Rs;

impl Rs {
    /// Splits `ctxt` into `k` zero-padded blocks.
    pub fn split_blocks<P: Coded>(params: &RsParams, ctxt: &[P]) -> (r: Vec<Vec<P>>)
        requires
            params.wf(),
            all_canonical(ctxt@),
            ctxt.len() + params.k <= usize::MAX,
        ensures
            r.len() == params.k,
            forall|b: int|
                0 <= b < params.k ==> (#[trigger] r[b]).len() == block_len_of(
                    ctxt.len() as int,
                    params.k as int,
                ),
            forall|b: int, t: int|
                0 <= b < params.k && 0 <= t < r[b].len() ==> (#[trigger] r[b][t]).canonical(),
            forall|b: int, t: int, c: int, i: int|
                0 <= b < params.k && 0 <= t < r[b].len() && 0 <= c < P::channels() && 0 <= i < N
                    ==> #[trigger] r[b][t].residue(c, i) == block_residue(
                    ctxt@,
                    block_len_of(ctxt.len() as int, params.k as int),
                    b,
                    t,
                    c,
                    i,
                ),
    {
        let bl: usize = params.block_len(ctxt.len());
        let mut out: Vec<Vec<P>> = Vec::with_capacity(params.k);
        let mut at: usize = 0;
        proof {
            assert(0 * bl == 0);
        }
        for b in 0..params.k
            invariant
                params.wf(),
                all_canonical(ctxt@),
                bl == block_len_of(ctxt.len() as int, params.k as int),
                bl <= ctxt.len(),
                at == (if b * bl < ctxt.len() { b * bl } else { ctxt.len() as int }),
                out.len() == b,
                forall|d: int| 0 <= d < b ==> (#[trigger] out[d]).len() == bl,
                forall|d: int, t: int|
                    0 <= d < b && 0 <= t < out[d].len() ==> (#[trigger] out[d][t]).canonical(),
                forall|d: int, t: int, c: int, i: int|
                    0 <= d < b && 0 <= t < out[d].len() && 0 <= c < P::channels() && 0 <= i < N
                        ==> #[trigger] out[d][t].residue(c, i) == block_residue(
                        ctxt@,
                        bl as int,
                        d,
                        t,
                        c,
                        i,
                    ),
        {
            let mut v: Vec<P> = Vec::with_capacity(bl);
            for t in 0..bl
                invariant
                    all_canonical(ctxt@),
                    at == (if b * bl < ctxt.len() { b * bl } else { ctxt.len() as int }),
                    at <= ctxt.len(),
                    bl <= ctxt.len(),
                    v.len() == t,
                    forall|s: int| 0 <= s < t ==> (#[trigger] v[s]).canonical(),
                    forall|s: int, c: int, i: int|
                        0 <= s < t && 0 <= c < P::channels() && 0 <= i < N
                            ==> #[trigger] v[s].residue(c, i) == block_residue(
                            ctxt@,
                            bl as int,
                            b as int,
                            s,
                            c,
                            i,
                        ),
            {
                if t < ctxt.len() - at {
                    v.push(ctxt[at + t]);
                } else {
                    v.push(P::zero());
                }
            }
            assert((b + 1) * bl == b * bl + bl) by (nonlinear_arith);
            if ctxt.len() - at <= bl {
                at = ctxt.len();
            } else {
                at = at + bl;
            }
            out.push(v);
        }
        out
    }

    /// One share per node. Shares `0..k` are the blocks themselves.
    pub fn encode<P: Coded>(params: &RsParams, ctxt: &[P]) -> (r: Vec<Vec<P>>)
        requires
            params.wf(),
            all_canonical(ctxt@),
            ctxt.len() + params.k <= usize::MAX,
        ensures
            r.len() == params.n,
            forall|j: int|
                0 <= j < params.n ==> (#[trigger] r[j]).len() == block_len_of(
                    ctxt.len() as int,
                    params.k as int,
                ),
            forall|j: int, t: int|
                0 <= j < params.n && 0 <= t < r[j].len() ==> (#[trigger] r[j][t]).canonical(),
            forall|j: int, t: int, c: int, i: int|
                0 <= j < params.n && 0 <= t < r[j].len() && 0 <= c < P::channels() && 0 <= i < N
                    ==> #[trigger] r[j][t].residue(c, i) == coded_residue(
                    ctxt@,
                    params.k as int,
                    block_len_of(ctxt.len() as int, params.k as int),
                    j,
                    t,
                    c,
                    i,
                ),
    {
        let bl: usize = params.block_len(ctxt.len());
        let blocks: Vec<Vec<P>> = Self::split_blocks(params, ctxt);
        let xs: Vec<u64> = data_points(params.k);
        let mut parity: Vec<Vec<P>> = Vec::with_capacity(params.n - params.k);
        let ghost k = params.k as int;
        for j in params.k..params.n
            invariant
                params.wf(),
                k == params.k,
                bl == block_len_of(ctxt.len() as int, k),
                xs.len() == params.k,
                blocks.len() == params.k,
                to_ints(xs@) == points(k),
                forall|i: int| 0 <= i < xs.len() ==> #[trigger] xs[i] < RS_MODULUS_1,
                forall|b: int| 0 <= b < blocks.len() ==> (#[trigger] blocks[b]).len() == bl,
                forall|b: int, t: int|
                    0 <= b < blocks.len() && 0 <= t < blocks[b].len() ==> (
                    #[trigger] blocks[b][t]).canonical(),
                forall|b: int, t: int, c: int, i: int|
                    0 <= b < blocks.len() && 0 <= t < blocks[b].len() && 0 <= c < P::channels()
                        && 0 <= i < N ==> #[trigger] blocks[b][t].residue(c, i) == block_residue(
                        ctxt@,
                        bl as int,
                        b,
                        t,
                        c,
                        i,
                    ),
                parity.len() == j - params.k,
                forall|d: int| 0 <= d < parity.len() ==> (#[trigger] parity[d]).len() == bl,
                forall|d: int, t: int|
                    0 <= d < parity.len() && 0 <= t < parity[d].len() ==> (
                    #[trigger] parity[d][t]).canonical(),
                forall|d: int, t: int, c: int, i: int|
                    0 <= d < parity.len() && 0 <= t < parity[d].len() && 0 <= c < P::channels()
                        && 0 <= i < N ==> #[trigger] parity[d][t].residue(c, i) == coded_residue(
                        ctxt@,
                        k,
                        bl as int,
                        d + k,
                        t,
                        c,
                        i,
                    ),
        {
            assert forall|b: int| 0 <= b < blocks.len() implies bl <= (
            #[trigger] blocks[b]).len() by {
                assert(blocks[b].len() == bl);
            }
            let share: Vec<P> = combine(&xs, &blocks, (j + 1) as u64, bl);
            proof {
                assert forall|t: int, c: int, i: int|
                    0 <= t < bl && 0 <= c < P::channels() && 0 <= i < N implies #[trigger] share[t].residue(
                    c,
                    i,
                ) == coded_residue(ctxt@, k, bl as int, j as int, t, c, i) by {
                    assert(value_column(slices(blocks@), t, c, i) =~= data_column(
                        ctxt@,
                        k,
                        bl as int,
                        t,
                        c,
                        i,
                    )) by {
                        assert forall|b: int| 0 <= b < k implies value_column(
                            slices(blocks@),
                            t,
                            c,
                            i,
                        )[b] == block_residue(ctxt@, bl as int, b, t, c, i) by {
                            assert(blocks[b].len() == bl);
                            assert(slices(blocks@)[b] == blocks[b]@);
                            assert(blocks[b][t].residue(c, i) == block_residue(
                                ctxt@,
                                bl as int,
                                b,
                                t,
                                c,
                                i,
                            ));
                        }
                    }
                }
            }
            parity.push(share);
        }
        let mut out: Vec<Vec<P>> = blocks;
        proof {
            assert forall|j: int, t: int, c: int, i: int|
                0 <= j < out.len() && 0 <= t < out[j].len() && 0 <= c < P::channels() && 0 <= i
                    < N implies #[trigger] out[j][t].residue(c, i) == coded_residue(
                ctxt@,
                k,
                bl as int,
                j,
                t,
                c,
                i,
            ) by {
                law_systematic(ctxt@, k, bl as int, j, t, c, i);
            }
        }
        out.append(&mut parity);
        out
    }

    /// Interpolates the `k` blocks back from any `k` samples and flattens them to
    /// `ctxt_len` polynomials. Samples past the first `k` are ignored.
    pub fn reconstruct<P: Coded>(
        params: &RsParams,
        ctxt_len: usize,
        samples: &[(usize, &[P])],
    ) -> (r: Result<Vec<P>, RsError>)
        requires
            params.wf(),
            forall|j: int|
                0 <= j < samples.len() ==> all_canonical((#[trigger] samples[j]).1@),
            ctxt_len + params.k <= usize::MAX,
        ensures
            r is Ok <==> samples_fit(
                *params,
                block_len_of(ctxt_len as int, params.k as int),
                samples@,
            ),
            r matches Err(e) ==> samples_refused(
                *params,
                block_len_of(ctxt_len as int, params.k as int),
                samples@,
                e,
            ),
            r matches Ok(flat) ==> flat.len() == ctxt_len && all_canonical(flat@),
            r matches Ok(flat) ==> forall|b: int, pos: int, c: int, i: int|
                0 <= b < params.k && 0 <= pos < block_len_of(ctxt_len as int, params.k as int) && b
                    * block_len_of(ctxt_len as int, params.k as int) + pos < ctxt_len && 0 <= c
                    < P::channels() && 0 <= i < N ==> #[trigger] flat[b * block_len_of(
                    ctxt_len as int,
                    params.k as int,
                ) + pos].residue(c, i) == recovered_residue(
                    sample_nodes(samples@, params.k as int),
                    sample_column(samples@, params.k as int, pos, c, i),
                    b,
                    P::modulus(c),
                ),
    {
        let bl: usize = params.block_len(ctxt_len);
        let ghost k = params.k as int;
        match check_samples(params, bl, samples) {
            Err(e) => {
                return Err(e);
            },
            Ok(_) => {},
        }
        let mut xs: Vec<u64> = Vec::with_capacity(params.k);
        let mut shares: Vec<Vec<P>> = Vec::with_capacity(params.k);
        let mut identity: bool = true;
        for t in 0..params.k
            invariant
                params.wf(),
                k == params.k,
                samples_fit(*params, bl as int, samples@),
                forall|j: int|
                    0 <= j < samples.len() ==> all_canonical((#[trigger] samples[j]).1@),
                xs.len() == t,
                shares.len() == t,
                forall|j: int|
                    0 <= j < t ==> #[trigger] xs[j] == samples[j].0 + 1 && xs[j] < RS_MODULUS_1,
                forall|j: int| 0 <= j < t ==> (#[trigger] shares[j])@ == samples[j].1@,
                identity ==> forall|j: int| 0 <= j < t ==> (#[trigger] samples[j]).0 == j,
        {
            assert(sample_fault(*params, bl as int, samples@, t as int) is None);
            let idx: usize = samples[t].0;
            if idx != t {
                identity = false;
            }
            xs.push(idx as u64 + 1);
            shares.push(copy_polys(samples[t].1));
        }
        let ghost gs = to_ints(xs@);
        proof {
            assert(gs =~= sample_nodes(samples@, k).map(|_i: int, j: int| j + 1));
            assert forall|b: int| 0 <= b < shares.len() implies (#[trigger] shares[b]).len()
                == bl by {
                assert(sample_fault(*params, bl as int, samples@, b) is None);
            }
            assert forall|b: int, t: int|
                0 <= b < shares.len() && 0 <= t < shares[b].len() implies (
            #[trigger] shares[b][t]).canonical() by {
                assert(all_canonical(samples[b].1@));
                assert(shares[b]@ == samples[b].1@);
            }
            assert forall|pos: int, c: int, i: int| #[trigger]
                value_column(slices(shares@), pos, c, i) == sample_column(samples@, k, pos, c, i) by {
                assert(value_column(slices(shares@), pos, c, i) =~= sample_column(
                    samples@,
                    k,
                    pos,
                    c,
                    i,
                )) by {
                    assert forall|b: int| 0 <= b < k implies value_column(
                        slices(shares@),
                        pos,
                        c,
                        i,
                    )[b] == sample_column(samples@, k, pos, c, i)[b] by {
                        assert(slices(shares@)[b] == shares[b]@);
                    }
                }
            }
            if identity {
                assert forall|b: int, pos: int, c: int, i: int|
                    0 <= b < k && 0 <= pos < bl && 0 <= c < P::channels() && 0 <= i
                        < N implies #[trigger] shares[b][pos].residue(c, i) == interpolated(
                    gs,
                    slices(shares@),
                    b + 1,
                    pos,
                    c,
                    i,
                ) by {
                    P::lemma_moduli(c);
                    let q = P::modulus(c);
                    assert forall|j: int| 0 <= j < k implies gs[j] == j + 1 by {
                        assert(samples[j].0 == j);
                    }
                    assert(gs =~= points(k));
                    lemma_points(k, q);
                    let col = value_column(slices(shares@), pos, c, i);
                    field::lemma_interpolate_at_point(gs, col, b, q);
                    assert(slices(shares@)[b] == shares[b]@);
                    assert(shares[b].len() == bl);
                    shares[b][pos].lemma_residues(c, i);
                    field::lemma_small(col[b], q);
                }
            }
        }
        let mut flat: Vec<P> = Vec::with_capacity(ctxt_len);
        proof {
            assert(0 * bl == 0);
        }
        for b in 0..params.k
            invariant
                params.wf(),
                k == params.k,
                gs == to_ints(xs@),
                xs.len() == params.k,
                shares.len() == params.k,
                forall|j: int| 0 <= j < xs.len() ==> #[trigger] xs[j] < RS_MODULUS_1,
                forall|d: int| 0 <= d < shares.len() ==> (#[trigger] shares[d]).len() == bl,
                forall|d: int, t: int|
                    0 <= d < shares.len() && 0 <= t < shares[d].len() ==> (
                    #[trigger] shares[d][t]).canonical(),
                identity ==> forall|d: int, pos: int, c: int, i: int|
                    0 <= d < k && 0 <= pos < bl && 0 <= c < P::channels() && 0 <= i < N
                        ==> #[trigger] shares[d][pos].residue(c, i) == interpolated(
                        gs,
                        slices(shares@),
                        d + 1,
                        pos,
                        c,
                        i,
                    ),
                flat.len() == b * bl,
                all_canonical(flat@),
                forall|d: int, pos: int, c: int, i: int|
                    0 <= d < b && 0 <= pos < bl && 0 <= c < P::channels() && 0 <= i < N
                        ==> #[trigger] flat[d * bl + pos].residue(c, i) == interpolated(
                        gs,
                        slices(shares@),
                        d + 1,
                        pos,
                        c,
                        i,
                    ),
        {
            let ghost before = flat@;
            let ghost added: Seq<P>;
            if identity {
                let mut part: Vec<P> = copy_polys(&shares[b]);
                proof {
                    added = part@;
                    assert(shares[b as int].len() == bl);
                    assert forall|pos: int, c: int, i: int|
                        0 <= pos < bl && 0 <= c < P::channels() && 0 <= i < N implies #[trigger] added[pos].residue(
                        c,
                        i,
                    ) == interpolated(gs, slices(shares@), b + 1, pos, c, i) by {
                        assert(shares[b as int][pos].residue(c, i) == interpolated(
                            gs,
                            slices(shares@),
                            b + 1,
                            pos,
                            c,
                            i,
                        ));
                    }
                    assert forall|t: int| 0 <= t < bl implies (#[trigger] added[t]).canonical() by {
                        assert(shares[b as int][t].canonical());
                    }
                }
                flat.append(&mut part);
            } else {
                assert forall|d: int| 0 <= d < shares.len() implies bl <= (
                #[trigger] shares[d]).len() by {
                    assert(shares[d].len() == bl);
                }
                let mut part: Vec<P> = combine(&xs, &shares, (b + 1) as u64, bl);
                proof {
                    added = part@;
                }
                flat.append(&mut part);
            }
            proof {
                assert((b + 1) * bl == b * bl + bl) by (nonlinear_arith);
                assert(flat@ =~= before + added);
                assert forall|t: int| 0 <= t < flat.len() implies (
                #[trigger] flat[t]).canonical() by {
                    if t < before.len() {
                        assert(before[t].canonical());
                    } else {
                        assert(added[t - before.len()].canonical());
                    }
                }
                assert forall|d: int, pos: int, c: int, i: int|
                    0 <= d < b + 1 && 0 <= pos < bl && 0 <= c < P::channels() && 0 <= i
                        < N implies #[trigger] flat[d * bl + pos].residue(c, i) == interpolated(
                    gs,
                    slices(shares@),
                    d + 1,
                    pos,
                    c,
                    i,
                ) by {
                    if d < b {
                        assert(d * bl + bl <= b * bl) by (nonlinear_arith)
                            requires
                                d + 1 <= b,
                                bl >= 0,
                        ;
                        assert(0 <= d * bl) by (nonlinear_arith)
                            requires
                                d >= 0,
                                bl >= 0,
                        ;
                        assert(flat[d * bl + pos] == before[d * bl + pos]);
                    } else {
                        assert(flat[d * bl + pos] == added[pos]);
                    }
                }
            }
        }
        proof {
            assert(k * bl >= ctxt_len) by {
                let (l, m) = (ctxt_len as int, ctxt_len + k - 1);
                lemma_fundamental_div_mod(m, k);
                lemma_mod_bound(m, k);
            }
        }
        flat.truncate(ctxt_len);
        Ok(flat)
    }

    /// Positional sum of one node's shares across clients.
    pub fn sum_shares<P: Coded>(shares: &[&[P]]) -> (r: Vec<P>)
        requires
            forall|j: int| 0 <= j < shares.len() ==> all_canonical((#[trigger] shares[j])@),
            forall|j: int|
                0 <= j < shares.len() ==> (#[trigger] shares[j])@.len() >= shares[0]@.len(),
        ensures
            r.len() == (if shares.len() == 0 { 0 } else { shares[0]@.len() }),
            all_canonical(r@),
            forall|pos: int, c: int, i: int|
                0 <= pos < r.len() && 0 <= c < P::channels() && 0 <= i < N
                    ==> #[trigger] r[pos].residue(c, i) == sum(
                    Seq::new(shares.len() as nat, |j: int| shares[j]@[pos].residue(c, i)),
                ) % P::modulus(c),
    {
        let mut out: Vec<P> = Vec::new();
        if shares.len() == 0 {
            return out;
        }
        let len: usize = shares[0].len();
        for pos in 0..len
            invariant
                shares.len() > 0,
                len == shares[0]@.len(),
                forall|j: int| 0 <= j < shares.len() ==> all_canonical((#[trigger] shares[j])@),
                forall|j: int|
                    0 <= j < shares.len() ==> (#[trigger] shares[j])@.len() >= shares[0]@.len(),
                out.len() == pos,
                all_canonical(out@),
                forall|p: int, c: int, i: int|
                    0 <= p < pos && 0 <= c < P::channels() && 0 <= i < N
                        ==> #[trigger] out[p].residue(c, i) == sum(
                        Seq::new(shares.len() as nat, |j: int| shares[j]@[p].residue(c, i)),
                    ) % P::modulus(c),
        {
            let mut acc: P = P::zero();
            proof {
                assert forall|c: int, i: int|
                    0 <= c < P::channels() && 0 <= i < N implies #[trigger] acc.residue(c, i)
                    == sum(
                    Seq::new(0nat, |j: int| shares[j]@[pos as int].residue(c, i)),
                ) % P::modulus(c) by {
                    P::lemma_moduli(c);
                    field::lemma_small(0, P::modulus(c));
                }
            }
            for j in 0..shares.len()
                invariant
                    pos < len,
                    len == shares[0]@.len(),
                    forall|t: int| 0 <= t < shares.len() ==> all_canonical((#[trigger] shares[t])@),
                    forall|t: int|
                        0 <= t < shares.len() ==> (#[trigger] shares[t])@.len() >= shares[0]@.len(),
                    acc.canonical(),
                    forall|c: int, i: int|
                        0 <= c < P::channels() && 0 <= i < N ==> #[trigger] acc.residue(c, i)
                            == sum(
                            Seq::new(j as nat, |t: int| shares[t]@[pos as int].residue(c, i)),
                        ) % P::modulus(c),
            {
                let s: &[P] = shares[j];
                assert(s@.len() >= shares[0]@.len());
                assert(all_canonical(s@));
                let next: P = add_polys(&acc, &s[pos]);
                proof {
                    assert forall|c: int, i: int|
                        0 <= c < P::channels() && 0 <= i < N implies #[trigger] next.residue(c, i)
                        == sum(
                        Seq::new((j + 1) as nat, |t: int| shares[t]@[pos as int].residue(c, i)),
                    ) % P::modulus(c) by {
                        P::lemma_moduli(c);
                        let q = P::modulus(c);
                        let a = Seq::new(j as nat, |t: int| shares[t]@[pos as int].residue(c, i));
                        let b = Seq::new(
                            (j + 1) as nat,
                            |t: int| shares[t]@[pos as int].residue(c, i),
                        );
                        assert(b.drop_last() =~= a);
                        assert(b.last() == s@[pos as int].residue(c, i));
                        assert(acc.residue(c, i) == sum(a) % q);
                        assert(next.residue(c, i) == (acc.residue(c, i) + b.last()) % q);
                        field::lemma_cong_mod(sum(a), q);
                        field::lemma_cong_ops(acc.residue(c, i), sum(a), b.last(), b.last(), q);
                    }
                }
                acc = next;
            }
            out.push(acc);
        }
        out
    }
}

/// The points `1..=k`.
pub fn data_points(k: usize) -> (r: Vec<u64>)
    requires
        k < RS_MODULUS_1,
    ensures
        r.len() == k,
        to_ints(r@) == points(k as int),
        forall|i: int| 0 <= i < r.len() ==> #[trigger] r[i] < RS_MODULUS_1,
{
    let mut out: Vec<u64> = Vec::with_capacity(k);
    for i in 0..k
        invariant
            k < RS_MODULUS_1,
            out.len() == i,
            forall|j: int| 0 <= j < i ==> #[trigger] out[j] == j + 1,
    {
        out.push(i as u64 + 1);
    }
    assert(to_ints(out@) =~= points(k as int));
    out
}

/// Copies a block.
pub fn copy_polys<P: Coded>(s: &[P]) -> (r: Vec<P>)
    ensures
        r@ == s@,
{
    let mut out: Vec<P> = Vec::with_capacity(s.len());
    for i in 0..s.len()
        invariant
            out@ == s@.take(i as int),
    {
        out.push(s[i]);
        assert(out@ =~= s@.take(i + 1));
    }
    assert(s@.take(s.len() as int) =~= s@);
    out
}

/// Channel-wise sum of two polynomials.
pub fn add_polys<P: Coded>(a: &P, b: &P) -> (r: P)
    requires
        a.canonical(),
        b.canonical(),
    ensures
        r.canonical(),
        forall|c: int, i: int|
            0 <= c < P::channels() && 0 <= i < N ==> #[trigger] r.residue(c, i) == (a.residue(c, i)
                + b.residue(c, i)) % P::modulus(c),
{
    let mut out: P = P::zero();
    let nc: usize = P::channel_count();
    for c in 0..nc
        invariant
            nc == P::channels(),
            a.canonical(),
            b.canonical(),
            out.canonical(),
            forall|d: int, j: int|
                0 <= d < c && 0 <= j < N ==> #[trigger] out.residue(d, j) == (a.residue(d, j)
                    + b.residue(d, j)) % P::modulus(d),
    {
        let q: u64 = P::channel_modulus(c);
        proof {
            P::lemma_moduli(c as int);
        }
        for i in 0..N
            invariant
                c < nc,
                nc == P::channels(),
                q == P::modulus(c as int),
                0 < q < 0x4000_0000_0000_0000,
                a.canonical(),
                b.canonical(),
                out.canonical(),
                forall|d: int, j: int|
                    0 <= d < c && 0 <= j < N ==> #[trigger] out.residue(d, j) == (a.residue(d, j)
                        + b.residue(d, j)) % P::modulus(d),
                forall|j: int|
                    0 <= j < i ==> #[trigger] out.residue(c as int, j) == (a.residue(c as int, j)
                        + b.residue(c as int, j)) % P::modulus(c as int),
        {
            proof {
                a.lemma_residues(c as int, i as int);
                b.lemma_residues(c as int, i as int);
            }
            let v: u64 = (a.get(c, i) + b.get(c, i)) % q;
            out.put(c, i, v);
        }
    }
    out
}

/// Whatever polynomial of degree below `k` takes the data blocks as its values
/// at `1..=k`, the share of node `j` is its value at `j + 1`.
pub proof fn law_lanes_lie_on_one_polynomial<P: Coded>(
    ctxt: Seq<P>,
    k: int,
    bl: int,
    j: int,
    pos: int,
    c: int,
    i: int,
    f: Seq<int>,
)
    requires
        1 <= k < RS_MODULUS_1,
        0 <= c < P::channels(),
        f.len() <= k,
        forall|b: int|
            0 <= b < k ==> cong(
                #[trigger] field::eval(f, b + 1),
                if b * bl + pos < ctxt.len() {
                    ctxt[b * bl + pos].residue(c, i)
                } else {
                    0
                },
                P::modulus(c),
            ),
    ensures
        coded_residue(ctxt, k, bl, j, pos, c, i) == field::eval(f, j + 1) % P::modulus(c),
{
    P::lemma_moduli(c);
    let q = P::modulus(c);
    lemma_points(k, q);
    let (xs, ys) = (points(k), data_column(ctxt, k, bl, pos, c, i));
    assert forall|b: int| 0 <= b < xs.len() implies cong(
        #[trigger] ys[b],
        field::eval(f, xs[b]),
        q,
    ) by {
        assert(cong(field::eval(f, b + 1), ys[b], q));
    }
    field::lemma_interpolation(f, xs, ys, j + 1, q);
}

/// Whatever polynomial of degree below `k` the shares of `k` distinct nodes lie
/// on, each at one more than the node's number, block `b` comes back as its
/// value at `b + 1`.
pub proof fn law_blocks_come_from_the_polynomial(
    nodes: Seq<int>,
    values: Seq<int>,
    b: int,
    q: int,
    f: Seq<int>,
)
    requires
        field::is_prime(q),
        nodes.no_duplicates(),
        values.len() == nodes.len(),
        f.len() <= nodes.len(),
        forall|t: int| 0 <= t < nodes.len() ==> 0 <= #[trigger] nodes[t] < q - 1,
        forall|t: int|
            0 <= t < nodes.len() ==> cong(
                values[t],
                field::eval(f, #[trigger] nodes[t] + 1),
                q,
            ),
    ensures
        recovered_residue(nodes, values, b, q) == field::eval(f, b + 1) % q,
{
    let xs = nodes.map(|_i: int, j: int| j + 1);
    assert(xs.no_duplicates()) by {
        assert forall|s: int, t: int|
            0 <= s < xs.len() && 0 <= t < xs.len() && s != t implies xs[s] != xs[t] by {
            assert(nodes[s] != nodes[t]);
        }
    }
    assert forall|t: int| 0 <= t < xs.len() implies 0 <= #[trigger] xs[t] < q by {
        assert(0 <= nodes[t] < q - 1);
    }
    lemma_distinct_points(xs, q);
    assert forall|t: int| 0 <= t < xs.len() implies cong(
        #[trigger] values[t],
        field::eval(f, xs[t]),
        q,
    ) by {
        assert(nodes[t] + 1 == xs[t]);
    }
    field::lemma_interpolation(f, xs, values, b + 1, q);
}

/// Blocks are as short as `k` of them can be.
pub proof fn law_blocks_are_shortest(len: int, k: int)
    requires
        len >= 0,
        k >= 1,
    ensures
        k * block_len_of(len, k) >= len,
        len > 0 ==> k * (block_len_of(len, k) - 1) < len,
        len == 0 ==> block_len_of(len, k) == 0,
{
    let b = block_len_of(len, k);
    vstd::arithmetic::div_mod::lemma_fundamental_div_mod(len + k - 1, k);
    vstd::arithmetic::div_mod::lemma_mod_bound(len + k - 1, k);
    assert(k * (b - 1) == k * b - k) by (nonlinear_arith);
    if len == 0 {
        vstd::arithmetic::div_mod::lemma_small_mod((k - 1) as nat, k as nat);
        assert(b == 0) by (nonlinear_arith)
            requires
                k * b == 0,
                k >= 1,
        ;
    }
}

/// Reconstruction is owed exactly if there are enough samples and the first `k`
/// come from known and pairwise different nodes and have the right length.
pub proof fn law_reconstruction_is_owed<P>(
    params: RsParams,
    bl: int,
    samples: Seq<(usize, &[P])>,
)
    ensures
        samples_fit(params, bl, samples) <==> {
            &&& samples.len() >= params.k
            &&& forall|i: int|
                0 <= i < params.k ==> (#[trigger] samples[i]).0 < params.n && samples[i].1@.len()
                    == bl
            &&& forall|i: int, j: int|
                0 <= i < j < params.k ==> (#[trigger] samples[i]).0 != (#[trigger] samples[j]).0
        },
{
    if samples_fit(params, bl, samples) {
        assert forall|i: int| 0 <= i < params.k implies (#[trigger] samples[i]).0 < params.n
            && samples[i].1@.len() == bl by {
            assert(sample_fault(params, bl, samples, i) is None);
        }
        assert forall|i: int, j: int| 0 <= i < j < params.k implies (#[trigger] samples[i]).0 != (
        #[trigger] samples[j]).0 by {
            assert(sample_fault(params, bl, samples, j) is None);
        }
    }
}

/// A share on the wire holds three bytes per value, least significant first: the
/// first channel of every polynomial in order, then the second.
pub proof fn law_share_bytes_layout(share: Seq<RsNTTPoly>, c: int, k: int, i: int)
    requires
        forall|j: int| 0 <= j < share.len() ==> (#[trigger] share[j]).canonical(),
        0 <= c < 2,
        0 <= k < share.len(),
        0 <= i < N,
    ensures
        ({
            let (b, at) = (share_bytes(share), 6144 * (c * share.len() + k) + 3 * i);
            b[at] + 0x100 * b[at + 1] + 0x1_0000 * b[at + 2] == share[k].residue(c, i)
        }),
{
    law_share_wire_round_trip(share, c, k, i);
    let (b, at) = (share_bytes(share), 6144 * (c * share.len() + k) + 3 * i);
    let s = b.subrange(at, at + 3);
    assert(c * share.len() >= 0) by (nonlinear_arith)
        requires
            c >= 0,
    ;
    assert(c == 0 ==> c * share.len() == 0);
    assert(c == 1 ==> c * share.len() == share.len());
    assert(RS_POLY_PACKED_LEN == 12288);
    assert(at + 3 <= b.len());
    assert(le_value(s) == s[0] + 0x100 * s[1] + 0x1_0000 * s[2]) by {
        reveal_with_fuel(le_value, 4);
    }
}

} // verus!
