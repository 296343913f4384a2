//! Ring elements: ciphertexts (`KahePoly`), shares and commitments (`CsPoly`),
//! tree labels and digits (`HVCPoly`), the digest ring (`DgtNTTPoly`) and the
//! two-channel ring of the erasure code (`RsNTTPoly`).
//!
//! `KaheNTTPoly`, `DgtNTTPoly` and `RsNTTPoly` hold values at the roots of
//! `X^2048 + 1`. The commitment modulus has no such roots: `CsNTTPoly` holds
//! canonical residues, one per coefficient.

use crate::digits::{
    base_power, digit, digits_of, lemma_base_powers, lemma_digit_bound, lemma_digits_exact,
    lemma_recomposed_linear, reach, recomposed, rest_after, split_digit,
};
use crate::field::{self, cong};
use crate::hash::{sha256, sha256_of};
use crate::negacyclic::{
    self, center_canonical_i64, center_i32, center_i64, centered, cong_poly, dot_at, product_at,
    rem_euclid_i128, rem_euclid_i64, truncated, within, Coeffs, N,
};
use crate::ntt;
use crate::primes;
use crate::random::{
    lemma_run_empty, lemma_run_push, lifted, next_signed, run, signed_values, uniform_residues,
    uniform_values,
};
use rand_chacha::ChaCha20Rng;
use vstd::prelude::*;
use vstd::std_specs::cmp::PartialEqSpec;

verus! {

/// Modulus of the commitment ring.
pub const CS_MODULUS: i32 = 139_301;

pub const CS_MODULUS_OVER_TWO: i32 = 69_650;

/// Modulus of the ciphertext ring.
pub const KAHE_MODULUS: i64 = 347_280_875_347_969;

pub const KAHE_MODULUS_OVER_TWO: i64 = 173_640_437_673_984;

/// A root of `X^2048 + 1` modulo `KAHE_MODULUS`.
pub const KAHE_PSI: u64 = 262_882_193_181_720;

/// Largest magnitude that leaves room for a reduced element in 64 bits.
pub const KAHE_ROOM: i64 = 9_223_024_755_979_427_839;

/// Modulus of the digest ring.
pub const DGT_MODULUS: u64 = 2_305_843_009_213_616_129;

/// A root of `X^2048 + 1` modulo the digest modulus.
pub const DGT_PSI: u64 = 336_264_465_743_942_051;

/// Moduli of the two channels of the erasure code.
pub const RS_MODULUS_0: u32 = 16_760_833;

pub const RS_MODULUS_1: u32 = 16_736_257;

/// Product of the two channel moduli.
pub const RS_MODULUS: i64 = 280_513_608_622_081;

/// Modulus of the tree-hash ring.
pub const HVC_MODULUS: i32 = 40_961;

pub const HVC_MODULUS_OVER_TWO: i32 = 20_480;

/// Digits of one tree-hash or commitment coefficient.
pub const HVC_WIDTH: usize = 3;

/// Largest digit magnitude.
pub const ZETA: u32 = 34;

// ---------------------------------------------------------------
// Ciphertext ring
// ---------------------------------------------------------------

/// An element of the ciphertext ring. Coefficients are representatives modulo
/// [`KAHE_MODULUS`], not necessarily canonical.
#[derive(Debug, Clone, Copy)]
pub struct KahePoly {
    pub coeffs: [i64; N],
}

impl KahePoly {
    pub open spec fn view(&self) -> Coeffs {
        negacyclic::ints(self.coeffs@)
    }

    /// Adding a reduced element stays within the machine word.
    pub open spec fn roomy(&self) -> bool {
        within(self@, KAHE_ROOM as int)
    }

    /// Every representative lies strictly between `-q` and `q`.
    pub open spec fn reduced(&self) -> bool {
        within(self@, KAHE_MODULUS - 1)
    }

    pub fn from_coeffs(coeffs: [i64; N]) -> (r: Self)
        ensures
            r.coeffs == coeffs,
    {
        KahePoly { coeffs }
    }

    /// Wraps coefficients already centered modulo `q`.
    pub fn from_signed_coeffs(coeffs: &[i64; N]) -> (r: Self)
        requires
            within(negacyclic::ints(coeffs@), KAHE_MODULUS_OVER_TWO as int),
        ensures
            r.coeffs == *coeffs,
    {
        KahePoly { coeffs: *coeffs }
    }

    pub fn coeffs(&self) -> (r: &[i64; N])
        ensures
            *r == self.coeffs,
    {
        &self.coeffs
    }

    /// Drawn residues, shifted down to centered coefficients.
    pub fn from_draws(draws: &[u64; N]) -> (r: Self)
        requires
            forall|i: int| 0 <= i < N ==> #[trigger] draws[i] < KAHE_MODULUS,
        ensures
            forall|i: int|
                0 <= i < N ==> #[trigger] r.coeffs[i] == draws[i] - KAHE_MODULUS_OVER_TWO,
            within(r@, KAHE_MODULUS_OVER_TWO as int),
    {
        let mut coeffs: [i64; N] = [0i64; N];
        for i in 0..N
            invariant
                forall|j: int| 0 <= j < N ==> #[trigger] draws[j] < KAHE_MODULUS,
                forall|j: int|
                    0 <= j < i ==> #[trigger] coeffs[j] == draws[j] - KAHE_MODULUS_OVER_TWO,
        {
            coeffs[i] = draws[i] as i64 - KAHE_MODULUS_OVER_TWO;
        }
        let r = KahePoly { coeffs };
        assert forall|i: int| 0 <= i < N implies -KAHE_MODULUS_OVER_TWO <= #[trigger] r@[i]
            <= KAHE_MODULUS_OVER_TWO by {
            assert(coeffs[i] == draws[i] - KAHE_MODULUS_OVER_TWO);
        }
        r
    }

    /// Uniform centered coefficients: residues that the generator gives, in
    /// order, each shifted down by half the modulus.
    pub fn rand_poly(rng: &mut ChaCha20Rng) -> (r: Self)
        ensures
            within(r@, KAHE_MODULUS_OVER_TWO as int),
            run(
                uniform_values(KAHE_MODULUS as int),
                *old(rng),
                lifted(r@, KAHE_MODULUS_OVER_TWO as int),
                *final(rng),
            ),
    {
        let draws: [u64; N] = uniform_residues(rng, KAHE_MODULUS as u64);
        assert forall|i: int| 0 <= i < N implies #[trigger] draws[i] < KAHE_MODULUS by {
            assert(draws@[i] < KAHE_MODULUS);
        }
        let r = Self::from_draws(&draws);
        proof {
            let vs = Seq::new(N as nat, |i: int| draws@[i] as int);
            assert forall|i: int| 0 <= i < N implies lifted(r@, KAHE_MODULUS_OVER_TWO as int)[i] == vs[i] by {
                assert(r.coeffs[i] == draws[i] - KAHE_MODULUS_OVER_TWO);
            }
            assert(lifted(r@, KAHE_MODULUS_OVER_TWO as int) =~= vs);
        }
        r
    }

    /// The product in the ring, in canonical representatives.
    pub fn schoolbook(a: &Self, b: &Self) -> (r: Self)
        ensures
            forall|k: int|
                0 <= k < N ==> #[trigger] r.coeffs[k] == product_at(a@, b@, k)
                    % (KAHE_MODULUS as int),
    {
        let mut x: KahePoly = *a;
        let mut y: KahePoly = *b;
        x.lift();
        y.lift();
        let ghost q = KAHE_MODULUS as int;
        proof {
            assert forall|i: int| 0 <= i < N implies cong(#[trigger] a@[i], x@[i], q) && 0 <= x@[i]
                < q by {
                assert(x.coeffs[i] == a@[i] % q);
                field::lemma_cong_mod(a@[i], q);
            }
            assert forall|i: int| 0 <= i < N implies cong(#[trigger] b@[i], y@[i], q) && 0 <= y@[i]
                < q by {
                assert(y.coeffs[i] == b@[i] % q);
                field::lemma_cong_mod(b@[i], q);
            }
        }
        let exact: Vec<i128> = negacyclic::multiply(
            &x.coeffs,
            &y.coeffs,
            KAHE_MODULUS - 1,
            KAHE_MODULUS - 1,
        );
        let mut coeffs: [i64; N] = [0i64; N];
        for k in 0..N
            invariant
                q == KAHE_MODULUS,
                exact.len() == N,
                cong_poly(a@, x@, q),
                cong_poly(b@, y@, q),
                forall|j: int| 0 <= j < N ==> #[trigger] exact[j] == product_at(x@, y@, j),
                forall|j: int|
                    0 <= j < k ==> #[trigger] coeffs[j] == product_at(a@, b@, j)
                        % (KAHE_MODULUS as int),
        {
            proof {
                negacyclic::lemma_product_cong(a@, b@, x@, y@, k as int, N as nat, q);
            }
            coeffs[k] = rem_euclid_i128(exact[k], KAHE_MODULUS);
        }
        KahePoly { coeffs }
    }

    /// The bytes hashed by [`KahePoly::digest`]: canonical coefficients, eight
    /// little-endian bytes each, the first `upto` of them.
    pub open spec fn digest_input(self, upto: nat) -> Seq<u8>
        decreases upto,
    {
        if upto == 0 {
            Seq::empty()
        } else {
            self.digest_input((upto - 1) as nat) + crate::bytes::le_bytes(
                (self@[upto - 1] % (KAHE_MODULUS as int)) as nat,
                8,
            )
        }
    }

    /// SHA-256 of the canonical coefficients.
    pub fn digest(&self) -> (r: [u8; 32])
        ensures
            r@ == sha256_of(self.digest_input(N as nat)),
    {
        let mut buf: Vec<u8> = Vec::with_capacity(N * 8);
        for i in 0..N
            invariant
                buf@ == self.digest_input(i as nat),
        {
            let c: i64 = rem_euclid_i64(self.coeffs[i], KAHE_MODULUS);
            crate::bytes::push_le(&mut buf, c as u64, 8);
        }
        sha256(&buf)
    }

    /// Largest coefficient magnitude.
    pub fn infinity_norm(&self) -> (r: u64)
        ensures
            within(self@, r as int),
            r == 0 || exists|i: int| 0 <= i < N && (#[trigger] self@[i] == r || self@[i] == -r),
    {
        let mut m: u64 = 0;
        for i in 0..N
            invariant
                forall|j: int| 0 <= j < i ==> -m <= #[trigger] self@[j] <= m,
                m == 0 || exists|j: int| 0 <= j < i && (#[trigger] self@[j] == m || self@[j] == -m),
        {
            let c: i64 = self.coeffs[i];
            let a: u64 = if c >= 0 {
                c as u64
            } else {
                (-(c as i128)) as u64
            };
            assert(self@[i as int] == c);
            if a > m {
                m = a;
            }
        }
        m
    }

    /// Replaces every coefficient by its canonical representative.
    pub fn lift(&mut self)
        ensures
            forall|i: int|
                0 <= i < N ==> #[trigger] final(self).coeffs[i] == old(self)@[i] % (
                KAHE_MODULUS as int),
    {
        let src: [i64; N] = self.coeffs;
        for i in 0..N
            invariant
                src == old(self).coeffs,
                forall|j: int|
                    0 <= j < i ==> #[trigger] self.coeffs[j] == src[j] as int % (
                    KAHE_MODULUS as int),
        {
            let c: i64 = src[i];
            self.coeffs[i] = rem_euclid_i64(c, KAHE_MODULUS);
        }
    }

    /// Replaces every coefficient by its canonical representative.
    pub fn lift_inplace(&mut self)
        ensures
            forall|i: int|
                0 <= i < N ==> #[trigger] final(self).coeffs[i] == old(self)@[i] % (
                KAHE_MODULUS as int),
    {
        self.lift();
    }

    /// Replaces every coefficient by its centered representative.
    pub fn normalize(&mut self)
        ensures
            forall|i: int|
                0 <= i < N ==> #[trigger] final(self).coeffs[i] == centered(
                    old(self)@[i],
                    KAHE_MODULUS as int,
                ),
    {
        let src: [i64; N] = self.coeffs;
        for i in 0..N
            invariant
                src == old(self).coeffs,
                forall|j: int|
                    0 <= j < i ==> #[trigger] self.coeffs[j] == centered(
                        src[j] as int,
                        KAHE_MODULUS as int,
                    ),
        {
            let c: i64 = src[i];
            self.coeffs[i] = center_i64(c, KAHE_MODULUS);
        }
    }
}

impl Default for KahePoly {
    fn default() -> (r: Self)
        ensures
            forall|i: int| 0 <= i < N ==> #[trigger] r.coeffs[i] == 0,
    {
        KahePoly { coeffs: [0i64; N] }
    }
}

impl PartialEq for KahePoly {
    fn eq(&self, other: &Self) -> (r: bool) {
        for i in 0..N
            invariant
                forall|j: int|
                    0 <= j < i ==> cong(#[trigger] self@[j], other@[j], KAHE_MODULUS as int),
        {
            let a: i64 = rem_euclid_i64(self.coeffs[i], KAHE_MODULUS);
            let b: i64 = rem_euclid_i64(other.coeffs[i], KAHE_MODULUS);
            assert(self@[i as int] == self.coeffs[i as int]);
            assert(other@[i as int] == other.coeffs[i as int]);
            if a != b {
                return false;
            }
        }
        true
    }
}

impl vstd::std_specs::cmp::PartialEqSpecImpl for KahePoly {
    open spec fn obeys_eq_spec() -> bool {
        true
    }

    open spec fn eq_spec(&self, other: &Self) -> bool {
        cong_poly(self@, other@, KAHE_MODULUS as int)
    }
}

impl Eq for KahePoly {

}

/// Coefficient-wise, `a + b` fits in 64 bits.
pub open spec fn kahe_sum_fits(a: KahePoly, b: KahePoly) -> bool {
    forall|i: int| 0 <= i < N ==> i64::MIN <= #[trigger] a.coeffs[i] + b.coeffs[i] <= i64::MAX
}

/// Coefficient-wise, `a - b` fits in 64 bits.
pub open spec fn kahe_difference_fits(a: KahePoly, b: KahePoly) -> bool {
    forall|i: int| 0 <= i < N ==> i64::MIN <= #[trigger] a.coeffs[i] - b.coeffs[i] <= i64::MAX
}

impl std::ops::Add for KahePoly {
    type Output = KahePoly;

    fn add(self, rhs: KahePoly) -> (r: KahePoly)
        ensures
            forall|i: int|
                0 <= i < N ==> #[trigger] r.coeffs[i] == truncated(
                    self.coeffs[i] + rhs.coeffs[i],
                    KAHE_MODULUS as int,
                ),
    {
        let mut coeffs: [i64; N] = [0i64; N];
        for i in 0..N
            invariant
                kahe_sum_fits(self, rhs),
                forall|j: int|
                    0 <= j < i ==> #[trigger] coeffs[j] == truncated(
                        self.coeffs[j] + rhs.coeffs[j],
                        KAHE_MODULUS as int,
                    ),
        {
            assert(i64::MIN <= self.coeffs[i as int] + rhs.coeffs[i as int] <= i64::MAX);
            coeffs[i] = (self.coeffs[i] + rhs.coeffs[i]) % KAHE_MODULUS;
        }
        KahePoly { coeffs }
    }
}

impl vstd::std_specs::ops::AddSpecImpl for KahePoly {
    open spec fn obeys_add_spec() -> bool {
        false
    }

    open spec fn add_req(self, rhs: KahePoly) -> bool {
        kahe_sum_fits(self, rhs)
    }

    open spec fn add_spec(self, rhs: KahePoly) -> KahePoly {
        self
    }
}

impl std::ops::Sub for KahePoly {
    type Output = KahePoly;

    fn sub(self, rhs: KahePoly) -> (r: KahePoly)
        ensures
            forall|i: int|
                0 <= i < N ==> #[trigger] r.coeffs[i] == truncated(
                    self.coeffs[i] - rhs.coeffs[i],
                    KAHE_MODULUS as int,
                ),
    {
        let mut coeffs: [i64; N] = [0i64; N];
        for i in 0..N
            invariant
                kahe_difference_fits(self, rhs),
                forall|j: int|
                    0 <= j < i ==> #[trigger] coeffs[j] == truncated(
                        self.coeffs[j] - rhs.coeffs[j],
                        KAHE_MODULUS as int,
                    ),
        {
            assert(i64::MIN <= self.coeffs[i as int] - rhs.coeffs[i as int] <= i64::MAX);
            coeffs[i] = (self.coeffs[i] - rhs.coeffs[i]) % KAHE_MODULUS;
        }
        KahePoly { coeffs }
    }
}

impl vstd::std_specs::ops::SubSpecImpl for KahePoly {
    open spec fn obeys_sub_spec() -> bool {
        false
    }

    open spec fn sub_req(self, rhs: KahePoly) -> bool {
        kahe_difference_fits(self, rhs)
    }

    open spec fn sub_spec(self, rhs: KahePoly) -> KahePoly {
        self
    }
}

pub open spec fn small_ints(c: Seq<i32>) -> Coeffs {
    c.map(|_i: int, x: i32| x as int)
}

/// Coefficient-wise centered representatives.
pub open spec fn centered_poly(c: Coeffs, m: int) -> Coeffs {
    Seq::new(c.len(), |i: int| centered(c[i], m))
}

pub proof fn lemma_centered_poly(c: Coeffs, m: int)
    requires
        m > 1,
    ensures
        cong_poly(centered_poly(c, m), c, m),
        within(centered_poly(c, m), m / 2),
{
    assert forall|i: int| 0 <= i < c.len() implies cong(
        #[trigger] centered_poly(c, m)[i],
        c[i],
        m,
    ) && -(m / 2) <= centered_poly(c, m)[i] <= m / 2 by {
        negacyclic::lemma_centered(c[i], m);
    }
}

/// The coefficient vectors of a sequence of tree-ring elements.
pub open spec fn views(s: Seq<HVCPoly>) -> Seq<Coeffs> {
    s.map(|_i: int, p: HVCPoly| p@)
}

/// Coefficient `i` of every element.
pub open spec fn column(s: Seq<Coeffs>, i: int) -> Seq<int> {
    s.map(|_d: int, p: Coeffs| p[i])
}

/// The digit polynomials of `c`, whose coefficients are centered modulo `m`
/// first.
pub open spec fn digit_polys(c: Coeffs, m: int, width: nat) -> Seq<Coeffs> {
    Seq::new(width, |d: int| Seq::new(c.len(), |i: int| digit(centered(c[i], m), d as nat)))
}

/// The element whose digit polynomials are `d`, centered modulo `m`.
pub open spec fn projected(d: Seq<Coeffs>, m: int) -> Coeffs {
    Seq::new(N as nat, |i: int| centered(recomposed(column(d, i)), m))
}

proof fn lemma_three_digits(c: Seq<int>)
    requires
        c.len() == 3,
    ensures
        recomposed(c) == c[0] + 69 * c[1] + 4761 * c[2],
{
    lemma_base_powers();
    let (a, b) = (c.drop_last(), c.drop_last().drop_last());
    assert(b.drop_last() =~= Seq::<int>::empty());
    assert(recomposed(b.drop_last()) == 0);
    assert(b.last() == c[0] && a.last() == c[1] && c.last() == c[2]);
    assert(b.len() == 1 && a.len() == 2);
    assert(base_power(0) == 1);
    assert(recomposed(b) == base_power(0) * c[0]);
    assert(base_power(0) * c[0] == c[0]) by (nonlinear_arith)
        requires
            base_power(0) == 1,
    ;
    assert(recomposed(a) == recomposed(b) + 69 * c[1]);
    assert(recomposed(c) == recomposed(a) + 4761 * c[2]);
}

/// Projecting the digits of an element gives back its centered form.
pub proof fn law_project_digits(c: Coeffs, m: int, width: nat)
    requires
        m > 1,
        c.len() == N,
        m / 2 <= reach(width),
    ensures
        projected(digit_polys(c, m, width), m) == centered_poly(c, m),
{
    let d = digit_polys(c, m, width);
    assert forall|i: int| 0 <= i < N implies #[trigger] projected(d, m)[i] == centered(c[i], m) by {
        let v = centered(c[i], m);
        negacyclic::lemma_centered(c[i], m);
        assert(column(d, i) =~= digits_of(v, width));
        lemma_digits_exact(v, width);
        negacyclic::lemma_centered_id(v, m);
    }
    assert(projected(d, m) =~= centered_poly(c, m));
}

/// Projection is linear: projecting summed digits gives the sum, modulo `m`.
pub proof fn law_project_linear(a: Seq<Coeffs>, b: Seq<Coeffs>, m: int)
    requires
        m > 1,
        a.len() == b.len(),
        forall|d: int| 0 <= d < a.len() ==> #[trigger] a[d].len() == N,
        forall|d: int| 0 <= d < b.len() ==> #[trigger] b[d].len() == N,
    ensures
        projected(add_polys(a, b), m) == centered_poly(
            negacyclic::combine(projected(a, m), 1, projected(b, m)),
            m,
        ),
{
    let s = add_polys(a, b);
    let (pa, pb) = (projected(a, m), projected(b, m));
    assert forall|i: int| 0 <= i < N implies #[trigger] projected(s, m)[i] == centered(
        pa[i] + 1 * pb[i],
        m,
    ) by {
        let (ca, cb) = (column(a, i), column(b, i));
        assert(column(s, i) =~= Seq::new(ca.len(), |d: int| ca[d] + cb[d])) by {
            assert forall|d: int| 0 <= d < a.len() implies #[trigger] column(s, i)[d] == ca[d]
                + cb[d] by {
                assert(a[d].len() == N);
                assert(s[d] == negacyclic::combine(a[d], 1, b[d]));
            }
        }
        lemma_recomposed_linear(ca, cb);
        negacyclic::lemma_centered(recomposed(ca), m);
        negacyclic::lemma_centered(recomposed(cb), m);
        field::lemma_cong_ops(pa[i], recomposed(ca), pb[i], recomposed(cb), m);
        negacyclic::lemma_centered_cong(pa[i] + pb[i], recomposed(ca) + recomposed(cb), m);
    }
    assert(projected(s, m) =~= centered_poly(negacyclic::combine(pa, 1, pb), m));
}

/// Coefficient-wise sum of two digit vectors.
pub open spec fn add_polys(a: Seq<Coeffs>, b: Seq<Coeffs>) -> Seq<Coeffs> {
    Seq::new(a.len(), |d: int| negacyclic::combine(a[d], 1, b[d]))
}

// ---------------------------------------------------------------
// Commitment ring
// ---------------------------------------------------------------

/// An element of the commitment ring. Coefficients are representatives modulo
/// [`CS_MODULUS`].
#[derive(Debug, Clone, Copy)]
pub struct CsPoly {
    pub coeffs: [i32; N],
}

impl CsPoly {
    pub open spec fn view(&self) -> Coeffs {
        small_ints(self.coeffs@)
    }

    /// Every representative is centered.
    pub open spec fn is_centered(&self) -> bool {
        within(self@, CS_MODULUS_OVER_TWO as int)
    }

    pub fn from_coeffs(coeffs: [i32; N]) -> (r: Self)
        ensures
            r.coeffs == coeffs,
    {
        CsPoly { coeffs }
    }

    /// Wraps coefficients already centered.
    pub fn from_signed_coeffs(coeffs: &[i32; N]) -> (r: Self)
        requires
            within(small_ints(coeffs@), CS_MODULUS_OVER_TWO as int),
        ensures
            r.coeffs == *coeffs,
    {
        CsPoly { coeffs: *coeffs }
    }

    pub fn coeffs(&self) -> (r: &[i32; N])
        ensures
            *r == self.coeffs,
    {
        &self.coeffs
    }

    /// Drawn residues, shifted down to centered coefficients.
    pub fn from_draws(draws: &[u64; N]) -> (r: Self)
        requires
            forall|i: int| 0 <= i < N ==> #[trigger] draws[i] < CS_MODULUS,
        ensures
            forall|i: int|
                0 <= i < N ==> #[trigger] r.coeffs[i] == draws[i] - CS_MODULUS_OVER_TWO,
            r.is_centered(),
    {
        let mut coeffs: [i32; N] = [0i32; N];
        for i in 0..N
            invariant
                forall|j: int| 0 <= j < N ==> #[trigger] draws[j] < CS_MODULUS,
                forall|j: int|
                    0 <= j < i ==> #[trigger] coeffs[j] == draws[j] - CS_MODULUS_OVER_TWO,
        {
            coeffs[i] = draws[i] as i32 - CS_MODULUS_OVER_TWO;
        }
        let r = CsPoly { coeffs };
        assert forall|i: int| 0 <= i < N implies -CS_MODULUS_OVER_TWO <= #[trigger] r@[i]
            <= CS_MODULUS_OVER_TWO by {
            assert(coeffs[i] == draws[i] - CS_MODULUS_OVER_TWO);
        }
        r
    }

    /// Uniform centered coefficients: residues that the generator gives, in
    /// order, each shifted down by half the modulus.
    pub fn rand_poly(rng: &mut ChaCha20Rng) -> (r: Self)
        ensures
            r.is_centered(),
            run(
                uniform_values(CS_MODULUS as int),
                *old(rng),
                lifted(r@, CS_MODULUS_OVER_TWO as int),
                *final(rng),
            ),
    {
        let draws: [u64; N] = uniform_residues(rng, CS_MODULUS as u64);
        assert forall|i: int| 0 <= i < N implies #[trigger] draws[i] < CS_MODULUS by {
            assert(draws@[i] < CS_MODULUS);
        }
        let r = Self::from_draws(&draws);
        proof {
            let vs = Seq::new(N as nat, |i: int| draws@[i] as int);
            assert forall|i: int| 0 <= i < N implies lifted(r@, CS_MODULUS_OVER_TWO as int)[i] == vs[i] by {
                assert(r.coeffs[i] == draws[i] - CS_MODULUS_OVER_TWO);
            }
            assert(lifted(r@, CS_MODULUS_OVER_TWO as int) =~= vs);
        }
        r
    }

    /// Largest coefficient magnitude.
    pub fn infinity_norm(&self) -> (r: u32)
        ensures
            within(self@, r as int),
            r == 0 || exists|i: int| 0 <= i < N && (#[trigger] self@[i] == r || self@[i] == -r),
    {
        let mut m: u32 = 0;
        for i in 0..N
            invariant
                forall|j: int| 0 <= j < i ==> -m <= #[trigger] self@[j] <= m,
                m == 0 || exists|j: int| 0 <= j < i && (#[trigger] self@[j] == m || self@[j] == -m),
        {
            let c: i32 = self.coeffs[i];
            let a: u32 = if c >= 0 {
                c as u32
            } else {
                (-(c as i64)) as u32
            };
            assert(self@[i as int] == c);
            if a > m {
                m = a;
            }
        }
        m
    }

    /// Whether every coefficient lies in `[-bound, bound]`.
    pub fn norm_at_most(&self, bound: u32) -> (r: bool)
        ensures
            r == within(self@, bound as int),
    {
        let m: u32 = self.infinity_norm();
        if m <= bound {
            assert forall|i: int| 0 <= i < self@.len() implies -bound <= #[trigger] self@[i]
                <= bound by {
                assert(-m <= self@[i] <= m);
            }
        }
        m <= bound
    }

    /// Replaces every coefficient by its canonical representative.
    pub fn lift(&mut self)
        ensures
            forall|i: int|
                0 <= i < N ==> #[trigger] final(self).coeffs[i] == old(self)@[i] % (CS_MODULUS as int),
    {
        let src: [i32; N] = self.coeffs;
        for i in 0..N
            invariant
                src == old(self).coeffs,
                forall|j: int|
                    0 <= j < i ==> #[trigger] self.coeffs[j] == src[j] as int % (CS_MODULUS as int),
        {
            let c: i32 = src[i];
            self.coeffs[i] = rem_euclid_i64(c as i64, CS_MODULUS as i64) as i32;
        }
    }

    /// Replaces every coefficient by its canonical representative.
    pub fn lift_inplace(&mut self)
        ensures
            forall|i: int|
                0 <= i < N ==> #[trigger] final(self).coeffs[i] == old(self)@[i] % (CS_MODULUS as int),
    {
        self.lift();
    }

    /// Replaces every coefficient by its centered representative.
    pub fn normalize(&mut self)
        ensures
            final(self)@ == centered_poly(old(self)@, CS_MODULUS as int),
    {
        let src: [i32; N] = self.coeffs;
        for i in 0..N
            invariant
                src == old(self).coeffs,
                forall|j: int|
                    0 <= j < i ==> #[trigger] self.coeffs[j] == centered(
                        src[j] as int,
                        CS_MODULUS as int,
                    ),
        {
            let c: i32 = src[i];
            self.coeffs[i] = center_i32(c, CS_MODULUS);
        }
        assert(self@ =~= centered_poly(old(self)@, CS_MODULUS as int));
    }

    /// The centered coefficients, widened.
    pub fn centered_wide(&self) -> (r: [i64; N])
        ensures
            negacyclic::ints(r@) == centered_poly(self@, CS_MODULUS as int),
            within(negacyclic::ints(r@), CS_MODULUS_OVER_TWO as int),
    {
        let mut out: [i64; N] = [0i64; N];
        for i in 0..N
            invariant
                forall|j: int|
                    0 <= j < i ==> #[trigger] out[j] == centered(self@[j], CS_MODULUS as int) && -CS_MODULUS_OVER_TWO
                        <= out[j] <= CS_MODULUS_OVER_TWO,
        {
            proof {
                negacyclic::lemma_centered(self@[i as int], CS_MODULUS as int);
            }
            out[i] = center_i32(self.coeffs[i], CS_MODULUS) as i64;
        }
        assert(negacyclic::ints(out@) =~= centered_poly(self@, CS_MODULUS as int));
        out
    }

    /// Base-69 digits of the centered coefficients: `HVC_WIDTH` elements, lowest
    /// digit first.
    pub fn decompose_r_to_hvc(&self) -> (r: [HVCPoly; HVC_WIDTH])
        ensures
            forall|d: int| 0 <= d < HVC_WIDTH ==> within(#[trigger] r[d]@, ZETA as int),
            views(r@) == digit_polys(self@, CS_MODULUS as int, HVC_WIDTH as nat),
    {
        let mut d0: [i32; N] = [0i32; N];
        let mut d1: [i32; N] = [0i32; N];
        let mut d2: [i32; N] = [0i32; N];
        for i in 0..N
            invariant
                forall|j: int|
                    #![trigger d0[j]]
                    #![trigger d1[j]]
                    #![trigger d2[j]]
                    0 <= j < i ==> {
                        let v = centered(self@[j], CS_MODULUS as int);
                        d0[j] == digit(v, 0) && d1[j] == digit(v, 1) && d2[j] == digit(v, 2)
                    },
        {
            let v: i32 = center_i32(self.coeffs[i], CS_MODULUS);
            let (a, r0): (i64, i64) = split_digit(v as i64);
            let (b, r1): (i64, i64) = split_digit(r0);
            let (c, _r2): (i64, i64) = split_digit(r1);
            proof {
                reveal_with_fuel(rest_after, 3);
                assert(v == centered(self@[i as int], CS_MODULUS as int));
            }
            d0[i] = a as i32;
            d1[i] = b as i32;
            d2[i] = c as i32;
        }
        let r: [HVCPoly; HVC_WIDTH] = [
            HVCPoly { coeffs: d0 },
            HVCPoly { coeffs: d1 },
            HVCPoly { coeffs: d2 },
        ];
        proof {
            assert forall|d: int| 0 <= d < HVC_WIDTH implies within(#[trigger] r[d]@, ZETA as int) by {
                assert forall|j: int| 0 <= j < N implies -34 <= #[trigger] r[d]@[j] <= 34 by {
                    let v = centered(self@[j], CS_MODULUS as int);
                    lemma_digit_bound(v, 0);
                    lemma_digit_bound(v, 1);
                    lemma_digit_bound(v, 2);
                    assert(d0[j] == digit(v, 0) && d1[j] == digit(v, 1) && d2[j] == digit(v, 2));
                }
            }
            let want = digit_polys(self@, CS_MODULUS as int, HVC_WIDTH as nat);
            assert forall|d: int| 0 <= d < 3 implies views(r@)[d] =~= want[d] by {
                assert(views(r@)[d] == r[d]@);
                assert forall|j: int| 0 <= j < N implies r[d]@[j] == want[d][j] by {
                    let v = centered(self@[j], CS_MODULUS as int);
                    assert(d0[j] == digit(v, 0) && d1[j] == digit(v, 1) && d2[j] == digit(v, 2));
                }
            }
            assert(views(r@) =~= want);
        }
        r
    }

    /// Inverse of the digit decomposition, linear in the digits; centered.
    pub fn project_r_from_hvc(decomposed: &[HVCPoly]) -> (r: Self)
        requires
            decomposed.len() == HVC_WIDTH,
        ensures
            r@ == projected(views(decomposed@), CS_MODULUS as int),
    {
        let mut coeffs: [i32; N] = [0i32; N];
        for i in 0..N
            invariant
                decomposed.len() == HVC_WIDTH,
                forall|j: int|
                    0 <= j < i ==> #[trigger] coeffs[j] == projected(
                        views(decomposed@),
                        CS_MODULUS as int,
                    )[j],
        {
            let v: i64 = decomposed[0].coeffs[i] as i64 + 69 * decomposed[1].coeffs[i] as i64
                + 4761 * decomposed[2].coeffs[i] as i64;
            proof {
                let c = column(views(decomposed@), i as int);
                lemma_three_digits(c);
                assert(c[0] == decomposed[0]@[i as int]);
                assert(c[1] == decomposed[1]@[i as int]);
                assert(c[2] == decomposed[2]@[i as int]);
                assert(v == recomposed(c));
                negacyclic::lemma_centered(v as int, CS_MODULUS as int);
            }
            coeffs[i] = center_i64(v, CS_MODULUS as i64) as i32;
        }
        let r = CsPoly { coeffs };
        assert(r@ =~= projected(views(decomposed@), CS_MODULUS as int));
        r
    }

    /// Uniform coefficients in `[-p, p]`: values that the generator gives, in
    /// order.
    pub fn rand_mod_p(rng: &mut ChaCha20Rng, p: u32) -> (r: Self)
        requires
            p <= i32::MAX,
        ensures
            within(r@, p as int),
            run(signed_values((-p) as i64, p as i64), *old(rng), r@, *final(rng)),
    {
        let mut coeffs: [i32; N] = [0i32; N];
        let ghost draws = signed_values((-p) as i64, p as i64);
        let ghost mut vs: Seq<int> = Seq::empty();
        proof {
            lemma_run_empty(draws, *rng);
        }
        for i in 0..N
            invariant
                p <= i32::MAX,
                draws == signed_values((-p) as i64, p as i64),
                vs.len() == i,
                run(draws, *old(rng), vs, *rng),
                forall|j: int|
                    0 <= j < i ==> -p <= #[trigger] coeffs[j] <= p && coeffs[j] == vs[j],
        {
            let ghost m = *rng;
            let v: i64 = next_signed(rng, -(p as i64), p as i64);
            coeffs[i] = v as i32;
            proof {
                lemma_run_push(draws, *old(rng), vs, m, v as int, *rng);
                vs = vs.push(v as int);
            }
        }
        let r = CsPoly { coeffs };
        assert(r@ =~= vs) by {
            assert forall|j: int| 0 <= j < N implies r@[j] == vs[j] by {
                assert(coeffs[j] == vs[j]);
            }
        }
        r
    }

    /// Whether every coefficient is -1, 0 or 1.
    pub fn is_ternary(&self) -> (r: bool)
        ensures
            r == within(self@, 1),
    {
        self.norm_at_most(1)
    }

    /// The product in the ring, centered.
    pub fn schoolbook(a: &Self, b: &Self) -> (r: Self)
        ensures
            r@ == centered_poly(
                Seq::new(N as nat, |k: int| product_at(a@, b@, k)),
                CS_MODULUS as int,
            ),
    {
        let x: [i64; N] = a.centered_wide();
        let y: [i64; N] = b.centered_wide();
        let exact: Vec<i128> = negacyclic::multiply(
            &x,
            &y,
            CS_MODULUS_OVER_TWO as i64,
            CS_MODULUS_OVER_TWO as i64,
        );
        let ghost (gx, gy) = (negacyclic::ints(x@), negacyclic::ints(y@));
        let mut coeffs: [i32; N] = [0i32; N];
        for k in 0..N
            invariant
                exact.len() == N,
                gx == centered_poly(a@, CS_MODULUS as int),
                gy == centered_poly(b@, CS_MODULUS as int),
                forall|j: int| 0 <= j < N ==> #[trigger] exact[j] == product_at(gx, gy, j),
                forall|j: int|
                    0 <= j < k ==> #[trigger] coeffs[j] == centered(
                        product_at(a@, b@, j),
                        CS_MODULUS as int,
                    ),
        {
            proof {
                lemma_centered_poly(a@, CS_MODULUS as int);
                lemma_centered_poly(b@, CS_MODULUS as int);
                negacyclic::lemma_product_cong(
                    gx,
                    gy,
                    a@,
                    b@,
                    k as int,
                    N as nat,
                    CS_MODULUS as int,
                );
                negacyclic::lemma_centered_cong(
                    exact[k as int] as int,
                    product_at(a@, b@, k as int),
                    CS_MODULUS as int,
                );
                negacyclic::lemma_centered(exact[k as int] as int, CS_MODULUS as int);
            }
            let m: i64 = rem_euclid_i128(exact[k], CS_MODULUS as i64);
            coeffs[k] = center_canonical_i64(m, CS_MODULUS as i64) as i32;
            proof {
                field::lemma_cong_mod(exact[k as int] as int, CS_MODULUS as int);
                negacyclic::lemma_centered_cong(
                    exact[k as int] as int,
                    m as int,
                    CS_MODULUS as int,
                );
            }
        }
        let r = CsPoly { coeffs };
        assert(r@ =~= centered_poly(
            Seq::new(N as nat, |k: int| product_at(a@, b@, k)),
            CS_MODULUS as int,
        ));
        r
    }

}

impl Default for CsPoly {
    fn default() -> (r: Self)
        ensures
            forall|i: int| 0 <= i < N ==> #[trigger] r.coeffs[i] == 0,
    {
        CsPoly { coeffs: [0i32; N] }
    }
}

impl PartialEq for CsPoly {
    fn eq(&self, other: &Self) -> (r: bool) {
        for i in 0..N
            invariant
                forall|j: int| 0 <= j < i ==> cong(#[trigger] self@[j], other@[j], CS_MODULUS as int),
        {
            let a: i64 = rem_euclid_i64(self.coeffs[i] as i64, CS_MODULUS as i64);
            let b: i64 = rem_euclid_i64(other.coeffs[i] as i64, CS_MODULUS as i64);
            assert(self@[i as int] == self.coeffs[i as int]);
            assert(other@[i as int] == other.coeffs[i as int]);
            if a != b {
                return false;
            }
        }
        true
    }
}

impl vstd::std_specs::cmp::PartialEqSpecImpl for CsPoly {
    open spec fn obeys_eq_spec() -> bool {
        true
    }

    open spec fn eq_spec(&self, other: &Self) -> bool {
        cong_poly(self@, other@, CS_MODULUS as int)
    }
}

impl Eq for CsPoly {

}

impl std::ops::Add for CsPoly {
    type Output = CsPoly;

    fn add(self, rhs: CsPoly) -> (r: CsPoly)
        ensures
            r@ == centered_poly(negacyclic::combine(self@, 1, rhs@), CS_MODULUS as int),
    {
        let mut coeffs: [i32; N] = [0i32; N];
        for i in 0..N
            invariant
                forall|j: int|
                    0 <= j < i ==> #[trigger] coeffs[j] == centered(
                        self@[j] + (1) * rhs@[j],
                        CS_MODULUS as int,
                    ),
        {
            let v: i64 = self.coeffs[i] as i64 + rhs.coeffs[i] as i64;
            proof {
                negacyclic::lemma_centered(v as int, CS_MODULUS as int);
                assert(self@[i as int] == self.coeffs[i as int]);
                assert(rhs@[i as int] == rhs.coeffs[i as int]);
            }
            coeffs[i] = center_i64(v, CS_MODULUS as i64) as i32;
        }
        let r = CsPoly { coeffs };
        assert(r@ =~= centered_poly(negacyclic::combine(self@, 1, rhs@), CS_MODULUS as int));
        r
    }
}

impl vstd::std_specs::ops::AddSpecImpl for CsPoly {
    open spec fn obeys_add_spec() -> bool {
        false
    }

    open spec fn add_req(self, rhs: CsPoly) -> bool {
        true
    }

    open spec fn add_spec(self, rhs: CsPoly) -> CsPoly {
        self
    }
}

impl std::ops::Sub for CsPoly {
    type Output = CsPoly;

    fn sub(self, rhs: CsPoly) -> (r: CsPoly)
        ensures
            r@ == centered_poly(negacyclic::combine(self@, -1, rhs@), CS_MODULUS as int),
    {
        let mut coeffs: [i32; N] = [0i32; N];
        for i in 0..N
            invariant
                forall|j: int|
                    0 <= j < i ==> #[trigger] coeffs[j] == centered(
                        self@[j] + (-1) * rhs@[j],
                        CS_MODULUS as int,
                    ),
        {
            let v: i64 = self.coeffs[i] as i64 - rhs.coeffs[i] as i64;
            proof {
                negacyclic::lemma_centered(v as int, CS_MODULUS as int);
                assert(self@[i as int] == self.coeffs[i as int]);
                assert(rhs@[i as int] == rhs.coeffs[i as int]);
            }
            coeffs[i] = center_i64(v, CS_MODULUS as i64) as i32;
        }
        let r = CsPoly { coeffs };
        assert(r@ =~= centered_poly(negacyclic::combine(self@, -1, rhs@), CS_MODULUS as int));
        r
    }
}

impl vstd::std_specs::ops::SubSpecImpl for CsPoly {
    open spec fn obeys_sub_spec() -> bool {
        false
    }

    open spec fn sub_req(self, rhs: CsPoly) -> bool {
        true
    }

    open spec fn sub_spec(self, rhs: CsPoly) -> CsPoly {
        self
    }
}

// ---------------------------------------------------------------
// Tree-hash ring
// ---------------------------------------------------------------

/// An element of the tree-hash ring, or a polynomial of digits.
#[derive(Debug, Clone, Copy)]
pub struct HVCPoly {
    pub coeffs: [i32; N],
}

impl HVCPoly {
    pub open spec fn view(&self) -> Coeffs {
        small_ints(self.coeffs@)
    }

    /// Every representative is centered.
    pub open spec fn is_centered(&self) -> bool {
        within(self@, HVC_MODULUS_OVER_TWO as int)
    }

    pub fn from_coeffs(coeffs: [i32; N]) -> (r: Self)
        ensures
            r.coeffs == coeffs,
    {
        HVCPoly { coeffs }
    }


    pub fn coeffs(&self) -> (r: &[i32; N])
        ensures
            *r == self.coeffs,
    {
        &self.coeffs
    }

    /// Drawn residues, shifted down to centered coefficients.
    pub fn from_draws(draws: &[u64; N]) -> (r: Self)
        requires
            forall|i: int| 0 <= i < N ==> #[trigger] draws[i] < HVC_MODULUS,
        ensures
            forall|i: int|
                0 <= i < N ==> #[trigger] r.coeffs[i] == draws[i] - HVC_MODULUS_OVER_TWO,
            r.is_centered(),
    {
        let mut coeffs: [i32; N] = [0i32; N];
        for i in 0..N
            invariant
                forall|j: int| 0 <= j < N ==> #[trigger] draws[j] < HVC_MODULUS,
                forall|j: int|
                    0 <= j < i ==> #[trigger] coeffs[j] == draws[j] - HVC_MODULUS_OVER_TWO,
        {
            coeffs[i] = draws[i] as i32 - HVC_MODULUS_OVER_TWO;
        }
        let r = HVCPoly { coeffs };
        assert forall|i: int| 0 <= i < N implies -HVC_MODULUS_OVER_TWO <= #[trigger] r@[i]
            <= HVC_MODULUS_OVER_TWO by {
            assert(coeffs[i] == draws[i] - HVC_MODULUS_OVER_TWO);
        }
        r
    }

    /// Uniform centered coefficients: residues that the generator gives, in
    /// order, each shifted down by half the modulus.
    pub fn rand_poly(rng: &mut ChaCha20Rng) -> (r: Self)
        ensures
            r.is_centered(),
            run(
                uniform_values(HVC_MODULUS as int),
                *old(rng),
                lifted(r@, HVC_MODULUS_OVER_TWO as int),
                *final(rng),
            ),
    {
        let draws: [u64; N] = uniform_residues(rng, HVC_MODULUS as u64);
        assert forall|i: int| 0 <= i < N implies #[trigger] draws[i] < HVC_MODULUS by {
            assert(draws@[i] < HVC_MODULUS);
        }
        let r = Self::from_draws(&draws);
        proof {
            let vs = Seq::new(N as nat, |i: int| draws@[i] as int);
            assert forall|i: int| 0 <= i < N implies lifted(r@, HVC_MODULUS_OVER_TWO as int)[i] == vs[i] by {
                assert(r.coeffs[i] == draws[i] - HVC_MODULUS_OVER_TWO);
            }
            assert(lifted(r@, HVC_MODULUS_OVER_TWO as int) =~= vs);
        }
        r
    }

    /// Largest coefficient magnitude.
    pub fn infinity_norm(&self) -> (r: u32)
        ensures
            within(self@, r as int),
            r == 0 || exists|i: int| 0 <= i < N && (#[trigger] self@[i] == r || self@[i] == -r),
    {
        let mut m: u32 = 0;
        for i in 0..N
            invariant
                forall|j: int| 0 <= j < i ==> -m <= #[trigger] self@[j] <= m,
                m == 0 || exists|j: int| 0 <= j < i && (#[trigger] self@[j] == m || self@[j] == -m),
        {
            let c: i32 = self.coeffs[i];
            let a: u32 = if c >= 0 {
                c as u32
            } else {
                (-(c as i64)) as u32
            };
            assert(self@[i as int] == c);
            if a > m {
                m = a;
            }
        }
        m
    }

    /// Whether every coefficient lies in `[-bound, bound]`.
    pub fn norm_at_most(&self, bound: u32) -> (r: bool)
        ensures
            r == within(self@, bound as int),
    {
        let m: u32 = self.infinity_norm();
        if m <= bound {
            assert forall|i: int| 0 <= i < self@.len() implies -bound <= #[trigger] self@[i]
                <= bound by {
                assert(-m <= self@[i] <= m);
            }
        }
        m <= bound
    }

    /// Replaces every coefficient by its canonical representative.
    pub fn lift(&mut self)
        ensures
            forall|i: int|
                0 <= i < N ==> #[trigger] final(self).coeffs[i] == old(self)@[i] % (HVC_MODULUS as int),
    {
        let src: [i32; N] = self.coeffs;
        for i in 0..N
            invariant
                src == old(self).coeffs,
                forall|j: int|
                    0 <= j < i ==> #[trigger] self.coeffs[j] == src[j] as int % (HVC_MODULUS as int),
        {
            let c: i32 = src[i];
            self.coeffs[i] = rem_euclid_i64(c as i64, HVC_MODULUS as i64) as i32;
        }
    }

    /// Replaces every coefficient by its canonical representative.
    pub fn lift_inplace(&mut self)
        ensures
            forall|i: int|
                0 <= i < N ==> #[trigger] final(self).coeffs[i] == old(self)@[i] % (HVC_MODULUS as int),
    {
        self.lift();
    }

    /// Replaces every coefficient by its centered representative.
    pub fn normalize(&mut self)
        ensures
            final(self)@ == centered_poly(old(self)@, HVC_MODULUS as int),
    {
        let src: [i32; N] = self.coeffs;
        for i in 0..N
            invariant
                src == old(self).coeffs,
                forall|j: int|
                    0 <= j < i ==> #[trigger] self.coeffs[j] == centered(
                        src[j] as int,
                        HVC_MODULUS as int,
                    ),
        {
            let c: i32 = src[i];
            self.coeffs[i] = center_i32(c, HVC_MODULUS);
        }
        assert(self@ =~= centered_poly(old(self)@, HVC_MODULUS as int));
    }

    /// The centered coefficients, widened.
    pub fn centered_wide(&self) -> (r: [i64; N])
        ensures
            negacyclic::ints(r@) == centered_poly(self@, HVC_MODULUS as int),
            within(negacyclic::ints(r@), HVC_MODULUS_OVER_TWO as int),
    {
        let mut out: [i64; N] = [0i64; N];
        for i in 0..N
            invariant
                forall|j: int|
                    0 <= j < i ==> #[trigger] out[j] == centered(self@[j], HVC_MODULUS as int) && -HVC_MODULUS_OVER_TWO
                        <= out[j] <= HVC_MODULUS_OVER_TWO,
        {
            proof {
                negacyclic::lemma_centered(self@[i as int], HVC_MODULUS as int);
            }
            out[i] = center_i32(self.coeffs[i], HVC_MODULUS) as i64;
        }
        assert(negacyclic::ints(out@) =~= centered_poly(self@, HVC_MODULUS as int));
        out
    }

    /// Base-69 digits of the centered coefficients: `HVC_WIDTH` elements, lowest
    /// digit first.
    pub fn decompose_r(&self) -> (r: Vec<HVCPoly>)
        ensures
            r.len() == HVC_WIDTH,
            forall|d: int| 0 <= d < HVC_WIDTH ==> within(#[trigger] r[d]@, ZETA as int),
            views(r@) == digit_polys(self@, HVC_MODULUS as int, HVC_WIDTH as nat),
    {
        let mut d0: [i32; N] = [0i32; N];
        let mut d1: [i32; N] = [0i32; N];
        let mut d2: [i32; N] = [0i32; N];
        for i in 0..N
            invariant
                forall|j: int|
                    #![trigger d0[j]]
                    #![trigger d1[j]]
                    #![trigger d2[j]]
                    0 <= j < i ==> {
                        let v = centered(self@[j], HVC_MODULUS as int);
                        d0[j] == digit(v, 0) && d1[j] == digit(v, 1) && d2[j] == digit(v, 2)
                    },
        {
            let v: i32 = center_i32(self.coeffs[i], HVC_MODULUS);
            let (a, r0): (i64, i64) = split_digit(v as i64);
            let (b, r1): (i64, i64) = split_digit(r0);
            let (c, _r2): (i64, i64) = split_digit(r1);
            proof {
                reveal_with_fuel(rest_after, 3);
                assert(v == centered(self@[i as int], HVC_MODULUS as int));
            }
            d0[i] = a as i32;
            d1[i] = b as i32;
            d2[i] = c as i32;
        }
        let r: Vec<HVCPoly> = vec![
            HVCPoly { coeffs: d0 },
            HVCPoly { coeffs: d1 },
            HVCPoly { coeffs: d2 },
        ];
        proof {
            assert forall|d: int| 0 <= d < HVC_WIDTH implies within(#[trigger] r[d]@, ZETA as int) by {
                assert forall|j: int| 0 <= j < N implies -34 <= #[trigger] r[d]@[j] <= 34 by {
                    let v = centered(self@[j], HVC_MODULUS as int);
                    lemma_digit_bound(v, 0);
                    lemma_digit_bound(v, 1);
                    lemma_digit_bound(v, 2);
                    assert(d0[j] == digit(v, 0) && d1[j] == digit(v, 1) && d2[j] == digit(v, 2));
                }
            }
            let want = digit_polys(self@, HVC_MODULUS as int, HVC_WIDTH as nat);
            assert forall|d: int| 0 <= d < 3 implies views(r@)[d] =~= want[d] by {
                assert(views(r@)[d] == r[d]@);
                assert forall|j: int| 0 <= j < N implies r[d]@[j] == want[d][j] by {
                    let v = centered(self@[j], HVC_MODULUS as int);
                    assert(d0[j] == digit(v, 0) && d1[j] == digit(v, 1) && d2[j] == digit(v, 2));
                }
            }
            assert(views(r@) =~= want);
        }
        r
    }

    /// Inverse of the digit decomposition, linear in the digits; centered.
    pub fn projection_r(decomposed: &[HVCPoly]) -> (r: Self)
        requires
            decomposed.len() == HVC_WIDTH,
        ensures
            r@ == projected(views(decomposed@), HVC_MODULUS as int),
    {
        let mut coeffs: [i32; N] = [0i32; N];
        for i in 0..N
            invariant
                decomposed.len() == HVC_WIDTH,
                forall|j: int|
                    0 <= j < i ==> #[trigger] coeffs[j] == projected(
                        views(decomposed@),
                        HVC_MODULUS as int,
                    )[j],
        {
            let v: i64 = decomposed[0].coeffs[i] as i64 + 69 * decomposed[1].coeffs[i] as i64
                + 4761 * decomposed[2].coeffs[i] as i64;
            proof {
                let c = column(views(decomposed@), i as int);
                lemma_three_digits(c);
                assert(c[0] == decomposed[0]@[i as int]);
                assert(c[1] == decomposed[1]@[i as int]);
                assert(c[2] == decomposed[2]@[i as int]);
                assert(v == recomposed(c));
                negacyclic::lemma_centered(v as int, HVC_MODULUS as int);
            }
            coeffs[i] = center_i64(v, HVC_MODULUS as i64) as i32;
        }
        let r = HVCPoly { coeffs };
        assert(r@ =~= projected(views(decomposed@), HVC_MODULUS as int));
        r
    }

}

impl Default for HVCPoly {
    fn default() -> (r: Self)
        ensures
            forall|i: int| 0 <= i < N ==> #[trigger] r.coeffs[i] == 0,
    {
        HVCPoly { coeffs: [0i32; N] }
    }
}

impl PartialEq for HVCPoly {
    fn eq(&self, other: &Self) -> (r: bool) {
        for i in 0..N
            invariant
                forall|j: int| 0 <= j < i ==> cong(#[trigger] self@[j], other@[j], HVC_MODULUS as int),
        {
            let a: i64 = rem_euclid_i64(self.coeffs[i] as i64, HVC_MODULUS as i64);
            let b: i64 = rem_euclid_i64(other.coeffs[i] as i64, HVC_MODULUS as i64);
            assert(self@[i as int] == self.coeffs[i as int]);
            assert(other@[i as int] == other.coeffs[i as int]);
            if a != b {
                return false;
            }
        }
        true
    }
}

impl vstd::std_specs::cmp::PartialEqSpecImpl for HVCPoly {
    open spec fn obeys_eq_spec() -> bool {
        true
    }

    open spec fn eq_spec(&self, other: &Self) -> bool {
        cong_poly(self@, other@, HVC_MODULUS as int)
    }
}

impl Eq for HVCPoly {

}

impl std::ops::Add for HVCPoly {
    type Output = HVCPoly;

    fn add(self, rhs: HVCPoly) -> (r: HVCPoly)
        ensures
            r@ == centered_poly(negacyclic::combine(self@, 1, rhs@), HVC_MODULUS as int),
    {
        let mut coeffs: [i32; N] = [0i32; N];
        for i in 0..N
            invariant
                forall|j: int|
                    0 <= j < i ==> #[trigger] coeffs[j] == centered(
                        self@[j] + (1) * rhs@[j],
                        HVC_MODULUS as int,
                    ),
        {
            let v: i64 = self.coeffs[i] as i64 + rhs.coeffs[i] as i64;
            proof {
                negacyclic::lemma_centered(v as int, HVC_MODULUS as int);
                assert(self@[i as int] == self.coeffs[i as int]);
                assert(rhs@[i as int] == rhs.coeffs[i as int]);
            }
            coeffs[i] = center_i64(v, HVC_MODULUS as i64) as i32;
        }
        let r = HVCPoly { coeffs };
        assert(r@ =~= centered_poly(negacyclic::combine(self@, 1, rhs@), HVC_MODULUS as int));
        r
    }
}

impl vstd::std_specs::ops::AddSpecImpl for HVCPoly {
    open spec fn obeys_add_spec() -> bool {
        false
    }

    open spec fn add_req(self, rhs: HVCPoly) -> bool {
        true
    }

    open spec fn add_spec(self, rhs: HVCPoly) -> HVCPoly {
        self
    }
}

impl std::ops::Sub for HVCPoly {
    type Output = HVCPoly;

    fn sub(self, rhs: HVCPoly) -> (r: HVCPoly)
        ensures
            r@ == centered_poly(negacyclic::combine(self@, -1, rhs@), HVC_MODULUS as int),
    {
        let mut coeffs: [i32; N] = [0i32; N];
        for i in 0..N
            invariant
                forall|j: int|
                    0 <= j < i ==> #[trigger] coeffs[j] == centered(
                        self@[j] + (-1) * rhs@[j],
                        HVC_MODULUS as int,
                    ),
        {
            let v: i64 = self.coeffs[i] as i64 - rhs.coeffs[i] as i64;
            proof {
                negacyclic::lemma_centered(v as int, HVC_MODULUS as int);
                assert(self@[i as int] == self.coeffs[i as int]);
                assert(rhs@[i as int] == rhs.coeffs[i as int]);
            }
            coeffs[i] = center_i64(v, HVC_MODULUS as i64) as i32;
        }
        let r = HVCPoly { coeffs };
        assert(r@ =~= centered_poly(negacyclic::combine(self@, -1, rhs@), HVC_MODULUS as int));
        r
    }
}

impl vstd::std_specs::ops::SubSpecImpl for HVCPoly {
    open spec fn obeys_sub_spec() -> bool {
        false
    }

    open spec fn sub_req(self, rhs: HVCPoly) -> bool {
        true
    }

    open spec fn sub_spec(self, rhs: HVCPoly) -> HVCPoly {
        self
    }
}

pub open spec fn wide_ints(c: Seq<u64>) -> Coeffs {
    c.map(|_i: int, x: u64| x as int)
}

/// Canonical residues as signed words.
fn signed_copy(c: &[u64; N], modulus: u64) -> (r: [i64; N])
    requires
        modulus <= 0x4000_0000_0000_0000,
        forall|i: int| 0 <= i < N ==> #[trigger] wide_ints(c@)[i] < modulus,
    ensures
        forall|i: int| 0 <= i < N ==> #[trigger] r[i] == c[i],
        within(negacyclic::ints(r@), modulus - 1),
{
    let mut out: [i64; N] = [0i64; N];
    for i in 0..N
        invariant
            modulus <= 0x4000_0000_0000_0000,
            forall|j: int| 0 <= j < N ==> #[trigger] wide_ints(c@)[j] < modulus,
            forall|j: int| 0 <= j < i ==> #[trigger] out[j] == c[j] && out[j] < modulus,
    {
        assert(wide_ints(c@)[i as int] < modulus);
        out[i] = c[i] as i64;
    }
    assert forall|i: int| 0 <= i < N implies -(modulus - 1) <= #[trigger] negacyclic::ints(out@)[i]
        <= modulus - 1 by {
        assert(out[i] == c[i] && out[i] < modulus);
    }
    out
}

// ---------------------------------------------------------------
// Multiplication-ready ciphertext elements
// ---------------------------------------------------------------

/// The ciphertext ring has its transform.
proof fn lemma_kahe_ring()
    ensures
        ntt::is_root(KAHE_PSI as int, KAHE_MODULUS as int),
{
    primes::lemma_kahe_modulus_prime();
    primes::lemma_kahe_root();
}

/// A ciphertext-ring element: its values at the roots, in canonical residues.
#[derive(Debug, Clone, Copy)]
pub struct KaheNTTPoly {
    pub coeffs: [u64; N],
}

impl KaheNTTPoly {
    /// The residues of the element whose values these are.
    pub open spec fn view(&self) -> Coeffs {
        ntt::coefficients_of(KAHE_PSI as int, KAHE_MODULUS as int, self.values())
    }

    pub open spec fn values(&self) -> Coeffs {
        wide_ints(self.coeffs@)
    }

    /// These are the values of `c`.
    pub open spec fn holds(&self, c: Coeffs) -> bool {
        ntt::is_transform(KAHE_PSI as int, KAHE_MODULUS as int, c, self.values())
    }

    /// Every value is a canonical residue, and so is every coefficient.
    pub open spec fn wf(&self) -> bool {
        &&& forall|i: int| 0 <= i < N ==> #[trigger] self.coeffs@[i] < KAHE_MODULUS
        &&& self@.len() == N
        &&& forall|i: int| 0 <= i < N ==> 0 <= #[trigger] self@[i] < KAHE_MODULUS
    }

    proof fn lemma_values(&self)
        requires
            forall|i: int| 0 <= i < N ==> #[trigger] self.coeffs@[i] < KAHE_MODULUS,
        ensures
            self.wf(),
            self.holds(self@),
            ntt::words(self.coeffs@) == self.values(),
            ntt::reduced(self.coeffs@, KAHE_MODULUS as int),
            ntt::is_root(KAHE_PSI as int, KAHE_MODULUS as int),
    {
        lemma_kahe_ring();
        assert(ntt::words(self.coeffs@) =~= self.values());
        ntt::lemma_has_coefficients(KAHE_PSI as int, KAHE_MODULUS as int, self.values());
    }

    proof fn lemma_holds(&self, c: Coeffs)
        requires
            self.holds(c),
        ensures
            self@ == c,
    {
        lemma_kahe_ring();
        ntt::lemma_coefficients(KAHE_PSI as int, KAHE_MODULUS as int, c, self.values());
    }

    /// Uniform values that the generator gives, in order.
    pub fn rand_ntt_poly(rng: &mut ChaCha20Rng) -> (r: Self)
        ensures
            r.wf(),
            run(uniform_values(KAHE_MODULUS as int), *old(rng), r.values(), *final(rng)),
    {
        let coeffs: [u64; N] = uniform_residues(rng, KAHE_MODULUS as u64);
        let r = KaheNTTPoly { coeffs };
        proof {
            r.lemma_values();
            assert(r.values() =~= Seq::new(N as nat, |i: int| coeffs@[i] as int));
        }
        r
    }

    /// The values of a polynomial's residues.
    pub fn from_poly(poly: &KahePoly) -> (r: Self)
        ensures
            r.wf(),
            forall|i: int| 0 <= i < N ==> #[trigger] r@[i] == poly@[i] % (KAHE_MODULUS as int),
    {
        let ghost c = Seq::new(N as nat, |i: int| poly@[i] % (KAHE_MODULUS as int));
        let mut out: [u64; N] = [0u64; N];
        for i in 0..N
            invariant
                c == Seq::new(N as nat, |i: int| poly@[i] % (KAHE_MODULUS as int)),
                forall|j: int|
                    0 <= j < i ==> #[trigger] out@[j] == c[j] && out@[j] < KAHE_MODULUS,
        {
            assert(poly@[i as int] == poly.coeffs[i as int]);
            out[i] = rem_euclid_i64(poly.coeffs[i], KAHE_MODULUS) as u64;
        }
        proof {
            lemma_kahe_ring();
            assert(ntt::words(out@) =~= c);
        }
        let r = KaheNTTPoly { coeffs: ntt::transform::<347_280_875_347_969>(KAHE_PSI, &out) };
        proof {
            assert(ntt::words(r.coeffs@) =~= r.values());
            r.lemma_values();
            r.lemma_holds(c);
        }
        r
    }

    /// The centered polynomial.
    pub fn to_poly(&self) -> (r: KahePoly)
        requires
            self.wf(),
        ensures
            forall|i: int|
                0 <= i < N ==> #[trigger] r@[i] == centered(self@[i], KAHE_MODULUS as int),
    {
        proof {
            self.lemma_values();
        }
        let c: [u64; N] = ntt::restore::<347_280_875_347_969>(KAHE_PSI, &self.coeffs);
        proof {
            self.lemma_holds(ntt::words(c@));
        }
        let mut coeffs: [i64; N] = [0i64; N];
        for i in 0..N
            invariant
                ntt::reduced(c@, KAHE_MODULUS as int),
                self@ == ntt::words(c@),
                forall|j: int|
                    0 <= j < i ==> #[trigger] coeffs[j] == centered(self@[j], KAHE_MODULUS as int),
        {
            assert(c@[i as int] < KAHE_MODULUS);
            proof {
                negacyclic::lemma_centered(self@[i as int], KAHE_MODULUS as int);
            }
            coeffs[i] = center_canonical_i64(c[i] as i64, KAHE_MODULUS);
        }
        let r = KahePoly { coeffs };
        assert forall|i: int| 0 <= i < N implies #[trigger] r@[i] == centered(
            self@[i],
            KAHE_MODULUS as int,
        ) by {
            assert(coeffs[i] == centered(self@[i], KAHE_MODULUS as int));
        }
        r
    }
}

impl Default for KaheNTTPoly {
    fn default() -> (r: Self)
        ensures
            forall|i: int| 0 <= i < N ==> #[trigger] r.coeffs[i] == 0,
            r.wf(),
            forall|i: int| 0 <= i < N ==> #[trigger] r@[i] == 0,
    {
        let r = KaheNTTPoly { coeffs: [0u64; N] };
        proof {
            let c: Coeffs = Seq::new(N as nat, |i: int| 0);
            let q = KAHE_MODULUS as int;
            assert forall|i: int| 0 <= i < N implies #[trigger] r.coeffs@[i] < KAHE_MODULUS by {}
            r.lemma_values();
            assert forall|i: int| 0 <= i < N implies field::cong(
                #[trigger] r.values()[i],
                field::eval(c, ntt::points(KAHE_PSI as int, N as nat, 11)[i]),
                q,
            ) by {
                field::lemma_small(0, q);
                field::lemma_eval_zero(c, ntt::points(KAHE_PSI as int, N as nat, 11)[i], q);
            }
            r.lemma_holds(c);
        }
        r
    }
}

impl PartialEq for KaheNTTPoly {
    fn eq(&self, other: &Self) -> (r: bool) {
        for i in 0..N
            invariant
                forall|j: int| 0 <= j < i ==> #[trigger] self.values()[j] == other.values()[j],
        {
            assert(self.values()[i as int] == self.coeffs[i as int]);
            assert(other.values()[i as int] == other.coeffs[i as int]);
            if self.coeffs[i] != other.coeffs[i] {
                return false;
            }
        }
        assert(self.values() =~= other.values());
        true
    }
}

impl vstd::std_specs::cmp::PartialEqSpecImpl for KaheNTTPoly {
    open spec fn obeys_eq_spec() -> bool {
        true
    }

    open spec fn eq_spec(&self, other: &Self) -> bool {
        self.values() == other.values()
    }
}

impl Eq for KaheNTTPoly {

}

impl std::ops::Add for KaheNTTPoly {
    type Output = KaheNTTPoly;

    fn add(self, rhs: KaheNTTPoly) -> (r: KaheNTTPoly)
        ensures
            r.wf(),
            forall|i: int|
                0 <= i < N ==> #[trigger] r@[i] == (self@[i] + rhs@[i]) % (KAHE_MODULUS as int),
    {
        let ghost q = KAHE_MODULUS as int;
        let mut coeffs: [u64; N] = [0u64; N];
        for i in 0..N
            invariant
                q == KAHE_MODULUS,
                self.wf(),
                rhs.wf(),
                forall|j: int|
                    0 <= j < i ==> #[trigger] coeffs@[j] == (self.coeffs@[j] + rhs.coeffs@[j]) % q
                        && coeffs@[j] < KAHE_MODULUS,
        {
            assert(self.coeffs@[i as int] < KAHE_MODULUS && rhs.coeffs@[i as int] < KAHE_MODULUS);
            coeffs[i] = (self.coeffs[i] + rhs.coeffs[i]) % KAHE_MODULUS as u64;
        }
        let r = KaheNTTPoly { coeffs };
        proof {
            self.lemma_values();
            rhs.lemma_values();
            r.lemma_values();
            assert forall|i: int| 0 <= i < N implies field::cong(
                #[trigger] r.values()[i],
                self.values()[i] + rhs.values()[i],
                q,
            ) by {
                assert(r.coeffs@[i] == (self.coeffs@[i] + rhs.coeffs@[i]) % q);
                field::lemma_cong_mod(self.coeffs@[i] + rhs.coeffs@[i], q);
            }
            ntt::law_transform_is_linear(
                KAHE_PSI as int,
                q,
                self@,
                rhs@,
                self.values(),
                rhs.values(),
                r.values(),
            );
            r.lemma_holds(Seq::new(N as nat, |i: int| (self@[i] + rhs@[i]) % q));
        }
        r
    }
}

impl vstd::std_specs::ops::AddSpecImpl for KaheNTTPoly {
    open spec fn obeys_add_spec() -> bool {
        false
    }

    open spec fn add_req(self, rhs: KaheNTTPoly) -> bool {
        self.wf() && rhs.wf()
    }

    open spec fn add_spec(self, rhs: KaheNTTPoly) -> KaheNTTPoly {
        self
    }
}

impl std::ops::Sub for KaheNTTPoly {
    type Output = KaheNTTPoly;

    fn sub(self, rhs: KaheNTTPoly) -> (r: KaheNTTPoly)
        ensures
            r.wf(),
            forall|i: int|
                0 <= i < N ==> #[trigger] r@[i] == (self@[i] - rhs@[i]) % (KAHE_MODULUS as int),
    {
        let ghost q = KAHE_MODULUS as int;
        let mut coeffs: [u64; N] = [0u64; N];
        for i in 0..N
            invariant
                q == KAHE_MODULUS,
                self.wf(),
                rhs.wf(),
                forall|j: int|
                    0 <= j < i ==> field::cong(
                        #[trigger] coeffs@[j] as int,
                        self.coeffs@[j] - rhs.coeffs@[j],
                        q,
                    ) && coeffs@[j] < KAHE_MODULUS,
        {
            assert(self.coeffs@[i as int] < KAHE_MODULUS && rhs.coeffs@[i as int] < KAHE_MODULUS);
            coeffs[i] = (self.coeffs[i] + (KAHE_MODULUS as u64 - rhs.coeffs[i])) % KAHE_MODULUS as u64;
            proof {
                let d = self.coeffs@[i as int] - rhs.coeffs@[i as int];
                field::lemma_cong_mod(d + q, q);
                field::lemma_cong_multiple(d, 1, q);
                assert(q * 1 == q);
            }
        }
        let r = KaheNTTPoly { coeffs };
        proof {
            self.lemma_values();
            rhs.lemma_values();
            r.lemma_values();
            assert forall|i: int| 0 <= i < N implies field::cong(
                #[trigger] self.values()[i],
                r.values()[i] + rhs.values()[i],
                q,
            ) by {
                let (x, y, z) = (
                    self.coeffs@[i] as int,
                    rhs.coeffs@[i] as int,
                    r.coeffs@[i] as int,
                );
                assert(field::cong(z, x - y, q));
                field::lemma_cong_ops(z, x - y, y, y, q);
            }
            ntt::law_transform_is_linear(
                KAHE_PSI as int,
                q,
                r@,
                rhs@,
                r.values(),
                rhs.values(),
                self.values(),
            );
            let c = Seq::new(N as nat, |i: int| (r@[i] + rhs@[i]) % q);
            self.lemma_holds(c);
            assert forall|i: int| 0 <= i < N implies #[trigger] r@[i] == (self@[i] - rhs@[i])
                % q by {
                assert(self@[i] == c[i]);
                field::lemma_cong_mod(r@[i] + rhs@[i], q);
                field::lemma_cong_ops(c[i], r@[i] + rhs@[i], rhs@[i], rhs@[i], q);
                field::lemma_small(r@[i], q);
            }
        }
        r
    }
}

impl vstd::std_specs::ops::SubSpecImpl for KaheNTTPoly {
    open spec fn obeys_sub_spec() -> bool {
        false
    }

    open spec fn sub_req(self, rhs: KaheNTTPoly) -> bool {
        self.wf() && rhs.wf()
    }

    open spec fn sub_spec(self, rhs: KaheNTTPoly) -> KaheNTTPoly {
        self
    }
}

/// The ring product of two elements, value by value.
pub fn mul_kahe(a: &KaheNTTPoly, b: &KaheNTTPoly) -> (r: KaheNTTPoly)
    requires
        a.wf(),
        b.wf(),
    ensures
        r.wf(),
        forall|k: int|
            0 <= k < N ==> #[trigger] r@[k] == product_at(a@, b@, k) % (KAHE_MODULUS as int),
{
    let ghost q = KAHE_MODULUS as int;
    proof {
        a.lemma_values();
        b.lemma_values();
    }
    let zeros: [u64; N] = [0u64; N];
    let r = KaheNTTPoly {
        coeffs: ntt::pointwise_dot::<347_280_875_347_969>(&a.coeffs, &b.coeffs, &zeros),
    };
    proof {
        r.lemma_values();
        assert forall|i: int| 0 <= i < N implies field::cong(
            #[trigger] r.values()[i],
            a.values()[i] * b.values()[i],
            q,
        ) by {
            assert(r.coeffs@[i] == (zeros@[i] + a.coeffs@[i] * b.coeffs@[i]) % q);
            field::lemma_cong_mod(a.coeffs@[i] * b.coeffs@[i], q);
        }
        ntt::law_product_is_pointwise(
            KAHE_PSI as int,
            q,
            a@,
            b@,
            a.values(),
            b.values(),
            r.values(),
        );
        r.lemma_holds(Seq::new(N as nat, |i: int| product_at(a@, b@, i) % q));
    }
    r
}

/// `sum_j a[j] * b[j]` in the ring, value by value.
pub fn pointwise_dot_kahe(a: &[KaheNTTPoly], b: &[KaheNTTPoly]) -> (r: KaheNTTPoly)
    requires
        a.len() == b.len(),
        forall|j: int| 0 <= j < a.len() ==> (#[trigger] a[j]).wf(),
        forall|j: int| 0 <= j < b.len() ==> (#[trigger] b[j]).wf(),
    ensures
        r.wf(),
        forall|k: int|
            0 <= k < N ==> #[trigger] r@[k] == dot_at(
                a@.map(|_j: int, p: KaheNTTPoly| p@),
                b@.map(|_j: int, p: KaheNTTPoly| p@),
                k,
                a.len() as nat,
            ) % (KAHE_MODULUS as int),
{
    let mut acc = KaheNTTPoly::default();
    let ghost (ga, gb) = (a@.map(|_j: int, p: KaheNTTPoly| p@), b@.map(|_j: int, p: KaheNTTPoly| p@));
    for j in 0..a.len()
        invariant
            a.len() == b.len(),
            ga == a@.map(|_j: int, p: KaheNTTPoly| p@),
            gb == b@.map(|_j: int, p: KaheNTTPoly| p@),
            forall|i: int| 0 <= i < a.len() ==> (#[trigger] a[i]).wf(),
            forall|i: int| 0 <= i < b.len() ==> (#[trigger] b[i]).wf(),
            acc.wf(),
            forall|k: int|
                0 <= k < N ==> #[trigger] acc@[k] == dot_at(ga, gb, k, j as nat) % (KAHE_MODULUS as int),
    {
        let p = mul_kahe(&a[j], &b[j]);
        let next = acc + p;
        proof {
            assert forall|k: int| 0 <= k < N implies #[trigger] next@[k] == dot_at(
                ga,
                gb,
                k,
                (j + 1) as nat,
            ) % (KAHE_MODULUS as int) by {
                let (x, y) = (dot_at(ga, gb, k, j as nat), product_at(ga[j as int], gb[j as int], k));
                assert(acc@[k] == x % (KAHE_MODULUS as int));
                assert(p@[k] == y % (KAHE_MODULUS as int));
                field::lemma_cong_mod(x, KAHE_MODULUS as int);
                field::lemma_cong_mod(y, KAHE_MODULUS as int);
                field::lemma_cong_ops(acc@[k], x, p@[k], y, KAHE_MODULUS as int);
            }
        }
        acc = next;
    }
    acc
}

impl From<&KahePoly> for KaheNTTPoly {
    fn from(poly: &KahePoly) -> (r: Self)
        ensures
            r.wf(),
            forall|i: int| 0 <= i < N ==> #[trigger] r@[i] == poly@[i] % (KAHE_MODULUS as int),
    {
        KaheNTTPoly::from_poly(poly)
    }
}

impl vstd::std_specs::convert::FromSpecImpl<&KahePoly> for KaheNTTPoly {
    open spec fn obeys_from_spec() -> bool {
        false
    }

    open spec fn from_spec(v: &KahePoly) -> Self {
        arbitrary()
    }
}

// ---------------------------------------------------------------
// Multiplication-ready commitment elements
// ---------------------------------------------------------------

/// A commitment-ring element in canonical residues.
#[derive(Debug, Clone, Copy)]
pub struct CsNTTPoly {
    pub coeffs: [u64; N],
}

impl CsNTTPoly {
    pub open spec fn view(&self) -> Coeffs {
        wide_ints(self.coeffs@)
    }

    /// Every residue is canonical.
    pub open spec fn wf(&self) -> bool {
        forall|i: int| 0 <= i < N ==> 0 <= #[trigger] self@[i] < CS_MODULUS
    }

    /// The canonical residues of a polynomial.
    pub fn from_poly(poly: &CsPoly) -> (r: Self)
        ensures
            r.wf(),
            forall|i: int| 0 <= i < N ==> #[trigger] r@[i] == poly@[i] % (CS_MODULUS as int),
    {
        let mut coeffs: [u64; N] = [0u64; N];
        for i in 0..N
            invariant
                forall|j: int|
                    0 <= j < i ==> #[trigger] coeffs[j] == poly@[j] % (CS_MODULUS as int) && coeffs[j]
                        < CS_MODULUS,
        {
            assert(poly@[i as int] == poly.coeffs[i as int]);
            coeffs[i] = rem_euclid_i64(poly.coeffs[i] as i64, CS_MODULUS as i64) as u64;
        }
        let r = CsNTTPoly { coeffs };
        assert forall|i: int| 0 <= i < N implies #[trigger] r@[i] == poly@[i] % (CS_MODULUS as int) && 0
            <= r@[i] < CS_MODULUS by {
            assert(coeffs[i] == poly@[i] % (CS_MODULUS as int) && coeffs[i] < CS_MODULUS);
        }
        r
    }

    /// The centered polynomial.
    pub fn to_poly(&self) -> (r: CsPoly)
        requires
            self.wf(),
        ensures
            forall|i: int|
                0 <= i < N ==> #[trigger] r@[i] == centered(self@[i], CS_MODULUS as int),
    {
        let mut coeffs: [i32; N] = [0i32; N];
        for i in 0..N
            invariant
                self.wf(),
                forall|j: int|
                    0 <= j < i ==> #[trigger] coeffs[j] == centered(self@[j], CS_MODULUS as int),
        {
            assert(self@[i as int] == self.coeffs[i as int]);
            proof {
                negacyclic::lemma_centered(self@[i as int], CS_MODULUS as int);
            }
            coeffs[i] = center_canonical_i64(self.coeffs[i] as i64, CS_MODULUS as i64) as i32;
        }
        let r = CsPoly { coeffs };
        assert forall|i: int| 0 <= i < N implies #[trigger] r@[i] == centered(
            self@[i],
            CS_MODULUS as int,
        ) by {
            assert(coeffs[i] == centered(self@[i], CS_MODULUS as int));
        }
        r
    }
}

impl Default for CsNTTPoly {
    fn default() -> (r: Self)
        ensures
            forall|i: int| 0 <= i < N ==> #[trigger] r.coeffs[i] == 0,
            r.wf(),
    {
        CsNTTPoly { coeffs: [0u64; N] }
    }
}

impl PartialEq for CsNTTPoly {
    fn eq(&self, other: &Self) -> (r: bool) {
        for i in 0..N
            invariant
                forall|j: int| 0 <= j < i ==> #[trigger] self@[j] == other@[j],
        {
            assert(self@[i as int] == self.coeffs[i as int]);
            assert(other@[i as int] == other.coeffs[i as int]);
            if self.coeffs[i] != other.coeffs[i] {
                return false;
            }
        }
        assert(self@ =~= other@);
        true
    }
}

impl vstd::std_specs::cmp::PartialEqSpecImpl for CsNTTPoly {
    open spec fn obeys_eq_spec() -> bool {
        true
    }

    open spec fn eq_spec(&self, other: &Self) -> bool {
        self@ == other@
    }
}

impl Eq for CsNTTPoly {

}

impl std::ops::Add for CsNTTPoly {
    type Output = CsNTTPoly;

    fn add(self, rhs: CsNTTPoly) -> (r: CsNTTPoly)
        ensures
            r.wf(),
            forall|i: int|
                0 <= i < N ==> #[trigger] r@[i] == (self@[i] + rhs@[i]) % (CS_MODULUS as int),
    {
        let mut coeffs: [u64; N] = [0u64; N];
        for i in 0..N
            invariant
                self.wf(),
                rhs.wf(),
                forall|j: int|
                    0 <= j < i ==> #[trigger] coeffs[j] == (self@[j] + rhs@[j]) % (CS_MODULUS as int),
        {
            assert(self@[i as int] == self.coeffs[i as int]);
            assert(rhs@[i as int] == rhs.coeffs[i as int]);
            let v: i64 = self.coeffs[i] as i64 + rhs.coeffs[i] as i64;
            coeffs[i] = rem_euclid_i64(v, CS_MODULUS as i64) as u64;
        }
        let r = CsNTTPoly { coeffs };
        assert forall|i: int| 0 <= i < N implies #[trigger] r@[i] == (self@[i] + rhs@[i]) % (
            CS_MODULUS as int) && 0 <= r@[i] < CS_MODULUS by {
            assert(coeffs[i] == (self@[i] + rhs@[i]) % (CS_MODULUS as int));
            vstd::arithmetic::div_mod::lemma_mod_bound(self@[i] + rhs@[i], CS_MODULUS as int);
        }
        r
    }
}

impl vstd::std_specs::ops::AddSpecImpl for CsNTTPoly {
    open spec fn obeys_add_spec() -> bool {
        false
    }

    open spec fn add_req(self, rhs: CsNTTPoly) -> bool {
        self.wf() && rhs.wf()
    }

    open spec fn add_spec(self, rhs: CsNTTPoly) -> CsNTTPoly {
        self
    }
}

impl std::ops::Sub for CsNTTPoly {
    type Output = CsNTTPoly;

    fn sub(self, rhs: CsNTTPoly) -> (r: CsNTTPoly)
        ensures
            r.wf(),
            forall|i: int|
                0 <= i < N ==> #[trigger] r@[i] == (self@[i] - rhs@[i]) % (CS_MODULUS as int),
    {
        let mut coeffs: [u64; N] = [0u64; N];
        for i in 0..N
            invariant
                self.wf(),
                rhs.wf(),
                forall|j: int|
                    0 <= j < i ==> #[trigger] coeffs[j] == (self@[j] - rhs@[j]) % (CS_MODULUS as int),
        {
            assert(self@[i as int] == self.coeffs[i as int]);
            assert(rhs@[i as int] == rhs.coeffs[i as int]);
            let v: i64 = self.coeffs[i] as i64 - rhs.coeffs[i] as i64;
            coeffs[i] = rem_euclid_i64(v, CS_MODULUS as i64) as u64;
        }
        let r = CsNTTPoly { coeffs };
        assert forall|i: int| 0 <= i < N implies #[trigger] r@[i] == (self@[i] - rhs@[i]) % (
            CS_MODULUS as int) && 0 <= r@[i] < CS_MODULUS by {
            assert(coeffs[i] == (self@[i] - rhs@[i]) % (CS_MODULUS as int));
            vstd::arithmetic::div_mod::lemma_mod_bound(self@[i] - rhs@[i], CS_MODULUS as int);
        }
        r
    }
}

impl vstd::std_specs::ops::SubSpecImpl for CsNTTPoly {
    open spec fn obeys_sub_spec() -> bool {
        false
    }

    open spec fn sub_req(self, rhs: CsNTTPoly) -> bool {
        self.wf() && rhs.wf()
    }

    open spec fn sub_spec(self, rhs: CsNTTPoly) -> CsNTTPoly {
        self
    }
}

/// The ring product of two elements, in canonical residues.
pub fn mul_cs(a: &CsNTTPoly, b: &CsNTTPoly) -> (r: CsNTTPoly)
    requires
        a.wf(),
        b.wf(),
    ensures
        r.wf(),
        forall|k: int|
            0 <= k < N ==> #[trigger] r@[k] == product_at(a@, b@, k) % (CS_MODULUS as int),
{
    assert forall|i: int| 0 <= i < N implies #[trigger] wide_ints(a.coeffs@)[i] < CS_MODULUS by {
        assert(a@[i] < CS_MODULUS);
    }
    assert forall|i: int| 0 <= i < N implies #[trigger] wide_ints(b.coeffs@)[i] < CS_MODULUS by {
        assert(b@[i] < CS_MODULUS);
    }
    let x: [i64; N] = signed_copy(&a.coeffs, CS_MODULUS as u64);
    let y: [i64; N] = signed_copy(&b.coeffs, CS_MODULUS as u64);
    assert(negacyclic::ints(x@) =~= a@);
    assert(negacyclic::ints(y@) =~= b@);
    let top: i64 = CS_MODULUS as i64 - 1;
    assert(N * (top * top) <= i128::MAX) by (nonlinear_arith)
        requires
            0 <= top < 0x8_0000_0000_0000,
            N == 2048,
    ;
    let exact: Vec<i128> = negacyclic::multiply(&x, &y, top, top);
    let mut coeffs: [u64; N] = [0u64; N];
    for k in 0..N
        invariant
            exact.len() == N,
            forall|j: int| 0 <= j < N ==> #[trigger] exact[j] == product_at(a@, b@, j),
            forall|j: int|
                0 <= j < k ==> #[trigger] coeffs[j] == product_at(a@, b@, j) % (CS_MODULUS as int)
                    && coeffs[j] < CS_MODULUS,
    {
        coeffs[k] = rem_euclid_i128(exact[k], CS_MODULUS as i64) as u64;
    }
    let r = CsNTTPoly { coeffs };
    assert forall|k: int| 0 <= k < N implies #[trigger] r@[k] == product_at(a@, b@, k) % (
        CS_MODULUS as int) && 0 <= r@[k] < CS_MODULUS by {
        assert(coeffs[k] == product_at(a@, b@, k) % (CS_MODULUS as int) && coeffs[k] < CS_MODULUS);
    }
    r
}

/// `sum_j a[j] * b[j]` in the ring, in canonical residues.
pub fn pointwise_dot_cs(a: &[CsNTTPoly], b: &[CsNTTPoly]) -> (r: CsNTTPoly)
    requires
        a.len() == b.len(),
        forall|j: int| 0 <= j < a.len() ==> (#[trigger] a[j]).wf(),
        forall|j: int| 0 <= j < b.len() ==> (#[trigger] b[j]).wf(),
    ensures
        r.wf(),
        forall|k: int|
            0 <= k < N ==> #[trigger] r@[k] == dot_at(
                a@.map(|_j: int, p: CsNTTPoly| p@),
                b@.map(|_j: int, p: CsNTTPoly| p@),
                k,
                a.len() as nat,
            ) % (CS_MODULUS as int),
{
    let mut acc = CsNTTPoly::default();
    let ghost (ga, gb) = (a@.map(|_j: int, p: CsNTTPoly| p@), b@.map(|_j: int, p: CsNTTPoly| p@));
    for j in 0..a.len()
        invariant
            a.len() == b.len(),
            ga == a@.map(|_j: int, p: CsNTTPoly| p@),
            gb == b@.map(|_j: int, p: CsNTTPoly| p@),
            forall|i: int| 0 <= i < a.len() ==> (#[trigger] a[i]).wf(),
            forall|i: int| 0 <= i < b.len() ==> (#[trigger] b[i]).wf(),
            acc.wf(),
            forall|k: int|
                0 <= k < N ==> #[trigger] acc@[k] == dot_at(ga, gb, k, j as nat) % (CS_MODULUS as int),
    {
        let p = mul_cs(&a[j], &b[j]);
        let next = acc + p;
        proof {
            assert forall|k: int| 0 <= k < N implies #[trigger] next@[k] == dot_at(
                ga,
                gb,
                k,
                (j + 1) as nat,
            ) % (CS_MODULUS as int) by {
                let (x, y) = (dot_at(ga, gb, k, j as nat), product_at(ga[j as int], gb[j as int], k));
                assert(acc@[k] == x % (CS_MODULUS as int));
                assert(p@[k] == y % (CS_MODULUS as int));
                field::lemma_cong_mod(x, CS_MODULUS as int);
                field::lemma_cong_mod(y, CS_MODULUS as int);
                field::lemma_cong_ops(acc@[k], x, p@[k], y, CS_MODULUS as int);
            }
        }
        acc = next;
    }
    acc
}

impl From<&CsPoly> for CsNTTPoly {
    fn from(poly: &CsPoly) -> (r: Self)
        ensures
            r.wf(),
            forall|i: int| 0 <= i < N ==> #[trigger] r@[i] == poly@[i] % (CS_MODULUS as int),
    {
        CsNTTPoly::from_poly(poly)
    }
}

impl vstd::std_specs::convert::FromSpecImpl<&CsPoly> for CsNTTPoly {
    open spec fn obeys_from_spec() -> bool {
        false
    }

    open spec fn from_spec(v: &CsPoly) -> Self {
        arbitrary()
    }
}

// ---------------------------------------------------------------
// Multiplication-ready digest elements
// ---------------------------------------------------------------

/// A digest-ring element: its values at the roots, in canonical residues.
#[derive(Debug, Clone, Copy)]
pub struct DgtNTTPoly {
    pub coeffs: [u64; N],
}

impl DgtNTTPoly {
    pub open spec fn view(&self) -> Coeffs {
        wide_ints(self.coeffs@)
    }

    /// Every residue is canonical.
    pub open spec fn wf(&self) -> bool {
        forall|i: int| 0 <= i < N ==> 0 <= #[trigger] self@[i] < DGT_MODULUS
    }

    /// Uniform values that the generator gives, in order.
    pub fn rand_ntt_poly(rng: &mut ChaCha20Rng) -> (r: Self)
        ensures
            r.wf(),
            run(uniform_values(DGT_MODULUS as int), *old(rng), r@, *final(rng)),
    {
        let coeffs: [u64; N] = uniform_residues(rng, DGT_MODULUS);
        let r = DgtNTTPoly { coeffs };
        assert forall|i: int| 0 <= i < N implies 0 <= #[trigger] r@[i] < DGT_MODULUS by {
            assert(coeffs@[i] < DGT_MODULUS);
        }
        assert(r@ =~= Seq::new(N as nat, |i: int| coeffs@[i] as int));
        r
    }

    pub fn coeffs(&self) -> (r: &[u64; N])
        ensures
            *r == self.coeffs,
    {
        &self.coeffs
    }

    /// Reduces raw words to canonical residues.
    pub fn from_raw(coeffs: &[u64; N]) -> (r: Self)
        ensures
            r.wf(),
            forall|i: int| 0 <= i < N ==> #[trigger] r@[i] == coeffs[i] as int % (DGT_MODULUS as int),
    {
        let mut out: [u64; N] = [0u64; N];
        for i in 0..N
            invariant
                forall|j: int|
                    0 <= j < i ==> #[trigger] out[j] == coeffs[j] as int % (DGT_MODULUS as int),
        {
            out[i] = coeffs[i] % DGT_MODULUS;
        }
        let r = DgtNTTPoly { coeffs: out };
        assert forall|i: int| 0 <= i < N implies #[trigger] r@[i] == coeffs[i] as int % (
            DGT_MODULUS as int) && 0 <= r@[i] < DGT_MODULUS by {
            assert(out[i] == coeffs[i] as int % (DGT_MODULUS as int));
        }
        r
    }

    /// The element whose values these are.
    pub open spec fn poly(&self) -> Coeffs {
        ntt::coefficients_of(DGT_PSI as int, DGT_MODULUS as int, self@)
    }

    /// These are the values of `c`.
    pub open spec fn holds(&self, c: Coeffs) -> bool {
        ntt::is_transform(DGT_PSI as int, DGT_MODULUS as int, c, self@)
    }

    /// Embeds a ciphertext element: the values of its centered coefficients.
    pub fn from_kahe(poly: &KahePoly) -> (r: Self)
        ensures
            r.wf(),
            r.holds(embedding(poly@)),
            r.poly() == embedding(poly@),
    {
        let mut out: [u64; N] = [0u64; N];
        for i in 0..N
            invariant
                forall|j: int|
                    0 <= j < i ==> #[trigger] out@[j] == embedding(poly@)[j] && out@[j]
                        < DGT_MODULUS,
        {
            assert(poly@[i as int] == poly.coeffs[i as int]);
            let c: i64 = center_i64(poly.coeffs[i], KAHE_MODULUS);
            out[i] = rem_euclid_i64(c, DGT_MODULUS as i64) as u64;
        }
        proof {
            lemma_dgt();
            assert(ntt::words(out@) =~= embedding(poly@));
        }
        let r = DgtNTTPoly {
            coeffs: ntt::transform::<2_305_843_009_213_616_129>(DGT_PSI, &out),
        };
        proof {
            assert(ntt::words(r.coeffs@) =~= r@);
            assert forall|i: int| 0 <= i < N implies 0 <= #[trigger] r@[i] < DGT_MODULUS by {
                assert(r.coeffs@[i] < DGT_MODULUS);
            }
            ntt::lemma_coefficients(
                DGT_PSI as int,
                DGT_MODULUS as int,
                embedding(poly@),
                r@,
            );
        }
        r
    }

    /// The centered integer coefficients.
    pub fn to_centered_coeffs(&self) -> (r: [i64; N])
        requires
            self.wf(),
        ensures
            self.holds(self.poly()),
            forall|i: int|
                0 <= i < N ==> #[trigger] r[i] == centered(self.poly()[i], DGT_MODULUS as int),
    {
        proof {
            lemma_dgt();
            assert(ntt::words(self.coeffs@) =~= self@);
            assert forall|i: int| 0 <= i < self.coeffs@.len() implies #[trigger] self.coeffs@[i]
                < DGT_MODULUS by {
                assert(self@[i] < DGT_MODULUS);
            }
        }
        let c: [u64; N] = ntt::restore::<2_305_843_009_213_616_129>(DGT_PSI, &self.coeffs);
        proof {
            ntt::lemma_coefficients(
                DGT_PSI as int,
                DGT_MODULUS as int,
                ntt::words(c@),
                self@,
            );
        }
        let mut out: [i64; N] = [0i64; N];
        for i in 0..N
            invariant
                ntt::reduced(c@, DGT_MODULUS as int),
                self.poly() == ntt::words(c@),
                forall|j: int|
                    0 <= j < i ==> #[trigger] out[j] == centered(
                        self.poly()[j],
                        DGT_MODULUS as int,
                    ),
        {
            assert(c@[i as int] < DGT_MODULUS);
            out[i] = center_canonical_i64(c[i] as i64, DGT_MODULUS as i64);
        }
        out
    }
}

impl Default for DgtNTTPoly {
    fn default() -> (r: Self)
        ensures
            forall|i: int| 0 <= i < N ==> #[trigger] r.coeffs[i] == 0,
            r.wf(),
    {
        let mut coeffs: [u64; N] = [0u64; N];
        for i in 0..N
            invariant
                forall|j: int| 0 <= j < i ==> #[trigger] coeffs[j] == 0,
        {
            coeffs[i] = 0;
        }
        let r = DgtNTTPoly { coeffs };
        assert forall|i: int| 0 <= i < N implies 0 <= #[trigger] r@[i] < DGT_MODULUS by {
            assert(r.coeffs[i] == 0);
        }
        r
    }
}

impl PartialEq for DgtNTTPoly {
    fn eq(&self, other: &Self) -> (r: bool) {
        for i in 0..N
            invariant
                forall|j: int| 0 <= j < i ==> #[trigger] self@[j] == other@[j],
        {
            assert(self@[i as int] == self.coeffs[i as int]);
            assert(other@[i as int] == other.coeffs[i as int]);
            if self.coeffs[i] != other.coeffs[i] {
                return false;
            }
        }
        assert(self@ =~= other@);
        true
    }
}

impl vstd::std_specs::cmp::PartialEqSpecImpl for DgtNTTPoly {
    open spec fn obeys_eq_spec() -> bool {
        true
    }

    open spec fn eq_spec(&self, other: &Self) -> bool {
        self@ == other@
    }
}

impl Eq for DgtNTTPoly {

}

impl std::ops::Add for DgtNTTPoly {
    type Output = DgtNTTPoly;

    fn add(self, rhs: DgtNTTPoly) -> (r: DgtNTTPoly)
        ensures
            r.wf(),
            forall|i: int|
                0 <= i < N ==> #[trigger] r@[i] == (self@[i] + rhs@[i]) % (DGT_MODULUS as int),
    {
        let mut coeffs: [u64; N] = [0u64; N];
        for i in 0..N
            invariant
                self.wf(),
                rhs.wf(),
                forall|j: int|
                    0 <= j < i ==> #[trigger] coeffs[j] == (self@[j] + rhs@[j]) % (DGT_MODULUS as int),
        {
            assert(self@[i as int] == self.coeffs[i as int]);
            assert(rhs@[i as int] == rhs.coeffs[i as int]);
            let v: i64 = self.coeffs[i] as i64 + rhs.coeffs[i] as i64;
            coeffs[i] = rem_euclid_i64(v, DGT_MODULUS as i64) as u64;
        }
        let r = DgtNTTPoly { coeffs };
        assert forall|i: int| 0 <= i < N implies #[trigger] r@[i] == (self@[i] + rhs@[i]) % (
            DGT_MODULUS as int) && 0 <= r@[i] < DGT_MODULUS by {
            assert(coeffs[i] == (self@[i] + rhs@[i]) % (DGT_MODULUS as int));
            vstd::arithmetic::div_mod::lemma_mod_bound(self@[i] + rhs@[i], DGT_MODULUS as int);
        }
        r
    }
}

impl vstd::std_specs::ops::AddSpecImpl for DgtNTTPoly {
    open spec fn obeys_add_spec() -> bool {
        false
    }

    open spec fn add_req(self, rhs: DgtNTTPoly) -> bool {
        self.wf() && rhs.wf()
    }

    open spec fn add_spec(self, rhs: DgtNTTPoly) -> DgtNTTPoly {
        self
    }
}

impl std::ops::Sub for DgtNTTPoly {
    type Output = DgtNTTPoly;

    fn sub(self, rhs: DgtNTTPoly) -> (r: DgtNTTPoly)
        ensures
            r.wf(),
            forall|i: int|
                0 <= i < N ==> #[trigger] r@[i] == (self@[i] - rhs@[i]) % (DGT_MODULUS as int),
    {
        let mut coeffs: [u64; N] = [0u64; N];
        for i in 0..N
            invariant
                self.wf(),
                rhs.wf(),
                forall|j: int|
                    0 <= j < i ==> #[trigger] coeffs[j] == (self@[j] - rhs@[j]) % (DGT_MODULUS as int),
        {
            assert(self@[i as int] == self.coeffs[i as int]);
            assert(rhs@[i as int] == rhs.coeffs[i as int]);
            let v: i64 = self.coeffs[i] as i64 - rhs.coeffs[i] as i64;
            coeffs[i] = rem_euclid_i64(v, DGT_MODULUS as i64) as u64;
        }
        let r = DgtNTTPoly { coeffs };
        assert forall|i: int| 0 <= i < N implies #[trigger] r@[i] == (self@[i] - rhs@[i]) % (
            DGT_MODULUS as int) && 0 <= r@[i] < DGT_MODULUS by {
            assert(coeffs[i] == (self@[i] - rhs@[i]) % (DGT_MODULUS as int));
            vstd::arithmetic::div_mod::lemma_mod_bound(self@[i] - rhs@[i], DGT_MODULUS as int);
        }
        r
    }
}

impl vstd::std_specs::ops::SubSpecImpl for DgtNTTPoly {
    open spec fn obeys_sub_spec() -> bool {
        false
    }

    open spec fn sub_req(self, rhs: DgtNTTPoly) -> bool {
        self.wf() && rhs.wf()
    }

    open spec fn sub_spec(self, rhs: DgtNTTPoly) -> DgtNTTPoly {
        self
    }
}

/// `sum_j a[j][i] * b[j][i]` over the first `upto` elements.
pub open spec fn slot_dot(a: Seq<Coeffs>, b: Seq<Coeffs>, i: int, upto: nat) -> int
    decreases upto,
{
    if upto == 0 {
        0
    } else {
        slot_dot(a, b, i, (upto - 1) as nat) + a[upto - 1][i] * b[upto - 1][i]
    }
}

/// Adding elements adds what they contribute.
pub proof fn lemma_slot_linear(k: Seq<Coeffs>, a: Seq<Coeffs>, b: Seq<Coeffs>, i: int, upto: nat)
    requires
        upto <= a.len(),
        upto <= b.len(),
        forall|j: int| 0 <= j < upto ==> (#[trigger] a[j]).len() == N,
        forall|j: int| 0 <= j < upto ==> (#[trigger] b[j]).len() == N,
        0 <= i < N,
    ensures
        slot_dot(k, add_polys(a, b), i, upto) == slot_dot(k, a, i, upto) + slot_dot(k, b, i, upto),
    decreases upto,
{
    if upto > 0 {
        let j = upto - 1;
        lemma_slot_linear(k, a, b, i, j as nat);
        assert(a[j].len() == N && b[j].len() == N);
        let (x, y, z) = (k[j][i], a[j][i], b[j][i]);
        assert(add_polys(a, b)[j][i] == y + z);
        assert(x * (y + z) == x * y + x * z) by (nonlinear_arith);
    }
}

/// Congruent elements contribute congruently.
pub proof fn lemma_slot_cong(
    k: Seq<Coeffs>,
    a: Seq<Coeffs>,
    b: Seq<Coeffs>,
    i: int,
    upto: nat,
    q: int,
)
    requires
        q > 0,
        forall|j: int| 0 <= j < upto ==> cong(#[trigger] a[j][i], b[j][i], q),
    ensures
        cong(slot_dot(k, a, i, upto), slot_dot(k, b, i, upto), q),
    decreases upto,
{
    if upto > 0 {
        let j = upto - 1;
        lemma_slot_cong(k, a, b, i, j as nat, q);
        let x = k[j][i];
        assert(cong(a[j][i], b[j][i], q));
        field::lemma_cong_ops(x, x, a[j][i], b[j][i], q);
        field::lemma_cong_ops(
            slot_dot(k, a, i, j as nat),
            slot_dot(k, b, i, j as nat),
            x * a[j][i],
            x * b[j][i],
            q,
        );
    }
}

/// `sum_j a[j] * b[j]` in the ring: value by value, in canonical residues.
pub fn pointwise_dot_dgt(a: &[DgtNTTPoly], b: &[DgtNTTPoly]) -> (r: DgtNTTPoly)
    requires
        a.len() == b.len(),
        forall|j: int| 0 <= j < a.len() ==> (#[trigger] a[j]).wf(),
        forall|j: int| 0 <= j < b.len() ==> (#[trigger] b[j]).wf(),
    ensures
        r.wf(),
        forall|k: int|
            0 <= k < N ==> #[trigger] r@[k] == slot_dot(
                a@.map(|_j: int, p: DgtNTTPoly| p@),
                b@.map(|_j: int, p: DgtNTTPoly| p@),
                k,
                a.len() as nat,
            ) % (DGT_MODULUS as int),
{
    let ghost ga = a@.map(|_j: int, p: DgtNTTPoly| p@);
    let ghost gb = b@.map(|_j: int, p: DgtNTTPoly| p@);
    let ghost q = DGT_MODULUS as int;
    let mut acc: DgtNTTPoly = DgtNTTPoly::default();
    proof {
        assert forall|k: int| 0 <= k < N implies #[trigger] acc@[k] == slot_dot(ga, gb, k, 0) % q by {
            assert(acc.coeffs[k] == 0);
            field::lemma_small(0, q);
        }
    }
    for j in 0..a.len()
        invariant
            q == DGT_MODULUS,
            ga == a@.map(|_j: int, p: DgtNTTPoly| p@),
            gb == b@.map(|_j: int, p: DgtNTTPoly| p@),
            a.len() == b.len(),
            forall|j: int| 0 <= j < a.len() ==> (#[trigger] a[j]).wf(),
            forall|j: int| 0 <= j < b.len() ==> (#[trigger] b[j]).wf(),
            acc.wf(),
            forall|k: int| 0 <= k < N ==> #[trigger] acc@[k] == slot_dot(ga, gb, k, j as nat) % q,
    {
        let (x, y): (&DgtNTTPoly, &DgtNTTPoly) = (&a[j], &b[j]);
        proof {
            assert(a[j as int].wf() && b[j as int].wf());
            lemma_dgt_words(*x);
            lemma_dgt_words(*y);
            lemma_dgt_words(acc);
        }
        let next = DgtNTTPoly {
            coeffs: ntt::pointwise_dot::<2_305_843_009_213_616_129>(
                &x.coeffs,
                &y.coeffs,
                &acc.coeffs,
            ),
        };
        proof {
            assert forall|k: int| 0 <= k < N implies #[trigger] next@[k] == slot_dot(
                ga,
                gb,
                k,
                (j + 1) as nat,
            ) % q && 0 <= next@[k] < DGT_MODULUS by {
                let s = slot_dot(ga, gb, k, j as nat);
                let p = x@[k] * y@[k];
                assert(next.coeffs@[k] == (acc.coeffs@[k] + x.coeffs@[k] * y.coeffs@[k]) % q);
                assert(next.coeffs@[k] < DGT_MODULUS);
                assert(ga[j as int][k] == x@[k] && gb[j as int][k] == y@[k]);
                assert(acc@[k] == acc.coeffs@[k]);
                field::lemma_cong_mod(s, q);
                field::lemma_cong_ops(acc@[k], s, p, p, q);
            }
        }
        acc = next;
    }
    acc
}

proof fn lemma_dgt_words(p: DgtNTTPoly)
    requires
        p.wf(),
    ensures
        ntt::reduced(p.coeffs@, DGT_MODULUS as int),
        forall|k: int| 0 <= k < N ==> #[trigger] p.coeffs@[k] == p@[k],
{
    assert forall|i: int| 0 <= i < p.coeffs@.len() implies #[trigger] p.coeffs@[i]
        < DGT_MODULUS by {
        assert(p@[i] < DGT_MODULUS);
    }
}

/// The digest ring has its transform.
pub proof fn lemma_dgt()
    ensures
        ntt::is_root(DGT_PSI as int, DGT_MODULUS as int),
{
    primes::lemma_dgt_modulus_prime();
    primes::lemma_dgt_root();
}

/// Values of integer coefficients are values of their residues, and of nothing
/// else.
pub proof fn lemma_values_of(v: DgtNTTPoly, c: Coeffs)
    requires
        c.len() == N,
        forall|i: int|
            0 <= i < N ==> cong(
                #[trigger] v@[i],
                field::eval(c, ntt::points(DGT_PSI as int, N as nat, 11)[i]),
                DGT_MODULUS as int,
            ),
    ensures
        v.holds(v.poly()),
        v.poly() == Seq::new(N as nat, |k: int| c[k] % (DGT_MODULUS as int)),
{
    let q = DGT_MODULUS as int;
    let d = Seq::new(N as nat, |k: int| c[k] % q);
    lemma_dgt();
    assert forall|k: int| 0 <= k < N implies 0 <= #[trigger] d[k] < q && cong(d[k], c[k], q) by {
        vstd::arithmetic::div_mod::lemma_mod_bound(c[k], q);
        field::lemma_cong_mod(c[k], q);
    }
    assert forall|i: int| 0 <= i < N implies cong(
        #[trigger] v@[i],
        field::eval(d, ntt::points(DGT_PSI as int, N as nat, 11)[i]),
        q,
    ) by {
        ntt::lemma_eval_cong(d, c, ntt::points(DGT_PSI as int, N as nat, 11)[i], q);
    }
    assert(v.holds(d));
    ntt::lemma_coefficients(DGT_PSI as int, q, d, v@);
}

/// The centered coefficients of a ciphertext element as digest-ring residues.
pub open spec fn embedding(c: Coeffs) -> Coeffs {
    Seq::new(N as nat, |i: int| centered(c[i], KAHE_MODULUS as int) % (DGT_MODULUS as int))
}

/// An array of zeros.
pub fn zero_words() -> (r: [u32; N])
    ensures
        forall|i: int| 0 <= i < N ==> #[trigger] r[i] == 0,
{
    let mut r: [u32; N] = [0u32; N];
    for i in 0..N
        invariant
            forall|j: int| 0 <= j < i ==> #[trigger] r[j] == 0,
    {
        r[i] = 0;
    }
    r
}

/// Ciphertext-ring elements are equal exactly if all coefficients are congruent.
pub proof fn law_ciphertext_equality(a: KahePoly, b: KahePoly)
    ensures
        a.eq_spec(&b) <==> forall|i: int|
            0 <= i < 2048 ==> #[trigger] a@[i] % (KAHE_MODULUS as int) == b@[i] % (KAHE_MODULUS as int),
{
    if a.eq_spec(&b) {
        assert forall|i: int| 0 <= i < 2048 implies #[trigger] a@[i] % (KAHE_MODULUS as int) == b@[i] % (
        KAHE_MODULUS as int) by {
            assert(cong(a@[i], b@[i], KAHE_MODULUS as int));
        }
    }
}

/// Commitment-ring elements are equal exactly if all coefficients are congruent.
pub proof fn law_commitment_equality(a: CsPoly, b: CsPoly)
    ensures
        a.eq_spec(&b) <==> forall|i: int|
            0 <= i < 2048 ==> #[trigger] a@[i] % (CS_MODULUS as int) == b@[i] % (CS_MODULUS as int),
{
    if a.eq_spec(&b) {
        assert forall|i: int| 0 <= i < 2048 implies #[trigger] a@[i] % (CS_MODULUS as int) == b@[i] % (
        CS_MODULUS as int) by {
            assert(cong(a@[i], b@[i], CS_MODULUS as int));
        }
    }
}

/// Tree-hash elements are equal exactly if all coefficients are congruent.
pub proof fn law_tree_equality(a: HVCPoly, b: HVCPoly)
    ensures
        a.eq_spec(&b) <==> forall|i: int|
            0 <= i < 2048 ==> #[trigger] a@[i] % (HVC_MODULUS as int) == b@[i] % (HVC_MODULUS as int),
{
    if a.eq_spec(&b) {
        assert forall|i: int| 0 <= i < 2048 implies #[trigger] a@[i] % (HVC_MODULUS as int) == b@[i] % (
        HVC_MODULUS as int) by {
            assert(cong(a@[i], b@[i], HVC_MODULUS as int));
        }
    }
}

/// The digest of an element reads every coefficient in its canonical form, eight
/// bytes each, least significant first.
pub proof fn law_digest_reads_every_coefficient(p: KahePoly, upto: nat, i: int)
    requires
        0 <= i < upto <= N,
    ensures
        p.digest_input(upto).len() == 8 * upto,
        crate::bytes::le_value(p.digest_input(upto).subrange(8 * i, 8 * i + 8)) == p@[i] % (
        KAHE_MODULUS as int),
    decreases upto,
{
    let m = (upto - 1) as nat;
    let v = (p@[m as int] % (KAHE_MODULUS as int)) as nat;
    let (low, all) = (p.digest_input(m), p.digest_input(upto));
    vstd::arithmetic::div_mod::lemma_mod_bound(p@[m as int], KAHE_MODULUS as int);
    crate::bytes::lemma_le_len(v, 8);
    reveal_with_fuel(crate::bytes::byte_span, 9);
    crate::bytes::lemma_le_round_trip(v, 8);
    if m > 0 {
        law_digest_reads_every_coefficient(p, m, if i < m { i } else { 0 });
    } else {
        assert(low.len() == 0);
    }
    assert(all == low + crate::bytes::le_bytes(v, 8));
    if i < m {
        assert(all.subrange(8 * i, 8 * i + 8) =~= low.subrange(8 * i, 8 * i + 8));
    } else {
        assert(all.subrange(8 * i, 8 * i + 8) =~= crate::bytes::le_bytes(v, 8));
    }
}

} // verus!
