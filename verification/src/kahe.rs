//! Key-additive homomorphic encryption over the ciphertext ring.
//!
//! ```text
//! Enc(m, sk):  c = m + a * sk + t * e
//! Dec(c, sk):  (c - a * sk) reduced modulo q, then modulo t
//! ```
//!
//! Keys and errors are small ring elements that the caller samples.

use crate::field::{self, cong, sum};
use crate::negacyclic::{
    self, center_half_open_i64, center_i64, centered, centered_half_open, cong_poly,
    lemma_centered, lemma_centered_cong, lemma_centered_id, lemma_truncated, product_at,
    rem_euclid_i128, truncated, within, Coeffs, N,
};
use crate::random::{lemma_run_empty, lemma_run_push, run, uniform_values};
use crate::rings::{
    centered_poly, mul_kahe, CsPoly, KaheNTTPoly, KahePoly, CS_MODULUS, CS_MODULUS_OVER_TWO,
    KAHE_MODULUS, KAHE_MODULUS_OVER_TWO, KAHE_ROOM,
};
use rand_chacha::ChaCha20Rng;
use vstd::prelude::*;

verus! {

/// The ciphertext modulus as an integer.
pub open spec fn q() -> int {
    KAHE_MODULUS as int
}

/// Default plaintext modulus, `2^36`.
pub const T_MODULUS_DEFAULT: u64 = 68_719_476_736;

/// Public parameters: the vector `a` and the plaintext modulus.
pub struct KaheParams {
    pub a_ntt: Vec<KaheNTTPoly>,
    pub mu_kahe: usize,
    pub t_modulus: u64,
}

impl KaheParams {
    pub open spec fn wf(&self) -> bool {
        &&& self.mu_kahe >= 1
        &&& self.a_ntt.len() == self.mu_kahe
        &&& 2 <= self.t_modulus <= i64::MAX
        &&& forall|i: int| 0 <= i < self.a_ntt.len() ==> (#[trigger] self.a_ntt[i]).wf()
    }
}

/// A fresh key: one sampled ring element.
#[derive(Clone, Copy)]
pub struct KaheKey(pub KahePoly);

impl KaheKey {
    pub fn inner(&self) -> (r: &KahePoly)
        ensures
            *r == self.0,
    {
        &self.0
    }
}

/// An aggregate key.
#[derive(Clone, Copy)]
pub struct KaheAggKey(pub KahePoly);

impl KaheAggKey {
    pub fn inner(&self) -> (r: &KahePoly)
        ensures
            *r == self.0,
    {
        &self.0
    }

    pub fn from_component(component: KahePoly) -> (r: Self)
        ensures
            r.0 == component,
    {
        KaheAggKey(component)
    }
}

/// The coefficient vectors of a ciphertext or message.
pub open spec fn kahe_views(s: Seq<KahePoly>) -> Seq<Coeffs> {
    s.map(|_i: int, p: KahePoly| p@)
}

/// Every element has representatives strictly between `-q` and `q`.
pub open spec fn all_reduced(s: Seq<KahePoly>) -> bool {
    forall|i: int| 0 <= i < s.len() ==> (#[trigger] s[i]).reduced()
}

/// Every element leaves room for adding a reduced one.
pub open spec fn all_roomy(s: Seq<KahePoly>) -> bool {
    forall|i: int| 0 <= i < s.len() ==> (#[trigger] s[i]).roomy()
}

/// Reduced elements leave room.
pub proof fn lemma_roomy(s: Seq<KahePoly>)
    requires
        all_reduced(s),
    ensures
        all_roomy(s),
{
    assert forall|i: int| 0 <= i < s.len() implies (#[trigger] s[i]).roomy() by {
        assert(s[i].reduced());
        assert forall|j: int| 0 <= j < s[i]@.len() implies -KAHE_ROOM <= #[trigger] s[i]@[j]
            <= KAHE_ROOM by {
            assert(-(KAHE_MODULUS - 1) <= s[i]@[j] <= KAHE_MODULUS - 1);
        }
    }
}

/// Whether every element leaves room for adding a reduced one.
pub fn check_roomy(s: &[KahePoly]) -> (r: bool)
    ensures
        r == all_roomy(s@),
{
    for i in 0..s.len()
        invariant
            forall|j: int| 0 <= j < i ==> (#[trigger] s@[j]).roomy(),
    {
        for k in 0..N
            invariant
                i < s.len(),
                forall|j: int|
                    0 <= j < k ==> -KAHE_ROOM <= #[trigger] s@[i as int].coeffs[j] <= KAHE_ROOM,
        {
            let c: i64 = s[i].coeffs[k];
            if c < -KAHE_ROOM || c > KAHE_ROOM {
                assert(s@[i as int]@[k as int] == c);
                assert(!s@[i as int].roomy());
                return false;
            }
        }
        assert forall|j: int| 0 <= j < s@[i as int]@.len() implies -KAHE_ROOM
            <= #[trigger] s@[i as int]@[j] <= KAHE_ROOM by {
            assert(s@[i as int].coeffs[j] == s@[i as int]@[j]);
        }
    }
    true
}

/// Coefficient `k` of the pad `a * sk`, centered.
pub open spec fn pad_at(a: Coeffs, sk: Coeffs, k: int) -> int {
    centered(product_at(a, sk, k), q())
}

/// Coefficient `k` of the encryption of `m` under `sk` with error `e`.
pub open spec fn encrypted_at(a: Coeffs, sk: Coeffs, m: Coeffs, e: Coeffs, t: int, k: int) -> int {
    truncated(truncated(m[k] + pad_at(a, sk, k), q()) + centered(t * e[k], q()), q())
}

/// Coefficient `k` of the decryption of `c` under `sk`.
pub open spec fn decrypted_at(a: Coeffs, sk: Coeffs, c: Coeffs, t: int, k: int) -> int {
    centered_half_open(centered(truncated(c[k] - pad_at(a, sk, k), q()), q()), t)
}

/// The centered product of `a` with the key.
fn pad_poly(a: &KaheNTTPoly, sk_ntt: &KaheNTTPoly, Ghost(sk): Ghost<Coeffs>) -> (r: KahePoly)
    requires
        a.wf(),
        sk_ntt.wf(),
        sk.len() == N,
        cong_poly(sk_ntt@, sk, q()),
    ensures
        forall|k: int| 0 <= k < N ==> #[trigger] r@[k] == pad_at(a@, sk, k),
        within(r@, KAHE_MODULUS_OVER_TWO as int),
{
    let p: KaheNTTPoly = mul_kahe(a, sk_ntt);
    let r: KahePoly = p.to_poly();
    proof {
        assert forall|k: int| 0 <= k < N implies #[trigger] r@[k] == pad_at(a@, sk, k)
            && -KAHE_MODULUS_OVER_TWO <= r@[k] <= KAHE_MODULUS_OVER_TWO by {
            let x = product_at(a@, sk_ntt@, k);
            negacyclic::lemma_product_cong(a@, sk_ntt@, a@, sk, k, N as nat, q());
            field::lemma_cong_mod(x, q());
            assert(p@[k] == x % q());
            lemma_centered_cong(p@[k], product_at(a@, sk, k), q());
            lemma_centered(p@[k], q());
        }
    }
    r
}

/// `poly * scale`, centered modulo `q`.
pub fn scale_poly(poly: &KahePoly, scale: i64) -> (r: KahePoly)
    ensures
        forall|k: int| 0 <= k < N ==> #[trigger] r@[k] == centered(scale * poly@[k], q()),
        within(r@, KAHE_MODULUS_OVER_TWO as int),
{
    let mut coeffs: [i64; N] = [0i64; N];
    for k in 0..N
        invariant
            forall|j: int|
                0 <= j < k ==> #[trigger] coeffs[j] == centered(scale * poly@[j], q())
                    && -KAHE_MODULUS_OVER_TWO <= coeffs[j] <= KAHE_MODULUS_OVER_TWO,
    {
        let c: i64 = poly.coeffs[k];
        proof {
            assert(poly@[k as int] == c);
            assert(-0x4000_0000_0000_0000_0000_0000_0000_0000 <= c * scale
                <= 0x4000_0000_0000_0000_0000_0000_0000_0000) by (nonlinear_arith)
                requires
                    -0x8000_0000_0000_0000 <= c <= 0x7fff_ffff_ffff_ffff,
                    -0x8000_0000_0000_0000 <= scale <= 0x7fff_ffff_ffff_ffff,
            ;
            assert(c * scale == scale * c) by (nonlinear_arith);
            let x = scale * c;
            field::lemma_cong_mod(x, q());
            lemma_centered_cong(x % q(), x, q());
            lemma_centered(x, q());
        }
        let v: i64 = rem_euclid_i128(c as i128 * scale as i128, KAHE_MODULUS);
        coeffs[k] = center_i64(v, KAHE_MODULUS);
    }
    let r = KahePoly { coeffs };
    assert forall|k: int| 0 <= k < N implies #[trigger] r@[k] == centered(scale * poly@[k], q())
        && -KAHE_MODULUS_OVER_TWO <= r@[k] <= KAHE_MODULUS_OVER_TWO by {
        assert(coeffs[k] == centered(scale * poly@[k], q()));
    }
    r
}

/// Reduces one integer to `[-t/2, t/2)`.
pub fn reduce_centered(x: i64, t: i64) -> (r: i64)
    requires
        t > 0,
    ensures
        r == centered_half_open(x as int, t as int),
{
    center_half_open_i64(x, t)
}

/// Reduces the centered coefficients modulo `t`.
pub fn poly_mod_t(poly: &KahePoly, t: u64) -> (r: KahePoly)
    requires
        0 < t <= i64::MAX,
    ensures
        forall|k: int|
            0 <= k < N ==> #[trigger] r@[k] == centered_half_open(
                centered(poly@[k], q()),
                t as int,
            ),
{
    let mut p: KahePoly = *poly;
    p.normalize();
    let mut coeffs: [i64; N] = [0i64; N];
    for k in 0..N
        invariant
            0 < t <= i64::MAX,
            forall|i: int| 0 <= i < N ==> #[trigger] p.coeffs[i] == centered(poly@[i], q()),
            forall|j: int|
                0 <= j < k ==> #[trigger] coeffs[j] == centered_half_open(
                    centered(poly@[j], q()),
                    t as int,
                ),
    {
        coeffs[k] = reduce_centered(p.coeffs[k], t as i64);
    }
    KahePoly { coeffs }
}

/// Reads a commitment-ring element as a ciphertext-ring element, by its centered
/// coefficients.
pub fn lift_cs_to_kahe(p: &CsPoly) -> (r: KahePoly)
    ensures
        r@ == centered_poly(p@, CS_MODULUS as int),
        within(r@, CS_MODULUS_OVER_TWO as int),
{
    let coeffs: [i64; N] = p.centered_wide();
    KahePoly { coeffs }
}

/// Reads a small ciphertext-ring element as a commitment-ring element, by its
/// centered coefficients.
pub fn kahe_to_cs_centered(p: &KahePoly) -> (r: CsPoly)
    requires
        within(centered_poly(p@, q()), CS_MODULUS_OVER_TWO as int),
    ensures
        r@ == centered_poly(p@, q()),
{
    let mut c: KahePoly = *p;
    c.normalize();
    let mut coeffs: [i32; N] = [0i32; N];
    for k in 0..N
        invariant
            within(centered_poly(p@, q()), CS_MODULUS_OVER_TWO as int),
            forall|i: int| 0 <= i < N ==> #[trigger] c.coeffs[i] == centered(p@[i], q()),
            forall|j: int| 0 <= j < k ==> #[trigger] coeffs[j] == centered(p@[j], q()),
    {
        assert(-CS_MODULUS_OVER_TWO <= centered_poly(p@, q())[k as int] <= CS_MODULUS_OVER_TWO);
        coeffs[k] = c.coeffs[k] as i32;
    }
    let r = CsPoly { coeffs };
    assert(r@ =~= centered_poly(p@, q()));
    r
}

/// The two bridges are inverse on small elements.
pub proof fn law_bridge_round_trip(p: Coeffs)
    requires
        within(p, CS_MODULUS_OVER_TWO as int),
    ensures
        centered_poly(p, q()) == p,
        centered_poly(centered_poly(p, q()), CS_MODULUS as int) == p,
{
    assert forall|i: int| 0 <= i < p.len() implies centered(p[i], q()) == p[i] && centered(
        p[i],
        CS_MODULUS as int,
    ) == p[i] by {
        lemma_centered_id(p[i], q());
        lemma_centered_id(p[i], CS_MODULUS as int);
    }
    assert(centered_poly(p, q()) =~= p);
    assert(centered_poly(p, CS_MODULUS as int) =~= p);
}

/// The encryption scheme.
pub struct Kahe;

/// Coefficient `k` across the elements at position `pos`.
pub open spec fn position_column(cs: Seq<Seq<KahePoly>>, pos: int, k: int) -> Seq<int> {
    Seq::new(cs.len(), |i: int| cs[i][pos]@[k])
}

/// Positional sum of ciphertexts, centered: coefficient `k` at position `pos`.
pub open spec fn aggregated_at(cs: Seq<Seq<KahePoly>>, pos: int, k: int) -> int {
    centered(sum(position_column(cs, pos, k)), q())
}

/// The transform values of elements.
pub open spec fn transforms(s: Seq<KaheNTTPoly>) -> Seq<Seq<int>> {
    s.map_values(|p: KaheNTTPoly| p.values())
}

/// Transforms whose values the generator gives one after the other.
pub open spec fn kahe_values() -> spec_fn(ChaCha20Rng, Seq<int>, ChaCha20Rng) -> bool {
    |g: ChaCha20Rng, v: Seq<int>, h: ChaCha20Rng|
        run(uniform_values(KAHE_MODULUS as int), g, v, h)
}

impl Kahe {
    /// Parameters for `mu_kahe` plaintext elements modulo `t_modulus`, with `a`
    /// drawn from `rng`.
    pub fn setup_with_dims(rng: &mut ChaCha20Rng, mu_kahe: usize, t_modulus: u64) -> (r: KaheParams)
        requires
            mu_kahe >= 1,
            2 <= t_modulus <= i64::MAX,
        ensures
            r.wf(),
            r.mu_kahe == mu_kahe,
            r.t_modulus == t_modulus,
            run(kahe_values(), *old(rng), transforms(r.a_ntt@), *final(rng)),
    {
        let mut a_ntt: Vec<KaheNTTPoly> = Vec::with_capacity(mu_kahe);
        proof {
            lemma_run_empty(kahe_values(), *rng);
            assert(transforms(a_ntt@) =~= Seq::<Seq<int>>::empty());
        }
        for i in 0..mu_kahe
            invariant
                a_ntt.len() == i,
                forall|j: int| 0 <= j < i ==> (#[trigger] a_ntt[j]).wf(),
                run(kahe_values(), *old(rng), transforms(a_ntt@), *rng),
        {
            let ghost m = *rng;
            let p: KaheNTTPoly = KaheNTTPoly::rand_ntt_poly(rng);
            proof {
                lemma_run_push(kahe_values(), *old(rng), transforms(a_ntt@), m, p.values(), *rng);
                assert(transforms(a_ntt@.push(p)) =~= transforms(a_ntt@).push(p.values()));
            }
            a_ntt.push(p);
        }
        KaheParams { a_ntt, mu_kahe, t_modulus }
    }

    /// One plaintext element, default modulus.
    pub fn setup(rng: &mut ChaCha20Rng) -> (r: KaheParams)
        ensures
            r.wf(),
            r.mu_kahe == 1,
            r.t_modulus == T_MODULUS_DEFAULT,
            run(kahe_values(), *old(rng), transforms(r.a_ntt@), *final(rng)),
    {
        Self::setup_with_dims(rng, 1, T_MODULUS_DEFAULT)
    }

    /// Encrypts up to `mu` elements under one key, with one error per element.
    pub fn enc(pp: &KaheParams, k: &KaheKey, m: &[KahePoly], errors: &[KahePoly]) -> (r: Vec<
        KahePoly,
    >)
        requires
            pp.wf(),
            m.len() <= pp.mu_kahe,
            errors.len() == m.len(),
            all_roomy(m@),
        ensures
            r.len() == m.len(),
            all_reduced(r@),
            forall|i: int, j: int|
                0 <= i < m.len() && 0 <= j < N ==> #[trigger] r[i]@[j] == encrypted_at(
                    pp.a_ntt[i]@,
                    k.0@,
                    m[i]@,
                    errors[i]@,
                    pp.t_modulus as int,
                    j,
                ),
    {
        let sk_ntt: KaheNTTPoly = KaheNTTPoly::from_poly(&k.0);
        proof {
            lemma_residues_cong(sk_ntt@, k.0@);
        }
        let mut out: Vec<KahePoly> = Vec::with_capacity(m.len());
        for i in 0..m.len()
            invariant
                pp.wf(),
                m.len() <= pp.mu_kahe,
                errors.len() == m.len(),
                all_roomy(m@),
                sk_ntt.wf(),
                cong_poly(sk_ntt@, k.0@, q()),
                out.len() == i,
                all_reduced(out@),
                forall|l: int, j: int|
                    0 <= l < i && 0 <= j < N ==> #[trigger] out[l]@[j] == encrypted_at(
                        pp.a_ntt[l]@,
                        k.0@,
                        m[l]@,
                        errors[l]@,
                        pp.t_modulus as int,
                        j,
                    ),
        {
            assert(pp.a_ntt[i as int].wf());
            assert(m[i as int].roomy());
            let pad: KahePoly = pad_poly(&pp.a_ntt[i], &sk_ntt, Ghost(k.0@));
            let te: KahePoly = scale_poly(&errors[i], pp.t_modulus as i64);
            let mi: KahePoly = m[i];
            assert(crate::rings::kahe_sum_fits(mi, pad)) by {
                assert forall|j: int| 0 <= j < N implies i64::MIN <= #[trigger] mi.coeffs[j]
                    + pad.coeffs[j] <= i64::MAX by {
                    assert(-KAHE_ROOM <= mi@[j] <= KAHE_ROOM);
                    assert(-KAHE_MODULUS_OVER_TWO <= pad@[j] <= KAHE_MODULUS_OVER_TWO);
                }
            }
            let s: KahePoly = mi + pad;
            assert(crate::rings::kahe_sum_fits(s, te)) by {
                assert forall|j: int| 0 <= j < N implies i64::MIN <= #[trigger] s.coeffs[j]
                    + te.coeffs[j] <= i64::MAX by {
                    lemma_truncated(mi.coeffs[j] + pad.coeffs[j], q());
                    assert(-KAHE_MODULUS_OVER_TWO <= te@[j] <= KAHE_MODULUS_OVER_TWO);
                }
            }
            let c: KahePoly = s + te;
            proof {
                assert forall|j: int| 0 <= j < N implies #[trigger] c@[j] == encrypted_at(
                    pp.a_ntt[i as int]@,
                    k.0@,
                    m[i as int]@,
                    errors[i as int]@,
                    pp.t_modulus as int,
                    j,
                ) && -(KAHE_MODULUS - 1) <= c@[j] <= KAHE_MODULUS - 1 by {
                    assert(pad@[j] == pad_at(pp.a_ntt[i as int]@, k.0@, j));
                    assert(te@[j] == centered(pp.t_modulus * errors[i as int]@[j], q()));
                    assert(s.coeffs[j] == truncated(mi.coeffs[j] + pad.coeffs[j], q()));
                    assert(c.coeffs[j] == truncated(s.coeffs[j] + te.coeffs[j], q()));
                    assert(mi@[j] == mi.coeffs[j]);
                    lemma_truncated(s.coeffs[j] + te.coeffs[j], q());
                }
            }
            out.push(c);
        }
        out
    }

    /// Decrypts each element under an aggregate key.
    pub fn dec(pp: &KaheParams, c: &[KahePoly], k: &KaheAggKey) -> (r: Vec<KahePoly>)
        requires
            pp.wf(),
            c.len() <= pp.mu_kahe,
            all_roomy(c@),
        ensures
            r.len() == c.len(),
            forall|i: int, j: int|
                0 <= i < c.len() && 0 <= j < N ==> #[trigger] r[i]@[j] == decrypted_at(
                    pp.a_ntt[i]@,
                    k.0@,
                    c[i]@,
                    pp.t_modulus as int,
                    j,
                ),
    {
        let sk_ntt: KaheNTTPoly = KaheNTTPoly::from_poly(&k.0);
        proof {
            lemma_residues_cong(sk_ntt@, k.0@);
        }
        let mut out: Vec<KahePoly> = Vec::with_capacity(c.len());
        for i in 0..c.len()
            invariant
                pp.wf(),
                c.len() <= pp.mu_kahe,
                all_roomy(c@),
                sk_ntt.wf(),
                cong_poly(sk_ntt@, k.0@, q()),
                out.len() == i,
                forall|l: int, j: int|
                    0 <= l < i && 0 <= j < N ==> #[trigger] out[l]@[j] == decrypted_at(
                        pp.a_ntt[l]@,
                        k.0@,
                        c[l]@,
                        pp.t_modulus as int,
                        j,
                    ),
        {
            assert(pp.a_ntt[i as int].wf());
            assert(c[i as int].roomy());
            let pad: KahePoly = pad_poly(&pp.a_ntt[i], &sk_ntt, Ghost(k.0@));
            let ci: KahePoly = c[i];
            assert(crate::rings::kahe_difference_fits(ci, pad)) by {
                assert forall|j: int| 0 <= j < N implies i64::MIN <= #[trigger] ci.coeffs[j]
                    - pad.coeffs[j] <= i64::MAX by {
                    assert(-KAHE_ROOM <= ci@[j] <= KAHE_ROOM);
                    assert(-KAHE_MODULUS_OVER_TWO <= pad@[j] <= KAHE_MODULUS_OVER_TWO);
                }
            }
            let raw: KahePoly = ci - pad;
            let p: KahePoly = poly_mod_t(&raw, pp.t_modulus);
            proof {
                assert forall|j: int| 0 <= j < N implies #[trigger] p@[j] == decrypted_at(
                    pp.a_ntt[i as int]@,
                    k.0@,
                    c[i as int]@,
                    pp.t_modulus as int,
                    j,
                ) by {
                    assert(pad@[j] == pad_at(pp.a_ntt[i as int]@, k.0@, j));
                    assert(raw.coeffs[j] == truncated(ci.coeffs[j] - pad.coeffs[j], q()));
                    assert(raw@[j] == raw.coeffs[j]);
                }
            }
            out.push(p);
        }
        out
    }

    /// Positional sum of ciphertexts, each at least as long as the first.
    pub fn agg_ctxt(cs: &[Vec<KahePoly>]) -> (r: Vec<KahePoly>)
        requires
            forall|i: int| 0 <= i < cs.len() ==> (#[trigger] cs[i]).len() >= cs[0].len(),
        ensures
            r.len() == (if cs.len() == 0 { 0 } else { cs[0].len() as int }),
            all_reduced(r@),
            forall|pos: int, k: int|
                0 <= pos < r.len() && 0 <= k < N ==> #[trigger] r[pos]@[k] == aggregated_at(
                    crate::rs::slices(cs@),
                    pos,
                    k,
                ),
    {
        let mut refs: Vec<&[KahePoly]> = Vec::with_capacity(cs.len());
        for i in 0..cs.len()
            invariant
                refs.len() == i,
                forall|j: int| 0 <= j < i ==> (#[trigger] refs[j])@ == cs[j]@,
        {
            refs.push(cs[i].as_slice());
        }
        let r = Self::agg_ctxt_refs(&refs);
        proof {
            assert(refs@.map(|_i: int, s: &[KahePoly]| s@) =~= crate::rs::slices(cs@));
        }
        r
    }

    /// [`Kahe::agg_ctxt`] on borrowed ciphertexts.
    pub fn agg_ctxt_refs(cs: &[&[KahePoly]]) -> (r: Vec<KahePoly>)
        requires
            forall|i: int| 0 <= i < cs.len() ==> (#[trigger] cs[i])@.len() >= cs[0]@.len(),
        ensures
            r.len() == (if cs.len() == 0 { 0 } else { cs[0]@.len() as int }),
            all_reduced(r@),
            forall|pos: int, k: int|
                0 <= pos < r.len() && 0 <= k < N ==> #[trigger] r[pos]@[k] == aggregated_at(
                    cs@.map(|_i: int, s: &[KahePoly]| s@),
                    pos,
                    k,
                ),
    {
        let mut out: Vec<KahePoly> = Vec::new();
        if cs.len() == 0 {
            return out;
        }
        let ghost gs = cs@.map(|_i: int, s: &[KahePoly]| s@);
        let len: usize = cs[0].len();
        for pos in 0..len
            invariant
                cs.len() > 0,
                len == cs[0]@.len(),
                gs == cs@.map(|_i: int, s: &[KahePoly]| s@),
                forall|i: int| 0 <= i < cs.len() ==> (#[trigger] cs[i])@.len() >= cs[0]@.len(),
                out.len() == pos,
                all_reduced(out@),
                forall|p: int, k: int|
                    0 <= p < pos && 0 <= k < N ==> #[trigger] out[p]@[k] == aggregated_at(gs, p, k),
        {
            let mut acc: [i64; N] = [0i64; N];
            proof {
                assert forall|k: int| 0 <= k < N implies #[trigger] acc[k] == centered(
                    sum(position_column(gs, pos as int, k).take(0)),
                    q(),
                ) by {
                    assert(position_column(gs, pos as int, k).take(0) =~= Seq::<int>::empty());
                }
            }
            for i in 0..cs.len()
                invariant
                    pos < len,
                    len == cs[0]@.len(),
                    gs == cs@.map(|_i: int, s: &[KahePoly]| s@),
                    forall|i: int| 0 <= i < cs.len() ==> (#[trigger] cs[i])@.len() >= cs[0]@.len(),
                    forall|k: int|
                        0 <= k < N ==> #[trigger] acc[k] == centered(
                            sum(position_column(gs, pos as int, k).take(i as int)),
                            q(),
                        ),
            {
                let s: &[KahePoly] = cs[i];
                assert(s@.len() >= cs[0]@.len());
                let src: &KahePoly = &s[pos];
                let ghost before = acc;
                for k in 0..N
                    invariant
                        i < cs.len(),
                        pos < len,
                        gs == cs@.map(|_i: int, s: &[KahePoly]| s@),
                        src@ == gs[i as int][pos as int]@,
                        forall|j: int|
                            0 <= j < N ==> #[trigger] before[j] == centered(
                                sum(position_column(gs, pos as int, j).take(i as int)),
                                q(),
                            ),
                        forall|j: int| k <= j < N ==> #[trigger] acc[j] == before[j],
                        forall|j: int|
                            0 <= j < k ==> #[trigger] acc[j] == centered(
                                sum(position_column(gs, pos as int, j).take(i + 1)),
                                q(),
                            ),
                {
                    let v: i64 = center_i64(src.coeffs[k], KAHE_MODULUS);
                    proof {
                        let col = position_column(gs, pos as int, k as int);
                        assert(src@[k as int] == src.coeffs[k as int]);
                        assert(before[k as int] == acc[k as int]);
                        assert(col.take(i + 1).drop_last() =~= col.take(i as int));
                        let (s0, x) = (sum(col.take(i as int)), col[i as int]);
                        lemma_centered(s0, q());
                        lemma_centered(x, q());
                        field::lemma_cong_ops(acc[k as int] as int, s0, v as int, x, q());
                        lemma_centered_cong(acc[k as int] + v, s0 + x, q());
                    }
                    acc[k] = center_i64(acc[k] + v, KAHE_MODULUS);
                }
            }
            let p = KahePoly { coeffs: acc };
            proof {
                assert forall|k: int| 0 <= k < N implies #[trigger] p@[k] == aggregated_at(
                    gs,
                    pos as int,
                    k,
                ) && -(KAHE_MODULUS - 1) <= p@[k] <= KAHE_MODULUS - 1 by {
                    let col = position_column(gs, pos as int, k);
                    assert(col.take(cs.len() as int) =~= col);
                    assert(acc[k] == centered(sum(col), q()));
                    lemma_centered(sum(col), q());
                }
            }
            out.push(p);
        }
        out
    }

    /// The sum of keys.
    pub fn agg_key(ks: &[KaheKey]) -> (r: KaheAggKey)
        requires
            forall|i: int| 0 <= i < ks.len() ==> (#[trigger] ks[i]).0.roomy(),
        ensures
            r.0.reduced(),
            forall|k: int|
                0 <= k < N ==> cong(
                    #[trigger] r.0@[k],
                    sum(Seq::new(ks.len() as nat, |i: int| ks[i].0@[k])),
                    q(),
                ),
    {
        let mut acc: KahePoly = KahePoly::default();
        proof {
            assert forall|k: int| 0 <= k < N implies cong(
                #[trigger] acc@[k],
                sum(Seq::new(0nat, |i: int| ks[i].0@[k])),
                q(),
            ) && -(KAHE_MODULUS - 1) <= acc@[k] <= KAHE_MODULUS - 1 by {
                assert(acc.coeffs[k] == 0);
            }
        }
        for i in 0..ks.len()
            invariant
                forall|i: int| 0 <= i < ks.len() ==> (#[trigger] ks[i]).0.roomy(),
                acc.reduced(),
                forall|k: int|
                    0 <= k < N ==> cong(
                        #[trigger] acc@[k],
                        sum(Seq::new(i as nat, |j: int| ks[j].0@[k])),
                        q(),
                    ),
        {
            let x: KahePoly = ks[i].0;
            assert(ks[i as int].0.roomy());
            assert(crate::rings::kahe_sum_fits(acc, x)) by {
                assert forall|j: int| 0 <= j < N implies i64::MIN <= #[trigger] acc.coeffs[j]
                    + x.coeffs[j] <= i64::MAX by {
                    assert(-(KAHE_MODULUS - 1) <= acc@[j] <= KAHE_MODULUS - 1);
                    assert(-KAHE_ROOM <= x@[j] <= KAHE_ROOM);
                }
            }
            let next: KahePoly = acc + x;
            proof {
                assert forall|k: int| 0 <= k < N implies cong(
                    #[trigger] next@[k],
                    sum(Seq::new((i + 1) as nat, |j: int| ks[j].0@[k])),
                    q(),
                ) && -(KAHE_MODULUS - 1) <= next@[k] <= KAHE_MODULUS - 1 by {
                    let a = Seq::new(i as nat, |j: int| ks[j].0@[k]);
                    let b = Seq::new((i + 1) as nat, |j: int| ks[j].0@[k]);
                    assert(b.drop_last() =~= a);
                    assert(cong(acc@[k], sum(a), q()));
                    assert(next.coeffs[k] == truncated(acc.coeffs[k] + x.coeffs[k], q()));
                    lemma_truncated(acc.coeffs[k] + x.coeffs[k], q());
                    field::lemma_cong_ops(acc@[k], sum(a), x@[k], x@[k], q());
                }
            }
            acc = next;
        }
        KaheAggKey(acc)
    }
}

proof fn lemma_residues_cong(r: Coeffs, p: Coeffs)
    requires
        r.len() == N,
        p.len() == N,
        forall|i: int| 0 <= i < N ==> #[trigger] r[i] == p[i] % q(),
    ensures
        cong_poly(r, p, q()),
{
    assert forall|i: int| 0 <= i < r.len() implies cong(#[trigger] r[i], p[i], q()) by {
        field::lemma_cong_mod(p[i], q());
    }
}

/// An encrypted coefficient is `m + a * sk + t * e` modulo `q`.
pub proof fn lemma_encrypted(a: Coeffs, sk: Coeffs, m: Coeffs, e: Coeffs, t: int, k: int)
    ensures
        cong(encrypted_at(a, sk, m, e, t, k), m[k] + product_at(a, sk, k) + t * e[k], q()),
{
    let p = product_at(a, sk, k);
    let (x, y) = (centered(p, q()), centered(t * e[k], q()));
    lemma_centered(p, q());
    lemma_centered(t * e[k], q());
    let u = truncated(m[k] + x, q());
    lemma_truncated(m[k] + x, q());
    field::lemma_cong_ops(m[k], m[k], x, p, q());
    lemma_truncated(u + y, q());
    field::lemma_cong_ops(u, m[k] + p, y, t * e[k], q());
}

/// Decryption removes the pad: when `c = a * sk + v` modulo `q` with `v` in the
/// centered range, the result is `v` modulo `t`.
pub proof fn lemma_decrypted(a: Coeffs, sk: Coeffs, c: Coeffs, v: int, t: int, k: int)
    requires
        t > 0,
        cong(c[k], v + product_at(a, sk, k), q()),
        -KAHE_MODULUS_OVER_TWO <= v <= KAHE_MODULUS_OVER_TWO,
    ensures
        decrypted_at(a, sk, c, t, k) == centered_half_open(v, t),
{
    let p = product_at(a, sk, k);
    let x = centered(p, q());
    lemma_centered(p, q());
    lemma_truncated(c[k] - x, q());
    field::lemma_cong_ops(c[k], v + p, x, p, q());
    lemma_centered_cong(truncated(c[k] - x, q()), v, q());
    lemma_centered_id(v, q());
}

/// Coefficient-wise sum of a sequence of vectors.
pub open spec fn vector_sum(s: Seq<Coeffs>) -> Coeffs
    decreases s.len(),
{
    if s.len() == 0 {
        Seq::new(N as nat, |_k: int| 0)
    } else {
        negacyclic::combine(vector_sum(s.drop_last()), 1, s.last())
    }
}

pub proof fn lemma_vector_sum_len(s: Seq<Coeffs>)
    ensures
        vector_sum(s).len() == N,
    decreases s.len(),
{
    if s.len() > 0 {
        lemma_vector_sum_len(s.drop_last());
    }
}

/// What client `i` contributes to coefficient `k`: message plus scaled error.
pub open spec fn noisy_sum(ms: Seq<Coeffs>, es: Seq<Coeffs>, t: int, k: int) -> int
    decreases ms.len(),
{
    if ms.len() == 0 {
        0
    } else {
        noisy_sum(ms.drop_last(), es.drop_last(), t, k) + (ms.last()[k] + t * es.last()[k])
    }
}

/// Sum of the ciphertexts of all clients, at coefficient `k`.
pub open spec fn ciphertext_sum(
    a: Coeffs,
    sks: Seq<Coeffs>,
    ms: Seq<Coeffs>,
    es: Seq<Coeffs>,
    t: int,
    k: int,
) -> int
    decreases ms.len(),
{
    if ms.len() == 0 {
        0
    } else {
        ciphertext_sum(a, sks.drop_last(), ms.drop_last(), es.drop_last(), t, k) + encrypted_at(
            a,
            sks.last(),
            ms.last(),
            es.last(),
            t,
            k,
        )
    }
}

proof fn lemma_ciphertext_sum(
    a: Coeffs,
    sks: Seq<Coeffs>,
    ms: Seq<Coeffs>,
    es: Seq<Coeffs>,
    t: int,
    k: int,
)
    requires
        a.len() == N,
        0 <= k < N,
        sks.len() == ms.len(),
        es.len() == ms.len(),
        forall|i: int| 0 <= i < sks.len() ==> (#[trigger] sks[i]).len() == N,
    ensures
        cong(
            ciphertext_sum(a, sks, ms, es, t, k),
            noisy_sum(ms, es, t, k) + product_at(a, vector_sum(sks), k),
            q(),
        ),
    decreases ms.len(),
{
    if ms.len() == 0 {
        negacyclic::lemma_product_zero(a, vector_sum(sks), k, N as nat);
    } else {
        let (s0, m0, e0) = (sks.drop_last(), ms.drop_last(), es.drop_last());
        assert forall|i: int| 0 <= i < s0.len() implies (#[trigger] s0[i]).len() == N by {
            assert(sks[i].len() == N);
        }
        assert(sks[sks.len() - 1].len() == N);
        lemma_ciphertext_sum(a, s0, m0, e0, t, k);
        lemma_encrypted(a, sks.last(), ms.last(), es.last(), t, k);
        lemma_vector_sum_len(s0);
        negacyclic::lemma_product_linear(a, vector_sum(s0), 1, sks.last(), k, N as nat);
        field::lemma_cong_ops(
            ciphertext_sum(a, s0, m0, e0, t, k),
            noisy_sum(m0, e0, t, k) + product_at(a, vector_sum(s0), k),
            encrypted_at(a, sks.last(), ms.last(), es.last(), t, k),
            ms.last()[k] + product_at(a, sks.last(), k) + t * es.last()[k],
            q(),
        );
    }
}

/// Sum of the messages, at coefficient `k`.
pub open spec fn message_sum(ms: Seq<Coeffs>, k: int) -> int
    decreases ms.len(),
{
    if ms.len() == 0 {
        0
    } else {
        message_sum(ms.drop_last(), k) + ms.last()[k]
    }
}

proof fn lemma_noise_vanishes(ms: Seq<Coeffs>, es: Seq<Coeffs>, t: int, k: int)
    requires
        t > 0,
        es.len() == ms.len(),
    ensures
        cong(noisy_sum(ms, es, t, k), message_sum(ms, k), t),
    decreases ms.len(),
{
    if ms.len() > 0 {
        lemma_noise_vanishes(ms.drop_last(), es.drop_last(), t, k);
        field::lemma_cong_multiple(ms.last()[k], es.last()[k], t);
        field::lemma_cong_ops(
            noisy_sum(ms.drop_last(), es.drop_last(), t, k),
            message_sum(ms.drop_last(), k),
            ms.last()[k] + t * es.last()[k],
            ms.last()[k],
            t,
        );
    }
}

/// Key-additive homomorphism: the sum of ciphertexts, decrypted under the sum of
/// keys, is the sum of the messages modulo `t`, as long as messages and errors
/// together stay within half the ciphertext modulus.
pub proof fn law_aggregate_decrypts(
    a: Coeffs,
    sks: Seq<Coeffs>,
    ms: Seq<Coeffs>,
    es: Seq<Coeffs>,
    t: int,
    key: Coeffs,
    c: Coeffs,
    k: int,
)
    requires
        a.len() == N,
        key.len() == N,
        0 <= k < N,
        t > 0,
        sks.len() == ms.len(),
        es.len() == ms.len(),
        forall|i: int| 0 <= i < sks.len() ==> (#[trigger] sks[i]).len() == N,
        cong_poly(key, vector_sum(sks), q()),
        cong(c[k], ciphertext_sum(a, sks, ms, es, t, k), q()),
        -KAHE_MODULUS_OVER_TWO <= noisy_sum(ms, es, t, k) <= KAHE_MODULUS_OVER_TWO,
    ensures
        decrypted_at(a, key, c, t, k) == centered_half_open(message_sum(ms, k), t),
{
    let v = noisy_sum(ms, es, t, k);
    lemma_ciphertext_sum(a, sks, ms, es, t, k);
    lemma_vector_sum_len(sks);
    assert(cong_poly(a, a, q()));
    negacyclic::lemma_product_cong(a, key, a, vector_sum(sks), k, N as nat, q());
    field::lemma_cong_ops(v, v, product_at(a, key, k), product_at(a, vector_sum(sks), k), q());
    lemma_decrypted(a, key, c, v, t, k);
    lemma_noise_vanishes(ms, es, t, k);
}

/// A single ciphertext decrypts to its message modulo `t` under its own key.
pub proof fn law_single_decrypts(a: Coeffs, sk: Coeffs, m: Coeffs, e: Coeffs, c: Coeffs, t: int, k: int)
    requires
        a.len() == N,
        sk.len() == N,
        0 <= k < N,
        t > 0,
        c[k] == encrypted_at(a, sk, m, e, t, k),
        -KAHE_MODULUS_OVER_TWO <= m[k] + t * e[k] <= KAHE_MODULUS_OVER_TWO,
    ensures
        decrypted_at(a, sk, c, t, k) == centered_half_open(m[k], t),
{
    lemma_encrypted(a, sk, m, e, t, k);
    let v = m[k] + t * e[k];
    assert(m[k] + product_at(a, sk, k) + t * e[k] == v + product_at(a, sk, k));
    lemma_decrypted(a, sk, c, v, t, k);
    field::lemma_cong_multiple(m[k], e[k], t);
}

/// A ciphertext is, modulo the ring's modulus, the message plus `t` times the
/// error plus the product of `a` with the key: the key, the error and the
/// message all enter every coefficient.
pub proof fn law_ciphertext_is_padded(a: Coeffs, sk: Coeffs, m: Coeffs, e: Coeffs, t: int, k: int)
    ensures
        cong(
            encrypted_at(a, sk, m, e, t, k),
            m[k] + t * e[k] + product_at(a, sk, k),
            KAHE_MODULUS as int,
        ),
{
    lemma_encrypted(a, sk, m, e, t, k);
}

/// What is left of a ciphertext under a key comes out modulo `t`, in the range
/// around zero that holds one representative of each residue.
pub proof fn law_decryption_is_what_is_left(
    a: Coeffs,
    sk: Coeffs,
    c: Coeffs,
    left: int,
    t: int,
    k: int,
)
    requires
        t >= 2,
        cong(c[k], left + product_at(a, sk, k), KAHE_MODULUS as int),
        -KAHE_MODULUS < 2 * left < KAHE_MODULUS,
    ensures
        cong(decrypted_at(a, sk, c, t, k), left, t),
        -(t + 1) <= 2 * decrypted_at(a, sk, c, t, k) < t,
{
    lemma_decrypted(a, sk, c, left, t, k);
    let r = left % t;
    vstd::arithmetic::div_mod::lemma_mod_bound(left, t);
    field::lemma_cong_mod(left, t);
    if r >= t / 2 {
        field::lemma_cong_multiple(r, -1, t);
        assert(r + t * -1 == r - t);
    }
}

/// A sum of ciphertexts is, at every position and coefficient, congruent to the
/// sum over all of them, and centered.
pub proof fn law_sums_take_every_ciphertext(cs: Seq<Seq<KahePoly>>, pos: int, k: int)
    ensures
        cong(
            aggregated_at(cs, pos, k),
            sum(Seq::new(cs.len(), |i: int| cs[i][pos]@[k])),
            KAHE_MODULUS as int,
        ),
        -KAHE_MODULUS < 2 * aggregated_at(cs, pos, k) < KAHE_MODULUS,
{
    let s = Seq::new(cs.len(), |i: int| cs[i][pos]@[k]);
    assert(position_column(cs, pos, k) =~= s);
    lemma_centered(sum(s), q());
}

} // verus!
