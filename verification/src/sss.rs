//! Secret sharing over the commitment ring.

use crate::field::{self, cong, distinct_mod, eval, interpolate, lagrange_weight, mul_mod, sum};
use crate::negacyclic::{
    self, center_canonical_i64, centered, lemma_centered, lemma_centered_cong, rem_euclid_i64,
    Coeffs, N,
};
use crate::primes;
use crate::random::{elements, lemma_run_empty, lemma_run_push, run};
use crate::rings::{centered_poly, CsPoly, CS_MODULUS, CS_MODULUS_OVER_TWO};
use crate::rs::{lagrange_at, to_ints};
use rand_chacha::ChaCha20Rng;
use vstd::prelude::*;

verus! {

/// The modulus as an integer.
pub open spec fn q() -> int {
    CS_MODULUS as int
}

/// The coefficient vectors of a sequence of commitment-ring elements.
pub open spec fn cs_views(s: Seq<CsPoly>) -> Seq<Coeffs> {
    s.map(|_i: int, p: CsPoly| p@)
}

/// Coefficient `k` of every element.
pub open spec fn at(s: Seq<Coeffs>, k: int) -> Seq<int> {
    s.map(|_i: int, p: Coeffs| p[k])
}

/// Commitment-ring elements that the generator gives.
pub open spec fn cs_elements() -> spec_fn(ChaCha20Rng, Coeffs, ChaCha20Rng) -> bool {
    elements(CS_MODULUS as int, CS_MODULUS_OVER_TWO as int)
}

/// Uniform elements, drawn one after the other.
pub fn random_elements(rng: &mut ChaCha20Rng, n: usize) -> (r: Vec<CsPoly>)
    ensures
        r.len() == n,
        forall|i: int| 0 <= i < n ==> (#[trigger] r[i]).is_centered(),
        run(cs_elements(), *old(rng), cs_views(r@), *final(rng)),
{
    let mut out: Vec<CsPoly> = Vec::with_capacity(n);
    proof {
        lemma_run_empty(cs_elements(), *rng);
        assert(cs_views(out@) =~= Seq::<Coeffs>::empty());
    }
    for i in 0..n
        invariant
            out.len() == i,
            forall|j: int| 0 <= j < i ==> (#[trigger] out[j]).is_centered(),
            run(cs_elements(), *old(rng), cs_views(out@), *rng),
    {
        let ghost m = *rng;
        let p: CsPoly = CsPoly::rand_poly(rng);
        proof {
            lemma_run_push(cs_elements(), *old(rng), cs_views(out@), m, p@, *rng);
            assert(cs_views(out@.push(p)) =~= cs_views(out@).push(p@));
        }
        out.push(p);
    }
    out
}

// ---------------------------------------------------------------
// Additive sharing
// ---------------------------------------------------------------

/// Additive n-of-n sharing: all shares but one are random, the last makes up
/// the sum.
pub struct AdditiveSharing;

/// Coefficient-wise sum, centered.
pub open spec fn total(s: Seq<Coeffs>) -> Coeffs {
    Seq::new(N as nat, |k: int| centered(sum(at(s, k)), q()))
}

impl AdditiveSharing {
    /// The sharing of `secret` under given masks.
    pub fn share_with(secret: &CsPoly, masks: Vec<CsPoly>) -> (r: Vec<CsPoly>)
        ensures
            r.len() == masks.len() + 1,
            forall|i: int| 0 <= i < masks.len() ==> #[trigger] r[i] == masks[i],
            cong_sum(cs_views(r@), secret@),
    {
        let acc: CsPoly = Self::recover(&masks);
        let last: CsPoly = *secret - acc;
        let ghost ms = cs_views(masks@);
        let mut out: Vec<CsPoly> = masks;
        out.push(last);
        proof {
            let s = cs_views(out@);
            assert forall|k: int| 0 <= k < N implies cong(
                sum(#[trigger] at(s, k)),
                secret@[k],
                q(),
            ) by {
                assert(at(s, k) =~= at(ms, k).push(last@[k]));
                field::lemma_sum_push(at(ms, k), last@[k]);
                let t = sum(at(ms, k));
                assert(acc@[k] == centered(t, q()));
                lemma_centered(t, q());
                lemma_centered(secret@[k] + -1 * acc@[k], q());
                field::lemma_cong_ops(secret@[k], secret@[k], acc@[k], t, q());
                field::lemma_cong_ops(t, t, last@[k], secret@[k] - t, q());
            }
        }
        out
    }

    /// `n` shares of `secret`, the first `n - 1` drawn from `rng`.
    pub fn share(rng: &mut ChaCha20Rng, secret: &CsPoly, n: usize) -> (r: Vec<CsPoly>)
        requires
            n >= 1,
        ensures
            r.len() == n,
            cong_sum(cs_views(r@), secret@),
            run(cs_elements(), *old(rng), cs_views(r@).take(n - 1), *final(rng)),
    {
        let masks: Vec<CsPoly> = random_elements(rng, n - 1);
        let ghost ms = masks@;
        let r: Vec<CsPoly> = Self::share_with(secret, masks);
        assert(cs_views(r@).take(n - 1) =~= cs_views(ms)) by {
            assert forall|i: int| 0 <= i < n - 1 implies cs_views(r@)[i] == cs_views(ms)[i] by {
                assert(r[i] == ms[i]);
            }
        }
        r
    }

    /// The sum of the shares.
    pub fn recover(shares: &[CsPoly]) -> (r: CsPoly)
        ensures
            r@ == total(cs_views(shares@)),
    {
        let mut acc: CsPoly = CsPoly::default();
        let ghost vs = cs_views(shares@);
        proof {
            assert(acc@ =~= total(vs.take(0))) by {
                assert forall|k: int| 0 <= k < N implies acc@[k] == centered(
                    sum(at(vs.take(0), k)),
                    q(),
                ) by {
                    assert(at(vs.take(0), k) =~= Seq::<int>::empty());
                    assert(acc.coeffs[k] == 0);
                }
            }
        }
        for i in 0..shares.len()
            invariant
                vs == cs_views(shares@),
                acc@ == total(vs.take(i as int)),
        {
            let next: CsPoly = acc + shares[i];
            proof {
                assert(next@ =~= total(vs.take(i + 1))) by {
                    assert forall|k: int| 0 <= k < N implies next@[k] == centered(
                        sum(at(vs.take(i + 1), k)),
                        q(),
                    ) by {
                        let a = at(vs.take(i as int), k);
                        assert(at(vs.take(i + 1), k) =~= a.push(shares[i as int]@[k]));
                        field::lemma_sum_push(a, shares[i as int]@[k]);
                        lemma_centered(sum(a), q());
                        let y = shares[i as int]@[k];
                        field::lemma_cong_ops(acc@[k], sum(a), y, y, q());
                        lemma_centered_cong(acc@[k] + 1 * y, sum(a) + y, q());
                    }
                }
            }
            acc = next;
        }
        assert(vs.take(shares.len() as int) =~= vs);
        acc
    }
}

/// Coefficient-wise, the elements of `s` sum to `secret` modulo `q`.
pub open spec fn cong_sum(s: Seq<Coeffs>, secret: Coeffs) -> bool {
    forall|k: int| 0 <= k < N ==> cong(sum(#[trigger] at(s, k)), secret[k], q())
}

/// Summing all the shares of a secret gives the secret.
pub proof fn law_additive_recovers(shares: Seq<Coeffs>, secret: Coeffs)
    requires
        secret.len() == N,
        cong_sum(shares, secret),
    ensures
        total(shares) == centered_poly(secret, q()),
{
    assert forall|k: int| 0 <= k < N implies total(shares)[k] == centered(secret[k], q()) by {
        assert(cong(sum(at(shares, k)), secret[k], q()));
        lemma_centered_cong(sum(at(shares, k)), secret[k], q());
    }
    assert(total(shares) =~= centered_poly(secret, q()));
}

// ---------------------------------------------------------------
// Shamir sharing
// ---------------------------------------------------------------

/// Threshold sharing: share `i` is the value at `i + 1` of a polynomial with
/// the secret as constant term.
pub struct ShamirSharing;

#[derive(Debug, PartialEq, Eq, Structural, Clone, Copy)]
pub enum SssError {
    NotEnoughShares,
    DuplicateIndex,
    ZeroPoint,
}

#[derive(Clone, Copy, Debug)]
pub struct ShamirParams {
    pub t: usize,
    pub n: usize,
}

impl ShamirParams {
    pub open spec fn wf(&self) -> bool {
        1 <= self.t <= self.n < CS_MODULUS
    }

    pub fn new(t: usize, n: usize) -> (r: Self)
        requires
            1 <= t <= n < CS_MODULUS,
        ensures
            r.t == t,
            r.n == n,
            r.wf(),
    {
        ShamirParams { t, n }
    }
}

/// The sharing polynomial of coefficient `k`: the secret, then the random
/// coefficients.
pub open spec fn sharing_poly(secret: Coeffs, coeffs: Seq<Coeffs>, k: int) -> Seq<int> {
    seq![secret[k]] + at(coeffs, k)
}

/// The share at point `x`.
pub open spec fn share_at(secret: Coeffs, coeffs: Seq<Coeffs>, x: int) -> Coeffs {
    Seq::new(N as nat, |k: int| centered(eval(sharing_poly(secret, coeffs, k), x), q()))
}

/// `shares` are the shares of `secret` under `coeffs`, one per point `1, 2, ..`.
pub open spec fn is_sharing(shares: Seq<Coeffs>, secret: Coeffs, coeffs: Seq<Coeffs>) -> bool {
    forall|i: int| 0 <= i < shares.len() ==> #[trigger] shares[i] == share_at(secret, coeffs, i + 1)
}

proof fn lemma_eval_last(c: Seq<int>, x: int)
    requires
        c.len() > 0,
    ensures
        eval(c, x) == eval(c.drop_last(), x) + c.last() * vstd::arithmetic::power::pow(
            x,
            (c.len() - 1) as nat,
        ),
    decreases c.len(),
{
    reveal(vstd::arithmetic::power::pow);
    if c.len() == 1 {
        assert(c.drop_first() =~= Seq::<int>::empty());
        assert(c.drop_last() =~= Seq::<int>::empty());
        assert(eval(Seq::<int>::empty(), x) == 0);
        assert(x * 0 == 0);
        assert(vstd::arithmetic::power::pow(x, 0) == 1);
    } else {
        let t = c.drop_first();
        lemma_eval_last(t, x);
        assert(t.drop_last() =~= c.drop_last().drop_first());
        let (a, l, p) = (
            eval(t.drop_last(), x),
            c.last(),
            vstd::arithmetic::power::pow(x, (c.len() - 2) as nat),
        );
        assert(x * (a + l * p) == x * a + l * (x * p)) by (nonlinear_arith);
    }
}

/// Values of a polynomial at congruent points are congruent.
pub proof fn lemma_eval_cong(c: Seq<int>, x: int, y: int, p: int)
    requires
        p > 0,
        cong(x, y, p),
    ensures
        cong(eval(c, x), eval(c, y), p),
    decreases c.len(),
{
    if c.len() > 0 {
        let t = c.drop_first();
        lemma_eval_cong(t, x, y, p);
        field::lemma_cong_ops(x, y, eval(t, x), eval(t, y), p);
        field::lemma_cong_ops(c[0], c[0], x * eval(t, x), y * eval(t, y), p);
    }
}

/// The point of sample index `idx`.
pub open spec fn point(idx: int) -> int {
    (idx + 1) % q()
}

/// The points of the first `t` samples.
pub open spec fn sample_points(samples: Seq<(usize, CsPoly)>, t: int) -> Seq<int> {
    Seq::new(t as nat, |i: int| point(samples[i].0 as int))
}

/// Coefficient `k` of the first `t` sampled shares.
pub open spec fn sample_values(samples: Seq<(usize, CsPoly)>, t: int, k: int) -> Seq<int> {
    Seq::new(t as nat, |i: int| samples[i].1@[k])
}

/// Why the points are refused at `i`, or `None`.
pub open spec fn point_fault(xs: Seq<int>, i: int) -> Option<SssError> {
    if xs[i] == 0 {
        Some(SssError::ZeroPoint)
    } else if exists|j: int| i < j < xs.len() && #[trigger] xs[j] == xs[i] {
        Some(SssError::DuplicateIndex)
    } else {
        None
    }
}

/// No point is refused.
pub open spec fn points_fit(xs: Seq<int>) -> bool {
    forall|i: int| 0 <= i < xs.len() ==> #[trigger] point_fault(xs, i) is None
}

/// The error owed: too few samples, else that of the first point refused.
pub open spec fn recovery_refused(samples: Seq<(usize, CsPoly)>, t: int, e: SssError) -> bool {
    if samples.len() < t {
        e == SssError::NotEnoughShares
    } else {
        let xs = sample_points(samples, t);
        exists|i: int|
            0 <= i < t && #[trigger] point_fault(xs, i) == Some(e) && forall|j: int|
                0 <= j < i ==> #[trigger] point_fault(xs, j) is None
    }
}

/// What recovery computes from the first `t` samples.
pub open spec fn recovered(samples: Seq<(usize, CsPoly)>, t: int) -> Coeffs {
    Seq::new(
        N as nat,
        |k: int|
            centered(interpolate(sample_points(samples, t), sample_values(samples, t, k), 0, q()), q()),
    )
}

impl ShamirSharing {
    /// The share at point `x` under given coefficients.
    fn evaluate(secret: &CsPoly, coeffs: &[CsPoly], x: u64) -> (r: CsPoly)
        requires
            x < CS_MODULUS,
        ensures
            r@ == share_at(secret@, cs_views(coeffs@), x as int),
    {
        let ghost cs = cs_views(coeffs@);
        let mut acc: [i32; N] = [0i32; N];
        let m: u64 = CS_MODULUS as u64;
        for k in 0..N
            invariant
                x < CS_MODULUS,
                m == CS_MODULUS,
                cs == cs_views(coeffs@),
                forall|j: int|
                    0 <= j < k ==> #[trigger] acc[j] == centered(
                        eval(sharing_poly(secret@, cs, j), x as int),
                        q(),
                    ),
        {
            let mut v: u64 = rem_euclid_i64(secret.coeffs[k] as i64, CS_MODULUS as i64) as u64;
            let mut x_pow: u64 = x;
            let ghost poly = sharing_poly(secret@, cs, k as int);
            proof {
                assert(secret@[k as int] == secret.coeffs[k as int]);
                let c0 = poly.take(1);
                assert(c0.drop_first() =~= Seq::<int>::empty());
                assert(eval(Seq::<int>::empty(), x as int) == 0);
                assert(x * 0 == 0);
                vstd::arithmetic::power::lemma_pow1(x as int);
                field::lemma_small(x as int, q());
            }
            for j in 0..coeffs.len()
                invariant
                    k < N,
                    m == CS_MODULUS,
                    x < m,
                    x_pow < m,
                    v < m,
                    cs == cs_views(coeffs@),
                    poly == sharing_poly(secret@, cs, k as int),
                    x_pow == vstd::arithmetic::power::pow(x as int, (j + 1) as nat) % q(),
                    v == eval(poly.take(j + 1), x as int) % q(),
            {
                let c: u64 = rem_euclid_i64(coeffs[j].coeffs[k] as i64, CS_MODULUS as i64) as u64;
                let ghost (v0, p0) = (v as int, x_pow as int);
                let term: u64 = mul_mod(c, x_pow, m);
                v = (v + term) % m;
                x_pow = mul_mod(x_pow, x, m);
                proof {
                    let full = poly.take(j + 2);
                    assert(coeffs[j as int]@[k as int] == coeffs[j as int].coeffs[k as int]);
                    assert(full.drop_last() =~= poly.take(j + 1));
                    assert(full.last() == coeffs[j as int]@[k as int]);
                    lemma_eval_last(full, x as int);
                    let y = full.last();
                    let pw = vstd::arithmetic::power::pow(x as int, (j + 1) as nat);
                    field::lemma_cong_mod(y, q());
                    field::lemma_cong_mod(pw, q());
                    field::lemma_cong_ops(c as int, y, p0, pw, q());
                    field::lemma_cong_mod(c * p0, q());
                    let e = eval(poly.take(j + 1), x as int);
                    field::lemma_cong_mod(e, q());
                    field::lemma_cong_ops(v0, e, term as int, y * pw, q());
                    vstd::arithmetic::power::lemma_pow_adds(x as int, (j + 1) as nat, 1);
                    vstd::arithmetic::power::lemma_pow1(x as int);
                    field::lemma_cong_ops(p0, pw, x as int, x as int, q());
                }
            }
            proof {
                assert(poly.take(coeffs.len() + 1) =~= poly);
                let e = eval(poly, x as int);
                field::lemma_cong_mod(e, q());
                lemma_centered_cong(v as int, e, q());
                lemma_centered(e, q());
            }
            acc[k] = center_canonical_i64(v as i64, CS_MODULUS as i64) as i32;
        }
        let r = CsPoly { coeffs: acc };
        assert(r@ =~= share_at(secret@, cs, x as int));
        r
    }

    /// All shares under given coefficients.
    pub fn share_with(params: &ShamirParams, secret: &CsPoly, coeffs: &[CsPoly]) -> (r: Vec<CsPoly>)
        requires
            params.wf(),
        ensures
            r.len() == params.n,
            is_sharing(cs_views(r@), secret@, cs_views(coeffs@)),
    {
        let mut out: Vec<CsPoly> = Vec::with_capacity(params.n);
        let ghost cs = cs_views(coeffs@);
        for i in 0..params.n
            invariant
                params.wf(),
                cs == cs_views(coeffs@),
                out.len() == i,
                forall|j: int| 0 <= j < i ==> (#[trigger] out[j])@ == share_at(secret@, cs, j + 1),
        {
            out.push(Self::evaluate(secret, coeffs, (i + 1) as u64));
        }
        out
    }

    /// `params.n` shares under coefficients drawn from `rng`; share `i` is the
    /// value at `i + 1`.
    pub fn share(rng: &mut ChaCha20Rng, params: &ShamirParams, secret: &CsPoly) -> (r: Vec<CsPoly>)
        requires
            params.wf(),
        ensures
            r.len() == params.n,
            exists|coeffs: Seq<Coeffs>|
                coeffs.len() == params.t - 1 && #[trigger] is_sharing(
                    cs_views(r@),
                    secret@,
                    coeffs,
                ) && run(cs_elements(), *old(rng), coeffs, *final(rng)),
    {
        let coeffs: Vec<CsPoly> = random_elements(rng, params.t - 1);
        let r = Self::share_with(params, secret, &coeffs);
        proof {
            let cs = cs_views(coeffs@);
            assert(cs.len() == params.t - 1 && is_sharing(cs_views(r@), secret@, cs));
        }
        r
    }

    /// Recovers the secret from the first `t` samples, each a 0-based index into
    /// the shares and the share. Further samples are ignored.
    pub fn recover(params: &ShamirParams, samples: &[(usize, CsPoly)]) -> (r: Result<
        CsPoly,
        SssError,
    >)
        requires
            forall|i: int| 0 <= i < samples.len() ==> (#[trigger] samples[i]).0 < i64::MAX,
        ensures
            r is Ok <==> samples.len() >= params.t && points_fit(
                sample_points(samples@, params.t as int),
            ),
            r matches Err(e) ==> recovery_refused(samples@, params.t as int, e),
            r matches Ok(p) ==> p@ == recovered(samples@, params.t as int),
    {
        let t: usize = params.t;
        if samples.len() < t {
            return Err(SssError::NotEnoughShares);
        }
        let m: u64 = CS_MODULUS as u64;
        let mut xs: Vec<u64> = Vec::with_capacity(t);
        for i in 0..t
            invariant
                t <= samples.len(),
                m == CS_MODULUS,
                forall|j: int| 0 <= j < samples.len() ==> (#[trigger] samples[j]).0 < i64::MAX,
                xs.len() == i,
                forall|j: int|
                    0 <= j < i ==> #[trigger] xs[j] == point(samples[j].0 as int) && xs[j] < m,
        {
            assert(samples[i as int].0 < i64::MAX);
            xs.push((samples[i].0 as u64 + 1) % m);
        }
        let ghost gs = sample_points(samples@, t as int);
        assert(to_ints(xs@) =~= gs);
        for i in 0..t
            invariant
                t <= samples.len(),
                xs.len() == t,
                gs == sample_points(samples@, params.t as int),
                t == params.t,
                to_ints(xs@) == gs,
                forall|j: int| 0 <= j < i ==> #[trigger] point_fault(gs, j) is None,
        {
            assert(gs[i as int] == xs[i as int]);
            if xs[i] == 0 {
                assert(point_fault(gs, i as int) == Some(SssError::ZeroPoint));
                return Err(SssError::ZeroPoint);
            }
            for j in i + 1..t
                invariant
                    i < t <= samples.len(),
                    xs.len() == t,
                    t == params.t,
                    gs == sample_points(samples@, params.t as int),
                    to_ints(xs@) == gs,
                    gs[i as int] != 0,
                    forall|j: int| 0 <= j < i ==> #[trigger] point_fault(gs, j) is None,
                    forall|l: int| i < l < j ==> #[trigger] gs[l] != gs[i as int],
            {
                assert(gs[i as int] == xs[i as int]);
                assert(gs[j as int] == xs[j as int]);
                if xs[i] == xs[j] {
                    assert(point_fault(gs, i as int) == Some(SssError::DuplicateIndex));
                    return Err(SssError::DuplicateIndex);
                }
            }
        }
        let weights: Vec<u64> = lagrange_at(&xs, 0, m);
        let mut coeffs: [i32; N] = [0i32; N];
        for k in 0..N
            invariant
                t <= samples.len(),
                t == params.t,
                m == CS_MODULUS,
                xs.len() == t,
                weights.len() == t,
                gs == sample_points(samples@, t as int),
                to_ints(xs@) == gs,
                forall|i: int|
                    0 <= i < t ==> #[trigger] weights[i] == lagrange_weight(gs, i, 0, q()) % q(),
                forall|j: int| 0 <= j < k ==> #[trigger] coeffs[j] == recovered(samples@, t as int)[j],
        {
            let ghost ys = sample_values(samples@, t as int, k as int);
            let ghost terms = Seq::new(t as nat, |i: int| ys[i] * lagrange_weight(gs, i, 0, q()));
            let mut acc: u64 = 0;
            assert(terms.take(0) =~= Seq::<int>::empty());
            for i in 0..t
                invariant
                    k < N,
                    t <= samples.len(),
                    m == CS_MODULUS,
                    weights.len() == t,
                    ys == sample_values(samples@, t as int, k as int),
                    terms == Seq::new(
                        t as nat,
                        |i: int| ys[i] * lagrange_weight(gs, i, 0, q()),
                    ),
                    forall|i: int|
                        0 <= i < t ==> #[trigger] weights[i] == lagrange_weight(gs, i, 0, q())
                            % q(),
                    acc < m,
                    acc == sum(terms.take(i as int)) % q(),
            {
                let y: u64 = rem_euclid_i64(samples[i].1.coeffs[k] as i64, CS_MODULUS as i64) as u64;
                let ghost before = acc as int;
                let term: u64 = mul_mod(y, weights[i], m);
                acc = (acc + term) % m;
                proof {
                    let w = lagrange_weight(gs, i as int, 0, q());
                    let yi = samples[i as int].1@[k as int];
                    assert(yi == samples[i as int].1.coeffs[k as int]);
                    assert(terms.take(i + 1).drop_last() =~= terms.take(i as int));
                    assert(terms[i as int] == yi * w);
                    field::lemma_cong_mod(yi, q());
                    field::lemma_cong_mod(w, q());
                    field::lemma_cong_ops(y as int, yi, weights[i as int] as int, w, q());
                    field::lemma_cong_mod(y * weights[i as int], q());
                    let s = sum(terms.take(i as int));
                    field::lemma_cong_mod(s, q());
                    field::lemma_cong_ops(before, s, term as int, yi * w, q());
                }
            }
            proof {
                assert(terms.take(t as int) =~= terms);
                let e = sum(terms);
                field::lemma_cong_mod(e, q());
                lemma_centered_cong(acc as int, e, q());
                lemma_centered(e, q());
                assert(terms =~= Seq::new(
                    gs.len(),
                    |i: int| ys[i] * lagrange_weight(gs, i, 0, q()),
                ));
            }
            coeffs[k] = center_canonical_i64(acc as i64, CS_MODULUS as i64) as i32;
        }
        let r = CsPoly { coeffs };
        assert(r@ =~= recovered(samples@, t as int));
        Ok(r)
    }
}

/// Any `t` samples at distinct nonzero points give back the secret.
pub proof fn law_shamir_recovers(
    secret: Coeffs,
    coeffs: Seq<Coeffs>,
    samples: Seq<(usize, CsPoly)>,
    t: int,
)
    requires
        secret.len() == N,
        t >= 1,
        coeffs.len() == t - 1,
        samples.len() >= t,
        points_fit(sample_points(samples, t)),
        forall|i: int|
            0 <= i < t ==> (#[trigger] samples[i]).1@ == share_at(
                secret,
                coeffs,
                samples[i].0 + 1,
            ),
    ensures
        recovered(samples, t) == centered_poly(secret, q()),
{
    primes::lemma_cs_modulus_prime();
    let xs = sample_points(samples, t);
    assert(distinct_mod(xs, q())) by {
        assert forall|i: int, j: int|
            0 <= i < xs.len() && 0 <= j < xs.len() && i != j implies !cong(
            #[trigger] xs[i],
            #[trigger] xs[j],
            q(),
        ) by {
            assert(point_fault(xs, i) is None);
            assert(point_fault(xs, j) is None);
            vstd::arithmetic::div_mod::lemma_mod_bound(samples[i].0 + 1, q());
            vstd::arithmetic::div_mod::lemma_mod_bound(samples[j].0 + 1, q());
            if cong(xs[i], xs[j], q()) {
                field::lemma_cong_close(xs[i], xs[j], q());
            }
        }
    }
    assert forall|k: int| 0 <= k < N implies recovered(samples, t)[k] == centered(
        secret[k],
        q(),
    ) by {
        let poly = sharing_poly(secret, coeffs, k);
        let ys = sample_values(samples, t, k);
        assert forall|i: int| 0 <= i < xs.len() implies cong(
            #[trigger] ys[i],
            eval(poly, xs[i]),
            q(),
        ) by {
            let x = samples[i].0 + 1;
            assert(samples[i].1@ == share_at(secret, coeffs, x));
            lemma_centered(eval(poly, x), q());
            field::lemma_cong_mod(x, q());
            lemma_eval_cong(poly, xs[i], x, q());
        }
        field::lemma_interpolation(poly, xs, ys, 0, q());
        assert(eval(poly, 0) == secret[k]) by {
            assert(0 * eval(poly.drop_first(), 0) == 0);
        }
        lemma_centered_cong(interpolate(xs, ys, 0, q()), secret[k], q());
    }
    assert(recovered(samples, t) =~= centered_poly(secret, q()));
}

/// Fewer shares than the threshold say nothing of the secret: whatever the
/// secret and whatever `t - 1` shares at distinct points are, there are
/// coefficients under which the secret has these shares.
pub proof fn law_few_shares_fit_any_secret(
    secret: Coeffs,
    xs: Seq<int>,
    ys: Seq<Coeffs>,
) -> (coeffs: Seq<Coeffs>)
    requires
        secret.len() == N,
        ys.len() == xs.len(),
        forall|i: int| 0 <= i < xs.len() ==> 0 < #[trigger] xs[i] < q(),
        forall|i: int, j: int|
            0 <= i < j < xs.len() ==> #[trigger] xs[i] != #[trigger] xs[j],
        forall|i: int| 0 <= i < ys.len() ==> (#[trigger] ys[i]).len() == N,
        forall|i: int, k: int|
            0 <= i < ys.len() && 0 <= k < N ==> -CS_MODULUS_OVER_TWO <= #[trigger] ys[i][k]
                <= CS_MODULUS_OVER_TWO,
    ensures
        coeffs.len() == xs.len(),
        forall|j: int, k: int|
            0 <= j < coeffs.len() && 0 <= k < N ==> -CS_MODULUS_OVER_TWO <= #[trigger] coeffs[j][k]
                <= CS_MODULUS_OVER_TWO,
        forall|i: int| 0 <= i < xs.len() ==> share_at(secret, coeffs, #[trigger] xs[i]) == ys[i],
{
    primes::lemma_cs_modulus_prime();
    let n = xs.len();
    let all = seq![0int] + xs;
    assert(distinct_mod(all, q())) by {
        assert forall|i: int, j: int|
            0 <= i < all.len() && 0 <= j < all.len() && i != j implies !cong(
            #[trigger] all[i],
            #[trigger] all[j],
            q(),
        ) by {
            assert(0 <= all[i] < q() && 0 <= all[j] < q()) by {
                assert(i > 0 ==> 0 < xs[i - 1] < q());
                assert(j > 0 ==> 0 < xs[j - 1] < q());
            }
            if cong(all[i], all[j], q()) {
                field::lemma_cong_close(all[i], all[j], q());
                assert(i > 0 ==> 0 < xs[i - 1]);
                assert(j > 0 ==> 0 < xs[j - 1]);
                if i > 0 && j > 0 {
                    assert(xs[i - 1] == xs[j - 1]);
                }
            }
        }
    }
    let polys = Seq::new(N as nat, |k: int| fitting_poly(secret, all, ys, k));
    let coeffs = Seq::new(
        n,
        |j: int| Seq::new(N as nat, |k: int| centered(field::coef(polys[k], j + 1), q())),
    );
    assert forall|j: int, k: int| 0 <= j < n && 0 <= k < N implies -CS_MODULUS_OVER_TWO
        <= #[trigger] coeffs[j][k] <= CS_MODULUS_OVER_TWO by {
        lemma_centered(field::coef(polys[k], j + 1), q());
    }
    assert forall|i: int| 0 <= i < n implies share_at(secret, coeffs, #[trigger] xs[i])
        == ys[i] by {
        let x = xs[i];
        assert forall|k: int| 0 <= k < N implies share_at(secret, coeffs, x)[k] == ys[i][k] by {
            lemma_fitting_poly(secret, all, ys, k);
            let c = polys[k];
            let full = Seq::new(n + 1, |j: int| field::coef(c, j));
            let mine = sharing_poly(secret, coeffs, k);
            lemma_eval_padded(c, full, x);
            lemma_eval_padded(c, full, 0);
            assert(0 * eval(full.drop_first(), 0) == 0);
            assert(all[0] == 0 && all[i + 1] == x);
            assert(cong(eval(c, all[0]), secret[k], q()));
            assert(cong(eval(c, all[i + 1]), ys[i][k], q()));
            assert forall|j: int| 0 <= j < mine.len() implies cong(
                #[trigger] mine[j],
                full[j],
                q(),
            ) by {
                if j > 0 {
                    assert(mine[j] == coeffs[j - 1][k]);
                    lemma_centered(field::coef(c, j), q());
                }
            }
            crate::ntt::lemma_eval_cong(mine, full, x, q());
            lemma_centered_cong(eval(mine, x), ys[i][k], q());
            negacyclic::lemma_centered_id(ys[i][k], q());
        }
        assert(share_at(secret, coeffs, x) =~= ys[i]);
    }
    coeffs
}

/// A polynomial through the secret at zero and the shares at their points.
spec fn fitting_poly(secret: Coeffs, all: Seq<int>, ys: Seq<Coeffs>, k: int) -> Seq<int> {
    choose|c: Seq<int>| #[trigger] fits(c, secret, all, ys, k)
}

spec fn fits(c: Seq<int>, secret: Coeffs, all: Seq<int>, ys: Seq<Coeffs>, k: int) -> bool {
    &&& c.len() <= all.len()
    &&& cong(eval(c, all[0]), secret[k], q())
    &&& forall|i: int| 0 <= i < ys.len() ==> cong(eval(c, all[i + 1]), #[trigger] ys[i][k], q())
}

proof fn lemma_fitting_poly(secret: Coeffs, all: Seq<int>, ys: Seq<Coeffs>, k: int)
    requires
        all.len() == ys.len() + 1,
        distinct_mod(all, q()),
        field::is_prime(q()),
    ensures
        fits(fitting_poly(secret, all, ys, k), secret, all, ys, k),
{
    let vs = seq![secret[k]] + at(ys, k);
    let c = field::lemma_interpolate_is_poly(all, vs, q());
    field::lemma_interpolate_at_point(all, vs, 0, q());
    assert forall|i: int| 0 <= i < ys.len() implies cong(
        eval(c, all[i + 1]),
        #[trigger] ys[i][k],
        q(),
    ) by {
        field::lemma_interpolate_at_point(all, vs, i + 1, q());
        assert(vs[i + 1] == ys[i][k]);
    }
    assert(fits(c, secret, all, ys, k));
}

proof fn lemma_eval_padded(c: Seq<int>, full: Seq<int>, x: int)
    requires
        c.len() <= full.len(),
        forall|j: int| 0 <= j < full.len() ==> #[trigger] full[j] == field::coef(c, j),
    ensures
        eval(full, x) == eval(c, x),
    decreases full.len(),
{
    if full.len() > 0 {
        let (t, d) = (full.drop_first(), if c.len() > 0 {
            c.drop_first()
        } else {
            c
        });
        assert forall|j: int| 0 <= j < t.len() implies #[trigger] t[j] == field::coef(d, j) by {
            assert(full[j + 1] == field::coef(c, j + 1));
        }
        lemma_eval_padded(d, t, x);
        assert(full[0] == field::coef(c, 0));
        if c.len() == 0 {
            assert(eval(d, x) == 0);
            assert(x * 0 == 0);
        }
    }
}

/// Sharing is additive: the sum of two shares at a point is the share of the
/// summed secret under the summed coefficients.
pub proof fn law_shamir_additive(
    s1: Coeffs,
    c1: Seq<Coeffs>,
    s2: Coeffs,
    c2: Seq<Coeffs>,
    x: int,
)
    requires
        s1.len() == N,
        s2.len() == N,
        c1.len() == c2.len(),
        forall|i: int| 0 <= i < c1.len() ==> (#[trigger] c1[i]).len() == N,
    ensures
        share_at(
            negacyclic::combine(s1, 1, s2),
            Seq::new(c1.len(), |i: int| negacyclic::combine(c1[i], 1, c2[i])),
            x,
        ) == centered_poly(
            negacyclic::combine(share_at(s1, c1, x), 1, share_at(s2, c2, x)),
            q(),
        ),
{
    let s = negacyclic::combine(s1, 1, s2);
    let c = Seq::new(c1.len(), |i: int| negacyclic::combine(c1[i], 1, c2[i]));
    let (a, b) = (share_at(s1, c1, x), share_at(s2, c2, x));
    assert forall|k: int| 0 <= k < N implies share_at(s, c, x)[k] == centered(
        a[k] + 1 * b[k],
        q(),
    ) by {
        let (p1, p2) = (sharing_poly(s1, c1, k), sharing_poly(s2, c2, k));
        assert(sharing_poly(s, c, k) =~= field::poly_add(p1, p2)) by {
            assert forall|i: int| 0 <= i < c1.len() implies #[trigger] c[i][k] == c1[i][k]
                + c2[i][k] by {
                assert(c1[i].len() == N);
            }
        }
        field::lemma_eval_add(p1, p2, x);
        let (e1, e2) = (eval(p1, x), eval(p2, x));
        lemma_centered(e1, q());
        lemma_centered(e2, q());
        field::lemma_cong_ops(a[k], e1, b[k], e2, q());
        lemma_centered_cong(a[k] + b[k], e1 + e2, q());
    }
    assert(share_at(s, c, x) =~= centered_poly(negacyclic::combine(a, 1, b), q()));
}

/// Each coefficient of a share is, modulo the ring's modulus, the value at the
/// server's point of the polynomial that starts with the secret and goes on with
/// the drawn coefficients: every one of them enters it.
pub proof fn law_share_is_polynomial_value(
    secret: Coeffs,
    coeffs: Seq<Coeffs>,
    shares: Seq<Coeffs>,
    i: int,
    k: int,
    c: Seq<int>,
)
    requires
        is_sharing(shares, secret, coeffs),
        0 <= i < shares.len(),
        0 <= k < N,
        c.len() == coeffs.len() + 1,
        c[0] == secret[k],
        forall|j: int| 0 <= j < coeffs.len() ==> c[j + 1] == (#[trigger] coeffs[j])[k],
    ensures
        cong(shares[i][k], eval(c, i + 1), CS_MODULUS as int),
        -CS_MODULUS < 2 * shares[i][k] < CS_MODULUS,
{
    assert(shares[i] == share_at(secret, coeffs, i + 1));
    let poly = sharing_poly(secret, coeffs, k);
    assert(poly =~= c) by {
        assert forall|j: int| 0 <= j < c.len() implies poly[j] == c[j] by {
            if j > 0 {
                assert(coeffs[j - 1][k] == c[j - 1 + 1]);
            }
        }
    }
    lemma_centered(eval(poly, i + 1), q());
}

/// Commitment-ring elements drawn one after the other take all their coefficients from the
/// generator: uniform residues, each half the modulus above its coefficient.
pub proof fn law_ring_elements_are_drawn(g: ChaCha20Rng, s: Seq<Coeffs>, h: ChaCha20Rng)
    requires
        run(cs_elements(), g, s, h),
    ensures
        exists|gs: Seq<ChaCha20Rng>|
            #![trigger gs.len()]
            gs.len() == s.len() + 1 && gs[0] == g && gs.last() == h && (forall|k: int|
                0 <= k < s.len() ==> run(
                    crate::random::uniform_values(CS_MODULUS as int),
                    gs[k],
                    Seq::new(N as nat, |i: int| (#[trigger] s[k])[i] + CS_MODULUS / 2),
                    gs[k + 1],
                )),
{
    let gs = choose|gs: Seq<ChaCha20Rng>| #[trigger]
        crate::random::linked(cs_elements(), gs, s) && gs[0] == g && gs[s.len() as int] == h;
    assert(gs.len() == s.len() + 1);
    assert forall|k: int| 0 <= k < s.len() implies run(
        crate::random::uniform_values(CS_MODULUS as int),
        gs[k],
        Seq::new(N as nat, |i: int| (#[trigger] s[k])[i] + CS_MODULUS / 2),
        gs[k + 1],
    ) by {
        assert(cs_elements()(gs[k], s[k], gs[k + 1]));
        assert(crate::random::lifted(s[k], CS_MODULUS_OVER_TWO as int) =~= Seq::new(
            N as nat,
            |i: int| s[k][i] + CS_MODULUS / 2,
        ));
    }
}

/// Recovery is owed exactly if there are enough samples and the points of the
/// first `t`, one more than their indices, are nonzero and pairwise different
/// modulo the ring's modulus. A refusal for a point names what is wrong with one.
pub proof fn law_recovery_is_owed(samples: Seq<(usize, CsPoly)>, t: int)
    requires
        0 <= t <= samples.len(),
    ensures
        points_fit(sample_points(samples, t)) <==> {
            &&& forall|i: int|
                0 <= i < t ==> ((#[trigger] samples[i]).0 + 1) % (CS_MODULUS as int) != 0
            &&& forall|i: int, j: int|
                0 <= i < j < t ==> ((#[trigger] samples[i]).0 + 1) % (CS_MODULUS as int) != ((
                #[trigger] samples[j]).0 + 1) % (CS_MODULUS as int)
        },
        recovery_refused(samples, t, SssError::ZeroPoint) ==> exists|i: int|
            0 <= i < t && ((#[trigger] samples[i]).0 + 1) % (CS_MODULUS as int) == 0,
        recovery_refused(samples, t, SssError::DuplicateIndex) ==> exists|i: int, j: int|
            0 <= i < j < t && ((#[trigger] samples[i]).0 + 1) % (CS_MODULUS as int) == ((
            #[trigger] samples[j]).0 + 1) % (CS_MODULUS as int),
        !recovery_refused(samples, t, SssError::NotEnoughShares),
{
    let xs = sample_points(samples, t);
    let m = CS_MODULUS as int;
    assert forall|i: int| 0 <= i < t implies #[trigger] xs[i] == (samples[i].0 + 1) % m by {}
    if points_fit(xs) {
        assert forall|i: int| 0 <= i < t implies ((#[trigger] samples[i]).0 + 1) % m != 0 by {
            assert(point_fault(xs, i) is None);
        }
        assert forall|i: int, j: int| 0 <= i < j < t implies ((#[trigger] samples[i]).0 + 1) % m
            != ((#[trigger] samples[j]).0 + 1) % m by {
            assert(point_fault(xs, i) is None);
            assert(xs[j] == (samples[j].0 + 1) % m);
        }
    }
    if (forall|i: int| 0 <= i < t ==> ((#[trigger] samples[i]).0 + 1) % m != 0) && (forall|
        i: int,
        j: int,
    |
        0 <= i < j < t ==> ((#[trigger] samples[i]).0 + 1) % m != ((#[trigger] samples[j]).0 + 1)
            % m) {
        assert forall|i: int| 0 <= i < xs.len() implies #[trigger] point_fault(xs, i) is None by {
            assert((samples[i].0 + 1) % m != 0);
            assert forall|j: int| i < j < xs.len() implies #[trigger] xs[j] != xs[i] by {
                assert((samples[i].0 + 1) % m != (samples[j].0 + 1) % m);
            }
        }
    }
    if recovery_refused(samples, t, SssError::ZeroPoint) {
        let i = choose|i: int|
            0 <= i < t && #[trigger] point_fault(xs, i) == Some(SssError::ZeroPoint);
        assert((samples[i].0 + 1) % m == 0);
    }
    if recovery_refused(samples, t, SssError::DuplicateIndex) {
        let i = choose|i: int|
            0 <= i < t && #[trigger] point_fault(xs, i) == Some(SssError::DuplicateIndex);
        let j = choose|j: int| i < j < xs.len() && #[trigger] xs[j] == xs[i];
        assert((samples[i].0 + 1) % m == (samples[j].0 + 1) % m);
    }
}

/// The total of shares is, in every coefficient, congruent to the sum over all of
/// them, and centered.
pub proof fn law_total_takes_every_share(shares: Seq<Coeffs>, k: int)
    requires
        0 <= k < N,
    ensures
        cong(
            total(shares)[k],
            sum(Seq::new(shares.len(), |i: int| shares[i][k])),
            CS_MODULUS as int,
        ),
        -CS_MODULUS < 2 * total(shares)[k] < CS_MODULUS,
{
    assert(at(shares, k) =~= Seq::new(shares.len(), |i: int| shares[i][k]));
    lemma_centered(sum(at(shares, k)), q());
}

} // verus!
