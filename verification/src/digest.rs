//! Bridging ciphertexts into the digest ring, where coding and commitment
//! happen, and recovering the exact integer sum on the way back.

use crate::field::{self, cong, sum};
use crate::negacyclic::{
    center_i64, centered, lemma_centered, lemma_centered_cong, lemma_centered_id, N,
};
use crate::rings::{
    embedding, DgtNTTPoly, KahePoly, DGT_MODULUS, KAHE_MODULUS, KAHE_MODULUS_OVER_TWO,
};
use vstd::prelude::*;

verus! {

/// The residue a ciphertext coefficient embeds to.
pub open spec fn embedded(c: int) -> int {
    centered(c, KAHE_MODULUS as int) % (DGT_MODULUS as int)
}

/// Embeds a ciphertext; the result is what gets coded and committed to.
pub fn embed(ctxt: &[KahePoly]) -> (r: Vec<DgtNTTPoly>)
    ensures
        r.len() == ctxt.len(),
        forall|j: int| 0 <= j < r.len() ==> (#[trigger] r[j]).wf(),
        forall|j: int| 0 <= j < r.len() ==> (#[trigger] r[j]).holds(embedding(ctxt[j]@)),
        forall|j: int, i: int|
            0 <= j < r.len() && 0 <= i < N ==> #[trigger] r[j].poly()[i] == embedded(ctxt[j]@[i]),
{
    let mut out: Vec<DgtNTTPoly> = Vec::with_capacity(ctxt.len());
    for j in 0..ctxt.len()
        invariant
            out.len() == j,
            forall|k: int| 0 <= k < j ==> (#[trigger] out[k]).wf(),
            forall|k: int| 0 <= k < j ==> (#[trigger] out[k]).holds(embedding(ctxt[k]@)),
            forall|k: int, i: int|
                0 <= k < j && 0 <= i < N ==> #[trigger] out[k].poly()[i] == embedded(ctxt[k]@[i]),
    {
        out.push(DgtNTTPoly::from_kahe(&ctxt[j]));
    }
    out
}

/// The largest sum of `rho` honest coefficients.
pub open spec fn honest_bound(rho: int) -> int {
    rho * (KAHE_MODULUS / 2)
}

/// Every centered residue is within the honest range.
pub open spec fn sum_is_honest(rho_max: int, s: Seq<DgtNTTPoly>) -> bool {
    forall|j: int, i: int|
        0 <= j < s.len() && 0 <= i < N ==> -honest_bound(rho_max) <= centered(
            #[trigger] s[j].poly()[i],
            DGT_MODULUS as int,
        ) <= honest_bound(rho_max)
}

/// Recovers the summed ciphertext as exact integers; `None` when a value is
/// outside what `rho_max` honest ciphertexts can sum to.
pub fn centered_within_bound(rho_max: usize, summed: &[DgtNTTPoly]) -> (r: Option<Vec<[i64; N]>>)
    requires
        forall|j: int| 0 <= j < summed.len() ==> (#[trigger] summed[j]).wf(),
    ensures
        r is Some <==> sum_is_honest(rho_max as int, summed@),
        r matches Some(out) ==> out.len() == summed.len() && forall|j: int, i: int|
            0 <= j < out.len() && 0 <= i < N ==> #[trigger] out[j]@[i] == centered(
                summed[j].poly()[i],
                DGT_MODULUS as int,
            ),
{
    let bound: i128 = rho_max as i128 * (KAHE_MODULUS / 2) as i128;
    let mut out: Vec<[i64; N]> = Vec::with_capacity(summed.len());
    for j in 0..summed.len()
        invariant
            bound == honest_bound(rho_max as int),
            0 <= bound,
            forall|j: int| 0 <= j < summed.len() ==> (#[trigger] summed[j]).wf(),
            out.len() == j,
            forall|k: int, i: int|
                0 <= k < j && 0 <= i < N ==> #[trigger] out[k]@[i] == centered(
                    summed[k].poly()[i],
                    DGT_MODULUS as int,
                ),
            forall|k: int, i: int|
                0 <= k < j && 0 <= i < N ==> -bound <= centered(
                    #[trigger] summed[k].poly()[i],
                    DGT_MODULUS as int,
                ) <= bound,
    {
        let c: [i64; N] = summed[j].to_centered_coeffs();
        for i in 0..N
            invariant
                bound == honest_bound(rho_max as int),
                j < summed.len(),
                forall|t: int|
                    0 <= t < N ==> #[trigger] c[t] == centered(
                        summed[j as int].poly()[t],
                        DGT_MODULUS as int,
                    ),
                forall|t: int|
                    0 <= t < i ==> -bound <= centered(
                        #[trigger] summed[j as int].poly()[t],
                        DGT_MODULUS as int,
                    ) <= bound,
        {
            let x: i128 = c[i] as i128;
            if x > bound || x < -bound {
                assert(c[i as int] == centered(summed[j as int].poly()[i as int], DGT_MODULUS as int));
                assert(!sum_is_honest(rho_max as int, summed@));
                return None;
            }
        }
        assert forall|i: int| 0 <= i < N implies #[trigger] c@[i] == centered(
            summed[j as int].poly()[i],
            DGT_MODULUS as int,
        ) by {
            assert(c[i] == centered(summed[j as int].poly()[i], DGT_MODULUS as int));
        }
        out.push(c);
    }
    Some(out)
}

/// Reduces exact integers back to ciphertext coefficients.
pub fn to_kahe(exact: &[[i64; N]]) -> (r: Vec<KahePoly>)
    ensures
        r.len() == exact.len(),
        forall|j: int| 0 <= j < r.len() ==> (#[trigger] r[j]).reduced(),
        forall|j: int, i: int|
            0 <= j < r.len() && 0 <= i < N ==> #[trigger] r[j]@[i] == centered(
                exact[j]@[i] as int,
                KAHE_MODULUS as int,
            ),
{
    let mut out: Vec<KahePoly> = Vec::with_capacity(exact.len());
    for j in 0..exact.len()
        invariant
            out.len() == j,
            forall|k: int| 0 <= k < j ==> (#[trigger] out[k]).reduced(),
            forall|k: int, i: int|
                0 <= k < j && 0 <= i < N ==> #[trigger] out[k]@[i] == centered(
                    exact[k]@[i] as int,
                    KAHE_MODULUS as int,
                ),
    {
        let mut coeffs: [i64; N] = [0i64; N];
        for i in 0..N
            invariant
                j < exact.len(),
                forall|t: int|
                    0 <= t < i ==> #[trigger] coeffs[t] == centered(
                        exact[j as int]@[t] as int,
                        KAHE_MODULUS as int,
                    ),
        {
            coeffs[i] = center_i64(exact[j][i], KAHE_MODULUS);
        }
        let p = KahePoly::from_coeffs(coeffs);
        assert forall|i: int| 0 <= i < N implies #[trigger] p@[i] == centered(
            exact[j as int]@[i] as int,
            KAHE_MODULUS as int,
        ) && -KAHE_MODULUS_OVER_TWO <= p@[i] <= KAHE_MODULUS_OVER_TWO by {
            assert(coeffs[i] == centered(exact[j as int]@[i] as int, KAHE_MODULUS as int));
            lemma_centered(exact[j as int]@[i] as int, KAHE_MODULUS as int);
        }
        out.push(p);
    }
    out
}

/// The detour through the digest ring is exact: embedding, summing there,
/// centering and reducing gives the sum modulo the ciphertext modulus, and the
/// centered value is within the honest bound.
pub proof fn law_exact_sum(c: Seq<int>, residue: int, rho_max: int)
    requires
        c.len() <= rho_max,
        rho_max * KAHE_MODULUS < DGT_MODULUS,
        cong(residue, sum(c.map(|_i: int, x: int| embedded(x))), DGT_MODULUS as int),
    ensures
        -honest_bound(rho_max) <= centered(residue, DGT_MODULUS as int) <= honest_bound(rho_max),
        centered(centered(residue, DGT_MODULUS as int), KAHE_MODULUS as int) == centered(
            sum(c),
            KAHE_MODULUS as int,
        ),
{
    let (qk, qd) = (KAHE_MODULUS as int, DGT_MODULUS as int);
    let e = c.map(|_i: int, x: int| embedded(x));
    let h = c.map(|_i: int, x: int| centered(x, qk));
    assert forall|i: int| 0 <= i < e.len() implies cong(#[trigger] e[i], h[i], qd) by {
        field::lemma_cong_mod(h[i], qd);
    }
    field::lemma_sum_cong(e, h, qd);
    assert forall|i: int| 0 <= i < h.len() implies cong(#[trigger] h[i], c[i], qk) && -(qk / 2)
        <= h[i] <= qk / 2 by {
        lemma_centered(c[i], qk);
    }
    field::lemma_sum_cong(h, c, qk);
    crate::aggregate::lemma_sum_within(h, qk / 2);
    assert(c.len() * (qk / 2) <= rho_max * (qk / 2)) by (nonlinear_arith)
        requires
            c.len() <= rho_max,
            qk / 2 >= 0,
    ;
    assert(2 * (rho_max * (qk / 2)) <= rho_max * qk) by (nonlinear_arith)
        requires
            rho_max >= 0,
            qk >= 0,
            2 * (qk / 2) <= qk,
    ;
    lemma_centered_id(sum(h), qd);
    lemma_centered_cong(residue, sum(h), qd);
    lemma_centered_cong(sum(h), sum(c), qk);
}

/// A summed element is in the honest range exactly if each of its coefficients,
/// centered, is no larger in absolute value than `rho` centered ciphertext
/// coefficients can add up to.
pub proof fn law_honest_range(rho: int, s: Seq<DgtNTTPoly>)
    ensures
        sum_is_honest(rho, s) <==> forall|j: int, i: int|
            0 <= j < s.len() && 0 <= i < N ==> -(rho * (KAHE_MODULUS - 1)) <= 2 * centered(
                #[trigger] s[j].poly()[i],
                DGT_MODULUS as int,
            ) <= rho * (KAHE_MODULUS - 1),
{
    let b = honest_bound(rho);
    assert(2 * b == rho * (KAHE_MODULUS - 1)) by (nonlinear_arith)
        requires
            b == rho * (KAHE_MODULUS / 2),
            2 * (KAHE_MODULUS / 2) == KAHE_MODULUS - 1,
    ;
}

} // verus!
