//! Balanced base-69 digits.

use crate::field;
use crate::negacyclic::{centered, lemma_centered};
use vstd::prelude::*;

verus! {

/// The digit base.
pub const BASE: i64 = 69;

/// What is left of `v` once its lowest balanced digit is taken off.
pub open spec fn rest(v: int) -> int {
    (v - centered(v, BASE as int)) / (BASE as int)
}

/// What is left of `v` once its `j` lowest balanced digits are taken off.
pub open spec fn rest_after(v: int, j: nat) -> int
    decreases j,
{
    if j == 0 {
        v
    } else {
        rest(rest_after(v, (j - 1) as nat))
    }
}

/// Balanced digit `j` of `v`, in `[-34, 34]`.
pub open spec fn digit(v: int, j: nat) -> int {
    centered(rest_after(v, j), BASE as int)
}

/// `69^j`.
pub open spec fn base_power(j: nat) -> int
    decreases j,
{
    if j == 0 {
        1
    } else {
        base_power((j - 1) as nat) * 69
    }
}

/// The integer with digits `d`, lowest first.
pub open spec fn recomposed(d: Seq<int>) -> int
    decreases d.len(),
{
    if d.len() == 0 {
        0
    } else {
        recomposed(d.drop_last()) + base_power((d.len() - 1) as nat) * d.last()
    }
}

/// The `width` lowest digits of `v`.
pub open spec fn digits_of(v: int, width: nat) -> Seq<int> {
    Seq::new(width, |j: int| digit(v, j as nat))
}

proof fn lemma_rest(v: int)
    ensures
        v == centered(v, 69) + 69 * rest(v),
        -34 <= centered(v, 69) <= 34,
{
    lemma_centered(v, 69);
    field::lemma_cong_diff(v, centered(v, 69), 69);
}

/// Recomposing the digits gives back the value, up to the part not digitized.
pub proof fn lemma_recompose(v: int, width: nat)
    ensures
        v == recomposed(digits_of(v, width)) + base_power(width) * rest_after(v, width),
    decreases width,
{
    if width > 0 {
        let w = (width - 1) as nat;
        lemma_recompose(v, w);
        let d = digits_of(v, width);
        assert(d.drop_last() =~= digits_of(v, w));
        let r = rest_after(v, w);
        lemma_rest(r);
        let (b, c, s) = (base_power(w), centered(r, 69), rest(r));
        assert(b * r == b * c + (b * 69) * s) by (nonlinear_arith)
            requires
                r == c + 69 * s,
        ;
    } else {
        assert(1 * v == v);
    }
}

pub proof fn lemma_digit_bound(v: int, j: nat)
    ensures
        -34 <= digit(v, j) <= 34,
{
    lemma_rest(rest_after(v, j));
}

/// Half of `69^width - 1`: the largest value `width` digits reach.
pub open spec fn reach(width: nat) -> int {
    (base_power(width) - 1) / 2
}

/// A value within reach leaves nothing over.
pub proof fn lemma_exhausted(v: int, width: nat)
    requires
        -reach(width) <= v <= reach(width),
    ensures
        rest_after(v, width) == 0,
    decreases width,
{
    lemma_base_odd(width);
    if width > 0 {
        lemma_rest_after_shift(v, (width - 1) as nat);
        lemma_rest(v);
        lemma_base_odd((width - 1) as nat);
        assert(-reach((width - 1) as nat) <= rest(v) <= reach((width - 1) as nat));
        lemma_exhausted(rest(v), (width - 1) as nat);
    }
}

proof fn lemma_base_odd(j: nat)
    ensures
        base_power(j) % 2 == 1,
        base_power(j) >= 1,
    decreases j,
{
    if j > 0 {
        lemma_base_odd((j - 1) as nat);
    }
}

proof fn lemma_rest_after_shift(v: int, j: nat)
    ensures
        rest_after(v, j + 1) == rest_after(rest(v), j),
    decreases j,
{
    if j > 0 {
        lemma_rest_after_shift(v, (j - 1) as nat);
    } else {
        reveal_with_fuel(rest_after, 2);
    }
}

/// A value within reach of `width` digits is recomposed exactly.
pub proof fn lemma_digits_exact(v: int, width: nat)
    requires
        -reach(width) <= v <= reach(width),
    ensures
        recomposed(digits_of(v, width)) == v,
{
    lemma_recompose(v, width);
    lemma_exhausted(v, width);
    assert(base_power(width) * 0 == 0);
}

/// Recomposition is linear.
pub proof fn lemma_recomposed_linear(a: Seq<int>, b: Seq<int>)
    requires
        a.len() == b.len(),
    ensures
        recomposed(Seq::new(a.len(), |i: int| a[i] + b[i])) == recomposed(a) + recomposed(b),
    decreases a.len(),
{
    let c = Seq::new(a.len(), |i: int| a[i] + b[i]);
    if a.len() > 0 {
        let (x, y) = (a.drop_last(), b.drop_last());
        lemma_recomposed_linear(x, y);
        assert(c.drop_last() =~= Seq::new(x.len(), |i: int| x[i] + y[i]));
        let (p, u, v) = (base_power((a.len() - 1) as nat), a.last(), b.last());
        assert(p * (u + v) == p * u + p * v) by (nonlinear_arith);
    }
}

/// Congruent digits recompose to congruent values.
pub proof fn lemma_recomposed_cong(a: Seq<int>, b: Seq<int>, m: int)
    requires
        m > 0,
        a.len() == b.len(),
        forall|i: int| 0 <= i < a.len() ==> field::cong(#[trigger] a[i], b[i], m),
    ensures
        field::cong(recomposed(a), recomposed(b), m),
    decreases a.len(),
{
    if a.len() > 0 {
        let (x, y) = (a.drop_last(), b.drop_last());
        lemma_recomposed_cong(x, y, m);
        let k = a.len() - 1;
        assert(field::cong(a[k], b[k], m));
        let p = base_power(k as nat);
        field::lemma_cong_ops(p, p, a[k], b[k], m);
        field::lemma_cong_ops(recomposed(x), recomposed(y), p * a[k], p * b[k], m);
    }
}

pub proof fn lemma_base_powers()
    ensures
        base_power(1) == 69,
        base_power(2) == 4_761,
        base_power(3) == 328_509,
        base_power(9) == 35_452_087_835_576_229,
        base_power(10) == 2_446_194_060_654_759_801,
{
    reveal_with_fuel(base_power, 11);
    assert(base_power(3) == 328_509);
    assert(base_power(6) == 328_509 * 328_509);
    assert(base_power(9) == 328_509 * 328_509 * 328_509);
}

/// Splits off the lowest digit.
pub fn split_digit(v: i64) -> (r: (i64, i64))
    ensures
        r.0 == centered(v as int, 69),
        r.1 == rest(v as int),
        -34 <= r.0 <= 34,
{
    proof {
        lemma_rest(v as int);
    }
    let t: i64 = v % 69;
    let d: i64 = if t > 34 {
        t - 69
    } else if t < -34 {
        t + 69
    } else {
        t
    };
    let w: i128 = v as i128 - d as i128;
    proof {
        let c = centered(v as int, 69);
        assert(d == c);
        assert(w == 69 * rest(v as int));
    }
    (d, (w / 69) as i64)
}

/// The digits of a value within reach are balanced and spell it: `69^j` times
/// the digit `j`, summed, is the value.
pub proof fn law_digits_spell_the_value(v: int, width: nat, d: Seq<int>)
    requires
        -reach(width) <= v <= reach(width),
        d == digits_of(v, width),
    ensures
        d.len() == width,
        forall|j: int| 0 <= j < width ==> -34 <= #[trigger] d[j] <= 34,
        recomposed(d) == v,
        width == 3 ==> d[0] + 69 * d[1] + 4761 * d[2] == v,
{
    assert forall|j: int| 0 <= j < width implies -34 <= #[trigger] d[j] <= 34 by {
        lemma_digit_bound(v, j as nat);
    }
    lemma_digits_exact(v, width);
    if width == 3 {
        reveal_with_fuel(recomposed, 4);
        reveal_with_fuel(base_power, 4);
        let (a, b) = (d.drop_last(), d.drop_last().drop_last());
        assert(d.last() == d[2] && a.last() == d[1] && b.last() == d[0]);
        assert(b.drop_last() =~= Seq::<int>::empty());
    }
}

} // verus!
