//! Tight bit packing: signed values at a fixed number of bits each, least
//! significant bit first.

use crate::bytes::{byte_span, le_bytes, le_value, lemma_le_round_trip, lemma_le_value};
use vstd::arithmetic::div_mod::{lemma_fundamental_div_mod, lemma_fundamental_div_mod_converse};
use vstd::arithmetic::power2::{
    lemma2_to64, lemma2_to64_rest, lemma_pow2_adds, lemma_pow2_pos, pow2,
};
use vstd::prelude::*;

verus! {

/// Bits needed for values in `[-bound, bound]`.
pub open spec fn is_width(bound: int, bits: int) -> bool {
    bits >= 1 && pow2((bits - 1) as nat) <= 2 * bound + 1 < pow2(bits as nat)
}

/// Number of bits to encode signed values in `[-bound, bound]`.
pub fn bits_for_signed64(bound: u64) -> (r: u32)
    ensures
        is_width(bound as int, r as int),
        r <= 65,
        bound < 0x8000_0000_0000 ==> r <= 48,
        bound < 0x2_0000_0000_0000 ==> r <= 50,
        bound <= u32::MAX ==> r <= 33,
        bound <= 0x7fff_ffff ==> r <= 32,
{
    let n: u128 = 2 * bound as u128 + 1;
    let mut rest: u128 = n;
    let mut r: u32 = 0;
    proof {
        lemma2_to64();
        lemma2_to64_rest();
        assert(pow2(0) == 1);
    }
    while rest > 0
        invariant
            n >= 1,
            n <= 0x1_ffff_ffff_ffff_ffff,
            rest * pow2(r as nat) <= n < (rest + 1) * pow2(r as nat),
            rest == 0 ==> r >= 1 && pow2((r - 1) as nat) <= n,
            r <= 65,
            pow2(r as nat) <= n || rest == 0,
        decreases rest,
    {
        let ghost (old_rest, p) = (rest as int, pow2(r as nat) as int);
        proof {
            lemma_pow2_adds(r as nat, 1);
            lemma_pow2_pos(r as nat);
            lemma2_to64();
            lemma2_to64_rest();
            if r >= 65 {
                lemma_pow2_adds(64, 1);
                lemma_pow2_monotonic(65, r as nat);
                assert(p >= 0x2_0000_0000_0000_0000);
                assert(false);
            }
        }
        rest = rest / 2;
        r = r + 1;
        proof {
            let h = rest as int;
            let p2 = pow2(r as nat) as int;
            assert(p2 == 2 * p);
            assert(h * p2 <= old_rest * p) by (nonlinear_arith)
                requires
                    2 * h <= old_rest,
                    p2 == 2 * p,
                    p > 0,
            ;
            assert((old_rest + 1) * p <= (h + 1) * p2) by (nonlinear_arith)
                requires
                    old_rest + 1 <= 2 * h + 2,
                    p2 == 2 * p,
                    p > 0,
            ;
            if h == 0 {
                assert(old_rest == 1);
                assert(1 * p == p);
            } else {
                assert(p2 <= h * p2) by (nonlinear_arith)
                    requires
                        h >= 1,
                        p2 > 0,
                ;
            }
        }
    }
    proof {
        assert(1 * pow2(r as nat) == pow2(r as nat));
        lemma2_to64();
        lemma2_to64_rest();
        if bound < 0x8000_0000_0000 && r > 48 {
            lemma_pow2_monotonic(48, (r - 1) as nat);
        }
        if bound < 0x2_0000_0000_0000 && r > 50 {
            lemma_pow2_monotonic(50, (r - 1) as nat);
        }
        if bound <= u32::MAX && r > 33 {
            lemma_pow2_monotonic(33, (r - 1) as nat);
        }
        if bound <= 0x7fff_ffff && r > 32 {
            lemma_pow2_monotonic(32, (r - 1) as nat);
        }
    }
    r
}

/// Number of bits to encode signed values in `[-bound, bound]`.
pub fn bits_for_signed(bound: u32) -> (r: u32)
    ensures
        is_width(bound as int, r as int),
        r <= 33,
        bound <= 0x7fff_ffff ==> r <= 32,
{
    bits_for_signed64(bound as u64)
}

/// Larger exponents give larger powers.
pub proof fn lemma_pow2_monotonic(a: nat, b: nat)
    requires
        a <= b,
    ensures
        pow2(a) <= pow2(b),
    decreases b,
{
    if a < b {
        lemma_pow2_monotonic(a, (b - 1) as nat);
        lemma_pow2_adds((b - 1) as nat, 1);
        lemma2_to64();
        lemma2_to64_rest();
    }
}

/// The width is determined by the bound.
pub proof fn lemma_width_unique(bound: int, a: int, b: int)
    requires
        is_width(bound, a),
        is_width(bound, b),
    ensures
        a == b,
{
    if a < b {
        lemma_pow2_monotonic(a as nat, (b - 1) as nat);
    }
    if b < a {
        lemma_pow2_monotonic(b as nat, (a - 1) as nat);
    }
}

/// Bytes holding `count` values of `bits` bits.
pub open spec fn packed_len(count: int, bits: int) -> int {
    (count * bits + 7) / 8
}

/// The integer whose base-`2^bits` digits are `us`, lowest first.
pub open spec fn stream(us: Seq<nat>, bits: nat) -> nat
    decreases us.len(),
{
    if us.len() == 0 {
        0
    } else {
        stream(us.drop_last(), bits) + pow2(bits * ((us.len() - 1) as nat)) * us.last()
    }
}

/// Every digit is below `2^bits`.
pub open spec fn digits_fit(us: Seq<nat>, bits: nat) -> bool {
    forall|i: int| 0 <= i < us.len() ==> #[trigger] us[i] < pow2(bits)
}

proof fn lemma_stream_bound(us: Seq<nat>, bits: nat)
    requires
        digits_fit(us, bits),
    ensures
        stream(us, bits) < pow2(bits * us.len()),
    decreases us.len(),
{
    if us.len() == 0 {
        assert(bits * 0 == 0);
        lemma2_to64();
        lemma2_to64_rest();
    } else {
        let m = (us.len() - 1) as nat;
        lemma_stream_bound(us.drop_last(), bits);
        assert(us[us.len() - 1] < pow2(bits));
        assert(bits * us.len() == bits * m + bits) by (nonlinear_arith)
            requires
                us.len() == m + 1,
        ;
        lemma_pow2_adds(bits * m, bits);
        let (p, w, u, s) = (pow2(bits * m), pow2(bits), us.last(), stream(us.drop_last(), bits));
        assert(s + p * u < p * w) by (nonlinear_arith)
            requires
                s < p,
                u + 1 <= w,
        ;
    }
}

/// A digit read back out of a stream, whatever stands above the stream.
pub proof fn lemma_stream_digit(us: Seq<nat>, bits: nat, above: nat, i: int)
    requires
        digits_fit(us, bits),
        0 <= i < us.len(),
    ensures
        ((stream(us, bits) + pow2(bits * us.len()) * above) / pow2(bits * (i as nat))) % pow2(bits)
            == us[i],
    decreases us.len(),
{
    let m = (us.len() - 1) as nat;
    let (p, w) = (pow2(bits * m), pow2(bits));
    let low = us.drop_last();
    let s = stream(low, bits);
    lemma_pow2_pos(bits);
    lemma_pow2_pos(bits * m);
    assert(bits * us.len() == bits * m + bits) by (nonlinear_arith)
        requires
            us.len() == m + 1,
    ;
    lemma_pow2_adds(bits * m, bits);
    let above2 = us.last() + w * above;
    let v = stream(us, bits) + pow2(bits * us.len()) * above;
    assert(v == s + p * above2) by (nonlinear_arith)
        requires
            v == s + p * us.last() + (p * w) * above,
            above2 == us.last() + w * above,
    ;
    assert(digits_fit(low, bits)) by {
        assert forall|j: int| 0 <= j < low.len() implies #[trigger] low[j] < pow2(bits) by {
            assert(us[j] < pow2(bits));
        }
    }
    if i == m {
        lemma_stream_bound(low, bits);
        assert(p * above2 == above2 * p) by (nonlinear_arith);
        lemma_fundamental_div_mod_converse(v as int, p as int, above2 as int, s as int);
        assert(us[i] < w);
        assert(above2 == (above as int) * (w as int) + us.last()) by (nonlinear_arith)
            requires
                above2 == us.last() + w * above,
        ;
        lemma_fundamental_div_mod_converse(
            above2 as int,
            w as int,
            above as int,
            us.last() as int,
        );
    } else {
        lemma_stream_digit(low, bits, above2, i);
        assert(low[i] == us[i]);
    }
}

pub proof fn lemma_le_push(s: Seq<u8>, b: u8)
    ensures
        le_value(s.push(b)) == le_value(s) + pow2(8 * s.len()) * b,
    decreases s.len(),
{
    lemma2_to64();
    lemma2_to64_rest();
    if s.len() == 0 {
        assert(s.push(b).drop_first() =~= Seq::<u8>::empty());
        assert(le_value(Seq::<u8>::empty()) == 0);
        assert(8 * 0 == 0);
        assert(pow2(0) * b == b);
    } else {
        let t = s.drop_first();
        lemma_le_push(t, b);
        assert(s.push(b).drop_first() =~= t.push(b));
        lemma_pow2_adds(8 * t.len(), 8);
        let p = pow2(8 * t.len());
        assert(256 * (p * b) == (p * 256) * b) by (nonlinear_arith);
    }
}

pub proof fn lemma_byte_span(w: nat)
    ensures
        byte_span(w) == pow2(8 * w),
    decreases w,
{
    lemma2_to64();
    lemma2_to64_rest();
    if w > 0 {
        lemma_byte_span((w - 1) as nat);
        lemma_pow2_adds(8 * ((w - 1) as nat), 8);
    } else {
        assert(pow2(0) == 1);
    }
}

/// Digit `i` of `bits` bits in a byte string.
pub open spec fn unpacked_at(s: Seq<u8>, bits: nat, i: nat) -> nat {
    (le_value(s) / pow2(bits * i)) % pow2(bits)
}

/// The packed form: the little-endian bytes of the stream.
pub open spec fn packed(us: Seq<nat>, bits: nat) -> Seq<u8> {
    le_bytes(stream(us, bits), packed_len(us.len() as int, bits as int) as nat)
}

/// Reading a digit out of the packed form gives the digit.
pub proof fn lemma_packed_digit(us: Seq<nat>, bits: nat, i: int)
    requires
        digits_fit(us, bits),
        0 <= i < us.len(),
    ensures
        unpacked_at(packed(us, bits), bits, i as nat) == us[i],
{
    let len = packed_len(us.len() as int, bits as int) as nat;
    lemma_stream_bound(us, bits);
    lemma_byte_span(len);
    assert(us.len() * bits == bits * us.len()) by (nonlinear_arith);
    lemma_pow2_monotonic(bits * us.len(), 8 * len);
    lemma_le_round_trip(stream(us, bits), len);
    lemma_stream_digit(us, bits, 0, i);
    assert(pow2(bits * us.len()) * 0 == 0);
}

/// Digits as naturals.
pub open spec fn nats(digits: Seq<u64>) -> Seq<nat> {
    digits.map(|_i: int, u: u64| u as nat)
}

/// Appends digits of `bits` bits each, lowest first.
pub fn pack_digits(out: &mut Vec<u8>, digits: &[u64], bits: u32)
    requires
        bits <= 56,
        digits_fit(nats(digits@), bits as nat),
        digits.len() * bits + 7 <= usize::MAX,
    ensures
        final(out)@ == old(out)@ + packed(nats(digits@), bits as nat),
{
    let ghost start = out@;
    let ghost us = nats(digits@);
    let ghost b = bits as nat;
    let mut acc: u64 = 0;
    let mut acc_bits: u32 = 0;
    proof {
        lemma2_to64();
        lemma2_to64_rest();
        assert(us.take(0) =~= Seq::<nat>::empty());
        assert(out@.subrange(start.len() as int, out.len() as int) =~= Seq::<u8>::empty());
        assert(b * 0 == 0);
        assert(pow2(0) * 0 == 0);
    }
    for i in 0..digits.len()
        invariant
            bits <= 56,
            b == bits,
            us == nats(digits@),
            digits_fit(us, b),
            out.len() >= start.len(),
            out@.take(start.len() as int) == start,
            acc_bits < 8,
            acc < pow2(acc_bits as nat),
            8 * (out.len() - start.len()) + acc_bits == b * i,
            le_value(out@.subrange(start.len() as int, out.len() as int)) + pow2(
                (8 * (out.len() - start.len())) as nat,
            ) * acc == stream(us.take(i as int), b),
    {
        let u: u64 = digits[i];
        let ghost acc0 = acc as nat;
        let ghost bits0 = acc_bits as nat;
        let ghost w0 = (out.len() - start.len()) as nat;
        proof {
            assert(u == us[i as int]);
            assert(us[i as int] < pow2(b));
            lemma_pow2_adds(b, bits0);
            lemma_pow2_monotonic(b + bits0, 63);
            lemma2_to64();
            lemma2_to64_rest();
            let (x, y, z) = (u as int, pow2(b) as int, pow2(bits0) as int);
            lemma_pow2_pos(bits0);
            assert(x * z <= y * z - z) by (nonlinear_arith)
                requires
                    x <= y - 1,
                    z > 0,
            ;
            vstd::bits::lemma_u64_shl_is_mul(u, acc_bits as u64);
        }
        acc = acc + (u << (acc_bits as u64));
        acc_bits = acc_bits + bits;
        proof {
            // the whole stream of i + 1 digits
            let p = pow2(8 * w0);
            lemma_pow2_adds(8 * w0, bits0);
            let full = us.take(i + 1);
            assert(full.drop_last() =~= us.take(i as int));
            assert(b * (i as nat) == 8 * w0 + bits0);
            let z = pow2(bits0);
            assert(p * (acc0 + u * z) == p * acc0 + (p * z) * u) by (nonlinear_arith);
            assert(b * ((i + 1) as nat) == b * (i as nat) + b) by (nonlinear_arith);
            lemma_pow2_adds(b, bits0);
        }
        while acc_bits >= 8
            invariant
                b == bits,
                acc_bits <= 63,
                i < digits.len(),
                out.len() >= start.len(),
                out@.take(start.len() as int) == start,
                acc < pow2(acc_bits as nat),
                8 * (out.len() - start.len()) + acc_bits == b * (i + 1),
                le_value(out@.subrange(start.len() as int, out.len() as int)) + pow2(
                    (8 * (out.len() - start.len())) as nat,
                ) * acc == stream(us.take(i + 1), b),
            decreases acc_bits,
        {
            let ghost before = out@;
            let byte: u8 = (acc % 256) as u8;
            out.push(byte);
            proof {
                let s0 = before.subrange(start.len() as int, before.len() as int);
                let s1 = out@.subrange(start.len() as int, out.len() as int);
                assert(s1 =~= s0.push(byte));
                assert(out@.take(start.len() as int) =~= before.take(start.len() as int));
                lemma_le_push(s0, byte);
                lemma_pow2_adds(8 * s0.len(), 8);
                lemma_pow2_adds((acc_bits - 8) as nat, 8);
                lemma2_to64();
                lemma2_to64_rest();
                let (p, a, h) = (pow2(8 * s0.len()), acc as nat, (acc / 256) as nat);
                assert(p * a == p * byte + (p * 256) * h) by (nonlinear_arith)
                    requires
                        a == byte + 256 * h,
                ;
                let r = pow2((acc_bits - 8) as nat);
                assert(h < r) by (nonlinear_arith)
                    requires
                        a < r * 256,
                        256 * h <= a,
                ;
            }
            acc = acc / 256;
            acc_bits = acc_bits - 8;
        }
    }
    let ghost n = digits.len() as nat;
    assert(us.take(n as int) =~= us);
    assert(b * n == n * b) by (nonlinear_arith);
    if acc_bits > 0 {
        let ghost before = out@;
        proof {
            lemma_pow2_monotonic(acc_bits as nat, 8);
            lemma2_to64();
            lemma2_to64_rest();
        }
        let byte: u8 = (acc % 256) as u8;
        out.push(byte);
        proof {
            let s0 = before.subrange(start.len() as int, before.len() as int);
            let s1 = out@.subrange(start.len() as int, out.len() as int);
            assert(s1 =~= s0.push(byte));
            assert(out@.take(start.len() as int) =~= before.take(start.len() as int));
            lemma_le_push(s0, byte);
            assert(byte == acc);
        }
    } else {
        proof {
            lemma2_to64();
            lemma2_to64_rest();
            assert(pow2(0) == 1);
            assert(acc == 0);
            assert(pow2((8 * (out.len() - start.len())) as nat) * 0 == 0);
        }
    }
    proof {
        let s = out@.subrange(start.len() as int, out.len() as int);
        lemma_le_value(s);
        assert(s.len() == packed_len(n as int, b as int));
        assert(le_value(s) == stream(us, b));
        assert(out@ =~= out@.take(start.len() as int) + s);
    }
}

/// Reads `count` digits of `bits` bits each from `input`, starting at byte
/// `start`; returns them and the next byte index.
pub fn unpack_digits(input: &[u8], start: usize, count: usize, bits: u32) -> (r: (Vec<u64>, usize))
    requires
        1 <= bits <= 56,
        count * bits + 7 <= usize::MAX,
        start + packed_len(count as int, bits as int) <= input.len(),
    ensures
        r.0.len() == count,
        r.1 == start + packed_len(count as int, bits as int),
        forall|i: int|
            0 <= i < count ==> #[trigger] r.0[i] == unpacked_at(
                input@.subrange(start as int, r.1 as int),
                bits as nat,
                i as nat,
            ),
{
    let ghost b = bits as nat;
    let mut out: Vec<u64> = Vec::with_capacity(count);
    let mut acc: u64 = 0;
    let mut acc_bits: u32 = 0;
    let mut at: usize = start;
    let ghost mut us: Seq<nat> = Seq::empty();
    proof {
        lemma2_to64();
        lemma2_to64_rest();
        assert(input@.subrange(start as int, start as int) =~= Seq::<u8>::empty());
        assert(b * 0 == 0);
        assert(pow2(0) == 1);
        assert(count * b == b * count) by (nonlinear_arith);
    }
    for i in 0..count
        invariant
            1 <= bits <= 56,
            b == bits,
            count * b == b * count,
            start + packed_len(count as int, b as int) <= input.len(),
            start <= at <= input.len(),
            out.len() == i,
            us.len() == i,
            digits_fit(us, b),
            forall|j: int| 0 <= j < i ==> #[trigger] out[j] == us[j],
            acc_bits < 8,
            acc < pow2(acc_bits as nat),
            8 * (at - start) == b * i + acc_bits,
            le_value(input@.subrange(start as int, at as int)) == stream(us, b) + pow2(
                b * (i as nat),
            ) * acc,
    {
        proof {
            assert(b * ((i + 1) as nat) == b * (i as nat) + b) by (nonlinear_arith);
            assert(b * ((i + 1) as nat) <= b * count) by (nonlinear_arith)
                requires
                    i + 1 <= count,
            ;
        }
        while acc_bits < bits
            invariant
                1 <= bits <= 56,
                b == bits,
                count * b == b * count,
                b * (i as nat) + b <= b * count,
                start + packed_len(count as int, b as int) <= input.len(),
                start <= at <= input.len(),
                acc_bits < bits + 8,
                acc < pow2(acc_bits as nat),
                8 * (at - start) == b * i + acc_bits,
                le_value(input@.subrange(start as int, at as int)) == stream(us, b) + pow2(
                    b * (i as nat),
                ) * acc,
            decreases bits + 8 - acc_bits,
        {
            let byte: u8 = input[at];
            proof {
                let s0 = input@.subrange(start as int, at as int);
                assert(input@.subrange(start as int, at + 1) =~= s0.push(byte));
                lemma_le_push(s0, byte);
                lemma_pow2_adds(b * (i as nat), acc_bits as nat);
                assert((8 * s0.len()) as nat == b * (i as nat) + acc_bits);
                let (p, z) = (pow2(b * (i as nat)), pow2(acc_bits as nat));
                assert(p * (acc + byte * z) == p * acc + (p * z) * byte) by (nonlinear_arith);
                lemma_pow2_adds(acc_bits as nat, 8);
                lemma_pow2_monotonic((acc_bits + 8) as nat, 63);
                lemma2_to64();
                lemma2_to64_rest();
                let (x, zi) = (byte as int, z as int);
                lemma_pow2_pos(acc_bits as nat);
                assert(x * zi <= 256 * zi - zi) by (nonlinear_arith)
                    requires
                        x <= 255,
                        zi > 0,
                ;
                vstd::bits::lemma_u64_shl_is_mul(byte as u64, acc_bits as u64);
            }
            acc = acc + ((byte as u64) << (acc_bits as u64));
            at = at + 1;
            acc_bits = acc_bits + 8;
        }
        proof {
            lemma2_to64();
            lemma2_to64_rest();
            lemma_pow2_monotonic(b, 63);
            vstd::bits::lemma_u64_shl_is_mul(1, bits as u64);
            lemma_pow2_pos(b);
        }
        let span: u64 = 1u64 << (bits as u64);
        let u: u64 = acc % span;
        let ghost acc0 = acc as nat;
        acc = acc / span;
        acc_bits = acc_bits - bits;
        proof {
            let w = pow2(b);
            assert(span == w);
            let h = acc as nat;
            lemma_fundamental_div_mod(acc0 as int, w as int);
            let us2 = us.push(u as nat);
            assert(us2.drop_last() =~= us);
            let p = pow2(b * (i as nat));
            lemma_pow2_adds(b * (i as nat), b);
            assert(p * acc0 == p * u + (p * w) * h) by (nonlinear_arith)
                requires
                    acc0 == w * h + u,
            ;
            lemma_pow2_adds(acc_bits as nat, b);
            let r = pow2(acc_bits as nat);
            assert(h < r) by (nonlinear_arith)
                requires
                    acc0 < r * w,
                    w * h <= acc0,
                    w > 0,
            ;
            assert(digits_fit(us2, b)) by {
                assert forall|j: int| 0 <= j < us2.len() implies #[trigger] us2[j] < pow2(b) by {
                    if j < i {
                        assert(us[j] < pow2(b));
                    }
                }
            }
            us = us2;
        }
        out.push(u);
    }
    proof {
        let s = input@.subrange(start as int, at as int);
        assert forall|i: int| 0 <= i < count implies #[trigger] out[i] == unpacked_at(
            s,
            b,
            i as nat,
        ) by {
            lemma_stream_digit(us, b, acc as nat, i);
            assert(b * us.len() == b * count);
        }
        assert(at - start == packed_len(count as int, b as int));
    }
    (out, at)
}

/// The unsigned digits of signed values.
pub open spec fn offset(values: Seq<i32>, bound: int) -> Seq<nat> {
    values.map(|_i: int, v: i32| (v + bound) as nat)
}

/// Every value lies in `[-bound, bound]`.
pub open spec fn in_range(values: Seq<i32>, bound: int) -> bool {
    forall|i: int| 0 <= i < values.len() ==> -bound <= #[trigger] values[i] <= bound
}

pub proof fn lemma_offset_fits(values: Seq<i32>, bound: int, bits: nat)
    requires
        in_range(values, bound),
        is_width(bound, bits as int),
    ensures
        digits_fit(offset(values, bound), bits),
{
    assert forall|i: int| 0 <= i < values.len() implies #[trigger] offset(values, bound)[i]
        < pow2(bits) by {
        assert(-bound <= values[i] <= bound);
    }
}

/// Packs signed values in `[-bound, bound]` into `out` at `bits` bits each,
/// offset by `bound` to become unsigned.
pub fn pack_bits(out: &mut Vec<u8>, values: &[i32], bound: u32, bits: u32)
    requires
        bits <= 56,
        is_width(bound as int, bits as int),
        in_range(values@, bound as int),
        bound <= i64::MAX,
        values.len() * bits + 7 <= usize::MAX,
    ensures
        final(out)@ == old(out)@ + packed(offset(values@, bound as int), bits as nat),
{
    let mut digits: Vec<u64> = Vec::with_capacity(values.len());
    for i in 0..values.len()
        invariant
            in_range(values@, bound as int),
            bound <= i64::MAX,
            digits.len() == i,
            forall|j: int| 0 <= j < i ==> #[trigger] digits[j] == values[j] + bound,
    {
        assert(-bound <= values[i as int] <= bound);
        digits.push((values[i] as i128 + bound as i128) as u64);
    }
    proof {
        lemma_offset_fits(values@, bound as int, bits as nat);
        assert(nats(digits@) =~= offset(values@, bound as int));
    }
    pack_digits(out, &digits, bits);
}

/// Reads `count` signed values of `bits` bits each from `input`, starting at
/// byte `start`; returns them and the next byte index.
pub fn unpack_bits(input: &[u8], start: usize, count: usize, bound: u32, bits: u32) -> (r: (
    Vec<i32>,
    usize,
))
    requires
        1 <= bits <= 56,
        is_width(bound as int, bits as int),
        count * bits + 7 <= usize::MAX,
        start + packed_len(count as int, bits as int) <= input.len(),
    ensures
        r.0.len() == count,
        r.1 == start + packed_len(count as int, bits as int),
        forall|i: int|
            0 <= i < count ==> #[trigger] r.0[i] == (unpacked_at(
                input@.subrange(start as int, r.1 as int),
                bits as nat,
                i as nat,
            ) - bound) as i32,
{
    let (digits, at): (Vec<u64>, usize) = unpack_digits(input, start, count, bits);
    let ghost s = input@.subrange(start as int, at as int);
    let mut out: Vec<i32> = Vec::with_capacity(count);
    for i in 0..count
        invariant
            digits.len() == count,
            s == input@.subrange(start as int, at as int),
            forall|j: int|
                0 <= j < count ==> #[trigger] digits[j] == unpacked_at(s, bits as nat, j as nat),
            out.len() == i,
            forall|j: int|
                0 <= j < i ==> #[trigger] out[j] == (unpacked_at(s, bits as nat, j as nat)
                    - bound) as i32,
    {
        out.push((digits[i] as i128 - bound as i128) as i32);
    }
    (out, at)
}

/// Unpacking gives back what was packed.
pub proof fn law_bits_round_trip(values: Seq<i32>, bound: int, bits: nat, i: int)
    requires
        in_range(values, bound),
        is_width(bound, bits as int),
        0 <= i < values.len(),
    ensures
        unpacked_at(packed(offset(values, bound), bits), bits, i as nat) - bound == values[i],
{
    lemma_offset_fits(values, bound, bits);
    lemma_packed_digit(offset(values, bound), bits, i);
    assert(-bound <= values[i] <= bound);
}

/// The unsigned digits of signed values.
pub open spec fn offset64(values: Seq<i64>, bound: int) -> Seq<nat> {
    values.map(|_i: int, v: i64| (v + bound) as nat)
}

/// Every value lies in `[-bound, bound]`.
pub open spec fn in_range64(values: Seq<i64>, bound: int) -> bool {
    forall|i: int| 0 <= i < values.len() ==> -bound <= #[trigger] values[i] <= bound
}

pub proof fn lemma_offset64_fits(values: Seq<i64>, bound: int, bits: nat)
    requires
        in_range64(values, bound),
        is_width(bound, bits as int),
    ensures
        digits_fit(offset64(values, bound), bits),
{
    assert forall|i: int| 0 <= i < values.len() implies #[trigger] offset64(values, bound)[i]
        < pow2(bits) by {
        assert(-bound <= values[i] <= bound);
    }
}

/// Packs signed values in `[-bound, bound]` into `out` at `bits` bits each,
/// offset by `bound` to become unsigned.
pub fn pack_bits64(out: &mut Vec<u8>, values: &[i64], bound: u64, bits: u32)
    requires
        bits <= 56,
        is_width(bound as int, bits as int),
        in_range64(values@, bound as int),
        bound <= i64::MAX,
        values.len() * bits + 7 <= usize::MAX,
    ensures
        final(out)@ == old(out)@ + packed(offset64(values@, bound as int), bits as nat),
{
    let mut digits: Vec<u64> = Vec::with_capacity(values.len());
    for i in 0..values.len()
        invariant
            in_range64(values@, bound as int),
            bound <= i64::MAX,
            digits.len() == i,
            forall|j: int| 0 <= j < i ==> #[trigger] digits[j] == values[j] + bound,
    {
        assert(-bound <= values[i as int] <= bound);
        digits.push((values[i] as i128 + bound as i128) as u64);
    }
    proof {
        lemma_offset64_fits(values@, bound as int, bits as nat);
        assert(nats(digits@) =~= offset64(values@, bound as int));
    }
    pack_digits(out, &digits, bits);
}

/// Reads `count` signed values of `bits` bits each from `input`, starting at
/// byte `start`; returns them and the next byte index.
pub fn unpack_bits64(input: &[u8], start: usize, count: usize, bound: u64, bits: u32) -> (r: (
    Vec<i64>,
    usize,
))
    requires
        1 <= bits <= 56,
        is_width(bound as int, bits as int),
        count * bits + 7 <= usize::MAX,
        start + packed_len(count as int, bits as int) <= input.len(),
    ensures
        r.0.len() == count,
        r.1 == start + packed_len(count as int, bits as int),
        forall|i: int|
            0 <= i < count ==> #[trigger] r.0[i] == (unpacked_at(
                input@.subrange(start as int, r.1 as int),
                bits as nat,
                i as nat,
            ) - bound) as i64,
{
    let (digits, at): (Vec<u64>, usize) = unpack_digits(input, start, count, bits);
    let ghost s = input@.subrange(start as int, at as int);
    let mut out: Vec<i64> = Vec::with_capacity(count);
    for i in 0..count
        invariant
            digits.len() == count,
            s == input@.subrange(start as int, at as int),
            forall|j: int|
                0 <= j < count ==> #[trigger] digits[j] == unpacked_at(s, bits as nat, j as nat),
            out.len() == i,
            forall|j: int|
                0 <= j < i ==> #[trigger] out[j] == (unpacked_at(s, bits as nat, j as nat)
                    - bound) as i64,
    {
        out.push((digits[i] as i128 - bound as i128) as i64);
    }
    (out, at)
}

/// Unpacking gives back what was packed.
pub proof fn law_bits64_round_trip(values: Seq<i64>, bound: int, bits: nat, i: int)
    requires
        in_range64(values, bound),
        is_width(bound, bits as int),
        0 <= i < values.len(),
    ensures
        unpacked_at(packed(offset64(values, bound), bits), bits, i as nat) - bound == values[i],
{
    lemma_offset64_fits(values, bound, bits);
    lemma_packed_digit(offset64(values, bound), bits, i);
    assert(-bound <= values[i] <= bound);
}

} // verus!
