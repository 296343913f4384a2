//! Bytes in ciphertext-ring messages, and slot allocation.
//!
//! Four bytes make a coefficient, least significant first; a polynomial carries
//! `8192` bytes and the last one is padded with zeros. Coefficients stay below
//! `2^32`.

use crate::bytes::{copy_range, le_bytes, le_value, lemma_le_len, lemma_le_round_trip, push_le, read_le};
use crate::hash::{sha256, sha256_of};
use crate::negacyclic::{centered, lemma_centered_cong, lemma_centered_id, N};
use crate::rings::{KahePoly, KAHE_MODULUS};
use vstd::prelude::*;

verus! {

pub const BYTES_PER_COEFF: usize = 4;

pub const BYTES_PER_POLY: usize = 8192;

pub const HEADER_LEN: usize = 4;

/// What fits in the bytes of one coefficient.
pub const SYMBOL_MOD: i64 = 4_294_967_296;

#[derive(Debug, PartialEq, Eq, Structural, Clone, Copy)]
pub enum CodecError {
    Empty,
    LengthOverflow { claimed: u32, available: usize },
    CoeffOutOfRange { index: usize, value: i64 },
}

// ---------------------------------------------------------------
// Bytes to coefficients
// ---------------------------------------------------------------

/// Byte `i`, zero past the end.
pub open spec fn byte_at(buf: Seq<u8>, i: int) -> int {
    if 0 <= i < buf.len() {
        buf[i] as int
    } else {
        0
    }
}

/// Symbol `j`: bytes `4j..4j+4`, least significant first.
pub open spec fn symbol(buf: Seq<u8>, j: int) -> int {
    byte_at(buf, 4 * j) + 256 * byte_at(buf, 4 * j + 1) + 65_536 * byte_at(buf, 4 * j + 2)
        + 16_777_216 * byte_at(buf, 4 * j + 3)
}

/// Polynomials needed for `len` bytes.
pub open spec fn polys_for(len: int) -> int {
    (len + 8191) / 8192
}

/// `polys` hold the symbols of `buf`, and nothing else.
pub open spec fn encodes(buf: Seq<u8>, polys: Seq<KahePoly>) -> bool {
    &&& polys.len() == polys_for(buf.len() as int)
    &&& forall|p: int, i: int|
        0 <= p < polys.len() && 0 <= i < N ==> #[trigger] polys[p]@[i] == symbol(
            buf,
            p * N + i,
        )
}

fn padded_byte(buf: &[u8], i: usize) -> (r: i64)
    ensures
        r == byte_at(buf@, i as int),
        0 <= r <= 255,
{
    if i < buf.len() {
        buf[i] as i64
    } else {
        0
    }
}

/// The polynomial of bytes `start..start + 8192`.
fn coeffs_from_bytes(buf: &[u8], p: usize) -> (r: KahePoly)
    requires
        p * 8192 + 8192 <= usize::MAX,
    ensures
        forall|i: int| 0 <= i < N ==> #[trigger] r@[i] == symbol(buf@, p * N + i),
{
    let mut coeffs: [i64; N] = [0i64; N];
    for i in 0..N
        invariant
            p * 8192 + 8192 <= usize::MAX,
            forall|k: int| 0 <= k < i ==> #[trigger] coeffs[k] == symbol(buf@, p * N + k),
    {
        let at: usize = p * BYTES_PER_POLY + i * BYTES_PER_COEFF;
        coeffs[i] = padded_byte(buf, at) + 256 * padded_byte(buf, at + 1) + 65_536 * padded_byte(
            buf,
            at + 2,
        ) + 16_777_216 * padded_byte(buf, at + 3);
    }
    let r = KahePoly::from_coeffs(coeffs);
    assert forall|i: int| 0 <= i < N implies #[trigger] r@[i] == symbol(buf@, p * N + i) by {
        assert(coeffs[i] == symbol(buf@, p * N + i));
    }
    r
}

/// Bytes to polynomials, without a header.
pub fn encode_raw(bytes: &[u8]) -> (r: Vec<KahePoly>)
    requires
        bytes.len() <= usize::MAX - 8192,
    ensures
        encodes(bytes@, r@),
{
    let n: usize = (bytes.len() + 8191) / 8192;
    let mut out: Vec<KahePoly> = Vec::with_capacity(n);
    for p in 0..n
        invariant
            bytes.len() <= usize::MAX - 8192,
            n == polys_for(bytes.len() as int),
            out.len() == p,
            forall|k: int, i: int|
                0 <= k < p && 0 <= i < N ==> #[trigger] out[k]@[i] == symbol(bytes@, k * N + i),
    {
        out.push(coeffs_from_bytes(bytes, p));
    }
    out
}

// ---------------------------------------------------------------
// Coefficients to bytes
// ---------------------------------------------------------------

/// Coefficient `i` of polynomial `p`, centered.
pub open spec fn coeff(polys: Seq<KahePoly>, p: int, i: int) -> int {
    centered(polys[p]@[i], KAHE_MODULUS as int)
}

/// Coefficient `j` counted across polynomials.
pub open spec fn flat(polys: Seq<KahePoly>, j: int) -> int {
    coeff(polys, j / (N as int), j % (N as int))
}

/// Every coefficient before number `upto` is a symbol.
pub open spec fn symbols_before(polys: Seq<KahePoly>, upto: int) -> bool {
    forall|j: int| 0 <= j < upto ==> 0 <= #[trigger] flat(polys, j) < SYMBOL_MOD
}

/// `buf` holds the four bytes of each of the first `upto` coefficients.
pub open spec fn spells(polys: Seq<KahePoly>, buf: Seq<u8>, upto: int) -> bool {
    &&& buf.len() == 4 * upto
    &&& forall|j: int|
        #![trigger flat(polys, j)]
        0 <= j < upto ==> buf.subrange(4 * j, 4 * j + 4) == le_bytes(flat(polys, j) as nat, 4)
}

/// `e` reports the first coefficient that is no symbol.
pub open spec fn reports(polys: Seq<KahePoly>, e: CodecError) -> bool {
    exists|j: int|
        0 <= j < polys.len() * N && symbols_before(polys, j) && !(0 <= #[trigger] flat(polys, j)
            < SYMBOL_MOD) && e == (CodecError::CoeffOutOfRange {
            index: (j % (N as int)) as usize,
            value: flat(polys, j) as i64,
        })
}

/// Polynomials to bytes, without a header.
pub fn decode_raw(polys: &[KahePoly]) -> (r: Result<Vec<u8>, CodecError>)
    ensures
        r == Err::<Vec<u8>, _>(CodecError::Empty) <==> polys.len() == 0,
        r is Ok <==> polys.len() > 0 && symbols_before(polys@, polys.len() * N),
        r matches Ok(buf) ==> spells(polys@, buf@, polys.len() * N),
        r matches Err(e) ==> polys.len() == 0 || reports(polys@, e),
{
    if polys.len() == 0 {
        return Err(CodecError::Empty);
    }
    let mut buf: Vec<u8> = Vec::new();
    for p in 0..polys.len()
        invariant
            symbols_before(polys@, p * N),
            spells(polys@, buf@, p * N),
    {
        let mut c: KahePoly = polys[p];
        c.normalize();
        for i in 0..N
            invariant
                p < polys.len(),
                forall|k: int| 0 <= k < N ==> #[trigger] c.coeffs[k] == coeff(polys@, p as int, k),
                symbols_before(polys@, p * N + i),
                spells(polys@, buf@, p * N + i),
        {
            let v: i64 = c.coeffs[i];
            let ghost j = p * N + i;
            assert(j / (N as int) == p && j % (N as int) == i) by (nonlinear_arith)
                requires
                    j == p * N + i,
                    0 <= i < N,
                    N == 2048,
            ;
            assert(flat(polys@, j) == v);
            if v < 0 || v >= SYMBOL_MOD {
                assert(p * N + N <= polys.len() * N) by (nonlinear_arith)
                    requires
                        p < polys.len(),
                ;
                assert(reports(polys@, CodecError::CoeffOutOfRange { index: i, value: v }));
                return Err(CodecError::CoeffOutOfRange { index: i, value: v });
            }
            let ghost before = buf@;
            push_le(&mut buf, v as u64, 4);
            proof {
                lemma_le_len(v as nat, 4);
                assert forall|k: int| #![trigger flat(polys@, k)] 0 <= k < j + 1 implies buf@.subrange(
                    4 * k,
                    4 * k + 4,
                ) == le_bytes(flat(polys@, k) as nat, 4) by {
                    if k < j {
                        assert(buf@.subrange(4 * k, 4 * k + 4) =~= before.subrange(
                            4 * k,
                            4 * k + 4,
                        ));
                    } else {
                        assert(buf@.subrange(4 * k, 4 * k + 4) =~= le_bytes(v as nat, 4));
                    }
                }
            }
        }
        assert(p * N + N == (p + 1) * N) by (nonlinear_arith);
    }
    Ok(buf)
}

// ---------------------------------------------------------------
// With a header
// ---------------------------------------------------------------

/// The length as four bytes, then the bytes.
pub open spec fn framed(bytes: Seq<u8>, len: u32) -> Seq<u8> {
    le_bytes(len as nat, 4) + bytes
}

/// Bytes to polynomials, behind a length header.
pub fn encode(bytes: &[u8]) -> (r: Vec<KahePoly>)
    requires
        bytes.len() <= usize::MAX - 8196,
    ensures
        encodes(framed(bytes@, bytes.len() as u32), r@),
{
    let mut buf: Vec<u8> = Vec::with_capacity(HEADER_LEN + bytes.len());
    let len: u32 = bytes.len() as u32;
    push_le(&mut buf, len as u64, 4);
    proof {
        lemma_le_len(len as nat, 4);
    }
    crate::bytes::push_all(&mut buf, bytes);
    assert(buf@ =~= framed(bytes@, len));
    encode_raw(&buf)
}

/// The payload behind the header of `buf`, or why there is none.
pub open spec fn unframed(buf: Seq<u8>) -> Result<Seq<u8>, CodecError> {
    let len = le_value(buf.take(4)) as int;
    if len > buf.len() - 4 {
        Err(CodecError::LengthOverflow { claimed: len as u32, available: (buf.len() - 4) as usize })
    } else {
        Ok(buf.subrange(4, 4 + len))
    }
}

/// Polynomials to bytes, reading the length header.
pub fn decode(polys: &[KahePoly]) -> (r: Result<Vec<u8>, CodecError>)
    ensures
        r == Err::<Vec<u8>, _>(CodecError::Empty) <==> polys.len() == 0,
        polys.len() > 0 && symbols_before(polys@, polys.len() * N) ==> exists|buf: Seq<u8>|
            #![trigger unframed(buf)]
            spells(polys@, buf, polys.len() * N) && match unframed(buf) {
                Ok(b) => r matches Ok(v) && v@ == b,
                Err(e) => r == Err::<Vec<u8>, _>(e),
            },
        polys.len() > 0 && !symbols_before(polys@, polys.len() * N) ==> (r matches Err(e)
            && reports(polys@, e)),
{
    let raw: Result<Vec<u8>, CodecError> = decode_raw(polys);
    match raw {
        Err(e) => {
            proof {
                if polys.len() > 0 {
                    assert(reports(polys@, e));
                }
            }
            Err(e)
        },
        Ok(buf) => {
            proof {
                assert(polys.len() * N >= 2048) by (nonlinear_arith)
                    requires
                        polys.len() >= 1,
                        N == 2048,
                ;
                assert(buf@.subrange(0, 4) =~= buf@.take(4));
                crate::bytes::lemma_le_value(buf@.take(4));
                reveal_with_fuel(crate::bytes::byte_span, 5);
            }
            let len: u32 = read_le(&buf, 0, 4) as u32;
            let available: usize = buf.len() - HEADER_LEN;
            let ghost want = unframed(buf@);
            if len as usize > available {
                assert(want == Err::<Seq<u8>, _>(
                    CodecError::LengthOverflow { claimed: len, available },
                ));
                return Err(CodecError::LengthOverflow { claimed: len, available });
            }
            Ok(copy_range(&buf, HEADER_LEN, HEADER_LEN + len as usize))
        },
    }
}

// ---------------------------------------------------------------
// Round trips
// ---------------------------------------------------------------

/// The four bytes of symbol `j`.
pub open spec fn quad(buf: Seq<u8>, j: int) -> Seq<u8> {
    seq![
        byte_at(buf, 4 * j) as u8,
        byte_at(buf, 4 * j + 1) as u8,
        byte_at(buf, 4 * j + 2) as u8,
        byte_at(buf, 4 * j + 3) as u8,
    ]
}

proof fn lemma_symbol_bytes(buf: Seq<u8>, j: int)
    ensures
        0 <= symbol(buf, j) < SYMBOL_MOD,
        le_bytes(symbol(buf, j) as nat, 4) == quad(buf, j),
{
    let (a, b, c, d) = (
        byte_at(buf, 4 * j),
        byte_at(buf, 4 * j + 1),
        byte_at(buf, 4 * j + 2),
        byte_at(buf, 4 * j + 3),
    );
    let v = symbol(buf, j) as nat;
    reveal_with_fuel(le_bytes, 5);
    assert(v / 256 == b + 256 * c + 65_536 * d);
    assert(v / 256 / 256 == c + 256 * d);
    assert(v / 256 / 256 / 256 == d);
    assert(le_bytes(v, 4) =~= quad(buf, j));
}

/// Decoding an encoding gives the bytes back, padded with zeros.
pub proof fn law_raw_round_trip(buf: Seq<u8>, polys: Seq<KahePoly>, out: Seq<u8>)
    requires
        encodes(buf, polys),
        spells(polys, out, polys.len() * N),
    ensures
        symbols_before(polys, polys.len() * N),
        out.len() == 8192 * polys_for(buf.len() as int),
        forall|i: int| 0 <= i < out.len() ==> #[trigger] out[i] == byte_at(buf, i),
{
    let n = polys.len() * N;
    assert forall|j: int| 0 <= j < n implies #[trigger] flat(polys, j) == symbol(buf, j) by {
        let (p, i) = (j / (N as int), j % (N as int));
        assert(0 <= p < polys.len() && p * N + i == j) by (nonlinear_arith)
            requires
                0 <= j < polys.len() * N,
                p == j / (N as int),
                i == j % (N as int),
                N == 2048,
        ;
        assert(polys[p]@[i] == symbol(buf, p * N + i));
        lemma_symbol_bytes(buf, j);
        lemma_centered_id(symbol(buf, j), KAHE_MODULUS as int);
    }
    assert forall|j: int| 0 <= j < n implies 0 <= #[trigger] flat(polys, j) < SYMBOL_MOD by {
        lemma_symbol_bytes(buf, j);
    }
    assert forall|i: int| 0 <= i < out.len() implies #[trigger] out[i] == byte_at(buf, i) by {
        let j = i / 4;
        lemma_symbol_bytes(buf, j);
        assert(flat(polys, j) == symbol(buf, j));
        assert(out.subrange(4 * j, 4 * j + 4)[i - 4 * j] == quad(buf, j)[i - 4 * j]);
    }
}

/// Decoding an encoding behind a header gives exactly the bytes back.
pub proof fn law_framed_round_trip(bytes: Seq<u8>, polys: Seq<KahePoly>, out: Seq<u8>)
    requires
        bytes.len() <= u32::MAX,
        encodes(framed(bytes, bytes.len() as u32), polys),
        spells(polys, out, polys.len() * N),
    ensures
        polys.len() == polys_for(4 + bytes.len() as int),
        symbols_before(polys, polys.len() * N),
        unframed(out) == Ok::<Seq<u8>, CodecError>(bytes),
{
    let len = bytes.len() as u32;
    let f = framed(bytes, len);
    lemma_le_len(len as nat, 4);
    law_raw_round_trip(f, polys, out);
    assert(out.take(4) =~= le_bytes(len as nat, 4));
    reveal_with_fuel(crate::bytes::byte_span, 5);
    lemma_le_round_trip(len as nat, 4);
    assert(out.subrange(4, 4 + bytes.len() as int) =~= bytes);
}

/// Buffers that never fill the same symbol can be summed: the sum decodes to
/// the bytes of whichever buffer filled each symbol.
pub proof fn law_disjoint_sum(
    a: Seq<u8>,
    b: Seq<u8>,
    pa: Seq<KahePoly>,
    pb: Seq<KahePoly>,
    total: Seq<KahePoly>,
    out: Seq<u8>,
)
    requires
        a.len() == b.len(),
        encodes(a, pa),
        encodes(b, pb),
        total.len() == pa.len(),
        forall|j: int| #[trigger] symbol(a, j) == 0 || symbol(b, j) == 0,
        forall|p: int, i: int|
            0 <= p < total.len() && 0 <= i < N ==> crate::field::cong(
                #[trigger] total[p]@[i],
                pa[p]@[i] + pb[p]@[i],
                KAHE_MODULUS as int,
            ),
        spells(total, out, total.len() * N),
    ensures
        symbols_before(total, total.len() * N),
        forall|i: int|
            0 <= i < out.len() ==> #[trigger] out[i] == byte_at(a, i) + byte_at(b, i),
{
    let n = total.len() * N;
    assert forall|j: int| 0 <= j < n implies #[trigger] flat(total, j) == symbol(a, j) + symbol(
        b,
        j,
    ) by {
        let (p, i) = (j / (N as int), j % (N as int));
        assert(0 <= p < total.len() && p * N + i == j) by (nonlinear_arith)
            requires
                0 <= j < total.len() * N,
                p == j / (N as int),
                i == j % (N as int),
                N == 2048,
        ;
        assert(pa[p]@[i] == symbol(a, p * N + i) && pb[p]@[i] == symbol(b, p * N + i));
        lemma_symbol_bytes(a, j);
        lemma_symbol_bytes(b, j);
        assert(symbol(a, j) == 0 || symbol(b, j) == 0);
        lemma_centered_id(symbol(a, j) + symbol(b, j), KAHE_MODULUS as int);
        lemma_centered_cong(
            total[p]@[i],
            symbol(a, j) + symbol(b, j),
            KAHE_MODULUS as int,
        );
    }
    assert forall|j: int| 0 <= j < n implies 0 <= #[trigger] flat(total, j) < SYMBOL_MOD by {
        lemma_symbol_bytes(a, j);
        lemma_symbol_bytes(b, j);
        assert(symbol(a, j) == 0 || symbol(b, j) == 0);
    }
    assert forall|i: int| 0 <= i < out.len() implies #[trigger] out[i] == byte_at(a, i) + byte_at(
        b,
        i,
    ) by {
        let j = i / 4;
        lemma_symbol_bytes(a, j);
        lemma_symbol_bytes(b, j);
        assert(symbol(a, j) == 0 || symbol(b, j) == 0);
        assert(flat(total, j) == symbol(a, j) + symbol(b, j));
        let k = i - 4 * j;
        assert(out.subrange(4 * j, 4 * j + 4)[k] == out[i]);
        if symbol(a, j) == 0 {
            assert(byte_at(a, i) == 0);
            assert(quad(b, j)[k] == byte_at(b, i));
        } else {
            assert(byte_at(b, i) == 0);
            assert(quad(a, j)[k] == byte_at(a, i));
        }
    }
}

// ---------------------------------------------------------------
// Slots
// ---------------------------------------------------------------

/// A vector that is zero but for `payload` at `offset`, cut at the end.
pub open spec fn placed(offset: int, vector_bytes: nat, payload: Seq<u8>) -> Seq<u8> {
    Seq::new(
        vector_bytes,
        |i: int|
            if offset <= i < offset + payload.len() {
                payload[i - offset]
            } else {
                0u8
            },
    )
}

/// Encodes a vector that carries `payload` at `offset`.
pub fn encode_at(offset: usize, vector_bytes: usize, payload: &[u8]) -> (r: Vec<KahePoly>)
    requires
        offset <= vector_bytes,
        vector_bytes <= usize::MAX - 8192,
    ensures
        encodes(placed(offset as int, vector_bytes as nat, payload@), r@),
{
    let mut buf: Vec<u8> = Vec::with_capacity(vector_bytes);
    for i in 0..vector_bytes
        invariant
            buf@ == placed(offset as int, vector_bytes as nat, payload@).take(i as int),
    {
        let b: u8 = if i >= offset && i - offset < payload.len() {
            payload[i - offset]
        } else {
            0
        };
        buf.push(b);
        assert(buf@ =~= placed(offset as int, vector_bytes as nat, payload@).take(i + 1));
    }
    assert(buf@ =~= placed(offset as int, vector_bytes as nat, payload@));
    encode_raw(&buf)
}

/// Every range before number `upto` ends within `len` bytes.
pub open spec fn ranges_fit(ranges: Seq<(usize, usize)>, upto: int, len: int) -> bool {
    forall|k: int| 0 <= k < upto ==> (#[trigger] ranges[k]).0 + ranges[k].1 <= len
}

/// What reading `ranges` out of `buf` gives.
pub open spec fn reads_ranges(
    buf: Seq<u8>,
    ranges: Seq<(usize, usize)>,
    r: Result<Vec<Vec<u8>>, CodecError>,
) -> bool {
    match r {
        Ok(out) => {
            &&& ranges_fit(ranges, ranges.len() as int, buf.len() as int)
            &&& out.len() == ranges.len()
            &&& forall|k: int|
                0 <= k < out.len() ==> (#[trigger] out[k])@ == buf.subrange(
                    ranges[k].0 as int,
                    ranges[k].0 + ranges[k].1,
                )
        },
        Err(e) => exists|k: int|
            0 <= k < ranges.len() && ranges_fit(ranges, k, buf.len() as int) && (
            #[trigger] ranges[k]).0 + ranges[k].1 > buf.len() && e == (
            CodecError::LengthOverflow {
                claimed: (ranges[k].0 + ranges[k].1) as usize as u32,
                available: buf.len() as usize,
            }),
    }
}

/// Reads byte ranges out of a decoded vector.
pub fn decode_ranges(plain: &[KahePoly], ranges: &[(usize, usize)]) -> (r: Result<
    Vec<Vec<u8>>,
    CodecError,
>)
    requires
        forall|k: int| 0 <= k < ranges.len() ==> (#[trigger] ranges[k]).0 + ranges[k].1 <= usize::MAX,
    ensures
        plain.len() == 0 ==> r == Err::<Vec<Vec<u8>>, _>(CodecError::Empty),
        plain.len() > 0 && !symbols_before(plain@, plain.len() * N) ==> (r matches Err(e)
            && reports(plain@, e)),
        plain.len() > 0 && symbols_before(plain@, plain.len() * N) ==> exists|buf: Seq<u8>|
            spells(plain@, buf, plain.len() * N) && #[trigger] reads_ranges(buf, ranges@, r),
{
    let raw: Result<Vec<u8>, CodecError> = decode_raw(plain);
    match raw {
        Err(e) => Err(e),
        Ok(buf) => {
            let mut out: Vec<Vec<u8>> = Vec::with_capacity(ranges.len());
            for k in 0..ranges.len()
                invariant
                    forall|k: int|
                        0 <= k < ranges.len() ==> (#[trigger] ranges[k]).0 + ranges[k].1
                            <= usize::MAX,
                    plain.len() > 0,
                    symbols_before(plain@, plain.len() * N),
                    spells(plain@, buf@, plain.len() * N),
                    ranges_fit(ranges@, k as int, buf.len() as int),
                    out.len() == k,
                    forall|j: int|
                        0 <= j < k ==> (#[trigger] out[j])@ == buf@.subrange(
                            ranges[j].0 as int,
                            ranges[j].0 + ranges[j].1,
                        ),
            {
                assert(ranges[k as int].0 + ranges[k as int].1 <= usize::MAX);
                let offset: usize = ranges[k].0;
                let end: usize = offset + ranges[k].1;
                if end > buf.len() {
                    let e = CodecError::LengthOverflow { claimed: end as u32, available: buf.len() };
                    let bad: Result<Vec<Vec<u8>>, CodecError> = Err(e);
                    assert(ranges@[k as int].0 + ranges@[k as int].1 == end);
                    assert(reads_ranges(buf@, ranges@, bad));
                    return bad;
                }
                out.push(copy_range(&buf, offset, end));
            }
            let good: Result<Vec<Vec<u8>>, CodecError> = Ok(out);
            assert(reads_ranges(buf@, ranges@, good));
            good
        },
    }
}

/// Coefficient `i` of polynomial `p`, summed over encodings.
pub open spec fn summed_at(all: Seq<Seq<KahePoly>>, p: int, i: int) -> int
    decreases all.len(),
{
    if all.len() == 0 {
        0
    } else {
        summed_at(all.drop_last(), p, i) + all.last()[p]@[i]
    }
}

/// Payload `k` starts on a coefficient and ends in the vector, and the
/// coefficients it fills are filled by no other.
pub open spec fn has_own_slot(
    offsets: Seq<int>,
    payloads: Seq<Seq<u8>>,
    vector_bytes: int,
    k: int,
) -> bool {
    &&& 0 <= offsets[k]
    &&& offsets[k] % 4 == 0
    &&& offsets[k] + aligned(payloads[k].len() as int) <= vector_bytes
    &&& forall|m: int|
        0 <= m < payloads.len() && m != k ==> offsets[k] + aligned(payloads[k].len() as int)
            <= #[trigger] offsets[m] || offsets[m] + aligned(payloads[m].len() as int)
            <= offsets[k]
}

/// Outside its slot a payload's vector is zero.
proof fn lemma_outside(offset: int, vector_bytes: nat, payload: Seq<u8>, j: int)
    requires
        offset % 4 == 0,
        !(offset <= 4 * j < offset + aligned(payload.len() as int)),
    ensures
        symbol(placed(offset, vector_bytes, payload), j) == 0,
{
}

proof fn lemma_own_symbol(
    offsets: Seq<int>,
    payloads: Seq<Seq<u8>>,
    vector_bytes: nat,
    all: Seq<Seq<KahePoly>>,
    n: nat,
    p: int,
    i: int,
    k: int,
)
    requires
        n <= payloads.len(),
        offsets.len() == payloads.len(),
        all.len() == payloads.len(),
        forall|m: int|
            0 <= m < payloads.len() ==> #[trigger] has_own_slot(
                offsets,
                payloads,
                vector_bytes as int,
                m,
            ),
        forall|m: int|
            0 <= m < payloads.len() ==> encodes(
                placed(offsets[m], vector_bytes, payloads[m]),
                #[trigger] all[m],
            ),
        0 <= p < polys_for(vector_bytes as int),
        0 <= i < N,
        0 <= k < payloads.len() ==> offsets[k] <= 4 * (p * N + i) < offsets[k] + aligned(
            payloads[k].len() as int,
        ),
        !(0 <= k < payloads.len()) ==> forall|m: int|
            0 <= m < payloads.len() ==> !(#[trigger] offsets[m] <= 4 * (p * N + i) < offsets[m]
                + aligned(payloads[m].len() as int)),
    ensures
        summed_at(all.take(n as int), p, i) == (if 0 <= k < n {
            symbol(placed(offsets[k], vector_bytes, payloads[k]), p * N + i)
        } else {
            0
        }),
    decreases n,
{
    if n > 0 {
        let m = n - 1;
        lemma_own_symbol(offsets, payloads, vector_bytes, all, m as nat, p, i, k);
        assert(all.take(n as int).drop_last() =~= all.take(m));
        assert(all.take(n as int).last() == all[m]);
        assert(encodes(placed(offsets[m], vector_bytes, payloads[m]), all[m]));
        assert(all[m][p]@[i] == symbol(placed(offsets[m], vector_bytes, payloads[m]), p * N + i));
        if m != k {
            if 0 <= k < payloads.len() {
                assert(has_own_slot(offsets, payloads, vector_bytes as int, k));
                assert(offsets[k] + aligned(payloads[k].len() as int) <= offsets[m] || offsets[m]
                    + aligned(payloads[m].len() as int) <= offsets[k]);
            }
            assert(has_own_slot(offsets, payloads, vector_bytes as int, m));
            lemma_outside(offsets[m], vector_bytes, payloads[m], p * N + i);
        }
    } else {
        assert(all.take(0).len() == 0);
    }
}

/// Any number of payloads in slots of their own, each encoded in a vector and
/// all vectors summed, are read back from the sum, each at its slot.
pub proof fn law_slots_read_back(
    offsets: Seq<int>,
    payloads: Seq<Seq<u8>>,
    vector_bytes: nat,
    all: Seq<Seq<KahePoly>>,
    total: Seq<KahePoly>,
    out: Seq<u8>,
)
    requires
        offsets.len() == payloads.len(),
        all.len() == payloads.len(),
        forall|m: int|
            0 <= m < payloads.len() ==> #[trigger] has_own_slot(
                offsets,
                payloads,
                vector_bytes as int,
                m,
            ),
        forall|m: int|
            0 <= m < payloads.len() ==> encodes(
                placed(offsets[m], vector_bytes, payloads[m]),
                #[trigger] all[m],
            ),
        total.len() == polys_for(vector_bytes as int),
        forall|p: int, i: int|
            0 <= p < total.len() && 0 <= i < N ==> crate::field::cong(
                #[trigger] total[p]@[i],
                summed_at(all, p, i),
                KAHE_MODULUS as int,
            ),
        spells(total, out, total.len() * N),
    ensures
        symbols_before(total, total.len() * N),
        forall|k: int|
            0 <= k < payloads.len() ==> offsets[k] + payloads[k].len() <= out.len()
                && out.subrange(offsets[k], offsets[k] + payloads[k].len())
                == #[trigger] payloads[k],
{
    let n = total.len() * N;
    assert(all.take(all.len() as int) =~= all);
    assert forall|j: int| 0 <= j < n implies 0 <= #[trigger] flat(total, j) < SYMBOL_MOD by {
        let k = if exists|m: int|
            0 <= m < payloads.len() && #[trigger] offsets[m] <= 4 * j < offsets[m] + aligned(
                payloads[m].len() as int,
            ) {
            choose|m: int|
                0 <= m < payloads.len() && #[trigger] offsets[m] <= 4 * j < offsets[m] + aligned(
                    payloads[m].len() as int,
                )
        } else {
            -1int
        };
        lemma_flat_slot(offsets, payloads, vector_bytes, all, total, j, k);
        if k >= 0 {
            lemma_symbol_bytes(placed(offsets[k], vector_bytes, payloads[k]), j);
        }
    }
    assert forall|k: int| 0 <= k < payloads.len() implies offsets[k] + payloads[k].len() <= out.len()
        && out.subrange(offsets[k], offsets[k] + payloads[k].len()) == #[trigger] payloads[k] by {
        assert(has_own_slot(offsets, payloads, vector_bytes as int, k));
        let (o, x) = (offsets[k], payloads[k]);
        let v = placed(o, vector_bytes, x);
        assert(out.len() >= vector_bytes);
        assert forall|b: int| 0 <= b < x.len() implies out[o + b] == x[b] by {
            let j = (o + b) / 4;
            lemma_flat_slot(offsets, payloads, vector_bytes, all, total, j, k);
            lemma_symbol_bytes(v, j);
            let c = o + b - 4 * j;
            assert(out.subrange(4 * j, 4 * j + 4)[c] == out[o + b]);
            assert(quad(v, j)[c] == byte_at(v, o + b));
        }
        assert(out.subrange(o, o + x.len()) =~= x);
    }
}

proof fn lemma_flat_slot(
    offsets: Seq<int>,
    payloads: Seq<Seq<u8>>,
    vector_bytes: nat,
    all: Seq<Seq<KahePoly>>,
    total: Seq<KahePoly>,
    j: int,
    k: int,
)
    requires
        offsets.len() == payloads.len(),
        all.len() == payloads.len(),
        forall|m: int|
            0 <= m < payloads.len() ==> #[trigger] has_own_slot(
                offsets,
                payloads,
                vector_bytes as int,
                m,
            ),
        forall|m: int|
            0 <= m < payloads.len() ==> encodes(
                placed(offsets[m], vector_bytes, payloads[m]),
                #[trigger] all[m],
            ),
        total.len() == polys_for(vector_bytes as int),
        forall|p: int, i: int|
            0 <= p < total.len() && 0 <= i < N ==> crate::field::cong(
                #[trigger] total[p]@[i],
                summed_at(all, p, i),
                KAHE_MODULUS as int,
            ),
        0 <= j < total.len() * N,
        0 <= k < payloads.len() ==> offsets[k] <= 4 * j < offsets[k] + aligned(
            payloads[k].len() as int,
        ),
        !(0 <= k < payloads.len()) ==> forall|m: int|
            0 <= m < payloads.len() ==> !(#[trigger] offsets[m] <= 4 * j < offsets[m] + aligned(
                payloads[m].len() as int,
            )),
    ensures
        flat(total, j) == (if 0 <= k < payloads.len() {
            symbol(placed(offsets[k], vector_bytes, payloads[k]), j)
        } else {
            0
        }),
{
    let (p, i) = (j / (N as int), j % (N as int));
    assert(0 <= p < total.len() && p * N + i == j) by (nonlinear_arith)
        requires
            0 <= j < total.len() * N,
            p == j / (N as int),
            i == j % (N as int),
            N == 2048,
    ;
    lemma_own_symbol(offsets, payloads, vector_bytes, all, payloads.len(), p, i, k);
    assert(all.take(all.len() as int) =~= all);
    let x = summed_at(all, p, i);
    if 0 <= k < payloads.len() {
        lemma_symbol_bytes(placed(offsets[k], vector_bytes, payloads[k]), j);
    }
    lemma_centered_id(x, KAHE_MODULUS as int);
    lemma_centered_cong(total[p]@[i], x, KAHE_MODULUS as int);
}

// ---------------------------------------------------------------
// Beacon and allocation
// ---------------------------------------------------------------

/// The values below `upto` that are in `s`, ascending, two bytes each.
pub open spec fn ascending_bytes(s: Set<u16>, upto: nat) -> Seq<u8>
    decreases upto,
{
    if upto == 0 {
        Seq::empty()
    } else {
        let low = ascending_bytes(s, (upto - 1) as nat);
        if s.contains((upto - 1) as u16) {
            low + le_bytes((upto - 1) as nat, 2)
        } else {
            low
        }
    }
}

/// The beacon of a set of values: the first two bytes of the hash of its
/// members in ascending order.
pub open spec fn beacon_of(s: Set<u16>) -> int {
    le_value(sha256_of(ascending_bytes(s, 65_536)).take(2)) as int
}

/// The per-round beacon. It depends only on which values occur: neither order
/// nor repetition matters.
pub fn beacon(rands: &[u16]) -> (r: u16)
    ensures
        r == beacon_of(rands@.to_set()),
{
    let mut present: Vec<bool> = Vec::with_capacity(65_536);
    for v in 0..65_536u32
        invariant
            present.len() == v,
            forall|k: int| 0 <= k < v ==> !#[trigger] present[k],
    {
        present.push(false);
    }
    for i in 0..rands.len()
        invariant
            present.len() == 65_536,
            forall|k: int|
                0 <= k < 65_536 ==> (#[trigger] present[k] <==> rands@.take(i as int).contains(
                    k as u16,
                )),
    {
        let v: usize = rands[i] as usize;
        let ghost before = present@;
        present.set(v, true);
        proof {
            let (now, was) = (rands@.take(i + 1), rands@.take(i as int));
            assert(now =~= was.push(rands[i as int]));
            assert forall|k: int| 0 <= k < 65_536 implies (#[trigger] present[k]
                <==> now.contains(k as u16)) by {
                if k == v {
                    assert(now[i as int] == k as u16);
                } else {
                    if was.contains(k as u16) {
                        let t = choose|t: int| 0 <= t < was.len() && was[t] == k as u16;
                        assert(now[t] == k as u16);
                    }
                    if now.contains(k as u16) {
                        let t = choose|t: int| 0 <= t < now.len() && now[t] == k as u16;
                        assert(t < i);
                        assert(was[t] == k as u16);
                    }
                    assert(present[k] == before[k]);
                }
            }
        }
    }
    assert(rands@.take(rands.len() as int) =~= rands@);
    let ghost set = rands@.to_set();
    let mut buf: Vec<u8> = Vec::new();
    for v in 0..65_536u32
        invariant
            present.len() == 65_536,
            set == rands@.to_set(),
            forall|k: int|
                0 <= k < 65_536 ==> (#[trigger] present[k] <==> rands@.contains(k as u16)),
            buf@ == ascending_bytes(set, v as nat),
    {
        if present[v as usize] {
            push_le(&mut buf, v as u64, 2);
        }
        assert(set.contains(v as u16) <==> rands@.contains(v as u16));
    }
    let d: [u8; 32] = sha256(&buf);
    let ds: &[u8] = d.as_slice();
    let r: u64 = read_le(ds, 0, 2);
    proof {
        assert(ds@.subrange(0, 2) =~= d@.take(2));
        crate::bytes::lemma_le_value(d@.take(2));
        reveal_with_fuel(crate::bytes::byte_span, 3);
    }
    r as u16
}

/// `v` rounded up to whole coefficients.
pub open spec fn aligned(v: int) -> int {
    (v + 3) / 4 * 4
}

/// Distance of `rand` past the beacon, around the ring of `u16`.
pub open spec fn distance(rand: u16, beacon: u16) -> int {
    (rand - beacon) % 65_536
}

/// Reservation `i` shares its value with no other.
pub open spec fn unmatched(res: Seq<(u16, usize)>, i: int) -> bool {
    forall|j: int| 0 <= j < res.len() && j != i ==> (#[trigger] res[j]).0 != res[i].0
}

/// Reservation `i` is the unmatched one at distance `v`.
pub open spec fn sits_at(res: Seq<(u16, usize)>, beacon: u16, i: int, v: int) -> bool {
    0 <= i < res.len() && distance(res[i].0, beacon) == v && unmatched(res, i)
}

/// Some unmatched reservation is at distance `v`.
pub open spec fn taken(res: Seq<(u16, usize)>, beacon: u16, v: int) -> bool {
    exists|i: int| sits_at(res, beacon, i, v)
}

/// The unmatched reservation at distance `v`.
pub open spec fn sitter(res: Seq<(u16, usize)>, beacon: u16, v: int) -> int {
    choose|i: int| sits_at(res, beacon, i, v)
}

/// Bytes given out to reservations at distances below `v`.
pub open spec fn cursor(res: Seq<(u16, usize)>, beacon: u16, vector_bytes: int, v: nat) -> int
    decreases v,
{
    if v == 0 {
        0
    } else {
        let low = cursor(res, beacon, vector_bytes, (v - 1) as nat);
        if taken(res, beacon, v - 1) {
            let i = sitter(res, beacon, v - 1);
            if low + aligned(res[i].1 as int) <= vector_bytes {
                low + aligned(res[i].1 as int)
            } else {
                low
            }
        } else {
            low
        }
    }
}

/// The slot of reservation `i`: reservations are served in order of distance
/// past the beacon, each whole or not at all; those whose value occurs twice
/// get nothing.
pub open spec fn slot(
    res: Seq<(u16, usize)>,
    beacon: u16,
    vector_bytes: int,
    i: int,
) -> Option<int> {
    let at = cursor(res, beacon, vector_bytes, distance(res[i].0, beacon) as nat);
    if unmatched(res, i) && at + aligned(res[i].1 as int) <= vector_bytes {
        Some(at)
    } else {
        None
    }
}

proof fn lemma_sits_unique(res: Seq<(u16, usize)>, beacon: u16, i: int, j: int, v: int)
    requires
        sits_at(res, beacon, i, v),
        0 <= j < res.len(),
        distance(res[j].0, beacon) == v,
    ensures
        i == j,
{
    lemma_distance(res[i].0, res[j].0, beacon);
    if i != j {
        assert(res[j].0 != res[i].0);
    }
}

proof fn lemma_distance(x: u16, y: u16, beacon: u16)
    requires
        distance(x, beacon) == distance(y, beacon),
    ensures
        x == y,
{
    assert((x - beacon) % 65_536 == (y - beacon) % 65_536);
}

/// Bytes given out never decrease with distance and never exceed the vector.
pub proof fn lemma_cursor(res: Seq<(u16, usize)>, beacon: u16, vector_bytes: int, v: nat, w: nat)
    requires
        v <= w,
        vector_bytes >= 0,
    ensures
        0 <= cursor(res, beacon, vector_bytes, v) <= cursor(res, beacon, vector_bytes, w)
            <= vector_bytes,
    decreases w,
{
    if w == 0 {
    } else if v < w {
        lemma_cursor(res, beacon, vector_bytes, v, (w - 1) as nat);
    } else {
        lemma_cursor(res, beacon, vector_bytes, (w - 1) as nat, (w - 1) as nat);
    }
}

/// Slots are whole coefficients, lie inside the vector, and never overlap.
pub proof fn law_slots_disjoint(
    res: Seq<(u16, usize)>,
    beacon: u16,
    vector_bytes: int,
    i: int,
    j: int,
)
    requires
        0 <= i < res.len(),
        0 <= j < res.len(),
        i != j,
        vector_bytes >= 0,
        slot(res, beacon, vector_bytes, i) is Some,
        slot(res, beacon, vector_bytes, j) is Some,
    ensures
        ({
            let (a, b) = (
                slot(res, beacon, vector_bytes, i)->0,
                slot(res, beacon, vector_bytes, j)->0,
            );
            &&& 0 <= a && a + aligned(res[i].1 as int) <= vector_bytes
            &&& a % 4 == 0
            &&& a + aligned(res[i].1 as int) <= b || b + aligned(res[j].1 as int) <= a
        }),
{
    let (v, w) = (
        distance(res[i].0, beacon) as nat,
        distance(res[j].0, beacon) as nat,
    );
    lemma_cursor(res, beacon, vector_bytes, 0, v);
    lemma_cursor_aligned(res, beacon, vector_bytes, v);
    assert(sits_at(res, beacon, i, v as int));
    assert(sits_at(res, beacon, j, w as int));
    if v == w {
        lemma_distance(res[i].0, res[j].0, beacon);
        assert(res[j].0 != res[i].0);
    } else if v < w {
        let c = choose|c: int| sits_at(res, beacon, c, v as int);
        lemma_sits_unique(res, beacon, c, i, v as int);
        lemma_cursor(res, beacon, vector_bytes, v + 1, w);
    } else {
        let c = choose|c: int| sits_at(res, beacon, c, w as int);
        lemma_sits_unique(res, beacon, c, j, w as int);
        lemma_cursor(res, beacon, vector_bytes, w + 1, v);
    }
}

proof fn lemma_cursor_aligned(res: Seq<(u16, usize)>, beacon: u16, vector_bytes: int, v: nat)
    ensures
        cursor(res, beacon, vector_bytes, v) % 4 == 0,
    decreases v,
{
    if v > 0 {
        lemma_cursor_aligned(res, beacon, vector_bytes, (v - 1) as nat);
    }
}

/// Which reservation holds a value: the first one, and whether another does too.
struct Holder {
    first: usize,
    count: u8,
}

/// `h` describes the reservations before `upto` that hold `v`.
spec fn holds_value(res: Seq<(u16, usize)>, upto: int, v: int, h: Holder) -> bool {
    &&& h.count == 0 ==> forall|j: int| 0 <= j < upto ==> (#[trigger] res[j]).0 != v
    &&& h.count == 1 ==> 0 <= h.first < upto && res[h.first as int].0 == v && forall|j: int|
        0 <= j < upto && j != h.first ==> (#[trigger] res[j]).0 != v
    &&& h.count == 2 ==> exists|i: int, j: int|
        0 <= i < j < upto && (#[trigger] res[i]).0 == v && (#[trigger] res[j]).0 == v
    &&& h.count <= 2
}

fn holders(res: &[(u16, usize)]) -> (r: Vec<Holder>)
    ensures
        r.len() == 65_536,
        forall|v: int|
            0 <= v < 65_536 ==> holds_value(res@, res.len() as int, v, #[trigger] r[v]),
{
    let mut table: Vec<Holder> = Vec::with_capacity(65_536);
    for v in 0..65_536u32
        invariant
            table.len() == v,
            forall|k: int| 0 <= k < v ==> holds_value(res@, 0, k, #[trigger] table[k]),
    {
        table.push(Holder { first: 0, count: 0 });
    }
    for i in 0..res.len()
        invariant
            table.len() == 65_536,
            forall|k: int|
                0 <= k < 65_536 ==> holds_value(res@, i as int, k, #[trigger] table[k]),
    {
        let v: usize = res[i].0 as usize;
        let ghost before = table@;
        assert(holds_value(res@, i as int, v as int, before[v as int]));
        let c: u8 = table[v].count;
        if c == 0 {
            table.set(v, Holder { first: i, count: 1 });
        } else {
            let first: usize = table[v].first;
            table.set(v, Holder { first, count: 2 });
            proof {
                if c == 1 {
                    assert(res@[first as int].0 == v && res@[i as int].0 == v);
                } else {
                    let (a, b) = choose|a: int, b: int|
                        0 <= a < b < i && (#[trigger] res@[a]).0 == v && (#[trigger] res@[b]).0
                            == v;
                    assert(res@[a].0 == v && res@[b].0 == v);
                }
            }
        }
        proof {
            assert forall|k: int| 0 <= k < 65_536 implies holds_value(
                res@,
                i + 1,
                k,
                #[trigger] table[k],
            ) by {
                assert(holds_value(res@, i as int, k, before[k]));
                if k != v {
                    assert(table[k] == before[k]);
                    assert(res@[i as int].0 != k);
                    if before[k].count == 2 {
                        let (a, b) = choose|a: int, b: int|
                            0 <= a < b < i && (#[trigger] res@[a]).0 == k && (
                            #[trigger] res@[b]).0 == k;
                        assert(res@[a].0 == k && res@[b].0 == k);
                    }
                }
            }
        }
    }
    table
}

/// What a value's holder says of the distance the value is at.
proof fn lemma_holder(res: Seq<(u16, usize)>, beacon: u16, v: int, h: Holder)
    requires
        0 <= v < 65_536,
        holds_value(res, res.len() as int, (beacon + v) % 65_536, h),
    ensures
        taken(res, beacon, v) <==> h.count == 1,
        h.count == 1 ==> sitter(res, beacon, v) == h.first && 0 <= h.first < res.len() && distance(
            res[h.first as int].0,
            beacon,
        ) == v && unmatched(res, h.first as int),
        forall|i: int|
            0 <= i < res.len() && distance(#[trigger] res[i].0, beacon) == v ==> (h.count == 1 && i
                == h.first) || (h.count == 2 && !unmatched(res, i)),
{
    let value = (beacon + v) % 65_536;
    assert forall|i: int| 0 <= i < res.len() implies (distance(#[trigger] res[i].0, beacon) == v
        <==> res[i].0 == value) by {
        let x = res[i].0 as int;
        if (x - beacon) % 65_536 == v {
            assert((beacon + v) % 65_536 == x);
        }
    }
    if h.count == 1 {
        let f = h.first as int;
        assert(sits_at(res, beacon, f, v)) by {
            assert forall|j: int| 0 <= j < res.len() && j != f implies (#[trigger] res[j]).0
                != res[f].0 by {}
        }
        lemma_sits_unique(res, beacon, sitter(res, beacon, v), f, v);
    } else {
        if h.count == 2 {
            let (a, b) = choose|a: int, b: int|
                0 <= a < b < res.len() && (#[trigger] res[a]).0 == value && (#[trigger] res[b]).0
                    == value;
            assert(res[a].0 == value && res[b].0 == value);
            assert forall|i: int|
                0 <= i < res.len() && distance(#[trigger] res[i].0, beacon) == v implies !unmatched(
                res,
                i,
            ) by {
                assert(res[i].0 == value);
                if i == a {
                    assert(res[b].0 == res[i].0);
                } else {
                    assert(res[a].0 == res[i].0);
                }
            }
        }
        if taken(res, beacon, v) {
            let i = sitter(res, beacon, v);
            assert(sits_at(res, beacon, i, v));
            assert(res[i].0 == value);
        }
    }
}

/// Assigns byte offsets to reservations `(rand, size)`.
#[verifier::rlimit(60)]
#[verifier::spinoff_prover]
pub fn allocate(reservations: &[(u16, usize)], beacon: u16, vector_bytes: usize) -> (r: Vec<
    Option<usize>,
>)
    ensures
        r.len() == reservations.len(),
        forall|i: int|
            0 <= i < r.len() ==> match #[trigger] r[i] {
                Some(at) => slot(reservations@, beacon, vector_bytes as int, i) == Some(at as int),
                None => slot(reservations@, beacon, vector_bytes as int, i) is None,
            },
{
    let table: Vec<Holder> = holders(reservations);
    let ghost res = reservations@;
    let ghost vb = vector_bytes as int;
    let mut out: Vec<Option<usize>> = Vec::with_capacity(reservations.len());
    for i in 0..reservations.len()
        invariant
            out.len() == i,
            forall|k: int| 0 <= k < i ==> #[trigger] out[k] is None,
    {
        out.push(None);
    }
    let mut at: usize = 0;
    for v in 0..65_536u32
        invariant
            res == reservations@,
            vb == vector_bytes,
            table.len() == 65_536,
            forall|k: int|
                0 <= k < 65_536 ==> holds_value(res, res.len() as int, k, #[trigger] table[k]),
            out.len() == reservations.len(),
            at == cursor(res, beacon, vb, v as nat),
            at <= vector_bytes,
            forall|i: int|
                0 <= i < out.len() && distance(res[i].0, beacon) >= v ==> #[trigger] out[i] is None,
            forall|i: int|
                0 <= i < out.len() && distance(res[i].0, beacon) < v ==> match #[trigger] out[i] {
                    Some(a) => slot(res, beacon, vb, i) == Some(a as int),
                    None => slot(res, beacon, vb, i) is None,
                },
    {
        let value: u32 = (beacon as u32 + v) % 65_536;
        let ghost h = table[value as int];
        let ghost before = out@;
        proof {
            assert(holds_value(res, res.len() as int, value as int, h));
            lemma_holder(res, beacon, v as int, h);
        }
        if table[value as usize].count == 1 {
            let i: usize = table[value as usize].first;
            let size: usize = reservations[i].1;
            let units: usize = size / 4 + (if size % 4 == 0 {
                0
            } else {
                1
            });
            if units <= (vector_bytes - at) / 4 {
                out.set(i, Some(at));
                at = at + units * 4;
            }
        }
        proof {
            assert forall|i: int| 0 <= i < out.len() && distance(res[i].0, beacon) < v + 1
                implies match #[trigger] out[i] {
                Some(a) => slot(res, beacon, vb, i) == Some(a as int),
                None => slot(res, beacon, vb, i) is None,
            } by {
                if distance(res[i].0, beacon) < v {
                    assert(out[i] == before[i]);
                }
            }
        }
    }
    proof {
        assert forall|i: int| 0 <= i < res.len() implies 0 <= distance(
            #[trigger] res[i].0,
            beacon,
        ) < 65_536 by {}
    }
    out
}

// ---------------------------------------------------------------
// What allocation does not depend on
// ---------------------------------------------------------------

/// `order` lists the indices below `n`, each once.
pub open spec fn is_order(order: Seq<int>, n: int) -> bool {
    &&& order.len() == n
    &&& order.no_duplicates()
    &&& forall|k: int| 0 <= k < n ==> 0 <= #[trigger] order[k] < n
}

proof fn lemma_order_covers(order: Seq<int>, n: int, i: int) -> (k: int)
    requires
        is_order(order, n),
        0 <= i < n,
    ensures
        0 <= k < n,
        order[k] == i,
{
    let (a, b) = (order.to_set(), vstd::set_lib::set_int_range(0, n));
    order.unique_seq_to_set();
    vstd::set_lib::lemma_int_range(0, n);
    assert(a.subset_of(b)) by {
        assert forall|x: int| a.contains(x) implies b.contains(x) by {
            let k = choose|k: int| 0 <= k < order.len() && order[k] == x;
            assert(0 <= order[k] < n);
        }
    }
    vstd::set_lib::lemma_len_subset(a, b);
    vstd::set_lib::lemma_subset_equality(a, b);
    assert(b.contains(i));
    assert(a.contains(i));
    choose|k: int| 0 <= k < order.len() && order[k] == i
}

/// `b` lists what `a` does, in this order, each at the same distance past its
/// beacon.
spec fn is_redraw(
    a: Seq<(u16, usize)>,
    from: u16,
    b: Seq<(u16, usize)>,
    to: u16,
    order: Seq<int>,
) -> bool {
    &&& is_order(order, a.len() as int)
    &&& b.len() == a.len()
    &&& forall|k: int|
        0 <= k < b.len() ==> (#[trigger] b[k]).1 == a[order[k]].1 && distance(b[k].0, to)
            == distance(a[order[k]].0, from)
}

proof fn lemma_redraw_unmatched(
    a: Seq<(u16, usize)>,
    from: u16,
    b: Seq<(u16, usize)>,
    to: u16,
    order: Seq<int>,
    k: int,
)
    requires
        is_redraw(a, from, b, to, order),
        0 <= k < b.len(),
    ensures
        unmatched(b, k) <==> unmatched(a, order[k]),
{
    let i = order[k];
    assert(b[k].1 == a[i].1);
    if unmatched(a, i) {
        assert forall|m: int| 0 <= m < b.len() && m != k implies (#[trigger] b[m]).0 != b[k].0 by {
            assert(order[m] != order[k]);
            assert(a[order[m]].0 != a[i].0);
            if b[m].0 == b[k].0 {
                lemma_distance(a[order[m]].0, a[i].0, from);
            }
        }
    }
    if unmatched(b, k) {
        assert forall|j: int| 0 <= j < a.len() && j != i implies (#[trigger] a[j]).0 != a[i].0 by {
            let m = lemma_order_covers(order, a.len() as int, j);
            assert(b[m].0 != b[k].0);
            if a[j].0 == a[i].0 {
                lemma_distance(b[m].0, b[k].0, to);
            }
        }
    }
}

proof fn lemma_redraw_cursor(
    a: Seq<(u16, usize)>,
    from: u16,
    b: Seq<(u16, usize)>,
    to: u16,
    order: Seq<int>,
    vector_bytes: int,
    v: nat,
)
    requires
        is_redraw(a, from, b, to, order),
    ensures
        cursor(b, to, vector_bytes, v) == cursor(a, from, vector_bytes, v),
    decreases v,
{
    if v > 0 {
        let u = v - 1;
        lemma_redraw_cursor(a, from, b, to, order, vector_bytes, u as nat);
        if taken(b, to, u) {
            let k = sitter(b, to, u);
            assert(sits_at(b, to, k, u));
            lemma_redraw_unmatched(a, from, b, to, order, k);
            assert(b[k].1 == a[order[k]].1);
            assert(sits_at(a, from, order[k], u));
            lemma_sits_unique(a, from, sitter(a, from, u), order[k], u);
        }
        if taken(a, from, u) {
            let i = sitter(a, from, u);
            assert(sits_at(a, from, i, u));
            let k = lemma_order_covers(order, a.len() as int, i);
            lemma_redraw_unmatched(a, from, b, to, order, k);
            assert(b[k].1 == a[order[k]].1);
            assert(sits_at(b, to, k, u));
        }
    }
}

proof fn lemma_redraw_slot(
    a: Seq<(u16, usize)>,
    from: u16,
    b: Seq<(u16, usize)>,
    to: u16,
    order: Seq<int>,
    vector_bytes: int,
    k: int,
)
    requires
        is_redraw(a, from, b, to, order),
        0 <= k < b.len(),
    ensures
        slot(b, to, vector_bytes, k) == slot(a, from, vector_bytes, order[k]),
{
    assert(b[k].1 == a[order[k]].1);
    lemma_redraw_unmatched(a, from, b, to, order, k);
    lemma_redraw_cursor(
        a,
        from,
        b,
        to,
        order,
        vector_bytes,
        distance(b[k].0, to) as nat,
    );
}

proof fn lemma_shift_distance(x: u16, beacon: u16, by: u16, moved: u16, moved_beacon: u16)
    requires
        moved == (x + by) % 65_536,
        moved_beacon == (beacon + by) % 65_536,
    ensures
        distance(moved, moved_beacon) == distance(x, beacon),
{
    let (p, q) = ((x + by) / 65_536, (beacon + by) / 65_536);
    assert(moved == x + by - 65_536 * p && 0 <= p <= 1);
    assert(moved_beacon == beacon + by - 65_536 * q && 0 <= q <= 1);
    assert(moved - moved_beacon == x - beacon + 65_536 * (q - p));
}

/// Moving every value and the beacon on by the same amount, around the ring,
/// leaves every slot where it is.
pub proof fn law_shift_keeps_slots(
    res: Seq<(u16, usize)>,
    beacon: u16,
    vector_bytes: int,
    by: u16,
    moved: Seq<(u16, usize)>,
    moved_beacon: u16,
    i: int,
)
    requires
        moved_beacon == (beacon + by) % 65_536,
        moved.len() == res.len(),
        forall|k: int|
            0 <= k < res.len() ==> (#[trigger] moved[k]).0 == (res[k].0 + by) % 65_536 && moved[k].1
                == res[k].1,
        0 <= i < res.len(),
    ensures
        slot(moved, moved_beacon, vector_bytes, i) == slot(res, beacon, vector_bytes, i),
{
    let order = Seq::new(res.len(), |k: int| k);
    assert forall|k: int| 0 <= k < moved.len() implies (#[trigger] moved[k]).1 == res[order[k]].1
        && distance(moved[k].0, moved_beacon) == distance(res[order[k]].0, beacon) by {
        assert(moved[k].0 == (res[k].0 + by) % 65_536);
        lemma_shift_distance(res[k].0, beacon, by, moved[k].0, moved_beacon);
    }
    assert(is_redraw(res, beacon, moved, moved_beacon, order));
    lemma_redraw_slot(res, beacon, moved, moved_beacon, order, vector_bytes, i);
}

/// Reordering the reservations reorders the slots with them.
pub proof fn law_order_keeps_slots(
    res: Seq<(u16, usize)>,
    beacon: u16,
    vector_bytes: int,
    order: Seq<int>,
    moved: Seq<(u16, usize)>,
    k: int,
)
    requires
        is_order(order, res.len() as int),
        moved.len() == res.len(),
        forall|m: int| 0 <= m < res.len() ==> #[trigger] moved[m] == res[order[m]],
        0 <= k < res.len(),
    ensures
        slot(moved, beacon, vector_bytes, k) == slot(res, beacon, vector_bytes, order[k]),
{
    assert(is_redraw(res, beacon, moved, beacon, order));
    lemma_redraw_slot(res, beacon, moved, beacon, order, vector_bytes, k);
}

// ---------------------------------------------------------------
// What allocation gives
// ---------------------------------------------------------------

/// Reservation `j` comes before `i`: going up from the beacon, around the ring,
/// its value is met first.
pub open spec fn comes_before(res: Seq<(u16, usize)>, beacon: u16, j: int, i: int) -> bool {
    (res[j].0 - beacon) % 65_536 < (res[i].0 - beacon) % 65_536
}

/// A size in bytes, rounded up to whole coefficients of four bytes.
pub open spec fn whole(size: int) -> int {
    size + (-size) % 4
}

/// Bytes handed out to the reservations before `i`, among the first `n`.
pub open spec fn handed_out(
    res: Seq<(u16, usize)>,
    slots: Seq<Option<int>>,
    beacon: u16,
    i: int,
    n: nat,
) -> int
    decreases n,
{
    if n == 0 {
        0
    } else {
        let low = handed_out(res, slots, beacon, i, (n - 1) as nat);
        if slots[n - 1] is Some && comes_before(res, beacon, n - 1, i) {
            low + whole(res[n - 1].1 as int)
        } else {
            low
        }
    }
}

/// Bytes that all reservations ask for, among the first `n`.
pub open spec fn asked_for(res: Seq<(u16, usize)>, n: nat) -> int
    decreases n,
{
    if n == 0 {
        0
    } else {
        asked_for(res, (n - 1) as nat) + whole(res[n - 1].1 as int)
    }
}

/// The same up to a distance in place of a reservation.
spec fn handed_below(
    res: Seq<(u16, usize)>,
    slots: Seq<Option<int>>,
    beacon: u16,
    v: int,
    n: nat,
) -> int
    decreases n,
{
    if n == 0 {
        0
    } else {
        let low = handed_below(res, slots, beacon, v, (n - 1) as nat);
        if slots[n - 1] is Some && distance(res[n - 1].0, beacon) < v {
            low + aligned(res[n - 1].1 as int)
        } else {
            low
        }
    }
}

proof fn lemma_whole(size: int)
    ensures
        whole(size) == aligned(size),
{
}

proof fn lemma_handed_below(
    res: Seq<(u16, usize)>,
    slots: Seq<Option<int>>,
    beacon: u16,
    i: int,
    n: nat,
)
    requires
        n <= res.len(),
        0 <= i < res.len(),
    ensures
        handed_below(res, slots, beacon, distance(res[i].0, beacon), n) == handed_out(
            res,
            slots,
            beacon,
            i,
            n,
        ),
    decreases n,
{
    if n > 0 {
        lemma_handed_below(res, slots, beacon, i, (n - 1) as nat);
        lemma_whole(res[n - 1].1 as int);
    }
}

/// One step further from the beacon adds what the reservation there got.
proof fn lemma_handed_step(
    res: Seq<(u16, usize)>,
    slots: Seq<Option<int>>,
    beacon: u16,
    vector_bytes: int,
    v: int,
    n: nat,
)
    requires
        n <= res.len(),
        slots.len() == res.len(),
        v >= 0,
        forall|k: int|
            0 <= k < res.len() ==> #[trigger] slots[k] == slot(res, beacon, vector_bytes, k),
    ensures
        ({
            let i = sitter(res, beacon, v);
            handed_below(res, slots, beacon, v + 1, n) - handed_below(res, slots, beacon, v, n)
                == (if taken(res, beacon, v) && i < n && slots[i] is Some {
                aligned(res[i].1 as int)
            } else {
                0
            })
        }),
    decreases n,
{
    let i = sitter(res, beacon, v);
    if taken(res, beacon, v) {
        assert(sits_at(res, beacon, i, v));
    }
    if n > 0 {
        lemma_handed_step(res, slots, beacon, vector_bytes, v, (n - 1) as nat);
        let k = n - 1;
        if distance(res[k].0, beacon) == v && slots[k] is Some {
            assert(slots[k] == slot(res, beacon, vector_bytes, k));
            assert(sits_at(res, beacon, k, v));
            lemma_sits_unique(res, beacon, i, k, v);
        }
    }
}

proof fn lemma_cursor_is_handed_out(
    res: Seq<(u16, usize)>,
    slots: Seq<Option<int>>,
    beacon: u16,
    vector_bytes: int,
    v: nat,
)
    requires
        slots.len() == res.len(),
        forall|k: int|
            0 <= k < res.len() ==> #[trigger] slots[k] == slot(res, beacon, vector_bytes, k),
    ensures
        cursor(res, beacon, vector_bytes, v) == handed_below(
            res,
            slots,
            beacon,
            v as int,
            res.len(),
        ),
    decreases v,
{
    if v == 0 {
        lemma_nothing_below(res, slots, beacon, res.len());
    } else {
        let w = v - 1;
        lemma_cursor_is_handed_out(res, slots, beacon, vector_bytes, w as nat);
        lemma_handed_step(res, slots, beacon, vector_bytes, w, res.len());
        if taken(res, beacon, w) {
            let i = sitter(res, beacon, w);
            assert(sits_at(res, beacon, i, w));
            assert(slots[i] == slot(res, beacon, vector_bytes, i));
        }
    }
}

proof fn lemma_nothing_below(
    res: Seq<(u16, usize)>,
    slots: Seq<Option<int>>,
    beacon: u16,
    n: nat,
)
    requires
        n <= res.len(),
    ensures
        handed_below(res, slots, beacon, 0, n) == 0,
    decreases n,
{
    if n > 0 {
        lemma_nothing_below(res, slots, beacon, (n - 1) as nat);
    }
}

/// Reservations are served first come, first served, going up from the beacon:
/// one whose value another has too gets nothing; any other gets the bytes right
/// behind those handed out before it, exactly if they fit in the vector.
pub proof fn law_served_in_turn(
    res: Seq<(u16, usize)>,
    beacon: u16,
    vector_bytes: int,
    slots: Seq<Option<int>>,
    i: int,
)
    requires
        slots.len() == res.len(),
        forall|k: int|
            0 <= k < res.len() ==> #[trigger] slots[k] == slot(res, beacon, vector_bytes, k),
        0 <= i < res.len(),
    ensures
        (exists|j: int| 0 <= j < res.len() && j != i && (#[trigger] res[j]).0 == res[i].0)
            ==> slots[i] is None,
        (forall|j: int| 0 <= j < res.len() && j != i ==> (#[trigger] res[j]).0 != res[i].0) ==> ({
            let at = handed_out(res, slots, beacon, i, res.len());
            slots[i] == (if at + whole(res[i].1 as int) <= vector_bytes {
                Some(at)
            } else {
                None
            })
        }),
{
    let v = distance(res[i].0, beacon);
    assert(slots[i] == slot(res, beacon, vector_bytes, i));
    lemma_cursor_is_handed_out(res, slots, beacon, vector_bytes, v as nat);
    lemma_handed_below(res, slots, beacon, i, res.len());
    lemma_whole(res[i].1 as int);
}

proof fn lemma_handed_out_bound(
    res: Seq<(u16, usize)>,
    slots: Seq<Option<int>>,
    beacon: u16,
    i: int,
    n: nat,
)
    requires
        n <= res.len(),
        0 <= i < res.len(),
    ensures
        0 <= handed_out(res, slots, beacon, i, n),
        handed_out(res, slots, beacon, i, n) + (if i < n {
            whole(res[i].1 as int)
        } else {
            0
        }) <= asked_for(res, n),
    decreases n,
{
    if n > 0 {
        lemma_handed_out_bound(res, slots, beacon, i, (n - 1) as nat);
    }
}

/// Where no value occurs twice and all sizes together fit in the vector, every
/// reservation gets a slot.
pub proof fn law_everyone_fits(
    res: Seq<(u16, usize)>,
    beacon: u16,
    vector_bytes: int,
    slots: Seq<Option<int>>,
)
    requires
        slots.len() == res.len(),
        forall|k: int|
            0 <= k < res.len() ==> #[trigger] slots[k] == slot(res, beacon, vector_bytes, k),
        forall|i: int, j: int|
            0 <= i < j < res.len() ==> (#[trigger] res[i]).0 != (#[trigger] res[j]).0,
        asked_for(res, res.len()) <= vector_bytes,
    ensures
        forall|i: int| 0 <= i < res.len() ==> #[trigger] slots[i] is Some,
{
    assert forall|i: int| 0 <= i < res.len() implies #[trigger] slots[i] is Some by {
        law_served_in_turn(res, beacon, vector_bytes, slots, i);
        lemma_handed_out_bound(res, slots, beacon, i, res.len());
    }
}

/// Then the slots are contiguous: the first starts at the front, each next one
/// where the one before it ends, and the last ends with what was asked for.
pub proof fn law_slots_are_contiguous(
    res: Seq<(u16, usize)>,
    beacon: u16,
    vector_bytes: int,
    slots: Seq<Option<int>>,
    i: int,
)
    requires
        slots.len() == res.len(),
        forall|k: int|
            0 <= k < res.len() ==> #[trigger] slots[k] == slot(res, beacon, vector_bytes, k),
        forall|i: int, j: int|
            0 <= i < j < res.len() ==> (#[trigger] res[i]).0 != (#[trigger] res[j]).0,
        asked_for(res, res.len()) <= vector_bytes,
        0 <= i < res.len(),
    ensures
        slots[i] is Some,
        (forall|k: int| 0 <= k < res.len() ==> !#[trigger] comes_before(res, beacon, k, i))
            ==> slots[i] == Some(0int),
        (forall|k: int|
            0 <= k < res.len() ==> k == i || #[trigger] comes_before(res, beacon, k, i)) ==> slots[i]
            == Some(asked_for(res, res.len()) - whole(res[i].1 as int)),
        forall|j: int|
            0 <= j < res.len() && #[trigger] comes_before(res, beacon, i, j) && (forall|k: int|
                0 <= k < res.len() ==> !(#[trigger] comes_before(res, beacon, k, j)
                    && comes_before(res, beacon, i, k))) ==> slots[j] == Some(
                slots[i]->0 + whole(res[i].1 as int),
            ),
{
    law_everyone_fits(res, beacon, vector_bytes, slots);
    law_served_in_turn(res, beacon, vector_bytes, slots, i);
    let n = res.len();
    assert(slots[i] is Some);
    if forall|k: int| 0 <= k < res.len() ==> !#[trigger] comes_before(res, beacon, k, i) {
        lemma_handed_to_none(res, slots, beacon, i, n);
    }
    if forall|k: int|
        0 <= k < res.len() ==> k == i || #[trigger] comes_before(res, beacon, k, i) {
        lemma_handed_to_all(res, slots, beacon, i, n);
    }
    assert forall|j: int|
        0 <= j < res.len() && #[trigger] comes_before(res, beacon, i, j) && (forall|k: int|
            0 <= k < res.len() ==> !(#[trigger] comes_before(res, beacon, k, j) && comes_before(
                res,
                beacon,
                i,
                k,
            ))) implies slots[j] == Some(slots[i]->0 + whole(res[i].1 as int)) by {
        law_served_in_turn(res, beacon, vector_bytes, slots, j);
        assert(slots[j] is Some);
        lemma_handed_to_next(res, slots, beacon, i, j, n);
    }
}

proof fn lemma_handed_to_none(
    res: Seq<(u16, usize)>,
    slots: Seq<Option<int>>,
    beacon: u16,
    i: int,
    n: nat,
)
    requires
        n <= res.len(),
        forall|k: int| 0 <= k < res.len() ==> !#[trigger] comes_before(res, beacon, k, i),
    ensures
        handed_out(res, slots, beacon, i, n) == 0,
    decreases n,
{
    if n > 0 {
        lemma_handed_to_none(res, slots, beacon, i, (n - 1) as nat);
        assert(!comes_before(res, beacon, n - 1, i));
    }
}

proof fn lemma_handed_to_all(
    res: Seq<(u16, usize)>,
    slots: Seq<Option<int>>,
    beacon: u16,
    i: int,
    n: nat,
)
    requires
        n <= res.len() == slots.len(),
        0 <= i < res.len(),
        forall|k: int| 0 <= k < res.len() ==> #[trigger] slots[k] is Some,
        forall|k: int|
            0 <= k < res.len() ==> k == i || #[trigger] comes_before(res, beacon, k, i),
    ensures
        handed_out(res, slots, beacon, i, n) == asked_for(res, n) - (if i < n {
            whole(res[i].1 as int)
        } else {
            0
        }),
    decreases n,
{
    if n > 0 {
        lemma_handed_to_all(res, slots, beacon, i, (n - 1) as nat);
        assert(slots[n - 1] is Some);
        assert(n - 1 == i || comes_before(res, beacon, n - 1, i));
    }
}

proof fn lemma_handed_to_next(
    res: Seq<(u16, usize)>,
    slots: Seq<Option<int>>,
    beacon: u16,
    i: int,
    j: int,
    n: nat,
)
    requires
        n <= res.len() == slots.len(),
        0 <= i < res.len(),
        0 <= j < res.len(),
        forall|i: int, j: int|
            0 <= i < j < res.len() ==> (#[trigger] res[i]).0 != (#[trigger] res[j]).0,
        forall|k: int| 0 <= k < res.len() ==> #[trigger] slots[k] is Some,
        comes_before(res, beacon, i, j),
        forall|k: int|
            0 <= k < res.len() ==> !(#[trigger] comes_before(res, beacon, k, j) && comes_before(
                res,
                beacon,
                i,
                k,
            )),
    ensures
        handed_out(res, slots, beacon, j, n) == handed_out(res, slots, beacon, i, n) + (if i < n {
            whole(res[i].1 as int)
        } else {
            0
        }),
    decreases n,
{
    if n > 0 {
        let k = n - 1;
        lemma_handed_to_next(res, slots, beacon, i, j, k as nat);
        assert(slots[k] is Some);
        if k != i {
            let (a, b) = if k < i { (k, i) } else { (i, k) };
            assert(res[a].0 != res[b].0);
            assert((res[k].0 - beacon) % 65_536 != (res[i].0 - beacon) % 65_536);
            assert(!(comes_before(res, beacon, k, j) && comes_before(res, beacon, i, k)));
        }
    }
}

// ---------------------------------------------------------------
// What the encodings spell
// ---------------------------------------------------------------

/// Polynomials hold the bytes four to a coefficient, least significant first,
/// zeros behind the last, and no polynomial more than the bytes need.
pub proof fn law_bytes_in_order(buf: Seq<u8>, polys: Seq<KahePoly>, k: int)
    requires
        encodes(buf, polys),
        0 <= k < polys.len() * 8192,
    ensures
        polys.len() * 8192 >= buf.len(),
        buf.len() + 8192 > polys.len() * 8192,
        ({
            let c = polys[k / 8192]@[k % 8192 / 4];
            let b = if k < buf.len() {
                buf[k] as int
            } else {
                0
            };
            &&& 0 <= c < 0x1_0000_0000
            &&& k % 4 == 0 ==> c % 256 == b
            &&& k % 4 == 1 ==> c / 256 % 256 == b
            &&& k % 4 == 2 ==> c / 65_536 % 256 == b
            &&& k % 4 == 3 ==> c / 16_777_216 == b
        }),
{
    let (p, i) = (k / 8192, k % 8192 / 4);
    assert(polys[p]@[i] == symbol(buf, p * N + i));
    assert(p * N + i == k / 4);
}

/// The bytes read from polynomials make up the centered coefficients again.
pub proof fn law_read_in_order(polys: Seq<KahePoly>, buf: Seq<u8>, upto: int, j: int)
    requires
        spells(polys, buf, upto),
        symbols_before(polys, upto),
        0 <= j < upto,
    ensures
        buf.len() == 4 * upto,
        centered(polys[j / 2048]@[j % 2048], KAHE_MODULUS as int) == buf[4 * j] + 256 * buf[4 * j
            + 1] + 65_536 * buf[4 * j + 2] + 16_777_216 * buf[4 * j + 3],
{
    let v = flat(polys, j);
    let part = buf.subrange(4 * j, 4 * j + 4);
    assert(part == le_bytes(v as nat, 4));
    assert(0 <= v < SYMBOL_MOD);
    reveal_with_fuel(crate::bytes::byte_span, 5);
    crate::bytes::lemma_le_round_trip(v as nat, 4);
    assert(part[0] == buf[4 * j] && part[1] == buf[4 * j + 1] && part[2] == buf[4 * j + 2]
        && part[3] == buf[4 * j + 3]);
    lemma_four_bytes(part);
}

proof fn lemma_four_bytes(b: Seq<u8>)
    requires
        b.len() == 4,
    ensures
        le_value(b) == b[0] + 256 * b[1] + 65_536 * b[2] + 16_777_216 * b[3],
{
    reveal_with_fuel(le_value, 5);
}

/// The payload lies at its offset, the rest is zero, and the header before a
/// framed payload spells its length.
pub proof fn law_placed(offset: int, vector_bytes: nat, payload: Seq<u8>, i: int)
    requires
        0 <= offset,
        0 <= i < vector_bytes,
    ensures
        placed(offset, vector_bytes, payload).len() == vector_bytes,
        i < offset ==> placed(offset, vector_bytes, payload)[i] == 0,
        offset <= i < offset + payload.len() ==> placed(offset, vector_bytes, payload)[i]
            == payload[i - offset],
        i >= offset + payload.len() ==> placed(offset, vector_bytes, payload)[i] == 0,
{
}

/// The header of a framed payload is its length, least significant byte first.
pub proof fn law_header(bytes: Seq<u8>, len: u32)
    ensures
        framed(bytes, len).len() == 4 + bytes.len(),
        framed(bytes, len)[0] + 256 * framed(bytes, len)[1] + 65_536 * framed(bytes, len)[2]
            + 16_777_216 * framed(bytes, len)[3] == len,
        framed(bytes, len).skip(4) == bytes,
{
    lemma_le_len(len as nat, 4);
    crate::bytes::lemma_le_round_trip(len as nat, 4);
    reveal_with_fuel(crate::bytes::byte_span, 5);
    let h = le_bytes(len as nat, 4);
    lemma_four_bytes(h);
    assert(framed(bytes, len).skip(4) =~= bytes);
}

// ---------------------------------------------------------------
// What the beacon depends on
// ---------------------------------------------------------------

proof fn lemma_ascending(s: Set<u16>, upto: nat)
    requires
        upto <= 65_536,
    ensures
        ascending_bytes(s, upto).len() % 2 == 0,
        forall|k: int|
            #![trigger ascending_bytes(s, upto)[2 * k]]
            0 <= 2 * k < ascending_bytes(s, upto).len() ==> ascending_bytes(s, upto)[2 * k] + 256
                * ascending_bytes(s, upto)[2 * k + 1] < upto,
    decreases upto,
{
    if upto > 0 {
        lemma_ascending(s, (upto - 1) as nat);
        let low = ascending_bytes(s, (upto - 1) as nat);
        let all = ascending_bytes(s, upto);
        lemma_two_bytes((upto - 1) as nat);
        assert forall|k: int|
            #![trigger all[2 * k]]
            0 <= 2 * k < all.len() implies all[2 * k] + 256 * all[2 * k + 1] < upto by {
            if 2 * k < low.len() {
                assert(low[2 * k] == all[2 * k]);
            }
        }
    }
}

proof fn lemma_two_bytes(v: nat)
    requires
        v < 65_536,
    ensures
        le_bytes(v, 2).len() == 2,
        le_bytes(v, 2)[0] + 256 * le_bytes(v, 2)[1] == v,
{
    lemma_le_len(v, 2);
    crate::bytes::lemma_le_round_trip(v, 2);
    reveal_with_fuel(crate::bytes::byte_span, 3);
    reveal_with_fuel(le_value, 3);
}

/// The two-byte words that are hashed for a beacon list exactly the values that
/// occur.
pub proof fn law_beacon_reads_every_value(s: Set<u16>, upto: nat, v: u16)
    requires
        v < upto <= 65_536,
    ensures
        s.contains(v) <==> exists|k: int|
            0 <= 2 * k < ascending_bytes(s, upto).len() && #[trigger] ascending_bytes(s, upto)[2
                * k] + 256 * ascending_bytes(s, upto)[2 * k + 1] == v,
    decreases upto,
{
    let top = (upto - 1) as nat;
    let (low, all) = (ascending_bytes(s, top), ascending_bytes(s, upto));
    lemma_ascending(s, top);
    lemma_two_bytes(top);
    if v < top {
        law_beacon_reads_every_value(s, top, v);
        if s.contains(v) {
            let k = choose|k: int|
                0 <= 2 * k < low.len() && #[trigger] low[2 * k] + 256 * low[2 * k + 1] == v;
            assert(all[2 * k] == low[2 * k] && all[2 * k + 1] == low[2 * k + 1]);
        }
        if exists|k: int|
            0 <= 2 * k < all.len() && #[trigger] all[2 * k] + 256 * all[2 * k + 1] == v {
            let k = choose|k: int|
                0 <= 2 * k < all.len() && #[trigger] all[2 * k] + 256 * all[2 * k + 1] == v;
            if 2 * k < low.len() {
                assert(all[2 * k] == low[2 * k] && all[2 * k + 1] == low[2 * k + 1]);
                assert(low[2 * k] + 256 * low[2 * k + 1] == v);
            }
        }
    } else {
        if s.contains(v) {
            let k = low.len() as int / 2;
            assert(all[2 * k] + 256 * all[2 * k + 1] == v);
        }
        if exists|k: int|
            0 <= 2 * k < all.len() && #[trigger] all[2 * k] + 256 * all[2 * k + 1] == v {
            let k = choose|k: int|
                0 <= 2 * k < all.len() && #[trigger] all[2 * k] + 256 * all[2 * k + 1] == v;
            if 2 * k < low.len() {
                assert(all[2 * k] == low[2 * k]);
            }
        }
    }
}

/// The beacon is the first two bytes of the hash of that list.
pub proof fn law_beacon_is_the_hash(s: Set<u16>)
    requires
        sha256_of(ascending_bytes(s, 65_536)).len() == 32,
    ensures
        ({
            let d = sha256_of(ascending_bytes(s, 65_536));
            beacon_of(s) == d[0] + 256 * d[1]
        }),
{
    let d = sha256_of(ascending_bytes(s, 65_536)).take(2);
    reveal_with_fuel(le_value, 3);
}

} // verus!
