//! Byte messages over the multiset encodings.

use crate::bytes::{
    byte_span, le_bytes, le_value, lemma_le_len, lemma_le_value, push_all, push_le, read_le,
};
use crate::field::is_prime;
use crate::fpoly::MAX_LEN;
use crate::kahe::T_MODULUS_DEFAULT;
use crate::mse::{
    ascending, ends_after, is_full_run, payloads, run_payloads, shape, MseEncoding, MseParams, T,
};
use crate::negacyclic::{centered, lemma_centered_id, rem_euclid_i64, N};
use crate::peel::{after, is_clear};
use crate::prony::{PronyError, PronyParams, PronySketch, DECODE_LIMIT, PRONY_PRIME};
use crate::protocol::{default_threshold, ProtocolParams};
use crate::random::{gives_between, gives_wide};
use crate::rings::{KahePoly, CS_MODULUS, KAHE_MODULUS};
use rand_chacha::ChaCha20Rng;
use vstd::prelude::*;

verus! {

/// Bytes in one symbol, little-endian.
pub const BYTES_PER_SYMBOL: usize = 4;

/// Rows of the peeling table.
const GAMMA: usize = 4;

/// Buckets per insertion, over all rows.
const BUCKETS_PER_INSERT: usize = 3;

#[derive(Debug, PartialEq, Eq, Structural, Clone, Copy)]
pub enum ChannelError {
    /// More elements than the table was sized for.
    PeelStalled,
    /// More elements than the sketch resolves, or a malformed contribution.
    SketchFailed(PronyError),
    /// Fewer polynomials than the parameters call for.
    ShortPlaintext { got: usize, need: usize },
    /// Another number of elements than the caller expected.
    CountMismatch { got: usize, expected: usize },
    /// The payload does not fit.
    PayloadTooLong { got: usize, max: usize },
}

/// One channel, over either encoding.
#[derive(Clone, Copy, Debug, PartialEq, Eq)]
pub enum ChannelParams {
    Mse(MseParams),
    Prony(PronyParams),
}

// ---------------------------------------------------------------
// Sizing
// ---------------------------------------------------------------

pub open spec fn at_least_one(n: int) -> int {
    if n < 1 {
        1
    } else {
        n
    }
}

/// Symbols of a message of `bytes` bytes.
pub open spec fn symbols_for(bytes: int) -> int {
    at_least_one((bytes + 3) / 4)
}

fn payload_symbols(message_bytes: usize) -> (r: usize)
    ensures
        r == symbols_for(message_bytes as int),
{
    let whole: usize = message_bytes / BYTES_PER_SYMBOL;
    let n: usize = if message_bytes % BYTES_PER_SYMBOL == 0 {
        whole
    } else {
        whole + 1
    };
    if n < 1 {
        1
    } else {
        n
    }
}

fn at_least(n: usize) -> (r: usize)
    ensures
        r == at_least_one(n as int),
{
    if n < 1 {
        1
    } else {
        n
    }
}

impl ChannelParams {
    pub open spec fn valid(&self) -> bool {
        match *self {
            ChannelParams::Mse(p) => p.valid() && p.payload_symbols * 4 <= usize::MAX,
            ChannelParams::Prony(q) => {
                &&& q.valid()
                &&& is_prime(q.p as int)
                &&& 0x1_0000_0000 < q.p <= DECODE_LIMIT
                &&& q.capacity < MAX_LEN
                &&& q.payload_symbols * 4 <= usize::MAX
            },
        }
    }

    pub open spec fn symbols(&self) -> int {
        match *self {
            ChannelParams::Mse(p) => p.payload_symbols as int,
            ChannelParams::Prony(q) => q.payload_symbols as int,
        }
    }

    /// Polynomials of one contribution.
    pub open spec fn polys(&self) -> int {
        match *self {
            ChannelParams::Mse(p) => (p.scalars() + 2047) / 2048,
            ChannelParams::Prony(q) => (q.scalars() + 2047) / 2048,
        }
    }

    /// Peeling, for up to `rho` messages of `message_bytes` bytes.
    pub fn for_messages(rho: u32, message_bytes: usize, prf_key: [u8; 32]) -> (r: Self)
        requires
            3 * rho + 3 <= usize::MAX,
        ensures
            r matches ChannelParams::Mse(p) && p.gamma == 4 && p.delta == (3 * at_least_one(
                rho as int,
            ) + 3) / 4 && p.payload_symbols == symbols_for(message_bytes as int) && p.prf_key
                == prf_key,
    {
        Self::for_symbols(rho, payload_symbols(message_bytes), prf_key)
    }

    /// Peeling, for up to `rho` payloads of `payload_symbols` symbols.
    pub fn for_symbols(rho: u32, payload_symbols: usize, prf_key: [u8; 32]) -> (r: Self)
        requires
            3 * rho + 3 <= usize::MAX,
        ensures
            r matches ChannelParams::Mse(p) && p.gamma == 4 && p.delta == (3 * at_least_one(
                rho as int,
            ) + 3) / 4 && p.payload_symbols == at_least_one(payload_symbols as int) && p.prf_key
                == prf_key,
    {
        let buckets: usize = BUCKETS_PER_INSERT * at_least(rho as usize);
        let delta: usize = buckets / GAMMA + (if buckets % GAMMA == 0 {
            0
        } else {
            1
        });
        ChannelParams::Mse(MseParams::new(GAMMA, delta, at_least(payload_symbols), prf_key))
    }

    /// A sketch, for up to `rho` messages of `message_bytes` bytes.
    pub fn prony_for_messages(rho: u32, message_bytes: usize) -> (r: Self)
        ensures
            r matches ChannelParams::Prony(q) && q.capacity == at_least_one(rho as int)
                && q.payload_symbols == symbols_for(message_bytes as int) && q.slack == 1 && q.p
                == PRONY_PRIME && is_prime(q.p as int),
    {
        Self::prony_for_symbols(rho, payload_symbols(message_bytes))
    }

    pub fn prony_for_symbols(rho: u32, payload_symbols: usize) -> (r: Self)
        ensures
            r matches ChannelParams::Prony(q) && q.capacity == at_least_one(rho as int)
                && q.payload_symbols == at_least_one(payload_symbols as int) && q.slack == 1 && q.p
                == PRONY_PRIME && is_prime(q.p as int),
    {
        Self::from_prony(PronyParams::new(at_least(rho as usize), at_least(payload_symbols)))
    }

    /// Wraps given parameters.
    pub fn from_mse(mse: MseParams) -> (r: Self)
        ensures
            r == ChannelParams::Mse(mse),
    {
        ChannelParams::Mse(mse)
    }

    /// Wraps given parameters; every symbol must be a residue.
    pub fn from_prony(prony: PronyParams) -> (r: Self)
        requires
            prony.p > 0x1_0000_0000,
        ensures
            r == ChannelParams::Prony(prony),
    {
        ChannelParams::Prony(prony)
    }

    pub fn mse(&self) -> (r: Option<&MseParams>)
        ensures
            match *self {
                ChannelParams::Mse(p) => r == Some(&p),
                ChannelParams::Prony(_) => r is None,
            },
    {
        match self {
            ChannelParams::Mse(p) => Some(p),
            ChannelParams::Prony(_) => None,
        }
    }

    pub fn prony(&self) -> (r: Option<&PronyParams>)
        ensures
            match *self {
                ChannelParams::Prony(q) => r == Some(&q),
                ChannelParams::Mse(_) => r is None,
            },
    {
        match self {
            ChannelParams::Prony(p) => Some(p),
            ChannelParams::Mse(_) => None,
        }
    }

    /// Polynomials that every client contributes, message or cover.
    pub fn n_polys(&self) -> (r: usize)
        requires
            self.valid(),
        ensures
            r == self.polys(),
    {
        match self {
            ChannelParams::Mse(p) => MseEncoding::n_polys(p),
            ChannelParams::Prony(p) => PronySketch::n_polys(p),
        }
    }

    /// The longest payload.
    pub fn max_payload_bytes(&self) -> (r: usize)
        requires
            self.symbols() * 4 <= usize::MAX,
        ensures
            r == self.symbols() * 4,
    {
        let symbols: usize = match self {
            ChannelParams::Mse(p) => p.payload_symbols,
            ChannelParams::Prony(p) => p.payload_symbols,
        };
        symbols * BYTES_PER_SYMBOL
    }

    /// Session parameters as wide as one contribution. The sketch needs a prime
    /// plaintext modulus.
    pub fn protocol_params(&self, rng: &mut ChaCha20Rng, n_servers: usize) -> (r: ProtocolParams)
        requires
            self.valid(),
            1 <= n_servers < CS_MODULUS,
        ensures
            r.wf(),
            r.cs.n_servers == n_servers,
            r.shamir.t == default_threshold(n_servers as int),
            r.kahe.mu_kahe == self.polys(),
            r.kahe.t_modulus == (match *self {
                ChannelParams::Mse(_) => T_MODULUS_DEFAULT,
                ChannelParams::Prony(_) => PRONY_PRIME,
            }),
            r.min_clients == 1,
            r.rs is None && r.share_comm is None,
            crate::protocol::drawn_between(r, *old(rng), *final(rng)),
    {
        let mu: usize = self.n_polys();
        proof {
            lemma_polys(*self);
        }
        match self {
            ChannelParams::Mse(_) => ProtocolParams::setup_with_kahe_dims(rng, n_servers, mu),
            ChannelParams::Prony(_) => ProtocolParams::setup_with_kahe_dims_full(
                rng,
                n_servers,
                mu,
                PRONY_PRIME,
            ),
        }
    }
}

proof fn lemma_polys(p: ChannelParams)
    requires
        p.valid(),
    ensures
        p.polys() >= 1,
{
    match p {
        ChannelParams::Mse(q) => {
            let (a, b, c) = (q.entries(), q.gamma as int, q.delta as int);
            assert(b * c >= 1) by (nonlinear_arith)
                requires
                    b >= 1,
                    c >= 1,
            ;
            let d = b * c;
            assert(a * d >= 1) by (nonlinear_arith)
                requires
                    a >= 1,
                    d >= 1,
            ;
        },
        ChannelParams::Prony(q) => {
            let (a, b) = (q.payload_symbols as int, q.columns());
            assert(a * b >= 0) by (nonlinear_arith)
                requires
                    a >= 0,
                    b >= 0,
            ;
        },
    }
}

// ---------------------------------------------------------------
// Bytes and symbols
// ---------------------------------------------------------------

/// `payload` filled up with zeros.
pub open spec fn filled(payload: Seq<u8>, len: nat) -> Seq<u8> {
    Seq::new(
        len,
        |i: int|
            if i < payload.len() {
                payload[i]
            } else {
                0u8
            },
    )
}

/// The payload as `xi` symbols.
pub open spec fn symbols_of(payload: Seq<u8>, xi: int) -> Seq<i64> {
    let all = filled(payload, (4 * xi) as nat);
    Seq::new(xi as nat, |i: int| le_value(all.subrange(4 * i, 4 * i + 4)) as i64)
}

/// The bytes of symbols, each modulo `2^32`.
pub open spec fn bytes_of(symbols: Seq<i64>) -> Seq<u8>
    decreases symbols.len(),
{
    if symbols.len() == 0 {
        seq![]
    } else {
        bytes_of(symbols.drop_last()) + le_bytes(
            (symbols.last() as int % 0x1_0000_0000) as nat,
            4,
        )
    }
}

fn bytes_to_symbols(payload: &[u8], xi: usize) -> (r: Vec<i64>)
    requires
        xi * 4 <= usize::MAX,
        payload.len() <= xi * 4,
    ensures
        r@ == symbols_of(payload@, xi as int),
{
    let mut buf: Vec<u8> = Vec::with_capacity(xi * 4);
    push_all(&mut buf, payload);
    while buf.len() < xi * 4
        invariant
            payload.len() <= buf.len() <= xi * 4,
            xi * 4 <= usize::MAX,
            forall|i: int| 0 <= i < payload.len() ==> #[trigger] buf@[i] == payload@[i],
            forall|i: int| payload.len() <= i < buf.len() ==> #[trigger] buf@[i] == 0,
        decreases xi * 4 - buf.len(),
    {
        buf.push(0);
    }
    let ghost all = filled(payload@, (4 * xi) as nat);
    assert(buf@ =~= all);
    let mut out: Vec<i64> = Vec::with_capacity(xi);
    for i in 0..xi
        invariant
            xi * 4 <= usize::MAX,
            buf@ == all,
            all.len() == 4 * xi,
            out.len() == i,
            forall|k: int|
                0 <= k < i ==> #[trigger] out[k] == le_value(all.subrange(4 * k, 4 * k + 4)) as i64,
    {
        let w: u64 = read_le(&buf, 4 * i, 4);
        proof {
            lemma_le_value(all.subrange(4 * i, 4 * i + 4));
            reveal_with_fuel(byte_span, 5);
        }
        out.push(w as i64);
    }
    assert(out@ =~= symbols_of(payload@, xi as int));
    out
}

fn symbols_to_bytes(symbols: &[i64]) -> (r: Vec<u8>)
    ensures
        r@ == bytes_of(symbols@),
{
    let mut out: Vec<u8> = Vec::new();
    for i in 0..symbols.len()
        invariant
            out@ == bytes_of(symbols@.take(i as int)),
    {
        let low: i64 = rem_euclid_i64(symbols[i], 0x1_0000_0000);
        push_le(&mut out, low as u64, 4);
        proof {
            assert(symbols@.take(i + 1).drop_last() =~= symbols@.take(i as int));
            assert(symbols@.take(i + 1).last() == symbols@[i as int]);
        }
    }
    assert(symbols@.take(symbols.len() as int) =~= symbols@);
    out
}

proof fn lemma_bytes_of(symbols: Seq<i64>, all: Seq<u8>)
    requires
        all.len() == 4 * symbols.len(),
        forall|i: int|
            0 <= i < symbols.len() ==> #[trigger] symbols[i] == le_value(
                all.subrange(4 * i, 4 * i + 4),
            ),
    ensures
        bytes_of(symbols) == all,
    decreases symbols.len(),
{
    if symbols.len() == 0 {
        assert(bytes_of(symbols) =~= all);
    } else {
        let n = symbols.len() - 1;
        let (low, part) = (symbols.drop_last(), all.take(4 * n));
        assert forall|i: int| 0 <= i < low.len() implies #[trigger] low[i] == le_value(
            part.subrange(4 * i, 4 * i + 4),
        ) by {
            assert(symbols[i] == le_value(all.subrange(4 * i, 4 * i + 4)));
            assert(part.subrange(4 * i, 4 * i + 4) =~= all.subrange(4 * i, 4 * i + 4));
        }
        lemma_bytes_of(low, part);
        let last = all.subrange(4 * n, 4 * n + 4);
        assert(symbols[n] == le_value(last));
        lemma_le_value(last);
        reveal_with_fuel(byte_span, 5);
        vstd::arithmetic::div_mod::lemma_small_mod(le_value(last), 0x1_0000_0000);
        assert(bytes_of(symbols) =~= part + last);
        assert(all =~= part + last);
    }
}

/// A message put into symbols reads back as itself, filled up with zeros.
pub proof fn law_symbols_round_trip(payload: Seq<u8>, xi: int)
    requires
        xi >= 0,
        payload.len() <= 4 * xi,
    ensures
        bytes_of(symbols_of(payload, xi)) == filled(payload, (4 * xi) as nat),
        bytes_of(symbols_of(payload, xi)).take(payload.len() as int) == payload,
        forall|i: int|
            0 <= i < xi ==> 0 <= #[trigger] symbols_of(payload, xi)[i] < 0x1_0000_0000,
{
    let all = filled(payload, (4 * xi) as nat);
    let s = symbols_of(payload, xi);
    assert forall|i: int| 0 <= i < xi implies #[trigger] s[i] == le_value(
        all.subrange(4 * i, 4 * i + 4),
    ) && 0 <= s[i] < 0x1_0000_0000 by {
        lemma_le_value(all.subrange(4 * i, 4 * i + 4));
        reveal_with_fuel(byte_span, 5);
    }
    lemma_bytes_of(s, all);
    assert(all.take(payload.len() as int) =~= payload);
}

/// Symbols of bytes survive the reduction that the peeling table makes.
pub proof fn law_symbols_are_reduced(payload: Seq<u8>, xi: int)
    requires
        xi >= 0,
        payload.len() <= 4 * xi,
    ensures
        crate::mse::reduced(symbols_of(payload, xi)) == symbols_of(payload, xi),
{
    law_symbols_round_trip(payload, xi);
    let s = symbols_of(payload, xi);
    assert forall|i: int| 0 <= i < s.len() implies crate::mse::reduced(s)[i] == #[trigger] s[i] by {
        lemma_centered_id(s[i] as int, T as int);
    }
    assert(crate::mse::reduced(s) =~= s);
}

// ---------------------------------------------------------------
// Encoding
// ---------------------------------------------------------------

/// `polys` is the table, packed.
pub open spec fn is_packed_table(t: MseEncoding, polys: Seq<KahePoly>) -> bool {
    &&& t.wf()
    &&& polys.len() == (t.params.scalars() + 2047) / 2048
    &&& forall|q: int, i: int|
        0 <= q < polys.len() && 0 <= i < N ==> #[trigger] polys[q].coeffs[i] == (if q * N + i
            < t.params.scalars() {
            t.flat_at(q * N + i)
        } else {
            0i64
        })
}

/// `polys` is the sketch, packed.
pub open spec fn is_packed_sketch(t: PronySketch, polys: Seq<KahePoly>) -> bool {
    &&& t.wf()
    &&& polys.len() == (t.params.scalars() + 2047) / 2048
    &&& forall|q: int, i: int|
        0 <= q < polys.len() && 0 <= i < N ==> #[trigger] polys[q].coeffs[i] == (if q * N + i
            < t.params.scalars() {
            t.flat_at(q * N + i)
        } else {
            0i64
        })
}

/// `polys` encodes exactly one payload of symbols, under some tag or point.
pub open spec fn carries(p: ChannelParams, symbols: Seq<i64>, polys: Seq<KahePoly>) -> bool {
    match p {
        ChannelParams::Mse(q) => exists|t: MseEncoding, tag: int|
            t.params == q && 0 <= tag < T * T && #[trigger] t.encodes(seq![(symbols, tag)])
                && is_packed_table(t, polys),
        ChannelParams::Prony(q) => exists|t: PronySketch, z: int|
            t.params == q && 0 < z < q.p && #[trigger] t.encodes(seq![z], seq![symbols])
                && is_packed_sketch(t, polys),
    }
}

/// One client's contribution carrying `payload`.
pub fn encode_message(rng: &mut ChaCha20Rng, p: &ChannelParams, payload: &[u8]) -> (r: Result<
    Vec<KahePoly>,
    ChannelError,
>)
    requires
        p.valid(),
    ensures
        if payload.len() > p.symbols() * 4 {
            r == Err::<Vec<KahePoly>, ChannelError>(
                ChannelError::PayloadTooLong {
                    got: payload.len(),
                    max: (p.symbols() * 4) as usize,
                },
            )
        } else {
            r matches Ok(polys) && carries(*p, symbols_of(payload@, p.symbols()), polys@) && (
            match *p {
                ChannelParams::Mse(q) => exists|t: MseEncoding, w: u128|
                    t.params == q && #[trigger] t.encodes(
                        seq![(symbols_of(payload@, p.symbols()), w as int % (T * T))],
                    ) && is_packed_table(t, polys@) && #[trigger] gives_wide(
                        *old(rng),
                        w,
                        *final(rng),
                    ),
                ChannelParams::Prony(q) => exists|t: PronySketch, z: u64|
                    t.params == q && #[trigger] t.encodes(
                        seq![z as int],
                        seq![symbols_of(payload@, p.symbols())],
                    ) && is_packed_sketch(t, polys@) && #[trigger] gives_between(
                        *old(rng),
                        1,
                        q.p,
                        z,
                        *final(rng),
                    ),
            })
        },
{
    let max: usize = p.max_payload_bytes();
    if payload.len() > max {
        return Err(ChannelError::PayloadTooLong { got: payload.len(), max });
    }
    match p {
        ChannelParams::Mse(params) => {
            let mut enc = MseEncoding::new(*params);
            let ghost empty = enc;
            let symbols: Vec<i64> = bytes_to_symbols(payload, params.payload_symbols);
            enc.insert(rng, &symbols);
            let polys: Vec<KahePoly> = enc.pack();
            proof {
                let none = Seq::<(Seq<i64>, int)>::empty();
                assert(empty.encodes(none));
                let tag = choose|tag: int|
                    0 <= tag < T * T && #[trigger] crate::peel::is_put(
                        shape(empty.params),
                        empty.grid(),
                        crate::mse::width(empty.params),
                        crate::mse::item(symbols@, tag),
                        enc.grid(),
                    ) && (forall|list: Seq<(Seq<i64>, int)>| #[trigger]
                        empty.encodes(list) ==> enc.encodes(list.push((symbols@, tag)))) && (
                    exists|w: u128| #[trigger]
                        gives_wide(*old(rng), w, *rng) && tag == w as int % (T * T));
                let w = choose|w: u128| #[trigger]
                    gives_wide(*old(rng), w, *rng) && tag == w as int % (T * T);
                assert(gives_wide(*old(rng), w, *rng));
                assert(none.push((symbols@, tag)) =~= seq![(symbols@, tag)]);
                assert(enc.encodes(seq![(symbols@, tag)]));
                assert(is_packed_table(enc, polys@));
            }
            Ok(polys)
        },
        ChannelParams::Prony(params) => {
            let mut sketch = PronySketch::new(*params);
            let ghost empty = sketch;
            let symbols: Vec<i64> = bytes_to_symbols(payload, params.payload_symbols);
            sketch.insert(rng, &symbols);
            let polys: Vec<KahePoly> = sketch.pack();
            proof {
                let z = choose|z: int|
                    0 < z < empty.params.p && #[trigger] crate::prony::is_insert(
                        empty,
                        symbols@,
                        z,
                        sketch,
                    ) && gives_between(*old(rng), 1, empty.params.p, z as u64, *rng);
                let (nz, nx) = (Seq::<int>::empty(), Seq::<Seq<i64>>::empty());
                crate::prony::law_insert_adds(empty, sketch, nz, nx, z, symbols@);
                assert(nz.push(z) =~= seq![z]);
                assert(nx.push(symbols@) =~= seq![symbols@]);
                assert(sketch.encodes(seq![(z as u64) as int], seq![symbols@]));
                assert(sketch.encodes(seq![z], seq![symbols@]));
                assert(is_packed_sketch(sketch, polys@));
            }
            Ok(polys)
        },
    }
}

/// A contribution that carries nothing.
pub fn cover(p: &ChannelParams) -> (r: Vec<KahePoly>)
    requires
        p.valid(),
    ensures
        r.len() == p.polys(),
        forall|q: int, i: int|
            0 <= q < r.len() && 0 <= i < N ==> #[trigger] r[q].coeffs[i] == 0,
{
    match p {
        ChannelParams::Mse(params) => MseEncoding::cover(params),
        ChannelParams::Prony(params) => PronySketch::cover(params),
    }
}

// ---------------------------------------------------------------
// Decoding
// ---------------------------------------------------------------

/// `t` is what `polys` hold.
pub open spec fn is_unpacked_table(t: MseEncoding, q: MseParams, polys: Seq<KahePoly>) -> bool {
    &&& t.wf()
    &&& t.params == q
    &&& forall|j: int|
        0 <= j < q.scalars() ==> #[trigger] t.flat_at(j) == centered(
            polys[j / 2048]@[j % 2048],
            KAHE_MODULUS as int,
        )
}

/// `t` is what `polys` hold.
pub open spec fn is_unpacked_sketch(t: PronySketch, q: PronyParams, polys: Seq<KahePoly>) -> bool {
    &&& t.wf()
    &&& t.params == q
    &&& forall|j: int|
        0 <= j < q.scalars() ==> #[trigger] t.flat_at(j) == centered(
            polys[j / 2048]@[j % 2048],
            KAHE_MODULUS as int,
        )
}

/// Peeling the table to the end, in its order, shows `elements`, or is stuck.
pub open spec fn peels(t: MseEncoding, steps: Seq<(int, int)>, found: Option<Seq<Seq<i64>>>) -> bool {
    &&& exists|n: nat| #[trigger] ends_after(t.params, t.grid(), n, steps)
    &&& is_full_run(t.params, t.grid(), steps)
    &&& match found {
        Some(elements) => is_clear(after(shape(t.params), t.grid(), steps)) && ascending(elements)
            && elements.to_multiset() == run_payloads(t.params, t.grid(), steps).to_multiset(),
        None => !is_clear(after(shape(t.params), t.grid(), steps)),
    }
}

/// The sketch's only explanation lists `elements`.
pub open spec fn resolves(
    t: PronySketch,
    z: Seq<u64>,
    xs: Seq<Seq<i64>>,
    elements: Seq<Seq<i64>>,
) -> bool {
    &&& t.failure() is None
    &&& t.explained(z, xs)
    &&& ascending(elements)
    &&& elements.to_multiset() == xs.to_multiset()
}

/// `elements` is what the polynomials decode to.
pub open spec fn lists(p: ChannelParams, polys: Seq<KahePoly>, elements: Seq<Seq<i64>>) -> bool {
    match p {
        ChannelParams::Mse(q) => exists|t: MseEncoding, steps: Seq<(int, int)>|
            is_unpacked_table(t, q, polys) && #[trigger] peels(t, steps, Some(elements)),
        ChannelParams::Prony(q) => exists|t: PronySketch, z: Seq<u64>, xs: Seq<Seq<i64>>|
            is_unpacked_sketch(t, q, polys) && #[trigger] resolves(t, z, xs, elements),
    }
}

/// The polynomials do not decode, and `e` says why.
pub open spec fn refuses(p: ChannelParams, polys: Seq<KahePoly>, e: ChannelError) -> bool {
    match p {
        ChannelParams::Mse(q) => e == ChannelError::PeelStalled && exists|
            t: MseEncoding,
            steps: Seq<(int, int)>,
        |
            is_unpacked_table(t, q, polys) && #[trigger] peels(t, steps, None),
        ChannelParams::Prony(q) => e matches ChannelError::SketchFailed(why) && exists|
            t: PronySketch,
        |
            #[trigger] is_unpacked_sketch(t, q, polys) && t.failure() == Some(why),
    }
}

/// The messages of the listed elements.
pub open spec fn messages_of(elements: Seq<Seq<i64>>) -> Seq<Seq<u8>> {
    elements.map_values(|s: Seq<i64>| bytes_of(s))
}

/// What is returned once the elements are listed.
pub open spec fn is_delivered(
    elements: Seq<Seq<i64>>,
    expect: Option<usize>,
    r: Result<Vec<Vec<u8>>, ChannelError>,
) -> bool {
    if expect matches Some(n) && n != elements.len() {
        r == Err::<Vec<Vec<u8>>, ChannelError>(
            ChannelError::CountMismatch { got: elements.len() as usize, expected: expect->0 },
        )
    } else {
        r matches Ok(out) && out@.map_values(|m: Vec<u8>| m@) == messages_of(elements)
    }
}

/// Turns listed elements into messages, if there are as many as expected.
pub fn deliver(elements: &Vec<Vec<i64>>, expect: Option<usize>) -> (r: Result<
    Vec<Vec<u8>>,
    ChannelError,
>)
    ensures
        is_delivered(payloads(elements@), expect, r),
{
    match expect {
        Some(expected) => {
            if elements.len() != expected {
                return Err(ChannelError::CountMismatch { got: elements.len(), expected });
            }
        },
        None => {},
    }
    let n: usize = elements.len();
    let mut out: Vec<Vec<u8>> = Vec::with_capacity(n);
    for i in 0..n
        invariant
            n == elements.len(),
            out.len() == i,
            forall|k: int| 0 <= k < i ==> (#[trigger] out[k])@ == bytes_of(elements[k]@),
    {
        out.push(symbols_to_bytes(&elements[i]));
    }
    proof {
        assert(out@.map_values(|m: Vec<u8>| m@) =~= messages_of(payloads(elements@)));
    }
    Ok(out)
}

/// The first `need` polynomials.
fn copy_polys(polys: &[KahePoly], need: usize) -> (r: Vec<KahePoly>)
    requires
        need <= polys.len(),
    ensures
        r@ == polys@.take(need as int),
{
    let mut r: Vec<KahePoly> = Vec::with_capacity(need);
    for i in 0..need
        invariant
            need <= polys.len(),
            r@ == polys@.take(i as int),
    {
        r.push(polys[i]);
        assert(r@ =~= polys@.take(i + 1));
    }
    r
}

/// The messages in a decrypted sum. Polynomials beyond the channel's width are
/// ignored.
pub fn decode_messages(p: &ChannelParams, plaintext: &[KahePoly], expect: Option<usize>) -> (r:
    Result<Vec<Vec<u8>>, ChannelError>)
    requires
        p.valid(),
    ensures
        if plaintext.len() < p.polys() {
            r == Err::<Vec<Vec<u8>>, ChannelError>(
                ChannelError::ShortPlaintext { got: plaintext.len(), need: p.polys() as usize },
            )
        } else {
            ||| exists|elements: Seq<Seq<i64>>| #[trigger]
                lists(*p, plaintext@.take(p.polys()), elements) && is_delivered(
                    elements,
                    expect,
                    r,
                )
            ||| r matches Err(e) && refuses(*p, plaintext@.take(p.polys()), e)
        },
{
    let need: usize = p.n_polys();
    if plaintext.len() < need {
        return Err(ChannelError::ShortPlaintext { got: plaintext.len(), need });
    }
    let polys: Vec<KahePoly> = copy_polys(plaintext, need);
    let ghost held = plaintext@.take(p.polys());
    match p {
        ChannelParams::Mse(params) => {
            let t = MseEncoding::unpack(params, &polys);
            assert(is_unpacked_table(t, *params, held));
            match t.decode() {
                Err(_) => {
                    proof {
                        let (steps, n) = choose|steps: Seq<(int, int)>, n: nat|
                            #[trigger] ends_after(t.params, t.grid(), n, steps) && is_full_run(
                                t.params,
                                t.grid(),
                                steps,
                            ) && !is_clear(after(shape(t.params), t.grid(), steps));
                        assert(peels(t, steps, None));
                        assert(refuses(*p, held, ChannelError::PeelStalled));
                    }
                    Err(ChannelError::PeelStalled)
                },
                Ok(elements) => {
                    proof {
                        let (steps, n) = choose|steps: Seq<(int, int)>, n: nat|
                            #[trigger] ends_after(t.params, t.grid(), n, steps) && is_full_run(
                                t.params,
                                t.grid(),
                                steps,
                            ) && is_clear(after(shape(t.params), t.grid(), steps)) && payloads(
                                elements@,
                            ).to_multiset() == run_payloads(
                                t.params,
                                t.grid(),
                                steps,
                            ).to_multiset();
                        assert(peels(t, steps, Some(payloads(elements@))));
                        assert(lists(*p, held, payloads(elements@)));
                    }
                    deliver(&elements, expect)
                },
            }
        },
        ChannelParams::Prony(params) => {
            let t = PronySketch::unpack(params, &polys);
            assert(is_unpacked_sketch(t, *params, held));
            match t.decode() {
                Err(e) => {
                    assert(refuses(*p, held, ChannelError::SketchFailed(e)));
                    Err(ChannelError::SketchFailed(e))
                },
                Ok(elements) => {
                    proof {
                        let (z, xs) = choose|z: Seq<u64>, xs: Seq<Seq<i64>>| #[trigger]
                            t.explained(z, xs) && payloads(elements@).to_multiset()
                                == xs.to_multiset();
                        assert(resolves(t, z, xs, payloads(elements@)));
                        assert(lists(*p, held, payloads(elements@)));
                    }
                    deliver(&elements, expect)
                },
            }
        },
    }
}

/// A symbol is four bytes of the payload as a number, least significant first;
/// past the payload's end the bytes are zero.
pub proof fn law_symbols_are_bytes(payload: Seq<u8>, xi: int, i: int)
    requires
        0 <= i < xi,
        payload.len() <= 4 * xi,
    ensures
        ({
            let byte = |j: int|
                if 4 * i + j < payload.len() {
                    payload[4 * i + j] as int
                } else {
                    0
                };
            symbols_of(payload, xi)[i] == byte(0) + 0x100 * byte(1) + 0x1_0000 * byte(2)
                + 0x100_0000 * byte(3)
        }),
{
    let all = filled(payload, (4 * xi) as nat);
    let b = all.subrange(4 * i, 4 * i + 4);
    assert(le_value(b) == b[0] + 0x100 * b[1] + 0x1_0000 * b[2] + 0x100_0000 * b[3]) by {
        reveal_with_fuel(le_value, 5);
    }
    lemma_le_value(b);
    reveal_with_fuel(byte_span, 5);
}

/// A message has as many symbols as hold its bytes, and at least one.
pub proof fn law_symbols_hold_the_message(bytes: int)
    requires
        bytes >= 0,
    ensures
        4 * symbols_for(bytes) >= bytes,
        bytes > 0 ==> 4 * (symbols_for(bytes) - 1) < bytes,
        bytes == 0 ==> symbols_for(bytes) == 1,
{
}

/// The bytes of a message are those of its symbols, four each, least significant
/// first.
pub proof fn law_bytes_of_symbols(s: Seq<i64>, j: int)
    requires
        0 <= j < s.len(),
    ensures
        bytes_of(s).len() == 4 * s.len(),
        ({
            let v = s[j] as int % 0x1_0000_0000;
            &&& bytes_of(s)[4 * j] == v % 0x100
            &&& bytes_of(s)[4 * j + 1] == (v / 0x100) % 0x100
            &&& bytes_of(s)[4 * j + 2] == (v / 0x1_0000) % 0x100
            &&& bytes_of(s)[4 * j + 3] == v / 0x100_0000
        }),
    decreases s.len(),
{
    let low = s.drop_last();
    let n = low.len() as int;
    let w = (s.last() as int % 0x1_0000_0000) as nat;
    lemma_le_len(w, 4);
    if low.len() > 0 {
        law_bytes_of_symbols(low, if j < n { j } else { 0 });
    } else {
        assert(bytes_of(low).len() == 0);
    }
    assert(bytes_of(s) == bytes_of(low) + le_bytes(w, 4));
    if j < n {
        assert(low[j] == s[j]);
        assert(forall|k: int| 0 <= k < 4 * n ==> bytes_of(s)[k] == bytes_of(low)[k]);
    }
    if j == n {
        reveal_with_fuel(le_bytes, 5);
        let b = le_bytes(w, 4);
        assert(b[0] == w % 256 && b[1] == (w / 256) % 256 && b[2] == ((w / 256) / 256) % 256 && b[3]
            == (((w / 256) / 256) / 256) % 256);
    }
}

/// Once the elements are listed they are delivered exactly if there are as many
/// as expected, where a number is expected: one message for each, in their order.
pub proof fn law_messages_are_delivered(
    elements: Seq<Seq<i64>>,
    expect: Option<usize>,
    r: Result<Vec<Vec<u8>>, ChannelError>,
)
    requires
        is_delivered(elements, expect, r),
    ensures
        r is Ok <==> (expect is None || expect->0 == elements.len()),
        r matches Ok(out) ==> out.len() == elements.len() && forall|i: int|
            0 <= i < out.len() ==> (#[trigger] out[i])@ == bytes_of(elements[i]),
{
    if let Ok(out) = r {
        let a = out@.map_values(|m: Vec<u8>| m@);
        assert(a == messages_of(elements));
        assert(a.len() == elements.len());
        assert forall|i: int| 0 <= i < out.len() implies (#[trigger] out[i])@ == bytes_of(
            elements[i],
        ) by {
            assert(a[i] == out[i]@);
            assert(messages_of(elements)[i] == bytes_of(elements[i]));
        }
    }
}

} // verus!
