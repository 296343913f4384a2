//! Sealed envelopes: P-256 key agreement and AES-256-GCM.
//!
//! An envelope is the ephemeral public key (65 bytes, uncompressed), a nonce
//! (12 bytes), and the ciphertext with its tag. The associated data is the
//! ephemeral key followed by the caller's context, so an envelope opens only
//! under the context it was sealed for.

use crate::bytes::{copy_range, push_all};
use crate::hash::{sha256, sha256_of};
use aes_gcm::aead::{Aead, KeyInit, Payload};
use aes_gcm::{Aes256Gcm, Nonce};
use p256::ecdh::diffie_hellman;
use p256::elliptic_curve::sec1::{FromEncodedPoint, ToEncodedPoint};
use rand::RngCore;
use rand_chacha::ChaCha20Rng;
use crate::random::{call, step};
use vstd::prelude::*;

verus! {

pub const PUBKEY_LEN: usize = 65;

pub const NONCE_LEN: usize = 12;

/// Bytes an envelope adds to its plaintext.
pub const SEAL_OVERHEAD: usize = 93;

/// Longest plaintext, and longest associated data, the cipher takes.
pub const CIPHER_LIMIT: u64 = 0x10_0000_0000;

#[derive(Debug, PartialEq, Eq, Structural, Clone, Copy)]
pub enum PkeError {
    TooShort,
    Aead,
    BadKey,
}

// ---------------------------------------------------------------
// The curve
// ---------------------------------------------------------------

/// The order of the curve's base point.
pub open spec fn curve_order() -> int {
    0xffff_ffff_0000_0000_ffff_ffff_ffff_ffff_bce6_faad_a717_9e84_f3b9_cac2_fc63_2551int
}

/// The integer that bytes spell, most significant first.
pub open spec fn be_value(b: Seq<u8>) -> int
    decreases b.len(),
{
    if b.len() == 0 {
        0
    } else {
        256 * be_value(b.drop_last()) + b.last()
    }
}

/// 32 bytes that spell a nonzero scalar.
pub open spec fn is_scalar(b: Seq<u8>) -> bool {
    b.len() == 32 && 0 < be_value(b) < curve_order()
}

/// `b` with zero bytes in front, 32 in all.
pub open spec fn padded(b: Seq<u8>) -> Seq<u8> {
    Seq::new((32 - b.len()) as nat, |i: int| 0u8) + b
}

/// The scalar that 24 to 32 bytes spell, if it is one.
pub open spec fn scalar_of(b: Seq<u8>) -> Option<Seq<u8>> {
    if 24 <= b.len() <= 32 && is_scalar(padded(b)) {
        Some(padded(b))
    } else {
        None
    }
}

/// The public key of a scalar, uncompressed.
pub uninterp spec fn public_point(scalar: Seq<u8>) -> Seq<u8>;

/// The public key that an encoding denotes, uncompressed, if it denotes one.
pub uninterp spec fn point_of(encoded: Seq<u8>) -> Option<Seq<u8>>;

/// The secret that a scalar and a public key agree on.
pub uninterp spec fn shared_secret(scalar: Seq<u8>, point: Seq<u8>) -> Seq<u8>;

/// The ciphertext and tag of a message.
pub uninterp spec fn gcm_sealed(key: Seq<u8>, nonce: Seq<u8>, msg: Seq<u8>, aad: Seq<u8>) -> Seq<u8>;

/// The message that a ciphertext and tag authenticate, if they do.
pub uninterp spec fn gcm_opened(key: Seq<u8>, nonce: Seq<u8>, sealed: Seq<u8>, aad: Seq<u8>) -> Option<Seq<u8>>;

/// `p256::SecretKey::random` and `to_bytes`: the draw is a nonzero scalar, big
/// endian. Nothing else is claimed of it.
#[verifier::external_body]
pub(crate) fn draw_scalar(rng: &mut ChaCha20Rng) -> (r: [u8; 32])
    ensures
        is_scalar(r@),
{
    p256::SecretKey::random(rng).to_bytes().into()
}

/// `rand::RngCore::fill_bytes` on a nonce. Nothing is claimed of the draw.
#[verifier::external_body]
pub(crate) fn draw_nonce(rng: &mut ChaCha20Rng) -> (r: [u8; 12]) {
    let mut nonce = [0u8; 12];
    rng.fill_bytes(&mut nonce);
    nonce
}

/// One `draw_scalar`, from generator to generator.
fn next_scalar_of(g: ChaCha20Rng) -> (r: ([u8; 32], ChaCha20Rng))
    ensures
        is_scalar(r.0@),
        exists|m: &mut ChaCha20Rng| #[trigger]
            call_ensures(draw_scalar, (m,), r.0) && *m == g && *final(m) == r.1,
{
    let mut h: ChaCha20Rng = g;
    let w: [u8; 32] = call(draw_scalar, &mut h);
    assert(exists|m: &mut ChaCha20Rng| #[trigger]
        call_ensures(draw_scalar, (m,), w) && *m == g && *final(m) == h);
    let r: ([u8; 32], ChaCha20Rng) = (w, h);
    assert(r.0 == w && r.1 == h);
    r
}

/// The generator `g` gives a scalar and goes on as `h`.
pub closed spec fn gives_scalar(g: ChaCha20Rng, v: Seq<u8>, h: ChaCha20Rng) -> bool {
    exists|a: [u8; 32]| a@ == v && #[trigger] call_ensures(next_scalar_of, (g,), (a, h))
}

/// A scalar that the generator gives is one that it draws.
pub(crate) proof fn law_scalars_are_drawn(g: ChaCha20Rng, v: Seq<u8>, h: ChaCha20Rng)
    requires
        gives_scalar(g, v, h),
    ensures
        exists|m: &mut ChaCha20Rng, a: [u8; 32]| #[trigger]
            call_ensures(draw_scalar, (m,), a) && a@ == v && *m == g && *final(m) == h,
{
}

/// One `draw_nonce`, from generator to generator.
fn next_nonce_of(g: ChaCha20Rng) -> (r: ([u8; 12], ChaCha20Rng))
    ensures
        exists|m: &mut ChaCha20Rng| #[trigger]
            call_ensures(draw_nonce, (m,), r.0) && *m == g && *final(m) == r.1,
{
    let mut h: ChaCha20Rng = g;
    let w: [u8; 12] = call(draw_nonce, &mut h);
    assert(exists|m: &mut ChaCha20Rng| #[trigger]
        call_ensures(draw_nonce, (m,), w) && *m == g && *final(m) == h);
    let r: ([u8; 12], ChaCha20Rng) = (w, h);
    assert(r.0 == w && r.1 == h);
    r
}

/// The generator `g` gives a nonce and goes on as `h`.
pub closed spec fn gives_nonce(g: ChaCha20Rng, v: Seq<u8>, h: ChaCha20Rng) -> bool {
    exists|a: [u8; 12]| a@ == v && #[trigger] call_ensures(next_nonce_of, (g,), (a, h))
}

/// A nonce that the generator gives is one that it draws.
pub(crate) proof fn law_nonces_are_drawn(g: ChaCha20Rng, v: Seq<u8>, h: ChaCha20Rng)
    requires
        gives_nonce(g, v, h),
    ensures
        exists|m: &mut ChaCha20Rng, a: [u8; 12]| #[trigger]
            call_ensures(draw_nonce, (m,), a) && a@ == v && *m == g && *final(m) == h,
{
}

/// `p256::SecretKey::from_slice`: 24 to 32 bytes, zero-padded in front, that
/// spell a nonzero scalar below the curve order are accepted, and nothing else;
/// `to_bytes` gives the padded bytes back.
#[verifier::external_body]
fn parse_scalar(b: &[u8]) -> (r: Option<[u8; 32]>)
    ensures
        r is Some <==> scalar_of(b@) is Some,
        r matches Some(s) ==> s@ == padded(b@),
{
    p256::SecretKey::from_slice(b).ok().map(|k| k.to_bytes().into())
}

/// `p256::SecretKey::public_key`, encoded uncompressed: a function of the
/// scalar. The encoding denotes the key it encodes.
#[verifier::external_body]
fn scalar_public(scalar: &[u8; 32]) -> (r: [u8; 65])
    requires
        is_scalar(scalar@),
    ensures
        r@ == public_point(scalar@),
        point_of(r@) == Some(r@),
{
    let key = p256::SecretKey::from_slice(scalar).expect("a nonzero scalar");
    let mut out = [0u8; 65];
    out.copy_from_slice(key.public_key().to_encoded_point(false).as_bytes());
    out
}

/// `p256::EncodedPoint::from_bytes` and `p256::PublicKey::from_encoded_point`:
/// the key that the bytes denote, if they denote one, re-encoded uncompressed.
/// An uncompressed encoding denotes itself.
#[verifier::external_body]
fn parse_point(b: &[u8]) -> (r: Option<[u8; 65]>)
    ensures
        r is Some <==> point_of(b@) is Some,
        r matches Some(p) ==> point_of(b@) == Some(p@),
        r matches Some(p) ==> point_of(p@) == Some(p@),
        r matches Some(p) ==> (b@.len() == 65 ==> p@ == b@),
{
    let ep = p256::EncodedPoint::from_bytes(b).ok()?;
    let key = Option::<p256::PublicKey>::from(p256::PublicKey::from_encoded_point(&ep))?;
    let mut out = [0u8; 65];
    out.copy_from_slice(key.to_encoded_point(false).as_bytes());
    Some(out)
}

/// `p256::ecdh::diffie_hellman`: the raw agreed secret, a function of the scalar
/// and the point. Whoever holds the scalar behind the point agrees on the same
/// secret with this scalar's public key.
#[verifier::external_body]
fn agree(scalar: &[u8; 32], point: &[u8; 65]) -> (r: [u8; 32])
    requires
        is_scalar(scalar@),
        point_of(point@) == Some(point@),
    ensures
        r@ == shared_secret(scalar@, point@),
        forall|other: Seq<u8>|
            is_scalar(other) && #[trigger] public_point(other) == point@ ==> r@ == shared_secret(
                other,
                public_point(scalar@),
            ),
{
    let sk = p256::SecretKey::from_slice(scalar).expect("a nonzero scalar");
    let ep = p256::EncodedPoint::from_bytes(point).expect("an encoded point");
    let pk = p256::PublicKey::from_encoded_point(&ep).expect("a point of the curve");
    let mut out = [0u8; 32];
    out.copy_from_slice(diffie_hellman(sk.to_nonzero_scalar(), pk.as_affine()).raw_secret_bytes());
    out
}

/// `aes_gcm::Aes256Gcm::encrypt`, which fails beyond `2^36` bytes of message or
/// associated data: ciphertext and tag, a function of the inputs. Opening them
/// with the same key, nonce and associated data gives the message back.
#[verifier::external_body]
fn gcm_seal(key: &[u8; 32], nonce: &[u8; 12], msg: &[u8], aad: &[u8]) -> (r: Vec<u8>)
    requires
        msg.len() <= CIPHER_LIMIT,
        aad.len() <= CIPHER_LIMIT,
    ensures
        r@ == gcm_sealed(key@, nonce@, msg@, aad@),
        r.len() == msg.len() + 16,
        gcm_opened(key@, nonce@, r@, aad@) == Some(msg@),
{
    Aes256Gcm::new(key.into())
        .encrypt(Nonce::from_slice(nonce), Payload { msg, aad })
        .expect("lengths within the cipher's limits")
}

/// `aes_gcm::Aes256Gcm::decrypt`: the message, when the tag authenticates it; a
/// function of the inputs. What is accepted is what sealing the message under
/// the same key, nonce and associated data gives.
#[verifier::external_body]
fn gcm_open(key: &[u8; 32], nonce: &[u8; 12], sealed: &[u8], aad: &[u8]) -> (r: Option<Vec<u8>>)
    ensures
        r is Some <==> gcm_opened(key@, nonce@, sealed@, aad@) is Some,
        r matches Some(m) ==> gcm_opened(key@, nonce@, sealed@, aad@) == Some(m@),
        r matches Some(m) ==> m.len() + 16 == sealed.len(),
        r matches Some(m) ==> (m.len() <= CIPHER_LIMIT ==> sealed@ == gcm_sealed(
            key@,
            nonce@,
            m@,
            aad@,
        )),
{
    Aes256Gcm::new(key.into())
        .decrypt(Nonce::from_slice(nonce), Payload { msg: sealed, aad })
        .ok()
}

// ---------------------------------------------------------------
// Keys
// ---------------------------------------------------------------

/// A private key: a nonzero scalar.
pub struct PrivateKey {
    scalar: [u8; 32],
}

/// A public key: a point of the curve.
#[derive(Debug, PartialEq, Eq)]
pub struct PublicKey {
    point: [u8; 65],
}

impl Clone for PrivateKey {
    fn clone(&self) -> (r: Self)
        ensures
            r@ == self@,
    {
        proof {
            use_type_invariant(self);
        }
        PrivateKey { scalar: self.scalar }
    }
}

impl Clone for PublicKey {
    fn clone(&self) -> (r: Self)
        ensures
            r@ == self@,
    {
        proof {
            use_type_invariant(self);
        }
        PublicKey { point: self.point }
    }
}

impl PrivateKey {
    #[verifier::type_invariant]
    spec fn valid(self) -> bool {
        is_scalar(self.scalar@)
    }

    pub closed spec fn view(&self) -> Seq<u8> {
        self.scalar@
    }

    pub fn generate(rng: &mut ChaCha20Rng) -> (r: Self)
        ensures
            is_scalar(r@),
            gives_scalar(*old(rng), r@, *final(rng)),
    {
        let scalar: [u8; 32] = step(next_scalar_of, rng);
        PrivateKey { scalar }
    }

    pub fn public(&self) -> (r: PublicKey)
        ensures
            r@ == public_point(self@),
            is_scalar(self@),
    {
        proof {
            use_type_invariant(self);
        }
        PublicKey { point: scalar_public(&self.scalar) }
    }

    /// 32-byte big-endian scalar.
    pub fn to_bytes(&self) -> (r: Vec<u8>)
        ensures
            r@ == self@,
            is_scalar(r@),
    {
        proof {
            use_type_invariant(self);
        }
        let mut out: Vec<u8> = Vec::with_capacity(32);
        push_all(&mut out, self.scalar.as_slice());
        assert(out@ =~= self.scalar@);
        out
    }

    pub fn from_bytes(b: &[u8]) -> (r: Result<Self, PkeError>)
        ensures
            match r {
                Ok(k) => scalar_of(b@) == Some(k@),
                Err(e) => e == PkeError::BadKey && scalar_of(b@) is None,
            },
    {
        match parse_scalar(b) {
            Some(scalar) => Ok(PrivateKey { scalar }),
            None => Err(PkeError::BadKey),
        }
    }
}

impl PublicKey {
    #[verifier::type_invariant]
    spec fn valid(self) -> bool {
        point_of(self.point@) == Some(self.point@)
    }

    pub closed spec fn view(&self) -> Seq<u8> {
        self.point@
    }

    /// Uncompressed encoding, 65 bytes.
    pub fn to_sec1_bytes(&self) -> (r: Vec<u8>)
        ensures
            r@ == self@,
            r.len() == 65,
            point_of(r@) == Some(r@),
    {
        proof {
            use_type_invariant(self);
        }
        let mut out: Vec<u8> = Vec::with_capacity(65);
        push_all(&mut out, self.point.as_slice());
        assert(out@ =~= self.point@);
        out
    }

    pub fn from_sec1_bytes(b: &[u8]) -> (r: Result<Self, PkeError>)
        ensures
            match r {
                Ok(k) => point_of(b@) == Some(k@),
                Err(e) => e == PkeError::BadKey && point_of(b@) is None,
            },
    {
        match parse_point(b) {
            Some(point) => Ok(PublicKey { point }),
            None => Err(PkeError::BadKey),
        }
    }
}

// ---------------------------------------------------------------
// Envelopes
// ---------------------------------------------------------------

/// Separates the key derivation from other uses of the hash.
pub open spec fn kdf_domain() -> Seq<u8> {
    seq![
        112u8, 97u8, 110u8, 101u8, 116u8, 105u8, 101u8, 114u8, 101u8, 45u8, 101u8, 99u8, 105u8, 101u8, 115u8, 45u8, 118u8, 49u8,
    ]
}

/// The cipher key of an agreed secret.
pub open spec fn cipher_key(secret: Seq<u8>) -> Seq<u8> {
    sha256_of(kdf_domain() + secret)
}

fn derive_aes_key(secret: &[u8; 32]) -> (r: [u8; 32])
    ensures
        r@ == cipher_key(secret@),
{
    let domain: [u8; 18] = [112u8, 97, 110, 101, 116, 105, 101, 114, 101, 45, 101, 99, 105, 101, 115, 45, 118, 49];
    let mut input: Vec<u8> = Vec::with_capacity(50);
    push_all(&mut input, domain.as_slice());
    assert(input@ =~= kdf_domain());
    push_all(&mut input, secret.as_slice());
    sha256(&input)
}

/// The ephemeral key, then the context.
fn full_aad(eph_pub: &[u8], aad: &[u8]) -> (r: Vec<u8>)
    ensures
        r@ == eph_pub@ + aad@,
{
    let mut out: Vec<u8> = Vec::new();
    push_all(&mut out, eph_pub);
    push_all(&mut out, aad);
    assert(out@ =~= eph_pub@ + aad@);
    out
}

/// The envelope of a message to `recipient`, under a given ephemeral scalar and
/// nonce.
pub open spec fn envelope(
    recipient: Seq<u8>,
    ephemeral: Seq<u8>,
    nonce: Seq<u8>,
    msg: Seq<u8>,
    aad: Seq<u8>,
) -> Seq<u8> {
    let eph = public_point(ephemeral);
    eph + nonce + gcm_sealed(
        cipher_key(shared_secret(ephemeral, recipient)),
        nonce,
        msg,
        eph + aad,
    )
}

/// What an envelope gives to the holder of `scalar`.
pub open spec fn opened(scalar: Seq<u8>, sealed: Seq<u8>, aad: Seq<u8>) -> Result<
    Seq<u8>,
    PkeError,
> {
    if sealed.len() < SEAL_OVERHEAD {
        Err(PkeError::TooShort)
    } else {
        let eph = sealed.take(65);
        if point_of(eph) is None {
            Err(PkeError::BadKey)
        } else {
            match gcm_opened(
                cipher_key(shared_secret(scalar, eph)),
                sealed.subrange(65, 77),
                sealed.skip(77),
                eph + aad,
            ) {
                Some(m) => Ok(m),
                None => Err(PkeError::Aead),
            }
        }
    }
}

/// Whoever holds the scalar of `recipient` gets `msg` from `sealed`, under `aad`.
pub open spec fn opens_to(recipient: Seq<u8>, sealed: Seq<u8>, msg: Seq<u8>, aad: Seq<u8>) -> bool {
    forall|scalar: Seq<u8>|
        is_scalar(scalar) && #[trigger] public_point(scalar) == recipient ==> opened(
            scalar,
            sealed,
            aad,
        ) == Ok::<Seq<u8>, PkeError>(msg)
}

/// Seals under a given ephemeral scalar and nonce.
fn seal_with(
    ephemeral: &[u8; 32],
    nonce: &[u8; 12],
    recipient: &PublicKey,
    plaintext: &[u8],
    aad: &[u8],
) -> (r: Vec<u8>)
    requires
        is_scalar(ephemeral@),
        plaintext.len() <= CIPHER_LIMIT,
        aad.len() + 65 <= CIPHER_LIMIT,
    ensures
        r@ == envelope(recipient@, ephemeral@, nonce@, plaintext@, aad@),
        r.len() == plaintext.len() + SEAL_OVERHEAD,
        opens_to(recipient@, r@, plaintext@, aad@),
{
    proof {
        use_type_invariant(recipient);
    }
    let secret: [u8; 32] = agree(ephemeral, &recipient.point);
    let key: [u8; 32] = derive_aes_key(&secret);
    let eph: [u8; 65] = scalar_public(ephemeral);
    let full: Vec<u8> = full_aad(eph.as_slice(), aad);
    let body: Vec<u8> = gcm_seal(&key, nonce, plaintext, &full);
    let mut out: Vec<u8> = Vec::new();
    push_all(&mut out, eph.as_slice());
    push_all(&mut out, nonce.as_slice());
    push_all(&mut out, &body);
    proof {
        assert(out@ =~= eph@ + nonce@ + body@);
        assert(out@.take(65) =~= eph@);
        assert(out@.subrange(65, 77) =~= nonce@);
        assert(out@.skip(77) =~= body@);
        assert forall|scalar: Seq<u8>|
            is_scalar(scalar) && #[trigger] public_point(scalar) == recipient@ implies opened(
            scalar,
            out@,
            aad@,
        ) == Ok::<Seq<u8>, PkeError>(plaintext@) by {
            assert(secret@ == shared_secret(scalar, public_point(ephemeral@)));
        }
    }
    out
}

/// Seals `plaintext` to `recipient` under a fresh ephemeral key and nonce. The
/// holder of the recipient's scalar opens the envelope under the same `aad`.
pub fn encrypt(
    rng: &mut ChaCha20Rng,
    recipient: &PublicKey,
    plaintext: &[u8],
    aad: &[u8],
) -> (r: Vec<u8>)
    requires
        plaintext.len() <= CIPHER_LIMIT,
        aad.len() + 65 <= CIPHER_LIMIT,
    ensures
        r.len() == plaintext.len() + SEAL_OVERHEAD,
        exists|ephemeral: Seq<u8>, nonce: Seq<u8>|
            is_scalar(ephemeral) && nonce.len() == 12 && r@ == #[trigger] envelope(
                recipient@,
                ephemeral,
                nonce,
                plaintext@,
                aad@,
            ) && exists|m: ChaCha20Rng| #[trigger]
                gives_scalar(*old(rng), ephemeral, m) && gives_nonce(m, nonce, *final(rng)),
        opens_to(recipient@, r@, plaintext@, aad@),
{
    let ephemeral: [u8; 32] = step(next_scalar_of, rng);
    let ghost m = *rng;
    let nonce: [u8; 12] = step(next_nonce_of, rng);
    assert(gives_scalar(*old(rng), ephemeral@, m) && gives_nonce(m, nonce@, *rng));
    let r: Vec<u8> = seal_with(&ephemeral, &nonce, recipient, plaintext, aad);
    assert(r@ == envelope(recipient@, ephemeral@, nonce@, plaintext@, aad@));
    r
}

/// Opens an envelope. What is accepted is the cipher's sealing of the message
/// returned, under the same context.
pub fn decrypt(recipient: &PrivateKey, sealed: &[u8], aad: &[u8]) -> (r: Result<Vec<u8>, PkeError>)
    ensures
        match r {
            Ok(m) => opened(recipient@, sealed@, aad@) == Ok::<Seq<u8>, PkeError>(m@) && m.len()
                + SEAL_OVERHEAD == sealed.len() && (m.len() <= CIPHER_LIMIT ==> sealed@.skip(77)
                == gcm_sealed(
                cipher_key(shared_secret(recipient@, sealed@.take(65))),
                sealed@.subrange(65, 77),
                m@,
                sealed@.take(65) + aad@,
            )),
            Err(e) => opened(recipient@, sealed@, aad@) == Err::<Seq<u8>, PkeError>(e),
        },
{
    proof {
        use_type_invariant(recipient);
    }
    if sealed.len() < SEAL_OVERHEAD {
        return Err(PkeError::TooShort);
    }
    let eph_bytes: Vec<u8> = copy_range(sealed, 0, PUBKEY_LEN);
    let nonce: [u8; 12] = nonce_at(sealed, PUBKEY_LEN);
    let body: Vec<u8> = copy_range(sealed, PUBKEY_LEN + NONCE_LEN, sealed.len());
    proof {
        assert(eph_bytes@ =~= sealed@.take(65));
        assert(body@ =~= sealed@.skip(77));
    }
    let point: [u8; 65] = match parse_point(&eph_bytes) {
        None => {
            return Err(PkeError::BadKey);
        },
        Some(p) => p,
    };
    let secret: [u8; 32] = agree(&recipient.scalar, &point);
    let key: [u8; 32] = derive_aes_key(&secret);
    let full: Vec<u8> = full_aad(&eph_bytes, aad);
    match gcm_open(&key, &nonce, &body, &full) {
        Some(m) => Ok(m),
        None => Err(PkeError::Aead),
    }
}

fn nonce_at(data: &[u8], at: usize) -> (r: [u8; 12])
    requires
        at + 12 <= data.len(),
    ensures
        r@ == data@.subrange(at as int, at + 12),
{
    let mut r: [u8; 12] = [0u8; 12];
    for i in 0..12usize
        invariant
            at + 12 <= data.len(),
            forall|k: int| 0 <= k < i ==> #[trigger] r@[k] == data@[at + k],
    {
        r[i] = data[at + i];
    }
    assert(r@ =~= data@.subrange(at as int, at + 12));
    r
}

/// An envelope is the ephemeral public key, the nonce, and the message under the
/// cipher, whose key is the hash of a fixed text and of the secret agreed on, and
/// whose context is the ephemeral key and then the caller's.
pub proof fn law_envelope_layout(
    recipient: Seq<u8>,
    ephemeral: Seq<u8>,
    nonce: Seq<u8>,
    msg: Seq<u8>,
    aad: Seq<u8>,
)
    requires
        public_point(ephemeral).len() == 65,
        nonce.len() == 12,
    ensures
        ({
            let s = envelope(recipient, ephemeral, nonce, msg, aad);
            &&& s.take(65) == public_point(ephemeral)
            &&& s.subrange(65, 77) == nonce
            &&& s.skip(77) == gcm_sealed(
                sha256_of(
                    seq![
                        112u8, 97, 110, 101, 116, 105, 101, 114, 101, 45, 101, 99, 105, 101, 115, 45, 118, 49,
                    ] + shared_secret(ephemeral, recipient),
                ),
                nonce,
                msg,
                public_point(ephemeral) + aad,
            )
        }),
{
    let s = envelope(recipient, ephemeral, nonce, msg, aad);
    let eph = public_point(ephemeral);
    let key = cipher_key(shared_secret(ephemeral, recipient));
    assert(kdf_domain() =~= seq![
        112u8, 97, 110, 101, 116, 105, 101, 114, 101, 45, 101, 99, 105, 101, 115, 45, 118, 49,
    ]);
    assert(s.take(65) =~= eph);
    assert(s.subrange(65, 77) =~= nonce);
    assert(s.skip(77) =~= gcm_sealed(key, nonce, msg, eph + aad));
}

/// What an envelope gives, and when it gives nothing: too few bytes, bytes in
/// front that are no public key, or a rest that the cipher does not authenticate
/// under the secret agreed on and the same context.
pub proof fn law_opening_an_envelope(scalar: Seq<u8>, sealed: Seq<u8>, aad: Seq<u8>)
    ensures
        ({
            let got = gcm_opened(
                sha256_of(
                    seq![
                        112u8, 97, 110, 101, 116, 105, 101, 114, 101, 45, 101, 99, 105, 101, 115, 45, 118, 49,
                    ] + shared_secret(scalar, sealed.take(65)),
                ),
                sealed.subrange(65, 77),
                sealed.skip(77),
                sealed.take(65) + aad,
            );
            match opened(scalar, sealed, aad) {
                Ok(m) => sealed.len() >= 93 && point_of(sealed.take(65)) is Some && got == Some(m),
                Err(PkeError::TooShort) => sealed.len() < 93,
                Err(PkeError::BadKey) => sealed.len() >= 93 && point_of(sealed.take(65)) is None,
                Err(PkeError::Aead) => sealed.len() >= 93 && point_of(sealed.take(65)) is Some
                    && got is None,
            }
        }),
{
    assert(kdf_domain() =~= seq![
        112u8, 97, 110, 101, 116, 105, 101, 114, 101, 45, 101, 99, 105, 101, 115, 45, 118, 49,
    ]);
}

} // verus!
