//! P-256 signatures over bulletin posts.

use crate::pke::is_scalar;
use p256::ecdsa::signature::{Signer, Verifier};
use rand_chacha::ChaCha20Rng;
use crate::random::{call, step};
use vstd::prelude::*;

verus! {

#[derive(Debug, PartialEq, Eq, Structural, Clone, Copy)]
pub enum SigError {
    BadKey,
    BadSignature,
}

/// Compressed point.
pub const PUBKEY_LEN: usize = 33;

/// Fixed-width `r` and `s`.
pub const SIG_LEN: usize = 64;

/// The verifying key of a scalar, compressed.
pub uninterp spec fn verifying_point(scalar: Seq<u8>) -> Seq<u8>;

/// The verifying key that an encoding denotes, compressed, if it denotes one.
pub uninterp spec fn compressed_of(encoded: Seq<u8>) -> Option<Seq<u8>>;

/// The signature of a message.
pub uninterp spec fn signature_of(scalar: Seq<u8>, msg: Seq<u8>) -> Seq<u8>;

/// Whether a signature is valid for a message and a compressed verifying key.
pub uninterp spec fn is_signature(point: Seq<u8>, msg: Seq<u8>, sig: Seq<u8>) -> bool;

/// `p256::ecdsa::SigningKey::random` and `to_bytes`: the draw is a nonzero
/// scalar, big endian. Nothing else is claimed of it.
#[verifier::external_body]
pub(crate) fn draw_signing_scalar(rng: &mut ChaCha20Rng) -> (r: [u8; 32])
    ensures
        is_scalar(r@),
{
    p256::ecdsa::SigningKey::random(rng).to_bytes().into()
}

/// One `draw_signing_scalar`, from generator to generator.
fn signing_scalar_of(g: ChaCha20Rng) -> (r: ([u8; 32], ChaCha20Rng))
    ensures
        is_scalar(r.0@),
        exists|m: &mut ChaCha20Rng| #[trigger]
            call_ensures(draw_signing_scalar, (m,), r.0) && *m == g && *final(m) == r.1,
{
    let mut h: ChaCha20Rng = g;
    let w: [u8; 32] = call(draw_signing_scalar, &mut h);
    assert(exists|m: &mut ChaCha20Rng| #[trigger]
        call_ensures(draw_signing_scalar, (m,), w) && *m == g && *final(m) == h);
    let r: ([u8; 32], ChaCha20Rng) = (w, h);
    assert(r.0 == w && r.1 == h);
    r
}

/// The generator `g` gives a signing scalar and goes on as `h`.
pub closed spec fn gives_signing_scalar(g: ChaCha20Rng, v: Seq<u8>, h: ChaCha20Rng) -> bool {
    exists|a: [u8; 32]| a@ == v && #[trigger] call_ensures(signing_scalar_of, (g,), (a, h))
}

/// A signing scalar that the generator gives is one that it draws.
pub(crate) proof fn law_signing_scalars_are_drawn(g: ChaCha20Rng, v: Seq<u8>, h: ChaCha20Rng)
    requires
        gives_signing_scalar(g, v, h),
    ensures
        exists|m: &mut ChaCha20Rng, a: [u8; 32]| #[trigger]
            call_ensures(draw_signing_scalar, (m,), a) && a@ == v && *m == g && *final(m) == h,
{
}

/// `p256::ecdsa::SigningKey::verifying_key`, encoded compressed: a function of
/// the scalar. The encoding denotes the key it encodes.
#[verifier::external_body]
fn scalar_verifying(scalar: &[u8; 32]) -> (r: [u8; 33])
    requires
        is_scalar(scalar@),
    ensures
        r@ == verifying_point(scalar@),
        compressed_of(r@) == Some(r@),
{
    let key = p256::ecdsa::SigningKey::from_slice(scalar).expect("a nonzero scalar");
    let mut out = [0u8; 33];
    out.copy_from_slice(key.verifying_key().to_encoded_point(true).as_bytes());
    out
}

/// `p256::ecdsa::VerifyingKey::from_sec1_bytes`: the key that the bytes denote,
/// if they denote one, re-encoded compressed. A compressed encoding denotes
/// itself.
#[verifier::external_body]
fn parse_verifying(b: &[u8]) -> (r: Option<[u8; 33]>)
    ensures
        r is Some <==> compressed_of(b@) is Some,
        r matches Some(p) ==> compressed_of(b@) == Some(p@),
        r matches Some(p) ==> compressed_of(p@) == Some(p@),
{
    let key = p256::ecdsa::VerifyingKey::from_sec1_bytes(b).ok()?;
    let mut out = [0u8; 33];
    out.copy_from_slice(key.to_encoded_point(true).as_bytes());
    Some(out)
}

/// `p256::ecdsa::SigningKey::sign`, whose nonce is derived from the key and the
/// message: a function of both. The signature is valid for the scalar's key.
#[verifier::external_body]
fn scalar_sign(scalar: &[u8; 32], msg: &[u8]) -> (r: [u8; 64])
    requires
        is_scalar(scalar@),
    ensures
        r@ == signature_of(scalar@, msg@),
        is_signature(verifying_point(scalar@), msg@, r@),
{
    let key = p256::ecdsa::SigningKey::from_slice(scalar).expect("a nonzero scalar");
    let sig: p256::ecdsa::Signature = key.sign(msg);
    let mut out = [0u8; 64];
    out.copy_from_slice(&sig.to_bytes());
    out
}

/// `p256::ecdsa::Signature::from_slice` and `p256::ecdsa::VerifyingKey::verify`:
/// a function of the key, the message and the signature bytes.
#[verifier::external_body]
fn point_verify(point: &[u8; 33], msg: &[u8], sig: &[u8; 64]) -> (r: bool)
    requires
        compressed_of(point@) == Some(point@),
    ensures
        r == is_signature(point@, msg@, sig@),
{
    let key = p256::ecdsa::VerifyingKey::from_sec1_bytes(point).expect("an encoded point");
    match p256::ecdsa::Signature::from_slice(sig) {
        Ok(s) => key.verify(msg, &s).is_ok(),
        Err(_) => false,
    }
}

/// A signing key: a nonzero scalar.
pub struct SigningKey {
    scalar: [u8; 32],
}

/// A verifying key: a point of the curve.
#[derive(Debug, PartialEq, Eq)]
pub struct VerifyingKey {
    point: [u8; 33],
}

impl Clone for SigningKey {
    fn clone(&self) -> (r: Self)
        ensures
            r@ == self@,
    {
        proof {
            use_type_invariant(self);
        }
        SigningKey { scalar: self.scalar }
    }
}

impl Clone for VerifyingKey {
    fn clone(&self) -> (r: Self)
        ensures
            r@ == self@,
    {
        proof {
            use_type_invariant(self);
        }
        VerifyingKey { point: self.point }
    }
}

impl SigningKey {
    #[verifier::type_invariant]
    spec fn valid(self) -> bool {
        is_scalar(self.scalar@)
    }

    pub closed spec fn view(&self) -> Seq<u8> {
        self.scalar@
    }

    pub fn generate(rng: &mut ChaCha20Rng) -> (r: Self)
        ensures
            is_scalar(r@),
            gives_signing_scalar(*old(rng), r@, *final(rng)),
    {
        let scalar: [u8; 32] = step(signing_scalar_of, rng);
        SigningKey { scalar }
    }

    pub fn verifying_key(&self) -> (r: VerifyingKey)
        ensures
            r@ == verifying_point(self@),
            compressed_of(r@) == Some(r@),
    {
        proof {
            use_type_invariant(self);
        }
        VerifyingKey { point: scalar_verifying(&self.scalar) }
    }

    /// Signs `msg`; the signature is valid for this key's verifying key.
    pub fn sign(&self, msg: &[u8]) -> (r: [u8; SIG_LEN])
        ensures
            r@ == signature_of(self@, msg@),
            is_signature(verifying_point(self@), msg@, r@),
    {
        proof {
            use_type_invariant(self);
        }
        scalar_sign(&self.scalar, msg)
    }
}

impl VerifyingKey {
    #[verifier::type_invariant]
    spec fn valid(self) -> bool {
        compressed_of(self.point@) == Some(self.point@)
    }

    pub closed spec fn view(&self) -> Seq<u8> {
        self.point@
    }

    pub fn to_sec1_bytes(&self) -> (r: [u8; PUBKEY_LEN])
        ensures
            r@ == self@,
            compressed_of(r@) == Some(r@),
    {
        proof {
            use_type_invariant(self);
        }
        self.point
    }

    pub fn from_sec1_bytes(b: &[u8]) -> (r: Result<Self, SigError>)
        ensures
            match r {
                Ok(k) => compressed_of(b@) == Some(k@),
                Err(e) => e == SigError::BadKey && compressed_of(b@) is None,
            },
    {
        match parse_verifying(b) {
            Some(point) => Ok(VerifyingKey { point }),
            None => Err(SigError::BadKey),
        }
    }

    pub fn verify(&self, msg: &[u8], sig: &[u8; SIG_LEN]) -> (r: Result<(), SigError>)
        ensures
            r is Ok <==> is_signature(self@, msg@, sig@),
            r matches Err(e) ==> e == SigError::BadSignature,
    {
        proof {
            use_type_invariant(self);
        }
        if point_verify(&self.point, msg, sig) {
            Ok(())
        } else {
            Err(SigError::BadSignature)
        }
    }
}

} // verus!
