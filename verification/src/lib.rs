//! Anonymous broadcast through threshold servers.
//!
//! Clients encrypt under additively homomorphic keys, share the keys among the
//! servers and commit to the shares; anyone can then check the servers' sums and
//! read the sum of the messages, and nothing else.

pub mod aggregate;
pub mod binding;
pub mod bits;
pub mod bulletin;
pub mod bytes;
pub mod channel;
pub mod codec;
pub mod commit;
pub mod consensus;
pub mod cs;
pub mod delivery;
pub mod digest;
pub mod digits;
pub mod field;
pub mod fp;
pub mod fpoly;
pub mod hash;
pub mod hvc;
pub mod iblt;
pub mod kahe;
pub mod mse;
pub mod negacyclic;
pub mod newton;
pub mod ntt;
pub mod peel;
pub mod pke;
pub mod primes;
pub mod prony;
pub mod protocol;
pub mod random;
pub mod rings;
pub mod roots;
pub mod rs;
pub mod share_commitment;
pub mod sig;
pub mod sss;
pub mod sweep;
pub mod wire;

pub use hvc::{HVCHash, Path, Tree};
pub use negacyclic::N;
pub use rings::{
    pointwise_dot_cs, pointwise_dot_kahe, CsNTTPoly, CsPoly, HVCPoly, KaheNTTPoly, KahePoly,
    CS_MODULUS, CS_MODULUS_OVER_TWO, KAHE_MODULUS, KAHE_MODULUS_OVER_TWO,
};
pub use rs::RsNTTPoly;
