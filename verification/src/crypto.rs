//! The cryptographic primitives, each behind one function over plain bytes.
//!
//! A primitive whose result is a function of its arguments has a name here (a
//! spec function without a body). Contracts elsewhere speak of those names, so
//! that what is proved is how the primitives are put together.

use chacha20poly1305::aead::{Aead, Payload};
use chacha20poly1305::{KeyInit, XChaCha20Poly1305, XNonce};
use ed25519_dalek::Signer;
use vstd::prelude::*;
use zeroize::Zeroize;

verus! {

/// The Ed25519 public key of a secret seed.
pub uninterp spec fn ed25519_public(seed: Seq<u8>) -> Seq<u8>;

/// The Ed25519 signature that a secret seed makes of a message.
pub uninterp spec fn ed25519_signature(seed: Seq<u8>, message: Seq<u8>) -> Seq<u8>;

/// Whether 32 bytes decode to a point of the curve.
pub uninterp spec fn ed25519_key_valid(key: Seq<u8>) -> bool;

/// Whether strict Ed25519 verification accepts a signature.
pub uninterp spec fn ed25519_accepts(key: Seq<u8>, message: Seq<u8>, signature: Seq<u8>) -> bool;

/// The X25519 public key of a secret.
pub uninterp spec fn x25519_public(secret: Seq<u8>) -> Seq<u8>;

/// The X25519 shared secret of one side's secret and the other's public key.
pub uninterp spec fn x25519_shared(secret: Seq<u8>, public: Seq<u8>) -> Seq<u8>;

/// XChaCha20-Poly1305: ciphertext and tag for a key, nonce, associated data and
/// message.
pub uninterp spec fn xchacha_sealed(
    key: Seq<u8>,
    nonce: Seq<u8>,
    aad: Seq<u8>,
    message: Seq<u8>,
) -> Seq<u8>;

/// XChaCha20-Poly1305: what a ciphertext opens to, if its tag holds.
pub uninterp spec fn xchacha_opened(
    key: Seq<u8>,
    nonce: Seq<u8>,
    aad: Seq<u8>,
    ciphertext: Seq<u8>,
) -> Option<Seq<u8>>;

/// The BLAKE3 hash of a byte string.
pub uninterp spec fn blake3_digest(input: Seq<u8>) -> Seq<u8>;

/// The key that BLAKE3 derives in a context from key material.
pub uninterp spec fn blake3_derived(context: Seq<char>, material: Seq<u8>) -> Seq<u8>;

/// The bytes that a BLAKE3 hasher has taken in.
pub uninterp spec fn absorbed(hasher: blake3::Hasher) -> Seq<u8>;

/// The 32 bytes that Argon2id gives for a password and a salt.
pub uninterp spec fn argon2id(password: Seq<u8>, salt: Seq<u8>) -> Seq<u8>;

/// The encoding of the neutral point: the only commitment under which a
/// signature made by [`sign`] is refused.
pub open spec fn neutral_point() -> Seq<u8> {
    seq![1u8] + Seq::new(31, |i: int| 0u8)
}

/// Whether a signature commits to a point other than the neutral one.
pub open spec fn committed(signature: Seq<u8>) -> bool {
    signature.subrange(0, 32) != neutral_point()
}

/// Whether the cipher has blocks enough for a message: its counter has 32 bits,
/// the first block makes the key of the tag, and the last is never used.
pub open spec fn in_blocks(len: int) -> bool {
    (len + 63) / 64 < 0xffff_ffff
}

/// Whether [`seal`] takes a message of this length: the cipher has the blocks,
/// and ciphertext and tag fit in one allocation.
pub open spec fn sealable(len: int) -> bool {
    &&& in_blocks(len)
    &&& len + 16 <= isize::MAX
}

/// Whether [`unseal`] takes a ciphertext of this length, tag included.
pub open spec fn openable(len: int) -> bool {
    in_blocks(len - 16)
}

/// Decides [`sealable`].
pub(crate) fn is_sealable(len: usize) -> (r: bool)
    ensures
        r == sealable(len as int),
{
    let blocks: usize = len / 64;
    (blocks < 0xffff_fffe || (blocks == 0xffff_fffe && len % 64 == 0)) && len <= isize::MAX as usize - 16
}

/// Decides [`openable`].
pub(crate) fn is_openable(len: usize) -> (r: bool)
    ensures
        r == openable(len as int),
{
    if len < 16 {
        return true;
    }
    let blocks: usize = (len - 16) / 64;
    blocks < 0xffff_fffe || (blocks == 0xffff_fffe && len % 64 == 16)
}

/// The state of `blake3::Hasher`.
#[verifier::external_type_specification]
#[verifier::external_body]
pub struct ExHasher(blake3::Hasher);

/// `ed25519_dalek::SigningKey::verifying_key`: the public key of a seed. A key
/// made this way decodes as a public key.
#[verifier::external_body]
pub(crate) fn public_key(seed: &[u8; 32]) -> (r: [u8; 32])
    ensures
        r@ == ed25519_public(seed@),
        ed25519_key_valid(r@),
{
    ed25519_dalek::SigningKey::from_bytes(seed).verifying_key().to_bytes()
}

/// `ed25519_dalek::SigningKey::sign`, which is deterministic. The signature has
/// 64 bytes, and strict verification under the seed's own public key accepts
/// it, unless its first half encodes the neutral point.
#[verifier::external_body]
pub(crate) fn sign(seed: &[u8; 32], message: &[u8]) -> (r: Vec<u8>)
    ensures
        r@ == ed25519_signature(seed@, message@),
        r@.len() == 64,
        committed(r@) ==> ed25519_accepts(ed25519_public(seed@), message@, r@),
{
    ed25519_dalek::SigningKey::from_bytes(seed).sign(message).to_bytes().to_vec()
}

/// `ed25519_dalek::VerifyingKey::from_bytes` succeeds on these bytes.
#[verifier::external_body]
pub(crate) fn key_valid(key: &[u8; 32]) -> (r: bool)
    ensures
        r == ed25519_key_valid(key@),
{
    ed25519_dalek::VerifyingKey::from_bytes(key).is_ok()
}

/// `ed25519_dalek::VerifyingKey::verify_strict` accepts the signature.
#[verifier::external_body]
pub(crate) fn accepts(key: &[u8; 32], message: &[u8], signature: &[u8]) -> (r: bool)
    requires
        ed25519_key_valid(key@),
        signature@.len() == 64,
    ensures
        r == ed25519_accepts(key@, message@, signature@),
{
    match (ed25519_dalek::VerifyingKey::from_bytes(key), ed25519_dalek::Signature::from_slice(signature)) {
        (Ok(key), Ok(signature)) => key.verify_strict(message, &signature).is_ok(),
        _ => false,
    }
}

/// `x25519_dalek::PublicKey::from` on a static secret.
#[verifier::external_body]
pub(crate) fn agreement_public(secret: &[u8; 32]) -> (r: [u8; 32])
    ensures
        r@ == x25519_public(secret@),
{
    x25519_dalek::PublicKey::from(&x25519_dalek::StaticSecret::from(*secret)).to_bytes()
}

/// `x25519_dalek::StaticSecret::diffie_hellman`. Both sides of an exchange come
/// to the same secret.
#[verifier::external_body]
pub(crate) fn agree(secret: &[u8; 32], public: &[u8; 32]) -> (r: [u8; 32])
    ensures
        r@ == x25519_shared(secret@, public@),
        forall|other: Seq<u8>|
            other.len() == 32 && #[trigger] x25519_public(other) == public@
                ==> x25519_shared(other, x25519_public(secret@)) == r@,
{
    let public = x25519_dalek::PublicKey::from(*public);
    x25519_dalek::StaticSecret::from(*secret).diffie_hellman(&public).to_bytes()
}

/// `chacha20poly1305::XChaCha20Poly1305::encrypt`, which refuses nothing of
/// this length. The result is as long as the message and a 16-byte tag, and
/// opens to the message under the same key, nonce and associated data.
#[verifier::external_body]
pub(crate) fn seal(key: &[u8; 32], nonce: &[u8; 24], aad: &[u8], message: &[u8]) -> (r: Vec<u8>)
    requires
        sealable(message@.len() as int),
    ensures
        r@ == xchacha_sealed(key@, nonce@, aad@, message@),
        r@.len() == message@.len() + 16,
        xchacha_opened(key@, nonce@, aad@, r@) == Some(message@),
{
    XChaCha20Poly1305::new(key.into())
        .encrypt(&XNonce::from(*nonce), Payload { msg: message, aad })
        .unwrap_or_default()
}

/// `chacha20poly1305::XChaCha20Poly1305::decrypt`, which panics on an authentic
/// ciphertext that the cipher has not the blocks for. What opens is 16 bytes
/// shorter than the ciphertext.
#[verifier::external_body]
pub(crate) fn unseal(key: &[u8; 32], nonce: &[u8; 24], aad: &[u8], ciphertext: &[u8]) -> (r: Option<Vec<u8>>)
    requires
        openable(ciphertext@.len() as int),
    ensures
        r is Some <==> xchacha_opened(key@, nonce@, aad@, ciphertext@) is Some,
        r is Some ==> xchacha_opened(key@, nonce@, aad@, ciphertext@) == Some(r->0@),
        r is Some ==> r->0@.len() + 16 == ciphertext@.len(),
{
    XChaCha20Poly1305::new(key.into())
        .decrypt(&XNonce::from(*nonce), Payload { msg: ciphertext, aad })
        .ok()
}

/// `blake3::derive_key`.
#[verifier::external_body]
pub(crate) fn derive_key(context: &str, material: &[u8]) -> (r: [u8; 32])
    ensures
        r@ == blake3_derived(context@, material@),
{
    blake3::derive_key(context, material)
}

/// `blake3::Hasher::new`: nothing taken in yet.
#[verifier::external_body]
pub(crate) fn hasher() -> (r: blake3::Hasher)
    ensures
        absorbed(r) == Seq::<u8>::empty(),
{
    blake3::Hasher::new()
}

/// `blake3::Hasher::update` takes in `input` after what it took in before.
#[verifier::external_body]
pub(crate) fn absorb(hasher: &mut blake3::Hasher, input: &[u8])
    ensures
        absorbed(*final(hasher)) == absorbed(*old(hasher)) + input@,
{
    hasher.update(input);
}

/// `blake3::Hasher::finalize`: the hash of all that was taken in.
#[verifier::external_body]
pub(crate) fn digest(hasher: &blake3::Hasher) -> (r: [u8; 32])
    ensures
        r@ == blake3_digest(absorbed(*hasher)),
{
    *hasher.finalize().as_bytes()
}

/// `argon2::Argon2::hash_password_into` with the default parameters, and the
/// text of its error. With a salt and an output of these lengths it fails only
/// where memory runs out, and on a password of 2^32 bytes or more.
#[verifier::external_body]
pub(crate) fn stretch(password: &[u8], salt: &[u8; 16], out: &mut [u8; 32]) -> (r: Result<(), String>)
    ensures
        r is Ok ==> final(out)@ == argon2id(password@, salt@),
        password@.len() > 0xffff_ffff ==> r is Err,
        r matches Err(e) ==> e@ == "out of memory"@ || (e@ == "password is too long"@ && password@.len()
            > 0xffff_ffff),
{
    match argon2::Argon2::default().hash_password_into(password, salt, out) {
        Ok(()) => Ok(()),
        Err(e) => Err(e.to_string()),
    }
}

/// `getrandom::fill`: on success the buffer holds bytes of the system's random
/// generator, of which nothing is claimed but their number. An empty buffer is
/// filled without asking the system, which always succeeds.
#[verifier::external_body]
pub(crate) fn fill_random(buf: &mut [u8]) -> (done: bool)
    ensures
        final(buf)@.len() == old(buf)@.len(),
        old(buf)@.len() == 0 ==> done,
{
    getrandom::fill(buf).is_ok()
}

/// `zeroize::Zeroize::zeroize`: every byte is zero afterwards.
#[verifier::external_body]
pub(crate) fn wipe(secret: &mut [u8; 32])
    ensures
        crate::bytes::all_zero(final(secret)@),
    opens_invariants none
    no_unwind
{
    secret.zeroize();
}

} // verus!
