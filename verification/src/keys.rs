//! Identity keys and key-agreement secrets.

use crate::crypto;
use vstd::prelude::*;

verus! {

/// An Ed25519 identity: 32 secret bytes, wiped when dropped.
pub struct SigningKey {
    seed: [u8; 32],
}

/// An Ed25519 public key: an endpoint id.
#[derive(Clone, Copy, Debug, PartialEq, Eq)]
pub struct VerifyingKey {
    bytes: [u8; 32],
}

/// An X25519 secret: 32 bytes, wiped when dropped.
pub struct StaticSecret {
    bytes: [u8; 32],
}

impl View for SigningKey {
    type V = Seq<u8>;

    /// The secret bytes.
    closed spec fn view(&self) -> Seq<u8> {
        self.seed@
    }
}

impl View for VerifyingKey {
    type V = [u8; 32];

    /// The endpoint id.
    closed spec fn view(&self) -> [u8; 32] {
        self.bytes
    }
}

impl View for StaticSecret {
    type V = Seq<u8>;

    /// The secret bytes.
    closed spec fn view(&self) -> Seq<u8> {
        self.bytes@
    }
}

impl SigningKey {
    /// The endpoint id of this identity.
    pub open spec fn public(&self) -> Seq<u8> {
        crypto::ed25519_public(self@)
    }

    /// The identity with these secret bytes.
    pub fn from_bytes(seed: &[u8; 32]) -> (r: SigningKey)
        ensures
            r@ == seed@,
    {
        SigningKey { seed: *seed }
    }

    /// The secret bytes.
    pub fn to_bytes(&self) -> (r: [u8; 32])
        ensures
            r@ == self@,
    {
        self.seed
    }

    /// The public half of this identity.
    pub fn verifying_key(&self) -> (r: VerifyingKey)
        ensures
            r@@ == self.public(),
            crypto::ed25519_key_valid(self.public()),
    {
        VerifyingKey { bytes: crypto::public_key(&self.seed) }
    }

    /// Signs a message. The signature verifies under [`SigningKey::public`] if
    /// it commits to a point other than the neutral one.
    pub fn sign(&self, message: &[u8]) -> (r: Vec<u8>)
        ensures
            r@ == crypto::ed25519_signature(self@, message@),
            r@.len() == 64,
            crypto::committed(r@) ==> crypto::ed25519_accepts(self.public(), message@, r@),
    {
        crypto::sign(&self.seed, message)
    }
}

impl VerifyingKey {
    /// The 32 bytes of the key.
    pub fn to_bytes(&self) -> (r: [u8; 32])
        ensures
            r == self@,
    {
        self.bytes
    }
}

impl StaticSecret {
    /// The public key of this secret.
    pub open spec fn public(&self) -> Seq<u8> {
        crypto::x25519_public(self@)
    }

    /// The secret with these bytes.
    pub fn from(bytes: [u8; 32]) -> (r: StaticSecret)
        ensures
            r@ == bytes@,
            r@.len() == 32,
    {
        StaticSecret { bytes }
    }

    /// The secret bytes.
    pub fn to_bytes(&self) -> (r: [u8; 32])
        ensures
            r@ == self@,
    {
        self.bytes
    }

    /// Computes [`StaticSecret::public`].
    pub fn public_key(&self) -> (r: [u8; 32])
        ensures
            r@ == self.public(),
    {
        crypto::agreement_public(&self.bytes)
    }

    /// The secret shared with the holder of `public`. Whoever holds the secret
    /// of `public` comes to the same bytes from this side's public key.
    pub fn diffie_hellman(&self, public: &[u8; 32]) -> (r: [u8; 32])
        ensures
            r@ == crypto::x25519_shared(self@, public@),
            forall|other: Seq<u8>|
                other.len() == 32 && #[trigger] crypto::x25519_public(other) == public@
                    ==> crypto::x25519_shared(other, self.public()) == r@,
    {
        crypto::agree(&self.bytes, public)
    }
}

impl Drop for SigningKey {
    fn drop(&mut self)
        opens_invariants none
        no_unwind
    {
        crypto::wipe(&mut self.seed);
    }
}

impl Drop for StaticSecret {
    fn drop(&mut self)
        opens_invariants none
        no_unwind
    {
        crypto::wipe(&mut self.bytes);
    }
}

} // verus!
