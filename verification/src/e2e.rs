//! Application-level end-to-end encryption, for exactly one job: a message that
//! must sit on the hub while the recipient is offline.
//!
//! The rule that matters: a prekey is only usable after its signature has been
//! checked against the recipient's endpoint id. [`SignedPrekey::verify`] is the
//! only way to obtain the [`VerifiedPrekey`] that [`seal`] demands, and it takes
//! the expected owner as an argument rather than trusting the `owner` field it
//! was handed.

use crate::keys::{SigningKey, StaticSecret};
use crate::{bytes, codec, crypto, vault};
use vstd::prelude::*;

pub mod mailbox_auth;

verus! {

/// Why a prekey, an envelope or a mailbox request was refused.
#[derive(Clone, Copy, Debug, PartialEq, Eq, Structural)]
pub enum E2eError {
    /// The prekey names another owner than the one expected.
    OtherOwner,
    /// A prekey signature is not 64 bytes long.
    PrekeySignatureLength,
    /// The expected owner is not a public key.
    EndpointInvalid,
    /// The prekey is not signed by its owner.
    PrekeyForged,
    /// The agreement with the prekey gives nothing secret.
    SmallOrderPrekey,
    /// The system's random generator gave nothing.
    RngUnavailable,
    /// The plaintext is longer than the cipher takes.
    SealingFailed,
    /// An envelope signature is not 64 bytes long.
    EnvelopeSignatureLength,
    /// The sender that an envelope names is not a public key.
    SenderInvalid,
    /// The envelope is not signed by the sender it names.
    EnvelopeForged,
    /// The envelope names another recipient.
    AddressedElsewhere,
    /// The envelope was sealed to another prekey.
    PrekeyGone,
    /// The agreement with the envelope's ephemeral key gives nothing secret.
    SmallOrderEphemeral,
    /// The ciphertext does not open.
    NotDecrypted,
    /// A request's timestamp is too far from the clock.
    OutsideWindow,
    /// A request's signature is not 64 bytes long.
    AuthSignatureLength,
    /// A request's signature is not by that endpoint.
    AuthMismatch,
}

impl E2eError {
    /// The text of the error.
    pub open spec fn text(self) -> Seq<char> {
        match self {
            E2eError::OtherOwner => "the hub returned a prekey for a different endpoint"@,
            E2eError::PrekeySignatureLength => "prekey signature is not 64 bytes"@,
            E2eError::EndpointInvalid => "that endpoint id is not a valid Ed25519 key"@,
            E2eError::PrekeyForged => "prekey is not signed by that endpoint — refusing to use it"@,
            E2eError::SmallOrderPrekey => "recipient prekey is a small-order point"@,
            E2eError::RngUnavailable => "system rng unavailable"@,
            E2eError::SealingFailed => "sealing failed"@,
            E2eError::EnvelopeSignatureLength => "envelope signature is not 64 bytes"@,
            E2eError::SenderInvalid => "envelope sender is not a valid Ed25519 key"@,
            E2eError::EnvelopeForged => "envelope is not signed by the sender it names"@,
            E2eError::AddressedElsewhere => "envelope is addressed elsewhere"@,
            E2eError::PrekeyGone => "envelope was sealed to a prekey this endpoint no longer holds"@,
            E2eError::SmallOrderEphemeral => "envelope carries a small-order ephemeral key"@,
            E2eError::NotDecrypted => "envelope did not decrypt"@,
            E2eError::OutsideWindow => "request timestamp is outside the 300000ms window"@,
            E2eError::AuthSignatureLength => "auth signature is not 64 bytes"@,
            E2eError::AuthMismatch => "auth signature does not match that endpoint"@,
        }
    }

    /// Computes [`E2eError::text`].
    pub fn message(&self) -> (r: String)
        ensures
            r@ == self.text(),
    {
        (match self {
            E2eError::OtherOwner => "the hub returned a prekey for a different endpoint",
            E2eError::PrekeySignatureLength => "prekey signature is not 64 bytes",
            E2eError::EndpointInvalid => "that endpoint id is not a valid Ed25519 key",
            E2eError::PrekeyForged => "prekey is not signed by that endpoint — refusing to use it",
            E2eError::SmallOrderPrekey => "recipient prekey is a small-order point",
            E2eError::RngUnavailable => "system rng unavailable",
            E2eError::SealingFailed => "sealing failed",
            E2eError::EnvelopeSignatureLength => "envelope signature is not 64 bytes",
            E2eError::SenderInvalid => "envelope sender is not a valid Ed25519 key",
            E2eError::EnvelopeForged => "envelope is not signed by the sender it names",
            E2eError::AddressedElsewhere => "envelope is addressed elsewhere",
            E2eError::PrekeyGone => "envelope was sealed to a prekey this endpoint no longer holds",
            E2eError::SmallOrderEphemeral => "envelope carries a small-order ephemeral key",
            E2eError::NotDecrypted => "envelope did not decrypt",
            E2eError::OutsideWindow => "request timestamp is outside the 300000ms window",
            E2eError::AuthSignatureLength => "auth signature is not 64 bytes",
            E2eError::AuthMismatch => "auth signature does not match that endpoint",
        }).to_owned()
    }
}

/// An X25519 prekey, signed by the Ed25519 identity that owns it. Published to
/// the hub so a sender can encrypt to someone who is not online.
#[derive(Debug, PartialEq, Eq)]
pub struct SignedPrekey {
    /// Who claims to own this. Never trusted: [`SignedPrekey::verify`] takes the
    /// owner you already know and checks against that.
    pub owner: [u8; 32],
    pub prekey: [u8; 32],
    pub created_ms: u64,
    /// Ed25519, 64 bytes.
    pub signature: Vec<u8>,
}

/// A signed prekey as mathematical values.
#[verifier::ext_equal]
pub struct PrekeyView {
    pub owner: [u8; 32],
    pub prekey: [u8; 32],
    pub created_ms: u64,
    pub signature: Seq<u8>,
}

impl View for SignedPrekey {
    type V = PrekeyView;

    open spec fn view(&self) -> PrekeyView {
        PrekeyView {
            owner: self.owner,
            prekey: self.prekey,
            created_ms: self.created_ms,
            signature: self.signature@,
        }
    }
}

impl Clone for SignedPrekey {
    fn clone(&self) -> (r: Self)
        ensures
            r@ == self@,
    {
        SignedPrekey {
            owner: self.owner,
            prekey: self.prekey,
            created_ms: self.created_ms,
            signature: self.signature.clone(),
        }
    }
}

/// What a prekey's owner signs.
pub open spec fn prekey_bytes(owner: Seq<u8>, prekey: Seq<u8>, created_ms: u64) -> Seq<u8> {
    vstd::utf8::encode_utf8("wicara prekey signature v1"@) + owner + prekey + bytes::le64(created_ms)
}

/// Why a prekey is refused for an owner; `None` where it is sound.
pub open spec fn prekey_fault(p: PrekeyView, expected: [u8; 32]) -> Option<E2eError> {
    if p.owner != expected {
        Some(E2eError::OtherOwner)
    } else if p.signature.len() != 64 {
        Some(E2eError::PrekeySignatureLength)
    } else if !crypto::ed25519_key_valid(expected@) {
        Some(E2eError::EndpointInvalid)
    } else if !crypto::ed25519_accepts(
        expected@,
        prekey_bytes(expected@, p.prekey@, p.created_ms),
        p.signature,
    ) {
        Some(E2eError::PrekeyForged)
    } else {
        None
    }
}

/// A verified X25519 prekey. The only way to get one is [`SignedPrekey::verify`],
/// and [`seal`] takes nothing else, so an unverified prekey cannot be used.
#[derive(Clone, Copy, Debug)]
pub struct VerifiedPrekey {
    owner: [u8; 32],
    key: [u8; 32],
}

/// Whether `owner` has signed `key` as a prekey of theirs.
pub open spec fn vouched(owner: [u8; 32], key: [u8; 32]) -> bool {
    exists|p: PrekeyView| p.prekey == key && #[trigger] prekey_fault(p, owner) is None
}

impl VerifiedPrekey {
    /// Whose prekey this is.
    pub closed spec fn owner(&self) -> [u8; 32] {
        self.owner
    }

    /// The X25519 public key.
    pub closed spec fn key(&self) -> [u8; 32] {
        self.key
    }

    #[verifier::type_invariant]
    spec fn signed_by_owner(self) -> bool {
        vouched(self.owner, self.key)
    }
}

impl SignedPrekey {
    /// Signs the public half of `prekey` with `identity`. The result verifies
    /// for its owner if the signature commits to a point other than the neutral
    /// one.
    pub fn new(identity: &SigningKey, prekey: &StaticSecret, created_ms: u64) -> (r: SignedPrekey)
        ensures
            r.owner@ == identity.public(),
            r.prekey@ == prekey.public(),
            r.created_ms == created_ms,
            r.signature@ == crypto::ed25519_signature(
                identity@,
                prekey_bytes(identity.public(), prekey.public(), created_ms),
            ),
            crypto::committed(r.signature@) ==> prekey_fault(r@, r.owner) is None,
    {
        let owner = identity.verifying_key().to_bytes();
        let prekey = prekey.public_key();
        let signature = identity.sign(&prekey_transcript(&owner, &prekey, created_ms));
        SignedPrekey { owner, prekey, created_ms, signature }
    }

    /// Checks the signature against the endpoint id you already have: from the
    /// contact you pasted, never from the hub's copy of `owner`.
    pub fn verify(&self, expected_owner: &[u8; 32]) -> (r: Result<VerifiedPrekey, E2eError>)
        ensures
            match prekey_fault(self@, *expected_owner) {
                None => r is Ok && r->Ok_0.owner() == *expected_owner && r->Ok_0.key() == self.prekey,
                Some(e) => r is Err && r->Err_0 == e,
            },
    {
        if !bytes::same32(&self.owner, expected_owner) {
            return Err(E2eError::OtherOwner);
        }
        if self.signature.len() != 64 {
            return Err(E2eError::PrekeySignatureLength);
        }
        if !crypto::key_valid(expected_owner) {
            return Err(E2eError::EndpointInvalid);
        }
        let transcript = prekey_transcript(expected_owner, &self.prekey, self.created_ms);
        if !crypto::accepts(expected_owner, &transcript, &self.signature) {
            return Err(E2eError::PrekeyForged);
        }
        assert(prekey_fault(self@, *expected_owner) is None);
        Ok(VerifiedPrekey { owner: *expected_owner, key: self.prekey })
    }
}

/// Computes [`prekey_bytes`].
pub fn prekey_transcript(owner: &[u8; 32], prekey: &[u8; 32], created_ms: u64) -> (t: Vec<u8>)
    ensures
        t@ == prekey_bytes(owner@, prekey@, created_ms),
{
    let mut t: Vec<u8> = vstd::slice::slice_to_vec("wicara prekey signature v1".as_bytes());
    t.extend_from_slice(owner);
    t.extend_from_slice(prekey);
    t.extend_from_slice(&vstd::bytes::u64_to_le_bytes(created_ms));
    t
}

/// One sealed message, as it sits in the hub's mailbox. Everything outside
/// `ciphertext` is metadata the hub can see anyway.
#[derive(Debug, PartialEq, Eq)]
pub struct Envelope {
    pub sender: [u8; 32],
    pub recipient: [u8; 32],
    /// The sender's throwaway X25519 key for this one message. Discarding its
    /// secret is what gives sender-side forward secrecy.
    pub ephemeral: [u8; 32],
    /// Which of the recipient's prekeys this was sealed to.
    pub prekey: [u8; 32],
    pub nonce: [u8; 24],
    pub ciphertext: Vec<u8>,
    /// Ed25519 by `sender` over everything above. Without it anyone could drop
    /// a message in your mailbox wearing someone else's name.
    pub signature: Vec<u8>,
}

/// An envelope as mathematical values.
#[verifier::ext_equal]
pub struct EnvelopeView {
    pub sender: [u8; 32],
    pub recipient: [u8; 32],
    pub ephemeral: [u8; 32],
    pub prekey: [u8; 32],
    pub nonce: [u8; 24],
    pub ciphertext: Seq<u8>,
    pub signature: Seq<u8>,
}

impl View for Envelope {
    type V = EnvelopeView;

    open spec fn view(&self) -> EnvelopeView {
        EnvelopeView {
            sender: self.sender,
            recipient: self.recipient,
            ephemeral: self.ephemeral,
            prekey: self.prekey,
            nonce: self.nonce,
            ciphertext: self.ciphertext@,
            signature: self.signature@,
        }
    }
}

impl Clone for Envelope {
    fn clone(&self) -> (r: Self)
        ensures
            r@ == self@,
    {
        Envelope {
            sender: self.sender,
            recipient: self.recipient,
            ephemeral: self.ephemeral,
            prekey: self.prekey,
            nonce: self.nonce,
            ciphertext: self.ciphertext.clone(),
            signature: self.signature.clone(),
        }
    }
}

/// The four keys that a message is bound to.
pub open spec fn bound(
    sender: Seq<u8>,
    recipient: Seq<u8>,
    ephemeral: Seq<u8>,
    prekey: Seq<u8>,
) -> Seq<u8> {
    sender + recipient + ephemeral + prekey
}

/// What an envelope's sender signs.
pub open spec fn envelope_bytes(binding: Seq<u8>, nonce: Seq<u8>, ciphertext: Seq<u8>) -> Seq<u8> {
    vstd::utf8::encode_utf8("wicara envelope signature v1"@) + binding + nonce + ciphertext
}

/// The key that a message is sealed under.
pub open spec fn message_key(shared: Seq<u8>, binding: Seq<u8>) -> Seq<u8> {
    crypto::blake3_derived("wicara envelope key v1"@, shared + binding)
}

impl EnvelopeView {
    /// The four keys of this envelope.
    pub open spec fn binding(self) -> Seq<u8> {
        bound(self.sender@, self.recipient@, self.ephemeral@, self.prekey@)
    }

    /// Why the signature is refused; `None` where the sender really signed this.
    pub open spec fn signature_fault(self) -> Option<E2eError> {
        if self.signature.len() != 64 {
            Some(E2eError::EnvelopeSignatureLength)
        } else if !crypto::ed25519_key_valid(self.sender@) {
            Some(E2eError::SenderInvalid)
        } else if !crypto::ed25519_accepts(
            self.sender@,
            envelope_bytes(self.binding(), self.nonce@, self.ciphertext),
            self.signature,
        ) {
            Some(E2eError::EnvelopeForged)
        } else {
            None
        }
    }

    /// What the holder of the prekey `secret`, known as `me`, reads in this
    /// envelope.
    pub open spec fn opened(self, secret: Seq<u8>, me: [u8; 32]) -> Result<Seq<u8>, E2eError> {
        let shared = crypto::x25519_shared(secret, self.ephemeral@);
        if self.recipient != me {
            Err(E2eError::AddressedElsewhere)
        } else if self.prekey@ != crypto::x25519_public(secret) {
            Err(E2eError::PrekeyGone)
        } else if self.signature_fault() is Some {
            Err(self.signature_fault()->0)
        } else if bytes::all_zero(shared) {
            Err(E2eError::SmallOrderEphemeral)
        } else if !crypto::openable(self.ciphertext.len() as int) {
            Err(E2eError::NotDecrypted)
        } else {
            match crypto::xchacha_opened(
                message_key(shared, self.binding()),
                self.nonce@,
                self.binding(),
                self.ciphertext,
            ) {
                Some(plaintext) => Ok(plaintext),
                None => Err(E2eError::NotDecrypted),
            }
        }
    }
}

/// Binds the message to this sender, this recipient and this key pair. Used as
/// associated data, so a re-addressed envelope fails to decrypt.
pub fn binding(sender: &[u8; 32], recipient: &[u8; 32], ephemeral: &[u8; 32], prekey: &[u8; 32]) -> (b: Vec<u8>)
    ensures
        b@ == bound(sender@, recipient@, ephemeral@, prekey@),
        b@.len() == 128,
{
    let mut b: Vec<u8> = vstd::slice::slice_to_vec(sender);
    b.extend_from_slice(recipient);
    b.extend_from_slice(ephemeral);
    b.extend_from_slice(prekey);
    b
}

/// Computes [`envelope_bytes`].
pub fn envelope_transcript(binding: &[u8], nonce: &[u8; 24], ciphertext: &[u8]) -> (t: Vec<u8>)
    ensures
        t@ == envelope_bytes(binding@, nonce@, ciphertext@),
{
    let mut t: Vec<u8> = vstd::slice::slice_to_vec("wicara envelope signature v1".as_bytes());
    t.extend_from_slice(binding);
    t.extend_from_slice(nonce);
    t.extend_from_slice(ciphertext);
    t
}

/// Computes [`message_key`].
fn envelope_key(shared: &[u8; 32], binding: &[u8]) -> (key: [u8; 32])
    ensures
        key@ == message_key(shared@, binding@),
{
    let mut material: Vec<u8> = vstd::slice::slice_to_vec(shared);
    material.extend_from_slice(binding);
    assert(material@ =~= shared@ + binding@);
    crypto::derive_key("wicara envelope key v1", &material)
}

/// Why a message cannot be sealed; `None` where it can.
pub open spec fn sealing_fault(ephemeral: Seq<u8>, prekey: Seq<u8>, len: int) -> Option<E2eError> {
    if bytes::all_zero(crypto::x25519_shared(ephemeral, prekey)) {
        Some(E2eError::SmallOrderPrekey)
    } else if !crypto::sealable(len) {
        Some(E2eError::SealingFailed)
    } else {
        None
    }
}

/// Whether `e` is what `identity` makes of `plaintext` for the owner of a
/// prekey, with this ephemeral secret.
pub open spec fn seals(
    e: EnvelopeView,
    identity: Seq<u8>,
    owner: [u8; 32],
    prekey: [u8; 32],
    ephemeral: Seq<u8>,
    plaintext: Seq<u8>,
) -> bool {
    &&& e.sender@ == crypto::ed25519_public(identity)
    &&& e.recipient == owner
    &&& e.ephemeral@ == crypto::x25519_public(ephemeral)
    &&& e.prekey == prekey
    &&& e.ciphertext == crypto::xchacha_sealed(
        message_key(crypto::x25519_shared(ephemeral, prekey@), e.binding()),
        e.nonce@,
        e.binding(),
        plaintext,
    )
    &&& e.signature == crypto::ed25519_signature(
        identity,
        envelope_bytes(e.binding(), e.nonce@, e.ciphertext),
    )
}

/// Whether everyone who holds the secret of the prekey reads `plaintext` in
/// `e`, and reads it as the sender's.
pub open spec fn readable(e: EnvelopeView, plaintext: Seq<u8>) -> bool {
    &&& e.signature_fault() is None
    &&& forall|secret: Seq<u8>|
        secret.len() == 32 && #[trigger] crypto::x25519_public(secret) == e.prekey@
            ==> e.opened(secret, e.recipient) == Ok::<Seq<u8>, E2eError>(plaintext)
}

/// Seals `plaintext` to a verified prekey with a given ephemeral secret and
/// nonce.
pub fn seal_with(
    identity: &SigningKey,
    to: &VerifiedPrekey,
    plaintext: &[u8],
    ephemeral: &StaticSecret,
    nonce: &[u8; 24],
) -> (r: Result<Envelope, E2eError>)
    ensures
        vouched(to.owner(), to.key()),
        match sealing_fault(ephemeral@, to.key()@, plaintext@.len() as int) {
            None => {
                &&& r is Ok
                &&& r->Ok_0.nonce == *nonce
                &&& r->Ok_0.ciphertext@.len() == plaintext@.len() + 16
                &&& seals(r->Ok_0@, identity@, to.owner(), to.key(), ephemeral@, plaintext@)
                &&& crypto::committed(r->Ok_0.signature@) ==> readable(r->Ok_0@, plaintext@)
            },
            Some(e) => r is Err && r->Err_0 == e,
        },
{
    proof {
        use_type_invariant(to);
    }
    let sender = identity.verifying_key().to_bytes();
    let public = ephemeral.public_key();
    let shared = ephemeral.diffie_hellman(&to.key);
    if bytes::is_zero(&shared) {
        return Err(E2eError::SmallOrderPrekey);
    }
    if !crypto::is_sealable(plaintext.len()) {
        return Err(E2eError::SealingFailed);
    }
    let bound = binding(&sender, &to.owner, &public, &to.key);
    let ciphertext = crypto::seal(&envelope_key(&shared, &bound), nonce, &bound, plaintext);
    let signature = identity.sign(&envelope_transcript(&bound, nonce, &ciphertext));
    Ok(
        Envelope {
            sender,
            recipient: to.owner,
            ephemeral: public,
            prekey: to.key,
            nonce: *nonce,
            ciphertext,
            signature,
        },
    )
}

/// Seals `plaintext` to a prekey that has already been verified.
///
/// A fresh ephemeral key pair per message means the sender holds nothing that
/// could decrypt it afterwards. The recipient's prekey is long-lived, so this is
/// forward secrecy on the sender's side only.
pub fn seal(identity: &SigningKey, to: &VerifiedPrekey, plaintext: &[u8]) -> (r: Result<Envelope, E2eError>)
    ensures
        vouched(to.owner(), to.key()),
        r is Ok ==> exists|ephemeral: Seq<u8>|
            {
                &&& #[trigger] sealing_fault(ephemeral, to.key()@, plaintext@.len() as int) is None
                &&& seals(r->Ok_0@, identity@, to.owner(), to.key(), ephemeral, plaintext@)
            },
        r is Ok ==> r->Ok_0.ciphertext@.len() == plaintext@.len() + 16,
        r is Ok && crypto::committed(r->Ok_0.signature@) ==> readable(r->Ok_0@, plaintext@),
        r is Err ==> r->Err_0 == E2eError::RngUnavailable || exists|ephemeral: Seq<u8>|
            #[trigger] sealing_fault(ephemeral, to.key()@, plaintext@.len() as int) == Some(r->Err_0),
{
    proof {
        use_type_invariant(to);
    }
    let secret: [u8; 32] = match vault::random::<32>() {
        Ok(secret) => secret,
        Err(_) => return Err(E2eError::RngUnavailable),
    };
    let nonce: [u8; 24] = match vault::random::<24>() {
        Ok(nonce) => nonce,
        Err(_) => return Err(E2eError::RngUnavailable),
    };
    let ephemeral = StaticSecret::from(secret);
    let r = seal_with(identity, to, plaintext, &ephemeral, &nonce);
    assert(sealing_fault(ephemeral@, to.key()@, plaintext@.len() as int) is None || r is Err);
    r
}

/// Checks that an envelope really was signed by the endpoint it names.
///
/// Separate from [`open`] because the hub needs exactly this and nothing more:
/// it cannot decrypt, but it must not let one sender fill another's quota, or
/// let anyone leave mail wearing a name that is not theirs.
pub fn verify_envelope_signature(envelope: &Envelope) -> (r: Result<(), E2eError>)
    ensures
        match envelope@.signature_fault() {
            None => r is Ok,
            Some(e) => r is Err && r->Err_0 == e,
        },
{
    let bound = binding(&envelope.sender, &envelope.recipient, &envelope.ephemeral, &envelope.prekey);
    if envelope.signature.len() != 64 {
        return Err(E2eError::EnvelopeSignatureLength);
    }
    if !crypto::key_valid(&envelope.sender) {
        return Err(E2eError::SenderInvalid);
    }
    let transcript = envelope_transcript(&bound, &envelope.nonce, &envelope.ciphertext);
    if !crypto::accepts(&envelope.sender, &transcript, &envelope.signature) {
        return Err(E2eError::EnvelopeForged);
    }
    Ok(())
}

/// Opens an envelope addressed to `me`, returning the authenticated sender.
///
/// The sender's signature is checked before anything is decrypted, so a
/// plaintext that comes out of here really was written by `Envelope::sender`.
pub fn open(envelope: &Envelope, my_prekey: &StaticSecret, me: &[u8; 32]) -> (r: Result<(Vec<u8>, [u8; 32]), E2eError>)
    ensures
        match envelope@.opened(my_prekey@, *me) {
            Ok(plaintext) => {
                &&& r is Ok
                &&& r->Ok_0.0@ == plaintext
                &&& r->Ok_0.1 == envelope.sender
                &&& envelope@.signature_fault() is None
            },
            Err(e) => r is Err && r->Err_0 == e,
        },
{
    if !bytes::same32(&envelope.recipient, me) {
        return Err(E2eError::AddressedElsewhere);
    }
    let mine = my_prekey.public_key();
    if !bytes::same32(&envelope.prekey, &mine) {
        proof {
            if envelope.prekey@ == mine@ {
                bytes::lemma_array_eq(envelope.prekey, mine);
            }
        }
        return Err(E2eError::PrekeyGone);
    }
    match verify_envelope_signature(envelope) {
        Ok(_) => {},
        Err(e) => return Err(e),
    }
    let bound = binding(&envelope.sender, &envelope.recipient, &envelope.ephemeral, &envelope.prekey);
    let shared = my_prekey.diffie_hellman(&envelope.ephemeral);
    if bytes::is_zero(&shared) {
        return Err(E2eError::SmallOrderEphemeral);
    }
    if !crypto::is_openable(envelope.ciphertext.len()) {
        return Err(E2eError::NotDecrypted);
    }
    match crypto::unseal(&envelope_key(&shared, &bound), &envelope.nonce, &bound, &envelope.ciphertext) {
        Some(plaintext) => Ok((plaintext, envelope.sender)),
        None => Err(E2eError::NotDecrypted),
    }
}

impl PrekeyView {
    /// The bytes of a signed prekey.
    pub open spec fn encoded(self) -> Seq<u8> {
        self.owner@ + self.prekey@ + codec::varint(self.created_ms as nat) + codec::blob(self.signature)
    }
}

/// Reads a signed prekey.
pub open spec fn read_prekey(b: Seq<u8>) -> Option<(PrekeyView, Seq<u8>)> {
    match codec::read_array::<32>(b) {
        Some((owner, rest)) => match codec::read_array::<32>(rest) {
            Some((prekey, rest)) => match codec::read_u64(rest) {
                Some((created_ms, rest)) => match codec::read_blob(rest) {
                    Some((signature, rest)) => Some(
                        (PrekeyView { owner, prekey, created_ms: created_ms as u64, signature }, rest),
                    ),
                    None => None,
                },
                None => None,
            },
            None => None,
        },
        None => None,
    }
}

/// A signed prekey is read back.
pub proof fn lemma_prekey_roundtrip(p: PrekeyView, rest: Seq<u8>)
    requires
        p.signature.len() <= usize::MAX,
    ensures
        read_prekey(p.encoded() + rest) == Some((p, rest)),
{
    let r3 = codec::blob(p.signature) + rest;
    let r2 = codec::varint(p.created_ms as nat) + r3;
    let r1 = p.prekey@ + r2;
    assert(p.encoded() + rest =~= p.owner@ + r1);
    codec::lemma_array_roundtrip(p.owner, r1);
    codec::lemma_array_roundtrip(p.prekey, r2);
    codec::lemma_u64_roundtrip(p.created_ms, r3);
    codec::lemma_blob_roundtrip(p.signature, rest);
}

impl SignedPrekey {
    /// Computes [`PrekeyView::encoded`]; [`SignedPrekey::decode`] reads it back.
    pub fn encode(&self) -> (r: Vec<u8>)
        ensures
            r@ == self@.encoded(),
            read_prekey(r@) == Some((self@, Seq::<u8>::empty())),
    {
        let mut out: Vec<u8> = vstd::slice::slice_to_vec(&self.owner);
        out.extend_from_slice(&self.prekey);
        out.extend_from_slice(&codec::write_u64(self.created_ms));
        out.extend_from_slice(&codec::write_blob(&self.signature));
        proof {
            assert(self.signature@.len() == self.signature.len());
            lemma_prekey_roundtrip(self@, Seq::empty());
            assert(out@ + Seq::<u8>::empty() =~= out@);
        }
        out
    }

    /// The signed prekey that bytes start with. What follows is passed over.
    pub fn decode(b: &[u8]) -> (r: Option<SignedPrekey>)
        ensures
            match read_prekey(b@) {
                Some((p, _)) => r is Some && r->0@ == p,
                None => r is None,
            },
    {
        let (owner, rest) = match codec::take_array::<32>(b) {
            Some(x) => x,
            None => return None,
        };
        let (prekey, rest) = match codec::take_array::<32>(rest) {
            Some(x) => x,
            None => return None,
        };
        let (created_ms, rest) = match codec::take_u64(rest) {
            Some(x) => x,
            None => return None,
        };
        match codec::take_blob(rest) {
            Some((signature, _)) => Some(SignedPrekey { owner, prekey, created_ms, signature }),
            None => None,
        }
    }
}

impl EnvelopeView {
    /// The bytes of an envelope.
    pub open spec fn encoded(self) -> Seq<u8> {
        self.sender@ + self.recipient@ + self.ephemeral@ + self.prekey@ + self.nonce@ + codec::blob(
            self.ciphertext,
        ) + codec::blob(self.signature)
    }

    /// Whether the envelope's lengths fit in a machine's address space.
    pub open spec fn fits(self) -> bool {
        self.ciphertext.len() <= usize::MAX && self.signature.len() <= usize::MAX
    }
}

/// Reads an envelope.
pub open spec fn read_envelope(b: Seq<u8>) -> Option<(EnvelopeView, Seq<u8>)> {
    match codec::read_array::<32>(b) {
        Some((sender, rest)) => match codec::read_array::<32>(rest) {
            Some((recipient, rest)) => match codec::read_array::<32>(rest) {
                Some((ephemeral, rest)) => match codec::read_array::<32>(rest) {
                    Some((prekey, rest)) => match codec::read_array::<24>(rest) {
                        Some((nonce, rest)) => match codec::read_blob(rest) {
                            Some((ciphertext, rest)) => match codec::read_blob(rest) {
                                Some((signature, rest)) => Some(
                                    (
                                        EnvelopeView {
                                            sender,
                                            recipient,
                                            ephemeral,
                                            prekey,
                                            nonce,
                                            ciphertext,
                                            signature,
                                        },
                                        rest,
                                    ),
                                ),
                                None => None,
                            },
                            None => None,
                        },
                        None => None,
                    },
                    None => None,
                },
                None => None,
            },
            None => None,
        },
        None => None,
    }
}

/// An envelope is read back.
pub proof fn lemma_envelope_roundtrip(e: EnvelopeView, rest: Seq<u8>)
    requires
        e.fits(),
    ensures
        read_envelope(e.encoded() + rest) == Some((e, rest)),
{
    let r6 = codec::blob(e.signature) + rest;
    let r5 = codec::blob(e.ciphertext) + r6;
    let r4 = e.nonce@ + r5;
    let r3 = e.prekey@ + r4;
    let r2 = e.ephemeral@ + r3;
    let r1 = e.recipient@ + r2;
    assert(e.encoded() + rest =~= e.sender@ + r1);
    codec::lemma_array_roundtrip(e.sender, r1);
    codec::lemma_array_roundtrip(e.recipient, r2);
    codec::lemma_array_roundtrip(e.ephemeral, r3);
    codec::lemma_array_roundtrip(e.prekey, r4);
    codec::lemma_array_roundtrip(e.nonce, r5);
    codec::lemma_blob_roundtrip(e.ciphertext, r6);
    codec::lemma_blob_roundtrip(e.signature, rest);
}

impl Envelope {
    /// Computes [`EnvelopeView::encoded`]; [`Envelope::decode`] reads it back.
    pub fn encode(&self) -> (r: Vec<u8>)
        ensures
            r@ == self@.encoded(),
            read_envelope(r@) == Some((self@, Seq::<u8>::empty())),
    {
        let mut out: Vec<u8> = vstd::slice::slice_to_vec(&self.sender);
        out.extend_from_slice(&self.recipient);
        out.extend_from_slice(&self.ephemeral);
        out.extend_from_slice(&self.prekey);
        out.extend_from_slice(&self.nonce);
        out.extend_from_slice(&codec::write_blob(&self.ciphertext));
        out.extend_from_slice(&codec::write_blob(&self.signature));
        proof {
            assert(self.signature@.len() == self.signature.len());
            assert(self.ciphertext@.len() == self.ciphertext.len());
            lemma_envelope_roundtrip(self@, Seq::empty());
            assert(out@ + Seq::<u8>::empty() =~= out@);
        }
        out
    }

    /// The envelope that bytes start with. What follows is passed over.
    pub fn decode(b: &[u8]) -> (r: Option<Envelope>)
        ensures
            match read_envelope(b@) {
                Some((e, _)) => r is Some && r->0@ == e,
                None => r is None,
            },
    {
        match Envelope::take(b) {
            Some((e, _)) => Some(e),
            None => None,
        }
    }

    /// Computes [`read_envelope`].
    pub(crate) fn take(b: &[u8]) -> (r: Option<(Envelope, &[u8])>)
        ensures
            r is Some <==> read_envelope(b@) is Some,
            r is Some ==> read_envelope(b@) == Some(((r->0).0@, (r->0).1@)),
    {
        let (sender, rest) = match codec::take_array::<32>(b) {
            Some(x) => x,
            None => return None,
        };
        let (recipient, rest) = match codec::take_array::<32>(rest) {
            Some(x) => x,
            None => return None,
        };
        let (ephemeral, rest) = match codec::take_array::<32>(rest) {
            Some(x) => x,
            None => return None,
        };
        let (prekey, rest) = match codec::take_array::<32>(rest) {
            Some(x) => x,
            None => return None,
        };
        let (nonce, rest) = match codec::take_array::<24>(rest) {
            Some(x) => x,
            None => return None,
        };
        let (ciphertext, rest) = match codec::take_blob(rest) {
            Some(x) => x,
            None => return None,
        };
        let (signature, rest) = match codec::take_blob(rest) {
            Some(x) => x,
            None => return None,
        };
        Some((Envelope { sender, recipient, ephemeral, prekey, nonce, ciphertext, signature }, rest))
    }
}

/// A fresh ephemeral key makes another envelope of the same text: the key is in
/// the envelope, and in what binds the ciphertext.
pub proof fn law_fresh_keys_make_fresh_envelopes(
    e: EnvelopeView,
    f: EnvelopeView,
    identity: Seq<u8>,
    owner: [u8; 32],
    prekey: [u8; 32],
    ephemeral: Seq<u8>,
    other: Seq<u8>,
    plaintext: Seq<u8>,
)
    requires
        seals(e, identity, owner, prekey, ephemeral, plaintext),
        seals(f, identity, owner, prekey, other, plaintext),
        crypto::x25519_public(ephemeral) != crypto::x25519_public(other),
    ensures
        e.ephemeral != f.ephemeral,
        e.binding() != f.binding(),
        e.sender == f.sender,
        e.recipient == f.recipient,
        e.prekey == f.prekey,
{
    assert(e.binding().subrange(64, 96) =~= e.ephemeral@);
    assert(f.binding().subrange(64, 96) =~= f.ephemeral@);
    bytes::lemma_array_eq(e.sender, f.sender);
}

/// Mail that opens is authentic: it was addressed to whoever opens it, sealed to
/// their prekey, and signed by the sender it names over all that it says.
pub proof fn law_opened_mail_is_authentic(e: EnvelopeView, secret: Seq<u8>, me: [u8; 32])
    requires
        e.opened(secret, me) is Ok,
    ensures
        e.recipient == me,
        e.prekey@ == crypto::x25519_public(secret),
        crypto::ed25519_accepts(
            e.sender@,
            envelope_bytes(e.binding(), e.nonce@, e.ciphertext),
            e.signature,
        ),
{
}

/// What binds an envelope tells its four keys apart: another sender, recipient,
/// ephemeral key or prekey makes another binding.
pub proof fn law_bindings_hold_every_key(
    a: (Seq<u8>, Seq<u8>, Seq<u8>, Seq<u8>),
    b: (Seq<u8>, Seq<u8>, Seq<u8>, Seq<u8>),
)
    requires
        a.0.len() == 32 && a.1.len() == 32 && a.2.len() == 32 && a.3.len() == 32,
        b.0.len() == 32 && b.1.len() == 32 && b.2.len() == 32 && b.3.len() == 32,
        bound(a.0, a.1, a.2, a.3) == bound(b.0, b.1, b.2, b.3),
    ensures
        a == b,
{
    let x = bound(a.0, a.1, a.2, a.3);
    let y = bound(b.0, b.1, b.2, b.3);
    assert(x.subrange(0, 32) =~= a.0 && y.subrange(0, 32) =~= b.0);
    assert(x.subrange(32, 64) =~= a.1 && y.subrange(32, 64) =~= b.1);
    assert(x.subrange(64, 96) =~= a.2 && y.subrange(64, 96) =~= b.2);
    assert(x.subrange(96, 128) =~= a.3 && y.subrange(96, 128) =~= b.3);
}

/// The signature of a prekey covers its owner, the key and the time; that of an
/// envelope covers the binding, the nonce and all of the ciphertext.
pub proof fn law_signatures_cover_everything(
    owner: (Seq<u8>, Seq<u8>),
    prekey: (Seq<u8>, Seq<u8>),
    created_ms: (u64, u64),
    binding: (Seq<u8>, Seq<u8>),
    nonce: (Seq<u8>, Seq<u8>),
    ciphertext: (Seq<u8>, Seq<u8>),
)
    requires
        owner.0.len() == 32 && owner.1.len() == 32 && prekey.0.len() == 32 && prekey.1.len() == 32,
        binding.0.len() == 128 && binding.1.len() == 128 && nonce.0.len() == 24 && nonce.1.len() == 24,
    ensures
        prekey_bytes(owner.0, prekey.0, created_ms.0) == prekey_bytes(owner.1, prekey.1, created_ms.1) ==> owner.0
            == owner.1 && prekey.0 == prekey.1 && created_ms.0 == created_ms.1,
        envelope_bytes(binding.0, nonce.0, ciphertext.0) == envelope_bytes(binding.1, nonce.1, ciphertext.1)
            ==> binding.0 == binding.1 && nonce.0 == nonce.1 && ciphertext.0 == ciphertext.1,
{
    vstd::bytes::lemma_auto_spec_u64_to_from_le_bytes();
    let p = prekey_bytes(owner.0, prekey.0, created_ms.0);
    let q = prekey_bytes(owner.1, prekey.1, created_ms.1);
    let n = vstd::utf8::encode_utf8("wicara prekey signature v1"@).len() as int;
    assert(p.subrange(n, n + 32) =~= owner.0 && q.subrange(n, n + 32) =~= owner.1);
    assert(p.subrange(n + 32, n + 64) =~= prekey.0 && q.subrange(n + 32, n + 64) =~= prekey.1);
    assert(p.subrange(n + 64, n + 72) =~= bytes::le64(created_ms.0));
    assert(q.subrange(n + 64, n + 72) =~= bytes::le64(created_ms.1));
    let x = envelope_bytes(binding.0, nonce.0, ciphertext.0);
    let y = envelope_bytes(binding.1, nonce.1, ciphertext.1);
    let m = vstd::utf8::encode_utf8("wicara envelope signature v1"@).len() as int;
    assert(x.subrange(m, m + 128) =~= binding.0 && y.subrange(m, m + 128) =~= binding.1);
    assert(x.subrange(m + 128, m + 152) =~= nonce.0 && y.subrange(m + 128, m + 152) =~= nonce.1);
    assert(x.skip(m + 152) =~= ciphertext.0 && y.skip(m + 152) =~= ciphertext.1);
}

/// What is signed for one purpose is never what is signed for another.
pub proof fn law_purposes_do_not_mix(
    owner: Seq<u8>,
    prekey: Seq<u8>,
    time: (u64, u64),
    binding: Seq<u8>,
    nonce: Seq<u8>,
    ciphertext: Seq<u8>,
    endpoint: Seq<u8>,
)
    ensures
        prekey_bytes(owner, prekey, time.0) != envelope_bytes(binding, nonce, ciphertext),
        prekey_bytes(owner, prekey, time.0) != mailbox_auth::auth_bytes(endpoint, time.1),
        envelope_bytes(binding, nonce, ciphertext) != mailbox_auth::auth_bytes(endpoint, time.1),
{
    reveal_strlit("wicara prekey signature v1");
    reveal_strlit("wicara envelope signature v1");
    reveal_strlit("wicara mailbox auth v1");
    let (p, e, a) = ("wicara prekey signature v1"@, "wicara envelope signature v1"@, "wicara mailbox auth v1"@);
    assert(vstd::utf8::is_ascii_chars(p) && vstd::utf8::is_ascii_chars(e) && vstd::utf8::is_ascii_chars(a));
    vstd::utf8::is_ascii_chars_encode_utf8(p);
    vstd::utf8::is_ascii_chars_encode_utf8(e);
    vstd::utf8::is_ascii_chars_encode_utf8(a);
    assert(prekey_bytes(owner, prekey, time.0)[7] == p[7] as u8);
    assert(envelope_bytes(binding, nonce, ciphertext)[7] == e[7] as u8);
    assert(mailbox_auth::auth_bytes(endpoint, time.1)[7] == a[7] as u8);
}

/// Anything of up to a gibibyte is sealed to a prekey, unless the agreement with
/// it comes to nothing.
pub proof fn law_sealing_has_one_fault(ephemeral: Seq<u8>, prekey: Seq<u8>, len: int)
    requires
        0 <= len <= 1_073_741_824,
    ensures
        sealing_fault(ephemeral, prekey, len) == (if exists|i: int|
            0 <= i < crypto::x25519_shared(ephemeral, prekey).len() && (#[trigger] crypto::x25519_shared(
                ephemeral,
                prekey,
            )[i]) != 0 {
            None::<E2eError>
        } else {
            Some(E2eError::SmallOrderPrekey)
        }),
{
}

/// An envelope opens just where it is addressed to this endpoint, sealed to the
/// prekey at hand, signed by the sender it names, and holds under the key that
/// both sides agree on, whatever its size up to a gibibyte.
pub proof fn law_envelopes_open_for_their_recipient(
    e: EnvelopeView,
    secret: Seq<u8>,
    me: [u8; 32],
    plaintext: Seq<u8>,
)
    requires
        e.ciphertext.len() <= 1_073_741_840,
    ensures
        ({
            let shared = crypto::x25519_shared(secret, e.ephemeral@);
            let binding = e.sender@ + e.recipient@ + e.ephemeral@ + e.prekey@;
            e.opened(secret, me) == Ok::<Seq<u8>, E2eError>(plaintext) <==> {
                &&& e.recipient == me
                &&& e.prekey@ == crypto::x25519_public(secret)
                &&& e.signature.len() == 64
                &&& crypto::ed25519_key_valid(e.sender@)
                &&& crypto::ed25519_accepts(
                    e.sender@,
                    vstd::utf8::encode_utf8("wicara envelope signature v1"@) + binding + e.nonce@ + e.ciphertext,
                    e.signature,
                )
                &&& exists|i: int| 0 <= i < shared.len() && (#[trigger] shared[i]) != 0
                &&& crypto::xchacha_opened(
                    crypto::blake3_derived("wicara envelope key v1"@, shared + binding),
                    e.nonce@,
                    binding,
                    e.ciphertext,
                ) == Some(plaintext)
            }
        }),
{
}

/// A prekey is used just where it is that of the endpoint that was asked for, and
/// that endpoint signed it.
pub proof fn law_prekeys_are_signed_by_their_owner(p: PrekeyView, expected: [u8; 32])
    ensures
        prekey_fault(p, expected) is None <==> {
            &&& p.owner == expected
            &&& p.signature.len() == 64
            &&& crypto::ed25519_key_valid(expected@)
            &&& crypto::ed25519_accepts(
                expected@,
                vstd::utf8::encode_utf8("wicara prekey signature v1"@) + expected@ + p.prekey@ + bytes::le64(
                    p.created_ms,
                ),
                p.signature,
            )
        },
        p.owner != expected ==> prekey_fault(p, expected) == Some(E2eError::OtherOwner),
{
}

/// An envelope is refused for the first thing that is wrong with it: that it is for
/// someone else, that its prekey is gone, that it is not signed by its sender, that
/// the agreement comes to nothing, and that it does not decrypt.
pub proof fn law_refusals_of_envelopes(e: EnvelopeView, secret: Seq<u8>, me: [u8; 32])
    requires
        e.ciphertext.len() <= 1_073_741_840,
    ensures
        ({
            let shared = crypto::x25519_shared(secret, e.ephemeral@);
            let held = e.prekey@ == crypto::x25519_public(secret);
            let signed = e.signature.len() == 64 && crypto::ed25519_key_valid(e.sender@) && crypto::ed25519_accepts(
                e.sender@,
                vstd::utf8::encode_utf8("wicara envelope signature v1"@) + (e.sender@ + e.recipient@ + e.ephemeral@
                    + e.prekey@) + e.nonce@ + e.ciphertext,
                e.signature,
            );
            let agreed = exists|i: int| 0 <= i < shared.len() && (#[trigger] shared[i]) != 0;
            let r = e.opened(secret, me);
            &&& r == Err::<Seq<u8>, E2eError>(E2eError::AddressedElsewhere) <==> e.recipient != me
            &&& r == Err::<Seq<u8>, E2eError>(E2eError::PrekeyGone) <==> e.recipient == me && !held
            &&& r == Err::<Seq<u8>, E2eError>(E2eError::EnvelopeSignatureLength) <==> e.recipient == me && held && e.signature.len() != 64
            &&& r == Err::<Seq<u8>, E2eError>(E2eError::SenderInvalid) <==> e.recipient == me && held && e.signature.len() == 64
                && !crypto::ed25519_key_valid(e.sender@)
            &&& r == Err::<Seq<u8>, E2eError>(E2eError::EnvelopeForged) <==> e.recipient == me && held && e.signature.len() == 64
                && crypto::ed25519_key_valid(e.sender@) && !signed
            &&& r == Err::<Seq<u8>, E2eError>(E2eError::SmallOrderEphemeral) <==> e.recipient == me && held && signed && !agreed
            &&& r == Err::<Seq<u8>, E2eError>(E2eError::NotDecrypted) ==> e.recipient == me && held && signed && agreed
        }),
{
    let shared = crypto::x25519_shared(secret, e.ephemeral@);
    assert(bytes::all_zero(shared) <==> !(exists|i: int| 0 <= i < shared.len() && (#[trigger] shared[i]) != 0));
}

/// A prekey is refused for the first thing that is wrong with it.
pub proof fn law_refusals_of_prekeys(p: PrekeyView, expected: [u8; 32])
    ensures
        ({
            let fault = prekey_fault(p, expected);
            let own = p.owner == expected;
            let valid = crypto::ed25519_key_valid(expected@);
            &&& fault == Some(E2eError::OtherOwner) <==> !own
            &&& fault == Some(E2eError::PrekeySignatureLength) <==> own && p.signature.len() != 64
            &&& fault == Some(E2eError::EndpointInvalid) <==> own && p.signature.len() == 64 && !valid
            &&& fault == Some(E2eError::PrekeyForged) <==> own && p.signature.len() == 64 && valid
                && !crypto::ed25519_accepts(
                expected@,
                vstd::utf8::encode_utf8("wicara prekey signature v1"@) + expected@ + p.prekey@ + bytes::le64(
                    p.created_ms,
                ),
                p.signature,
            )
        }),
{
}

} // verus!
