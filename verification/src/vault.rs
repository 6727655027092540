//! At-rest encryption: passphrase, Argon2id, XChaCha20-Poly1305.
//!
//! One derived key protects the identity file and the stored messages. The
//! passphrase is stored nowhere: losing it loses the data, by design.

use crate::{bytes, crypto, text};
use vstd::prelude::*;

verus! {

/// Bytes of salt beside a passphrase.
pub const SALT_LEN: usize = 16;

/// Bytes of nonce in front of a sealed blob.
pub const NONCE_LEN: usize = 24;

/// Bytes of tag behind a sealed blob.
pub const TAG_LEN: usize = 16;

/// Why a vault operation failed.
#[derive(Clone, Copy, Debug, PartialEq, Eq, Structural)]
pub enum VaultError {
    /// The system's random generator gave nothing.
    RngUnavailable,
    /// There is no memory to derive a key in.
    NoMemory,
    /// The passphrase is longer than Argon2id takes.
    LongPassphrase,
    /// The plaintext is longer than the cipher takes.
    Encryption,
    /// The blob is shorter than a nonce and a tag.
    Truncated,
    /// The tag does not hold under this key.
    Refused,
}

impl VaultError {
    /// The text of the error.
    pub open spec fn text(self) -> Seq<char> {
        match self {
            VaultError::RngUnavailable => "system rng unavailable"@,
            VaultError::NoMemory => "argon2: out of memory"@,
            VaultError::LongPassphrase => "argon2: password is too long"@,
            VaultError::Encryption => "encryption failed"@,
            VaultError::Truncated => "sealed blob is truncated"@,
            VaultError::Refused => "wrong passphrase, or the file has been tampered with"@,
        }
    }

    /// Computes [`VaultError::text`].
    pub fn message(&self) -> (r: String)
        ensures
            r@ == self.text(),
    {
        (match self {
            VaultError::RngUnavailable => "system rng unavailable",
            VaultError::NoMemory => "argon2: out of memory",
            VaultError::LongPassphrase => "argon2: password is too long",
            VaultError::Encryption => "encryption failed",
            VaultError::Truncated => "sealed blob is truncated",
            VaultError::Refused => "wrong passphrase, or the file has been tampered with",
        }).to_owned()
    }
}

/// Fills `N` bytes from the system's random generator.
pub fn random<const N: usize>() -> (r: Result<[u8; N], VaultError>)
    ensures
        r is Err ==> r->Err_0 == VaultError::RngUnavailable,
        N == 0 ==> r is Ok,
{
    let mut buf: [u8; N] = vstd::array::array_fill_for_copy_types(0u8);
    let done = crypto::fill_random(&mut buf);
    drawn(done, buf)
}

/// What is made of the generator's answer: the bytes it left, if it was done.
pub fn drawn<const N: usize>(done: bool, buf: [u8; N]) -> (r: Result<[u8; N], VaultError>)
    ensures
        r == (if done {
            Ok::<[u8; N], VaultError>(buf)
        } else {
            Err::<[u8; N], VaultError>(VaultError::RngUnavailable)
        }),
{
    if done {
        Ok(buf)
    } else {
        Err(VaultError::RngUnavailable)
    }
}

/// A passphrase-derived key, wiped when dropped and never written to disk.
pub struct VaultKey {
    key: [u8; 32],
}

impl Drop for VaultKey {
    fn drop(&mut self)
        opens_invariants none
        no_unwind
    {
        crypto::wipe(&mut self.key);
    }
}

impl View for VaultKey {
    type V = Seq<u8>;

    /// The bytes of the key.
    closed spec fn view(&self) -> Seq<u8> {
        self.key@
    }
}

/// What `key` and `nonce` seal `plaintext` into: nonce, ciphertext, tag.
pub open spec fn sealed(key: Seq<u8>, nonce: Seq<u8>, plaintext: Seq<u8>) -> Seq<u8> {
    nonce + crypto::xchacha_sealed(key, nonce, Seq::empty(), plaintext)
}

/// What `key` opens `blob` to.
pub open spec fn opened(key: Seq<u8>, blob: Seq<u8>) -> Result<Seq<u8>, VaultError> {
    if blob.len() < NONCE_LEN + TAG_LEN {
        Err(VaultError::Truncated)
    } else if !crypto::openable(blob.len() - NONCE_LEN) {
        Err(VaultError::Refused)
    } else {
        match crypto::xchacha_opened(
            key,
            blob.subrange(0, NONCE_LEN as int),
            Seq::empty(),
            blob.subrange(NONCE_LEN as int, blob.len() as int),
        ) {
            Some(plaintext) => Ok(plaintext),
            None => Err(VaultError::Refused),
        }
    }
}

/// Two nonces seal one text into two blobs.
pub proof fn law_nonces_tell_blobs_apart(key: Seq<u8>, nonce: Seq<u8>, other: Seq<u8>, plaintext: Seq<u8>)
    requires
        nonce.len() == NONCE_LEN,
        other.len() == NONCE_LEN,
        nonce != other,
    ensures
        sealed(key, nonce, plaintext) != sealed(key, other, plaintext),
{
    assert(sealed(key, nonce, plaintext).take(NONCE_LEN as int) =~= nonce);
    assert(sealed(key, other, plaintext).take(NONCE_LEN as int) =~= other);
}

/// Whether an error is one that deriving a key from a passphrase can end in.
pub open spec fn underived(e: VaultError, passphrase: Seq<char>) -> bool {
    ||| e == VaultError::NoMemory
    ||| e == VaultError::LongPassphrase && vstd::utf8::encode_utf8(passphrase).len() > 0xffff_ffff
}

impl VaultKey {
    /// Argon2id with the default parameters (19 MiB, two passes, one lane).
    /// The key is a function of passphrase and salt alone; whether there is
    /// memory to compute it is not.
    pub fn derive(passphrase: &str, salt: &[u8; SALT_LEN]) -> (r: Result<VaultKey, VaultError>)
        ensures
            r is Ok ==> r->Ok_0@ == crypto::argon2id(vstd::utf8::encode_utf8(passphrase@), salt@),
            r is Err ==> underived(r->Err_0, passphrase@),
            vstd::utf8::encode_utf8(passphrase@).len() > 0xffff_ffff ==> r is Err,
    {
        let mut key: [u8; 32] = [0u8; 32];
        match crypto::stretch(passphrase.as_bytes(), salt, &mut key) {
            Ok(_) => Ok(VaultKey { key }),
            Err(reason) => {
                proof {
                    reveal_strlit("out of memory");
                    reveal_strlit("password is too long");
                    assert("out of memory"@.len() != "password is too long"@.len());
                }
                if text::same(reason.as_str(), "password is too long") {
                    Err(VaultError::LongPassphrase)
                } else {
                    Err(VaultError::NoMemory)
                }
            },
        }
    }

    /// Seals `plaintext` under a given nonce.
    pub fn seal_with(&self, nonce: &[u8; NONCE_LEN], plaintext: &[u8]) -> (r: Result<Vec<u8>, VaultError>)
        ensures
            r is Ok <==> crypto::sealable(plaintext@.len() as int),
            r is Ok ==> r->Ok_0@ == sealed(self@, nonce@, plaintext@),
            r is Ok ==> r->Ok_0@.len() == NONCE_LEN + plaintext@.len() + TAG_LEN,
            r is Ok ==> opened(self@, r->Ok_0@) == Ok::<Seq<u8>, VaultError>(plaintext@),
            r is Err ==> r->Err_0 == VaultError::Encryption,
    {
        if !crypto::is_sealable(plaintext.len()) {
            return Err(VaultError::Encryption);
        }
        let empty: [u8; 0] = [];
        let body = crypto::seal(&self.key, nonce, &empty, plaintext);
        let mut out: Vec<u8> = vstd::slice::slice_to_vec(nonce);
        out.extend_from_slice(&body);
        proof {
            assert(empty@ =~= Seq::<u8>::empty());
            assert(out@ =~= nonce@ + body@);
            assert(out@.subrange(0, NONCE_LEN as int) =~= nonce@);
            assert(out@.subrange(NONCE_LEN as int, out@.len() as int) =~= body@);
        }
        Ok(out)
    }

    /// Seals `plaintext` under a fresh random nonce. Whatever the nonce, the
    /// result opens to `plaintext` under the same key.
    pub fn seal(&self, plaintext: &[u8]) -> (r: Result<Vec<u8>, VaultError>)
        ensures
            r is Ok ==> crypto::sealable(plaintext@.len() as int),
            r is Ok ==> r->Ok_0@ == sealed(self@, r->Ok_0@.subrange(0, NONCE_LEN as int), plaintext@),
            r is Ok ==> r->Ok_0@.len() == NONCE_LEN + plaintext@.len() + TAG_LEN,
            r is Ok ==> opened(self@, r->Ok_0@) == Ok::<Seq<u8>, VaultError>(plaintext@),
            r is Err ==> r->Err_0 == VaultError::RngUnavailable || (r->Err_0 == VaultError::Encryption
                && !crypto::sealable(plaintext@.len() as int)),
    {
        match random::<24>() {
            Ok(nonce) => {
                let r = self.seal_with(&nonce, plaintext);
                proof {
                    if r is Ok {
                        assert(r->Ok_0@.subrange(0, NONCE_LEN as int) =~= nonce@);
                    }
                }
                r
            },
            Err(e) => Err(e),
        }
    }

    /// Inverse of [`VaultKey::seal`]. A wrong passphrase is indistinguishable
    /// from tampering, and both come back as the same error.
    pub fn open(&self, blob: &[u8]) -> (r: Result<Vec<u8>, VaultError>)
        ensures
            match opened(self@, blob@) {
                Ok(plaintext) => r is Ok && r->Ok_0@ == plaintext,
                Err(e) => r is Err && r->Err_0 == e,
            },
    {
        if blob.len() < NONCE_LEN + TAG_LEN {
            return Err(VaultError::Truncated);
        }
        let (front, body) = blob.split_at(NONCE_LEN);
        let nonce: [u8; 24] = bytes::array_from::<24>(front);
        let empty: [u8; 0] = [];
        proof {
            assert(empty@ =~= Seq::<u8>::empty());
            assert(nonce@ =~= blob@.subrange(0, NONCE_LEN as int));
        }
        if !crypto::is_openable(body.len()) {
            return Err(VaultError::Refused);
        }
        match crypto::unseal(&self.key, &nonce, &empty, body) {
            Some(plaintext) => Ok(plaintext),
            None => Err(VaultError::Refused),
        }
    }
}

/// Anything of up to a gibibyte can be sealed, and opened again.
pub proof fn law_everyday_sizes_are_sealable(len: int)
    requires
        0 <= len <= 1_073_741_824,
    ensures
        crypto::sealable(len),
        crypto::openable(len + 16),
{
}

/// A blob is a nonce of twenty-four bytes and a ciphertext: it opens to just what
/// the cipher makes of them, with nothing beside.
pub proof fn law_blobs_are_nonce_and_ciphertext(key: Seq<u8>, nonce: Seq<u8>, ciphertext: Seq<u8>)
    requires
        nonce.len() == 24,
        16 <= ciphertext.len() <= 1_073_741_840,
    ensures
        opened(key, nonce + ciphertext) == (match crypto::xchacha_opened(key, nonce, Seq::empty(), ciphertext) {
            Some(plaintext) => Ok::<Seq<u8>, VaultError>(plaintext),
            None => Err::<Seq<u8>, VaultError>(VaultError::Refused),
        }),
        forall|plaintext: Seq<u8>| #[trigger] sealed(key, nonce, plaintext) == nonce + crypto::xchacha_sealed(
            key,
            nonce,
            Seq::empty(),
            plaintext,
        ),
{
    let blob = nonce + ciphertext;
    assert(blob.subrange(0, 24) =~= nonce);
    assert(blob.subrange(24, blob.len() as int) =~= ciphertext);
}

/// What is shorter than a nonce and a tag is truncated; anything else that does not
/// open is refused.
pub proof fn law_short_blobs_are_truncated(key: Seq<u8>, blob: Seq<u8>)
    ensures
        opened(key, blob) == Err::<Seq<u8>, VaultError>(VaultError::Truncated) <==> blob.len() < 24 + 16,
        blob.len() >= 24 + 16 && opened(key, blob) is Err ==> opened(key, blob) == Err::<Seq<u8>, VaultError>(
            VaultError::Refused,
        ),
{
}

} // verus!
