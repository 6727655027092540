//! The Ed25519 identity, encrypted at rest.
//!
//! File layout: a 16-byte Argon2id salt, then the sealed 32-byte secret key. The
//! public half is the endpoint id, so it is stable for the life of the file.

use crate::keys::SigningKey;
use crate::vault::{random, VaultError, VaultKey, SALT_LEN};
use crate::{bytes, crypto, text, vault};
use vstd::prelude::*;

verus! {

/// The fewest characters of a passphrase.
pub const MIN_PASSPHRASE: usize = 8;

/// An identity and the key that protects it.
pub struct Identity {
    pub secret: SigningKey,
    /// Kept so the stored messages reuse the same derived key instead of
    /// prompting again.
    pub vault: VaultKey,
}

/// Why there is no identity.
#[derive(Clone, Copy, Debug, PartialEq, Eq, Structural)]
pub enum IdentityError {
    /// The file is too short to be one.
    Truncated,
    /// The vault failed.
    Vault(VaultError),
    /// What the file holds is not 32 bytes.
    NotAKey,
    /// The passphrase is too short.
    ShortPassphrase,
    /// The two passphrases differ.
    Mismatch,
}

impl IdentityError {
    /// The text of the error.
    pub open spec fn text(self) -> Seq<char> {
        match self {
            IdentityError::Truncated => "truncated; it is not a wicara identity file"@,
            IdentityError::Vault(e) => e.text(),
            IdentityError::NotAKey => "identity file does not hold a 32-byte key"@,
            IdentityError::ShortPassphrase => "passphrase must be at least 8 characters"@,
            IdentityError::Mismatch => "passphrases do not match"@,
        }
    }

    /// Computes [`IdentityError::text`].
    pub fn message(&self) -> (r: String)
        ensures
            r@ == self.text(),
    {
        match self {
            IdentityError::Truncated => "truncated; it is not a wicara identity file".to_owned(),
            IdentityError::Vault(e) => e.message(),
            IdentityError::NotAKey => "identity file does not hold a 32-byte key".to_owned(),
            IdentityError::ShortPassphrase => "passphrase must be at least 8 characters".to_owned(),
            IdentityError::Mismatch => "passphrases do not match".to_owned(),
        }
    }
}

/// The key that a passphrase gives with the salt of a file.
pub open spec fn file_key(passphrase: Seq<char>, blob: Seq<u8>) -> Seq<u8> {
    crypto::argon2id(vstd::utf8::encode_utf8(passphrase), blob.subrange(0, SALT_LEN as int))
}

/// The secret that a file gives up to a key.
pub open spec fn secret_of(key: Seq<u8>, blob: Seq<u8>) -> Result<Seq<u8>, IdentityError> {
    if blob.len() <= SALT_LEN {
        Err(IdentityError::Truncated)
    } else {
        match vault::opened(key, blob.subrange(SALT_LEN as int, blob.len() as int)) {
            Err(e) => Err(IdentityError::Vault(e)),
            Ok(secret) => if secret.len() != 32 {
                Err(IdentityError::NotAKey)
            } else {
                Ok(secret)
            },
        }
    }
}

/// Opens an identity file. Whether there is memory to derive the key is the
/// machine's affair; all else is a function of file and passphrase.
pub fn load(blob: &[u8], passphrase: &str) -> (r: Result<Identity, IdentityError>)
    ensures
        blob@.len() <= SALT_LEN ==> r is Err && r->Err_0 == IdentityError::Truncated,
        r is Ok ==> secret_of(file_key(passphrase@, blob@), blob@) == Ok::<Seq<u8>, IdentityError>(
            r->Ok_0.secret@,
        ) && r->Ok_0.vault@ == file_key(passphrase@, blob@),
        r is Err ==> secret_of(file_key(passphrase@, blob@), blob@) == Err::<Seq<u8>, IdentityError>(r->Err_0) || (
        r->Err_0 matches IdentityError::Vault(e) && vault::underived(e, passphrase@)),
{
    if blob.len() <= SALT_LEN {
        return Err(IdentityError::Truncated);
    }
    let (front, sealed) = blob.split_at(SALT_LEN);
    let salt: [u8; 16] = bytes::array_from::<16>(front);
    assert(salt@ =~= blob@.subrange(0, SALT_LEN as int));
    let vault = match VaultKey::derive(passphrase, &salt) {
        Ok(vault) => vault,
        Err(e) => return Err(IdentityError::Vault(e)),
    };
    open_with(vault, sealed)
}

/// Opens the sealed part of an identity file with a derived key.
pub fn open_with(vault: VaultKey, sealed: &[u8]) -> (r: Result<Identity, IdentityError>)
    ensures
        match vault::opened(vault@, sealed@) {
            Err(e) => r is Err && r->Err_0 == IdentityError::Vault(e),
            Ok(secret) => if secret.len() != 32 {
                r is Err && r->Err_0 == IdentityError::NotAKey
            } else {
                r is Ok && r->Ok_0.secret@ == secret && r->Ok_0.vault@ == vault@
            },
        },
{
    let secret = match vault.open(sealed) {
        Ok(secret) => secret,
        Err(e) => return Err(IdentityError::Vault(e)),
    };
    if secret.len() != 32 {
        return Err(IdentityError::NotAKey);
    }
    let key: [u8; 32] = bytes::array_from::<32>(secret.as_slice());
    assert(key@ =~= secret@);
    Ok(Identity { secret: SigningKey::from_bytes(&key), vault })
}

/// Why a passphrase is not taken; `None` where it is.
pub open spec fn passphrase_fault(passphrase: Seq<char>, confirmation: Seq<char>) -> Option<IdentityError> {
    if passphrase.len() < MIN_PASSPHRASE {
        Some(IdentityError::ShortPassphrase)
    } else if passphrase != confirmation {
        Some(IdentityError::Mismatch)
    } else {
        None
    }
}

/// Decides [`passphrase_fault`].
pub fn check_passphrase(passphrase: &str, confirmation: &str) -> (r: Result<(), IdentityError>)
    ensures
        match passphrase_fault(passphrase@, confirmation@) {
            None => r is Ok,
            Some(e) => r is Err && r->Err_0 == e,
        },
{
    if text::chars_of(passphrase).len() < MIN_PASSPHRASE {
        return Err(IdentityError::ShortPassphrase);
    }
    if !text::same(passphrase, confirmation) {
        return Err(IdentityError::Mismatch);
    }
    Ok(())
}

/// Makes a new identity and the file that holds it. The same passphrase opens
/// the file again, to the same identity.
pub fn create(passphrase: &str, confirmation: &str) -> (r: Result<(Identity, Vec<u8>), IdentityError>)
    ensures
        passphrase_fault(passphrase@, confirmation@) is Some ==> r is Err && r->Err_0 == passphrase_fault(
            passphrase@,
            confirmation@,
        )->0,
        passphrase_fault(passphrase@, confirmation@) is None && r is Err ==> r->Err_0 == IdentityError::Vault(
            VaultError::RngUnavailable,
        ) || (r->Err_0 matches IdentityError::Vault(e) && vault::underived(e, passphrase@)),
        r is Ok ==> {
            let key = file_key(passphrase@, (r->Ok_0).1@);
            &&& (r->Ok_0).0.vault@ == key
            &&& secret_of(key, (r->Ok_0).1@) == Ok::<Seq<u8>, IdentityError>((r->Ok_0).0.secret@)
        },
{
    match check_passphrase(passphrase, confirmation) {
        Ok(_) => {},
        Err(e) => return Err(e),
    }
    let salt: [u8; 16] = match random::<16>() {
        Ok(salt) => salt,
        Err(e) => return Err(IdentityError::Vault(e)),
    };
    let vault = match VaultKey::derive(passphrase, &salt) {
        Ok(vault) => vault,
        Err(e) => return Err(IdentityError::Vault(e)),
    };
    let secret: [u8; 32] = match random::<32>() {
        Ok(secret) => secret,
        Err(e) => return Err(IdentityError::Vault(e)),
    };
    let nonce: [u8; 24] = match random::<24>() {
        Ok(nonce) => nonce,
        Err(e) => return Err(IdentityError::Vault(e)),
    };
    let blob = file_with(&vault, &salt, &secret, &nonce);
    assert(blob@.subrange(0, SALT_LEN as int) =~= salt@);
    Ok((Identity { secret: SigningKey::from_bytes(&secret), vault }, blob))
}

/// The file that holds an identity: the salt of the passphrase's key, then the
/// secret sealed under that key. The key opens it again.
pub fn file_with(vault: &VaultKey, salt: &[u8; 16], secret: &[u8; 32], nonce: &[u8; 24]) -> (blob: Vec<u8>)
    ensures
        blob@ == salt@ + vault::sealed(vault@, nonce@, secret@),
        secret_of(vault@, blob@) == Ok::<Seq<u8>, IdentityError>(secret@),
{
    let mut blob: Vec<u8> = vstd::slice::slice_to_vec(salt);
    // 32 bytes are never too many to seal.
    if let Ok(sealed) = vault.seal_with(nonce, secret) {
        blob.extend_from_slice(&sealed);
        assert(blob@.subrange(SALT_LEN as int, blob@.len() as int) =~= sealed@);
    }
    blob
}

/// A line without the line breaks behind.
pub open spec fn without_breaks(s: Seq<char>) -> Seq<char>
    decreases s.len(),
{
    if s.len() > 0 && (s.last() == '\r' || s.last() == '\n') {
        without_breaks(s.drop_last())
    } else {
        s
    }
}

/// The passphrase in a line read from a pipe.
pub fn passphrase_line(line: &str) -> (r: String)
    ensures
        r@ == without_breaks(line@),
{
    let chars = text::chars_of(line);
    let mut end: usize = chars.len();
    assert(chars@.take(end as int) =~= chars@);
    while end > 0 && (chars[end - 1] == '\r' || chars[end - 1] == '\n')
        invariant
            end <= chars@.len(),
            without_breaks(chars@.take(end as int)) == without_breaks(chars@),
        decreases end,
    {
        assert(chars@.take(end as int).drop_last() =~= chars@.take(end - 1));
        end = end - 1;
    }
    assert(chars@.take(end as int) =~= chars@.subrange(0, end as int));
    text::string_of(vstd::slice::slice_subrange(chars.as_slice(), 0, end))
}

/// A passphrase of eight characters or more, typed twice alike, is taken, however
/// long, and no other.
pub proof fn law_eight_characters_suffice(passphrase: Seq<char>, confirmation: Seq<char>)
    ensures
        passphrase_fault(passphrase, confirmation) is None <==> passphrase.len() >= 8 && passphrase == confirmation,
        passphrase.len() < 8 ==> passphrase_fault(passphrase, confirmation) == Some(IdentityError::ShortPassphrase),
        passphrase.len() >= 8 && passphrase != confirmation ==> passphrase_fault(passphrase, confirmation) == Some(
            IdentityError::Mismatch,
        ),
{
}

/// An identity file is a salt of sixteen bytes and a sealed secret of thirty-two:
/// a file opens to just what its sealed part opens to.
pub proof fn law_files_are_salt_and_secret(key: Seq<u8>, salt: Seq<u8>, sealed: Seq<u8>, secret: Seq<u8>)
    requires
        salt.len() == 16,
        sealed.len() > 0,
    ensures
        secret_of(key, salt + sealed) == Ok::<Seq<u8>, IdentityError>(secret) <==> vault::opened(key, sealed) == Ok::<
            Seq<u8>,
            VaultError,
        >(secret) && secret.len() == 32,
        forall|passphrase: Seq<char>| #[trigger] file_key(passphrase, salt + sealed) == crypto::argon2id(
            vstd::utf8::encode_utf8(passphrase),
            salt,
        ),
{
    assert((salt + sealed).subrange(16, (salt + sealed).len() as int) =~= sealed);
    assert((salt + sealed).subrange(0, 16) =~= salt);
}

/// Only the line break is taken from a passphrase line, however long it is.
pub proof fn law_only_line_breaks_are_taken(s: Seq<char>, breaks: Seq<char>)
    requires
        s.len() > 0 ==> s.last() != '\r' && s.last() != '\n',
        forall|i: int| 0 <= i < breaks.len() ==> (#[trigger] breaks[i]) == '\r' || breaks[i] == '\n',
    ensures
        without_breaks(s + breaks) == s,
    decreases breaks.len(),
{
    if breaks.len() > 0 {
        let init = breaks.drop_last();
        assert(breaks[breaks.len() - 1] == '\r' || breaks[breaks.len() - 1] == '\n');
        assert((s + breaks).drop_last() =~= s + init);
        assert forall|i: int| 0 <= i < init.len() implies (#[trigger] init[i]) == '\r' || init[i] == '\n' by {
            assert(init[i] == breaks[i]);
        }
        law_only_line_breaks_are_taken(s, init);
    } else {
        assert(s + breaks =~= s);
    }
}

/// A file that ends within its salt is truncated. One that opens to something that
/// is no key holds none, and one that does not open says why.
pub proof fn law_refusals_of_files(key: Seq<u8>, blob: Seq<u8>)
    ensures
        secret_of(key, blob) == Err::<Seq<u8>, IdentityError>(IdentityError::Truncated) <==> blob.len() <= 16,
        blob.len() > 16 ==> match vault::opened(key, blob.skip(16)) {
            Err(e) => secret_of(key, blob) == Err::<Seq<u8>, IdentityError>(IdentityError::Vault(e)),
            Ok(secret) => secret.len() != 32 ==> secret_of(key, blob) == Err::<Seq<u8>, IdentityError>(
                IdentityError::NotAKey,
            ),
        },
{
    if blob.len() > 16 {
        assert(blob.skip(16) =~= blob.subrange(16, blob.len() as int));
    }
}

} // verus!
