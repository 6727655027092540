//! Proof, to the hub, that you are the endpoint whose mailbox you are reading.
//!
//! The hub cannot read the mail, but it must not hand it to the wrong person
//! either. A timestamp inside the signature keeps a captured header from being
//! replayed a week later.

use crate::e2e::E2eError;
use crate::keys::SigningKey;
use crate::{bytes, crypto};
use vstd::prelude::*;

verus! {

/// How far a client's clock may be off before its requests are refused.
pub const WINDOW_MS: u64 = 300_000;

/// What an endpoint signs to read its mailbox at a time.
pub open spec fn auth_bytes(endpoint: Seq<u8>, ts_ms: u64) -> Seq<u8> {
    vstd::utf8::encode_utf8("wicara mailbox auth v1"@) + endpoint + bytes::le64(ts_ms)
}

/// Why a request is refused; `None` where it is granted.
pub open spec fn auth_fault(endpoint: [u8; 32], ts_ms: u64, signature: Seq<u8>, now_ms: u64) -> Option<E2eError> {
    if now_ms - ts_ms > WINDOW_MS || ts_ms - now_ms > WINDOW_MS {
        Some(E2eError::OutsideWindow)
    } else if signature.len() != 64 {
        Some(E2eError::AuthSignatureLength)
    } else if !crypto::ed25519_key_valid(endpoint@) {
        Some(E2eError::EndpointInvalid)
    } else if !crypto::ed25519_accepts(endpoint@, auth_bytes(endpoint@, ts_ms), signature) {
        Some(E2eError::AuthMismatch)
    } else {
        None
    }
}

/// Computes [`auth_bytes`].
fn transcript(endpoint: &[u8; 32], ts_ms: u64) -> (t: Vec<u8>)
    ensures
        t@ == auth_bytes(endpoint@, ts_ms),
{
    let mut t: Vec<u8> = vstd::slice::slice_to_vec("wicara mailbox auth v1".as_bytes());
    t.extend_from_slice(endpoint);
    t.extend_from_slice(&vstd::bytes::u64_to_le_bytes(ts_ms));
    t
}

/// Signs a request made at `ts_ms`. While the hub's clock is within the window,
/// the hub grants it, if the signature commits to a point other than the
/// neutral one.
pub fn sign(identity: &SigningKey, ts_ms: u64) -> (r: Vec<u8>)
    ensures
        r@ == crypto::ed25519_signature(identity@, auth_bytes(identity.public(), ts_ms)),
        r@.len() == 64,
        crypto::committed(r@) ==> forall|endpoint: [u8; 32], now_ms: u64|
            endpoint@ == identity.public() && now_ms - ts_ms <= WINDOW_MS && ts_ms - now_ms <= WINDOW_MS
                ==> #[trigger] auth_fault(endpoint, ts_ms, r@, now_ms) is None,
{
    identity.sign(&transcript(&identity.verifying_key().to_bytes(), ts_ms))
}

/// Decides whether a request by `endpoint` at `ts_ms` is granted at `now_ms`.
pub fn verify(endpoint: &[u8; 32], ts_ms: u64, signature: &[u8], now_ms: u64) -> (r: Result<(), E2eError>)
    ensures
        match auth_fault(*endpoint, ts_ms, signature@, now_ms) {
            None => r is Ok,
            Some(e) => r is Err && r->Err_0 == e,
        },
{
    let apart: u64 = if now_ms >= ts_ms { now_ms - ts_ms } else { ts_ms - now_ms };
    if apart > WINDOW_MS {
        return Err(E2eError::OutsideWindow);
    }
    if signature.len() != 64 {
        return Err(E2eError::AuthSignatureLength);
    }
    if !crypto::key_valid(endpoint) {
        return Err(E2eError::EndpointInvalid);
    }
    if !crypto::accepts(endpoint, &transcript(endpoint, ts_ms), signature) {
        return Err(E2eError::AuthMismatch);
    }
    Ok(())
}

/// A captured header is of no use later: whatever is granted was signed by the
/// endpoint for a time within the window.
pub proof fn law_headers_expire(endpoint: [u8; 32], ts_ms: u64, signature: Seq<u8>, now_ms: u64)
    requires
        auth_fault(endpoint, ts_ms, signature, now_ms) is None,
    ensures
        now_ms <= ts_ms + WINDOW_MS,
        ts_ms <= now_ms + WINDOW_MS,
        crypto::ed25519_accepts(endpoint@, auth_bytes(endpoint@, ts_ms), signature),
{
}

/// A request is granted just where its clock is within five minutes of the hub's,
/// in either direction, and the endpoint signed that time.
pub proof fn law_requests_are_granted(endpoint: [u8; 32], ts_ms: u64, signature: Seq<u8>, now_ms: u64)
    ensures
        auth_fault(endpoint, ts_ms, signature, now_ms) is None <==> {
            &&& ts_ms <= now_ms + 5 * 60 * 1000
            &&& now_ms <= ts_ms + 5 * 60 * 1000
            &&& signature.len() == 64
            &&& crypto::ed25519_key_valid(endpoint@)
            &&& crypto::ed25519_accepts(
                endpoint@,
                vstd::utf8::encode_utf8("wicara mailbox auth v1"@) + endpoint@ + bytes::le64(ts_ms),
                signature,
            )
        },
{
}

/// What is signed tells endpoints and times apart.
pub proof fn law_proofs_name_endpoint_and_time(a: [u8; 32], b: [u8; 32], ts_ms: u64, other_ms: u64)
    requires
        auth_bytes(a@, ts_ms) == auth_bytes(b@, other_ms),
    ensures
        a == b,
        ts_ms == other_ms,
{
    vstd::bytes::lemma_auto_spec_u64_to_from_le_bytes();
    let n = vstd::utf8::encode_utf8("wicara mailbox auth v1"@).len() as int;
    let (x, y) = (auth_bytes(a@, ts_ms), auth_bytes(b@, other_ms));
    assert(x.subrange(n, n + 32) =~= a@ && y.subrange(n, n + 32) =~= b@);
    bytes::lemma_array_eq(a, b);
    assert(x.subrange(n + 32, n + 40) =~= bytes::le64(ts_ms));
    assert(y.subrange(n + 32, n + 40) =~= bytes::le64(other_ms));
}

/// A request is refused for the first thing that is wrong with it.
pub proof fn law_refusals_of_requests(endpoint: [u8; 32], ts_ms: u64, signature: Seq<u8>, now_ms: u64)
    ensures
        ({
            let fault = auth_fault(endpoint, ts_ms, signature, now_ms);
            let timely = now_ms - ts_ms <= 5 * 60 * 1000 && ts_ms - now_ms <= 5 * 60 * 1000;
            let valid = crypto::ed25519_key_valid(endpoint@);
            &&& fault == Some(E2eError::OutsideWindow) <==> !timely
            &&& fault == Some(E2eError::AuthSignatureLength) <==> timely && signature.len() != 64
            &&& fault == Some(E2eError::EndpointInvalid) <==> timely && signature.len() == 64 && !valid
            &&& fault == Some(E2eError::AuthMismatch) <==> timely && signature.len() == 64 && valid
                && !crypto::ed25519_accepts(endpoint@, auth_bytes(endpoint@, ts_ms), signature)
        }),
{
}

} // verus!
