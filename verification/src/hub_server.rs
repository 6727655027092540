//! The hub: a prekey directory and an offline mailbox.
//!
//! It does two things and nothing else:
//!
//! * prekey directory: hands out signed X25519 prekeys. It cannot forge one:
//!   clients check the signature against the endpoint id they already have.
//! * mailbox: holds sealed envelopes for endpoints that are offline. It cannot
//!   read them.
//!
//! Each request is a function of the tables, the request and the clock; sockets
//! and disks are someone else's business.

use crate::e2e::{mailbox_auth, Envelope, SignedPrekey};
use crate::{bytes, codec, crypto, e2e, text, wire};
use store::HubStore;
use vstd::prelude::*;

pub mod store;

verus! {

/// A single envelope. Chat text; attachments go peer to peer.
pub const MAX_ENVELOPE: usize = 65_536;

/// Undelivered envelopes one sender may leave for one recipient. An
/// unauthenticated mailbox is free disk for anyone who wants it; an
/// authenticated one still needs a ceiling.
pub const QUOTA_PER_SENDER: usize = 200;

/// How long undelivered mail is kept: seven days.
pub const TTL_MS: u64 = 604_800_000;

/// Time between two sweeps, in seconds.
pub const SWEEP_EVERY_SECS: u64 = 3_600;

/// The wall clock, in milliseconds since the Unix epoch.
pub fn now_ms() -> (r: u64) {
    wire::now_ms()
}

/// A refused request: the HTTP status and what to say.
#[derive(Debug, PartialEq, Eq)]
pub struct Error {
    pub status: u16,
    pub text: String,
}

/// A refusal as mathematical values.
pub type Refusal = (u16, Seq<char>);

impl View for Error {
    type V = Refusal;

    open spec fn view(&self) -> Refusal {
        (self.status, self.text@)
    }
}

/// A refusal with a fixed text.
fn refuse(status: u16, text: &str) -> (r: Error)
    ensures
        r@ == (status, text@),
{
    Error { status, text: text.to_owned() }
}

/// The headers that identify a request, where they were sent as text.
pub struct Headers {
    pub endpoint: Option<String>,
    pub timestamp: Option<String>,
    pub signature: Option<String>,
}

/// Those headers as mathematical values.
#[verifier::ext_equal]
pub struct HeadersView {
    pub endpoint: Option<Seq<char>>,
    pub timestamp: Option<Seq<char>>,
    pub signature: Option<Seq<char>>,
}

/// A string that may be missing, as mathematical values.
pub open spec fn maybe(s: Option<String>) -> Option<Seq<char>> {
    match s {
        Some(s) => Some(s@),
        None => None,
    }
}

impl View for Headers {
    type V = HeadersView;

    open spec fn view(&self) -> HeadersView {
        HeadersView {
            endpoint: maybe(self.endpoint),
            timestamp: maybe(self.timestamp),
            signature: maybe(self.signature),
        }
    }
}

/// The endpoint id that a string writes in hexadecimal.
pub open spec fn endpoint_of(s: Seq<char>) -> Result<[u8; 32], Refusal> {
    match bytes::unhex(vstd::utf8::encode_utf8(text::trimmed(s))) {
        None => Err((400u16, "endpoint id is not hex"@)),
        Some(b) => if b.len() != 32 {
            Err((400u16, "endpoint id is not 32 bytes"@))
        } else {
            Ok(bytes::array_of::<32>(b))
        },
    }
}

/// Computes [`endpoint_of`].
pub fn parse_endpoint(hex: &str) -> (r: Result<[u8; 32], Error>)
    ensures
        match endpoint_of(hex@) {
            Ok(key) => r is Ok && r->Ok_0 == key,
            Err(e) => r is Err && r->Err_0@ == e,
        },
{
    match bytes::hex_decode(text::trim(hex).as_str().as_bytes()) {
        None => Err(refuse(400, "endpoint id is not hex")),
        Some(b) => {
            if b.len() != 32 {
                Err(refuse(400, "endpoint id is not 32 bytes"))
            } else {
                let key = bytes::array_from::<32>(b.as_slice());
                assert(b@.subrange(0, 32) =~= b@);
                Ok(key)
            }
        },
    }
}

/// Who a request is by, if its headers prove it at `now_ms`.
pub open spec fn caller_of(h: HeadersView, now_ms: u64) -> Result<[u8; 32], Refusal> {
    match h.endpoint {
        None => Err((401u16, "missing x-wicara-endpoint"@)),
        Some(endpoint) => match endpoint_of(endpoint) {
            Err(e) => Err(e),
            Ok(key) => match h.timestamp {
                None => Err((401u16, "missing x-wicara-timestamp"@)),
                Some(timestamp) => match text::parsed(timestamp) {
                    None => Err((401u16, "bad timestamp"@)),
                    Some(ts) => match h.signature {
                        None => Err((401u16, "missing x-wicara-signature"@)),
                        Some(signature) => match bytes::unhex(vstd::utf8::encode_utf8(signature)) {
                            None => Err((401u16, "signature is not hex"@)),
                            Some(sig) => match mailbox_auth::auth_fault(key, ts as u64, sig, now_ms) {
                                Some(e) => Err((401u16, e.text())),
                                None => Ok(key),
                            },
                        },
                    },
                },
            },
        },
    }
}

/// Computes [`caller_of`].
pub fn authenticate(headers: &Headers, now_ms: u64) -> (r: Result<[u8; 32], Error>)
    ensures
        match caller_of(headers@, now_ms) {
            Ok(key) => r is Ok && r->Ok_0 == key,
            Err(e) => r is Err && r->Err_0@ == e,
        },
{
    let endpoint = match &headers.endpoint {
        None => return Err(refuse(401, "missing x-wicara-endpoint")),
        Some(s) => match parse_endpoint(s.as_str()) {
            Ok(key) => key,
            Err(e) => return Err(e),
        },
    };
    let ts: u64 = match &headers.timestamp {
        None => return Err(refuse(401, "missing x-wicara-timestamp")),
        Some(s) => match text::parse_u64(s.as_str()) {
            Some(ts) => ts,
            None => return Err(refuse(401, "bad timestamp")),
        },
    };
    let signature = match &headers.signature {
        None => return Err(refuse(401, "missing x-wicara-signature")),
        Some(s) => match bytes::hex_decode(s.as_str().as_bytes()) {
            Some(b) => b,
            None => return Err(refuse(401, "signature is not hex")),
        },
    };
    match mailbox_auth::verify(&endpoint, ts, &signature, now_ms) {
        Ok(_) => Ok(endpoint),
        Err(e) => Err(Error { status: 401, text: e.message() }),
    }
}

/// Why a prekey is not published; `None` where it is.
pub open spec fn publishing_fault(body: Seq<u8>) -> Option<Refusal> {
    match e2e::read_prekey(body) {
        None => Some((400u16, "malformed body"@)),
        Some((p, _)) => match e2e::prekey_fault(p, p.owner) {
            Some(e) => Some((400u16, e.text())),
            None => None,
        },
    }
}

/// Publishes your own prekey. The signature is checked here as a courtesy so
/// junk does not accumulate: it is *not* what makes the prekey trustworthy. The
/// recipient's client checks it again, and that check is the one that matters,
/// because this server is not trusted.
pub fn put_prekey(store: &mut HubStore, body: &[u8]) -> (r: Result<u16, Error>)
    requires
        old(store).wf(),
    ensures
        final(store).wf(),
        final(store).mail == old(store).mail,
        final(store).rooms == old(store).rooms,
        match publishing_fault(body@) {
            Some(e) => r is Err && r->Err_0@ == e && *final(store) == *old(store),
            None => {
                let prekey = (e2e::read_prekey(body@)->0).0;
                let owner = prekey.owner;
                &&& r is Ok && r->Ok_0 == 204
                &&& final(store).prekeys@.dom() == old(store).prekeys@.dom().insert(owner)
                &&& final(store).prekeys@[owner].blob@ == body@
                &&& final(store).prekeys@[owner].created_ms == prekey.created_ms as i64
                &&& forall|other: [u8; 32]|
                    other != owner && old(store).prekeys@.dom().contains(other)
                        ==> #[trigger] final(store).prekeys@[other] == old(store).prekeys@[other]
            },
        },
{
    let prekey = match SignedPrekey::decode(body) {
        Some(prekey) => prekey,
        None => return Err(refuse(400, "malformed body")),
    };
    match prekey.verify(&prekey.owner) {
        Ok(_) => {},
        Err(e) => return Err(Error { status: 400, text: e.message() }),
    }
    store.put_prekey(&prekey, body);
    Ok(204)
}

/// Hands out what an endpoint published last, byte for byte.
pub fn get_prekey(store: &HubStore, endpoint: &str) -> (r: Result<Vec<u8>, Error>)
    requires
        store.wf(),
    ensures
        match endpoint_of(endpoint@) {
            Err(e) => r is Err && r->Err_0@ == e,
            Ok(key) => if store.prekeys@.dom().contains(key) {
                r is Ok && r->Ok_0@ == store.prekeys@[key].blob@
            } else {
                r is Err && r->Err_0@ == (404u16, "no prekey published"@)
            },
        },
{
    let key = match parse_endpoint(endpoint) {
        Ok(key) => key,
        Err(e) => return Err(e),
    };
    match store.prekey(&key) {
        Some(blob) => Ok(blob),
        None => Err(refuse(404, "no prekey published")),
    }
}

/// Why a message is not accepted; `None` where it is.
pub open spec fn posting_fault(mail: Seq<store::MailRow>, recipient: Seq<char>, body: Seq<u8>) -> Option<Refusal> {
    if body.len() > MAX_ENVELOPE {
        Some((413u16, "envelope is over the 65536-byte limit"@))
    } else {
        match endpoint_of(recipient) {
            Err(e) => Some(e),
            Ok(key) => match e2e::read_envelope(body) {
                None => Some((400u16, "malformed body"@)),
                Some((envelope, _)) => if envelope.recipient != key {
                    Some((400u16, "envelope is addressed to a different endpoint"@))
                } else if envelope.signature_fault() is Some {
                    Some((400u16, envelope.signature_fault()->0.text()))
                } else if store::backlog(mail, envelope.sender, key).len() >= QUOTA_PER_SENDER {
                    Some((429u16, "200 messages already waiting for that recipient"@))
                } else {
                    None
                },
            },
        }
    }
}

/// Accepts a sealed envelope for someone else. The sender is authenticated by
/// the envelope's own signature, which is what the quota counts against: not
/// decryptable here, but the quota cannot be dodged by claiming to be someone
/// else.
pub fn post_mail(store: &mut HubStore, recipient: &str, body: &[u8], now_ms: u64) -> (r: Result<u16, Error>)
    requires
        old(store).wf(),
        store::next_row(old(store).mail@) <= i64::MAX,
    ensures
        final(store).wf(),
        final(store).prekeys == old(store).prekeys,
        final(store).rooms == old(store).rooms,
        match posting_fault(old(store).mail@, recipient@, body@) {
            Some(e) => r is Err && r->Err_0@ == e && *final(store) == *old(store),
            None => {
                let envelope = (e2e::read_envelope(body@)->0).0;
                let row = final(store).mail@.last();
                &&& r is Ok && r->Ok_0 == 202
                &&& final(store).mail@.len() == old(store).mail@.len() + 1
                &&& final(store).mail@.drop_last() == old(store).mail@
                &&& row.id == store::next_row(old(store).mail@)
                &&& row.sender == envelope.sender
                &&& row.recipient == envelope.recipient
                &&& row.received_ms == now_ms as i64
                &&& row.blob@ == body@
            },
        },
{
    if body.len() > MAX_ENVELOPE {
        return Err(refuse(413, "envelope is over the 65536-byte limit"));
    }
    let key = match parse_endpoint(recipient) {
        Ok(key) => key,
        Err(e) => return Err(e),
    };
    let envelope = match Envelope::decode(body) {
        Some(envelope) => envelope,
        None => return Err(refuse(400, "malformed body")),
    };
    if !bytes::same32(&envelope.recipient, &key) {
        return Err(refuse(400, "envelope is addressed to a different endpoint"));
    }
    match verify_envelope_sender(&envelope) {
        Ok(_) => {},
        Err(e) => return Err(e),
    }
    if store.pending_from(&envelope.sender, &key) >= QUOTA_PER_SENDER {
        return Err(refuse(429, "200 messages already waiting for that recipient"));
    }
    store.put_mail_at(&envelope.sender, &key, body, now_ms);
    Ok(202)
}

/// Opening an envelope is the recipient's job; only the outer signature is
/// checkable here.
pub fn verify_envelope_sender(envelope: &Envelope) -> (r: Result<(), Error>)
    ensures
        match envelope@.signature_fault() {
            None => r is Ok,
            Some(e) => r is Err && r->Err_0@ == (400u16, e.text()),
        },
{
    match e2e::verify_envelope_signature(envelope) {
        Ok(_) => Ok(()),
        Err(e) => Err(Error { status: 400, text: e.message() }),
    }
}

/// Your own mail, and only your own.
pub fn get_mail(store: &HubStore, headers: &Headers, now_ms: u64) -> (r: Result<Vec<u8>, Error>)
    ensures
        match caller_of(headers@, now_ms) {
            Err(e) => r is Err && r->Err_0@ == e,
            Ok(me) => r is Ok && r->Ok_0@ == mail_bytes(store::mailbox(store.mail@, me)) && mail_of(r->Ok_0@)
                == Some(store::mailbox(store.mail@, me)),
        },
{
    let me = match authenticate(headers, now_ms) {
        Ok(me) => me,
        Err(e) => return Err(e),
    };
    Ok(encode_mail(&store.mail_for(&me)))
}

/// Deletes rows you have already taken delivery of. Scoped to the caller's own
/// rows, so an id from someone else's mailbox is simply not found.
pub fn delete_mail(store: &mut HubStore, headers: &Headers, body: &[u8], now_ms: u64) -> (r: Result<u16, Error>)
    requires
        old(store).wf(),
    ensures
        final(store).wf(),
        final(store).prekeys == old(store).prekeys,
        final(store).rooms == old(store).rooms,
        match caller_of(headers@, now_ms) {
            Err(e) => r is Err && r->Err_0@ == e && *final(store) == *old(store),
            Ok(me) => match ids_of(body@) {
                None => r is Err && r->Err_0@ == (400u16, "malformed body"@) && *final(store) == *old(store),
                Some(ids) => r is Ok && r->Ok_0 == 204 && final(store).mail@ == store::delivered(
                    old(store).mail@,
                    me,
                    ids,
                ),
            },
        },
{
    let me = match authenticate(headers, now_ms) {
        Ok(me) => me,
        Err(e) => return Err(e),
    };
    let ids = match decode_ids(body) {
        Some(ids) => ids,
        None => return Err(refuse(400, "malformed body")),
    };
    store.delete_mail(&me, ids.as_slice());
    Ok(204)
}

/// The bytes of the messages of a mailbox, without their number.
pub open spec fn mail_items(mail: Seq<(i64, e2e::EnvelopeView)>) -> Seq<u8>
    decreases mail.len(),
{
    if mail.len() == 0 {
        Seq::empty()
    } else {
        mail_items(mail.drop_last()) + codec::varint(codec::zigzag(mail.last().0 as int))
            + mail.last().1.encoded()
    }
}

/// The bytes of a mailbox: the number of messages, then each row's id and its
/// envelope.
pub open spec fn mail_bytes(mail: Seq<(i64, e2e::EnvelopeView)>) -> Seq<u8> {
    codec::varint(mail.len()) + mail_items(mail)
}

/// Reads `n` messages.
pub open spec fn read_mail(n: nat, b: Seq<u8>) -> Option<(Seq<(i64, e2e::EnvelopeView)>, Seq<u8>)>
    decreases n,
{
    if n == 0 {
        Some((Seq::empty(), b))
    } else {
        match read_mail((n - 1) as nat, b) {
            Some((mail, rest)) => match codec::read_i64(rest) {
                Some((id, rest)) => match e2e::read_envelope(rest) {
                    Some((e, rest)) => Some((mail.push((id as i64, e)), rest)),
                    None => None,
                },
                None => None,
            },
            None => None,
        }
    }
}

/// The mailbox that bytes start with.
pub open spec fn mail_of(b: Seq<u8>) -> Option<Seq<(i64, e2e::EnvelopeView)>> {
    match codec::read_len(b) {
        Some((n, rest)) => match read_mail(n, rest) {
            Some((mail, _)) => Some(mail),
            None => None,
        },
        None => None,
    }
}

/// Messages are read back.
pub proof fn lemma_mail_roundtrip(mail: Seq<(i64, e2e::EnvelopeView)>, rest: Seq<u8>)
    requires
        forall|i: int| 0 <= i < mail.len() ==> (#[trigger] mail[i]).1.fits(),
    ensures
        read_mail(mail.len(), mail_items(mail) + rest) == Some((mail, rest)),
    decreases mail.len(),
{
    if mail.len() == 0 {
        assert(mail_items(mail) + rest =~= rest);
        assert(mail =~= Seq::empty());
    } else {
        let init = mail.drop_last();
        let last = mail.last();
        let r2 = last.1.encoded() + rest;
        let r1 = codec::varint(codec::zigzag(last.0 as int)) + r2;
        assert(mail_items(mail) + rest =~= mail_items(init) + r1);
        assert forall|i: int| 0 <= i < init.len() implies (#[trigger] init[i]).1.fits() by {
            assert(init[i] == mail[i]);
        }
        lemma_mail_roundtrip(init, r1);
        codec::lemma_i64_roundtrip(last.0, r2);
        e2e::lemma_envelope_roundtrip(last.1, rest);
        assert(init.push((last.0 as int as i64, last.1)) =~= mail);
    }
}

/// Computes [`mail_bytes`]; [`decode_mail`] reads it back.
pub fn encode_mail(mail: &Vec<(i64, Envelope)>) -> (r: Vec<u8>)
    ensures
        r@ == mail_bytes(store::mail_view(mail@)),
        mail_of(r@) == Some(store::mail_view(mail@)),
{
    let ghost all = store::mail_view(mail@);
    let mut out = codec::write_u64(mail.len() as u64);
    let mut i: usize = 0;
    while i < mail.len()
        invariant
            i <= mail@.len(),
            all == store::mail_view(mail@),
            out@ == codec::varint(mail@.len()) + mail_items(all.take(i as int)),
        decreases mail@.len() - i,
    {
        out.extend_from_slice(&codec::write_i64(mail[i].0));
        out.extend_from_slice(&mail[i].1.encode());
        proof {
            let next = all.take(i + 1);
            assert(next.drop_last() =~= all.take(i as int));
            assert(next.last() == (mail@[i as int].0, mail@[i as int].1@));
            assert(out@ =~= codec::varint(mail@.len()) + mail_items(next));
        }
        i = i + 1;
    }
    proof {
        assert(all.take(i as int) =~= all);
        assert forall|i: int| 0 <= i < all.len() implies (#[trigger] all[i]).1.fits() by {
            assert(mail@[i].1.ciphertext@.len() == mail@[i].1.ciphertext.len());
            assert(mail@[i].1.signature@.len() == mail@[i].1.signature.len());
        }
        codec::lemma_len_roundtrip(all.len(), mail_items(all));
        lemma_mail_roundtrip(all, Seq::empty());
        assert(mail_items(all) + Seq::<u8>::empty() =~= mail_items(all));
    }
    out
}

/// Computes [`mail_of`].
pub fn decode_mail(b: &[u8]) -> (r: Option<Vec<(i64, Envelope)>>)
    ensures
        match mail_of(b@) {
            Some(mail) => r is Some && store::mail_view(r->0@) == mail,
            None => r is None,
        },
{
    let (n, start) = match codec::take_len(b) {
        Some(x) => x,
        None => return None,
    };
    let mut out: Vec<(i64, Envelope)> = Vec::new();
    let mut rest: &[u8] = start;
    let mut i: usize = 0;
    assert(store::mail_view(out@) =~= Seq::empty());
    while i < n
        invariant
            i <= n,
            codec::read_len(b@) == Some((n as nat, start@)),
            read_mail(i as nat, start@) == Some((store::mail_view(out@), rest@)),
        decreases n - i,
    {
        let ghost before = out@;
        let (id, after) = match codec::take_i64(rest) {
            Some(x) => x,
            None => {
                proof {
                    lemma_mail_fault_persists(n as nat, (i + 1) as nat, start@);
                }
                return None;
            },
        };
        let (envelope, after) = match Envelope::take(after) {
            Some(x) => x,
            None => {
                proof {
                    lemma_mail_fault_persists(n as nat, (i + 1) as nat, start@);
                }
                return None;
            },
        };
        out.push((id, envelope));
        rest = after;
        i = i + 1;
        assert(store::mail_view(out@) =~= store::mail_view(before).push((id, envelope@)));
    }
    Some(out)
}

proof fn lemma_mail_fault_persists(n: nat, i: nat, b: Seq<u8>)
    requires
        i <= n,
        read_mail(i, b) is None,
    ensures
        read_mail(n, b) is None,
    decreases n,
{
    if i < n {
        lemma_mail_fault_persists((n - 1) as nat, i, b);
    }
}

/// The bytes of ids, without their number.
pub open spec fn id_items(ids: Seq<i64>) -> Seq<u8>
    decreases ids.len(),
{
    if ids.len() == 0 {
        Seq::empty()
    } else {
        id_items(ids.drop_last()) + codec::varint(codec::zigzag(ids.last() as int))
    }
}

/// The bytes of a list of row ids.
pub open spec fn id_bytes(ids: Seq<i64>) -> Seq<u8> {
    codec::varint(ids.len()) + id_items(ids)
}

/// Reads `n` ids.
pub open spec fn read_ids(n: nat, b: Seq<u8>) -> Option<(Seq<i64>, Seq<u8>)>
    decreases n,
{
    if n == 0 {
        Some((Seq::empty(), b))
    } else {
        match read_ids((n - 1) as nat, b) {
            Some((ids, rest)) => match codec::read_i64(rest) {
                Some((id, rest)) => Some((ids.push(id as i64), rest)),
                None => None,
            },
            None => None,
        }
    }
}

/// The row ids that bytes start with.
pub open spec fn ids_of(b: Seq<u8>) -> Option<Seq<i64>> {
    match codec::read_len(b) {
        Some((n, rest)) => match read_ids(n, rest) {
            Some((ids, _)) => Some(ids),
            None => None,
        },
        None => None,
    }
}

/// Ids are read back.
pub proof fn lemma_ids_roundtrip(ids: Seq<i64>, rest: Seq<u8>)
    ensures
        read_ids(ids.len(), id_items(ids) + rest) == Some((ids, rest)),
    decreases ids.len(),
{
    if ids.len() == 0 {
        assert(id_items(ids) + rest =~= rest);
        assert(ids =~= Seq::empty());
    } else {
        let init = ids.drop_last();
        let r1 = codec::varint(codec::zigzag(ids.last() as int)) + rest;
        assert(id_items(ids) + rest =~= id_items(init) + r1);
        lemma_ids_roundtrip(init, r1);
        codec::lemma_i64_roundtrip(ids.last(), rest);
        assert(init.push(ids.last() as int as i64) =~= ids);
    }
}

/// Computes [`id_bytes`]; [`decode_ids`] reads it back.
pub fn encode_ids(ids: &[i64]) -> (r: Vec<u8>)
    ensures
        r@ == id_bytes(ids@),
        ids_of(r@) == Some(ids@),
{
    let mut out = codec::write_u64(ids.len() as u64);
    let mut i: usize = 0;
    while i < ids.len()
        invariant
            i <= ids@.len(),
            out@ == codec::varint(ids@.len()) + id_items(ids@.take(i as int)),
        decreases ids@.len() - i,
    {
        out.extend_from_slice(&codec::write_i64(ids[i]));
        proof {
            let next = ids@.take(i + 1);
            assert(next.drop_last() =~= ids@.take(i as int));
            assert(out@ =~= codec::varint(ids@.len()) + id_items(next));
        }
        i = i + 1;
    }
    proof {
        assert(ids@.take(i as int) =~= ids@);
        codec::lemma_len_roundtrip(ids@.len(), id_items(ids@));
        lemma_ids_roundtrip(ids@, Seq::empty());
        assert(id_items(ids@) + Seq::<u8>::empty() =~= id_items(ids@));
    }
    out
}

/// Computes [`ids_of`].
pub fn decode_ids(b: &[u8]) -> (r: Option<Vec<i64>>)
    ensures
        match ids_of(b@) {
            Some(ids) => r is Some && r->0@ == ids,
            None => r is None,
        },
{
    let (n, start) = match codec::take_len(b) {
        Some(x) => x,
        None => return None,
    };
    let mut out: Vec<i64> = Vec::new();
    let mut rest: &[u8] = start;
    let mut i: usize = 0;
    while i < n
        invariant
            i <= n,
            codec::read_len(b@) == Some((n as nat, start@)),
            read_ids(i as nat, start@) == Some((out@, rest@)),
        decreases n - i,
    {
        match codec::take_i64(rest) {
            Some((id, after)) => {
                out.push(id);
                rest = after;
                i = i + 1;
            },
            None => {
                proof {
                    lemma_ids_fault_persists(n as nat, (i + 1) as nat, start@);
                }
                return None;
            },
        }
    }
    Some(out)
}

proof fn lemma_ids_fault_persists(n: nat, i: nat, b: Seq<u8>)
    requires
        i <= n,
        read_ids(i, b) is None,
    ensures
        read_ids(n, b) is None,
    decreases n,
{
    if i < n {
        lemma_ids_fault_persists((n - 1) as nat, i, b);
    }
}

/// A sender's backlog never outgrows the quota: what is accepted leaves it at
/// most at the ceiling.
pub proof fn law_quota_holds(
    before: Seq<store::MailRow>,
    after: Seq<store::MailRow>,
    recipient: Seq<char>,
    body: Seq<u8>,
)
    requires
        posting_fault(before, recipient, body) is None,
        after.len() == before.len() + 1,
        after.drop_last() == before,
        after.last().sender == (e2e::read_envelope(body)->0).0.sender,
        after.last().recipient == (e2e::read_envelope(body)->0).0.recipient,
    ensures
        store::backlog(after, after.last().sender, after.last().recipient).len() <= QUOTA_PER_SENDER,
{
    reveal(Seq::filter);
}

/// An endpoint id reads back from its hexadecimal digits, with or without blanks
/// around them.
pub proof fn law_endpoints_read_back(key: [u8; 32], front: Seq<char>, back: Seq<char>)
    requires
        forall|i: int| 0 <= i < front.len() ==> text::blank(#[trigger] front[i]),
        forall|i: int| 0 <= i < back.len() ==> text::blank(#[trigger] back[i]),
    ensures
        endpoint_of(front + bytes::hex(key@) + back) == Ok::<[u8; 32], Refusal>(key),
{
    let h = bytes::hex(key@);
    assert(h.len() == 64);
    assert(!text::blank(h[0]) && !text::blank(h[63]));
    text::law_trimming_takes_the_blanks(front, h, back);
    bytes::lemma_hex_roundtrip(key@);
    bytes::lemma_array_of(key);
}

/// An envelope of up to 64 KiB that its sender signed is taken for the endpoint
/// that it is addressed to, while fewer than two hundred of that sender's wait
/// there.
pub proof fn law_signed_envelopes_are_taken(mail: Seq<store::MailRow>, e: e2e::EnvelopeView)
    requires
        e.encoded().len() <= 64 * 1024,
        e.signature.len() == 64,
        crypto::ed25519_key_valid(e.sender@),
        crypto::ed25519_accepts(
            e.sender@,
            vstd::utf8::encode_utf8("wicara envelope signature v1"@) + (e.sender@ + e.recipient@ + e.ephemeral@
                + e.prekey@) + e.nonce@ + e.ciphertext,
            e.signature,
        ),
        mail.filter(|row: store::MailRow| row.sender == e.sender && row.recipient == e.recipient).len() < 200,
    ensures
        posting_fault(mail, bytes::hex(e.recipient@), e.encoded()) is None,
{
    let none = Seq::<char>::empty();
    law_endpoints_read_back(e.recipient, none, none);
    assert(none + bytes::hex(e.recipient@) + none =~= bytes::hex(e.recipient@));
    assert(e.fits()) by {
        assert(e.encoded().len() >= e.ciphertext.len());
    }
    e2e::lemma_envelope_roundtrip(e, Seq::empty());
    assert(e.encoded() + Seq::<u8>::empty() =~= e.encoded());
}

/// What is taken is handed out: after an envelope was filed under its recipient,
/// the recipient's mailbox holds it behind all that was there before.
pub proof fn law_taken_mail_arrives(
    before: Seq<store::MailRow>,
    row: store::MailRow,
    recipient: Seq<char>,
    e: e2e::EnvelopeView,
)
    requires
        posting_fault(before, recipient, e.encoded()) is None,
        e.fits(),
        row.blob@ == e.encoded(),
        row.recipient == e.recipient,
    ensures
        store::mailbox(before.push(row), e.recipient) == store::mailbox(before, e.recipient).push((row.id, e)),
{
    store::law_filed_mail_is_handed_out(before, row, e, e.recipient);
}

/// Why mail is refused: over 64 KiB, a quota of two hundred, an address that is
/// not the envelope's.
pub proof fn law_refusals_of_mail(mail: Seq<store::MailRow>, recipient: [u8; 32], e: e2e::EnvelopeView)
    requires
        e.fits(),
    ensures
        ({
            let fault = posting_fault(mail, bytes::hex(recipient@), e.encoded());
            let waiting = mail.filter(
                |row: store::MailRow| row.sender == e.sender && row.recipient == e.recipient,
            ).len();
            &&& e.encoded().len() > 64 * 1024 ==> fault is Some && (fault->0).0 == 413
            &&& e.encoded().len() <= 64 * 1024 && e.recipient != recipient ==> fault is Some && (fault->0).0 == 400
            &&& e.encoded().len() <= 64 * 1024 && e.recipient == recipient && e.signature_fault() is Some
                ==> fault is Some && (fault->0).0 == 400
            &&& e.encoded().len() <= 64 * 1024 && e.recipient == recipient && e.signature_fault() is None && waiting
                >= 200 ==> fault is Some && (fault->0).0 == 429
            &&& fault is None ==> waiting < 200 && e.encoded().len() <= 64 * 1024 && e.recipient == recipient
                && e.signature_fault() is None
        }),
{
    let none = Seq::<char>::empty();
    law_endpoints_read_back(recipient, none, none);
    assert(none + bytes::hex(recipient@) + none =~= bytes::hex(recipient@));
    e2e::lemma_envelope_roundtrip(e, Seq::empty());
    assert(e.encoded() + Seq::<u8>::empty() =~= e.encoded());
}

/// A prekey is published just where its owner signed it.
pub proof fn law_signed_prekeys_are_published(p: e2e::PrekeyView)
    requires
        p.signature.len() <= usize::MAX,
    ensures
        publishing_fault(p.encoded()) is None <==> p.signature.len() == 64 && crypto::ed25519_key_valid(p.owner@)
            && crypto::ed25519_accepts(
            p.owner@,
            vstd::utf8::encode_utf8("wicara prekey signature v1"@) + p.owner@ + p.prekey@ + bytes::le64(p.created_ms),
            p.signature,
        ),
        e2e::read_prekey(p.encoded()) == Some((p, Seq::<u8>::empty())),
{
    e2e::lemma_prekey_roundtrip(p, Seq::empty());
    assert(p.encoded() + Seq::<u8>::empty() =~= p.encoded());
}

/// Undelivered mail is kept for seven days.
pub proof fn law_mail_is_kept_for_a_week(rows: Seq<store::MailRow>, now_ms: u64, i: int)
    requires
        now_ms <= i64::MAX,
        forall|k: int| 0 <= k < rows.len() ==> (#[trigger] rows[k]).received_ms >= 0,
        0 <= i < rows.len(),
    ensures
        rows[i].received_ms + 7 * 24 * 60 * 60 * 1000 >= now_ms ==> store::fresh(
            rows,
            store::cutoff(now_ms, TTL_MS),
        ).contains(rows[i]),
        forall|k: int|
            0 <= k < store::fresh(rows, store::cutoff(now_ms, TTL_MS)).len() ==> (#[trigger] store::fresh(
                rows,
                store::cutoff(now_ms, TTL_MS),
            )[k]).received_ms + 7 * 24 * 60 * 60 * 1000 >= now_ms,
{
    let p = |row: store::MailRow| row.received_ms + TTL_MS >= now_ms;
    store::law_sweep_takes_the_stale(rows, now_ms, TTL_MS);
    if p(rows[i]) {
        rows.lemma_filter_contains(p, i);
    }
    assert forall|k: int| 0 <= k < rows.filter(p).len() implies p(#[trigger] rows.filter(p)[k]) by {
        rows.lemma_filter_pred(p, k);
    }
}

} // verus!
