//! The client's side of the hub: publish a prekey, mail to someone offline,
//! drain your own mailbox.
//!
//! Each exchange is a request that is built here and a reply that is judged
//! here; carrying them is someone else's business.

use crate::e2e::{mailbox_auth, E2eError, Envelope, SignedPrekey, VerifiedPrekey};
use crate::hub_server::Headers;
use crate::keys::{SigningKey, StaticSecret};
use crate::{bytes, crypto, e2e, hub_server, text, wire};
use vstd::prelude::*;

verus! {

/// The verb of a request.
#[derive(Clone, Copy, Debug, PartialEq, Eq, Structural)]
pub enum Method {
    Get,
    Put,
    Post,
    Delete,
}

/// A request to the hub.
pub struct Request {
    pub method: Method,
    pub url: String,
    /// Present where the request has to prove whose it is.
    pub auth: Option<Headers>,
    pub body: Vec<u8>,
}

/// Why an exchange with the hub failed.
#[derive(Clone, Copy, Debug, PartialEq, Eq, Structural)]
pub enum HubError {
    /// The endpoint has not published a prekey.
    NoPrekey,
    /// The hub answered with this status.
    Status(u16),
    /// The reply does not decode.
    Malformed,
    /// A prekey was refused, or a message could not be sealed.
    Sealing(E2eError),
}

/// A status in writing: its number and what it is commonly called.
pub uninterp spec fn status_line(status: u16) -> Seq<char>;

/// `reqwest::StatusCode` of a number, written out. It takes the numbers of three
/// digits.
#[verifier::external_body]
fn write_status(status: u16) -> (r: String)
    requires
        100 <= status <= 999,
    ensures
        r@ == status_line(status),
{
    reqwest::StatusCode::from_u16(status).unwrap().to_string()
}

/// A status in writing; a number that is none as it is.
pub open spec fn status_told(status: u16) -> Seq<char> {
    if 100 <= status <= 999 {
        status_line(status)
    } else {
        text::decimal(status as nat)
    }
}

/// Computes [`status_told`].
fn tell_status(status: u16) -> (r: String)
    ensures
        r@ == status_told(status),
{
    if 100 <= status && status <= 999 {
        write_status(status)
    } else {
        text::decimal_of(status as u64)
    }
}

impl HubError {
    /// The text of the error.
    pub open spec fn text(self) -> Seq<char> {
        match self {
            HubError::NoPrekey => "that endpoint has not published a prekey"@,
            HubError::Status(status) => "hub returned "@ + status_told(status),
            HubError::Malformed => "the hub's reply does not decode"@,
            HubError::Sealing(e) => e.text(),
        }
    }

    /// Computes [`HubError::text`].
    pub fn message(&self) -> (r: String)
        ensures
            r@ == self.text(),
    {
        match self {
            HubError::NoPrekey => "that endpoint has not published a prekey".to_owned(),
            HubError::Status(status) => "hub returned ".to_owned().concat(tell_status(*status).as_str()),
            HubError::Malformed => "the hub's reply does not decode".to_owned(),
            HubError::Sealing(e) => e.message(),
        }
    }
}

/// What is said of a prekey that the hub does not take.
pub open spec fn prekey_refusal(status: u16) -> Seq<char> {
    "hub refused the prekey: "@ + status_told(status)
}

/// What is said of a message that the hub does not take, with the hub's own
/// explanation behind.
pub open spec fn mail_refusal(status: u16, body: Seq<u8>) -> Seq<char> {
    "hub refused the message: "@ + status_told(status) + " "@ + text::lossy(body)
}

/// Whether a status is one of success.
pub open spec fn success(status: u16) -> bool {
    200 <= status <= 299
}

/// The client of one hub, for one identity.
pub struct Hub {
    base: String,
    identity: SigningKey,
}

/// A string without the slashes behind.
pub open spec fn without_slashes(s: Seq<char>) -> Seq<char>
    decreases s.len(),
{
    if s.len() > 0 && s.last() == '/' {
        without_slashes(s.drop_last())
    } else {
        s
    }
}

impl Hub {
    /// The address of the hub, without slashes behind.
    pub closed spec fn base(&self) -> Seq<char> {
        self.base@
    }

    /// The secret bytes of the identity.
    pub closed spec fn identity(&self) -> Seq<u8> {
        self.identity@
    }

    /// The endpoint id of the identity.
    pub open spec fn me(&self) -> Seq<u8> {
        crypto::ed25519_public(self.identity())
    }

    /// A client of the hub at `base`.
    pub fn new(base: &str, identity: SigningKey) -> (r: Hub)
        ensures
            r.base() == without_slashes(base@),
            r.identity() == identity@,
    {
        let chars = text::chars_of(base);
        let mut end: usize = chars.len();
        assert(chars@.take(end as int) =~= chars@);
        while end > 0 && chars[end - 1] == '/'
            invariant
                end <= chars@.len(),
                without_slashes(chars@.take(end as int)) == without_slashes(chars@),
            decreases end,
        {
            assert(chars@.take(end as int).drop_last() =~= chars@.take(end - 1));
            end = end - 1;
        }
        assert(chars@.take(end as int) =~= chars@.subrange(0, end as int));
        Hub { base: text::string_of(vstd::slice::slice_subrange(chars.as_slice(), 0, end)), identity }
    }

    /// The request that publishes the public half of `prekey`, signed at
    /// `now_ms`. The hub accepts it, and every client that knows this endpoint,
    /// if the signature commits to a point other than the neutral one.
    pub fn publish_prekey_at(&self, prekey: &StaticSecret, now_ms: u64) -> (r: Request)
        ensures
            r.method == Method::Put,
            r.url@ == self.base() + "/prekey"@,
            r.auth is None,
            ({
                let p = (e2e::read_prekey(r.body@)->0).0;
                &&& e2e::read_prekey(r.body@) is Some
                &&& p.owner@ == self.me()
                &&& p.prekey@ == prekey.public()
                &&& p.created_ms == now_ms
                &&& p.signature == crypto::ed25519_signature(
                    self.identity(),
                    e2e::prekey_bytes(self.me(), prekey.public(), now_ms),
                )
                &&& crypto::committed(p.signature) ==> hub_server::publishing_fault(r.body@) is None
            }),
    {
        let signed = SignedPrekey::new(&self.identity, prekey, now_ms);
        Request {
            method: Method::Put,
            url: self.base.clone().concat("/prekey"),
            auth: None,
            body: signed.encode(),
        }
    }

    /// The request that publishes the public half of `prekey`, signed now.
    pub fn publish_prekey(&self, prekey: &StaticSecret) -> (r: Request)
        ensures
            r.method == Method::Put,
            r.url@ == self.base() + "/prekey"@,
            r.auth is None,
            ({
                let p = (e2e::read_prekey(r.body@)->0).0;
                &&& e2e::read_prekey(r.body@) is Some
                &&& p.owner@ == self.me()
                &&& p.prekey@ == prekey.public()
                &&& p.signature == crypto::ed25519_signature(
                    self.identity(),
                    e2e::prekey_bytes(self.me(), prekey.public(), p.created_ms),
                )
                &&& crypto::committed(p.signature) ==> hub_server::publishing_fault(r.body@) is None
            }),
    {
        self.publish_prekey_at(prekey, wire::now_ms())
    }

    /// The request for what `owner` published. The hub reads the endpoint id
    /// back out of the address.
    pub fn prekey_for(&self, owner: &[u8; 32]) -> (r: Request)
        ensures
            r.method == Method::Get,
            r.url@ == self.base() + "/prekey/"@ + bytes::hex(owner@),
            r.auth is None,
            r.body@.len() == 0,
    {
        Request {
            method: Method::Get,
            url: self.base.clone().concat("/prekey/").concat(bytes::hex_encode(owner).as_str()),
            auth: None,
            body: Vec::new(),
        }
    }

    /// Seals `plaintext` and builds the request that leaves it for `recipient`.
    pub fn mail(&self, to: &VerifiedPrekey, recipient: &[u8; 32], plaintext: &[u8]) -> (r: Result<Request, HubError>)
        ensures
            r is Ok ==> {
                let e = (e2e::read_envelope(r->Ok_0.body@)->0).0;
                &&& r->Ok_0.method == Method::Post
                &&& r->Ok_0.url@ == self.base() + "/mail/"@ + bytes::hex(recipient@)
                &&& r->Ok_0.auth is None
                &&& e2e::read_envelope(r->Ok_0.body@) is Some
                &&& exists|ephemeral: Seq<u8>|
                    #[trigger] e2e::sealing_fault(ephemeral, to.key()@, plaintext@.len() as int) is None && e2e::seals(
                        e,
                        self.identity(),
                        to.owner(),
                        to.key(),
                        ephemeral,
                        plaintext@,
                    )
                &&& crypto::committed(e.signature) ==> e2e::readable(e, plaintext@)
            },
            r matches Err(e) ==> e matches HubError::Sealing(e) && (e == E2eError::RngUnavailable || exists|
                ephemeral: Seq<u8>,
            | #[trigger] e2e::sealing_fault(ephemeral, to.key()@, plaintext@.len() as int) == Some(e)),
    {
        self.mail_with(recipient, e2e::seal(&self.identity, to, plaintext))
    }

    /// The request that leaves an envelope for `recipient`, once it is sealed.
    pub fn mail_with(&self, recipient: &[u8; 32], sealed: Result<Envelope, E2eError>) -> (r: Result<Request, HubError>)
        ensures
            match sealed {
                Ok(envelope) => {
                    &&& r is Ok
                    &&& r->Ok_0.method == Method::Post
                    &&& r->Ok_0.url@ == self.base() + "/mail/"@ + bytes::hex(recipient@)
                    &&& r->Ok_0.auth is None
                    &&& r->Ok_0.body@ == envelope@.encoded()
                    &&& e2e::read_envelope(r->Ok_0.body@) == Some((envelope@, Seq::<u8>::empty()))
                },
                Err(e) => r == Err::<Request, HubError>(HubError::Sealing(e)),
            },
    {
        match sealed {
            Ok(envelope) => Ok(
                Request {
                    method: Method::Post,
                    url: self.base.clone().concat("/mail/").concat(bytes::hex_encode(recipient).as_str()),
                    auth: None,
                    body: envelope.encode(),
                },
            ),
            Err(e) => Err(HubError::Sealing(e)),
        }
    }

    /// The headers that prove a request made at `now_ms`. The hub takes it for
    /// this endpoint's while its clock is within the window, if the signature
    /// commits to a point other than the neutral one.
    pub fn auth_at(&self, now_ms: u64) -> (r: Headers)
        ensures
            r@ == auth_headers(
                self.me(),
                now_ms,
                crypto::ed25519_signature(self.identity(), mailbox_auth::auth_bytes(self.me(), now_ms)),
            ),
            crypto::committed(
                crypto::ed25519_signature(self.identity(), mailbox_auth::auth_bytes(self.me(), now_ms)),
            ) ==> forall|endpoint: [u8; 32], at: u64|
                endpoint@ == self.me() && at - now_ms <= 300_000 && now_ms - at <= 300_000
                    ==> #[trigger] mailbox_auth::auth_fault(
                    endpoint,
                    now_ms,
                    crypto::ed25519_signature(self.identity(), mailbox_auth::auth_bytes(self.me(), now_ms)),
                    at,
                ) is None,
    {
        let endpoint = self.identity.verifying_key().to_bytes();
        let signature = mailbox_auth::sign(&self.identity, now_ms);
        Headers {
            endpoint: Some(bytes::hex_encode(&endpoint)),
            timestamp: Some(text::decimal_of(now_ms)),
            signature: Some(bytes::hex_encode(&signature)),
        }
    }

    /// The request for your own mail, made at `now_ms`.
    pub fn fetch_mail_at(&self, now_ms: u64) -> (r: Request)
        ensures
            r.method == Method::Get,
            r.url@ == self.base() + "/mail"@,
            r.auth is Some,
            r.auth->0@ == auth_headers(
                self.me(),
                now_ms,
                crypto::ed25519_signature(self.identity(), mailbox_auth::auth_bytes(self.me(), now_ms)),
            ),
            r.body@.len() == 0,
    {
        Request {
            method: Method::Get,
            url: self.base.clone().concat("/mail"),
            auth: Some(self.auth_at(now_ms)),
            body: Vec::new(),
        }
    }

    /// The request for your own mail, made now.
    pub fn fetch_mail(&self) -> (r: Request)
        ensures
            r.method == Method::Get,
            r.url@ == self.base() + "/mail"@,
            r.auth is Some,
            r.body@.len() == 0,
            exists|now_ms: u64|
                r.auth->0@ == #[trigger] auth_headers(
                    self.me(),
                    now_ms,
                    crypto::ed25519_signature(self.identity(), mailbox_auth::auth_bytes(self.me(), now_ms)),
                ),
    {
        self.fetch_mail_at(wire::now_ms())
    }

    /// The request that clears delivered rows, made at `now_ms`; none where
    /// there is nothing to clear. Only after the messages are safely in the
    /// local store: the hub is the only copy until then.
    pub fn delete_mail_at(&self, ids: &[i64], now_ms: u64) -> (r: Option<Request>)
        ensures
            r is Some <==> ids@.len() > 0,
            r is Some ==> {
                &&& r->0.method == Method::Delete
                &&& r->0.url@ == self.base() + "/mail"@
                &&& r->0.auth is Some
                &&& r->0.auth->0@ == auth_headers(
                    self.me(),
                    now_ms,
                    crypto::ed25519_signature(self.identity(), mailbox_auth::auth_bytes(self.me(), now_ms)),
                )
                &&& hub_server::ids_of(r->0.body@) == Some(ids@)
            },
    {
        if ids.len() == 0 {
            return None;
        }
        Some(
            Request {
                method: Method::Delete,
                url: self.base.clone().concat("/mail"),
                auth: Some(self.auth_at(now_ms)),
                body: hub_server::encode_ids(ids),
            },
        )
    }

    /// The request that clears delivered rows, made now.
    pub fn delete_mail(&self, ids: &[i64]) -> (r: Option<Request>)
        ensures
            r is Some <==> ids@.len() > 0,
            r is Some ==> {
                &&& r->0.method == Method::Delete
                &&& r->0.url@ == self.base() + "/mail"@
                &&& r->0.auth is Some
                &&& exists|now_ms: u64|
                    r->0.auth->0@ == #[trigger] auth_headers(
                        self.me(),
                        now_ms,
                        crypto::ed25519_signature(self.identity(), mailbox_auth::auth_bytes(self.me(), now_ms)),
                    )
                &&& hub_server::ids_of(r->0.body@) == Some(ids@)
            },
    {
        self.delete_mail_at(ids, wire::now_ms())
    }
}

/// The headers of an endpoint's request at a time, with a signature.
pub open spec fn auth_headers(endpoint: Seq<u8>, ts_ms: u64, signature: Seq<u8>) -> hub_server::HeadersView {
    hub_server::HeadersView {
        endpoint: Some(bytes::hex(endpoint)),
        timestamp: Some(text::decimal(ts_ms as nat)),
        signature: Some(bytes::hex(signature)),
    }
}

/// The hub takes a request for the endpoint's own exactly when the signature in
/// its headers is one that the mailbox accepts: nothing is lost in writing the
/// headers as text.
pub proof fn law_headers_carry_the_proof(endpoint: [u8; 32], ts_ms: u64, signature: Seq<u8>, now_ms: u64)
    ensures
        hub_server::caller_of(auth_headers(endpoint@, ts_ms, signature), now_ms) == (
        match mailbox_auth::auth_fault(endpoint, ts_ms, signature, now_ms) {
            None => Ok::<[u8; 32], hub_server::Refusal>(endpoint),
            Some(e) => Err((401u16, e.text())),
        }),
{
    assert(text::trimmed(bytes::hex(endpoint@)) == bytes::hex(endpoint@));
    bytes::lemma_hex_roundtrip(endpoint@);
    bytes::lemma_hex_roundtrip(signature);
    bytes::lemma_array_of(endpoint);
    text::lemma_decimal_parses(ts_ms);
}

/// Judges the reply to [`Hub::prekey_for`]: what the hub hands back is checked
/// against the endpoint id you already have. Without that check the hub could
/// hand back its own key and read every offline message you ever send.
pub fn prekey_reply(owner: &[u8; 32], status: u16, body: &[u8]) -> (r: Result<VerifiedPrekey, HubError>)
    ensures
        status == 404 ==> r == Err::<VerifiedPrekey, HubError>(HubError::NoPrekey),
        status != 404 && !success(status) ==> r == Err::<VerifiedPrekey, HubError>(HubError::Status(status)),
        success(status) ==> match e2e::read_prekey(body@) {
            None => r == Err::<VerifiedPrekey, HubError>(HubError::Malformed),
            Some((p, _)) => match e2e::prekey_fault(p, *owner) {
                Some(e) => r == Err::<VerifiedPrekey, HubError>(HubError::Sealing(e)),
                None => r is Ok && r->Ok_0.owner() == *owner && r->Ok_0.key() == p.prekey,
            },
        },
{
    if status == 404 {
        return Err(HubError::NoPrekey);
    }
    if status < 200 || status > 299 {
        return Err(HubError::Status(status));
    }
    match SignedPrekey::decode(body) {
        None => Err(HubError::Malformed),
        Some(signed) => match signed.verify(owner) {
            Ok(key) => Ok(key),
            Err(e) => Err(HubError::Sealing(e)),
        },
    }
}

/// Judges the reply to [`Hub::publish_prekey`].
pub fn publish_reply(status: u16) -> (r: Result<(), String>)
    ensures
        r is Ok <==> success(status),
        r matches Err(s) ==> s@ == prekey_refusal(status),
{
    if 200 <= status && status <= 299 {
        Ok(())
    } else {
        Err("hub refused the prekey: ".to_owned().concat(tell_status(status).as_str()))
    }
}

/// Judges the reply to [`Hub::mail`].
pub fn posted_reply(status: u16, body: &[u8]) -> (r: Result<(), String>)
    ensures
        r is Ok <==> success(status),
        r matches Err(s) ==> s@ == mail_refusal(status, body@),
{
    if 200 <= status && status <= 299 {
        Ok(())
    } else {
        Err(
            "hub refused the message: ".to_owned().concat(tell_status(status).as_str()).concat(
                " ",
            ).concat(text::from_utf8_lossy(body).as_str()),
        )
    }
}

/// Judges the reply to [`Hub::delete_mail`], of which only the status counts.
pub fn plain_reply(status: u16) -> (r: Result<(), HubError>)
    ensures
        r is Ok <==> success(status),
        r is Err ==> r->Err_0 == HubError::Status(status),
{
    if 200 <= status && status <= 299 {
        Ok(())
    } else {
        Err(HubError::Status(status))
    }
}

/// Judges the reply to [`Hub::fetch_mail`].
pub fn mail_reply(status: u16, body: &[u8]) -> (r: Result<Vec<(i64, Envelope)>, HubError>)
    ensures
        !success(status) ==> r is Err && r->Err_0 == HubError::Status(status),
        success(status) ==> match hub_server::mail_of(body@) {
            None => r is Err && r->Err_0 == HubError::Malformed,
            Some(mail) => r is Ok && hub_server::store::mail_view(r->Ok_0@) == mail,
        },
{
    if status < 200 || status > 299 {
        return Err(HubError::Status(status));
    }
    match hub_server::decode_mail(body) {
        Some(mail) => Ok(mail),
        None => Err(HubError::Malformed),
    }
}

/// Requests go to the hub's address without the slashes at its end, and without
/// any other change.
pub proof fn law_only_trailing_slashes_go(s: Seq<char>, slashes: Seq<char>)
    requires
        s.len() > 0 ==> s.last() != '/',
        forall|i: int| 0 <= i < slashes.len() ==> (#[trigger] slashes[i]) == '/',
    ensures
        without_slashes(s + slashes) == s,
    decreases slashes.len(),
{
    if slashes.len() > 0 {
        let init = slashes.drop_last();
        assert(slashes[slashes.len() - 1] == '/');
        assert((s + slashes).drop_last() =~= s + init);
        assert forall|i: int| 0 <= i < init.len() implies (#[trigger] init[i]) == '/' by {
            assert(init[i] == slashes[i]);
        }
        law_only_trailing_slashes_go(s, init);
    } else {
        assert(s + slashes =~= s);
    }
}

/// Every status from 200 to 299 is one of success, and no other.
pub proof fn law_two_hundreds_succeed(status: u16)
    ensures
        success(status) <==> status / 100 == 2,
{
}

} // verus!
