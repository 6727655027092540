//! The hub, and its clients.

use wicara::e2e::{open, seal, E2eError, Envelope, SignedPrekey};
use wicara::hub::{mail_reply, plain_reply, posted_reply, prekey_reply, publish_reply, Hub, HubError, Method};
use wicara::hub_server::store::HubStore;
use wicara::hub_server::{
    authenticate, decode_ids, decode_mail, delete_mail, encode_ids, encode_mail, get_mail, get_prekey,
    now_ms, parse_endpoint, post_mail, put_prekey, verify_envelope_sender, Error, Headers, MAX_ENVELOPE,
    QUOTA_PER_SENDER, TTL_MS,
};
use wicara::keys::{SigningKey, StaticSecret};

fn envelope(from: u8, to: u8) -> (Envelope, Vec<u8>) {
    let sender = SigningKey::from_bytes(&[from; 32]);
    let recipient = SigningKey::from_bytes(&[to; 32]);
    let prekey = StaticSecret::from([to.wrapping_add(50); 32]);
    let verified =
        SignedPrekey::new(&recipient, &prekey, 1).verify(&recipient.verifying_key().to_bytes()).unwrap();
    let env = seal(&sender, &verified, b"offline hello").unwrap();
    let blob = env.encode();
    (env, blob)
}

#[test]
fn quota_sweep_and_scoped_deletes() {
    let mut store = HubStore::new();

    let (env, blob) = envelope(1, 2);
    let (alice, bob) = (env.sender, env.recipient);
    let (other, other_blob) = envelope(3, 2);

    for _ in 0..3 {
        store.put_mail(&alice, &bob, &blob);
    }
    store.put_mail(&other.sender, &bob, &other_blob);

    // The quota counts one sender's backlog, not the mailbox's total.
    assert_eq!(store.pending_from(&alice, &bob), 3);
    assert_eq!(store.pending_from(&other.sender, &bob), 1);
    assert_eq!(store.mail_for(&bob).len(), 4);
    assert!(store.mail_for(&alice).is_empty());

    // Deletes are scoped: Alice cannot clear Bob's mailbox with his row ids.
    let ids: Vec<i64> = store.mail_for(&bob).iter().map(|(i, _)| *i).collect();
    assert_eq!(store.delete_mail(&alice, &ids), 0);
    assert_eq!(store.mail_for(&bob).len(), 4);
    assert_eq!(store.delete_mail(&bob, &ids[..2]), 2);
    assert_eq!(store.mail_for(&bob).len(), 2);

    // The sweep takes expired rows and leaves fresh ones.
    assert_eq!(store.sweep(60 * 60 * 1000), 0);
    for row in &mut store.mail {
        if row.id == ids[2] {
            row.received_ms = 0;
        }
    }
    assert_eq!(store.sweep(60 * 60 * 1000), 1);
    assert_eq!(store.mail_for(&bob).len(), 1);

    // Prekeys: last publish wins.
    let bob_key = SigningKey::from_bytes(&[2u8; 32]);
    for (n, seed) in [(1u64, 60u8), (2, 61)] {
        let pk = SignedPrekey::new(&bob_key, &StaticSecret::from([seed; 32]), n);
        store.put_prekey(&pk, &pk.encode());
    }
    let stored = SignedPrekey::decode(&store.prekey(&bob).unwrap()).unwrap();
    assert_eq!(stored.created_ms, 2);
    assert!(stored.verify(&bob).is_ok());

    // Rooms: a log may grow, never shrink.
    let room_id = [42u8; 32];
    assert!(store.put_room(&room_id, 3, b"three-entry log"));
    assert!(store.put_room(&room_id, 5, b"five-entry log"));
    assert!(!store.put_room(&room_id, 2, b"erased"));
    assert_eq!(store.room(&room_id).unwrap(), b"five-entry log");
}

#[test]
fn a_message_goes_through_the_hub_and_is_cleared() {
    let mut store = HubStore::new();
    let now = 1_700_000_000_000;
    let bob_secret = StaticSecret::from([7u8; 32]);
    let bob_id = SigningKey::from_bytes(&[2u8; 32]).verifying_key().to_bytes();
    let alice_id = SigningKey::from_bytes(&[1u8; 32]).verifying_key().to_bytes();
    let alice = Hub::new("http://hub:8787//", SigningKey::from_bytes(&[1u8; 32]));
    let bob = Hub::new("http://hub:8787", SigningKey::from_bytes(&[2u8; 32]));

    // Bob publishes, Alice asks for it and checks it.
    let publish = bob.publish_prekey_at(&bob_secret, now);
    assert_eq!((publish.method, publish.url.as_str()), (Method::Put, "http://hub:8787/prekey"));
    assert_eq!(put_prekey(&mut store, &publish.body), Ok(204));
    let ask = alice.prekey_for(&bob_id);
    let hex = data_encoding::HEXLOWER.encode(&bob_id);
    assert_eq!((ask.method, ask.url), (Method::Get, format!("http://hub:8787/prekey/{hex}")));
    let reply = get_prekey(&store, &hex).unwrap();
    let verified = prekey_reply(&bob_id, 200, &reply).unwrap();
    assert_eq!(prekey_reply(&alice_id, 200, &reply).unwrap_err(), HubError::Sealing(E2eError::OtherOwner));

    // Alice mails, Bob fetches and opens.
    let mail = alice.mail(&verified, &bob_id, b"see you at six").unwrap();
    assert_eq!((mail.method, mail.url), (Method::Post, format!("http://hub:8787/mail/{hex}")));
    assert_eq!(post_mail(&mut store, &hex, &mail.body, now), Ok(202));
    assert_eq!(
        alice.mail_with(&bob_id, Err(E2eError::RngUnavailable)).err().unwrap(),
        HubError::Sealing(E2eError::RngUnavailable)
    );
    let again = Envelope::decode(&mail.body).unwrap();
    assert_eq!(alice.mail_with(&bob_id, Ok(again)).ok().unwrap().body, mail.body);
    let fetch = bob.fetch_mail_at(now);
    assert_eq!((fetch.method, fetch.url.as_str()), (Method::Get, "http://hub:8787/mail"));
    let body = get_mail(&store, fetch.auth.as_ref().unwrap(), now).unwrap();
    let box_of_bob = mail_reply(200, &body).unwrap();
    assert_eq!(box_of_bob.len(), 1);
    let (text, sender) = open(&box_of_bob[0].1, &bob_secret, &bob_id).unwrap();
    assert_eq!((text.as_slice(), sender), (b"see you at six".as_slice(), alice_id));

    // Alice's own mailbox is empty, and she cannot clear Bob's.
    let hers = alice.fetch_mail_at(now);
    assert!(mail_reply(200, &get_mail(&store, hers.auth.as_ref().unwrap(), now).unwrap()).unwrap().is_empty());
    let ids = [box_of_bob[0].0];
    let grab = alice.delete_mail_at(&ids, now).unwrap();
    assert_eq!(delete_mail(&mut store, grab.auth.as_ref().unwrap(), &grab.body, now), Ok(204));
    assert_eq!(store.mail_for(&bob_id).len(), 1);
    let clear = bob.delete_mail_at(&ids, now).unwrap();
    assert_eq!((clear.method, clear.url.as_str()), (Method::Delete, "http://hub:8787/mail"));
    assert_eq!(delete_mail(&mut store, clear.auth.as_ref().unwrap(), &clear.body, now), Ok(204));
    assert!(store.mail_for(&bob_id).is_empty());
    assert!(bob.delete_mail_at(&[], now).is_none());

    // The same requests, made by the clock.
    assert!(authenticate(bob.fetch_mail().auth.as_ref().unwrap(), now_ms()).is_ok());
    assert!(bob.delete_mail(&ids).is_some());
    assert_eq!(put_prekey(&mut store, &bob.publish_prekey(&bob_secret).body), Ok(204));
}

fn refused(status: u16, text: &str) -> Error {
    Error { status, text: text.into() }
}

#[test]
fn each_refusal_of_the_hub_has_its_status() {
    let mut store = HubStore::new();
    let now = 1_700_000_000_000;
    let (env, blob) = envelope(1, 2);
    let hex = data_encoding::HEXLOWER.encode(&env.recipient);

    assert_eq!(parse_endpoint("zz"), Err(refused(400, "endpoint id is not hex")));
    assert_eq!(parse_endpoint("abcd"), Err(refused(400, "endpoint id is not 32 bytes")));
    assert_eq!(parse_endpoint(&format!(" {} ", hex.to_uppercase())), Ok(env.recipient));
    assert_eq!(get_prekey(&store, &hex), Err(refused(404, "no prekey published")));
    assert_eq!(put_prekey(&mut store, b"junk"), Err(refused(400, "malformed body")));

    let bob = SigningKey::from_bytes(&[2u8; 32]);
    let mut forged = SignedPrekey::new(&bob, &StaticSecret::from([3u8; 32]), 1);
    forged.created_ms = 2;
    let refusal = put_prekey(&mut store, &forged.encode()).unwrap_err();
    assert_eq!(refusal, refused(400, &E2eError::PrekeyForged.message()));

    let big = vec![0u8; MAX_ENVELOPE + 1];
    assert_eq!(
        post_mail(&mut store, &hex, &big, now),
        Err(refused(413, "envelope is over the 65536-byte limit"))
    );
    assert_eq!(post_mail(&mut store, &hex, &[0u8; 9], now), Err(refused(400, "malformed body")));
    let elsewhere = data_encoding::HEXLOWER.encode(&env.sender);
    assert_eq!(
        post_mail(&mut store, &elsewhere, &blob, now),
        Err(refused(400, "envelope is addressed to a different endpoint"))
    );
    let mut unsigned = env.clone();
    unsigned.nonce[0] ^= 1;
    let refusal = refused(400, &E2eError::EnvelopeForged.message());
    assert_eq!(verify_envelope_sender(&unsigned).unwrap_err(), refusal);
    assert_eq!(post_mail(&mut store, &hex, &unsigned.encode(), now), Err(refusal));

    for _ in 0..QUOTA_PER_SENDER {
        assert_eq!(post_mail(&mut store, &hex, &blob, now), Ok(202));
    }
    assert_eq!(
        post_mail(&mut store, &hex, &blob, now),
        Err(refused(429, "200 messages already waiting for that recipient"))
    );
    // Someone else's quota is their own.
    let (_, other_blob) = envelope(3, 2);
    assert_eq!(post_mail(&mut store, &hex, &other_blob, now), Ok(202));
    assert_eq!(store.pending_from(&env.sender, &env.recipient), QUOTA_PER_SENDER);

    let headers = |e: Option<&str>, t: Option<&str>, s: Option<&str>| Headers {
        endpoint: e.map(|s| s.to_string()),
        timestamp: t.map(|s| s.to_string()),
        signature: s.map(|s| s.to_string()),
    };
    let fails = |h: Headers| authenticate(&h, now).unwrap_err();
    assert_eq!(fails(headers(None, None, None)), refused(401, "missing x-wicara-endpoint"));
    assert_eq!(fails(headers(Some("x"), None, None)), refused(400, "endpoint id is not hex"));
    assert_eq!(fails(headers(Some(&hex), None, None)), refused(401, "missing x-wicara-timestamp"));
    assert_eq!(fails(headers(Some(&hex), Some("-1"), None)), refused(401, "bad timestamp"));
    assert_eq!(fails(headers(Some(&hex), Some("1"), None)), refused(401, "missing x-wicara-signature"));
    assert_eq!(fails(headers(Some(&hex), Some("1"), Some("x"))), refused(401, "signature is not hex"));
    assert_eq!(fails(headers(Some(&hex), Some("1"), Some("00"))).status, 401);
}

#[test]
fn a_request_proves_whose_it_is_only_within_the_window() {
    let hub = Hub::new("http://hub", SigningKey::from_bytes(&[5u8; 32]));
    let me = SigningKey::from_bytes(&[5u8; 32]).verifying_key().to_bytes();
    let now = 1_700_000_000_000;
    let headers = hub.auth_at(now);
    assert_eq!(headers.timestamp.as_deref(), Some("1700000000000"));
    assert_eq!(authenticate(&headers, now), Ok(me));
    assert_eq!(authenticate(&headers, now + 300_000), Ok(me));
    assert!(authenticate(&headers, now + 300_001).is_err());
}

#[test]
fn replies_are_judged_by_status_and_body() {
    let owner = [1u8; 32];
    assert_eq!(prekey_reply(&owner, 404, b"").unwrap_err(), HubError::NoPrekey);
    assert_eq!(prekey_reply(&owner, 500, b"").unwrap_err(), HubError::Status(500));
    assert_eq!(prekey_reply(&owner, 200, b"").unwrap_err(), HubError::Malformed);
    assert_eq!(plain_reply(204), Ok(()));
    assert_eq!(plain_reply(300), Err(HubError::Status(300)));
    assert_eq!(mail_reply(503, b"").unwrap_err(), HubError::Status(503));
    assert_eq!(mail_reply(200, b"\x05").unwrap_err(), HubError::Malformed);
    assert!(mail_reply(200, b"\x00").unwrap().is_empty());
}

#[test]
fn a_refusal_says_what_the_hub_said() {
    assert_eq!(HubError::Status(404).message(), "hub returned 404 Not Found");
    assert_eq!(HubError::Status(42).message(), "hub returned 42");
    assert_eq!(HubError::NoPrekey.message(), "that endpoint has not published a prekey");
    assert_eq!(HubError::Malformed.message(), "the hub's reply does not decode");
    assert_eq!(HubError::Sealing(E2eError::OtherOwner).message(), E2eError::OtherOwner.message());

    assert_eq!(publish_reply(204), Ok(()));
    assert_eq!(publish_reply(401).unwrap_err(), "hub refused the prekey: 401 Unauthorized");
    assert_eq!(posted_reply(200, b""), Ok(()));
    assert_eq!(
        posted_reply(429, b"mailbox \xffull").unwrap_err(),
        "hub refused the message: 429 Too Many Requests mailbox \u{fffd}ull"
    );
}

#[test]
fn mail_and_ids_are_laid_out_as_postcard_does() {
    let ids = [0i64, -1, 1, 300, i64::MAX, i64::MIN];
    assert_eq!(encode_ids(&ids), postcard::to_stdvec(ids.as_slice()).unwrap());
    assert_eq!(decode_ids(&encode_ids(&ids)), Some(ids.to_vec()));
    assert_eq!(decode_ids(b"\x02\x01"), None);

    let (env, blob) = envelope(1, 2);
    let mail = vec![(7i64, env.clone()), (-3, env)];
    let mut expected = vec![2u8];
    for (id, _) in &mail {
        expected.extend(postcard::to_stdvec(id).unwrap());
        expected.extend(&blob);
    }
    let bytes = encode_mail(&mail);
    assert_eq!(bytes, expected);
    assert_eq!(decode_mail(&bytes), Some(mail));
}

#[test]
fn a_sweep_goes_by_the_day_of_arrival() {
    let mut store = HubStore::new();
    let (env, blob) = envelope(1, 2);
    let now = 1_700_000_000_000u64;
    store.put_mail_at(&env.sender, &env.recipient, &blob, now - TTL_MS - 1);
    store.put_mail_at(&env.sender, &env.recipient, &blob, now - TTL_MS);
    store.put_mail_at(&env.sender, &env.recipient, &blob, now);
    assert_eq!(store.sweep_at(now, TTL_MS), 1);
    assert_eq!(store.mail_for(&env.recipient).iter().map(|m| m.0).collect::<Vec<_>>(), vec![2, 3]);
    assert_eq!(store.sweep_at(5, TTL_MS), 0);
    // A row that holds no envelope is passed over.
    store.put_mail_at(&env.sender, &env.recipient, b"junk", now);
    assert_eq!(store.mail_for(&env.recipient).len(), 2);
    assert_eq!(store.pending_from(&env.sender, &env.recipient), 3);
}
