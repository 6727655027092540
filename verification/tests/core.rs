//! Envelopes, rooms, the vault and the wire.

use wicara::e2e::mailbox_auth;
use wicara::e2e::{
    binding, envelope_transcript, open, seal, seal_with, verify_envelope_signature, E2eError, Envelope,
    SignedPrekey,
};
use wicara::keys::{SigningKey, StaticSecret};
use wicara::room::{clone_log, verify_log, RoomEntry, RoomError, RoomOp};
use wicara::vault::{drawn, random, VaultError, VaultKey, NONCE_LEN, SALT_LEN, TAG_LEN};
use wicara::wire::{
    announced, clamp_ms, decode, encode, now_ms, payload, read_frame, write_frame, Counter, Frame, MessageId,
    WireError, MAX_FRAME,
};

const GENESIS: [u8; 32] = [0u8; 32];

fn identity(seed: u8) -> SigningKey {
    SigningKey::from_bytes(&[seed; 32])
}

#[test]
fn a_prekey_signed_by_the_wrong_identity_is_refused() {
    let alice = identity(1);
    let mallory = identity(9);
    let alice_prekey = StaticSecret::from([3u8; 32]);

    let honest = SignedPrekey::new(&alice, &alice_prekey, 1_000);
    assert!(honest.verify(&alice.verifying_key().to_bytes()).is_ok());

    // The hub substitutes its own key, keeping Alice's name on it. This is the
    // attack the signature check exists for.
    let substituted = SignedPrekey {
        owner: alice.verifying_key().to_bytes(),
        ..SignedPrekey::new(&mallory, &StaticSecret::from([4u8; 32]), 1_000)
    };
    assert!(substituted.verify(&alice.verifying_key().to_bytes()).is_err());

    // The hub answers with someone else's prekey entirely.
    let wrong_owner = SignedPrekey::new(&mallory, &StaticSecret::from([4u8; 32]), 1_000);
    assert!(wrong_owner.verify(&alice.verifying_key().to_bytes()).is_err());

    // A flipped bit anywhere in the signed material.
    let mut tampered = honest.clone();
    tampered.created_ms += 1;
    assert!(tampered.verify(&alice.verifying_key().to_bytes()).is_err());
    let mut tampered = honest.clone();
    tampered.prekey[0] ^= 1;
    assert!(tampered.verify(&alice.verifying_key().to_bytes()).is_err());
    let mut tampered = honest;
    tampered.signature[0] ^= 1;
    assert!(tampered.verify(&alice.verifying_key().to_bytes()).is_err());
}

#[test]
fn each_fault_of_a_prekey_has_its_error() {
    let alice = identity(1);
    let id = alice.verifying_key().to_bytes();
    let honest = SignedPrekey::new(&alice, &StaticSecret::from([3u8; 32]), 1_000);

    assert_eq!(honest.verify(&[5u8; 32]).unwrap_err(), E2eError::OtherOwner);

    let mut short = honest.clone();
    short.signature.pop();
    assert_eq!(short.verify(&id).unwrap_err(), E2eError::PrekeySignatureLength);

    // 2 is not the y-coordinate of a point.
    let mut nobody = honest.clone();
    nobody.owner = [0u8; 32];
    nobody.owner[0] = 2;
    let owner = nobody.owner;
    assert_eq!(nobody.verify(&owner).unwrap_err(), E2eError::EndpointInvalid);

    let mut forged = honest;
    forged.signature[0] ^= 1;
    assert_eq!(forged.verify(&id).unwrap_err(), E2eError::PrekeyForged);
}

#[test]
fn envelopes_roundtrip_and_reject_tampering() {
    let alice = identity(1);
    let bob = identity(2);
    let bob_prekey = StaticSecret::from([7u8; 32]);
    let bob_id = bob.verifying_key().to_bytes();
    let to_bob = SignedPrekey::new(&bob, &bob_prekey, 1_000).verify(&bob_id).unwrap();

    let sealed = seal(&alice, &to_bob, b"see you at six").unwrap();
    let (plaintext, sender) = open(&sealed, &bob_prekey, &bob_id).unwrap();
    assert_eq!(plaintext, b"see you at six");
    assert_eq!(sender, alice.verifying_key().to_bytes());

    // Fresh ephemeral per message: the same plaintext seals differently.
    let again = seal(&alice, &to_bob, b"see you at six").unwrap();
    assert_ne!(sealed.ciphertext, again.ciphertext);
    assert_ne!(sealed.ephemeral, again.ephemeral);

    // Someone else's prekey secret does not open it.
    assert!(open(&sealed, &StaticSecret::from([8u8; 32]), &bob_id).is_err());

    // Re-addressing it to another recipient fails the signature.
    let mut readdressed = sealed.clone();
    readdressed.recipient = alice.verifying_key().to_bytes();
    assert!(open(&readdressed, &bob_prekey, &readdressed.recipient.clone()).is_err());

    // Claiming a different sender fails too: a mailbox anyone can forge into is
    // worse than no mailbox.
    let mut impersonated = sealed.clone();
    impersonated.sender = bob_id;
    assert!(open(&impersonated, &bob_prekey, &bob_id).is_err());

    // Flipped ciphertext bit.
    let mut tampered = sealed.clone();
    tampered.ciphertext[0] ^= 1;
    assert!(open(&tampered, &bob_prekey, &bob_id).is_err());

    // Delivered to the wrong mailbox.
    assert!(open(&sealed, &bob_prekey, &alice.verifying_key().to_bytes()).is_err());
}

#[test]
fn mailbox_auth_binds_the_endpoint_and_the_clock() {
    let alice = identity(1);
    let bob = identity(2);
    let (alice_id, bob_id) = (alice.verifying_key().to_bytes(), bob.verifying_key().to_bytes());
    let now = 1_700_000_000_000u64;
    let sig = mailbox_auth::sign(&alice, now);

    assert!(mailbox_auth::verify(&alice_id, now, &sig, now).is_ok());
    // Someone else cannot read Alice's mail with Alice's captured header.
    assert!(mailbox_auth::verify(&bob_id, now, &sig, now).is_err());
    // Nor can the header be replayed outside the window.
    assert!(mailbox_auth::verify(&alice_id, now, &sig, now + mailbox_auth::WINDOW_MS + 1).is_err());
    // Nor can the timestamp be edited to bring it back in.
    assert!(mailbox_auth::verify(&alice_id, now + 1, &sig, now + 1).is_err());

    // The window is closed at both ends, and ends are inside.
    assert!(mailbox_auth::verify(&alice_id, now, &sig, now + mailbox_auth::WINDOW_MS).is_ok());
    assert!(mailbox_auth::verify(&alice_id, now, &sig, now - mailbox_auth::WINDOW_MS).is_ok());
    assert!(mailbox_auth::verify(&alice_id, now, &sig, now - mailbox_auth::WINDOW_MS - 1).is_err());
}

#[test]
fn a_small_order_ephemeral_is_refused() {
    let bob = identity(2);
    let bob_prekey = StaticSecret::from([7u8; 32]);
    let bob_id = bob.verifying_key().to_bytes();
    let to_bob = SignedPrekey::new(&bob, &bob_prekey, 1).verify(&bob_id).unwrap();
    let alice = identity(1);
    let mut sealed = seal(&alice, &to_bob, b"x").unwrap();

    // The all-zero point forces an all-zero shared secret.
    sealed.ephemeral = [0u8; 32];
    let binding = binding(&sealed.sender, &sealed.recipient, &sealed.ephemeral, &sealed.prekey);
    sealed.signature = alice.sign(&envelope_transcript(&binding, &sealed.nonce, &sealed.ciphertext));
    assert!(open(&sealed, &bob_prekey, &bob_id).is_err());
}

#[test]
fn each_fault_of_an_envelope_has_its_error() {
    let alice = identity(1);
    let bob = identity(2);
    let bob_prekey = StaticSecret::from([7u8; 32]);
    let bob_id = bob.verifying_key().to_bytes();
    let to_bob = SignedPrekey::new(&bob, &bob_prekey, 1).verify(&bob_id).unwrap();
    let sealed = seal_with(&alice, &to_bob, b"hi", &StaticSecret::from([11u8; 32]), &[5u8; 24]).unwrap();
    assert_eq!(open(&sealed, &bob_prekey, &bob_id).unwrap().0, b"hi");
    assert_eq!(verify_envelope_signature(&sealed), Ok(()));

    let mut short = sealed.clone();
    short.signature.pop();
    assert_eq!(verify_envelope_signature(&short), Err(E2eError::EnvelopeSignatureLength));

    let mut nobody = sealed.clone();
    nobody.sender = [0u8; 32];
    nobody.sender[0] = 2;
    assert_eq!(verify_envelope_signature(&nobody), Err(E2eError::SenderInvalid));

    let mut forged = sealed.clone();
    forged.nonce[0] ^= 1;
    assert_eq!(verify_envelope_signature(&forged), Err(E2eError::EnvelopeForged));

    let elsewhere = open(&sealed, &bob_prekey, &alice.verifying_key().to_bytes());
    assert_eq!(elsewhere.unwrap_err(), E2eError::AddressedElsewhere);

    // A prekey that agrees on nothing is refused before anything is sealed. It
    // is the encoding of the all-zero point.
    let mut weak = SignedPrekey::new(&bob, &bob_prekey, 1);
    weak.prekey = [0u8; 32];
    weak.signature = bob.sign(&wicara::e2e::prekey_transcript(&weak.owner, &weak.prekey, 1));
    let to_weak = weak.verify(&bob_id).unwrap();
    assert_eq!(seal(&alice, &to_weak, b"x").unwrap_err(), E2eError::SmallOrderPrekey);
}

#[test]
fn both_sides_agree_on_the_secret() {
    let (a, b) = (StaticSecret::from([1u8; 32]), StaticSecret::from([2u8; 32]));
    assert_eq!(a.diffie_hellman(&b.public_key()), b.diffie_hellman(&a.public_key()));
    assert_ne!(a.public_key(), b.public_key());
    assert_ne!(a.public_key(), a.to_bytes());
    assert_ne!(a.diffie_hellman(&b.public_key()), b.public_key());
}

#[test]
fn keys_and_signatures_are_those_of_the_libraries() {
    let seed = [42u8; 32];
    let ours = SigningKey::from_bytes(&seed);
    let theirs = ed25519_dalek::SigningKey::from_bytes(&seed);
    assert_eq!(ours.verifying_key().to_bytes(), theirs.verifying_key().to_bytes());
    let signature: [u8; 64] = ed25519_dalek::Signer::sign(&theirs, b"message").to_bytes();
    assert_eq!(ours.sign(b"message"), signature);
    let point = x25519_dalek::PublicKey::from(&x25519_dalek::StaticSecret::from(seed)).to_bytes();
    assert_eq!(StaticSecret::from(seed).public_key(), point);
}

#[test]
fn prekeys_and_envelopes_are_laid_out_as_postcard_does() {
    let alice = identity(1);
    let bob = identity(2);
    let bob_prekey = StaticSecret::from([7u8; 32]);
    let prekey = SignedPrekey::new(&bob, &bob_prekey, 1_000);
    let bytes = prekey.encode();
    let same =
        postcard::to_stdvec(&(prekey.owner, prekey.prekey, prekey.created_ms, &prekey.signature)).unwrap();
    assert_eq!(bytes, same);
    assert_eq!(SignedPrekey::decode(&bytes), Some(prekey.clone()));
    assert_eq!(SignedPrekey::decode(&bytes[..bytes.len() - 1]), None);

    let to_bob = prekey.verify(&bob.verifying_key().to_bytes()).unwrap();
    let e = seal(&alice, &to_bob, b"offline hello").unwrap();
    let bytes = e.encode();
    let same = postcard::to_stdvec(&(
        e.sender,
        e.recipient,
        e.ephemeral,
        e.prekey,
        e.nonce,
        &e.ciphertext,
        &e.signature,
    ))
    .unwrap();
    assert_eq!(bytes, same);
    assert_eq!(Envelope::decode(&bytes), Some(e));
    assert_eq!(Envelope::decode(&bytes[1..]), None);
}

fn build() -> (SigningKey, SigningKey, SigningKey, Vec<RoomEntry>) {
    let (alice, bob, carol) = (identity(1), identity(2), identity(3));
    let create = RoomEntry::new(&alice, GENESIS, 1, RoomOp::Create { name: "kitchen".into() });
    let invite_bob =
        RoomEntry::new(&alice, create.hash(), 2, RoomOp::Invite { member: bob.verifying_key().to_bytes() });
    let invite_carol = RoomEntry::new(
        &alice,
        invite_bob.hash(),
        3,
        RoomOp::Invite { member: carol.verifying_key().to_bytes() },
    );
    (alice, bob, carol, vec![create, invite_bob, invite_carol])
}

#[test]
fn a_well_formed_log_replays_to_the_expected_room() {
    let (alice, bob, carol, log) = build();
    let room = verify_log(&log).unwrap();
    assert_eq!(room.name, "kitchen");
    assert_eq!(room.members.len(), 3);
    assert!(room.is_admin(&alice.verifying_key().to_bytes()));
    assert!(!room.is_admin(&bob.verifying_key().to_bytes()));

    // A kick by the admin takes effect.
    let mut kicked = log.clone();
    kicked.push(RoomEntry::new(
        &alice,
        room.head,
        4,
        RoomOp::Kick { member: carol.verifying_key().to_bytes() },
    ));
    let after = verify_log(&kicked).unwrap();
    assert_eq!(after.members.len(), 2);
    assert!(!after.members.contains(&carol.verifying_key().to_bytes()));
    assert!(!after.is_member(&carol.verifying_key().to_bytes()));
    assert!(after.is_member(&bob.verifying_key().to_bytes()));
    // The room's identity does not change when its membership does.
    assert_eq!(after.id, room.id);
}

#[test]
fn a_tampered_log_is_rejected() {
    let (alice, bob, carol, log) = build();
    let room = verify_log(&log).unwrap();
    let mallory = identity(9);
    let mallory_id = mallory.verifying_key().to_bytes();

    // The hub invents an invite for itself.
    let mut forged = log.clone();
    forged.push(RoomEntry::new(&mallory, room.head, 4, RoomOp::Invite { member: mallory_id }));
    assert!(verify_log(&forged).unwrap_err().message().contains("not an admin"));

    // A member who is not an admin kicks someone.
    let mut forged = log.clone();
    forged.push(RoomEntry::new(
        &bob,
        room.head,
        4,
        RoomOp::Kick { member: carol.verifying_key().to_bytes() },
    ));
    assert!(verify_log(&forged).is_err());

    // An entry is dropped from the middle: the chain no longer links up.
    let mut cut = log.clone();
    cut.remove(1);
    assert!(verify_log(&cut).unwrap_err().message().contains("does not follow"));

    // An entry is reordered.
    let mut swapped = log.clone();
    swapped.swap(1, 2);
    assert!(verify_log(&swapped).is_err());

    // The op is edited in place, keeping the old signature.
    let mut edited = log.clone();
    edited[1].op = RoomOp::Invite { member: mallory_id };
    assert!(verify_log(&edited).is_err());

    // The signature is edited.
    let mut resigned = log.clone();
    resigned[2].signature[0] ^= 1;
    assert!(verify_log(&resigned).is_err());

    // A non-admin's entry is relabelled as the admin's to get it past the
    // authorisation check. The signature no longer matches the author.
    let mut relabelled = log.clone();
    let mut bobs = RoomEntry::new(&bob, room.head, 4, RoomOp::Invite { member: mallory_id });
    bobs.author = alice.verifying_key().to_bytes();
    relabelled.push(bobs);
    assert!(verify_log(&relabelled).unwrap_err().message().contains("not signed by the author"));

    // The founder cannot be kicked, not even by the founder.
    let mut coup = log.clone();
    coup.push(RoomEntry::new(
        &alice,
        room.head,
        4,
        RoomOp::Kick { member: alice.verifying_key().to_bytes() },
    ));
    assert!(verify_log(&coup).unwrap_err().message().contains("kicks the founder"));

    // A log that does not start at a create.
    assert!(verify_log(&log[1..]).is_err());
    assert!(verify_log(&[]).is_err());
}

#[test]
fn each_fault_of_a_room_log_has_its_error() {
    let (alice, _bob, carol, log) = build();
    let room = verify_log(&log).unwrap();
    assert_eq!(verify_log(&[]).unwrap_err(), RoomError::Empty);

    let late = RoomEntry::new(&alice, [1u8; 32], 1, RoomOp::Create { name: "x".into() });
    assert_eq!(verify_log(&[late]).unwrap_err(), RoomError::NotGenesis);

    let odd = RoomEntry::new(&alice, GENESIS, 1, RoomOp::Kick { member: [2u8; 32] });
    assert_eq!(verify_log(&[odd]).unwrap_err(), RoomError::NotCreate);

    let mut short = clone_log(&log);
    short[0].signature.pop();
    assert_eq!(verify_log(&short).unwrap_err(), RoomError::SignatureLength(0));
    let mut forged = clone_log(&log);
    forged[2].ts_ms += 1;
    assert_eq!(verify_log(&forged).unwrap_err(), RoomError::Forged(2));
    assert_eq!(
        RoomError::Forged(2).message(),
        "room log entry 2: room entry is not signed by the author it names"
    );
    assert_eq!(
        RoomError::SignatureLength(1).message(),
        "room log entry 1: room entry signature is not 64 bytes"
    );
    assert_eq!(
        RoomError::AuthorInvalid(12).message(),
        "room log entry 12: room entry author is not a valid Ed25519 key"
    );

    let mut nobody = clone_log(&log);
    nobody[0].author = [0u8; 32];
    nobody[0].author[0] = 2;
    assert_eq!(verify_log(&nobody).unwrap_err(), RoomError::AuthorInvalid(0));

    let mut twice = clone_log(&log);
    twice.push(RoomEntry::new(&alice, room.head, 4, RoomOp::Create { name: "again".into() }));
    assert_eq!(verify_log(&twice).unwrap_err(), RoomError::SecondCreate(3));

    let mut cut = clone_log(&log);
    cut.remove(1);
    assert_eq!(verify_log(&cut).unwrap_err(), RoomError::NotFollowing(1));

    let mut stranger = clone_log(&log);
    stranger.push(RoomEntry::new(&carol, room.head, 4, RoomOp::Invite { member: [4u8; 32] }));
    assert_eq!(verify_log(&stranger).unwrap_err(), RoomError::NotAdmin(3));
    // A fault is final: nothing that follows mends the log.
    stranger.push(RoomEntry::new(&alice, room.head, 5, RoomOp::Invite { member: [4u8; 32] }));
    assert_eq!(verify_log(&stranger).unwrap_err(), RoomError::NotAdmin(3));
}

#[test]
fn room_entries_hash_and_lay_out_as_postcard_does() {
    let (alice, _, _, log) = build();
    let e = &log[0];
    let bytes = postcard::to_stdvec(&(
        e.prev,
        e.author,
        e.ts_ms,
        (0u32, "kitchen"),
        &e.signature,
    ))
    .unwrap();
    assert_eq!(e.encode(), bytes);
    // The hash covers what is signed, and the signature.
    let mut signed = b"wicara room entry v1".to_vec();
    signed.extend(e.prev);
    signed.extend(e.author);
    signed.extend(1u64.to_le_bytes());
    signed.extend(postcard::to_stdvec(&(0u32, "kitchen")).unwrap());
    assert_eq!(alice.sign(&signed), e.signature);
    signed.extend(&e.signature);
    assert_eq!(e.hash(), *blake3::hash(&signed).as_bytes());
    assert_eq!(e.author, alice.verifying_key().to_bytes());
    let invite = &log[1];
    let RoomOp::Invite { member } = invite.op else { panic!("the second entry invites") };
    let bytes =
        postcard::to_stdvec(&(invite.prev, invite.author, invite.ts_ms, (1u32, member), &invite.signature))
            .unwrap();
    assert_eq!(invite.encode(), bytes);
}

#[test]
fn seal_open_roundtrip_and_rejections() {
    let salt = [7u8; SALT_LEN];
    let key = VaultKey::derive("correct horse", &salt).unwrap();

    let blob = key.seal(b"identity secret").unwrap();
    assert_eq!(key.open(&blob).unwrap(), b"identity secret");

    // Same plaintext twice must not produce the same bytes (fresh nonce).
    assert_ne!(blob, key.seal(b"identity secret").unwrap());

    // Wrong passphrase.
    let wrong = VaultKey::derive("battery staple", &salt).unwrap();
    assert!(wrong.open(&blob).is_err());

    // Wrong salt with the right passphrase.
    let other_salt = VaultKey::derive("correct horse", &[8u8; SALT_LEN]).unwrap();
    assert!(other_salt.open(&blob).is_err());

    // Tampered ciphertext.
    let mut bad = blob.clone();
    *bad.last_mut().unwrap() ^= 1;
    assert!(key.open(&bad).is_err());

    // Truncated blob.
    assert!(key.open(&blob[..NONCE_LEN]).is_err());
}

#[test]
fn each_fault_of_the_vault_has_its_error() {
    assert_eq!(VaultError::NoMemory.message(), "argon2: out of memory");
    assert_eq!(VaultError::LongPassphrase.message(), "argon2: password is too long");
    let key = VaultKey::derive("correct horse", &[7u8; SALT_LEN]).unwrap();
    let blob = key.seal_with(&[9u8; NONCE_LEN], b"secret").unwrap();
    assert_eq!(blob.len(), NONCE_LEN + 6 + TAG_LEN);
    assert_eq!(&blob[..NONCE_LEN], [9u8; NONCE_LEN]);
    assert_eq!(key.open(&blob[..NONCE_LEN + TAG_LEN - 1]).unwrap_err(), VaultError::Truncated);
    assert_eq!(key.open(&blob[..blob.len() - 1]).unwrap_err(), VaultError::Refused);
    assert_ne!(random::<32>().unwrap(), [0u8; 32]);
    assert_eq!(random::<0>(), Ok([]));
    assert_eq!(drawn(true, [1, 2, 3]), Ok([1, 2, 3]));
    assert_eq!(drawn(false, [1, 2, 3]), Err(VaultError::RngUnavailable));
}

#[test]
fn ids_are_unique_and_monotonic_per_sender() {
    let mut a = Counter::new([1u8; 32], 0);
    let mut b = Counter::new([2u8; 32], 0);

    let ids: Vec<_> = (0..100).map(|_| a.mint()).collect();
    assert!(ids.windows(2).all(|w| w[0].seq < w[1].seq));
    assert_eq!(ids.iter().collect::<std::collections::HashSet<_>>().len(), ids.len());

    // Same seq from a different sender is a different message.
    assert_ne!(a.mint().sender, b.mint().sender);

    // A restart resumes rather than reissuing.
    let mut resumed = Counter::new([1u8; 32], a.seq());
    assert!(resumed.mint().seq > a.seq());
}

fn every_kind(id: MessageId) -> Vec<Frame> {
    vec![
        Frame::Hello { nickname: "satya".into() },
        Frame::Chat { id, body: "hello — unicode ✓".into(), reply_to: None },
        Frame::Edit { id, target: id, body: "fixed typo".into() },
        Frame::Delete { id, target: id },
        Frame::React { id, target: id, emoji: "👍".into(), on: true },
        Frame::File { id, size: 1234, name: "holiday.jpg".into(), hash: [7u8; 32] },
        Frame::InRoom {
            room: [4u8; 32],
            op: Box::new(Frame::Chat { id, body: "in the room".into(), reply_to: None }),
        },
    ]
}

#[test]
fn frames_roundtrip_through_postcard() {
    let id = Counter::new([9u8; 32], 41).mint();
    assert_eq!(id.to_string(), "09090909-42");

    for frame in every_kind(id) {
        let bytes = encode(&frame).unwrap();
        let len = u32::from_le_bytes(bytes[..4].try_into().unwrap()) as usize;
        assert_eq!(len, bytes.len() - 4);
        assert_eq!(decode(&bytes[4..]).unwrap(), frame);
    }
}

#[test]
fn frames_are_laid_out_as_postcard_does() {
    let id = MessageId { sender: [9u8; 32], seq: 300, ts_ms: 1_700_000_000_000 };
    let target = MessageId { sender: [8u8; 32], seq: u64::MAX, ts_ms: 0 };
    let flat = |m: MessageId| (m.sender, m.seq, m.ts_ms);
    let (_, _, _, log) = build();

    let hello = Frame::Hello { nickname: "satya".into() };
    assert_eq!(payload(&hello), postcard::to_stdvec(&(0u32, "satya")).unwrap());
    let chat = Frame::Chat { id, body: "hi ✓".into(), reply_to: Some(target) };
    assert_eq!(
        payload(&chat),
        postcard::to_stdvec(&(1u32, flat(id), "hi ✓", Some(flat(target)))).unwrap()
    );
    let edit = Frame::Edit { id, target, body: "x".into() };
    assert_eq!(payload(&edit), postcard::to_stdvec(&(2u32, flat(id), flat(target), "x")).unwrap());
    let delete = Frame::Delete { id, target };
    assert_eq!(payload(&delete), postcard::to_stdvec(&(3u32, flat(id), flat(target))).unwrap());
    let react = Frame::React { id, target, emoji: "👍".into(), on: false };
    assert_eq!(payload(&react), postcard::to_stdvec(&(4u32, flat(id), flat(target), "👍", false)).unwrap());
    let room = Frame::InRoom { room: [4u8; 32], op: Box::new(delete.clone()) };
    assert_eq!(
        payload(&room),
        postcard::to_stdvec(&(5u32, [4u8; 32], 3u32, flat(id), flat(target))).unwrap()
    );
    let file = Frame::File { id, name: "a.txt".into(), size: 1 << 40, hash: [7u8; 32] };
    assert_eq!(
        payload(&file),
        postcard::to_stdvec(&(6u32, flat(id), "a.txt", 1u64 << 40, [7u8; 32])).unwrap()
    );
    let mut expected = postcard::to_stdvec(&(7u32, [4u8; 32], 3u32)).unwrap();
    for e in &log {
        expected.extend(e.encode());
    }
    let updated = Frame::RoomUpdated { room: [4u8; 32], log };
    assert_eq!(payload(&updated), expected);
    for frame in [hello, chat, edit, delete, react, room, file, updated] {
        assert_eq!(decode(&payload(&frame)).unwrap(), frame);
    }
}

#[test]
fn a_room_op_keeps_its_id_and_names_its_conversation() {
    let id = Counter::new([9u8; 32], 0).mint();
    let wrapped = Frame::InRoom {
        room: [4u8; 32],
        op: Box::new(Frame::Chat { id, body: "hi".into(), reply_to: None }),
    };
    assert_eq!(wrapped.id(), Some(id));
    // A room op files under the room, a 1:1 op under the peer that sent it.
    assert_eq!(wrapped.conversation([7u8; 32]), [4u8; 32]);
    assert!(matches!(wrapped.unwrap_room(), Frame::Chat { .. }));

    let direct = Frame::Chat { id, body: "hi".into(), reply_to: None };
    assert_eq!(direct.conversation([7u8; 32]), [7u8; 32]);
}

#[test]
fn stream_carries_back_to_back_frames_and_rejects_oversize() {
    let one = Frame::Hello { nickname: "a".into() };
    let two = Frame::Chat { id: Counter::new([0u8; 32], 0).mint(), body: "b".into(), reply_to: None };

    let mut buf = encode(&one).unwrap();
    buf.extend(encode(&two).unwrap());
    let mut written = Vec::new();
    write_frame(&mut written, &one).unwrap();
    write_frame(&mut written, &two).unwrap();
    assert_eq!(written, buf);
    let (first, rest) = read_frame(&buf).unwrap().unwrap();
    assert_eq!(first, one);
    let (second, rest) = read_frame(rest).unwrap().unwrap();
    assert_eq!(second, two);
    // Clean end of stream, not an error.
    assert_eq!(read_frame(rest).unwrap(), None);

    // A frame at the cap encodes; one over it does not.
    let big = Frame::Chat {
        id: Counter::new([0u8; 32], 0).mint(),
        body: "x".repeat(MAX_FRAME + 1),
        reply_to: None,
    };
    assert!(encode(&big).is_err());
    assert!(write_frame(&mut written, &big).is_err());
    assert_eq!(written, buf);

    // A lying length prefix is refused before anything is allocated.
    let lie = (u32::MAX).to_le_bytes().to_vec();
    assert!(read_frame(&lie).is_err());
}

#[test]
fn the_cap_is_exact() {
    // One byte of variant, 32 of key, 1 and 1 of counters, 3 of length, 1 of
    // reply.
    let id = MessageId { sender: [1u8; 32], seq: 1, ts_ms: 1 };
    let overhead = 39;
    let at = Frame::Chat { id, body: "x".repeat(MAX_FRAME - overhead), reply_to: None };
    assert_eq!(encode(&at).unwrap().len(), MAX_FRAME + 4);
    let over = Frame::Chat { id, body: "x".repeat(MAX_FRAME - overhead + 1), reply_to: None };
    assert_eq!(encode(&over).unwrap_err(), WireError::TooLong(MAX_FRAME + 1));
}

#[test]
fn each_fault_of_a_stream_has_its_error() {
    let frame = Frame::Hello { nickname: "satya".into() };
    let bytes = encode(&frame).unwrap();
    assert_eq!(read_frame(&[]).unwrap(), None);
    for n in 1..bytes.len() {
        assert_eq!(read_frame(&bytes[..n]).unwrap_err(), WireError::CutShort);
    }
    assert_eq!(read_frame(&[1, 0, 0]).unwrap_err(), WireError::CutShort);
    assert_eq!(announced(&[1, 0, 16, 0]).unwrap_err(), WireError::Announced(MAX_FRAME + 1));
    assert_eq!(announced(&[0, 0, 16, 0]), Ok(MAX_FRAME));
    assert_eq!(decode(&[99]).unwrap_err(), WireError::Malformed);
    assert_eq!(decode(&[]).unwrap_err(), WireError::Malformed);
    // A name that is not UTF-8.
    assert_eq!(decode(&[0, 1, 0xff]).unwrap_err(), WireError::Malformed);
}

#[test]
fn the_clock_is_clamped() {
    assert_eq!(clamp_ms(None), 0);
    assert_eq!(clamp_ms(Some(1_700_000_000_000)), 1_700_000_000_000);
    assert!(now_ms() > 1_600_000_000_000);
    let mut c = Counter::new([1u8; 32], 6);
    assert_eq!(c.mint_at(55), MessageId { sender: [1u8; 32], seq: 7, ts_ms: 55 });
    assert_eq!(c.seq(), 7);
    let id = c.mint_at(9);
    assert_eq!(id.sort_key(), (9, 8, [1u8; 32]));
}
