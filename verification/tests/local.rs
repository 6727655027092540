//! What is kept on this machine: the store, the identity file, attachments,
//! and the session that fills them.

use wicara::files::{
    base_name, outgoing_name, safe_name, Digest, FileError, Incoming, Outgoing, CHUNK, MAX_FILE,
};
use wicara::identity::{check_passphrase, create, file_with, load, open_with, passphrase_line, IdentityError};
use wicara::keys::SigningKey;
use wicara::room::{clone_log, RoomEntry, RoomError, RoomOp};
use wicara::session::{
    compose, describe_path, greeted, greeting, log_event, receive, replay_history, room_event, start_status,
    watch_path, Received, Route, SessionError,
};
use wicara::store::{OpRow, Store, StoreError};
use wicara::table::Table;
use wicara::ui::state::{RoomView, UiCommand, UiEvent};
use wicara::vault::{VaultError, VaultKey, SALT_LEN};
use wicara::wire::{Frame, MessageId};

#[test]
fn a_peer_cannot_choose_where_its_file_lands() {
    assert_eq!(safe_name("holiday.jpg"), "holiday.jpg");
    assert_eq!(safe_name("../../../etc/passwd"), "passwd");
    assert_eq!(safe_name("/etc/shadow"), "shadow");
    assert_eq!(safe_name(".."), "attachment");
    assert_eq!(safe_name(""), "attachment");
    assert_eq!(safe_name("."), "attachment");
    assert_eq!(safe_name("a/b/c.txt"), "c.txt");
    assert_eq!(safe_name("weird;rm -rf.txt"), "weird_rm -rf.txt");
    assert_eq!(safe_name("note\u{0}.txt"), "note_.txt");
    // Nothing that comes out of here has a separator left in it.
    for hostile in ["../x", "/x", "a\\b", "..\\..\\x"] {
        let out = safe_name(hostile);
        assert!(!out.contains('/') && !out.contains('\\'), "{out}");
        assert!(!out.starts_with('.'), "{out}");
    }
}

#[test]
fn file_names_are_those_of_std() {
    for path in ["a", "a/", "a//", "a/.", "a/./", "a/..", "/", "", ".", "..", "../..", "//x", "a/b/../c", "é/日本"] {
        let expected = std::path::Path::new(path).file_name().map(|n| n.to_str().unwrap().to_string());
        assert_eq!(base_name(path), expected, "{path:?}");
    }
    assert_eq!(safe_name(" .日本 é. "), "日本 é");
}

#[test]
fn attachments_are_checked_at_both_ends() {
    assert_eq!(outgoing_name("a/b.txt", true, 3), Ok("b.txt".to_string()));
    assert_eq!(outgoing_name("a/b.txt", false, 3), Err(FileError::NotAFile));
    assert_eq!(outgoing_name("a/b.txt", true, MAX_FILE + 1), Err(FileError::TooBig(MAX_FILE + 1)));
    assert_eq!(outgoing_name("..", true, 3), Err(FileError::NoName));

    let bytes: Vec<u8> = (0..CHUNK as u32 + 10).map(|i| i as u8).collect();
    let mut digest = Digest::new();
    digest.update(&bytes[..1000]);
    digest.update(&bytes[1000..]);
    let hash = digest.finish();
    assert_eq!(hash, *blake3::hash(&bytes).as_bytes());

    let id = MessageId { sender: [2; 32], seq: 7, ts_ms: 1 };
    let (header, mut out) = Outgoing::start(id, "../b.txt", bytes.len() as u64, hash);
    assert_eq!(out.chunk(CHUNK), (CHUNK as u64, CHUNK as u64 + 10));
    assert_eq!(out.chunk(10), (CHUNK as u64 + 10, CHUNK as u64 + 10));

    let mut incoming = Incoming::accept(&[2; 32], Some(&header)).ok().unwrap();
    assert_eq!(incoming.disk_name(), "02020202-7-b.txt");
    assert_eq!(incoming.chunk(&bytes[..CHUNK]), Ok((CHUNK as u64, CHUNK as u64 + 10)));
    assert_eq!(incoming.finish(), Err(FileError::Mismatch), "not all of it is there");
    assert_eq!(incoming.chunk(&bytes[CHUNK..]), Ok((CHUNK as u64 + 10, CHUNK as u64 + 10)));
    assert_eq!(incoming.finish(), Ok(CHUNK as u64 + 10));
    assert_eq!(incoming.chunk(b"x"), Err(FileError::Overrun(CHUNK as u64 + 10)));

    let mut damaged = Incoming::accept(&[2; 32], Some(&header)).ok().unwrap();
    let mut other = bytes.clone();
    other[5] ^= 1;
    damaged.chunk(&other).unwrap();
    assert_eq!(damaged.finish(), Err(FileError::Mismatch));
    assert_eq!(
        FileError::Mismatch.message("b.txt"),
        "b.txt did not match the hash it was sent with — discarded"
    );

    let fault = |peer: [u8; 32], header: Option<&Frame>| Incoming::accept(&peer, header).err().unwrap();
    assert_eq!(fault([3; 32], Some(&header)), FileError::ForeignId);
    assert_eq!(fault([2; 32], None), FileError::NoHeader);
    assert_eq!(fault([2; 32], Some(&Frame::Hello { nickname: "x".into() })), FileError::NoHeader);
    let huge = Frame::File { id, name: "x".into(), size: MAX_FILE + 1, hash };
    assert_eq!(fault([2; 32], Some(&huge)), FileError::Announced(MAX_FILE + 1));
}

fn key(passphrase: &str) -> VaultKey {
    VaultKey::derive(passphrase, &[3u8; SALT_LEN]).unwrap()
}

fn empty(me: [u8; 32]) -> Store {
    Store::open(Vec::new(), Table::new(), Vec::new(), key("test passphrase"), me)
}

fn chat(id: MessageId, body: &str) -> Frame {
    Frame::Chat { id, body: body.into(), reply_to: None }
}

fn rows(store: &Store) -> Vec<OpRow> {
    store.ops.iter().map(|r| OpRow { id: r.id, peer: r.peer, payload: r.payload.clone() }).collect()
}

#[test]
fn folds_edits_deletes_and_reactions_and_refuses_forgeries() {
    let me = [1u8; 32];
    let peer = [2u8; 32];
    let mut store = empty(me);

    let mine = store.next_id();
    assert!(store.record(&peer, &chat(mine, "helo")).unwrap());
    // The same op arriving twice, by live delivery and by mailbox, stores once.
    assert!(!store.record(&peer, &chat(mine, "helo")).unwrap());

    let theirs = MessageId { sender: peer, seq: 1, ts_ms: mine.ts_ms + 1 };
    assert!(store.record(&peer, &chat(theirs, "hi")).unwrap());

    // I may fix my own typo.
    let fix = store.next_id();
    store.record(&peer, &Frame::Edit { id: fix, target: mine, body: "hello".into() }).unwrap();

    // The peer may not edit or delete mine, however it asks.
    let forged_edit = MessageId { sender: peer, seq: 2, ts_ms: mine.ts_ms + 2 };
    store
        .record(&peer, &Frame::Edit { id: forged_edit, target: mine, body: "words I never wrote".into() })
        .unwrap();
    let forged_delete = MessageId { sender: peer, seq: 3, ts_ms: mine.ts_ms + 3 };
    store.record(&peer, &Frame::Delete { id: forged_delete, target: mine }).unwrap();

    // Reactions are a toggle, and anyone may react.
    for (n, on) in [(4u64, true), (5, false), (6, true)] {
        store
            .record(
                &peer,
                &Frame::React {
                    id: MessageId { sender: peer, seq: n, ts_ms: mine.ts_ms + n },
                    target: mine,
                    emoji: "👍".into(),
                    on,
                },
            )
            .unwrap();
    }
    let my_react = store.next_id();
    store.record(&peer, &Frame::React { id: my_react, target: mine, emoji: "👍".into(), on: true }).unwrap();

    let history = store.history(&peer, 10).unwrap();
    assert_eq!(history.len(), 2, "ops are not messages");
    assert_eq!(history[0].body, "hello", "my own edit applied");
    assert!(!history[0].deleted, "the peer's delete was refused");
    assert!(history[0].outbound);
    assert_eq!(history[0].reactions, vec![("👍".to_string(), 2, true)]);
    assert_eq!(history[1].body, "hi");
    assert!(!history[1].outbound);

    // I may delete my own.
    let del = store.next_id();
    store.record(&peer, &Frame::Delete { id: del, target: mine }).unwrap();
    let history = store.history(&peer, 10).unwrap();
    assert!(history[0].deleted && history[0].body.is_empty());

    // Reopening resumes the counter and reads everything back.
    let kept = rows(&store);
    let again = rows(&store);
    drop(store);
    let mut reopened = Store::open(kept, Table::new(), Vec::new(), key("test passphrase"), me);
    assert!(reopened.next_id().seq > del.seq);
    assert_eq!(reopened.history(&peer, 10).unwrap().len(), 2);
    reopened.set_setting("nickname", "satya").unwrap();
    assert_eq!(reopened.setting("nickname").unwrap().as_deref(), Some("satya"));

    // A different passphrase cannot read any of it back.
    let wrong = Store::open(again, Table::new(), Vec::new(), key("wrong passphrase"), me);
    assert!(wrong.history(&peer, 10).is_err());
}

#[test]
fn a_conversation_is_shown_by_the_clock_and_cut_to_the_newest() {
    let me = [1u8; 32];
    let mut store = empty(me);
    let at = |peer: u8, seq: u64, ts_ms: u64| MessageId { sender: [peer; 32], seq, ts_ms };
    for (id, body) in [(at(2, 1, 30), "third"), (at(2, 2, 10), "first"), (at(2, 3, 20), "second")] {
        assert!(store.record(&[2; 32], &chat(id, body)).unwrap());
    }
    store.record(&[3; 32], &chat(at(3, 1, 99), "elsewhere")).unwrap();
    let bodies = |limit: usize| {
        store.history(&[2; 32], limit).unwrap().into_iter().map(|m| m.body).collect::<Vec<_>>()
    };
    assert_eq!(bodies(10), vec!["first", "second", "third"]);
    assert_eq!(bodies(2), vec!["second", "third"]);
    assert!(bodies(0).is_empty());
    assert_eq!(store.peers(), vec![[3; 32], [2; 32]]);
    assert!(store.record(&[2; 32], &Frame::Hello { nickname: "x".into() }) == Ok(false));
    // What is stored is not what was said.
    assert!(!store.ops[0].payload.windows(5).any(|w| w == b"third"));
}

#[test]
fn one_senders_ops_go_by_number_not_by_clock() {
    let (me, peer) = ([1u8; 32], [2u8; 32]);
    let id = |sender: [u8; 32], seq: u64, ts_ms: u64| MessageId { sender, seq, ts_ms };
    let m = id(me, 1, 100);
    let edit = |seq: u64, ts_ms: u64, body: &str| Frame::Edit { id: id(me, seq, ts_ms), target: m, body: body.into() };
    let mut store = empty(me);
    store.record(&peer, &chat(m, "a")).unwrap();
    // The sender's clock stepped back.
    store.record(&peer, &edit(2, 50, "b")).unwrap();
    let history = store.history(&peer, 10).unwrap();
    assert_eq!((history.len(), history[0].body.as_str()), (1, "b"));
    // Of two edits the later one holds, whichever the clock puts last.
    store.record(&peer, &edit(4, 10, "d")).unwrap();
    store.record(&peer, &edit(3, 900, "c")).unwrap();
    assert_eq!(store.history(&peer, 10).unwrap()[0].body, "d");
    // A message is not edited by what its author said before it.
    let late = id(me, 9, 500);
    store.record(&peer, &chat(late, "kept")).unwrap();
    store.record(&peer, &Frame::Edit { id: id(me, 8, 600), target: late, body: "lost".into() }).unwrap();
    assert_eq!(store.history(&peer, 10).unwrap()[1].body, "kept");
    // Reactions are settled the same way, each by its reactor's own numbers.
    let react = |sender: [u8; 32], seq: u64, ts_ms: u64, on: bool| Frame::React {
        id: id(sender, seq, ts_ms),
        target: m,
        emoji: "x".into(),
        on,
    };
    store.record(&peer, &react(peer, 7, 20, false)).unwrap();
    store.record(&peer, &react(peer, 6, 800, true)).unwrap();
    assert!(store.history(&peer, 10).unwrap()[0].reactions.is_empty());
    store.record(&peer, &react(me, 6, 5, true)).unwrap();
    assert_eq!(store.history(&peer, 10).unwrap()[0].reactions, vec![("x".to_string(), 1, true)]);
    // A delete marks the message even where a later edit follows it.
    store.record(&peer, &Frame::Delete { id: id(me, 5, 1), target: m }).unwrap();
    let history = store.history(&peer, 10).unwrap();
    assert!(history[0].deleted && history[0].body.is_empty());
    store.record(&peer, &edit(7, 2, "again")).unwrap();
    let history = store.history(&peer, 10).unwrap();
    assert!(history[0].deleted && history[0].body == "again");
}

#[test]
fn forged_ops_change_nothing_wherever_they_stand() {
    let (me, peer) = ([1u8; 32], [2u8; 32]);
    let id = |sender: [u8; 32], seq: u64, ts_ms: u64| MessageId { sender, seq, ts_ms };
    let mine = id(me, 1, 100);
    let honest = [
        chat(mine, "helo"),
        chat(id(peer, 1, 150), "hi"),
        Frame::Edit { id: id(me, 2, 200), target: mine, body: "hello".into() },
    ];
    let forged = |seq: u64, ts_ms: u64| {
        [
            Frame::Edit { id: id(peer, seq, ts_ms), target: mine, body: "words I never wrote".into() },
            Frame::Delete { id: id(peer, seq + 1, ts_ms), target: mine },
        ]
    };
    let mut plain = empty(me);
    let mut troubled = empty(me);
    for (n, frame) in honest.iter().enumerate() {
        plain.record(&peer, frame).unwrap();
        for f in forged(10 + 10 * n as u64, 50 + 90 * n as u64) {
            assert_eq!(troubled.record(&peer, &f), Ok(true));
        }
        troubled.record(&peer, frame).unwrap();
    }
    for limit in [0, 1, 2, usize::MAX] {
        assert_eq!(plain.history(&peer, limit), troubled.history(&peer, limit));
    }
    assert_eq!(plain.history(&peer, 5).unwrap()[0].body, "hello");
}

#[test]
fn the_counter_resumes_at_the_highest_number() {
    let me = [1u8; 32];
    let row = |seq: u64| OpRow { id: MessageId { sender: me, seq, ts_ms: 1 }, peer: [2; 32], payload: Vec::new() };
    let top = 1u64 << 63;
    let store = Store::open(vec![row(top + 4), row(top + 2)], Table::new(), Vec::new(), key("k"), me);
    assert_eq!(store.counter.seq(), top + 4);
    let store = Store::open(vec![row(3), row(7), row(5)], Table::new(), Vec::new(), key("k"), me);
    assert_eq!(store.counter.seq(), 7);
    let store = Store::open(vec![row(3)], Table::new(), Vec::new(), key("k"), [9; 32]);
    assert_eq!(store.counter.seq(), 0);
}

#[test]
fn a_damaged_store_says_so() {
    let me = [1u8; 32];
    let mut store = empty(me);
    let id = MessageId { sender: [2; 32], seq: 1, ts_ms: 1 };
    store.record(&[2; 32], &chat(id, "hi")).unwrap();
    let whole = store.ops[0].payload.clone();
    store.ops[0].payload.truncate(10);
    assert_eq!(store.history(&[2; 32], 5).unwrap_err(), StoreError::Vault(VaultError::Truncated));
    store.ops[0].payload = whole;
    store.ops[0].payload[30] ^= 1;
    assert_eq!(store.history(&[2; 32], 5).unwrap_err(), StoreError::Vault(VaultError::Refused));
    store.ops[0].payload = key("test passphrase").seal(b"\x63").unwrap();
    assert_eq!(store.history(&[2; 32], 5).unwrap_err(), StoreError::Malformed);
}

#[test]
fn a_store_under_another_key_is_named_and_the_passphrase_is_not_blamed() {
    let (me, peer) = ([1u8; 32], [2u8; 32]);
    let mut store = empty(me);
    let id = store.next_id();
    store.record(&peer, &chat(id, "hi")).unwrap();
    let other = Store::open(rows(&store), Table::new(), Vec::new(), key("another passphrase"), me);
    let fault = other.history(&peer, 5).unwrap_err();
    let said = fault.message("/home/me/messages.db");
    assert_eq!(said, "/home/me/messages.db is sealed under another key; remove the directory to start over");
    assert!(!said.contains("passphrase"));
    assert_eq!(SessionError::Store(fault).message("/home/me/messages.db"), said);

    let text = |e: StoreError| e.message("m.db");
    assert_eq!(
        text(StoreError::Vault(VaultError::Truncated)),
        format!("m.db: {}", VaultError::Truncated.message())
    );
    assert_eq!(text(StoreError::Malformed), "m.db: message store holds a malformed payload");
    assert_eq!(text(StoreError::Room(RoomError::Empty)), format!("m.db: {}", RoomError::Empty.message()));
    assert_eq!(text(StoreError::Misfiled), "m.db: message store holds a room under another room's id");
    assert_eq!(SessionError::ForeignId.message("m.db"), "peer minted an id under someone else's key");
}

fn kitchen() -> ([u8; 32], SigningKey, Vec<RoomEntry>) {
    let alice = SigningKey::from_bytes(&[1u8; 32]);
    let create = RoomEntry::new(&alice, [0; 32], 1, RoomOp::Create { name: "kitchen".into() });
    let id = create.hash();
    let invite = RoomEntry::new(&alice, id, 2, RoomOp::Invite { member: [2; 32] });
    (id, alice, vec![create, invite])
}

#[test]
fn rooms_are_verified_on_the_way_out() {
    let (id, _alice, log) = kitchen();
    let mut store = empty([1u8; 32]);
    assert_eq!(store.room(&id).map(|r| r.members.len()), None);

    store.save_room(&id, &log[1..]).unwrap();
    assert_eq!(store.rooms().unwrap_err(), StoreError::Room(RoomError::NotGenesis));
    assert!(store.room(&id).is_none());
    store.save_room(&id, &[]).unwrap();
    assert_eq!(store.rooms().unwrap_err(), StoreError::Room(RoomError::Empty));
    let mut forged = clone_log(&log);
    forged[1].ts_ms += 1;
    store.save_room(&id, &forged).unwrap();
    assert_eq!(store.rooms().unwrap_err(), StoreError::Room(RoomError::Forged(1)));

    store.save_room(&id, &log).unwrap();
    assert_eq!(store.room(&id).unwrap().members.len(), 2);
    assert_eq!(store.rooms().unwrap(), vec![(id, clone_log(&log))]);
    store.save_room(&[9; 32], &log).unwrap();
    assert_eq!(store.rooms().unwrap_err(), StoreError::Misfiled);
    assert!(store.room(&[9; 32]).is_none());
}

#[test]
fn a_room_comes_by_its_log_and_never_gets_shorter() {
    let (id, alice, log) = kitchen();
    let (me, peer) = ([2u8; 32], [7u8; 32]);
    let mut store = empty(me);
    let update = |log: &[RoomEntry]| Some(Frame::RoomUpdated { room: id, log: clone_log(log) });
    assert_eq!(receive(&mut store, &peer, update(&[])), Ok(Received::Look(id)));
    assert_eq!(receive(&mut store, &peer, update(&log[1..])), Ok(Received::Ignored));
    let strange = Frame::RoomUpdated { room: [9; 32], log: clone_log(&log) };
    assert_eq!(receive(&mut store, &peer, Some(strange)), Ok(Received::Ignored));
    assert!(room_event(&store, &id).is_none());

    assert_eq!(receive(&mut store, &peer, update(&log)), Ok(Received::Room(id)));
    assert_eq!(receive(&mut store, &peer, update(&log)), Ok(Received::Known));
    assert_eq!(receive(&mut store, &peer, update(&log[..1])), Ok(Received::Known));
    let seen = |store: &Store| match room_event(store, &id) {
        Some(UiEvent::Room { id: shown, view: RoomView { name, members, joined } }) => {
            assert_eq!(shown, id);
            (name, members, joined)
        }
        _ => panic!("a room"),
    };
    assert_eq!(seen(&store), ("kitchen".to_string(), 2, true));

    let mut longer = clone_log(&log);
    longer.push(RoomEntry::new(&alice, log[1].hash(), 3, RoomOp::Kick { member: me }));
    assert_eq!(receive(&mut store, &peer, update(&longer)), Ok(Received::Room(id)));
    assert_eq!(seen(&store), ("kitchen".to_string(), 1, false));
    // The log with the kick in it stays.
    assert_eq!(receive(&mut store, &peer, update(&log)), Ok(Received::Known));
    assert_eq!(seen(&store).1, 1);
}

#[test]
fn an_op_in_a_room_is_filed_under_the_room_if_a_member_sent_it() {
    let (room, alice, log) = kitchen();
    let (founder, member) = (alice.verifying_key().to_bytes(), [2u8; 32]);
    let mut store = empty(member);
    let op = |sender: [u8; 32], body: &str| {
        let id = MessageId { sender, seq: 1, ts_ms: 5 };
        Some(Frame::InRoom { room, op: Box::new(chat(id, body)) })
    };
    // Of a room that is not known here, nobody is a member.
    assert_eq!(receive(&mut store, &founder, op(founder, "hi")), Ok(Received::Ignored));
    store.save_room(&room, &log).unwrap();
    assert_eq!(receive(&mut store, &[8; 32], op([8; 32], "hi")), Ok(Received::Ignored));
    assert_eq!(receive(&mut store, &founder, op(member, "hi")), Err(SessionError::ForeignId));
    assert!(store.ops.is_empty());

    assert_eq!(receive(&mut store, &founder, op(founder, "hi all")), Ok(Received::New(room)));
    assert_eq!(receive(&mut store, &founder, op(founder, "hi all")), Ok(Received::Known));
    assert_eq!(store.history(&room, 5).unwrap()[0].body, "hi all");
    assert!(store.history(&founder, 5).unwrap().is_empty());
    let hello = Frame::InRoom { room, op: Box::new(greeting(&"x".to_string())) };
    assert_eq!(receive(&mut store, &founder, Some(hello)), Ok(Received::Ignored));
}

#[test]
fn a_change_of_name_is_told_by_another_hello() {
    let (a, b) = ([1u8; 32], [2u8; 32]);
    let (mut alice, mut bob) = (empty(a), empty(b));
    let nick = UiCommand::Nick("satya".into());
    let frame = compose(&mut alice, &b, &nick).unwrap().unwrap();
    assert_eq!(frame, greeting(&"satya".to_string()));
    assert_eq!(alice.counter.seq(), 0);
    assert_eq!(receive(&mut bob, &a, Some(frame)), Ok(Received::Named("satya".into())));
    assert!(alice.ops.is_empty() && bob.ops.is_empty());
}

#[test]
fn reactions_are_sorted_and_counted() {
    let (me, peer) = ([1u8; 32], [2u8; 32]);
    let mut store = empty(me);
    let target = store.next_id();
    store.record(&peer, &chat(target, "hi")).unwrap();
    let mut seq = 0;
    let mut react = |store: &mut Store, sender: u8, emoji: &str, on: bool| {
        seq += 1;
        let id = MessageId { sender: [sender; 32], seq: 100 + seq, ts_ms: target.ts_ms + seq };
        store.record(&peer, &Frame::React { id, target, emoji: emoji.into(), on }).unwrap();
    };
    for (sender, emoji, on) in [
        (2, "c", true),
        (3, "a", true),
        (1, "b", true),
        (4, "a", true),
        (2, "a", true),
        (2, "c", false),
        (3, "a", true),
        (4, "a", false),
    ] {
        react(&mut store, sender, emoji, on);
    }
    assert_eq!(
        store.history(&peer, 1).unwrap()[0].reactions,
        vec![("a".to_string(), 2, false), ("b".to_string(), 1, true)]
    );
}

#[test]
fn a_safe_name_stays_as_it_is() {
    for name in ["holiday.jpg", "../../etc/passwd", "..", " .日本 é. ", "weird;rm -rf.txt", "a\\b", "...x"] {
        let once = safe_name(name);
        assert_eq!(safe_name(&once), once, "{name:?}");
    }
}

#[test]
fn rooms_and_settings_are_kept_sealed() {
    let mut store = empty([1u8; 32]);
    let alice = SigningKey::from_bytes(&[1u8; 32]);
    let create = RoomEntry::new(&alice, [0; 32], 1, RoomOp::Create { name: "kitchen".into() });
    let id = create.hash();
    store.save_room(&id, &[create.clone()]).unwrap();
    let invite = RoomEntry::new(&alice, id, 2, RoomOp::Invite { member: [2; 32] });
    store.save_room(&id, &[create.clone(), invite.clone()]).unwrap();
    assert_eq!(store.rooms().unwrap(), vec![(id, vec![create, invite])]);

    assert_eq!(store.setting("nickname").unwrap(), None);
    store.set_setting("nickname", "satya").unwrap();
    store.set_setting("nickname", "adhi").unwrap();
    assert_eq!(store.setting("nickname").unwrap().as_deref(), Some("adhi"));
    // Bytes that are not UTF-8 are read with replacement characters.
    let sealed = key("test passphrase").seal(b"a\xffb").unwrap();
    store.settings.push(("odd".into(), sealed));
    assert_eq!(store.setting("odd").unwrap().as_deref(), Some("a\u{fffd}b"));
}

#[test]
fn a_nonce_decides_what_is_stored() {
    let (me, peer, nonce) = ([1u8; 32], [2u8; 32], [9u8; 24]);
    let vault = key("test passphrase");
    let id = MessageId { sender: me, seq: 1, ts_ms: 5 };
    let mut store = empty(me);
    assert_eq!(store.record_with(&peer, &chat(id, "hi"), &nonce), Ok(true));
    assert_eq!(store.record_with(&peer, &chat(id, "again"), &nonce), Ok(false));
    assert_eq!(store.record_with(&peer, &greeting(&"satya".to_string()), &nonce), Ok(false));
    assert_eq!(store.ops.len(), 1);
    let payload = wicara::wire::payload(&chat(id, "hi"));
    assert_eq!(store.ops[0].payload, vault.seal_with(&nonce, &payload).unwrap());

    let alice = SigningKey::from_bytes(&[1u8; 32]);
    let create = RoomEntry::new(&alice, [0; 32], 1, RoomOp::Create { name: "kitchen".into() });
    let room = create.hash();
    assert_eq!(store.save_room_with(&room, &[create.clone()], &nonce), Ok(()));
    assert_eq!(store.rooms().unwrap(), vec![(room, vec![create])]);
    assert_eq!(store.set_setting_with("nickname", "satya", &nonce), Ok(()));
    assert_eq!(store.settings[0].1, vault.seal_with(&nonce, b"satya").unwrap());

    let (salt, secret) = ([7u8; SALT_LEN], [3u8; 32]);
    let blob = file_with(&vault, &salt, &secret, &nonce);
    assert_eq!(blob[..SALT_LEN], salt);
    assert_eq!(blob[SALT_LEN..], vault.seal_with(&nonce, &secret).unwrap());
    let opened = open_with(vault, &blob[SALT_LEN..]).ok().unwrap();
    assert_eq!(opened.secret.to_bytes(), secret);
}

#[test]
fn an_identity_is_made_and_opened_again() {
    assert_eq!(check_passphrase("short", "short"), Err(IdentityError::ShortPassphrase));
    assert_eq!(check_passphrase("éééééééé", "éééééééé"), Ok(()));
    assert_eq!(create("long enough", "long enouGh").err().unwrap(), IdentityError::Mismatch);

    let (identity, blob) = create("long enough", "long enough").ok().unwrap();
    assert_eq!(blob.len(), SALT_LEN + 24 + 32 + 16);
    let again = load(&blob, "long enough").ok().unwrap();
    assert_eq!(again.secret.to_bytes(), identity.secret.to_bytes());
    // The store reuses the key.
    assert_eq!(again.vault.open(&identity.vault.seal(b"x").unwrap()).unwrap(), b"x");

    assert_eq!(load(&blob[..SALT_LEN], "long enough").err().unwrap(), IdentityError::Truncated);
    assert_eq!(
        load(&blob, "wrong passphrase").err().unwrap(),
        IdentityError::Vault(VaultError::Refused)
    );
    let vault = key("any");
    let odd = vault.seal(b"too short").unwrap();
    assert_eq!(open_with(vault, &odd).err().unwrap(), IdentityError::NotAKey);
    assert_eq!(IdentityError::ShortPassphrase.message(), "passphrase must be at least 8 characters");
    assert_eq!(passphrase_line("secret \r\n\n"), "secret ");
}

#[test]
fn a_session_opens_with_a_hello() {
    let hello = greeting(&"satya".to_string());
    assert_eq!(hello, Frame::Hello { nickname: "satya".into() });
    assert_eq!(greeted(Some(hello)), Ok("satya".to_string()));
    assert_eq!(greeted(None), Err(SessionError::NoHello));
    let id = MessageId { sender: [2; 32], seq: 1, ts_ms: 1 };
    assert_eq!(greeted(Some(chat(id, "x"))), Err(SessionError::NoHello));
    assert_eq!(SessionError::NoHello.message("x.db"), "peer did not open with a hello");
}

#[test]
fn what_one_side_sends_the_other_shows() {
    let (a, b) = ([1u8; 32], [2u8; 32]);
    let (mut alice, mut bob) = (empty(a), empty(b));
    let send = UiCommand::Send { peer: b, body: "hi bob".into(), reply_to: None };
    let frame = compose(&mut alice, &b, &send).unwrap().unwrap();
    let Frame::Chat { id, .. } = frame else { panic!("a message is a chat frame") };
    assert_eq!((id.sender, id.seq), (a, 1));
    assert_eq!(receive(&mut bob, &a, Some(frame.clone())), Ok(Received::New(a)));
    assert_eq!(receive(&mut bob, &a, Some(frame)), Ok(Received::Known));

    for command in [
        UiCommand::Edit { peer: b, target: id, body: "hi Bob".into() },
        UiCommand::React { peer: b, target: id, emoji: "👍".into(), on: true },
    ] {
        let frame = compose(&mut alice, &b, &command).unwrap().unwrap();
        assert_eq!(receive(&mut bob, &a, Some(frame)), Ok(Received::New(a)));
    }
    let UiEvent::Log { peer, entries } = log_event(&bob, &a, 10).unwrap() else { panic!("a log") };
    assert_eq!((peer, entries.len()), (a, 1));
    assert_eq!((entries[0].body.as_str(), entries[0].outbound), ("hi Bob", false));
    assert_eq!(entries[0].reactions, vec![("👍".to_string(), 1, false)]);

    let delete = UiCommand::Delete { peer: b, target: id };
    let frame = compose(&mut alice, &b, &delete).unwrap().unwrap();
    receive(&mut bob, &a, Some(frame)).unwrap();
    let UiEvent::Log { entries, .. } = log_event(&bob, &a, 10).unwrap() else { panic!("a log") };
    assert!(entries[0].deleted && entries[0].body.is_empty());

    // Not for this peer, or for nobody.
    assert_eq!(compose(&mut alice, &[9; 32], &delete), Ok(None));
    assert_eq!(compose(&mut alice, &b, &UiCommand::Quit), Ok(None));
}

#[test]
fn an_op_is_only_accepted_under_the_key_that_authenticated() {
    let mut bob = empty([2; 32]);
    let foreign = MessageId { sender: [3; 32], seq: 1, ts_ms: 1 };
    assert_eq!(receive(&mut bob, &[1; 32], Some(chat(foreign, "x"))), Err(SessionError::ForeignId));
    assert_eq!(receive(&mut bob, &[1; 32], None), Ok(Received::Closed));
    let hello = Frame::Hello { nickname: "x".into() };
    assert_eq!(receive(&mut bob, &[1; 32], Some(hello)), Ok(Received::Named("x".into())));
    assert!(bob.ops.is_empty());
}

#[test]
fn history_is_replayed_most_recent_first() {
    let mut store = empty([1; 32]);
    for (peer, ts_ms) in [(2u8, 10u64), (3, 30), (4, 20)] {
        let id = MessageId { sender: [peer; 32], seq: 1, ts_ms };
        store.record(&[peer; 32], &chat(id, "hi")).unwrap();
    }
    let events = replay_history(&store).unwrap();
    let mut order = Vec::new();
    for pair in events.chunks(2) {
        match (&pair[0], &pair[1]) {
            (UiEvent::Known { peer, nick: None, alias: None }, UiEvent::Log { peer: same, entries }) => {
                assert_eq!(peer, same);
                assert_eq!(entries.len(), 1);
                order.push(peer[0]);
            }
            _ => panic!("who it is, and the log"),
        }
    }
    assert_eq!(order, vec![3, 4, 2]);
    store.ops[1].payload.clear();
    assert_eq!(replay_history(&store).unwrap_err(), StoreError::Vault(VaultError::Truncated));
}

#[test]
fn a_path_is_told_when_it_changes() {
    let route = |direct: bool, address: &str, rtt_ms: u64| Some(Route { direct, address: address.into(), rtt_ms });
    assert_eq!(
        describe_path(&route(true, "Ip(1.2.3.4:5)", 12)),
        ("direct 1.2.3.4:5".to_string(), "direct — 1.2.3.4:5 (12ms rtt)".to_string())
    );
    assert_eq!(describe_path(&route(false, "Relay(https://r/))", 7)).0, "relayed https://r/");
    assert_eq!(describe_path(&route(true, "odd", 0)).1, "direct — odd (0ms rtt)");
    assert_eq!(describe_path(&None).1, "negotiating");

    let mut last = String::new();
    let told = |e: Option<UiEvent>| match e {
        Some(UiEvent::Path { path, .. }) => Some(path),
        _ => None,
    };
    assert_eq!(told(watch_path(&mut last, &[1; 32], &None)).as_deref(), Some("negotiating"));
    assert_eq!(told(watch_path(&mut last, &[1; 32], &None)), None);
    let relayed = route(false, "Relay(r)", 9);
    assert_eq!(told(watch_path(&mut last, &[1; 32], &relayed)).as_deref(), Some("relayed — r (9ms rtt)"));
    let jitter = route(false, "Relay(r)", 10);
    assert_eq!(told(watch_path(&mut last, &[1; 32], &jitter)), None);
    assert_eq!(start_status(true), "relay-only: direct paths disabled");
    assert_eq!(start_status(false), "listening");
}
