//! Operations one after the other, as the program runs them: what one leaves, the
//! next one finds.

use crate::e2e::VerifiedPrekey;
use crate::files::{Digest, FileError, Incoming, Outgoing};
use crate::hub::{Hub, HubError, Method, Request};
use crate::hub_server::store::HubStore;
use crate::identity::{Identity, IdentityError};
use crate::keys::{SigningKey, StaticSecret};
use crate::room::{Room, RoomEntry, RoomError, RoomOp};
use crate::session::{Received, Route, SessionError};
use crate::store::{Message, Store, StoreError};
use crate::ui::state::{CommandView, EventView, Ui, UiCommand, UiEvent};
use crate::vault::{VaultError, VaultKey};
use crate::wire::{Counter, Frame, FrameView, MessageId, WireError};
use crate::{bytes, codec, crypto, e2e, files, hub, hub_server, identity, room, session, store, vault, wire};
use vstd::prelude::*;

verus! {

/// Writes a setting and reads it: it reads as it was written, however long.
pub fn keep_setting(store: &mut Store, name: &str, value: &str, nonce: &[u8; 24]) -> (r: Result<
    Option<String>,
    StoreError,
>)
    requires
        old(store).wf(),
    ensures
        final(store).wf(),
        final(store).ops == old(store).ops,
        vstd::utf8::encode_utf8(value@).len() <= 1_000_000_000 ==> (r matches Ok(Some(s)) && s@ == value@),
{
    proof {
        if vstd::utf8::encode_utf8(value@).len() <= 1_000_000_000 {
            vault::law_everyday_sizes_are_sealable(vstd::utf8::encode_utf8(value@).len() as int);
        }
    }
    match store.set_setting_with(name, value, nonce) {
        Ok(_) => store.setting(name),
        Err(e) => Err(e),
    }
}

/// Seals a text and opens it: it is the same text, however long.
pub fn keep_secret(key: &VaultKey, nonce: &[u8; 24], plaintext: &[u8]) -> (r: Result<Vec<u8>, VaultError>)
    ensures
        plaintext@.len() <= 1_000_000_000 ==> (r matches Ok(p) && p@ == plaintext@),
{
    proof {
        if plaintext@.len() <= 1_000_000_000 {
            vault::law_everyday_sizes_are_sealable(plaintext@.len() as int);
        }
    }
    match key.seal_with(nonce, plaintext) {
        Ok(blob) => key.open(blob.as_slice()),
        Err(e) => Err(e),
    }
}

/// Writes an identity file and opens it: it holds the same secret.
pub fn keep_identity(vault: VaultKey, salt: &[u8; 16], secret: &[u8; 32], nonce: &[u8; 24]) -> (r: Result<
    Identity,
    IdentityError,
>)
    ensures
        r matches Ok(found) && found.secret@ == secret@ && found.vault@ == vault@,
{
    let blob = identity::file_with(&vault, salt, secret, nonce);
    proof {
        assert(blob@.subrange(16, blob@.len() as int) =~= vault::sealed(vault@, nonce@, secret@));
        assert(blob@.len() > 16);
    }
    identity::open_with(vault, vstd::slice::slice_subrange(blob.as_slice(), 16, blob.len()))
}

/// Mints two ids: they are the sender's own, numbered one after the other.
pub fn mint_twice(counter: &mut Counter, first_ms: u64, second_ms: u64) -> (r: (MessageId, MessageId))
    requires
        old(counter).used() < u64::MAX - 1,
    ensures
        r.0.sender == old(counter).sender() && r.1.sender == old(counter).sender(),
        r.0.seq == old(counter).used() + 1,
        r.1.seq == r.0.seq + 1,
        r.0.ts_ms == first_ms && r.1.ts_ms == second_ms,
        r.0 != r.1,
        final(counter).used() == r.1.seq,
{
    let a = counter.mint_at(first_ms);
    let b = counter.mint_at(second_ms);
    (a, b)
}

/// Writes two frames to a stream and reads them: they come out as they went in,
/// and nothing is left.
pub fn carry_frames(a: &Frame, b: &Frame) -> (r: Result<Option<(Frame, Frame)>, WireError>)
    ensures
        a@.encoded().len() <= 1024 * 1024 && b@.encoded().len() <= 1024 * 1024 ==> (r matches Ok(Some((x, y))) && x@
            == a@ && y@ == b@),
        a@.encoded().len() > 1024 * 1024 ==> r == Err::<Option<(Frame, Frame)>, WireError>(
            WireError::TooLong(a@.encoded().len() as usize),
        ),
{
    let mut stream: Vec<u8> = Vec::new();
    match wire::write_frame(&mut stream, a) {
        Ok(_) => {},
        Err(e) => return Err(e),
    }
    match wire::write_frame(&mut stream, b) {
        Ok(_) => {},
        Err(e) => return Err(e),
    }
    proof {
        assert(stream@ =~= wire::framed(a@) + wire::framed(b@));
        wire::law_streams_carry_many_frames(a@, b@);
    }
    let (x, rest) = match wire::read_frame(stream.as_slice()) {
        Ok(Some(x)) => x,
        Ok(None) => return Ok(None),
        Err(e) => return Err(e),
    };
    match wire::read_frame(rest) {
        Ok(Some((y, end))) => {
            assert(end@.len() == 0);
            Ok(Some((x, y)))
        },
        Ok(None) => Ok(None),
        Err(e) => Err(e),
    }
}

/// Sends a file in two pieces and takes it in: all of it arrives and is kept,
/// whatever its size within the limit and wherever it is cut. What arrives with
/// another hash is not.
pub fn send_file(id: MessageId, name: &str, content: &[u8], cut: usize, arrived: &[u8]) -> (r: Result<u64, FileError>)
    requires
        cut <= arrived@.len(),
        arrived@.len() == content@.len(),
    ensures
        content@.len() <= 256 * 1024 * 1024 && arrived@ == content@ ==> r == Ok::<u64, FileError>(content@.len() as u64),
        content@.len() <= 256 * 1024 * 1024 && crypto::blake3_digest(arrived@) != crypto::blake3_digest(content@)
            ==> r == Err::<u64, FileError>(FileError::Mismatch),
        content@.len() > 256 * 1024 * 1024 && content@.len() <= u64::MAX ==> r == Err::<u64, FileError>(
            FileError::Announced(content@.len() as u64),
        ),
{
    let mut digest = Digest::new();
    digest.update(content);
    let hash = digest.finish();
    assert(Seq::<u8>::empty() + content@ =~= content@);
    let size: u64 = content.len() as u64;
    let (header, _) = Outgoing::start(id, name, size, hash);
    proof {
        files::law_the_limit_is_the_same_at_both_ends(id.sender, id, name@, size, hash, name@);
    }
    let mut incoming = match Incoming::accept(&id.sender, Some(&header)) {
        Ok(incoming) => incoming,
        Err(e) => return Err(e),
    };
    let (a, b) = arrived.split_at(cut);
    proof {
        assert(a@ + b@ =~= arrived@);
        assert(Seq::<u8>::empty() + a@ =~= a@);
    }
    match incoming.chunk(a) {
        Ok(_) => {},
        Err(e) => return Err(e),
    }
    match incoming.chunk(b) {
        Ok(_) => {},
        Err(e) => return Err(e),
    }
    incoming.finish()
}

/// Whether a message is shown as a chat frame said it, by whom it was said.
pub open spec fn shows(m: store::MessageView, f: FrameView, me: [u8; 32]) -> bool {
    &&& Some(m.id) == f.id()
    &&& m.body == f->Chat_body
    &&& m.reply_to == f->reply_to
    &&& m.outbound == (m.id.sender == me)
    &&& !m.deleted
}

/// Whether every row of a conversation opens, to something that neither edits nor
/// deletes.
pub open spec fn calm(key: Seq<u8>, rows: Seq<store::OpRow>, peer: [u8; 32]) -> bool {
    forall|i: int|
        0 <= i < rows.len() && (#[trigger] rows[i]).peer == peer ==> (store::opened_frame(
            key,
            rows[i].payload@,
        ) matches Ok(f) && !(f is Edit) && !(f is Delete))
}

proof fn lemma_shown(key: Seq<u8>, rows: Seq<store::OpRow>, i: int, f: FrameView, me: [u8; 32])
    requires
        0 <= i < rows.len() <= usize::MAX,
        calm(key, rows, rows[i].peer),
        store::opened_frame(key, rows[i].payload@) == Ok::<FrameView, StoreError>(f),
        f is Chat,
        f.id() == Some(rows[i].id),
    ensures
        store::opened_ops(key, store::timeline(rows, rows[i].peer)) is Ok,
        ({
            let ops = store::opened_ops(key, store::timeline(rows, rows[i].peer))->Ok_0;
            let all = store::conversation(ops, me);
            &&& store::newest(all, usize::MAX as nat) == all
            &&& exists|k: int| 0 <= k < all.len() && #[trigger] shows(all[k], f, me)
        }),
{
    store::lemma_calm_conversation(key, rows, rows[i].peer);
    store::lemma_whole_history(key, rows, rows[i].peer, me);
    store::law_recorded_messages_are_shown(key, rows, i, me);
    let ops = store::opened_ops(key, store::timeline(rows, rows[i].peer))->Ok_0;
    let all = store::conversation(ops, me);
    assert(store::untouched(ops, rows[i].id));
    let k = choose|k: int|
        0 <= k < all.len() && {
            let m = #[trigger] all[k];
            m.id == rows[i].id && m.body == f->Chat_body && m.reply_to == f->reply_to && !m.deleted && m.outbound == (
            m.id.sender == me)
        };
    assert(shows(all[k], f, me));
}

/// Records a message and reads the conversation: it is there, word for word, with
/// what it answers, however long. This is so where nothing in the conversation
/// was edited or deleted.
pub fn keep_message(store: &mut Store, peer: &[u8; 32], frame: &Frame, nonce: &[u8; 24]) -> (r: Result<
    Vec<Message>,
    StoreError,
>)
    requires
        old(store).wf(),
        frame@ is Chat,
        frame@.encoded().len() <= 1_000_000_000,
        !store::recorded(old(store).ops@, frame@.id()->0),
    ensures
        final(store).wf(),
        calm(old(store).key(), old(store).ops@, *peer) ==> (r matches Ok(messages) && exists|k: int|
            0 <= k < messages@.len() && #[trigger] shows(messages@[k]@, frame@, old(store).me())),
{
    let ghost before = store.ops@;
    let ghost key = store.key();
    let ghost me = store.me();
    proof {
        vault::law_everyday_sizes_are_sealable(frame@.encoded().len() as int);
    }
    match store.record_with(peer, frame, nonce) {
        Ok(_) => {},
        Err(e) => return Err(e),
    }
    let ghost rows = store.ops@;
    let ghost quiet = calm(key, before, *peer);
    proof {
        let i = before.len() as int;
        assert(rows =~= before.push(rows.last()));
        assert(quiet ==> calm(key, rows, *peer)) by {
            if quiet {
                assert forall|k: int| 0 <= k < rows.len() && (#[trigger] rows[k]).peer == *peer implies (
                store::opened_frame(key, rows[k].payload@) matches Ok(f) && !(f is Edit) && !(f is Delete)) by {
                    if k < i {
                        assert(rows[k] == before[k]);
                    }
                }
            }
        }
        assert(store.ops.len() == rows.len());
        if quiet {
            lemma_shown(key, rows, i, frame@, me);
        }
    }
    let r = store.history(peer, usize::MAX);
    proof {
        if quiet {
            let messages = r->Ok_0@;
            let all = store::messages_view(messages);
            let k = choose|k: int| 0 <= k < all.len() && #[trigger] shows(all[k], frame@, me);
            assert(messages[k]@ == all[k]);
            assert(shows(messages[k]@, frame@, me));
        }
    }
    r
}

/// One side says, edits, deletes or reacts, and the other takes it in: the other
/// has it then, as it was meant, under the first side's key, and shows that
/// conversation again.
pub fn say_and_hear(alice: &mut Store, bob: &mut Store, to: &[u8; 32], command: &UiCommand) -> (r: Result<
    Received,
    SessionError,
>)
    requires
        old(alice).wf(),
        old(bob).wf(),
        old(alice).used() < u64::MAX,
        command@ matches CommandView::Send { peer, .. } ==> peer == *to,
        command@ matches CommandView::Edit { peer, .. } ==> peer == *to,
        command@ matches CommandView::Delete { peer, .. } ==> peer == *to,
        command@ matches CommandView::React { peer, .. } ==> peer == *to,
        command@ is Send || command@ is Edit || command@ is Delete || command@ is React,
        forall|i: int|
            0 <= i < old(bob).ops@.len() ==> !((#[trigger] old(bob).ops@[i]).id.sender == old(alice).me()
                && old(bob).ops@[i].id.seq == old(alice).used() + 1),
    ensures
        final(alice).wf(),
        final(bob).wf(),
        match r {
            Ok(received) => {
                let row = final(bob).ops@.last();
                &&& received == Received::New(old(alice).me())
                &&& final(bob).ops@.len() == old(bob).ops@.len() + 1
                &&& final(bob).ops@.drop_last() == old(bob).ops@
                &&& row.peer == old(alice).me()
                &&& row.id.sender == old(alice).me()
                &&& row.id.seq == old(alice).used() + 1
                &&& store::opened_frame(old(bob).key(), row.payload@) == Ok::<FrameView, StoreError>(
                    match command@ {
                        CommandView::Send { body, reply_to, .. } => FrameView::Chat { id: row.id, body, reply_to },
                        CommandView::Edit { target, body, .. } => FrameView::Edit { id: row.id, target, body },
                        CommandView::Delete { target, .. } => FrameView::Delete { id: row.id, target },
                        CommandView::React { target, emoji, on, .. } => FrameView::React {
                            id: row.id,
                            target,
                            emoji,
                            on,
                        },
                        _ => FrameView::Hello { nickname: Seq::empty() },
                    },
                )
            },
            Err(e) => e matches SessionError::Store(e) && exists|len: int| #[trigger] store::seal_failed(e, len),
        },
{
    let from = alice.me;
    let frame = match session::compose(alice, to, command) {
        Ok(Some(frame)) => frame,
        Ok(None) => return Ok(Received::Ignored),
        Err(e) => {
            proof {
                let id = choose|id: MessageId|
                    {
                        &&& id.sender == old(alice).me() && id.seq == old(alice).used() + 1
                        &&& #[trigger] session::carried(command@, id) is Some
                        &&& e matches SessionError::Store(e) && store::seal_failed(
                            e,
                            session::carried(command@, id)->0.encoded().len() as int,
                        )
                    };
            }
            return Err(e);
        },
    };
    session::receive(bob, &from, Some(frame))
}

/// Changes a name and tells a peer: the peer learns just that name.
pub fn rename(alice: &mut Store, bob: &mut Store, to: &[u8; 32], name: &String) -> (r: Result<Received, SessionError>)
    requires
        old(alice).wf(),
        old(bob).wf(),
        old(alice).used() < u64::MAX,
    ensures
        *final(alice) == *old(alice),
        final(bob).ops == old(bob).ops,
        r matches Ok(Received::Named(found)) && found@ == name@,
{
    let from = alice.me;
    let command = UiCommand::Nick(name.clone());
    assert(command@ == CommandView::Nick(name@));
    match session::compose(alice, to, &command) {
        Ok(frame) => session::receive(bob, &from, frame),
        Err(e) => Err(e),
    }
}

/// A member says something in a room: it is filed under the room. What anyone else
/// says there is passed over.
pub fn hear_in_room(store: &mut Store, room: &[u8; 32], who: &[u8; 32], id: MessageId, body: String) -> (r: Result<
    Received,
    SessionError,
>)
    requires
        old(store).wf(),
        id.sender == *who,
        !store::recorded(old(store).ops@, id),
    ensures
        final(store).wf(),
        match store::room_at(old(store), *room) {
            Some(found) => if found.members.contains(*who) {
                match r {
                    Ok(received) => {
                        let row = final(store).ops@.last();
                        &&& received == Received::New(*room)
                        &&& final(store).ops@.drop_last() == old(store).ops@
                        &&& row.peer == *room
                        &&& row.id == id
                        &&& store::opened_frame(old(store).key(), row.payload@) == Ok::<FrameView, StoreError>(
                            FrameView::Chat { id, body: body@, reply_to: None },
                        )
                    },
                    Err(e) => e matches SessionError::Store(e) && exists|len: int| #[trigger] store::seal_failed(e, len),
                }
            } else {
                r == Ok::<Received, SessionError>(Received::Ignored) && final(store).ops == old(store).ops
            },
            None => r == Ok::<Received, SessionError>(Received::Ignored) && final(store).ops == old(store).ops,
        },
{
    let op = Frame::Chat { id, body, reply_to: None };
    let ghost said = op@;
    assert(said == (FrameView::Chat { id, body: body@, reply_to: None }));
    let frame = Frame::InRoom { room: *room, op: Box::new(op) };
    proof {
        reveal_with_fuel(<Frame as View>::view, 2);
        reveal_with_fuel(FrameView::id, 2);
        assert(frame@.unwrapped() == said);
    }
    session::receive(store, who, Some(frame))
}

/// Whether a room whose log has three entries has this name and id, and just these
/// two for members, the first its founder.
pub open spec fn of_two(
    room: room::RoomState,
    name: Seq<char>,
    id: Seq<u8>,
    founder: Seq<u8>,
    guest: Seq<u8>,
) -> bool {
    &&& room.name == name
    &&& room.id == id
    &&& room.founder@ == founder
    &&& room.length == 3
    &&& forall|who: [u8; 32]| #[trigger] room.members.contains(who) <==> who@ == founder || who@ == guest
}

/// Founds a room, invites someone and kicks someone else: the log holds up, and
/// the room has the founder and the guest for members and nobody else. This is so
/// where the signatures commit to points other than the neutral one.
pub fn found_room(founder: &SigningKey, name: String, guest: &[u8; 32], other: &[u8; 32], ts_ms: u64) -> (r: (
    Vec<RoomEntry>,
    Result<Room, RoomError>,
))
    requires
        guest != other,
    ensures
        r.0@.len() == 3,
        other@ != founder.public() && crypto::committed(r.0@[0].signature@) && crypto::committed(r.0@[1].signature@) && crypto::committed(
            r.0@[2].signature@,
        ) ==> (r.1 matches Ok(room)
            && room.wf() && of_two(room@, name@, r.0@[0]@.digest(), founder.public(), guest@)),
{
    let zero: [u8; 32] = [0u8; 32];
    let create = RoomEntry::new(founder, zero, ts_ms, RoomOp::Create { name });
    let id = create.hash();
    let invite = RoomEntry::new(founder, id, ts_ms, RoomOp::Invite { member: *guest });
    let kick = RoomEntry::new(founder, invite.hash(), ts_ms, RoomOp::Kick { member: *other });
    let mut log: Vec<RoomEntry> = Vec::new();
    log.push(create);
    log.push(invite);
    log.push(kick);
    let found = room::verify_log(log.as_slice());
    proof {
        let view = room::log_view(log@);
        if other@ != founder.public() && crypto::committed(log@[0].signature@) && crypto::committed(log@[1].signature@) && crypto::committed(
            log@[2].signature@,
        ) {
            assert(view[0] == log@[0]@ && view[1] == log@[1]@ && view[2] == log@[2]@);
            bytes::lemma_array_eq(view[1].author, view[0].author);
            bytes::lemma_array_eq(view[2].author, view[0].author);
            if *other == view[0].author {
                assert(other@ == founder.public());
            }
            room::law_honest_logs_are_taken(view, name@);
            assert forall|who: [u8; 32]| #[trigger] found->Ok_0@.members.contains(who) <==> who@ == founder.public()
                || who@ == guest@ by {
                room::law_membership(view, who);
                lemma_members(view, *guest, *other, who);
                if who@ == founder.public() {
                    bytes::lemma_array_eq(who, view[0].author);
                }
                if who@ == guest@ {
                    bytes::lemma_array_eq(who, *guest);
                }
            }
            assert(of_two(found->Ok_0@, name@, log@[0]@.digest(), founder.public(), guest@));
        }
    }
    (log, found)
}

proof fn lemma_members(log: Seq<room::EntryView>, guest: [u8; 32], other: [u8; 32], who: [u8; 32])
    requires
        log.len() == 3,
        log[0].op is Create,
        log[1].op == (room::OpView::Invite { member: guest }),
        log[2].op == (room::OpView::Kick { member: other }),
        guest != other,
    ensures
        (exists|i: int| room::invited_and_not_kicked_since(log, who, i)) <==> who == guest,
{
    if who == guest {
        assert(log[2].op != (room::OpView::Kick { member: who })) by {
            if log[2].op == (room::OpView::Kick { member: who }) {
                assert(who == other);
            }
        }
        assert(room::invited_and_not_kicked_since(log, who, 1));
    }
    if exists|i: int| room::invited_and_not_kicked_since(log, who, i) {
        let i = choose|i: int| room::invited_and_not_kicked_since(log, who, i);
        assert(i == 1);
    }
}

/// Keeps a room's log and looks the room up: it is as its log says.
pub fn keep_room(store: &mut Store, id: &[u8; 32], log: &[RoomEntry], nonce: &[u8; 24]) -> (r: Option<Room>)
    requires
        old(store).wf(),
        store::log_bytes(room::log_view(log@)).len() <= 1_000_000_000,
    ensures
        final(store).wf(),
        match room::replay(room::log_view(log@)) {
            Ok(found) => if found.id == id@ {
                r matches Some(room) && room@ == found
            } else {
                r is None
            },
            Err(_) => r is None,
        },
{
    proof {
        vault::law_everyday_sizes_are_sealable(store::log_bytes(room::log_view(log@)).len() as int);
    }
    match store.save_room_with(id, log, nonce) {
        Ok(_) => store.room(id),
        Err(_) => None,
    }
}

/// Leaves a room's log with the hub and asks for it: a longer one replaces what is
/// there, and what is there is handed out byte for byte.
pub fn leave_room_log(hub: &mut HubStore, id: &[u8; 32], length: usize, blob: &[u8]) -> (r: Option<Vec<u8>>)
    requires
        old(hub).wf(),
    ensures
        final(hub).wf(),
        final(hub).mail == old(hub).mail,
        r matches Some(found) && found@ == (if old(hub).rooms@.dom().contains(*id) && length <= old(hub).rooms@[
            *id
        ].length {
            old(hub).rooms@[*id].blob@
        } else {
            blob@
        }),
{
    hub.put_room(id, length, blob);
    hub.room(id)
}

/// Whether a client is the one for an endpoint, and its proof of that commits to a
/// point other than the neutral one.
pub open spec fn vouches(client: &Hub, me: [u8; 32], now_ms: u64) -> bool {
    &&& me@ == client.me()
    &&& crypto::committed(
        crypto::ed25519_signature(client.identity(), e2e::mailbox_auth::auth_bytes(client.me(), now_ms)),
    )
}

/// Takes delivery of mail as its recipient would, over the wire: those ids go from
/// the recipient's mailbox, and nothing else goes from any.
pub fn take_delivery(reader: &Hub, hub: &mut HubStore, me: &[u8; 32], ids: &[i64], now_ms: u64) -> (r: bool)
    requires
        old(hub).wf(),
        ids@.len() > 0,
    ensures
        final(hub).wf(),
        vouches(reader, *me, now_ms) ==> r && hub_server::store::mailbox(final(hub).mail@, *me)
            == hub_server::store::mailbox(old(hub).mail@, *me).filter(
            |m: (i64, e2e::EnvelopeView)| !ids@.contains(m.0),
        ),
        forall|other: [u8; 32]|
            vouches(reader, *me, now_ms) && other != *me ==> #[trigger] hub_server::store::mailbox(
                final(hub).mail@,
                other,
            ) == hub_server::store::mailbox(old(hub).mail@, other),
{
    let headers = reader.auth_at(now_ms);
    let request = match reader.delete_mail_at(ids, now_ms) {
        Some(request) => request,
        None => return false,
    };
    proof {
        if vouches(reader, *me, now_ms) {
            hub::law_headers_carry_the_proof(
                *me,
                now_ms,
                crypto::ed25519_signature(
                    reader.identity(),
                    e2e::mailbox_auth::auth_bytes(reader.me(), now_ms),
                ),
                now_ms,
            );
        }
        hub_server::store::law_delivered_mail_is_gone(old(hub).mail@, *me, ids@);
        assert forall|other: [u8; 32]| other != *me implies #[trigger] hub_server::store::mailbox(
            hub_server::store::delivered(old(hub).mail@, *me, ids@),
            other,
        ) == hub_server::store::mailbox(old(hub).mail@, other) by {
            hub_server::store::law_deletes_are_scoped(old(hub).mail@, *me, ids@, other);
        }
    }
    hub_server::delete_mail(hub, &headers, request.body.as_slice(), now_ms).is_ok()
}

/// Draws the list of peers: one line for each, in order, that says how it is
/// called.
pub fn list_peers(ui: &Ui) -> (r: usize)
    ensures
        r == ui@.peers.len(),
{
    let pane = ui.draw_peers();
    assert(pane@.lines.len() == ui@.peers.len());
    pane.lines.len()
}

/// Publishes a prekey, and asks for it as anyone would: it is that prekey, and its
/// owner's. This is so where the signature commits to a point other than the
/// neutral one.
pub fn publish_and_ask(
    client: &Hub,
    hub: &mut HubStore,
    owner: &[u8; 32],
    prekey: &StaticSecret,
    now_ms: u64,
) -> (r: Result<VerifiedPrekey, HubError>)
    requires
        old(hub).wf(),
    ensures
        final(hub).wf(),
        final(hub).mail == old(hub).mail,
        owner@ == client.me() && crypto::committed(
            crypto::ed25519_signature(
                client.identity(),
                e2e::prekey_bytes(client.me(), prekey.public(), now_ms),
            ),
        ) ==> (r matches Ok(found) && found.owner() == *owner && found.key()@ == prekey.public()),
{
    let request = client.publish_prekey_at(prekey, now_ms);
    let ghost p = (e2e::read_prekey(request.body@)->0).0;
    proof {
        if owner@ == client.me() {
            bytes::lemma_array_eq(p.owner, *owner);
        }
    }
    match hub_server::put_prekey(hub, request.body.as_slice()) {
        Ok(_) => {},
        Err(e) => return Err(HubError::Status(e.status)),
    }
    proof {
        let none = Seq::<char>::empty();
        hub_server::law_endpoints_read_back(*owner, none, none);
        assert(none + bytes::hex(owner@) + none =~= bytes::hex(owner@));
    }
    match hub_server::get_prekey(hub, bytes::hex_encode(owner).as_str()) {
        Ok(body) => hub::prekey_reply(owner, 200, body.as_slice()),
        Err(e) => Err(HubError::Status(e.status)),
    }
}

/// Whether what someone seals to a prekey can be opened with a secret, and there is
/// room for it in the mailbox: the secret is that of the prekey, the agreement comes
/// to something, the signature commits to a point other than the neutral one, and
/// fewer than two hundred of the sender's wait there.
pub open spec fn welcome(
    mail: Seq<hub_server::store::MailRow>,
    identity: &SigningKey,
    to: &VerifiedPrekey,
    secret: &StaticSecret,
    plaintext: Seq<u8>,
    ephemeral: &StaticSecret,
    nonce: [u8; 24],
) -> bool {
    let shared = crypto::x25519_shared(ephemeral@, to.key()@);
    &&& to.key()@ == secret.public()
    &&& exists|i: int| 0 <= i < shared.len() && (#[trigger] shared[i]) != 0
    &&& forall|from: [u8; 32]|
        from@ == identity.public() ==> (#[trigger] hub_server::store::backlog(mail, from, to.owner())).len() < 200
    &&& forall|e: e2e::EnvelopeView|
        #[trigger] e2e::seals(e, identity@, to.owner(), to.key(), ephemeral@, plaintext) && e.nonce == nonce
            ==> crypto::committed(e.signature)
}

/// Mails something to an endpoint that is away, by way of the hub, and reads it as
/// that endpoint: it is what was mailed, whatever its size up to sixty thousand
/// bytes, and who mailed it. This is so where fewer than two hundred of the
/// sender's wait there, the agreement comes to something, and the signatures
/// commit to points other than the neutral one.
pub fn mail_and_read(
    identity: &SigningKey,
    sender: &Hub,
    hub: &mut HubStore,
    to: &VerifiedPrekey,
    recipient: &[u8; 32],
    reader: &Hub,
    secret: &StaticSecret,
    plaintext: &[u8],
    ephemeral: &StaticSecret,
    nonce: &[u8; 24],
    now_ms: u64,
) -> (r: Option<(Vec<u8>, [u8; 32])>)
    requires
        old(hub).wf(),
        hub_server::store::next_row(old(hub).mail@) <= i64::MAX,
        to.owner() == *recipient,
        secret@.len() == 32,
        plaintext@.len() <= 60_000,
    ensures
        final(hub).wf(),
        vouches(reader, *recipient, now_ms) && welcome(
            old(hub).mail@,
            identity,
            to,
            secret,
            plaintext@,
            ephemeral,
            *nonce,
        ) ==> (r matches Some((text, from)) && text@ == plaintext@ && from@ == identity.public()),
{
    let ghost ok = vouches(reader, *recipient, now_ms) && welcome(
        hub.mail@,
        identity,
        to,
        secret,
        plaintext@,
        ephemeral,
        *nonce,
    );
    proof {
        e2e::law_sealing_has_one_fault(ephemeral@, to.key()@, plaintext@.len() as int);
    }
    let sealed = e2e::seal_with(identity, to, plaintext, ephemeral, nonce);
    let ghost e = sealed->Ok_0@;
    let request = match sender.mail_with(recipient, sealed) {
        Ok(request) => request,
        Err(_) => return None,
    };
    proof {
        let none = Seq::<char>::empty();
        hub_server::law_endpoints_read_back(*recipient, none, none);
        assert(none + bytes::hex(recipient@) + none =~= bytes::hex(recipient@));
        if ok {
            assert(e2e::readable(e, plaintext@));
            lemma_envelope_size(e);
            hub_server::law_refusals_of_mail(old(hub).mail@, *recipient, e);
            assert(hub_server::store::backlog(old(hub).mail@, e.sender, *recipient).len() < 200);
        }
    }
    match hub_server::post_mail(hub, bytes::hex_encode(recipient).as_str(), request.body.as_slice(), now_ms) {
        Ok(_) => {},
        Err(_) => return None,
    }
    let headers = reader.auth_at(now_ms);
    proof {
        if ok {
            let row = hub.mail@.last();
            assert(hub.mail@ =~= old(hub).mail@.push(row));
            hub_server::store::law_filed_mail_is_handed_out(old(hub).mail@, row, e, *recipient);
            hub::law_headers_carry_the_proof(
                *recipient,
                now_ms,
                crypto::ed25519_signature(
                    reader.identity(),
                    e2e::mailbox_auth::auth_bytes(reader.me(), now_ms),
                ),
                now_ms,
            );
        }
    }
    let body = match hub_server::get_mail(hub, &headers, now_ms) {
        Ok(body) => body,
        Err(_) => return None,
    };
    let mut mail = match hub::mail_reply(200, body.as_slice()) {
        Ok(mail) => mail,
        Err(_) => return None,
    };
    match mail.pop() {
        Some((_, envelope)) => match e2e::open(&envelope, secret, recipient) {
            Ok((text, from)) => Some((text, from)),
            Err(_) => None,
        },
        None => None,
    }
}

proof fn lemma_envelope_size(e: e2e::EnvelopeView)
    requires
        e.ciphertext.len() <= 60_016,
        e.signature.len() == 64,
    ensures
        e.encoded().len() <= 64 * 1024,
        e.fits(),
{
    reveal_with_fuel(codec::varint, 4);
}

/// Sends more than was announced: it is refused, and so is the file.
pub fn send_too_much(id: MessageId, name: &str, size: u64, hash: [u8; 32], arrived: &[u8]) -> (r: Result<
    (u64, u64),
    FileError,
>)
    ensures
        size <= 256 * 1024 * 1024 && arrived@.len() > size ==> r == Err::<(u64, u64), FileError>(
            FileError::Overrun(size),
        ),
        size <= 256 * 1024 * 1024 && arrived@.len() <= size ==> r == Ok::<(u64, u64), FileError>(
            (arrived@.len() as u64, size),
        ),
{
    let (header, _) = Outgoing::start(id, name, size, hash);
    proof {
        files::law_the_limit_is_the_same_at_both_ends(id.sender, id, name@, size, hash, name@);
        assert(Seq::<u8>::empty() + arrived@ =~= arrived@);
    }
    match Incoming::accept(&id.sender, Some(&header)) {
        Ok(incoming) => {
            let mut incoming = incoming;
            incoming.chunk(arrived)
        },
        Err(e) => Err(e),
    }
}

/// Counts what goes out of a file in two pieces: the progress is their sum, of the
/// size.
pub fn progress_of(id: MessageId, name: &str, size: u64, hash: [u8; 32], a: usize, b: usize) -> (r: (u64, u64))
    requires
        a + b <= u64::MAX,
    ensures
        r == ((a + b) as u64, size),
{
    let (_, mut outgoing) = Outgoing::start(id, name, size, hash);
    let _ = outgoing.chunk(a);
    outgoing.chunk(b)
}

/// Greets a peer: it learns the name, whatever it is.
pub fn greet(name: &String) -> (r: Result<String, SessionError>)
    ensures
        r matches Ok(found) && found@ == name@,
{
    let hello = session::greeting(name);
    session::greeted(Some(hello))
}

/// Watches a path that stays as it is: it is told of once, and not again, however
/// long a round trip takes the second time.
pub fn watch_twice(peer: &[u8; 32], route: Route, later_ms: u64) -> (r: (Option<UiEvent>, Option<UiEvent>))
    ensures
        r.0 matches Some(event) && event@ == (EventView::Path { peer: *peer, path: session::path_line(Some(route)) }),
        r.1 is None,
{
    let mut last = String::new();
    let first = Some(route);
    proof {
        reveal_strlit("direct ");
        reveal_strlit("relayed ");
        assert(session::path_kind(first).len() > 0);
    }
    assert(last@.len() == 0);
    let a = session::watch_path(&mut last, peer, &first);
    let route = match first {
        Some(route) => route,
        None => return (a, None),
    };
    let second = Some(Route { direct: route.direct, address: route.address, rtt_ms: later_ms });
    let b = session::watch_path(&mut last, peer, &second);
    (a, b)
}

/// Asks a hub for a prekey, for one's mail and to clear it, and leaves mail with it:
/// each request goes to its own address below that of the hub.
pub fn address_hub(url: &str, identity: SigningKey, owner: &[u8; 32], ids: &[i64], now_ms: u64) -> (r: (
    Request,
    Request,
    Option<Request>,
))
    requires
        ids@.len() > 0,
        url@.len() > 0 ==> url@.last() != '/',
    ensures
        r.0.url@ == url@ + "/prekey/"@ + bytes::hex(owner@) && r.0.method == Method::Get && r.0.auth is None,
        r.1.url@ == url@ + "/mail"@ && r.1.method == Method::Get && r.1.auth is Some,
        r.2 matches Some(clear) && clear.url@ == url@ + "/mail"@ && clear.method == Method::Delete && clear.auth is Some
            && hub_server::ids_of(clear.body@) == Some(ids@),
{
    let client = Hub::new(url, identity);
    proof {
        hub::law_only_trailing_slashes_go(url@, Seq::empty());
        assert(url@ + Seq::<char>::empty() =~= url@);
    }
    (client.prekey_for(owner), client.fetch_mail_at(now_ms), client.delete_mail_at(ids, now_ms))
}

} // verus!
