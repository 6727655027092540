//! One live conversation: who may say what, what is kept, what is shown.
//!
//! The streams, the clock and the terminal belong to the program around it;
//! what is decided between them is decided here.

use crate::room::RoomEntry;
use crate::store::{Message, MessageView, Store, StoreError};
use crate::ui::state::{CommandView, Entry, EntryView, EventView, RoomFace, RoomView, UiCommand, UiEvent};
use crate::wire::{Frame, FrameView, MessageId};
use crate::{bytes, room, store, text, ui};
use vstd::prelude::*;

verus! {

/// How much of each conversation is shown at the start.
pub const HISTORY_ON_START: usize = 200;

/// Why a session ends.
#[derive(Clone, Copy, Debug, PartialEq, Eq, Structural)]
pub enum SessionError {
    /// The first frame was not a hello.
    NoHello,
    /// The peer used someone else's key in an id.
    ForeignId,
    /// The store could not be written or read.
    Store(StoreError),
}

impl SessionError {
    /// The text of the error, with the store in `file`.
    pub open spec fn text(self, file: Seq<char>) -> Seq<char> {
        match self {
            SessionError::NoHello => "peer did not open with a hello"@,
            SessionError::ForeignId => "peer minted an id under someone else's key"@,
            SessionError::Store(e) => e.text(file),
        }
    }

    /// Computes [`SessionError::text`].
    pub fn message(&self, file: &str) -> (r: String)
        ensures
            r@ == self.text(file@),
    {
        match self {
            SessionError::NoHello => "peer did not open with a hello".to_owned(),
            SessionError::ForeignId => "peer minted an id under someone else's key".to_owned(),
            SessionError::Store(e) => e.message(file),
        }
    }
}

/// The first frame of every stream, and the one that follows a change of name.
pub fn greeting(nickname: &String) -> (r: Frame)
    ensures
        r@ == (FrameView::Hello { nickname: nickname@ }),
{
    Frame::Hello { nickname: nickname.clone() }
}

/// The name that a peer gives itself in the first frame it sends, which has to
/// be a hello.
pub fn greeted(first: Option<Frame>) -> (r: Result<String, SessionError>)
    ensures
        match first {
            Some(frame) => match frame@ {
                FrameView::Hello { nickname } => r is Ok && r->Ok_0@ == nickname,
                _ => r == Err::<String, SessionError>(SessionError::NoHello),
            },
            None => r == Err::<String, SessionError>(SessionError::NoHello),
        },
{
    match first {
        Some(Frame::Hello { nickname }) => Ok(nickname),
        _ => Err(SessionError::NoHello),
    }
}

/// Whether a frame is an op on a conversation.
pub open spec fn is_op(frame: FrameView) -> bool {
    frame is Chat || frame is Edit || frame is Delete || frame is React
}

/// The id of an op; `None` for other frames.
fn op_id(frame: &Frame) -> (r: Option<MessageId>)
    ensures
        r == (if is_op(frame@) {
            frame@.id()
        } else {
            None
        }),
        is_op(frame@) ==> r is Some,
{
    match frame {
        Frame::Chat { id, .. } => Some(*id),
        Frame::Edit { id, .. } => Some(*id),
        Frame::Delete { id, .. } => Some(*id),
        Frame::React { id, .. } => Some(*id),
        _ => None,
    }
}

/// What became of a frame.
#[derive(Debug, PartialEq, Eq)]
pub enum Received {
    /// The stream ended.
    Closed,
    /// The frame has no place in a session.
    Ignored,
    /// The op, or the room's log, was there already.
    Known,
    /// The op is new: this conversation has to be shown again.
    New([u8; 32]),
    /// The peer calls itself something else now.
    Named(String),
    /// A room appeared, or its membership changed.
    Room([u8; 32]),
    /// A room changed, and the hub has to be asked how.
    Look([u8; 32]),
}

/// Whether an op was added to the store as the last one.
pub open spec fn added(before: &Store, after: &Store, peer: [u8; 32], frame: FrameView) -> bool {
    &&& frame.id() is Some
    &&& after.ops@.len() == before.ops@.len() + 1
    &&& after.ops@.drop_last() == before.ops@
    &&& after.ops@.last().id == frame.id()->0
    &&& after.ops@.last().peer == peer
    &&& store::opened_frame(before.key(), after.ops@.last().payload@) == Ok::<FrameView, StoreError>(frame)
}

/// What comes of recording an op in a conversation: it is new, or known, or it
/// could not be sealed.
pub open spec fn filed(
    before: &Store,
    after: &Store,
    r: Result<Received, SessionError>,
    conversation: [u8; 32],
    op: FrameView,
) -> bool {
    ||| store::recorded(before.ops@, op.id()->0) && r == Ok::<Received, SessionError>(Received::Known)
    ||| !store::recorded(before.ops@, op.id()->0) && r == Ok::<Received, SessionError>(
        Received::New(conversation),
    ) && added(before, after, conversation, op)
    ||| r matches Err(SessionError::Store(e)) && store::seal_failed(e, op.encoded().len() as int)
}

/// Whether the log that a store keeps of a room has this member in it.
pub open spec fn takes_part(st: &Store, room: [u8; 32], who: [u8; 32]) -> bool {
    store::room_at(st, room) matches Some(r) && r.members.contains(who)
}

/// What comes of a room's log. It is self-verifying, so it does not matter who
/// hands it over. It may not get shorter, or a kick could be taken back by
/// whoever kept an older log.
pub open spec fn updated(
    before: &Store,
    after: &Store,
    r: Result<Received, SessionError>,
    room: [u8; 32],
    log: Seq<room::EntryView>,
) -> bool {
    if log.len() == 0 {
        r == Ok::<Received, SessionError>(Received::Look(room))
    } else if !store::describes(log, room) {
        r == Ok::<Received, SessionError>(Received::Ignored)
    } else if store::room_at(before, room) matches Some(kept) && kept.length >= log.len() {
        r == Ok::<Received, SessionError>(Received::Known)
    } else {
        ||| r == Ok::<Received, SessionError>(Received::Room(room)) && {
            &&& after.rooms@.dom() == before.rooms@.dom().insert(room)
            &&& store::verified_log(before.key(), room, after.rooms@[room]@) == Ok::<
                Seq<room::EntryView>,
                StoreError,
            >(log)
            &&& forall|other: [u8; 32]|
                other != room && before.rooms@.dom().contains(other) ==> #[trigger] after.rooms@[other]
                    == before.rooms@[other]
        }
        ||| r matches Err(SessionError::Store(e)) && store::seal_failed(e, store::log_bytes(log).len() as int)
    }
}

/// Takes in what came from a peer whose key the connection has proved.
///
/// A peer may only mint ids under its own key. The connection proves who it is;
/// this ties the id to that proof. An op in a room is filed under the room, if
/// the log that is kept of it says that the peer is a member.
pub fn receive(store: &mut Store, peer: &[u8; 32], frame: Option<Frame>) -> (r: Result<Received, SessionError>)
    requires
        old(store).wf(),
    ensures
        final(store).wf(),
        final(store).key() == old(store).key(),
        final(store).me() == old(store).me(),
        final(store).used() == old(store).used(),
        final(store).settings == old(store).settings,
        !(r matches Ok(Received::New(_))) ==> final(store).ops == old(store).ops,
        !(r matches Ok(Received::Room(_))) ==> final(store).rooms == old(store).rooms,
        // An op is only accepted under the key that authenticated.
        forall|i: int|
            old(store).ops@.len() <= i < final(store).ops@.len() ==> {
                let row = #[trigger] final(store).ops@[i];
                row.id.sender == *peer && (row.peer == *peer || takes_part(old(store), row.peer, *peer))
            },
        match frame {
            None => r == Ok::<Received, SessionError>(Received::Closed),
            Some(f) => match f@ {
                FrameView::Hello { nickname } => r matches Ok(Received::Named(name)) && name@ == nickname,
                FrameView::RoomUpdated { room, log } => updated(old(store), final(store), r, room, log),
                _ => if !is_op(f@.unwrapped()) {
                    r == Ok::<Received, SessionError>(Received::Ignored)
                } else if (f@.id()->0).sender != *peer {
                    r == Err::<Received, SessionError>(SessionError::ForeignId)
                } else if f@ is InRoom && !takes_part(old(store), f@.conversation(*peer), *peer) {
                    r == Ok::<Received, SessionError>(Received::Ignored)
                } else {
                    filed(old(store), final(store), r, f@.conversation(*peer), f@.unwrapped())
                },
            },
        },
{
    let frame = match frame {
        Some(Frame::Hello { nickname }) => return Ok(Received::Named(nickname)),
        Some(Frame::RoomUpdated { room, log }) => return renew(store, &room, &log),
        Some(frame) => frame,
        None => return Ok(Received::Closed),
    };
    let in_room = match &frame {
        Frame::InRoom { .. } => true,
        _ => false,
    };
    let conversation = frame.conversation(*peer);
    let op = frame.unwrap_room();
    let id = match op_id(&op) {
        Some(id) => id,
        None => return Ok(Received::Ignored),
    };
    if !bytes::same32(&id.sender, peer) {
        return Err(SessionError::ForeignId);
    }
    if in_room {
        let member = match store.room(&conversation) {
            Some(room) => room.is_member(peer),
            None => false,
        };
        if !member {
            return Ok(Received::Ignored);
        }
    }
    match store.record(&conversation, &op) {
        Ok(true) => Ok(Received::New(conversation)),
        Ok(false) => Ok(Received::Known),
        Err(e) => Err(SessionError::Store(e)),
    }
}

/// Takes in a room's log.
fn renew(store: &mut Store, room: &[u8; 32], log: &Vec<RoomEntry>) -> (r: Result<Received, SessionError>)
    requires
        old(store).wf(),
    ensures
        final(store).wf(),
        final(store).key() == old(store).key(),
        final(store).me() == old(store).me(),
        final(store).used() == old(store).used(),
        final(store).settings == old(store).settings,
        final(store).ops == old(store).ops,
        !(r matches Ok(Received::Room(_))) ==> final(store).rooms == old(store).rooms,
        !(r matches Ok(Received::New(_))),
        updated(old(store), final(store), r, *room, room::log_view(log@)),
{
    if log.len() == 0 {
        return Ok(Received::Look(*room));
    }
    let found = match room::verify_log(log.as_slice()) {
        Ok(found) => found,
        Err(_) => return Ok(Received::Ignored),
    };
    if !bytes::same32(&found.id, room) {
        proof {
            if found.id@ == room@ {
                bytes::lemma_array_eq(found.id, *room);
            }
        }
        return Ok(Received::Ignored);
    }
    if let Some(kept) = store.room(room) {
        if kept.length >= log.len() {
            return Ok(Received::Known);
        }
    }
    match store.save_room(room, log.as_slice()) {
        Ok(_) => Ok(Received::Room(*room)),
        Err(e) => Err(SessionError::Store(e)),
    }
}

/// A room as the UI shows it to `me`.
pub open spec fn face(room: room::RoomState, me: [u8; 32], view: RoomFace) -> bool {
    &&& view.name == room.name
    &&& view.members == room.members.len()
    &&& view.joined == room.members.contains(me)
}

/// The event that shows a room as the log that is kept of it says it stands.
pub fn room_event(st: &Store, id: &[u8; 32]) -> (r: Option<UiEvent>)
    requires
        st.wf(),
    ensures
        match store::room_at(st, *id) {
            Some(room) => r matches Some(event) && (event@ matches EventView::Room { id: shown, view } && shown
                == *id && face(room, st.me(), view)),
            None => r is None,
        },
{
    match st.room(id) {
        Some(room) => {
            let joined = room.is_member(&st.me);
            proof {
                room::lemma_ascending_distinct(room.members@);
                room.members@.unique_seq_to_set();
            }
            let view = RoomView { name: room.name, members: room.members.len(), joined };
            Some(UiEvent::Room { id: *id, view })
        },
        None => None,
    }
}

/// Whom a command is for, when it says something.
pub open spec fn addressee(command: CommandView) -> Option<[u8; 32]> {
    match command {
        CommandView::Send { peer, .. } => Some(peer),
        CommandView::Edit { peer, .. } => Some(peer),
        CommandView::Delete { peer, .. } => Some(peer),
        CommandView::React { peer, .. } => Some(peer),
        _ => None,
    }
}

/// The frame that carries a command out, under an id.
pub open spec fn carried(command: CommandView, id: MessageId) -> Option<FrameView> {
    match command {
        CommandView::Send { body, reply_to, .. } => Some(FrameView::Chat { id, body, reply_to }),
        CommandView::Edit { target, body, .. } => Some(FrameView::Edit { id, target, body }),
        CommandView::Delete { target, .. } => Some(FrameView::Delete { id, target }),
        CommandView::React { target, emoji, on, .. } => Some(FrameView::React { id, target, emoji, on }),
        _ => None,
    }
}

/// The frame that carries a command to `peer`: recorded here before it is sent,
/// under an id of this endpoint's own that was never used before. A change of
/// name is told to every peer, by another hello. A command that is not for this
/// peer, or that says nothing to anyone, gives none.
pub fn compose(store: &mut Store, peer: &[u8; 32], command: &UiCommand) -> (r: Result<Option<Frame>, SessionError>)
    requires
        old(store).wf(),
        old(store).used() < u64::MAX,
    ensures
        final(store).wf(),
        final(store).key() == old(store).key(),
        final(store).me() == old(store).me(),
        final(store).rooms == old(store).rooms,
        final(store).settings == old(store).settings,
        command@ matches CommandView::Nick(name) ==> *final(store) == *old(store) && (r matches Ok(Some(frame))
            && frame@ == (FrameView::Hello { nickname: name })),
        !(command@ is Nick) && addressee(command@) != Some(*peer) ==> (r matches Ok(None)) && *final(store)
            == *old(store),
        addressee(command@) == Some(*peer) ==> final(store).used() == old(store).used() + 1 && match r {
            Ok(Some(frame)) => frame@.id() is Some && {
                let id = frame@.id()->0;
                &&& id.sender == old(store).me()
                &&& id.seq == old(store).used() + 1
                &&& carried(command@, id) == Some(frame@)
                &&& if store::recorded(old(store).ops@, id) {
                    final(store).ops == old(store).ops
                } else {
                    added(old(store), final(store), *peer, frame@)
                }
            },
            Ok(None) => false,
            Err(e) => final(store).ops == old(store).ops && exists|id: MessageId|
                {
                    &&& id.sender == old(store).me() && id.seq == old(store).used() + 1
                    &&& #[trigger] carried(command@, id) is Some
                    &&& e matches SessionError::Store(e) && store::seal_failed(
                        e,
                        carried(command@, id)->0.encoded().len() as int,
                    )
                },
        },
{
    let to = match command {
        UiCommand::Send { peer, .. } => *peer,
        UiCommand::Edit { peer, .. } => *peer,
        UiCommand::Delete { peer, .. } => *peer,
        UiCommand::React { peer, .. } => *peer,
        UiCommand::Nick(name) => return Ok(Some(greeting(name))),
        _ => return Ok(None),
    };
    if !bytes::same32(&to, peer) {
        return Ok(None);
    }
    let id = store.next_id();
    let frame = match command {
        UiCommand::Send { body, reply_to, .. } => Frame::Chat { id, body: body.clone(), reply_to: *reply_to },
        UiCommand::Edit { target, body, .. } => Frame::Edit { id, target: *target, body: body.clone() },
        UiCommand::Delete { target, .. } => Frame::Delete { id, target: *target },
        UiCommand::React { target, emoji, on, .. } => Frame::React {
            id,
            target: *target,
            emoji: emoji.clone(),
            on: *on,
        },
        _ => return Ok(None),
    };
    assert(carried(command@, id) == Some(frame@));
    match store.record(peer, &frame) {
        Ok(_) => Ok(Some(frame)),
        Err(e) => Err(SessionError::Store(e)),
    }
}

/// A message as the UI shows it.
pub open spec fn entry(m: MessageView) -> EntryView {
    EntryView {
        id: m.id,
        body: m.body,
        outbound: m.outbound,
        deleted: m.deleted,
        reply_to: m.reply_to,
        reactions: m.reactions,
        attachment: None,
    }
}

/// Messages as the UI shows them.
pub open spec fn entries(messages: Seq<MessageView>) -> Seq<EntryView> {
    messages.map_values(|m: MessageView| entry(m))
}

/// Computes [`entries`].
fn entries_of(messages: Vec<Message>) -> (r: Vec<Entry>)
    ensures
        ui::state::log_view(r@) == entries(store::messages_view(messages@)),
{
    let mut messages = messages;
    let ghost all = messages@;
    let mut out: Vec<Entry> = Vec::new();
    while messages.len() > 0
        invariant
            out@.len() + messages@.len() == all.len(),
            messages@ == all.skip(out@.len() as int),
            forall|k: int| 0 <= k < out@.len() ==> (#[trigger] out@[k])@ == entry(all[k]@),
        decreases messages@.len(),
    {
        let m = messages.remove(0);
        let e = Entry {
            id: m.id,
            body: m.body,
            outbound: m.outbound,
            deleted: m.deleted,
            reply_to: m.reply_to,
            reactions: m.reactions,
            attachment: None,
        };
        assert(e@ == entry(m@));
        out.push(e);
        assert(messages@ =~= all.skip(out@.len() as int));
    }
    assert(ui::state::log_view(out@) =~= entries(store::messages_view(all)));
    out
}

/// The newest messages of a conversation as the UI shows them.
pub open spec fn shown(st: &Store, peer: [u8; 32], limit: nat) -> Result<Seq<EntryView>, StoreError> {
    match store::opened_ops(st.key(), store::timeline(st.ops@, peer)) {
        Err(e) => Err(e),
        Ok(ops) => Ok(entries(store::newest(store::conversation(ops, st.me()), limit))),
    }
}

/// The event that shows a conversation as it stands.
pub fn log_event(st: &Store, peer: &[u8; 32], limit: usize) -> (r: Result<UiEvent, StoreError>)
    ensures
        match shown(st, *peer, limit as nat) {
            Err(e) => r == Err::<UiEvent, StoreError>(e),
            Ok(entries) => r is Ok && r->Ok_0@ == (EventView::Log { peer: *peer, entries }),
        },
{
    match st.history(peer, limit) {
        Ok(messages) => Ok(UiEvent::Log { peer: *peer, entries: entries_of(messages) }),
        Err(e) => Err(e),
    }
}

/// Events as mathematical values.
pub open spec fn events_view(events: Seq<UiEvent>) -> Seq<EventView> {
    events.map_values(|e: UiEvent| e@)
}

/// The events that bring conversations back: who each is with, and its log.
pub open spec fn replayed(st: &Store, peers: Seq<[u8; 32]>) -> Seq<EventView>
    decreases peers.len(),
{
    if peers.len() == 0 {
        Seq::empty()
    } else {
        let peer = peers.last();
        replayed(st, peers.drop_last()).push(EventView::Known { peer, nick: None, alias: None }).push(
            EventView::Log { peer, entries: shown(st, peer, HISTORY_ON_START as nat)->Ok_0 },
        )
    }
}

/// Whether these are all the peers of a store, each once, most recent first.
pub open spec fn contacts_of(st: &Store, peers: Seq<[u8; 32]>) -> bool {
    &&& peers.no_duplicates()
    &&& forall|p: [u8; 32]| #[trigger] peers.contains(p) <==> store::met(st.ops@, p)
    &&& forall|i: int, j: int|
        0 <= i < j < peers.len() ==> store::latest(st.ops@, #[trigger] peers[i]) >= store::latest(
            st.ops@,
            #[trigger] peers[j],
        )
}

/// Seeds the UI with every known peer and their stored history, so the log is
/// already there before anyone comes online.
pub fn replay_history(st: &Store) -> (r: Result<Vec<UiEvent>, StoreError>)
    ensures
        r is Ok <==> forall|p: [u8; 32]|
            store::met(st.ops@, p) ==> #[trigger] shown(st, p, HISTORY_ON_START as nat) is Ok,
        match r {
            Ok(events) => exists|peers: Seq<[u8; 32]>|
                contacts_of(st, peers) && events_view(events@) == #[trigger] replayed(st, peers),
            Err(e) => exists|p: [u8; 32]|
                store::met(st.ops@, p) && #[trigger] shown(st, p, HISTORY_ON_START as nat) == Err::<
                    Seq<EntryView>,
                    StoreError,
                >(e),
        },
{
    let peers = st.peers();
    let mut out: Vec<UiEvent> = Vec::new();
    let mut i: usize = 0;
    proof {
        assert(contacts_of(st, peers@));
        assert(peers@.take(0) =~= Seq::empty());
        assert(events_view(out@) =~= Seq::empty());
    }
    while i < peers.len()
        invariant
            i <= peers@.len(),
            contacts_of(st, peers@),
            forall|k: int|
                0 <= k < i ==> #[trigger] shown(st, peers@[k], HISTORY_ON_START as nat) is Ok,
            events_view(out@) == replayed(st, peers@.take(i as int)),
        decreases peers@.len() - i,
    {
        let peer = peers[i];
        let ghost was = out@;
        assert(peers@.contains(peer)) by {
            assert(peers@[i as int] == peer);
        }
        let event = match log_event(st, &peer, HISTORY_ON_START) {
            Ok(event) => event,
            Err(e) => {
                assert(shown(st, peer, HISTORY_ON_START as nat) == Err::<Seq<EntryView>, StoreError>(e));
                return Err(e);
            },
        };
        let known = UiEvent::Known { peer, nick: None, alias: None };
        out.push(known);
        out.push(event);
        proof {
            assert(peers@.take(i + 1).drop_last() =~= peers@.take(i as int));
            assert(events_view(out@) =~= events_view(was).push(known@).push(event@));
        }
        i = i + 1;
    }
    proof {
        assert(peers@.take(i as int) =~= peers@);
        assert forall|p: [u8; 32]| store::met(st.ops@, p) implies #[trigger] shown(
            st,
            p,
            HISTORY_ON_START as nat,
        ) is Ok by {
            assert(peers@.contains(p));
            let k = peers@.index_of(p);
            assert(shown(st, peers@[k], HISTORY_ON_START as nat) is Ok);
        }
    }
    Ok(out)
}

/// What the status line says at the start.
pub fn start_status(relay_only: bool) -> (r: String)
    ensures
        r@ == (if relay_only {
            "relay-only: direct paths disabled"@
        } else {
            "listening"@
        }),
{
    if relay_only {
        "relay-only: direct paths disabled".to_owned()
    } else {
        "listening".to_owned()
    }
}

/// The path that a connection has selected.
#[derive(Debug)]
pub struct Route {
    /// Whether it leads straight to the peer, rather than over a relay.
    pub direct: bool,
    /// The address as the network library writes it, in a wrapper that says its
    /// kind: `Ip(1.2.3.4:5)`.
    pub address: String,
    pub rtt_ms: u64,
}

/// A text without the closing brackets at its end.
pub open spec fn unclosed(s: Seq<char>) -> Seq<char>
    decreases s.len(),
{
    if s.len() > 0 && s.last() == ')' {
        unclosed(s.drop_last())
    } else {
        s
    }
}

/// An address without its wrapper, which is noise once the kind of the path has
/// been said.
pub open spec fn bare_address(s: Seq<char>) -> Seq<char> {
    let n = ui::text::run_to(s, '(') as int;
    if n < s.len() {
        unclosed(s.skip(n + 1))
    } else {
        s
    }
}

/// Where the text behind `from` ends, without the closing brackets at its end.
fn unclosed_end(chars: &Vec<char>, from: usize) -> (end: usize)
    requires
        from <= chars@.len(),
    ensures
        from <= end <= chars@.len(),
        chars@.subrange(from as int, end as int) == unclosed(chars@.skip(from as int)),
{
    let ghost goal = unclosed(chars@.skip(from as int));
    let mut end: usize = chars.len();
    assert(chars@.subrange(from as int, end as int) =~= chars@.skip(from as int));
    while end > from && chars[end - 1] == ')'
        invariant
            from <= end <= chars@.len(),
            unclosed(chars@.subrange(from as int, end as int)) == goal,
        decreases end,
    {
        assert(chars@.subrange(from as int, end as int).drop_last() =~= chars@.subrange(from as int, end - 1));
        end = end - 1;
    }
    end
}

/// Computes [`bare_address`].
fn bare_address_of(s: &str) -> (r: String)
    ensures
        r@ == bare_address(s@),
{
    let chars = text::chars_of(s);
    let n = ui::text::find_from(&chars, 0, '(');
    assert(chars@.skip(0) =~= chars@);
    if n == chars.len() {
        return s.to_owned();
    }
    let end = unclosed_end(&chars, n + 1);
    text::string_of(vstd::slice::slice_subrange(chars.as_slice(), n + 1, end))
}

/// Whether a path is hole-punched or relayed, and to where.
pub open spec fn path_kind(route: Option<Route>) -> Seq<char> {
    match route {
        Some(p) => (if p.direct {
            "direct "@
        } else {
            "relayed "@
        }) + bare_address(p.address@),
        None => "negotiating"@,
    }
}

/// A path as it is shown, with its round-trip time.
pub open spec fn path_line(route: Option<Route>) -> Seq<char> {
    match route {
        Some(p) => (if p.direct {
            "direct — "@
        } else {
            "relayed — "@
        }) + bare_address(p.address@) + " ("@ + text::decimal(p.rtt_ms as nat) + "ms rtt)"@,
        None => "negotiating"@,
    }
}

/// Computes [`path_kind`] and [`path_line`]. The kind stands on its own too,
/// because the round-trip time jitters on every sample and would spam a change
/// log.
pub fn describe_path(route: &Option<Route>) -> (r: (String, String))
    ensures
        r.0@ == path_kind(*route),
        r.1@ == path_line(*route),
{
    match route {
        Some(p) => {
            let address = bare_address_of(p.address.as_str());
            let kind = if p.direct { "direct " } else { "relayed " };
            let line = if p.direct { "direct — " } else { "relayed — " };
            (
                kind.to_owned().concat(address.as_str()),
                line.to_owned().concat(address.as_str()).concat(" (").concat(
                    text::decimal_of(p.rtt_ms).as_str(),
                ).concat("ms rtt)"),
            )
        },
        None => ("negotiating".to_owned(), "negotiating".to_owned()),
    }
}

/// The event that tells of a path, when it is not the one that was told of
/// last. `last` is the kind that was told of, and becomes the one that is now.
pub fn watch_path(last: &mut String, peer: &[u8; 32], route: &Option<Route>) -> (r: Option<UiEvent>)
    ensures
        final(last)@ == path_kind(*route),
        match r {
            Some(event) => old(last)@ != path_kind(*route) && event@ == (EventView::Path {
                peer: *peer,
                path: path_line(*route),
            }),
            None => old(last)@ == path_kind(*route),
        },
{
    let (kind, line) = describe_path(route);
    if text::same(kind.as_str(), last.as_str()) {
        return None;
    }
    *last = kind;
    Some(UiEvent::Path { peer: *peer, path: line })
}

/// What one side says, the other shows, however long it is: the frame that carries
/// a message, filed as the last op of the conversation, is its last message, word
/// for word, with what it answers, and it is the other side's.
pub proof fn law_what_is_said_is_shown(
    ops: Seq<(MessageId, FrameView)>,
    peer: [u8; 32],
    body: Seq<char>,
    reply_to: Option<MessageId>,
    id: MessageId,
    me: [u8; 32],
)
    requires
        forall|k: int|
            0 <= k < ops.len() ==> !((#[trigger] ops[k]).1 matches FrameView::Edit { target, .. } && target == id) && !(
            ops[k].1 matches FrameView::Delete { target, .. } && target == id),
    ensures
        ({
            let frame = carried(CommandView::Send { peer, body, reply_to }, id);
            let after = store::conversation(ops.push((id, frame->0)), me);
            &&& frame is Some
            &&& frame->0.id() == Some(id)
            &&& is_op(frame->0)
            &&& after.len() == store::conversation(ops, me).len() + 1
            &&& after.last().id == id
            &&& after.last().body == body
            &&& after.last().reply_to == reply_to
            &&& after.last().outbound == (id.sender == me)
            &&& !after.last().deleted
        }),
{
    let frame = carried(CommandView::Send { peer, body, reply_to }, id)->0;
    let all = ops.push((id, frame));
    let n = ops.len() as int;
    assert(all.take(n) =~= ops);
    assert(all[n] == (id, frame));
    store::law_messages_read_as_their_authors_left_them(all, n, me);
    assert forall|k: int| 0 <= k < all.len() implies !((#[trigger] all[k]).1 matches FrameView::Edit { target, .. }
        && target == id) && !(all[k].1 matches FrameView::Delete { target, .. } && target == id) by {
        if k < n {
            assert(all[k] == ops[k]);
        }
    }
    store::lemma_conversation_len(all, me);
    store::lemma_conversation_len(ops, me);
    reveal(Seq::filter);
    assert(all.drop_last() =~= ops);
}

/// An edit, a delete and a reaction are carried as what they are: with their
/// target, their text, their emoji and whether they come or go.
pub proof fn law_changes_are_carried(
    peer: [u8; 32],
    target: MessageId,
    s: Seq<char>,
    on: bool,
    id: MessageId,
)
    ensures
        carried(CommandView::Edit { peer, target, body: s }, id) == Some(FrameView::Edit { id, target, body: s }),
        carried(CommandView::Delete { peer, target }, id) == Some(FrameView::Delete { id, target }),
        carried(CommandView::React { peer, target, emoji: s, on }, id) == Some(
            FrameView::React { id, target, emoji: s, on },
        ),
        addressee(CommandView::Send { peer, body: s, reply_to: None }) == Some(peer),
        addressee(CommandView::Send { peer, body: s, reply_to: Some(target) }) == Some(peer),
        addressee(CommandView::Edit { peer, target, body: s }) == Some(peer),
        addressee(CommandView::Delete { peer, target }) == Some(peer),
        addressee(CommandView::React { peer, target, emoji: s, on }) == Some(peer),
        is_op(FrameView::Chat { id, body: s, reply_to: None }),
        is_op(FrameView::Chat { id, body: s, reply_to: Some(target) }),
        is_op(FrameView::Edit { id, target, body: s }),
        is_op(FrameView::Delete { id, target }),
        is_op(FrameView::React { id, target, emoji: s, on }),
        !is_op(FrameView::Hello { nickname: s }),
{
}

/// A log that holds up, is that of the room and is longer than the one that is
/// kept, is never passed over: it is kept from then on, unless it could not be
/// sealed. One that is not longer changes nothing.
pub proof fn law_longer_logs_are_adopted(
    before: &Store,
    after: &Store,
    r: Result<Received, SessionError>,
    room: [u8; 32],
    log: Seq<room::EntryView>,
)
    requires
        updated(before, after, r, room, log),
        log.len() > 0,
        room::replay(log) matches Ok(found) && found.id == room@,
    ensures
        ({
            let kept = match store::room_at(before, room) {
                Some(found) => found.length,
                None => 0,
            };
            &&& log.len() > kept ==> r == Ok::<Received, SessionError>(Received::Room(room)) || (r matches Err(
                SessionError::Store(e),
            ) && store::seal_failed(e, store::log_bytes(log).len() as int))
            &&& r == Ok::<Received, SessionError>(Received::Room(room)) ==> after.rooms@.dom().contains(room)
                && store::verified_log(before.key(), room, after.rooms@[room]@) == Ok::<
                Seq<room::EntryView>,
                StoreError,
            >(log)
            &&& log.len() <= kept ==> r == Ok::<Received, SessionError>(Received::Known)
        }),
{
}

/// A log that does not hold up, or is another room's, is ignored.
pub proof fn law_bad_logs_are_ignored(
    before: &Store,
    after: &Store,
    r: Result<Received, SessionError>,
    room: [u8; 32],
    log: Seq<room::EntryView>,
)
    requires
        updated(before, after, r, room, log),
        log.len() > 0,
        room::replay(log) matches Ok(found) ==> found.id != room@,
    ensures
        r == Ok::<Received, SessionError>(Received::Ignored),
{
}

/// A conversation is shown as it is: one entry for each message, in order, with
/// its text, its author, its reactions and what it answers.
pub proof fn law_entries_are_the_messages(messages: Seq<MessageView>, i: int)
    requires
        0 <= i < messages.len(),
    ensures
        entries(messages).len() == messages.len(),
        entries(messages)[i].id == messages[i].id,
        entries(messages)[i].body == messages[i].body,
        entries(messages)[i].outbound == messages[i].outbound,
        entries(messages)[i].deleted == messages[i].deleted,
        entries(messages)[i].reply_to == messages[i].reply_to,
        entries(messages)[i].reactions == messages[i].reactions,
        entries(messages)[i].attachment is None,
{
}

/// Of a wrapped address just the inside is shown, however long it is, and one
/// without a wrapper as it is.
pub proof fn law_addresses_lose_their_wrapper(kind: Seq<char>, address: Seq<char>)
    requires
        forall|i: int| 0 <= i < kind.len() ==> (#[trigger] kind[i]) != '(',
        address.len() > 0 ==> address.last() != ')',
    ensures
        bare_address(kind + seq!['('] + address + seq![')']) == address,
        bare_address(kind) == kind,
{
    let s = kind + seq!['('] + address + seq![')'];
    lemma_wrapper(kind, seq!['('] + address + seq![')']);
    assert(s =~= kind + (seq!['('] + address + seq![')']));
    lemma_wrapper(kind, Seq::empty());
    assert(kind + Seq::<char>::empty() =~= kind);
    let inside = s.skip(kind.len() as int + 1);
    assert(inside =~= address + seq![')']);
    assert(inside.drop_last() =~= address);
    assert(inside.last() == ')');
    assert(unclosed(address) == address);
}

proof fn lemma_wrapper(kind: Seq<char>, rest: Seq<char>)
    requires
        forall|i: int| 0 <= i < kind.len() ==> (#[trigger] kind[i]) != '(',
        rest.len() > 0 ==> rest[0] == '(',
    ensures
        ui::text::run_to(kind + rest, '(') == kind.len(),
    decreases kind.len(),
{
    if kind.len() > 0 {
        let tail = kind.skip(1);
        assert forall|i: int| 0 <= i < tail.len() implies (#[trigger] tail[i]) != '(' by {
            assert(tail[i] == kind[i + 1]);
        }
        lemma_wrapper(tail, rest);
        assert((kind + rest)[0] == kind[0]);
        assert((kind + rest).skip(1) =~= tail + rest);
    } else {
        assert(kind + rest =~= rest);
    }
}

/// At the start every contact is announced, in the order of the contacts, and each
/// is followed by the newest two hundred messages with it.
pub proof fn law_the_start_shows_everyone(st: &Store, peers: Seq<[u8; 32]>, i: int)
    requires
        0 <= i < peers.len(),
    ensures
        replayed(st, peers).len() == 2 * peers.len(),
        replayed(st, peers)[2 * i] == (EventView::Known { peer: peers[i], nick: None, alias: None }),
        replayed(st, peers)[2 * i + 1] == (EventView::Log {
            peer: peers[i],
            entries: shown(st, peers[i], 200)->Ok_0,
        }),
    decreases peers.len(),
{
    let init = peers.drop_last();
    let n = init.len() as int;
    if n > 0 {
        law_the_start_shows_everyone(st, init, if i < n { i } else { 0 });
    } else {
        assert(replayed(st, init).len() == 0);
    }
    if i < n {
        assert(init[i] == peers[i]);
        assert(replayed(st, peers)[2 * i] == replayed(st, init)[2 * i]);
        assert(replayed(st, peers)[2 * i + 1] == replayed(st, init)[2 * i + 1]);
    } else {
        assert(peers[i] == peers.last());
    }
}

/// What is shown of a conversation is its end, as many messages as are asked for or
/// as there are, each as the conversation has it.
pub proof fn law_the_end_is_shown(st: &Store, peer: [u8; 32], limit: nat, i: int)
    requires
        store::opened_ops(st.key(), store::timeline(st.ops@, peer)) is Ok,
    ensures
        ({
            let ops = store::opened_ops(st.key(), store::timeline(st.ops@, peer))->Ok_0;
            let all = store::conversation(ops, st.me());
            let found = shown(st, peer, limit)->Ok_0;
            let m = all[all.len() - found.len() + i];
            &&& shown(st, peer, limit) is Ok
            &&& found.len() == if limit < all.len() { limit } else { all.len() }
            &&& 0 <= i < found.len() ==> found[i].id == m.id && found[i].body == m.body && found[i].outbound == m.outbound
                && found[i].deleted == m.deleted && found[i].reply_to == m.reply_to && found[i].reactions
                == m.reactions && found[i].attachment is None
        }),
{
}

/// An op is known just where its id is recorded already, and new where it is not.
/// Only sealing can fail.
pub proof fn law_ops_are_new_once(
    before: &Store,
    after: &Store,
    r: Result<Received, SessionError>,
    conversation: [u8; 32],
    op: FrameView,
)
    requires
        filed(before, after, r, conversation, op),
        op.id() is Some,
    ensures
        r is Ok ==> (r == Ok::<Received, SessionError>(Received::Known) <==> exists|i: int|
            0 <= i < before.ops@.len() && (#[trigger] before.ops@[i]).id == op.id()->0),
        r is Ok && r != Ok::<Received, SessionError>(Received::Known) ==> {
            let row = after.ops@.last();
            &&& r == Ok::<Received, SessionError>(Received::New(conversation))
            &&& after.ops@ == before.ops@.push(row)
            &&& row.id == op.id()->0
            &&& row.peer == conversation
            &&& store::opened_frame(before.key(), row.payload@) == Ok::<FrameView, StoreError>(op)
        },
        r matches Err(e) ==> (e matches SessionError::Store(e) && store::seal_failed(e, op.encoded().len() as int)),
{
    if r is Ok && r != Ok::<Received, SessionError>(Received::Known) {
        assert(after.ops@ =~= after.ops@.drop_last().push(after.ops@.last()));
    }
}

/// Of a room its name is shown, how many its members are, and whether this endpoint
/// is one of them.
pub proof fn law_faces_of_rooms(room: room::RoomState, me: [u8; 32], view: RoomFace)
    requires
        face(room, me, view),
    ensures
        view.name == room.name,
        view.members == room.members.len(),
        view.joined <==> room.members.contains(me),
{
}

/// A path is told of as direct or relayed, with the address it leads to, and in
/// full with the time that a round trip takes.
pub proof fn law_paths_are_told(route: Route, kind: Seq<char>, address: Seq<char>)
    requires
        route.address@ == kind + seq!['('] + address + seq![')'],
        forall|i: int| 0 <= i < kind.len() ==> (#[trigger] kind[i]) != '(',
        address.len() > 0 ==> address.last() != ')',
    ensures
        route.direct ==> path_kind(Some(route)) == "direct "@ + address,
        !route.direct ==> path_kind(Some(route)) == "relayed "@ + address,
        route.direct ==> path_line(Some(route)) == "direct — "@ + address + " ("@ + text::decimal(route.rtt_ms as nat)
            + "ms rtt)"@,
        !route.direct ==> path_line(Some(route)) == "relayed — "@ + address + " ("@ + text::decimal(
            route.rtt_ms as nat,
        ) + "ms rtt)"@,
        path_kind(None) == "negotiating"@ && path_line(None) == "negotiating"@,
{
    law_addresses_lose_their_wrapper(kind, address);
}

} // verus!
