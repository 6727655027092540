//! What the UI knows: conversations, the input line, what is selected.

use super::lines::Color;
use super::{lines, text as layout};
use crate::store::Slot;
use crate::table::{Key, Table};
use crate::wire::MessageId;
use crate::{bytes, store, text};
use vstd::prelude::*;

verus! {

impl Key for MessageId {
    fn same_key(&self, other: &Self) -> (r: bool) {
        self.same(other)
    }
}

/// A file hanging off a message.
#[derive(Debug, PartialEq, Eq)]
pub struct Attach {
    pub name: String,
    pub size: u64,
    /// Shown short, so "the hashes match" is something a viewer can check
    /// against the sender's screen rather than take on trust.
    pub hash: [u8; 32],
    /// Where it landed on this machine, once the bytes arrived and matched.
    pub path: Option<String>,
}

/// A file as mathematical values.
#[verifier::ext_equal]
pub struct AttachView {
    pub name: Seq<char>,
    pub size: u64,
    pub hash: [u8; 32],
    pub path: Option<Seq<char>>,
}

impl View for Attach {
    type V = AttachView;

    open spec fn view(&self) -> AttachView {
        AttachView { name: self.name@, size: self.size, hash: self.hash, path: lines::maybe(self.path) }
    }
}

/// One message as the UI shows it, after the store has folded edits, deletes
/// and reactions into it.
#[derive(Debug, PartialEq, Eq)]
pub struct Entry {
    pub id: MessageId,
    pub body: String,
    pub outbound: bool,
    pub deleted: bool,
    pub reply_to: Option<MessageId>,
    /// `(emoji, count, whether you are one of them)`.
    pub reactions: Vec<(String, usize, bool)>,
    pub attachment: Option<Attach>,
}

/// A message as mathematical values.
#[verifier::ext_equal]
pub struct EntryView {
    pub id: MessageId,
    pub body: Seq<char>,
    pub outbound: bool,
    pub deleted: bool,
    pub reply_to: Option<MessageId>,
    pub reactions: Seq<Slot>,
    pub attachment: Option<AttachView>,
}

impl View for Entry {
    type V = EntryView;

    open spec fn view(&self) -> EntryView {
        EntryView {
            id: self.id,
            body: self.body@,
            outbound: self.outbound,
            deleted: self.deleted,
            reply_to: self.reply_to,
            reactions: store::slots_view(self.reactions@),
            attachment: (match self.attachment {
                Some(a) => Some(a@),
                None => None,
            }),
        }
    }
}

/// Messages as mathematical values.
pub open spec fn log_view(log: Seq<Entry>) -> Seq<EntryView> {
    log.map_values(|e: Entry| e@)
}

/// A room as the verified chain says it stands.
#[derive(Debug, PartialEq, Eq)]
pub struct RoomView {
    pub name: String,
    pub members: usize,
    /// False once you have been kicked: the room stays visible with its
    /// history, but you can no longer post to it.
    pub joined: bool,
}

/// A room as mathematical values.
#[verifier::ext_equal]
pub struct RoomFace {
    pub name: Seq<char>,
    pub members: usize,
    pub joined: bool,
}

impl View for RoomView {
    type V = RoomFace;

    open spec fn view(&self) -> RoomFace {
        RoomFace { name: self.name@, members: self.members, joined: self.joined }
    }
}

/// How an outgoing op actually left this machine. The whole point of the design
/// is that there are two paths; without this they look identical on screen.
#[derive(Debug, Clone, Copy, PartialEq, Eq, PartialOrd, Ord, Structural)]
pub enum Delivery {
    /// Straight down a live connection.
    Wire,
    /// Sealed and left on the hub for someone who is not there.
    Mailbox,
    /// Neither worked. It is saved locally and nowhere else.
    Failed,
}

impl Delivery {
    /// How bad an outcome it is.
    pub open spec fn rank(self) -> nat {
        match self {
            Delivery::Wire => 0,
            Delivery::Mailbox => 1,
            Delivery::Failed => 2,
        }
    }

    /// The worse of two outcomes.
    pub open spec fn worse(self, other: Delivery) -> Delivery {
        if other.rank() > self.rank() {
            other
        } else {
            self
        }
    }

    /// Computes [`Delivery::worse`].
    pub fn worst(self, other: Delivery) -> (r: Delivery)
        ensures
            r == self.worse(other),
    {
        match (self, other) {
            (Delivery::Failed, _) => Delivery::Failed,
            (_, Delivery::Failed) => Delivery::Failed,
            (Delivery::Mailbox, _) => Delivery::Mailbox,
            (_, Delivery::Mailbox) => Delivery::Mailbox,
            (_, _) => Delivery::Wire,
        }
    }

    /// The mark of an outcome, and its colour.
    pub open spec fn mark(self) -> (Seq<char>, Color) {
        match self {
            Delivery::Wire => ("→"@, Color::DarkGray),
            Delivery::Mailbox => ("✉"@, Color::Yellow),
            Delivery::Failed => ("!"@, Color::Red),
        }
    }

    /// Computes [`Delivery::mark`].
    pub fn glyph(self) -> (r: (String, Color))
        ensures
            (r.0@, r.1) == self.mark(),
    {
        match self {
            Delivery::Wire => ("→".to_owned(), Color::DarkGray),
            Delivery::Mailbox => ("✉".to_owned(), Color::Yellow),
            Delivery::Failed => ("!".to_owned(), Color::Red),
        }
    }
}

/// Pushed in by the network side.
#[derive(Debug)]
#[allow(inconsistent_fields)]
pub enum UiEvent {
    /// A peer we know about, from the store, before anyone is online. `nick` is
    /// what they call themselves, `alias` what you decided to call them, which
    /// wins.
    Known { peer: [u8; 32], nick: Option<String>, alias: Option<String> },
    Connected { peer: [u8; 32], nick: String, path: String },
    Path { peer: [u8; 32], path: String },
    Disconnected { peer: [u8; 32] },
    /// The whole conversation, refolded. Replacing it wholesale keeps one
    /// implementation of the fold, in the store, instead of two.
    Log { peer: [u8; 32], entries: Vec<Entry> },
    /// How an outgoing op left. A room fans out to several peers, so the worst
    /// outcome of the fan-out is the one worth showing.
    Delivery { id: MessageId, state: Delivery },
    /// Progress on an attachment, in either direction.
    Transfer { id: MessageId, done: u64, total: u64 },
    /// A conversation was deleted from this machine.
    Forgotten { peer: [u8; 32] },
    /// Everything was. The UI starts over from whatever is reloaded after.
    Wiped,
    /// A room appeared or its membership changed.
    Room { id: [u8; 32], view: RoomView },
    Status(String),
}

/// An event as mathematical values.
#[verifier::ext_equal]
#[allow(inconsistent_fields)]
pub enum EventView {
    Known { peer: [u8; 32], nick: Option<Seq<char>>, alias: Option<Seq<char>> },
    Connected { peer: [u8; 32], nick: Seq<char>, path: Seq<char> },
    Path { peer: [u8; 32], path: Seq<char> },
    Disconnected { peer: [u8; 32] },
    Log { peer: [u8; 32], entries: Seq<EntryView> },
    Delivery { id: MessageId, state: Delivery },
    Transfer { id: MessageId, done: u64, total: u64 },
    Forgotten { peer: [u8; 32] },
    Wiped,
    Room { id: [u8; 32], view: RoomFace },
    Status(Seq<char>),
}

impl View for UiEvent {
    type V = EventView;

    open spec fn view(&self) -> EventView {
        match self {
            UiEvent::Known { peer, nick, alias } => EventView::Known {
                peer: *peer,
                nick: lines::maybe(*nick),
                alias: lines::maybe(*alias),
            },
            UiEvent::Connected { peer, nick, path } => EventView::Connected {
                peer: *peer,
                nick: nick@,
                path: path@,
            },
            UiEvent::Path { peer, path } => EventView::Path { peer: *peer, path: path@ },
            UiEvent::Disconnected { peer } => EventView::Disconnected { peer: *peer },
            UiEvent::Log { peer, entries } => EventView::Log { peer: *peer, entries: log_view(entries@) },
            UiEvent::Delivery { id, state } => EventView::Delivery { id: *id, state: *state },
            UiEvent::Transfer { id, done, total } => EventView::Transfer { id: *id, done: *done, total: *total },
            UiEvent::Forgotten { peer } => EventView::Forgotten { peer: *peer },
            UiEvent::Wiped => EventView::Wiped,
            UiEvent::Room { id, view } => EventView::Room { id: *id, view: view@ },
            UiEvent::Status(s) => EventView::Status(s@),
        }
    }
}

/// What `/room` asked for.
#[derive(Debug, PartialEq, Eq)]
pub enum RoomCommand {
    Create(String),
    Leave { room: [u8; 32] },
    Invite { room: [u8; 32], member: [u8; 32] },
    Kick { room: [u8; 32], member: [u8; 32] },
}

/// Pushed back out to the network side.
#[derive(Debug, PartialEq, Eq)]
pub enum UiCommand {
    Send { peer: [u8; 32], body: String, reply_to: Option<MessageId> },
    Edit { peer: [u8; 32], target: MessageId, body: String },
    Delete { peer: [u8; 32], target: MessageId },
    React { peer: [u8; 32], target: MessageId, emoji: String, on: bool },
    Nick(String),
    /// Your own name for a peer. `None` forgets it and falls back to whatever
    /// they call themselves.
    Name { peer: [u8; 32], alias: Option<String> },
    /// Dial a peer without restarting.
    Connect([u8; 32]),
    /// Delete a conversation from this machine. Local, and irreversible.
    /// `confirm: false` only asks what would go.
    Forget { peer: [u8; 32], confirm: bool },
    /// Empty a conversation but keep whose it was.
    Clear { peer: [u8; 32], confirm: bool },
    /// Every conversation on this machine. Keeps the identity.
    Wipe { confirm: bool },
    Room(RoomCommand),
    SendFile { peer: [u8; 32], path: String },
    Quit,
}

/// A command as mathematical values.
#[verifier::ext_equal]
pub enum CommandView {
    Send { peer: [u8; 32], body: Seq<char>, reply_to: Option<MessageId> },
    Edit { peer: [u8; 32], target: MessageId, body: Seq<char> },
    Delete { peer: [u8; 32], target: MessageId },
    React { peer: [u8; 32], target: MessageId, emoji: Seq<char>, on: bool },
    Nick(Seq<char>),
    Name { peer: [u8; 32], alias: Option<Seq<char>> },
    Connect([u8; 32]),
    Forget { peer: [u8; 32], confirm: bool },
    Clear { peer: [u8; 32], confirm: bool },
    Wipe { confirm: bool },
    CreateRoom(Seq<char>),
    LeaveRoom { room: [u8; 32] },
    Invite { room: [u8; 32], member: [u8; 32] },
    Kick { room: [u8; 32], member: [u8; 32] },
    SendFile { peer: [u8; 32], path: Seq<char> },
    Quit,
}

impl View for UiCommand {
    type V = CommandView;

    open spec fn view(&self) -> CommandView {
        match self {
            UiCommand::Send { peer, body, reply_to } => CommandView::Send {
                peer: *peer,
                body: body@,
                reply_to: *reply_to,
            },
            UiCommand::Edit { peer, target, body } => CommandView::Edit {
                peer: *peer,
                target: *target,
                body: body@,
            },
            UiCommand::Delete { peer, target } => CommandView::Delete { peer: *peer, target: *target },
            UiCommand::React { peer, target, emoji, on } => CommandView::React {
                peer: *peer,
                target: *target,
                emoji: emoji@,
                on: *on,
            },
            UiCommand::Nick(s) => CommandView::Nick(s@),
            UiCommand::Name { peer, alias } => CommandView::Name { peer: *peer, alias: lines::maybe(*alias) },
            UiCommand::Connect(peer) => CommandView::Connect(*peer),
            UiCommand::Forget { peer, confirm } => CommandView::Forget { peer: *peer, confirm: *confirm },
            UiCommand::Clear { peer, confirm } => CommandView::Clear { peer: *peer, confirm: *confirm },
            UiCommand::Wipe { confirm } => CommandView::Wipe { confirm: *confirm },
            UiCommand::Room(RoomCommand::Create(name)) => CommandView::CreateRoom(name@),
            UiCommand::Room(RoomCommand::Leave { room }) => CommandView::LeaveRoom { room: *room },
            UiCommand::Room(RoomCommand::Invite { room, member }) => CommandView::Invite {
                room: *room,
                member: *member,
            },
            UiCommand::Room(RoomCommand::Kick { room, member }) => CommandView::Kick {
                room: *room,
                member: *member,
            },
            UiCommand::SendFile { peer, path } => CommandView::SendFile { peer: *peer, path: path@ },
            UiCommand::Quit => CommandView::Quit,
        }
    }
}

/// Commands as mathematical values.
pub open spec fn commands_view(commands: Seq<UiCommand>) -> Seq<CommandView> {
    commands.map_values(|c: UiCommand| c@)
}

/// Which pane the keys go to.
#[derive(PartialEq, Eq, Clone, Copy, Debug, Structural)]
pub enum Focus {
    Peers,
    Chat,
    Input,
}

/// What the next Enter will do, when it is not simply a new message.
#[derive(Clone, Copy, Debug, PartialEq, Eq)]
pub enum Pending {
    Reply(MessageId),
    Edit(MessageId),
}

/// One conversation: a person or a room.
#[derive(Debug)]
pub struct Peer {
    pub key: [u8; 32],
    /// The name the peer sends in its hello. It picks this, so on its own it
    /// proves nothing: two peers can claim the same one.
    pub nick: Option<String>,
    /// The name you gave them. Yours, so it is the trustworthy one.
    pub alias: Option<String>,
    pub online: bool,
    pub path: String,
    pub log: Vec<Entry>,
    pub unread: usize,
    /// Index into `log` of the message the chat cursor is on.
    pub cursor: usize,
    /// Where the messages you have not seen begin.
    pub unread_from: Option<usize>,
    /// Set when this conversation is a room rather than a person. A room id is
    /// 32 bytes exactly like an endpoint id, which is why one list holds both.
    pub room: Option<RoomView>,
}

/// A conversation as mathematical values.
#[verifier::ext_equal]
pub struct PeerView {
    pub key: [u8; 32],
    pub nick: Option<Seq<char>>,
    pub alias: Option<Seq<char>>,
    pub online: bool,
    pub path: Seq<char>,
    pub log: Seq<EntryView>,
    pub unread: nat,
    pub cursor: nat,
    pub unread_from: Option<usize>,
    pub room: Option<RoomFace>,
}

impl View for Peer {
    type V = PeerView;

    open spec fn view(&self) -> PeerView {
        PeerView {
            key: self.key,
            nick: lines::maybe(self.nick),
            alias: lines::maybe(self.alias),
            online: self.online,
            path: self.path@,
            log: log_view(self.log@),
            unread: self.unread as nat,
            cursor: self.cursor as nat,
            unread_from: self.unread_from,
            room: (match self.room {
                Some(r) => Some(r@),
                None => None,
            }),
        }
    }
}

/// The first five bytes of a key in hexadecimal.
pub open spec fn shortened(key: [u8; 32]) -> Seq<char> {
    bytes::hex(key@.take(5))
}

/// Computes [`shortened`].
pub fn short(key: &[u8; 32]) -> (r: String)
    ensures
        r@ == shortened(*key),
{
    let mut out: String = String::new();
    text::push_hex(&mut out, vstd::slice::slice_subrange(key, 0, 5));
    assert(key@.subrange(0, 5) =~= key@.take(5));
    assert(out@ =~= shortened(*key));
    out
}

impl PeerView {
    /// The name that a conversation is shown under: a room's own, else the one
    /// you chose, else the one they claim, else the key.
    pub open spec fn label(self) -> Seq<char> {
        match (self.room, self.alias, self.nick) {
            (Some(room), _, _) => "#"@ + room.name,
            (None, Some(alias), _) => alias,
            (None, None, Some(nick)) => nick,
            (None, None, None) => shortened(self.key),
        }
    }

    /// Whether the displayed name is one you chose, or no claim at all.
    pub open spec fn named(self) -> bool {
        self.room is Some || self.alias is Some || self.nick is None
    }

    /// What stands beside the name.
    pub open spec fn subtitle(self) -> Seq<char> {
        match self.room {
            Some(room) => if !room.joined {
                "you are not in this room"@
            } else {
                text::decimal(room.members as nat) + " member(s)"@
            },
            None => if self.path.len() == 0 {
                "offline"@
            } else {
                self.path
            },
        }
    }

    /// Whether the cursor is on a message, or at the start of none.
    pub open spec fn wf(self) -> bool {
        self.cursor < self.log.len() || self.cursor == 0
    }
}

impl Peer {
    /// Computes [`PeerView::label`].
    pub fn label(&self) -> (r: String)
        ensures
            r@ == self@.label(),
    {
        match (&self.room, &self.alias, &self.nick) {
            (Some(room), _, _) => "#".to_owned().concat(room.name.as_str()),
            (None, Some(alias), _) => alias.clone(),
            (None, None, Some(nick)) => nick.clone(),
            (None, None, None) => short(&self.key),
        }
    }

    /// True when the displayed name is one you chose. An unnamed peer is shown
    /// dimmed with a `?`, because the alternative (rendering a string the peer
    /// picked as if it were their identity) is how you get impersonated by
    /// someone who simply called themselves your friend's name.
    pub fn named(&self) -> (r: bool)
        ensures
            r == self@.named(),
    {
        self.room.is_some() || self.alias.is_some() || self.nick.is_none()
    }

    /// Computes [`PeerView::subtitle`].
    pub fn subtitle(&self) -> (r: String)
        ensures
            r@ == self@.subtitle(),
    {
        match &self.room {
            Some(room) => {
                if !room.joined {
                    "you are not in this room".to_owned()
                } else {
                    text::decimal_of(room.members as u64).concat(" member(s)")
                }
            },
            None => {
                if self.path.as_str().is_empty() {
                    "offline".to_owned()
                } else {
                    self.path.clone()
                }
            },
        }
    }
}

/// Conversations as mathematical values.
pub open spec fn peers_view(peers: Seq<Peer>) -> Seq<PeerView> {
    peers.map_values(|p: Peer| p@)
}

/// A stretch of the screen.
#[derive(Clone, Copy, Debug, PartialEq, Eq, Structural)]
pub struct Rect {
    pub x: u16,
    pub y: u16,
    pub width: u16,
    pub height: u16,
}

/// What the UI knows.
#[derive(Debug)]
pub struct Ui {
    pub me: String,
    pub nickname: String,
    pub peers: Vec<Peer>,
    pub sel: usize,
    pub focus: Focus,
    pub pending: Option<Pending>,
    pub input: String,
    /// Byte offset of the caret within `input`.
    pub caret: usize,
    /// Wrapped chat lines scrolled up from the bottom; 0 pins to the newest.
    pub scroll: usize,
    pub status: String,
    /// Attachments in flight, by message id.
    pub transfers: Table<MessageId, (u64, u64)>,
    pub delivery: Table<MessageId, Delivery>,
    /// Commands for the network side, oldest first.
    pub outbox: Vec<UiCommand>,
    /// Terminal sequences that put text on the clipboard, oldest first.
    pub clipboard: Vec<String>,
    /// `/help` takes over the chat pane until the next keypress.
    pub help: bool,
    /// Whether the terminal is handing us mouse events. While it is, dragging
    /// selects nothing, so `/mouse` turns it off when you want to copy text.
    pub mouse: bool,
    /// Where each pane was drawn last frame, for hit-testing clicks.
    pub peers_area: Rect,
    pub chat_area: Rect,
    pub input_area: Rect,
    /// Scroll offset of the peer list, so a click maps to the right peer.
    pub peer_offset: usize,
    /// For each visible chat row, the message it belongs to.
    pub chat_rows: Vec<usize>,
}

/// What the UI knows, as mathematical values.
#[verifier::ext_equal]
pub struct UiView {
    pub me: Seq<char>,
    pub nickname: Seq<char>,
    pub peers: Seq<PeerView>,
    pub sel: nat,
    pub focus: Focus,
    pub pending: Option<Pending>,
    pub input: Seq<char>,
    pub caret: nat,
    pub scroll: nat,
    pub status: Seq<char>,
    pub transfers: Map<MessageId, (u64, u64)>,
    pub delivery: Map<MessageId, Delivery>,
    pub outbox: Seq<CommandView>,
    pub clipboard: Seq<Seq<char>>,
    pub help: bool,
    pub mouse: bool,
    pub peers_area: Rect,
    pub chat_area: Rect,
    pub input_area: Rect,
    pub peer_offset: nat,
    pub chat_rows: Seq<usize>,
}

impl View for Ui {
    type V = UiView;

    open spec fn view(&self) -> UiView {
        UiView {
            me: self.me@,
            nickname: self.nickname@,
            peers: peers_view(self.peers@),
            sel: self.sel as nat,
            focus: self.focus,
            pending: self.pending,
            input: self.input@,
            caret: self.caret as nat,
            scroll: self.scroll as nat,
            status: self.status@,
            transfers: self.transfers@,
            delivery: self.delivery@,
            outbox: commands_view(self.outbox@),
            clipboard: layout::strings_view(self.clipboard@),
            help: self.help,
            mouse: self.mouse,
            peers_area: self.peers_area,
            chat_area: self.chat_area,
            input_area: self.input_area,
            peer_offset: self.peer_offset as nat,
            chat_rows: self.chat_rows@,
        }
    }
}

/// Whether a caret stands before, between or behind the characters of a line.
pub open spec fn on_boundary(input: Seq<char>, caret: nat) -> bool {
    exists|n: int| 0 <= n <= input.len() && caret == #[trigger] layout::byte_len(input.take(n))
}

impl UiView {
    /// Whether no conversation is listed twice, the selection is one of them,
    /// every cursor is on a message, and the caret is between characters.
    pub open spec fn wf(self) -> bool {
        &&& forall|i: int, j: int|
            0 <= i < j < self.peers.len() ==> (#[trigger] self.peers[i]).key != (#[trigger] self.peers[j]).key
        &&& forall|i: int| 0 <= i < self.peers.len() ==> (#[trigger] self.peers[i]).wf()
        &&& self.sel < self.peers.len() || self.sel == 0
        &&& on_boundary(self.input, self.caret)
    }

    /// Whether one more unread message can be counted anywhere.
    pub open spec fn countable(self) -> bool {
        forall|i: int| 0 <= i < self.peers.len() ==> (#[trigger] self.peers[i]).unread < usize::MAX
    }

    /// Whether the panes can be scrolled a page further.
    pub open spec fn scrollable(self) -> bool {
        &&& self.scroll + 5 <= usize::MAX
        &&& self.peer_offset + 0x1_0000 <= usize::MAX
    }

    /// The selected conversation.
    pub open spec fn selected(self) -> Option<PeerView> {
        if self.sel < self.peers.len() {
            Some(self.peers[self.sel as int])
        } else {
            None
        }
    }

    /// The key of the selected conversation.
    pub open spec fn selected_key(self) -> Option<[u8; 32]> {
        match self.selected() {
            Some(p) => Some(p.key),
            None => None,
        }
    }
}

impl Ui {
    /// [`UiView::wf`], and that the tables are kept well.
    pub open spec fn wf(&self) -> bool {
        &&& self@.wf()
        &&& self.transfers.wf()
        &&& self.delivery.wf()
    }

    /// A UI without conversations.
    pub fn new(me: String, nickname: String) -> (r: Ui)
        ensures
            r.wf(),
            r@.countable(),
            r@.scrollable(),
            r@.me == me@,
            r@.nickname == nickname@,
            r@.peers.len() == 0,
            r@.sel == 0,
            r@.focus == Focus::Input,
            r@.pending is None,
            r@.input.len() == 0,
            r@.caret == 0,
            r@.scroll == 0,
            r@.status == "waiting for peers"@,
            r@.transfers == Map::<MessageId, (u64, u64)>::empty(),
            r@.delivery == Map::<MessageId, Delivery>::empty(),
            r@.outbox.len() == 0,
            r@.clipboard.len() == 0,
            !r@.help,
            r@.mouse,
            r@.peer_offset == 0,
            r@.chat_rows.len() == 0,
            r@.peers_area == (Rect { x: 0, y: 0, width: 0, height: 0 }),
            r@.chat_area == (Rect { x: 0, y: 0, width: 0, height: 0 }),
            r@.input_area == (Rect { x: 0, y: 0, width: 0, height: 0 }),
    {
        let nowhere = Rect { x: 0, y: 0, width: 0, height: 0 };
        let r = Ui {
            me,
            nickname,
            peers: Vec::new(),
            sel: 0,
            focus: Focus::Input,
            pending: None,
            input: String::new(),
            caret: 0,
            scroll: 0,
            status: "waiting for peers".to_owned(),
            transfers: Table::new(),
            delivery: Table::new(),
            outbox: Vec::new(),
            clipboard: Vec::new(),
            help: false,
            mouse: true,
            peers_area: nowhere,
            chat_area: nowhere,
            input_area: nowhere,
            peer_offset: 0,
            chat_rows: Vec::new(),
        };
        proof {
            assert(r@.input.take(0) =~= Seq::<char>::empty());
            assert(vstd::utf8::encode_utf8(Seq::<char>::empty()).len() == 0);
            assert(layout::byte_len(r@.input.take(0)) == 0);
        }
        r
    }

    /// The key of the selected conversation.
    pub fn selected_key(&self) -> (r: Option<[u8; 32]>)
        ensures
            r == self@.selected_key(),
    {
        if self.sel < self.peers.len() {
            Some(self.peers[self.sel].key)
        } else {
            None
        }
    }

    /// Queues a command for the network side.
    pub(crate) fn send(&mut self, command: UiCommand)
        ensures
            final(self)@ == (UiView { outbox: old(self)@.outbox.push(command@), ..old(self)@ }),
            final(self).transfers == old(self).transfers,
            final(self).delivery == old(self).delivery,
    {
        let ghost was = self.outbox@;
        self.outbox.push(command);
        assert(commands_view(self.outbox@) =~= commands_view(was).push(command@));
    }

    /// Changes the status line.
    pub(crate) fn say(&mut self, status: String)
        ensures
            final(self)@ == (UiView { status: status@, ..old(self)@ }),
            final(self).transfers == old(self).transfers,
            final(self).delivery == old(self).delivery,
    {
        self.status = status;
    }
}

} // verus!
