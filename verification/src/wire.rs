//! Message identity and the framing that carries it.
//!
//! An id is `(sender, seq, ts_ms)`, and all three are part of the identity:
//!
//! * `sender`: the endpoint id, so ids from different peers can never collide.
//! * `seq`: strictly increasing per sender. This is the ordering authority.
//! * `ts_ms`: the sender's wall clock, for display and cross-peer ordering only.
//!   It is not trusted and never compared for equality with anything else. It
//!   also stops a peer that lost its store, and so restarted `seq` at zero, from
//!   minting ids that collide with its own history.

use crate::room::RoomEntry;
use crate::{bytes, codec, room, text};
use vstd::prelude::*;

verus! {

/// Chat frames are small. Files get their own stream, so this cap is not in
/// their way.
pub const MAX_FRAME: usize = 1_048_576;

/// Which message this is.
#[derive(Debug, Clone, Copy, PartialEq, Eq, Hash)]
pub struct MessageId {
    pub sender: [u8; 32],
    pub seq: u64,
    pub ts_ms: u64,
}

impl MessageId {
    /// Short and pasteable: eight hexadecimal digits of the sender, a dash, the
    /// sequence number.
    pub open spec fn text(self) -> Seq<char> {
        bytes::hex(self.sender@.take(4)) + "-"@ + text::decimal(self.seq as nat)
    }

    /// Computes [`MessageId::text`].
    pub fn to_string(&self) -> (r: String)
        ensures
            r@ == self.text(),
    {
        let mut out: String = String::new();
        text::push_hex(&mut out, vstd::slice::slice_subrange(&self.sender, 0, 4));
        assert(self.sender@.subrange(0, 4) =~= self.sender@.take(4));
        assert(out@ =~= bytes::hex(self.sender@.take(4)));
        out.append("-");
        out.append(text::decimal_of(self.seq).as_str());
        out
    }

    /// Display order across peers: wall clock first, then the sender's own
    /// sequence, then the key to break ties deterministically.
    pub fn sort_key(&self) -> (r: (u64, u64, [u8; 32]))
        ensures
            r == (self.ts_ms, self.seq, self.sender),
    {
        (self.ts_ms, self.seq, self.sender)
    }

    /// Whether two ids name the same message.
    pub fn same(&self, other: &MessageId) -> (r: bool)
        ensures
            r == (*self == *other),
    {
        self.seq == other.seq && self.ts_ms == other.ts_ms && bytes::same32(&self.sender, &other.sender)
    }

    /// The bytes of an id.
    pub open spec fn encoded(self) -> Seq<u8> {
        self.sender@ + codec::varint(self.seq as nat) + codec::varint(self.ts_ms as nat)
    }

    /// Computes [`MessageId::encoded`].
    pub fn encode(&self) -> (r: Vec<u8>)
        ensures
            r@ == self.encoded(),
    {
        let mut out: Vec<u8> = vstd::slice::slice_to_vec(&self.sender);
        out.extend_from_slice(&codec::write_u64(self.seq));
        out.extend_from_slice(&codec::write_u64(self.ts_ms));
        out
    }

    /// Computes [`read_id`].
    pub(crate) fn take(b: &[u8]) -> (r: Option<(MessageId, &[u8])>)
        ensures
            r is Some <==> read_id(b@) is Some,
            r is Some ==> read_id(b@) == Some(((r->0).0, (r->0).1@)),
    {
        let (sender, rest) = match codec::take_array::<32>(b) {
            Some(x) => x,
            None => return None,
        };
        let (seq, rest) = match codec::take_u64(rest) {
            Some(x) => x,
            None => return None,
        };
        let (ts_ms, rest) = match codec::take_u64(rest) {
            Some(x) => x,
            None => return None,
        };
        Some((MessageId { sender, seq, ts_ms }, rest))
    }
}

/// Reads an id.
pub open spec fn read_id(b: Seq<u8>) -> Option<(MessageId, Seq<u8>)> {
    match codec::read_array::<32>(b) {
        Some((sender, rest)) => match codec::read_u64(rest) {
            Some((seq, rest)) => match codec::read_u64(rest) {
                Some((ts_ms, rest)) => Some((MessageId { sender, seq: seq as u64, ts_ms: ts_ms as u64 }, rest)),
                None => None,
            },
            None => None,
        },
        None => None,
    }
}

/// An id is read back.
pub proof fn lemma_id_roundtrip(id: MessageId, rest: Seq<u8>)
    ensures
        read_id(id.encoded() + rest) == Some((id, rest)),
{
    let r2 = codec::varint(id.ts_ms as nat) + rest;
    let r1 = codec::varint(id.seq as nat) + r2;
    assert(id.encoded() + rest =~= id.sender@ + r1);
    codec::lemma_array_roundtrip(id.sender, r1);
    codec::lemma_u64_roundtrip(id.seq, r2);
    codec::lemma_u64_roundtrip(id.ts_ms, rest);
}

/// Mints ids for one sender. `seq` is persisted alongside the message store, so
/// it survives a restart.
#[derive(Debug)]
pub struct Counter {
    sender: [u8; 32],
    seq: u64,
}

impl Counter {
    /// Whose ids these are.
    pub closed spec fn sender(&self) -> [u8; 32] {
        self.sender
    }

    /// The highest number used so far.
    pub closed spec fn used(&self) -> u64 {
        self.seq
    }

    /// `resume_from` is the highest `seq` already used, or 0 on a fresh store.
    pub fn new(sender: [u8; 32], resume_from: u64) -> (r: Counter)
        ensures
            r.sender() == sender,
            r.used() == resume_from,
    {
        Counter { sender, seq: resume_from }
    }

    /// The next id, stamped with a given time.
    pub fn mint_at(&mut self, ts_ms: u64) -> (id: MessageId)
        requires
            old(self).used() < u64::MAX,
        ensures
            id == (MessageId { sender: old(self).sender(), seq: (old(self).used() + 1) as u64, ts_ms }),
            final(self).sender() == old(self).sender(),
            final(self).used() == old(self).used() + 1,
    {
        self.seq = self.seq + 1;
        MessageId { sender: self.sender, seq: self.seq, ts_ms }
    }

    /// The next id, stamped with the wall clock.
    pub fn mint(&mut self) -> (id: MessageId)
        requires
            old(self).used() < u64::MAX,
        ensures
            id.sender == old(self).sender(),
            id.seq == old(self).used() + 1,
            final(self).sender() == old(self).sender(),
            final(self).used() == id.seq,
    {
        self.mint_at(now_ms())
    }

    /// Computes [`Counter::used`].
    pub fn seq(&self) -> (r: u64)
        ensures
            r == self.used(),
    {
        self.seq
    }
}

/// `SystemTime::now().duration_since(UNIX_EPOCH)` in whole milliseconds; `None`
/// where the clock stands before the epoch. Nothing is claimed of its value.
#[verifier::external_body]
fn since_epoch() -> (r: Option<u128>) {
    match std::time::SystemTime::now().duration_since(std::time::UNIX_EPOCH) {
        Ok(d) => Some(d.as_millis()),
        Err(_) => None,
    }
}

/// Milliseconds as they are kept: the low 64 bits, and zero before the epoch.
pub fn clamp_ms(since_epoch: Option<u128>) -> (r: u64)
    ensures
        r == (match since_epoch {
            Some(ms) => ms as u64,
            None => 0u64,
        }),
{
    match since_epoch {
        Some(ms) => ms as u64,
        None => 0,
    }
}

/// The wall clock, in milliseconds since the Unix epoch.
pub fn now_ms() -> (r: u64) {
    clamp_ms(since_epoch())
}

/// Every op carries its own [`MessageId`], so every one of them is dedupable and
/// mailboxable in its own right, and names the `target` it acts on. Who may do
/// what is decided by the ids alone: only `target.sender` may edit or delete,
/// and the receiver checks that; the sender is not asked to be honest about it.
#[derive(Debug, PartialEq, Eq)]
pub enum Frame {
    /// First frame on every stream, and again after a change of nickname. The
    /// nickname is local metadata, never conflated with the endpoint id.
    Hello { nickname: String },
    Chat { id: MessageId, body: String, reply_to: Option<MessageId> },
    Edit { id: MessageId, target: MessageId, body: String },
    Delete { id: MessageId, target: MessageId },
    /// `on` is false to remove the reaction, so the op is a toggle rather than
    /// a state the two ends can disagree about.
    React { id: MessageId, target: MessageId, emoji: String, on: bool },
    /// The same ops again, addressed to a room instead of to the peer carrying
    /// them. A room id is 32 bytes, exactly like an endpoint id.
    InRoom { room: [u8; 32], op: Box<Frame> },
    /// An attachment: the first frame of its own stream, with the bytes
    /// following it raw. `name` is for display only; `hash` is BLAKE3 of the
    /// contents, checked on arrival.
    File { id: MessageId, name: String, size: u64, hash: [u8; 32] },
    /// A room's log. It is self-verifying, so it does not matter who hands it
    /// over. It may be empty, which is a bare "go and look".
    RoomUpdated { room: [u8; 32], log: Vec<RoomEntry> },
}

/// A frame as mathematical values.
#[verifier::ext_equal]
pub enum FrameView {
    Hello { nickname: Seq<char> },
    Chat { id: MessageId, body: Seq<char>, reply_to: Option<MessageId> },
    Edit { id: MessageId, target: MessageId, body: Seq<char> },
    Delete { id: MessageId, target: MessageId },
    React { id: MessageId, target: MessageId, emoji: Seq<char>, on: bool },
    InRoom { room: [u8; 32], op: Box<FrameView> },
    File { id: MessageId, name: Seq<char>, size: u64, hash: [u8; 32] },
    RoomUpdated { room: [u8; 32], log: Seq<room::EntryView> },
}

impl View for Frame {
    type V = FrameView;

    open spec fn view(&self) -> FrameView
        decreases self,
    {
        match self {
            Frame::Hello { nickname } => FrameView::Hello { nickname: nickname@ },
            Frame::Chat { id, body, reply_to } => FrameView::Chat { id: *id, body: body@, reply_to: *reply_to },
            Frame::Edit { id, target, body } => FrameView::Edit { id: *id, target: *target, body: body@ },
            Frame::Delete { id, target } => FrameView::Delete { id: *id, target: *target },
            Frame::React { id, target, emoji, on } => FrameView::React {
                id: *id,
                target: *target,
                emoji: emoji@,
                on: *on,
            },
            Frame::InRoom { room, op } => FrameView::InRoom { room: *room, op: Box::new((**op).view()) },
            Frame::File { id, name, size, hash } => FrameView::File {
                id: *id,
                name: name@,
                size: *size,
                hash: *hash,
            },
            Frame::RoomUpdated { room, log } => FrameView::RoomUpdated {
                room: *room,
                log: room::log_view(log@),
            },
        }
    }
}

impl FrameView {
    /// The id of the op itself. `Hello` and `RoomUpdated` carry none, and an op
    /// in a room keeps its own.
    pub open spec fn id(self) -> Option<MessageId>
        decreases self,
    {
        match self {
            FrameView::Hello { .. } => None,
            FrameView::RoomUpdated { .. } => None,
            FrameView::Chat { id, .. } => Some(id),
            FrameView::Edit { id, .. } => Some(id),
            FrameView::Delete { id, .. } => Some(id),
            FrameView::React { id, .. } => Some(id),
            FrameView::File { id, .. } => Some(id),
            FrameView::InRoom { op, .. } => op.id(),
        }
    }

    /// The room, or the peer that carried the op.
    pub open spec fn conversation(self, peer: [u8; 32]) -> [u8; 32] {
        match self {
            FrameView::InRoom { room, .. } => room,
            _ => peer,
        }
    }

    /// The op without its room wrapper.
    pub open spec fn unwrapped(self) -> FrameView {
        match self {
            FrameView::InRoom { op, .. } => *op,
            other => other,
        }
    }
}

impl Frame {
    /// The id of the op itself, for dedup. `Hello` carries none.
    pub fn id(&self) -> (r: Option<MessageId>)
        ensures
            r == self@.id(),
        decreases self,
    {
        match self {
            Frame::Hello { .. } => None,
            Frame::RoomUpdated { .. } => None,
            Frame::Chat { id, .. } => Some(*id),
            Frame::Edit { id, .. } => Some(*id),
            Frame::Delete { id, .. } => Some(*id),
            Frame::React { id, .. } => Some(*id),
            Frame::File { id, .. } => Some(*id),
            Frame::InRoom { op, .. } => op.id(),
        }
    }

    /// The conversation this op belongs to: a room, or the peer that carried it.
    pub fn conversation(&self, peer: [u8; 32]) -> (r: [u8; 32])
        ensures
            r == self@.conversation(peer),
    {
        match self {
            Frame::InRoom { room, .. } => *room,
            _ => peer,
        }
    }

    /// Strips the room wrapper, so the store and the fold see one shape of op.
    pub fn unwrap_room(self) -> (r: Frame)
        ensures
            r@ == self@.unwrapped(),
    {
        match self {
            Frame::InRoom { op, .. } => *op,
            other => other,
        }
    }
}

impl Clone for Frame {
    fn clone(&self) -> (r: Self)
        ensures
            r@ == self@,
        decreases self,
    {
        match self {
            Frame::Hello { nickname } => Frame::Hello { nickname: nickname.clone() },
            Frame::Chat { id, body, reply_to } => Frame::Chat { id: *id, body: body.clone(), reply_to: *reply_to },
            Frame::Edit { id, target, body } => Frame::Edit { id: *id, target: *target, body: body.clone() },
            Frame::Delete { id, target } => Frame::Delete { id: *id, target: *target },
            Frame::React { id, target, emoji, on } => Frame::React {
                id: *id,
                target: *target,
                emoji: emoji.clone(),
                on: *on,
            },
            Frame::InRoom { room, op } => Frame::InRoom { room: *room, op: Box::new((&**op).clone()) },
            Frame::File { id, name, size, hash } => Frame::File {
                id: *id,
                name: name.clone(),
                size: *size,
                hash: *hash,
            },
            Frame::RoomUpdated { room, log } => Frame::RoomUpdated {
                room: *room,
                log: room::clone_log(log.as_slice()),
            },
        }
    }
}

/// The bytes of an id that may be missing.
pub open spec fn maybe_id(id: Option<MessageId>) -> Seq<u8> {
    match id {
        Some(id) => codec::flag(true) + id.encoded(),
        None => codec::flag(false),
    }
}

/// Reads an id that may be missing.
pub open spec fn read_maybe_id(b: Seq<u8>) -> Option<(Option<MessageId>, Seq<u8>)> {
    match codec::read_flag(b) {
        Some((true, rest)) => match read_id(rest) {
            Some((id, rest)) => Some((Some(id), rest)),
            None => None,
        },
        Some((false, rest)) => Some((None, rest)),
        None => None,
    }
}

/// The bytes of the entries of a log, without their number.
pub open spec fn entries(log: Seq<room::EntryView>) -> Seq<u8>
    decreases log.len(),
{
    if log.len() == 0 {
        Seq::empty()
    } else {
        entries(log.drop_last()) + log.last().encoded()
    }
}

/// Reads `n` entries.
pub open spec fn read_entries(n: nat, b: Seq<u8>) -> Option<(Seq<room::EntryView>, Seq<u8>)>
    decreases n,
{
    if n == 0 {
        Some((Seq::empty(), b))
    } else {
        match read_entries((n - 1) as nat, b) {
            Some((log, rest)) => match room::read_entry(rest) {
                Some((e, rest)) => Some((log.push(e), rest)),
                None => None,
            },
            None => None,
        }
    }
}

impl FrameView {
    /// The number that tells the kinds of frame apart.
    pub open spec fn kind(self) -> u32 {
        match self {
            FrameView::Hello { .. } => 0,
            FrameView::Chat { .. } => 1,
            FrameView::Edit { .. } => 2,
            FrameView::Delete { .. } => 3,
            FrameView::React { .. } => 4,
            FrameView::InRoom { .. } => 5,
            FrameView::File { .. } => 6,
            FrameView::RoomUpdated { .. } => 7,
        }
    }

    /// The bytes of the fields of a frame.
    pub open spec fn fields(self) -> Seq<u8>
        decreases self, 0int,
    {
        match self {
            FrameView::Hello { nickname } => codec::string(nickname),
            FrameView::Chat { id, body, reply_to } => id.encoded() + codec::string(body) + maybe_id(reply_to),
            FrameView::Edit { id, target, body } => id.encoded() + target.encoded() + codec::string(body),
            FrameView::Delete { id, target } => id.encoded() + target.encoded(),
            FrameView::React { id, target, emoji, on } => id.encoded() + target.encoded() + codec::string(emoji)
                + codec::flag(on),
            FrameView::InRoom { room, op } => room@ + op.encoded(),
            FrameView::File { id, name, size, hash } => id.encoded() + codec::string(name) + codec::varint(
                size as nat,
            ) + hash@,
            FrameView::RoomUpdated { room, log } => room@ + codec::varint(log.len()) + entries(log),
        }
    }

    /// The bytes of a frame: its kind, then its fields.
    pub open spec fn encoded(self) -> Seq<u8>
        decreases self, 1int,
    {
        codec::varint(self.kind() as nat) + self.fields()
    }

    /// Whether the frame's lengths fit in a machine's address space.
    pub open spec fn fits(self) -> bool
        decreases self,
    {
        match self {
            FrameView::Hello { nickname } => vstd::utf8::encode_utf8(nickname).len() <= usize::MAX,
            FrameView::Chat { body, .. } => vstd::utf8::encode_utf8(body).len() <= usize::MAX,
            FrameView::Edit { body, .. } => vstd::utf8::encode_utf8(body).len() <= usize::MAX,
            FrameView::Delete { .. } => true,
            FrameView::React { emoji, .. } => vstd::utf8::encode_utf8(emoji).len() <= usize::MAX,
            FrameView::InRoom { op, .. } => op.fits(),
            FrameView::File { name, .. } => vstd::utf8::encode_utf8(name).len() <= usize::MAX,
            FrameView::RoomUpdated { log, .. } => {
                &&& log.len() <= usize::MAX
                &&& forall|i: int| 0 <= i < log.len() ==> (#[trigger] log[i]).fits()
            },
        }
    }
}

/// Reads the fields of a frame of a kind that holds no other frame.
pub open spec fn read_flat(kind: nat, b: Seq<u8>) -> Option<(FrameView, Seq<u8>)> {
    if kind == 0 {
        match codec::read_string(b) {
            Some((nickname, rest)) => Some((FrameView::Hello { nickname }, rest)),
            None => None,
        }
    } else if kind == 1 || kind == 6 {
        match read_id(b) {
            Some((id, rest)) => match codec::read_string(rest) {
                Some((s, rest)) => if kind == 1 {
                    match read_maybe_id(rest) {
                        Some((reply_to, rest)) => Some((FrameView::Chat { id, body: s, reply_to }, rest)),
                        None => None,
                    }
                } else {
                    match codec::read_u64(rest) {
                        Some((size, rest)) => match codec::read_array::<32>(rest) {
                            Some((hash, rest)) => Some(
                                (FrameView::File { id, name: s, size: size as u64, hash }, rest),
                            ),
                            None => None,
                        },
                        None => None,
                    }
                },
                None => None,
            },
            None => None,
        }
    } else if kind == 2 || kind == 3 || kind == 4 {
        match read_id(b) {
            Some((id, rest)) => match read_id(rest) {
                Some((target, rest)) => if kind == 3 {
                    Some((FrameView::Delete { id, target }, rest))
                } else {
                    match codec::read_string(rest) {
                        Some((s, rest)) => if kind == 2 {
                            Some((FrameView::Edit { id, target, body: s }, rest))
                        } else {
                            match codec::read_flag(rest) {
                                Some((on, rest)) => Some((FrameView::React { id, target, emoji: s, on }, rest)),
                                None => None,
                            }
                        },
                        None => None,
                    }
                },
                None => None,
            },
            None => None,
        }
    } else if kind == 7 {
        match codec::read_array::<32>(b) {
            Some((room, rest)) => match codec::read_len(rest) {
                Some((n, rest)) => match read_entries(n, rest) {
                    Some((log, rest)) => Some((FrameView::RoomUpdated { room, log }, rest)),
                    None => None,
                },
                None => None,
            },
            None => None,
        }
    } else {
        None
    }
}

/// Reads a frame.
pub open spec fn read(b: Seq<u8>) -> Option<(FrameView, Seq<u8>)>
    decreases b.len(),
{
    proof {
        codec::lemma_read_varint_shrinks(b, 5, 15);
    }
    match codec::read_u32(b) {
        Some((kind, rest)) => if kind == 5 {
            match codec::read_array::<32>(rest) {
                Some((room, rest)) => match read(rest) {
                    Some((op, rest)) => Some((FrameView::InRoom { room, op: Box::new(op) }, rest)),
                    None => None,
                },
                None => None,
            }
        } else {
            read_flat(kind, rest)
        },
        None => None,
    }
}

/// Entries are read back.
pub proof fn lemma_entries_roundtrip(log: Seq<room::EntryView>, rest: Seq<u8>)
    requires
        forall|i: int| 0 <= i < log.len() ==> (#[trigger] log[i]).fits(),
    ensures
        read_entries(log.len(), entries(log) + rest) == Some((log, rest)),
    decreases log.len(),
{
    if log.len() == 0 {
        assert(entries(log) + rest =~= rest);
        assert(log =~= Seq::empty());
    } else {
        let init = log.drop_last();
        let tail = log.last().encoded() + rest;
        assert(entries(log) + rest =~= entries(init) + tail);
        assert forall|i: int| 0 <= i < init.len() implies (#[trigger] init[i]).fits() by {
            assert(init[i] == log[i]);
        }
        lemma_entries_roundtrip(init, tail);
        room::lemma_entry_roundtrip(log.last(), rest);
        assert(init.push(log.last()) =~= log);
    }
}

proof fn lemma_maybe_id_roundtrip(id: Option<MessageId>, rest: Seq<u8>)
    ensures
        read_maybe_id(maybe_id(id) + rest) == Some((id, rest)),
{
    match id {
        Some(id) => {
            assert(maybe_id(Some(id)) + rest =~= codec::flag(true) + (id.encoded() + rest));
            codec::lemma_flag_roundtrip(true, id.encoded() + rest);
            lemma_id_roundtrip(id, rest);
        },
        None => {
            codec::lemma_flag_roundtrip(false, rest);
        },
    }
}

proof fn lemma_chat_roundtrip(id: MessageId, body: Seq<char>, reply_to: Option<MessageId>, rest: Seq<u8>)
    requires
        vstd::utf8::encode_utf8(body).len() <= usize::MAX,
    ensures
        read_flat(1, (FrameView::Chat { id, body, reply_to }).fields() + rest) == Some(
            (FrameView::Chat { id, body, reply_to }, rest),
        ),
{
    let f = FrameView::Chat { id, body, reply_to };
    let r3 = maybe_id(reply_to) + rest;
    let r2 = codec::string(body) + r3;
    assert(f.fields() + rest =~= id.encoded() + r2);
    lemma_id_roundtrip(id, r2);
    codec::lemma_string_roundtrip(body, r3);
    lemma_maybe_id_roundtrip(reply_to, rest);
}

proof fn lemma_edit_roundtrip(id: MessageId, target: MessageId, body: Seq<char>, rest: Seq<u8>)
    requires
        vstd::utf8::encode_utf8(body).len() <= usize::MAX,
    ensures
        read_flat(2, (FrameView::Edit { id, target, body }).fields() + rest) == Some(
            (FrameView::Edit { id, target, body }, rest),
        ),
{
    let f = FrameView::Edit { id, target, body };
    let r3 = codec::string(body) + rest;
    let r2 = target.encoded() + r3;
    assert(f.fields() + rest =~= id.encoded() + r2);
    lemma_id_roundtrip(id, r2);
    lemma_id_roundtrip(target, r3);
    codec::lemma_string_roundtrip(body, rest);
}

proof fn lemma_delete_roundtrip(id: MessageId, target: MessageId, rest: Seq<u8>)
    ensures
        read_flat(3, (FrameView::Delete { id, target }).fields() + rest) == Some(
            (FrameView::Delete { id, target }, rest),
        ),
{
    let f = FrameView::Delete { id, target };
    let r2 = target.encoded() + rest;
    assert(f.fields() + rest =~= id.encoded() + r2);
    lemma_id_roundtrip(id, r2);
    lemma_id_roundtrip(target, rest);
}

/// Four fields can be taken off the front one after the other.
proof fn lemma_four_fields(a: Seq<u8>, b: Seq<u8>, c: Seq<u8>, d: Seq<u8>, rest: Seq<u8>)
    ensures
        a + b + c + d + rest == a + (b + (c + (d + rest))),
{
    assert(a + b + c + d + rest =~= a + (b + (c + (d + rest))));
}

proof fn lemma_react_roundtrip(id: MessageId, target: MessageId, emoji: Seq<char>, on: bool, rest: Seq<u8>)
    requires
        vstd::utf8::encode_utf8(emoji).len() <= usize::MAX,
    ensures
        read_flat(4, (FrameView::React { id, target, emoji, on }).fields() + rest) == Some(
            (FrameView::React { id, target, emoji, on }, rest),
        ),
{
    let f = FrameView::React { id, target, emoji, on };
    let r4 = codec::flag(on) + rest;
    let r3 = codec::string(emoji) + r4;
    let r2 = target.encoded() + r3;
    lemma_four_fields(id.encoded(), target.encoded(), codec::string(emoji), codec::flag(on), rest);
    assert(f.fields() + rest == id.encoded() + r2);
    lemma_id_roundtrip(id, r2);
    lemma_id_roundtrip(target, r3);
    codec::lemma_string_roundtrip(emoji, r4);
    codec::lemma_flag_roundtrip(on, rest);
}

proof fn lemma_file_roundtrip(id: MessageId, name: Seq<char>, size: u64, hash: [u8; 32], rest: Seq<u8>)
    requires
        vstd::utf8::encode_utf8(name).len() <= usize::MAX,
    ensures
        read_flat(6, (FrameView::File { id, name, size, hash }).fields() + rest) == Some(
            (FrameView::File { id, name, size, hash }, rest),
        ),
{
    let f = FrameView::File { id, name, size, hash };
    let r4 = hash@ + rest;
    let r3 = codec::varint(size as nat) + r4;
    let r2 = codec::string(name) + r3;
    lemma_four_fields(id.encoded(), codec::string(name), codec::varint(size as nat), hash@, rest);
    assert(f.fields() + rest == id.encoded() + r2);
    lemma_id_roundtrip(id, r2);
    codec::lemma_string_roundtrip(name, r3);
    codec::lemma_u64_roundtrip(size, r4);
    codec::lemma_array_roundtrip(hash, rest);
}

proof fn lemma_updated_roundtrip(room: [u8; 32], log: Seq<room::EntryView>, rest: Seq<u8>)
    requires
        log.len() <= usize::MAX,
        forall|i: int| 0 <= i < log.len() ==> (#[trigger] log[i]).fits(),
    ensures
        read_flat(7, (FrameView::RoomUpdated { room, log }).fields() + rest) == Some(
            (FrameView::RoomUpdated { room, log }, rest),
        ),
{
    let f = FrameView::RoomUpdated { room, log };
    let r3 = entries(log) + rest;
    let r2 = codec::varint(log.len()) + r3;
    assert(f.fields() + rest =~= room@ + r2);
    codec::lemma_array_roundtrip(room, r2);
    codec::lemma_len_roundtrip(log.len(), r3);
    lemma_entries_roundtrip(log, rest);
}

/// Reading what was written gives the frame back, and leaves what follows it.
pub proof fn lemma_frame_roundtrip(f: FrameView, rest: Seq<u8>)
    requires
        f.fits(),
    ensures
        read(f.encoded() + rest) == Some((f, rest)),
    decreases f,
{
    let tail = f.fields() + rest;
    assert(f.encoded() + rest =~= codec::varint(f.kind() as nat) + tail);
    codec::lemma_u32_roundtrip(f.kind(), tail);
    match f {
        FrameView::Hello { nickname } => codec::lemma_string_roundtrip(nickname, rest),
        FrameView::Chat { id, body, reply_to } => lemma_chat_roundtrip(id, body, reply_to, rest),
        FrameView::Edit { id, target, body } => lemma_edit_roundtrip(id, target, body, rest),
        FrameView::Delete { id, target } => lemma_delete_roundtrip(id, target, rest),
        FrameView::React { id, target, emoji, on } => lemma_react_roundtrip(id, target, emoji, on, rest),
        FrameView::InRoom { room, op } => {
            assert(tail =~= room@ + (op.encoded() + rest));
            codec::lemma_array_roundtrip(room, op.encoded() + rest);
            lemma_frame_roundtrip(*op, rest);
        },
        FrameView::File { id, name, size, hash } => lemma_file_roundtrip(id, name, size, hash, rest),
        FrameView::RoomUpdated { room, log } => lemma_updated_roundtrip(room, log, rest),
    }
}

/// Entries whose bytes fit in memory have lengths that do.
pub proof fn lemma_entries_fit(log: Seq<room::EntryView>)
    ensures
        entries(log).len() <= usize::MAX ==> log.len() <= usize::MAX && forall|i: int|
            0 <= i < log.len() ==> (#[trigger] log[i]).fits(),
        entries(log).len() >= log.len(),
    decreases log.len(),
{
    if log.len() > 0 {
        let init = log.drop_last();
        let last = log.last();
        lemma_entries_fit(init);
        assert(last.encoded().len() >= 64);
        if entries(log).len() <= usize::MAX {
            assert(last.op.encoded().len() <= usize::MAX);
            assert(last.fits());
            assert forall|i: int| 0 <= i < log.len() implies (#[trigger] log[i]).fits() by {
                if i < log.len() - 1 {
                    assert(log[i] == init[i]);
                }
            }
        }
    }
}

/// A frame whose bytes fit in memory has lengths that do.
pub proof fn lemma_frame_fits(f: FrameView)
    requires
        f.encoded().len() <= usize::MAX,
    ensures
        f.fits(),
    decreases f,
{
    match f {
        FrameView::InRoom { op, .. } => lemma_frame_fits(*op),
        FrameView::RoomUpdated { log, .. } => lemma_entries_fit(log),
        _ => {},
    }
}

/// Why bytes are not a frame, or a frame not bytes.
#[derive(Clone, Copy, Debug, PartialEq, Eq, Structural)]
pub enum WireError {
    /// The frame to send has this many bytes.
    TooLong(usize),
    /// The peer announced a frame of this many bytes.
    Announced(usize),
    /// The stream ended inside a frame.
    CutShort,
    /// The payload is not a frame.
    Malformed,
}

impl WireError {
    /// The text of the error.
    pub open spec fn text(self) -> Seq<char> {
        match self {
            WireError::TooLong(n) => "frame is "@ + text::decimal(n as nat)
                + " bytes, over the 1048576-byte cap"@,
            WireError::Announced(n) => "peer announced a "@ + text::decimal(n as nat)
                + "-byte frame, over the 1048576-byte cap"@,
            WireError::CutShort => "unexpected end of stream"@,
            WireError::Malformed => "not a frame"@,
        }
    }

    /// Computes [`WireError::text`].
    pub fn message(&self) -> (r: String)
        ensures
            r@ == self.text(),
    {
        match self {
            WireError::TooLong(n) => "frame is ".to_owned().concat(text::decimal_of(*n as u64).as_str()).concat(
                " bytes, over the 1048576-byte cap",
            ),
            WireError::Announced(n) => "peer announced a ".to_owned().concat(
                text::decimal_of(*n as u64).as_str(),
            ).concat("-byte frame, over the 1048576-byte cap"),
            WireError::CutShort => "unexpected end of stream".to_owned(),
            WireError::Malformed => "not a frame".to_owned(),
        }
    }
}

/// The payload of a frame.
pub fn payload(frame: &Frame) -> (r: Vec<u8>)
    ensures
        r@ == frame@.encoded(),
    decreases frame,
{
    match frame {
        Frame::Hello { nickname } => {
            let mut out = codec::write_u64(0);
            out.extend_from_slice(&codec::write_string(nickname.as_str()));
            out
        },
        Frame::Chat { id, body, reply_to } => {
            let mut out = codec::write_u64(1);
            out.extend_from_slice(&id.encode());
            out.extend_from_slice(&codec::write_string(body.as_str()));
            match reply_to {
                Some(id) => {
                    out.push(1);
                    out.extend_from_slice(&id.encode());
                },
                None => {
                    out.push(0);
                },
            }
            assert(out@ =~= frame@.encoded());
            out
        },
        Frame::Edit { id, target, body } => {
            let mut out = codec::write_u64(2);
            out.extend_from_slice(&id.encode());
            out.extend_from_slice(&target.encode());
            out.extend_from_slice(&codec::write_string(body.as_str()));
            assert(out@ =~= frame@.encoded());
            out
        },
        Frame::Delete { id, target } => {
            let mut out = codec::write_u64(3);
            out.extend_from_slice(&id.encode());
            out.extend_from_slice(&target.encode());
            assert(out@ =~= frame@.encoded());
            out
        },
        Frame::React { id, target, emoji, on } => {
            let mut out = codec::write_u64(4);
            out.extend_from_slice(&id.encode());
            out.extend_from_slice(&target.encode());
            out.extend_from_slice(&codec::write_string(emoji.as_str()));
            out.push(if *on { 1 } else { 0 });
            assert(out@ =~= frame@.encoded());
            out
        },
        Frame::InRoom { room, op } => {
            let mut out = codec::write_u64(5);
            out.extend_from_slice(room);
            out.extend_from_slice(&payload(op));
            assert(out@ =~= frame@.encoded());
            out
        },
        Frame::File { id, name, size, hash } => {
            let mut out = codec::write_u64(6);
            out.extend_from_slice(&id.encode());
            out.extend_from_slice(&codec::write_string(name.as_str()));
            out.extend_from_slice(&codec::write_u64(*size));
            out.extend_from_slice(hash);
            assert(out@ =~= frame@.encoded());
            out
        },
        Frame::RoomUpdated { room, log } => {
            let mut out = codec::write_u64(7);
            out.extend_from_slice(room);
            out.extend_from_slice(&encode_log(log.as_slice()));
            assert(out@ =~= frame@.encoded());
            out
        },
    }
}

/// The bytes of a log: the number of entries, then the entries.
pub fn encode_log(log: &[RoomEntry]) -> (r: Vec<u8>)
    ensures
        r@ == codec::varint(log@.len()) + entries(room::log_view(log@)),
{
    let mut out = codec::write_u64(log.len() as u64);
    let ghost all = room::log_view(log@);
    let mut i: usize = 0;
    while i < log.len()
        invariant
            i <= log@.len(),
            all == room::log_view(log@),
            out@ == codec::varint(log@.len()) + entries(all.take(i as int)),
        decreases log@.len() - i,
    {
        out.extend_from_slice(&log[i].encode());
        proof {
            let next = all.take(i + 1);
            assert(next.drop_last() =~= all.take(i as int));
            assert(next.last() == log@[i as int]@);
            assert(out@ =~= codec::varint(log@.len()) + entries(next));
        }
        i = i + 1;
    }
    assert(all.take(i as int) =~= all);
    out
}

/// Reads a log that [`encode_log`] wrote.
pub(crate) fn take_log(b: &[u8]) -> (r: Option<(Vec<RoomEntry>, &[u8])>)
    ensures
        r is Some <==> (codec::read_len(b@) is Some && read_entries(
            (codec::read_len(b@)->0).0,
            (codec::read_len(b@)->0).1,
        ) is Some),
        r is Some ==> read_entries((codec::read_len(b@)->0).0, (codec::read_len(b@)->0).1) == Some(
            (room::log_view((r->0).0@), (r->0).1@),
        ),
{
    let (n, start) = match codec::take_len(b) {
        Some(x) => x,
        None => return None,
    };
    let mut log: Vec<RoomEntry> = Vec::new();
    let mut rest: &[u8] = start;
    let mut i: usize = 0;
    proof {
        assert(room::log_view(log@) =~= Seq::empty());
    }
    while i < n
        invariant
            i <= n,
            read_entries(i as nat, start@) == Some((room::log_view(log@), rest@)),
            codec::read_len(b@) == Some((n as nat, start@)),
        decreases n - i,
    {
        match RoomEntry::take(rest) {
            Some((entry, after)) => {
                let ghost before = log@;
                log.push(entry);
                rest = after;
                i = i + 1;
                assert(room::log_view(log@) =~= room::log_view(before).push(entry@));
            },
            None => {
                proof {
                    lemma_entries_fault_persists(n as nat, (i + 1) as nat, start@);
                }
                return None;
            },
        }
    }
    Some((log, rest))
}

proof fn lemma_entries_fault_persists(n: nat, i: nat, b: Seq<u8>)
    requires
        i <= n,
        read_entries(i, b) is None,
    ensures
        read_entries(n, b) is None,
    decreases n,
{
    if i < n {
        lemma_entries_fault_persists((n - 1) as nat, i, b);
    }
}

/// Computes [`read`].
fn take(b: &[u8]) -> (r: Option<(Frame, &[u8])>)
    ensures
        r is Some <==> read(b@) is Some,
        r is Some ==> read(b@) == Some(((r->0).0@, (r->0).1@)),
    decreases b@.len(),
{
    proof {
        codec::lemma_read_varint_shrinks(b@, 5, 15);
    }
    let (kind, rest) = match codec::take_u32(b) {
        Some(x) => x,
        None => return None,
    };
    if kind == 5 {
        match codec::take_array::<32>(rest) {
            Some((room, rest)) => match take(rest) {
                Some((op, rest)) => Some((Frame::InRoom { room, op: Box::new(op) }, rest)),
                None => None,
            },
            None => None,
        }
    } else {
        take_flat(kind, rest)
    }
}

/// Computes [`read_flat`].
fn take_flat(kind: u32, b: &[u8]) -> (r: Option<(Frame, &[u8])>)
    ensures
        r is Some <==> read_flat(kind as nat, b@) is Some,
        r is Some ==> read_flat(kind as nat, b@) == Some(((r->0).0@, (r->0).1@)),
{
    if kind == 0 {
        match codec::take_string(b) {
            Some((nickname, rest)) => Some((Frame::Hello { nickname }, rest)),
            None => None,
        }
    } else if kind == 1 || kind == 6 {
        match MessageId::take(b) {
            Some((id, rest)) => match codec::take_string(rest) {
                Some((s, rest)) => {
                    if kind == 1 {
                        take_chat_tail(id, s, rest)
                    } else {
                        match codec::take_u64(rest) {
                            Some((size, rest)) => match codec::take_array::<32>(rest) {
                                Some((hash, rest)) => Some((Frame::File { id, name: s, size, hash }, rest)),
                                None => None,
                            },
                            None => None,
                        }
                    }
                },
                None => None,
            },
            None => None,
        }
    } else if kind == 2 || kind == 3 || kind == 4 {
        match MessageId::take(b) {
            Some((id, rest)) => match MessageId::take(rest) {
                Some((target, rest)) => {
                    if kind == 3 {
                        Some((Frame::Delete { id, target }, rest))
                    } else {
                        match codec::take_string(rest) {
                            Some((s, rest)) => {
                                if kind == 2 {
                                    Some((Frame::Edit { id, target, body: s }, rest))
                                } else {
                                    match codec::take_flag(rest) {
                                        Some((on, rest)) => Some(
                                            (Frame::React { id, target, emoji: s, on }, rest),
                                        ),
                                        None => None,
                                    }
                                }
                            },
                            None => None,
                        }
                    }
                },
                None => None,
            },
            None => None,
        }
    } else if kind == 7 {
        match codec::take_array::<32>(b) {
            Some((room, rest)) => match take_log(rest) {
                Some((log, rest)) => Some((Frame::RoomUpdated { room, log }, rest)),
                None => None,
            },
            None => None,
        }
    } else {
        None
    }
}

/// Reads what follows the body of a chat message.
fn take_chat_tail(id: MessageId, body: String, b: &[u8]) -> (r: Option<(Frame, &[u8])>)
    ensures
        r is Some <==> read_maybe_id(b@) is Some,
        r is Some ==> (r->0).0@ == (FrameView::Chat { id, body: body@, reply_to: (read_maybe_id(b@)->0).0 })
            && (r->0).1@ == (read_maybe_id(b@)->0).1,
{
    match codec::take_flag(b) {
        Some((some, rest)) => {
            if some {
                match MessageId::take(rest) {
                    Some((target, rest)) => Some((Frame::Chat { id, body, reply_to: Some(target) }, rest)),
                    None => None,
                }
            } else {
                Some((Frame::Chat { id, body, reply_to: None }, rest))
            }
        },
        None => None,
    }
}

/// A 32-bit little-endian length, then the payload. The length prefix is what
/// makes a byte stream carry discrete messages.
pub fn encode(frame: &Frame) -> (r: Result<Vec<u8>, WireError>)
    ensures
        frame@.encoded().len() <= MAX_FRAME ==> r is Ok && r->Ok_0@ == framed(frame@),
        frame@.encoded().len() > MAX_FRAME ==> r is Err && r->Err_0 == WireError::TooLong(
            frame@.encoded().len() as usize,
        ),
        r is Ok ==> decoded(r->Ok_0@.skip(4)) == Some(frame@),
{
    let body = payload(frame);
    if body.len() > MAX_FRAME {
        return Err(WireError::TooLong(body.len()));
    }
    let mut out = vstd::bytes::u32_to_le_bytes(body.len() as u32);
    out.extend_from_slice(&body);
    proof {
        assert(out@.skip(4) =~= body@);
        lemma_frame_fits(frame@);
        lemma_frame_roundtrip(frame@, Seq::empty());
        assert(body@ + Seq::<u8>::empty() =~= body@);
    }
    Ok(out)
}

/// A frame with its length in front.
pub open spec fn framed(f: FrameView) -> Seq<u8> {
    vstd::bytes::spec_u32_to_le_bytes(f.encoded().len() as u32) + f.encoded()
}

/// Puts a frame behind what a stream holds. A frame that is over the cap is not
/// written at all.
pub fn write_frame(stream: &mut Vec<u8>, frame: &Frame) -> (r: Result<(), WireError>)
    ensures
        frame@.encoded().len() <= MAX_FRAME ==> r is Ok && final(stream)@ == old(stream)@ + framed(frame@),
        frame@.encoded().len() > MAX_FRAME ==> r is Err && r->Err_0 == WireError::TooLong(
            frame@.encoded().len() as usize,
        ) && final(stream)@ == old(stream)@,
{
    match encode(frame) {
        Ok(bytes) => {
            stream.extend_from_slice(&bytes);
            Ok(())
        },
        Err(e) => Err(e),
    }
}

/// The frame that a payload holds. Bytes behind the frame are passed over.
pub open spec fn decoded(payload: Seq<u8>) -> Option<FrameView> {
    match read(payload) {
        Some((f, _)) => Some(f),
        None => None,
    }
}

/// Computes [`decoded`].
pub fn decode(payload: &[u8]) -> (r: Result<Frame, WireError>)
    ensures
        match decoded(payload@) {
            Some(f) => r is Ok && r->Ok_0@ == f,
            None => r is Err && r->Err_0 == WireError::Malformed,
        },
{
    match take(payload) {
        Some((frame, _)) => Ok(frame),
        None => Err(WireError::Malformed),
    }
}

/// The length that a frame's prefix announces. Checked before anything is
/// allocated: an unauthenticated peer must not be able to make us reserve a
/// gigabyte by sending four bytes.
pub fn announced(prefix: &[u8; 4]) -> (r: Result<usize, WireError>)
    ensures
        match announced_len(prefix@) {
            Ok(n) => r is Ok && r->Ok_0 == n,
            Err(e) => r is Err && r->Err_0 == e,
        },
{
    let len: u32 = vstd::bytes::u32_from_le_bytes(prefix);
    if len as usize > MAX_FRAME {
        return Err(WireError::Announced(len as usize));
    }
    Ok(len as usize)
}

/// The length that four bytes announce, if it is within the cap.
pub open spec fn announced_len(prefix: Seq<u8>) -> Result<nat, WireError> {
    let len = vstd::bytes::spec_u32_from_le_bytes(prefix);
    if len > MAX_FRAME {
        Err(WireError::Announced(len as usize))
    } else {
        Ok(len as nat)
    }
}

/// What a stream that ends after `b` holds next: a frame and what follows it,
/// nothing more, or a fault.
pub open spec fn next(b: Seq<u8>) -> Result<Option<(FrameView, Seq<u8>)>, WireError> {
    if b.len() == 0 {
        Ok(None)
    } else if b.len() < 4 {
        Err(WireError::CutShort)
    } else {
        match announced_len(b.take(4)) {
            Err(e) => Err(e),
            Ok(n) => if b.len() - 4 < n {
                Err(WireError::CutShort)
            } else {
                match decoded(b.subrange(4, 4 + n as int)) {
                    Some(f) => Ok(Some((f, b.skip(4 + n as int)))),
                    None => Err(WireError::Malformed),
                }
            },
        }
    }
}

/// Takes the next frame off a stream that is at hand in full. `Ok(None)` is a
/// clean end, so callers can tell a peer that hung up from one that sent
/// garbage. A stream that breaks off inside a frame, its length included, did
/// not end cleanly.
pub fn read_frame(b: &[u8]) -> (r: Result<Option<(Frame, &[u8])>, WireError>)
    ensures
        match next(b@) {
            Ok(Some((f, rest))) => r is Ok && r->Ok_0 is Some && (r->Ok_0->0).0@ == f && (r->Ok_0->0).1@ == rest,
            Ok(None) => r is Ok && r->Ok_0 is None,
            Err(e) => r is Err && r->Err_0 == e,
        },
{
    if b.len() == 0 {
        return Ok(None);
    }
    if b.len() < 4 {
        return Err(WireError::CutShort);
    }
    let prefix: [u8; 4] = bytes::array_from::<4>(b);
    assert(prefix@ =~= b@.take(4));
    let len = match announced(&prefix) {
        Ok(len) => len,
        Err(e) => return Err(e),
    };
    if b.len() - 4 < len {
        return Err(WireError::CutShort);
    }
    let body = vstd::slice::slice_subrange(b, 4, 4 + len);
    let rest = vstd::slice::slice_subrange(b, 4 + len, b.len());
    assert(rest@ =~= b@.skip(4 + len));
    match decode(body) {
        Ok(frame) => Ok(Some((frame, rest))),
        Err(e) => Err(e),
    }
}

/// Frames written one after the other are read one after the other: the next
/// frame of a stream that starts with a framed one is that frame, and what
/// follows is left for the next read.
pub proof fn law_streams_carry_frames(f: FrameView, rest: Seq<u8>)
    requires
        f.encoded().len() <= MAX_FRAME,
    ensures
        next(framed(f) + rest) == Ok::<Option<(FrameView, Seq<u8>)>, WireError>(Some((f, rest))),
{
    let n = f.encoded().len();
    let prefix = vstd::bytes::spec_u32_to_le_bytes(n as u32);
    vstd::bytes::lemma_auto_spec_u32_to_from_le_bytes();
    let b = framed(f) + rest;
    assert(b.take(4) =~= prefix);
    assert(b.subrange(4, 4 + n as int) =~= f.encoded());
    assert(b.skip(4 + n as int) =~= rest);
    lemma_frame_fits(f);
    lemma_frame_roundtrip(f, Seq::empty());
    assert(f.encoded() + Seq::<u8>::empty() =~= f.encoded());
}

/// A stream that ends between two frames ends cleanly.
pub proof fn law_clean_end()
    ensures
        next(Seq::empty()) == Ok::<Option<(FrameView, Seq<u8>)>, WireError>(None),
{
}

/// Two frames with the same payload are the same frame.
pub proof fn law_encoding_is_injective(a: FrameView, b: FrameView)
    requires
        a.encoded() == b.encoded(),
        a.encoded().len() <= MAX_FRAME,
    ensures
        a == b,
{
    lemma_frame_fits(a);
    lemma_frame_fits(b);
    lemma_frame_roundtrip(a, Seq::empty());
    lemma_frame_roundtrip(b, Seq::empty());
}

/// The ids that a counter hands out at these times, one after the other.
pub open spec fn minted(sender: [u8; 32], used: u64, clock: Seq<u64>) -> Seq<MessageId>
    decreases clock.len(),
{
    if clock.len() == 0 {
        Seq::empty()
    } else {
        seq![MessageId { sender, seq: (used + 1) as u64, ts_ms: clock[0] }] + minted(
            sender,
            (used + 1) as u64,
            clock.skip(1),
        )
    }
}

/// Whatever the clock does, the ids of one counter are strictly increasing, and
/// so no two of them are the same; and a counter resumed from the last number
/// used goes on above all of them.
pub proof fn law_ids_increase(sender: [u8; 32], used: u64, clock: Seq<u64>)
    requires
        used + clock.len() <= u64::MAX,
    ensures
        minted(sender, used, clock).len() == clock.len(),
        forall|i: int| 0 <= i < clock.len() ==> used < (#[trigger] minted(sender, used, clock)[i]).seq <= used
            + clock.len(),
        forall|i: int, j: int|
            0 <= i < j < clock.len() ==> (#[trigger] minted(sender, used, clock)[i]).seq < (#[trigger] minted(
                sender,
                used,
                clock,
            )[j]).seq,
    decreases clock.len(),
{
    if clock.len() > 0 {
        law_ids_increase(sender, (used + 1) as u64, clock.skip(1));
        let all = minted(sender, used, clock);
        let later = minted(sender, (used + 1) as u64, clock.skip(1));
        assert forall|i: int| 0 <= i < clock.len() implies used < (#[trigger] all[i]).seq <= used
            + clock.len() by {
            if i > 0 {
                assert(all[i] == later[i - 1]);
            }
        }
        assert forall|i: int, j: int| 0 <= i < j < clock.len() implies (#[trigger] all[i]).seq
            < (#[trigger] all[j]).seq by {
            assert(all[j] == later[j - 1]);
            if i > 0 {
                assert(all[i] == later[i - 1]);
            }
        }
    }
}

/// An op addressed to a room keeps the id it was minted under, belongs to the
/// room whoever carries it, and is the same op once unwrapped; any other op
/// belongs to the peer that carried it.
pub proof fn law_room_ops_keep_their_identity(room: [u8; 32], op: FrameView, peer: [u8; 32])
    ensures
        ({
            let wrapped = FrameView::InRoom { room, op: Box::new(op) };
            &&& wrapped.id() == op.id()
            &&& wrapped.conversation(peer) == room
            &&& wrapped.unwrapped() == op
        }),
        !(op is InRoom) ==> op.conversation(peer) == peer && op.unwrapped() == op,
{
}

/// A stream that ends inside a frame is a fault, wherever it is cut.
pub proof fn law_cut_frames_are_faults(f: FrameView, n: int)
    requires
        f.encoded().len() <= 1024 * 1024,
        0 < n < framed(f).len(),
    ensures
        next(framed(f).take(n)) == Err::<Option<(FrameView, Seq<u8>)>, WireError>(WireError::CutShort),
{
    vstd::bytes::lemma_auto_spec_u32_to_from_le_bytes();
    let cut = framed(f).take(n);
    if n >= 4 {
        assert(cut.take(4) =~= vstd::bytes::spec_u32_to_le_bytes(f.encoded().len() as u32));
    }
}

/// Frames of up to a mebibyte are carried, and a longer one is refused before any
/// of it is read.
pub proof fn law_the_cap_is_a_mebibyte(len: u32, rest: Seq<u8>)
    ensures
        announced_len(vstd::bytes::spec_u32_to_le_bytes(len)) == (if len <= 1024 * 1024 {
            Ok::<nat, WireError>(len as nat)
        } else {
            Err::<nat, WireError>(WireError::Announced(len as usize))
        }),
        len > 1024 * 1024 ==> next(vstd::bytes::spec_u32_to_le_bytes(len) + rest) == Err::<
            Option<(FrameView, Seq<u8>)>,
            WireError,
        >(WireError::Announced(len as usize)),
        MAX_FRAME == 1024 * 1024,
{
    vstd::bytes::lemma_auto_spec_u32_to_from_le_bytes();
    let b = vstd::bytes::spec_u32_to_le_bytes(len);
    assert((b + rest).take(4) =~= b);
}

/// A stream of frames reads back frame by frame, in order, with nothing left.
pub proof fn law_streams_carry_many_frames(f: FrameView, g: FrameView)
    requires
        f.encoded().len() <= 1024 * 1024,
        g.encoded().len() <= 1024 * 1024,
    ensures
        next(framed(f) + framed(g)) == Ok::<Option<(FrameView, Seq<u8>)>, WireError>(Some((f, framed(g)))),
        next(framed(g)) == Ok::<Option<(FrameView, Seq<u8>)>, WireError>(Some((g, Seq::<u8>::empty()))),
{
    law_streams_carry_frames(f, framed(g));
    law_streams_carry_frames(g, Seq::empty());
    assert(framed(g) + Seq::<u8>::empty() =~= framed(g));
}

/// Every frame that says or changes something has an id, a hello and a room's log
/// have none.
pub proof fn law_ops_have_ids(
    id: MessageId,
    target: MessageId,
    s: Seq<char>,
    on: bool,
    size: u64,
    hash: [u8; 32],
    log: Seq<room::EntryView>,
)
    ensures
        (FrameView::Chat { id, body: s, reply_to: None }).id() == Some(id),
        (FrameView::Chat { id, body: s, reply_to: Some(target) }).id() == Some(id),
        (FrameView::Edit { id, target, body: s }).id() == Some(id),
        (FrameView::Delete { id, target }).id() == Some(id),
        (FrameView::React { id, target, emoji: s, on }).id() == Some(id),
        (FrameView::File { id, name: s, size, hash }).id() == Some(id),
        (FrameView::Hello { nickname: s }).id() is None,
        (FrameView::RoomUpdated { room: hash, log }).id() is None,
{
}

/// A payload holds the frame that it begins with, whatever follows it, and no
/// other.
pub proof fn law_payloads_hold_what_they_begin_with(f: FrameView, rest: Seq<u8>, g: FrameView)
    requires
        f.encoded().len() <= usize::MAX,
    ensures
        decoded(f.encoded() + rest) == Some(f),
        decoded(f.encoded()) == Some(f),
        g.encoded().len() <= usize::MAX && decoded(g.encoded()) == decoded(f.encoded()) ==> g == f,
{
    lemma_frame_fits(f);
    lemma_frame_roundtrip(f, rest);
    lemma_frame_roundtrip(f, Seq::empty());
    assert(f.encoded() + Seq::<u8>::empty() =~= f.encoded());
    if g.encoded().len() <= usize::MAX {
        lemma_frame_fits(g);
        lemma_frame_roundtrip(g, Seq::empty());
        assert(g.encoded() + Seq::<u8>::empty() =~= g.encoded());
    }
}

} // verus!
