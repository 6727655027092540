//! The local message store: every operation sealed under the same
//! passphrase-derived key as the identity file.
//!
//! One table holds every op (a message, an edit, a delete, a reaction), keyed by
//! its own [`MessageId`]. That makes replay idempotent for free, and it keeps
//! who-replied-to-what inside the sealed payload instead of in an indexable
//! column.

use crate::room::{Room, RoomEntry, RoomError, RoomId};
use crate::table::Table;
use crate::vault::{VaultError, VaultKey};
use crate::wire::{Counter, Frame, FrameView, MessageId};
use crate::{bytes, codec, crypto, room, table, text, vault, wire};
use vstd::prelude::*;

verus! {

/// One op: its id, the other end of the conversation, and the sealed frame.
pub struct OpRow {
    pub id: MessageId,
    pub peer: [u8; 32],
    pub payload: Vec<u8>,
}

/// Why the store cannot be read or written.
#[derive(Clone, Copy, Debug, PartialEq, Eq, Structural)]
pub enum StoreError {
    /// A payload does not open, or nothing can be sealed.
    Vault(VaultError),
    /// A payload opens to something that does not decode.
    Malformed,
    /// A room's log does not hold up.
    Room(RoomError),
    /// A room's log is that of another room.
    Misfiled,
}

impl StoreError {
    /// The text of the error, for the store in `file`. A payload that does not
    /// open was sealed under another key. The passphrase is not to blame: it has
    /// just opened the identity.
    pub open spec fn text(self, file: Seq<char>) -> Seq<char> {
        match self {
            StoreError::Vault(VaultError::Refused) => file
                + " is sealed under another key; remove the directory to start over"@,
            StoreError::Vault(e) => file + ": "@ + e.text(),
            StoreError::Malformed => file + ": "@ + "message store holds a malformed payload"@,
            StoreError::Room(e) => file + ": "@ + e.text(),
            StoreError::Misfiled => file + ": "@ + "message store holds a room under another room's id"@,
        }
    }

    /// Computes [`StoreError::text`].
    pub fn message(&self, file: &str) -> (r: String)
        ensures
            r@ == self.text(file@),
    {
        let reason = match self {
            StoreError::Vault(VaultError::Refused) => {
                return file.to_owned().concat(" is sealed under another key; remove the directory to start over");
            },
            StoreError::Vault(e) => e.message(),
            StoreError::Malformed => "message store holds a malformed payload".to_owned(),
            StoreError::Room(e) => e.message(),
            StoreError::Misfiled => "message store holds a room under another room's id".to_owned(),
        };
        file.to_owned().concat(": ").concat(reason.as_str())
    }
}

/// Whether an error is one that sealing `len` bytes can end in: the random
/// generator failed, or they are too many.
pub open spec fn seal_failed(e: StoreError, len: int) -> bool {
    ||| e == StoreError::Vault(VaultError::RngUnavailable)
    ||| e == StoreError::Vault(VaultError::Encryption) && !crypto::sealable(len)
}

/// A message as it stands, with all that was done to it.
#[derive(Debug, PartialEq, Eq)]
pub struct Message {
    pub id: MessageId,
    pub body: String,
    /// True when this endpoint sent it.
    pub outbound: bool,
    pub deleted: bool,
    pub reply_to: Option<MessageId>,
    /// `(emoji, count, whether this endpoint is one of them)`.
    pub reactions: Vec<(String, usize, bool)>,
}

/// How often a message got a reaction, and whether from this endpoint.
#[verifier::ext_equal]
pub struct Slot {
    pub emoji: Seq<char>,
    pub count: nat,
    pub mine: bool,
}

/// A message as mathematical values.
#[verifier::ext_equal]
pub struct MessageView {
    pub id: MessageId,
    pub body: Seq<char>,
    pub outbound: bool,
    pub deleted: bool,
    pub reply_to: Option<MessageId>,
    pub reactions: Seq<Slot>,
}

/// Reaction counts as mathematical values.
pub open spec fn slots_view(reactions: Seq<(String, usize, bool)>) -> Seq<Slot> {
    reactions.map_values(|r: (String, usize, bool)| Slot { emoji: r.0@, count: r.1 as nat, mine: r.2 })
}

impl View for Message {
    type V = MessageView;

    open spec fn view(&self) -> MessageView {
        MessageView {
            id: self.id,
            body: self.body@,
            outbound: self.outbound,
            deleted: self.deleted,
            reply_to: self.reply_to,
            reactions: slots_view(self.reactions@),
        }
    }
}

/// Messages as mathematical values.
pub open spec fn messages_view(messages: Seq<Message>) -> Seq<MessageView> {
    messages.map_values(|m: Message| m@)
}

/// The state of one peer's reaction to one message with one emoji, and the op
/// that settled it.
pub struct Reaction {
    pub target: MessageId,
    pub emoji: String,
    pub reactor: [u8; 32],
    pub on: bool,
    pub at: MessageId,
}

/// A reaction as mathematical values.
#[verifier::ext_equal]
pub struct ReactionView {
    pub target: MessageId,
    pub emoji: Seq<char>,
    pub reactor: [u8; 32],
    pub on: bool,
    pub at: MessageId,
}

impl View for Reaction {
    type V = ReactionView;

    open spec fn view(&self) -> ReactionView {
        ReactionView {
            target: self.target,
            emoji: self.emoji@,
            reactor: self.reactor,
            on: self.on,
            at: self.at,
        }
    }
}

/// Reactions as mathematical values.
pub open spec fn reactions_view(reactions: Seq<Reaction>) -> Seq<ReactionView> {
    reactions.map_values(|r: Reaction| r@)
}

/// Whether `a` is shown before `b`: wall clock first, then sequence number,
/// both as signed numbers, which is how they are stored.
pub open spec fn earlier(a: MessageId, b: MessageId) -> bool {
    (a.ts_ms as i64) < (b.ts_ms as i64) || (a.ts_ms as i64 == b.ts_ms as i64 && (a.seq as i64) < (b.seq as i64))
}

/// Whether one sender made the op `a` before the op `b`. The sequence number
/// decides, the clock only between ids that share one: a sender that lost its
/// store counts anew.
pub open spec fn made_before(a: MessageId, b: MessageId) -> bool {
    a.seq < b.seq || (a.seq == b.seq && a.ts_ms < b.ts_ms)
}

/// `rows` with `row` behind all that are not later.
pub open spec fn placed(rows: Seq<OpRow>, row: OpRow) -> Seq<OpRow>
    decreases rows.len(),
{
    if rows.len() == 0 || !earlier(row.id, rows.last().id) {
        rows.push(row)
    } else {
        placed(rows.drop_last(), row).push(rows.last())
    }
}

/// The ops of one conversation, in the order in which they are shown.
pub open spec fn timeline(rows: Seq<OpRow>, peer: [u8; 32]) -> Seq<OpRow>
    decreases rows.len(),
{
    if rows.len() == 0 {
        Seq::empty()
    } else if rows.last().peer == peer {
        placed(timeline(rows.drop_last(), peer), rows.last())
    } else {
        timeline(rows.drop_last(), peer)
    }
}

/// The frame in a sealed payload.
pub open spec fn opened_frame(key: Seq<u8>, payload: Seq<u8>) -> Result<FrameView, StoreError> {
    match vault::opened(key, payload) {
        Err(e) => Err(StoreError::Vault(e)),
        Ok(b) => match wire::decoded(b) {
            Some(f) => Ok(f),
            None => Err(StoreError::Malformed),
        },
    }
}

/// The frames of `rows` under their ids, or the fault of the first that does
/// not open.
pub open spec fn opened_ops(key: Seq<u8>, rows: Seq<OpRow>) -> Result<Seq<(MessageId, FrameView)>, StoreError>
    decreases rows.len(),
{
    if rows.len() == 0 {
        Ok(Seq::empty())
    } else {
        match opened_ops(key, rows.drop_last()) {
            Err(e) => Err(e),
            Ok(ops) => match opened_frame(key, rows.last().payload@) {
                Err(e) => Err(e),
                Ok(f) => Ok(ops.push((rows.last().id, f))),
            },
        }
    }
}

/// The chat messages among the ops, as they were written.
pub open spec fn written(ops: Seq<(MessageId, FrameView)>, me: [u8; 32]) -> Seq<MessageView>
    decreases ops.len(),
{
    if ops.len() == 0 {
        Seq::empty()
    } else {
        let before = written(ops.drop_last(), me);
        let id = ops.last().0;
        match ops.last().1 {
            FrameView::Chat { body, reply_to, .. } => before.push(
                MessageView {
                    id,
                    body,
                    outbound: id.sender == me,
                    deleted: false,
                    reply_to,
                    reactions: Seq::empty(),
                },
            ),
            _ => before,
        }
    }
}

/// Whether an op edits or deletes a message. It does only when its sender is
/// the author of the message, who made it after the message.
pub open spec fn touches(id: MessageId, op: FrameView, target: MessageId) -> bool {
    &&& match op {
        FrameView::Edit { target: t, .. } => t == target,
        FrameView::Delete { target: t, .. } => t == target,
        _ => false,
    }
    &&& target.sender == id.sender
    &&& made_before(target, id)
}

/// The edit or delete that says how a message reads: of those that touch it,
/// the one that its author made last.
pub open spec fn deciding(ops: Seq<(MessageId, FrameView)>, target: MessageId) -> Option<(MessageId, FrameView)>
    decreases ops.len(),
{
    if ops.len() == 0 {
        None
    } else {
        let before = deciding(ops.drop_last(), target);
        let op = ops.last();
        if touches(op.0, op.1, target) && (before matches Some(b) ==> !made_before(op.0, b.0)) {
            Some(op)
        } else {
            before
        }
    }
}

/// Whether a message is deleted.
pub open spec fn removed(ops: Seq<(MessageId, FrameView)>, target: MessageId) -> bool
    decreases ops.len(),
{
    ops.len() > 0 && (removed(ops.drop_last(), target) || (touches(ops.last().0, ops.last().1, target)
        && ops.last().1 is Delete))
}

/// The text that an edit or a delete leaves.
pub open spec fn text_left(op: FrameView) -> Seq<char> {
    match op {
        FrameView::Edit { body, .. } => body,
        _ => Seq::empty(),
    }
}

/// A message as the ops leave it, without reactions.
pub open spec fn amended(m: MessageView, ops: Seq<(MessageId, FrameView)>) -> MessageView {
    MessageView {
        body: match deciding(ops, m.id) {
            Some(op) => text_left(op.1),
            None => m.body,
        },
        deleted: removed(ops, m.id),
        ..m
    }
}

/// Whether `r` is about this peer's reaction to this message with this emoji.
pub open spec fn concerns(r: ReactionView, target: MessageId, emoji: Seq<char>, reactor: [u8; 32]) -> bool {
    r.target == target && r.emoji == emoji && r.reactor == reactor
}

/// The reactions with one of them settled: of its reactor's ops, the one made
/// last wins.
pub open spec fn settled(reactions: Seq<ReactionView>, new: ReactionView) -> Seq<ReactionView>
    decreases reactions.len(),
{
    if reactions.len() == 0 {
        seq![new]
    } else if concerns(reactions[0], new.target, new.emoji, new.reactor) {
        if made_before(new.at, reactions[0].at) {
            reactions
        } else {
            reactions.update(0, new)
        }
    } else {
        seq![reactions[0]] + settled(reactions.skip(1), new)
    }
}

/// What an op makes of the reactions.
pub open spec fn reaction_step(reactions: Seq<ReactionView>, id: MessageId, op: FrameView) -> Seq<ReactionView> {
    match op {
        FrameView::React { target, emoji, on, .. } => settled(
            reactions,
            ReactionView { target, emoji, reactor: id.sender, on, at: id },
        ),
        _ => reactions,
    }
}

/// The reactions that ops amount to.
pub open spec fn reacted(ops: Seq<(MessageId, FrameView)>) -> Seq<ReactionView>
    decreases ops.len(),
{
    if ops.len() == 0 {
        Seq::empty()
    } else {
        reaction_step(reacted(ops.drop_last()), ops.last().0, ops.last().1)
    }
}

/// Counts one more reaction with `emoji`. Slots are in the order of emoji.
pub open spec fn counted(slots: Seq<Slot>, emoji: Seq<char>, mine: bool) -> Seq<Slot>
    decreases slots.len(),
{
    if slots.len() == 0 {
        seq![Slot { emoji, count: 1, mine }]
    } else if slots[0].emoji == emoji {
        slots.update(0, Slot { emoji, count: slots[0].count + 1, mine: slots[0].mine || mine })
    } else if text::precedes(emoji, slots[0].emoji) {
        seq![Slot { emoji, count: 1, mine }] + slots
    } else {
        seq![slots[0]] + counted(slots.skip(1), emoji, mine)
    }
}

/// The reactions to one message, counted by emoji.
pub open spec fn tally(reactions: Seq<ReactionView>, target: MessageId, me: [u8; 32]) -> Seq<Slot>
    decreases reactions.len(),
{
    if reactions.len() == 0 {
        Seq::empty()
    } else {
        let before = tally(reactions.drop_last(), target, me);
        let r = reactions.last();
        if r.target == target && r.on {
            counted(before, r.emoji, r.reactor == me)
        } else {
            before
        }
    }
}

/// The conversation that ops amount to: the messages in the order of the ops,
/// each as its author's ops leave it.
pub open spec fn conversation(ops: Seq<(MessageId, FrameView)>, me: [u8; 32]) -> Seq<MessageView> {
    written(ops, me).map_values(
        |m: MessageView| MessageView { reactions: tally(reacted(ops), m.id, me), ..amended(m, ops) },
    )
}

/// The last `limit` of a sequence.
pub open spec fn newest<T>(s: Seq<T>, limit: nat) -> Seq<T> {
    if s.len() > limit {
        s.skip(s.len() - limit)
    } else {
        s
    }
}

/// Where `row` belongs: behind position `p`, in front of all that are later.
proof fn lemma_placed(rows: Seq<OpRow>, row: OpRow, p: int)
    requires
        0 <= p <= rows.len(),
        forall|k: int| p <= k < rows.len() ==> earlier(row.id, (#[trigger] rows[k]).id),
        p > 0 ==> !earlier(row.id, rows[p - 1].id),
    ensures
        placed(rows, row) == rows.insert(p, row),
    decreases rows.len(),
{
    if p == rows.len() {
        assert(rows.insert(p, row) =~= rows.push(row));
    } else {
        lemma_placed(rows.drop_last(), row, p);
        assert(rows.insert(p, row) =~= rows.drop_last().insert(p, row).push(rows.last()));
    }
}

/// Decides [`earlier`].
fn is_earlier(a: &MessageId, b: &MessageId) -> (r: bool)
    ensures
        r == earlier(*a, *b),
{
    let (at, bt): (i64, i64) = (a.ts_ms as i64, b.ts_ms as i64);
    let (an, bn): (i64, i64) = (a.seq as i64, b.seq as i64);
    at < bt || (at == bt && an < bn)
}

/// Decides [`made_before`].
fn is_made_before(a: &MessageId, b: &MessageId) -> (r: bool)
    ensures
        r == made_before(*a, *b),
{
    a.seq < b.seq || (a.seq == b.seq && a.ts_ms < b.ts_ms)
}

/// The rows that indices pick.
pub open spec fn picked(rows: Seq<OpRow>, order: Seq<usize>) -> Seq<OpRow> {
    order.map_values(|i: usize| rows[i as int])
}

/// Computes [`timeline`] as indices into the rows.
fn order_of(rows: &Vec<OpRow>, peer: &[u8; 32]) -> (order: Vec<usize>)
    ensures
        forall|k: int| 0 <= k < order@.len() ==> (#[trigger] order@[k]) < rows@.len(),
        picked(rows@, order@) == timeline(rows@, *peer),
{
    let mut order: Vec<usize> = Vec::new();
    let mut i: usize = 0;
    assert(picked(rows@, order@) =~= timeline(rows@.take(0), *peer));
    while i < rows.len()
        invariant
            i <= rows@.len(),
            forall|k: int| 0 <= k < order@.len() ==> (#[trigger] order@[k]) < i,
            picked(rows@, order@) == timeline(rows@.take(i as int), *peer),
        decreases rows@.len() - i,
    {
        let row = &rows[i];
        proof {
            assert(rows@.take(i + 1).drop_last() =~= rows@.take(i as int));
        }
        if bytes::same32(&row.peer, peer) {
            let mut p: usize = order.len();
            while p > 0 && is_earlier(&row.id, &rows[order[p - 1]].id)
                invariant
                    i < rows@.len(),
                    *row == rows@[i as int],
                    p <= order@.len(),
                    forall|k: int| 0 <= k < order@.len() ==> (#[trigger] order@[k]) < i,
                    forall|k: int| p <= k < order@.len() ==> earlier(row.id, rows@[#[trigger] order@[k] as int].id),
                decreases p,
            {
                p = p - 1;
            }
            proof {
                lemma_placed(picked(rows@, order@), *row, p as int);
                assert(picked(rows@, order@.insert(p as int, i)) =~= picked(rows@, order@).insert(
                    p as int,
                    *row,
                ));
            }
            order.insert(p, i);
        }
        i = i + 1;
    }
    assert(rows@.take(i as int) =~= rows@);
    order
}

/// Ops as mathematical values.
pub open spec fn ops_view(ops: Seq<(MessageId, Frame)>) -> Seq<(MessageId, FrameView)> {
    ops.map_values(|op: (MessageId, Frame)| (op.0, op.1@))
}

/// Computes [`written`].
fn written_of(ops: &Vec<(MessageId, Frame)>, me: &[u8; 32]) -> (messages: Vec<Message>)
    ensures
        messages_view(messages@) == written(ops_view(ops@), *me),
{
    let ghost all = ops_view(ops@);
    let mut messages: Vec<Message> = Vec::new();
    let mut i: usize = 0;
    assert(messages_view(messages@) =~= written(all.take(0), *me));
    while i < ops.len()
        invariant
            i <= ops@.len(),
            all == ops_view(ops@),
            messages_view(messages@) == written(all.take(i as int), *me),
        decreases ops@.len() - i,
    {
        let ghost before = messages_view(messages@);
        let id: MessageId = ops[i].0;
        proof {
            assert(all.take(i + 1).drop_last() =~= all.take(i as int));
            assert(all.take(i + 1).last() == (id, ops@[i as int].1@));
        }
        if let Frame::Chat { body, reply_to, .. } = &ops[i].1 {
            let outbound = bytes::same32(&id.sender, me);
            let m = Message {
                id,
                body: body.clone(),
                outbound,
                deleted: false,
                reply_to: *reply_to,
                reactions: Vec::new(),
            };
            assert(m@.reactions =~= Seq::empty());
            messages.push(m);
            assert(messages_view(messages@) =~= before.push(m@));
        }
        i = i + 1;
    }
    assert(all.take(i as int) =~= all);
    messages
}

/// What one more op makes of a message, and of which op decides how it reads.
pub open spec fn amended_by(m: MessageView, at: Option<MessageId>, id: MessageId, op: FrameView) -> (
    MessageView,
    Option<MessageId>,
) {
    if touches(id, op, m.id) {
        let m = MessageView { deleted: m.deleted || op is Delete, ..m };
        if at matches Some(b) && made_before(id, b) {
            (m, at)
        } else {
            (MessageView { body: text_left(op), ..m }, Some(id))
        }
    } else {
        (m, at)
    }
}

/// Which op decides how a message reads.
pub open spec fn decided_at(ops: Seq<(MessageId, FrameView)>, target: MessageId) -> Option<MessageId> {
    match deciding(ops, target) {
        Some(op) => Some(op.0),
        None => None,
    }
}

proof fn lemma_amended_by(m: MessageView, ops: Seq<(MessageId, FrameView)>, id: MessageId, op: FrameView)
    requires
        !m.deleted,
    ensures
        amended_by(amended(m, ops), decided_at(ops, m.id), id, op) == (
            amended(m, ops.push((id, op))),
            decided_at(ops.push((id, op)), m.id),
        ),
{
    let more = ops.push((id, op));
    assert(more.drop_last() =~= ops);
    assert(more.last() == (id, op));
}

/// Computes [`amended_by`] for each message.
fn amend(messages: &mut Vec<Message>, at: &mut Vec<Option<MessageId>>, id: &MessageId, frame: &Frame)
    requires
        old(messages)@.len() == old(at)@.len(),
    ensures
        final(messages)@.len() == old(messages)@.len(),
        final(at)@.len() == old(at)@.len(),
        forall|i: int|
            0 <= i < old(messages)@.len() ==> ((#[trigger] final(messages)@[i])@, final(at)@[i]) == amended_by(
                old(messages)@[i]@,
                old(at)@[i],
                *id,
                frame@,
            ),
{
    let (target, delete): (MessageId, bool) = match frame {
        Frame::Edit { target, .. } => (*target, false),
        Frame::Delete { target, .. } => (*target, true),
        _ => return,
    };
    if !bytes::same32(&target.sender, &id.sender) || !is_made_before(&target, id) {
        return;
    }
    let mut i: usize = 0;
    while i < messages.len()
        invariant
            i <= messages@.len(),
            messages@.len() == old(messages)@.len(),
            at@.len() == messages@.len(),
            old(at)@.len() == messages@.len(),
            delete == (frame@ is Delete),
            frame@ is Edit || frame@ is Delete,
            forall|t: MessageId| #[trigger] touches(*id, frame@, t) == (t == target),
            forall|k: int|
                0 <= k < i ==> ((#[trigger] messages@[k])@, at@[k]) == amended_by(
                    old(messages)@[k]@,
                    old(at)@[k],
                    *id,
                    frame@,
                ),
            forall|k: int| i <= k < messages@.len() ==> (#[trigger] messages@[k]) == old(messages)@[k],
            forall|k: int| i <= k < messages@.len() ==> (#[trigger] at@[k]) == old(at)@[k],
        decreases messages@.len() - i,
    {
        let ghost was = messages@[i as int]@;
        let ghost (before, before_at) = (messages@, at@);
        if messages[i].id.same(&target) {
            let newer = match &at[i] {
                Some(b) => !is_made_before(id, b),
                None => true,
            };
            if delete {
                messages[i].deleted = true;
            }
            if newer {
                let body = match frame {
                    Frame::Edit { body, .. } => body.clone(),
                    _ => String::new(),
                };
                assert(body@ =~= text_left(frame@));
                messages[i].body = body;
                at.set(i, Some(*id));
            }
        }
        proof {
            assert(touches(*id, frame@, was.id) == (was.id == target));
            assert(messages@.len() == before.len() && at@.len() == before_at.len());
            assert forall|k: int| i < k < messages@.len() implies (#[trigger] messages@[k]) == old(messages)@[k] by {
                assert(before[k] == old(messages)@[k]);
            }
            assert forall|k: int| i < k < messages@.len() implies (#[trigger] at@[k]) == old(at)@[k] by {
                assert(before_at[k] == old(at)@[k]);
            }
        }
        i = i + 1;
    }
}

/// Computes [`reaction_step`].
fn react(reactions: &mut Vec<Reaction>, id: &MessageId, frame: &Frame)
    ensures
        reactions_view(final(reactions)@) == reaction_step(reactions_view(old(reactions)@), *id, frame@),
{
    if let Frame::React { target, emoji, on, .. } = frame {
        settle(
            reactions,
            Reaction { target: *target, emoji: emoji.clone(), reactor: id.sender, on: *on, at: *id },
        );
    }
}

/// Computes [`settled`].
fn settle(reactions: &mut Vec<Reaction>, new: Reaction)
    ensures
        reactions_view(final(reactions)@) == settled(reactions_view(old(reactions)@), new@),
{
    let ghost all = reactions_view(reactions@);
    let mut i: usize = 0;
    assert(all.skip(0) =~= all);
    assert(all.take(0) + settled(all, new@) =~= settled(all, new@));
    while i < reactions.len()
        invariant
            i <= reactions@.len(),
            all == reactions_view(reactions@),
            all == reactions_view(old(reactions)@),
            settled(all, new@) == all.take(i as int) + settled(all.skip(i as int), new@),
        decreases reactions@.len() - i,
    {
        let r = &reactions[i];
        assert(all.skip(i as int)[0] == r@);
        if r.target.same(&new.target) && r.emoji == new.emoji && bytes::same32(&r.reactor, &new.reactor) {
            if is_made_before(&new.at, &r.at) {
                assert(all.take(i as int) + all.skip(i as int) =~= all);
                return;
            }
            let ghost v = new@;
            reactions[i] = new;
            proof {
                assert(reactions_view(reactions@) =~= all.take(i as int) + all.skip(i as int).update(0, v));
            }
            return;
        }
        proof {
            assert(all.skip(i as int).skip(1) =~= all.skip(i + 1));
            assert(all.take(i as int) + (seq![all[i as int]] + settled(all.skip(i + 1), new@)) =~= all.take(i + 1)
                + settled(all.skip(i + 1), new@));
        }
        i = i + 1;
    }
    let ghost v = new@;
    reactions.push(new);
    proof {
        assert(all.take(i as int) =~= all);
        assert(all.skip(i as int).len() == 0);
        assert(reactions_view(reactions@) =~= all + seq![v]);
    }
}

/// Computes [`counted`].
fn count(slots: &mut Vec<(String, usize, bool)>, emoji: &String, mine: bool)
    requires
        forall|i: int| 0 <= i < old(slots)@.len() ==> (#[trigger] old(slots)@[i]).1 < usize::MAX,
    ensures
        slots_view(final(slots)@) == counted(slots_view(old(slots)@), emoji@, mine),
{
    let ghost all = slots_view(slots@);
    let ghost goal = counted(all, emoji@, mine);
    let mut i: usize = 0;
    assert(all.skip(0) =~= all);
    assert(goal =~= all.take(0) + counted(all.skip(0), emoji@, mine));
    while i < slots.len()
        invariant
            i <= slots@.len(),
            all == slots_view(slots@),
            all == slots_view(old(slots)@),
            goal == counted(all, emoji@, mine),
            goal == all.take(i as int) + counted(all.skip(i as int), emoji@, mine),
            forall|i: int| 0 <= i < slots@.len() ==> (#[trigger] slots@[i]).1 < usize::MAX,
        decreases slots@.len() - i,
    {
        let ghost rest = all.skip(i as int);
        let ghost was = slots@;
        assert(rest[0].emoji == slots@[i as int].0@);
        if slots[i].0 == *emoji {
            slots[i].1 = slots[i].1 + 1;
            slots[i].2 = slots[i].2 || mine;
            proof {
                let s = Slot { emoji: emoji@, count: rest[0].count + 1, mine: rest[0].mine || mine };
                assert(slots_view(slots@)[i as int] == s);
                assert(slots_view(slots@) =~= all.take(i as int) + rest.update(0, s));
            }
            return;
        }
        if text::comes_before(emoji.as_str(), slots[i].0.as_str()) {
            slots.insert(i, (emoji.clone(), 1, mine));
            proof {
                let s = Slot { emoji: emoji@, count: 1, mine };
                assert(slots_view(slots@)[i as int] == s);
                assert(slots_view(slots@) =~= all.take(i as int) + (seq![s] + rest));
            }
            return;
        }
        proof {
            assert(rest.skip(1) =~= all.skip(i + 1));
            assert(all.take(i as int) + (seq![rest[0]] + counted(all.skip(i + 1), emoji@, mine)) =~= all.take(
                i + 1,
            ) + counted(all.skip(i + 1), emoji@, mine));
        }
        i = i + 1;
    }
    slots.push((emoji.clone(), 1, mine));
    proof {
        let s = Slot { emoji: emoji@, count: 1, mine };
        assert(all.take(i as int) =~= all);
        assert(all.skip(i as int).len() == 0);
        assert(slots_view(slots@).last() == s);
        assert(slots_view(slots@) =~= all + seq![s]);
    }
}

proof fn lemma_counted_bound(slots: Seq<Slot>, emoji: Seq<char>, mine: bool, bound: nat)
    requires
        forall|i: int| 0 <= i < slots.len() ==> (#[trigger] slots[i]).count <= bound,
    ensures
        forall|i: int|
            0 <= i < counted(slots, emoji, mine).len() ==> (#[trigger] counted(slots, emoji, mine)[i]).count <= bound
                + 1,
    decreases slots.len(),
{
    if slots.len() > 0 && slots[0].emoji != emoji && !text::precedes(emoji, slots[0].emoji) {
        assert forall|i: int| 0 <= i < slots.skip(1).len() implies (#[trigger] slots.skip(1)[i]).count <= bound by {
            assert(slots.skip(1)[i] == slots[i + 1]);
        }
        lemma_counted_bound(slots.skip(1), emoji, mine, bound);
    }
    let after = counted(slots, emoji, mine);
    assert forall|i: int| 0 <= i < after.len() implies (#[trigger] after[i]).count <= bound + 1 by {
        if slots.len() > 0 && slots[0].emoji != emoji && i > 0 {
            if text::precedes(emoji, slots[0].emoji) {
                assert(after[i] == slots[i - 1]);
            } else {
                assert(after[i] == counted(slots.skip(1), emoji, mine)[i - 1]);
            }
        }
    }
}

proof fn lemma_tally_bound(reactions: Seq<ReactionView>, target: MessageId, me: [u8; 32])
    ensures
        forall|i: int|
            0 <= i < tally(reactions, target, me).len() ==> (#[trigger] tally(reactions, target, me)[i]).count
                <= reactions.len(),
    decreases reactions.len(),
{
    if reactions.len() > 0 {
        let before = reactions.drop_last();
        lemma_tally_bound(before, target, me);
        let r = reactions.last();
        lemma_counted_bound(tally(before, target, me), r.emoji, r.reactor == me, before.len());
    }
}

/// Computes [`tally`].
fn tally_of(reactions: &Vec<Reaction>, target: &MessageId, me: &[u8; 32]) -> (slots: Vec<(String, usize, bool)>)
    ensures
        slots_view(slots@) == tally(reactions_view(reactions@), *target, *me),
{
    let ghost all = reactions_view(reactions@);
    let mut slots: Vec<(String, usize, bool)> = Vec::new();
    let mut i: usize = 0;
    assert(slots_view(slots@) =~= tally(all.take(0), *target, *me));
    while i < reactions.len()
        invariant
            i <= reactions@.len(),
            all == reactions_view(reactions@),
            slots_view(slots@) == tally(all.take(i as int), *target, *me),
        decreases reactions@.len() - i,
    {
        let r = &reactions[i];
        proof {
            lemma_tally_bound(all.take(i as int), *target, *me);
            assert forall|k: int| 0 <= k < slots@.len() implies (#[trigger] slots@[k]).1 < usize::MAX by {
                assert(slots_view(slots@)[k].count == slots@[k].1);
            }
            assert(all.take(i + 1).drop_last() =~= all.take(i as int));
            assert(all.take(i + 1).last() == r@);
        }
        if r.on && r.target.same(target) {
            count(&mut slots, &r.emoji, bytes::same32(&r.reactor, me));
        }
        i = i + 1;
    }
    assert(all.take(i as int) =~= all);
    slots
}

/// The store of one endpoint.
pub struct Store {
    /// Every op, in the order of arrival.
    pub ops: Vec<OpRow>,
    /// The sealed logs of rooms.
    pub rooms: Table<[u8; 32], Vec<u8>>,
    /// Sealed settings by name.
    pub settings: Vec<(String, Vec<u8>)>,
    pub vault: VaultKey,
    pub counter: Counter,
    pub me: [u8; 32],
}

/// Whether an op with this id is among the rows.
pub open spec fn recorded(rows: Seq<OpRow>, id: MessageId) -> bool {
    exists|i: int| 0 <= i < rows.len() && (#[trigger] rows[i]).id == id
}

/// The highest number that `me` has used in these rows; zero where none.
pub open spec fn highest(rows: Seq<OpRow>, me: [u8; 32]) -> u64
    decreases rows.len(),
{
    if rows.len() == 0 {
        0
    } else {
        let before = highest(rows.drop_last(), me);
        if rows.last().id.sender == me && rows.last().id.seq > before {
            rows.last().id.seq
        } else {
            before
        }
    }
}

impl Store {
    /// The key that everything is sealed under.
    pub open spec fn key(&self) -> Seq<u8> {
        self.vault@
    }

    /// This endpoint.
    pub open spec fn me(&self) -> [u8; 32] {
        self.me
    }

    /// The highest number of its own that the store knows of.
    pub open spec fn used(&self) -> u64 {
        self.counter.used()
    }

    /// Whether no id occurs twice and ids are minted for this endpoint.
    pub open spec fn wf(&self) -> bool {
        &&& self.counter.sender() == self.me
        &&& self.rooms.wf()
        &&& forall|i: int, j: int|
            0 <= i < j < self.ops@.len() ==> (#[trigger] self.ops@[i]).id != (#[trigger] self.ops@[j]).id
    }

    /// `me` is this endpoint's key; the send counter resumes from the highest
    /// number already stored, so a restart never reissues an id.
    pub fn open(
        ops: Vec<OpRow>,
        rooms: Table<[u8; 32], Vec<u8>>,
        settings: Vec<(String, Vec<u8>)>,
        vault: VaultKey,
        me: [u8; 32],
    ) -> (r: Store)
        requires
            rooms.wf(),
            forall|i: int, j: int| 0 <= i < j < ops@.len() ==> (#[trigger] ops@[i]).id != (#[trigger] ops@[j]).id,
        ensures
            r.wf(),
            r.ops == ops,
            r.rooms == rooms,
            r.settings == settings,
            r.key() == vault@,
            r.me() == me,
            r.used() == highest(ops@, me),
    {
        let mut resume: u64 = 0;
        let mut i: usize = 0;
        while i < ops.len()
            invariant
                i <= ops@.len(),
                resume == highest(ops@.take(i as int), me),
            decreases ops@.len() - i,
        {
            proof {
                assert(ops@.take(i + 1).drop_last() =~= ops@.take(i as int));
            }
            let seq: u64 = ops[i].id.seq;
            if bytes::same32(&ops[i].id.sender, &me) && seq > resume {
                resume = seq;
            }
            i = i + 1;
        }
        assert(ops@.take(i as int) =~= ops@);
        Store { ops, rooms, settings, vault, counter: Counter::new(me, resume), me }
    }

    /// The next id of this endpoint's own.
    pub fn next_id(&mut self) -> (id: MessageId)
        requires
            old(self).wf(),
            old(self).used() < u64::MAX,
        ensures
            final(self).wf(),
            final(self).ops == old(self).ops,
            final(self).rooms == old(self).rooms,
            final(self).settings == old(self).settings,
            final(self).key() == old(self).key(),
            final(self).me() == old(self).me(),
            id.sender == old(self).me(),
            id.seq == old(self).used() + 1,
            final(self).used() == id.seq,
    {
        self.counter.mint()
    }

    /// What the random generator gives for a nonce.
    fn nonce() -> (r: Result<[u8; 24], StoreError>)
        ensures
            r matches Err(e) ==> e == StoreError::Vault(VaultError::RngUnavailable),
    {
        match vault::random::<24>() {
            Ok(nonce) => Ok(nonce),
            Err(e) => Err(StoreError::Vault(e)),
        }
    }

    /// Stores an op. `peer` is always the other end of the conversation,
    /// whichever direction the op went. Returns false when the id was already
    /// stored: an op can legitimately arrive by both the live path and the
    /// mailbox. What is stored opens to the frame again.
    pub fn record(&mut self, peer: &[u8; 32], frame: &Frame) -> (r: Result<bool, StoreError>)
        requires
            old(self).wf(),
        ensures
            final(self).wf(),
            final(self).rooms == old(self).rooms,
            final(self).settings == old(self).settings,
            final(self).key() == old(self).key(),
            final(self).me() == old(self).me(),
            final(self).used() == old(self).used(),
            frame@.id() is None ==> r is Ok && r->Ok_0 == false,
            r is Ok && r->Ok_0 ==> {
                &&& frame@.id() is Some && !recorded(old(self).ops@, frame@.id()->0)
                &&& final(self).ops@.len() == old(self).ops@.len() + 1
                &&& final(self).ops@.drop_last() == old(self).ops@
                &&& final(self).ops@.last().id == frame@.id()->0
                &&& final(self).ops@.last().peer == *peer
                &&& opened_frame(old(self).key(), final(self).ops@.last().payload@) == Ok::<FrameView, StoreError>(
                    frame@,
                )
            },
            r is Ok && !r->Ok_0 ==> {
                &&& frame@.id() is None || recorded(old(self).ops@, frame@.id()->0)
                &&& final(self).ops == old(self).ops
            },
            r is Err ==> {
                &&& final(self).ops == old(self).ops
                &&& frame@.id() is Some
                &&& seal_failed(r->Err_0, frame@.encoded().len() as int)
            },
    {
        if frame.id().is_none() {
            return Ok(false);
        }
        match Store::nonce() {
            Ok(nonce) => self.record_with(peer, frame, &nonce),
            Err(e) => Err(e),
        }
    }

    /// Stores an op, sealed under a given nonce.
    pub fn record_with(&mut self, peer: &[u8; 32], frame: &Frame, nonce: &[u8; 24]) -> (r: Result<bool, StoreError>)
        requires
            old(self).wf(),
        ensures
            final(self).wf(),
            final(self).rooms == old(self).rooms,
            final(self).settings == old(self).settings,
            final(self).key() == old(self).key(),
            final(self).me() == old(self).me(),
            final(self).used() == old(self).used(),
            match frame@.id() {
                None => r == Ok::<bool, StoreError>(false) && final(self).ops == old(self).ops,
                Some(id) => if !crypto::sealable(frame@.encoded().len() as int) {
                    &&& r == Err::<bool, StoreError>(StoreError::Vault(VaultError::Encryption))
                    &&& final(self).ops == old(self).ops
                } else if recorded(old(self).ops@, id) {
                    r == Ok::<bool, StoreError>(false) && final(self).ops == old(self).ops
                } else {
                    &&& r == Ok::<bool, StoreError>(true)
                    &&& final(self).ops@.len() == old(self).ops@.len() + 1
                    &&& final(self).ops@.drop_last() == old(self).ops@
                    &&& final(self).ops@.last().id == id
                    &&& final(self).ops@.last().peer == *peer
                    &&& final(self).ops@.last().payload@ == vault::sealed(old(self).key(), nonce@, frame@.encoded())
                    &&& opened_frame(old(self).key(), final(self).ops@.last().payload@) == Ok::<FrameView, StoreError>(
                        frame@,
                    )
                },
            },
    {
        let id = match frame.id() {
            Some(id) => id,
            None => return Ok(false),
        };
        let plain = wire::payload(frame);
        let payload = match self.vault.seal_with(nonce, plain.as_slice()) {
            Ok(payload) => payload,
            Err(e) => return Err(StoreError::Vault(e)),
        };
        proof {
            assert(plain.len() == plain@.len());
            wire::lemma_frame_fits(frame@);
            wire::lemma_frame_roundtrip(frame@, Seq::empty());
            assert(plain@ + Seq::<u8>::empty() =~= plain@);
        }
        let mut i: usize = 0;
        while i < self.ops.len()
            invariant
                i <= self.ops@.len(),
                *self == *old(self),
                frame@.id() == Some(id),
                crypto::sealable(frame@.encoded().len() as int),
                self.wf(),
                forall|j: int| 0 <= j < i ==> (#[trigger] self.ops@[j]).id != id,
            decreases self.ops@.len() - i,
        {
            if self.ops[i].id.same(&id) {
                return Ok(false);
            }
            i = i + 1;
        }
        let ghost before = self.ops@;
        self.ops.push(OpRow { id, peer: *peer, payload });
        assert(self.ops@.drop_last() =~= before);
        Ok(true)
    }

    /// Folds the op log into the conversation as it stands, newest `limit`
    /// messages, oldest first.
    ///
    /// Edits and deletes are honoured only when the op's sender is the author
    /// of the message it targets. That check lives here rather than at the
    /// network edge so it holds however the op arrived: live, mailbox, or
    /// replay. One sender's ops take effect in the order of their numbers: the
    /// clock, which is not trusted, decides where a message is shown and nothing
    /// more.
    pub fn history(&self, peer: &[u8; 32], limit: usize) -> (r: Result<Vec<Message>, StoreError>)
        ensures
            match opened_ops(self.key(), timeline(self.ops@, *peer)) {
                Err(e) => r is Err && r->Err_0 == e,
                Ok(ops) => r is Ok && messages_view(r->Ok_0@) == newest(
                    conversation(ops, self.me()),
                    limit as nat,
                ),
            },
    {
        let ops = match self.opened(peer) {
            Ok(ops) => ops,
            Err(e) => return Err(e),
        };
        let mut messages = folded(&ops, &self.me);
        if messages.len() > limit {
            let ghost all = messages@;
            let skip: usize = messages.len() - limit;
            let out = messages.split_off(skip);
            assert(messages_view(out@) =~= messages_view(all).skip(skip as int));
            Ok(out)
        } else {
            Ok(messages)
        }
    }

    /// The ops of one conversation, opened, in the order in which they are
    /// shown.
    fn opened(&self, peer: &[u8; 32]) -> (r: Result<Vec<(MessageId, Frame)>, StoreError>)
        ensures
            match opened_ops(self.key(), timeline(self.ops@, *peer)) {
                Err(e) => r is Err && r->Err_0 == e,
                Ok(ops) => r is Ok && ops_view(r->Ok_0@) == ops,
            },
    {
        let order = order_of(&self.ops, peer);
        let ghost rows = timeline(self.ops@, *peer);
        let mut ops: Vec<(MessageId, Frame)> = Vec::new();
        let mut i: usize = 0;
        proof {
            assert(ops_view(ops@) =~= Seq::empty());
            assert(rows.take(0) =~= Seq::empty());
        }
        while i < order.len()
            invariant
                i <= order@.len(),
                forall|k: int| 0 <= k < order@.len() ==> (#[trigger] order@[k]) < self.ops@.len(),
                rows == picked(self.ops@, order@),
                rows == timeline(self.ops@, *peer),
                opened_ops(self.key(), rows.take(i as int)) == Ok::<Seq<(MessageId, FrameView)>, StoreError>(
                    ops_view(ops@),
                ),
            decreases order@.len() - i,
        {
            let row = &self.ops[order[i]];
            proof {
                assert(rows.take(i + 1).drop_last() =~= rows.take(i as int));
                assert(rows.take(i + 1).last() == *row);
                lemma_fault_persists(self.key(), rows, i + 1);
            }
            let plain = match self.vault.open(row.payload.as_slice()) {
                Ok(plain) => plain,
                Err(e) => return Err(StoreError::Vault(e)),
            };
            let frame = match wire::decode(plain.as_slice()) {
                Ok(frame) => frame,
                Err(_) => return Err(StoreError::Malformed),
            };
            let ghost before = ops_view(ops@);
            let ghost f = frame@;
            ops.push((row.id, frame));
            assert(ops_view(ops@) =~= before.push((row.id, f)));
            i = i + 1;
        }
        assert(rows.take(i as int) =~= rows);
        Ok(ops)
    }
}

/// Computes [`conversation`].
fn folded(ops: &Vec<(MessageId, Frame)>, me: &[u8; 32]) -> (messages: Vec<Message>)
    ensures
        messages_view(messages@) == conversation(ops_view(ops@), *me),
{
    let ghost all = ops_view(ops@);
    let mut messages = written_of(ops, me);
    let ghost plain = messages_view(messages@);
    let mut at: Vec<Option<MessageId>> = Vec::new();
    while at.len() < messages.len()
        invariant
            at@.len() <= messages@.len(),
            forall|k: int| 0 <= k < at@.len() ==> (#[trigger] at@[k]) is None,
        decreases messages@.len() - at@.len(),
    {
        at.push(None);
    }
    let mut reactions: Vec<Reaction> = Vec::new();
    let mut i: usize = 0;
    proof {
        lemma_written_stands(all, *me);
        assert forall|k: int| 0 <= k < messages@.len() implies (#[trigger] messages@[k])@ == amended(
            plain[k],
            all.take(0),
        ) by {
            assert(messages@[k]@ == plain[k]);
        }
        assert(reactions_view(reactions@) =~= reacted(all.take(0)));
    }
    while i < ops.len()
        invariant
            i <= ops@.len(),
            all == ops_view(ops@),
            messages@.len() == plain.len(),
            at@.len() == plain.len(),
            forall|k: int| 0 <= k < plain.len() ==> !(#[trigger] plain[k]).deleted,
            forall|k: int|
                0 <= k < plain.len() ==> (#[trigger] messages@[k])@ == amended(plain[k], all.take(i as int))
                    && at@[k] == decided_at(all.take(i as int), plain[k].id),
            reactions_view(reactions@) == reacted(all.take(i as int)),
        decreases ops@.len() - i,
    {
        let ghost was = messages@;
        let ghost was_at = at@;
        amend(&mut messages, &mut at, &ops[i].0, &ops[i].1);
        react(&mut reactions, &ops[i].0, &ops[i].1);
        proof {
            let (id, op) = (ops@[i as int].0, ops@[i as int].1@);
            assert(all.take(i + 1) =~= all.take(i as int).push((id, op)));
            assert(all.take(i + 1).drop_last() =~= all.take(i as int));
            assert forall|k: int| 0 <= k < plain.len() implies (#[trigger] messages@[k])@ == amended(
                plain[k],
                all.take(i + 1),
            ) && at@[k] == decided_at(all.take(i + 1), plain[k].id) by {
                assert(was[k]@ == amended(plain[k], all.take(i as int)));
                lemma_amended_by(plain[k], all.take(i as int), id, op);
            }
        }
        i = i + 1;
    }
    assert(all.take(i as int) =~= all);
    let mut k: usize = 0;
    while k < messages.len()
        invariant
            k <= messages@.len(),
            messages@.len() == plain.len(),
            plain == written(all, *me),
            reactions_view(reactions@) == reacted(all),
            forall|j: int| 0 <= j < k ==> (#[trigger] messages@[j])@ == conversation(all, *me)[j],
            forall|j: int| k <= j < messages@.len() ==> (#[trigger] messages@[j])@ == amended(plain[j], all),
        decreases messages@.len() - k,
    {
        let slots = tally_of(&reactions, &messages[k].id, me);
        messages[k].reactions = slots;
        k = k + 1;
    }
    assert(messages_view(messages@) =~= conversation(all, *me));
    messages
}

proof fn lemma_written_stands(ops: Seq<(MessageId, FrameView)>, me: [u8; 32])
    ensures
        forall|k: int| 0 <= k < written(ops, me).len() ==> !(#[trigger] written(ops, me)[k]).deleted,
        forall|k: int|
            0 <= k < written(ops, me).len() ==> (#[trigger] written(ops, me)[k]).outbound == (written(
                ops,
                me,
            )[k].id.sender == me),
    decreases ops.len(),
{
    if ops.len() > 0 {
        lemma_written_stands(ops.drop_last(), me);
    }
}

/// What does not open at the start does not open on the whole, for the same
/// reason.
proof fn lemma_fault_persists(key: Seq<u8>, rows: Seq<OpRow>, n: int)
    requires
        0 <= n <= rows.len(),
    ensures
        opened_ops(key, rows.take(n)) is Err ==> opened_ops(key, rows) == opened_ops(key, rows.take(n)),
    decreases rows.len() - n,
{
    if n < rows.len() {
        assert(rows.take(n + 1).drop_last() =~= rows.take(n));
        lemma_fault_persists(key, rows, n + 1);
    } else {
        assert(rows.take(n) =~= rows);
    }
}

impl Store {
    /// Keeps the room's log locally so membership survives a hub that is down
    /// or hostile. It is re-verified on the way out, never trusted for being
    /// on our own disk.
    pub fn save_room(&mut self, id: &RoomId, entries: &[RoomEntry]) -> (r: Result<(), StoreError>)
        requires
            old(self).wf(),
        ensures
            final(self).wf(),
            final(self).ops == old(self).ops,
            final(self).settings == old(self).settings,
            final(self).key() == old(self).key(),
            final(self).me() == old(self).me(),
            final(self).used() == old(self).used(),
            r is Err ==> final(self).rooms == old(self).rooms && seal_failed(
                r->Err_0,
                log_bytes(room::log_view(entries@)).len() as int,
            ),
            r is Ok ==> {
                &&& final(self).rooms@.dom() == old(self).rooms@.dom().insert(*id)
                &&& opened_log(old(self).key(), final(self).rooms@[*id]@) == Ok::<Seq<room::EntryView>, StoreError>(
                    room::log_view(entries@),
                )
                &&& forall|other: [u8; 32]|
                    other != *id && old(self).rooms@.dom().contains(other)
                        ==> #[trigger] final(self).rooms@[other] == old(self).rooms@[other]
            },
    {
        match Store::nonce() {
            Ok(nonce) => self.save_room_with(id, entries, &nonce),
            Err(e) => Err(e),
        }
    }

    /// Keeps the room's log, sealed under a given nonce.
    pub fn save_room_with(&mut self, id: &RoomId, entries: &[RoomEntry], nonce: &[u8; 24]) -> (r: Result<
        (),
        StoreError,
    >)
        requires
            old(self).wf(),
        ensures
            final(self).wf(),
            final(self).ops == old(self).ops,
            final(self).settings == old(self).settings,
            final(self).key() == old(self).key(),
            final(self).me() == old(self).me(),
            final(self).used() == old(self).used(),
            if !crypto::sealable(log_bytes(room::log_view(entries@)).len() as int) {
                &&& r == Err::<(), StoreError>(StoreError::Vault(VaultError::Encryption))
                &&& final(self).rooms == old(self).rooms
            } else {
                &&& r is Ok
                &&& final(self).rooms@.dom() == old(self).rooms@.dom().insert(*id)
                &&& final(self).rooms@[*id]@ == vault::sealed(
                    old(self).key(),
                    nonce@,
                    log_bytes(room::log_view(entries@)),
                )
                &&& opened_log(old(self).key(), final(self).rooms@[*id]@) == Ok::<Seq<room::EntryView>, StoreError>(
                    room::log_view(entries@),
                )
                &&& forall|other: [u8; 32]|
                    other != *id && old(self).rooms@.dom().contains(other)
                        ==> #[trigger] final(self).rooms@[other] == old(self).rooms@[other]
            },
    {
        let plain = wire::encode_log(entries);
        match self.vault.seal_with(nonce, plain.as_slice()) {
            Ok(sealed) => {
                proof {
                    lemma_log_roundtrip(room::log_view(entries@), plain@);
                }
                self.rooms.set(*id, sealed);
                Ok(())
            },
            Err(e) => Err(StoreError::Vault(e)),
        }
    }

    /// Every room's log, in the order in which the rooms were first saved. Each
    /// is verified: it describes a room, and the one it is kept under.
    pub fn rooms(&self) -> (r: Result<Vec<(RoomId, Vec<RoomEntry>)>, StoreError>)
        ensures
            match opened_logs(self.key(), self.rooms.rows@) {
                Err(e) => r is Err && r->Err_0 == e,
                Ok(logs) => r is Ok && logs_view(r->Ok_0@) == logs,
            },
            r is Ok ==> forall|i: int|
                0 <= i < r->Ok_0@.len() ==> describes(
                    room::log_view((#[trigger] r->Ok_0@[i]).1@),
                    r->Ok_0@[i].0,
                ),
    {
        let ghost rows = self.rooms.rows@;
        let mut out: Vec<(RoomId, Vec<RoomEntry>)> = Vec::new();
        let mut i: usize = 0;
        proof {
            assert(logs_view(out@) =~= Seq::empty());
            assert(rows.take(0) =~= Seq::empty());
        }
        while i < self.rooms.rows.len()
            invariant
                i <= self.rooms.rows@.len(),
                rows == self.rooms.rows@,
                opened_logs(self.key(), rows.take(i as int)) == Ok::<Seq<(RoomId, Seq<room::EntryView>)>, StoreError>(
                    logs_view(out@),
                ),
                forall|k: int|
                    0 <= k < out@.len() ==> describes(room::log_view((#[trigger] out@[k]).1@), out@[k].0),
            decreases self.rooms.rows@.len() - i,
        {
            let ghost before = out@;
            proof {
                assert(rows.take(i + 1).drop_last() =~= rows.take(i as int));
                lemma_log_fault_persists(self.key(), rows, i + 1);
            }
            let log = match self.log_of(&self.rooms.rows[i].0, self.rooms.rows[i].1.as_slice()) {
                Ok((log, _)) => log,
                Err(e) => return Err(e),
            };
            out.push((self.rooms.rows[i].0, log));
            proof {
                assert(logs_view(out@) =~= logs_view(before).push((rows[i as int].0, room::log_view(log@))));
            }
            i = i + 1;
        }
        assert(rows.take(i as int) =~= rows);
        Ok(out)
    }

    /// The log in a sealed payload and the room it describes, which has to be
    /// `id`.
    fn log_of(&self, id: &RoomId, payload: &[u8]) -> (r: Result<(Vec<RoomEntry>, Room), StoreError>)
        ensures
            match verified_log(self.key(), *id, payload@) {
                Err(e) => r is Err && r->Err_0 == e,
                Ok(log) => {
                    &&& r is Ok
                    &&& room::log_view((r->Ok_0).0@) == log
                    &&& (r->Ok_0).1.wf()
                    &&& room::replay(log) == Ok::<room::RoomState, RoomError>((r->Ok_0).1@)
                    &&& describes(log, *id)
                },
            },
    {
        let plain = match self.vault.open(payload) {
            Ok(plain) => plain,
            Err(e) => return Err(StoreError::Vault(e)),
        };
        let log = match wire::take_log(plain.as_slice()) {
            Some((log, _)) => log,
            None => return Err(StoreError::Malformed),
        };
        let room = match room::verify_log(log.as_slice()) {
            Ok(room) => room,
            Err(e) => return Err(StoreError::Room(e)),
        };
        if !bytes::same32(&room.id, id) {
            proof {
                if room.id@ == id@ {
                    bytes::lemma_array_eq(room.id, *id);
                }
            }
            return Err(StoreError::Misfiled);
        }
        Ok((log, room))
    }

    /// The room that is kept under an id, if what is kept holds up.
    pub fn room(&self, id: &RoomId) -> (r: Option<Room>)
        requires
            self.wf(),
        ensures
            match room_at(self, *id) {
                Some(room) => r is Some && r->0.wf() && r->0@ == room,
                None => r is None,
            },
    {
        match self.rooms.get(id) {
            Some(payload) => match self.log_of(id, payload.as_slice()) {
                Ok((_, room)) => Some(room),
                Err(_) => None,
            },
            None => None,
        }
    }

    /// A setting of this endpoint's own. Kept beside the ops rather than in a
    /// configuration file so it travels with the encrypted store.
    pub fn setting(&self, name: &str) -> (r: Result<Option<String>, StoreError>)
        ensures
            match setting_at(self.settings@, name@) {
                None => r is Ok && r->Ok_0 is None,
                Some(sealed) => match vault::opened(self.key(), sealed) {
                    Err(e) => r is Err && r->Err_0 == StoreError::Vault(e),
                    Ok(b) => r is Ok && r->Ok_0 is Some && r->Ok_0->0@ == text::lossy(b) && (
                    vstd::utf8::valid_utf8(b) ==> r->Ok_0->0@ == vstd::utf8::decode_utf8(b)),
                },
            },
    {
        match setting_index(&self.settings, name) {
            None => Ok(None),
            Some(i) => match self.vault.open(self.settings[i].1.as_slice()) {
                Ok(b) => Ok(Some(text::from_utf8_lossy(b.as_slice()))),
                Err(e) => Err(StoreError::Vault(e)),
            },
        }
    }

    /// Changes a setting. It reads back as `value`, and the others stay.
    pub fn set_setting(&mut self, name: &str, value: &str) -> (r: Result<(), StoreError>)
        requires
            old(self).wf(),
        ensures
            final(self).wf(),
            final(self).ops == old(self).ops,
            final(self).rooms == old(self).rooms,
            final(self).key() == old(self).key(),
            final(self).me() == old(self).me(),
            final(self).used() == old(self).used(),
            r is Err ==> final(self).settings == old(self).settings && seal_failed(
                r->Err_0,
                vstd::utf8::encode_utf8(value@).len() as int,
            ),
            r is Ok ==> {
                let sealed = setting_at(final(self).settings@, name@);
                &&& sealed is Some
                &&& vault::opened(old(self).key(), sealed->0) == Ok::<Seq<u8>, VaultError>(
                    vstd::utf8::encode_utf8(value@),
                )
                &&& vstd::utf8::valid_utf8(vstd::utf8::encode_utf8(value@))
                &&& vstd::utf8::decode_utf8(vstd::utf8::encode_utf8(value@)) == value@
                &&& forall|other: Seq<char>|
                    other != name@ ==> #[trigger] setting_at(final(self).settings@, other) == setting_at(
                        old(self).settings@,
                        other,
                    )
            },
    {
        match Store::nonce() {
            Ok(nonce) => self.set_setting_with(name, value, &nonce),
            Err(e) => Err(e),
        }
    }

    /// Changes a setting, sealed under a given nonce.
    pub fn set_setting_with(&mut self, name: &str, value: &str, nonce: &[u8; 24]) -> (r: Result<(), StoreError>)
        requires
            old(self).wf(),
        ensures
            final(self).wf(),
            final(self).ops == old(self).ops,
            final(self).rooms == old(self).rooms,
            final(self).key() == old(self).key(),
            final(self).me() == old(self).me(),
            final(self).used() == old(self).used(),
            vstd::utf8::valid_utf8(vstd::utf8::encode_utf8(value@)),
            vstd::utf8::decode_utf8(vstd::utf8::encode_utf8(value@)) == value@,
            if !crypto::sealable(vstd::utf8::encode_utf8(value@).len() as int) {
                &&& r == Err::<(), StoreError>(StoreError::Vault(VaultError::Encryption))
                &&& final(self).settings == old(self).settings
            } else {
                let sealed = vault::sealed(old(self).key(), nonce@, vstd::utf8::encode_utf8(value@));
                &&& r is Ok
                &&& setting_at(final(self).settings@, name@) == Some(sealed)
                &&& vault::opened(old(self).key(), sealed) == Ok::<Seq<u8>, VaultError>(
                    vstd::utf8::encode_utf8(value@),
                )
                &&& forall|other: Seq<char>|
                    other != name@ ==> #[trigger] setting_at(final(self).settings@, other) == setting_at(
                        old(self).settings@,
                        other,
                    )
            },
    {
        proof {
            vstd::utf8::encode_utf8_valid_utf8(value@);
            vstd::utf8::encode_utf8_decode_utf8(value@);
        }
        let sealed = match self.vault.seal_with(nonce, value.as_bytes()) {
            Ok(sealed) => sealed,
            Err(e) => return Err(StoreError::Vault(e)),
        };
        let ghost before = self.settings@;
        match setting_index(&self.settings, name) {
            Some(i) => {
                self.settings[i].1 = sealed;
                proof {
                    lemma_setting_update(before, i as int, self.settings@, name@);
                }
            },
            None => {
                self.settings.push((name.to_owned(), sealed));
                proof {
                    lemma_setting_push(before, self.settings@.last(), name@);
                    assert(self.settings@ =~= before.push(self.settings@.last()));
                }
            },
        }
        Ok(())
    }
}

/// The bytes that a log is sealed as.
pub open spec fn log_bytes(log: Seq<room::EntryView>) -> Seq<u8> {
    codec::varint(log.len()) + wire::entries(log)
}

/// The log in a sealed payload.
pub open spec fn opened_log(key: Seq<u8>, payload: Seq<u8>) -> Result<Seq<room::EntryView>, StoreError> {
    match vault::opened(key, payload) {
        Err(e) => Err(StoreError::Vault(e)),
        Ok(b) => match codec::read_len(b) {
            None => Err(StoreError::Malformed),
            Some((n, rest)) => match wire::read_entries(n, rest) {
                None => Err(StoreError::Malformed),
                Some((log, _)) => Ok(log),
            },
        },
    }
}

/// Whether a log is that of a room: it holds up, and the room it describes has
/// this id.
pub open spec fn describes(log: Seq<room::EntryView>, id: RoomId) -> bool {
    room::replay(log) matches Ok(room) && room.id == id@
}

/// The log in a sealed payload, if it is that of the room it is kept under.
pub open spec fn verified_log(key: Seq<u8>, id: RoomId, payload: Seq<u8>) -> Result<
    Seq<room::EntryView>,
    StoreError,
> {
    match opened_log(key, payload) {
        Err(e) => Err(e),
        Ok(log) => match room::replay(log) {
            Err(e) => Err(StoreError::Room(e)),
            Ok(room) => if room.id == id@ {
                Ok(log)
            } else {
                Err(StoreError::Misfiled)
            },
        },
    }
}

/// The room that a store keeps under an id, if what it keeps holds up.
pub open spec fn room_at(st: &Store, id: RoomId) -> Option<room::RoomState> {
    if st.rooms@.dom().contains(id) {
        match verified_log(st.key(), id, st.rooms@[id]@) {
            Ok(log) => Some(room::replay(log)->Ok_0),
            Err(_) => None,
        }
    } else {
        None
    }
}

/// Logs as mathematical values.
pub open spec fn logs_view(logs: Seq<(RoomId, Vec<RoomEntry>)>) -> Seq<(RoomId, Seq<room::EntryView>)> {
    logs.map_values(|l: (RoomId, Vec<RoomEntry>)| (l.0, room::log_view(l.1@)))
}

/// The logs in sealed rows, or the fault of the first that does not open or does
/// not hold up.
pub open spec fn opened_logs(key: Seq<u8>, rows: Seq<([u8; 32], Vec<u8>)>) -> Result<
    Seq<(RoomId, Seq<room::EntryView>)>,
    StoreError,
>
    decreases rows.len(),
{
    if rows.len() == 0 {
        Ok(Seq::empty())
    } else {
        match opened_logs(key, rows.drop_last()) {
            Err(e) => Err(e),
            Ok(logs) => match verified_log(key, rows.last().0, rows.last().1@) {
                Err(e) => Err(e),
                Ok(log) => Ok(logs.push((rows.last().0, log))),
            },
        }
    }
}

proof fn lemma_log_fault_persists(key: Seq<u8>, rows: Seq<([u8; 32], Vec<u8>)>, n: int)
    requires
        0 <= n <= rows.len(),
    ensures
        opened_logs(key, rows.take(n)) is Err ==> opened_logs(key, rows) == opened_logs(key, rows.take(n)),
    decreases rows.len() - n,
{
    if n < rows.len() {
        assert(rows.take(n + 1).drop_last() =~= rows.take(n));
        lemma_log_fault_persists(key, rows, n + 1);
    } else {
        assert(rows.take(n) =~= rows);
    }
}

proof fn lemma_log_roundtrip(log: Seq<room::EntryView>, b: Seq<u8>)
    requires
        b == codec::varint(log.len()) + wire::entries(log),
        b.len() <= usize::MAX,
    ensures
        codec::read_len(b) == Some((log.len(), wire::entries(log))),
        wire::read_entries(log.len(), wire::entries(log)) == Some((log, Seq::<u8>::empty())),
{
    wire::lemma_entries_fit(log);
    codec::lemma_len_roundtrip(log.len(), wire::entries(log));
    wire::lemma_entries_roundtrip(log, Seq::empty());
    assert(wire::entries(log) + Seq::<u8>::empty() =~= wire::entries(log));
}

/// What is kept under a name.
pub open spec fn setting_at(settings: Seq<(String, Vec<u8>)>, name: Seq<char>) -> Option<Seq<u8>>
    decreases settings.len(),
{
    if settings.len() == 0 {
        None
    } else if settings[0].0@ == name {
        Some(settings[0].1@)
    } else {
        setting_at(settings.skip(1), name)
    }
}

/// Where a name is kept first.
fn setting_index(settings: &Vec<(String, Vec<u8>)>, name: &str) -> (r: Option<usize>)
    ensures
        match r {
            Some(i) => {
                &&& i < settings@.len()
                &&& settings@[i as int].0@ == name@
                &&& setting_at(settings@, name@) == Some(settings@[i as int].1@)
                &&& forall|j: int| 0 <= j < i ==> (#[trigger] settings@[j]).0@ != name@
            },
            None => setting_at(settings@, name@) is None && forall|j: int|
                0 <= j < settings@.len() ==> (#[trigger] settings@[j]).0@ != name@,
        },
{
    let mut i: usize = 0;
    assert(settings@.skip(0) =~= settings@);
    while i < settings.len()
        invariant
            i <= settings@.len(),
            setting_at(settings@.skip(i as int), name@) == setting_at(settings@, name@),
            forall|j: int| 0 <= j < i ==> (#[trigger] settings@[j]).0@ != name@,
        decreases settings@.len() - i,
    {
        if text::same(settings[i].0.as_str(), name) {
            return Some(i);
        }
        assert(settings@.skip(i as int).skip(1) =~= settings@.skip(i + 1));
        i = i + 1;
    }
    None
}

proof fn lemma_setting_update(before: Seq<(String, Vec<u8>)>, i: int, after: Seq<(String, Vec<u8>)>, name: Seq<char>)
    requires
        0 <= i < before.len(),
        before[i].0@ == name,
        forall|j: int| 0 <= j < i ==> (#[trigger] before[j]).0@ != name,
        after.len() == before.len(),
        forall|j: int| 0 <= j < before.len() && j != i ==> #[trigger] after[j] == before[j],
        after[i].0@ == name,
    ensures
        setting_at(after, name) == Some(after[i].1@),
        forall|other: Seq<char>|
            other != name ==> #[trigger] setting_at(after, other) == setting_at(before, other),
    decreases before.len(),
{
    if i > 0 {
        assert(after[0] == before[0]);
        lemma_setting_update(before.skip(1), i - 1, after.skip(1), name);
        assert forall|other: Seq<char>| other != name implies #[trigger] setting_at(after, other) == setting_at(
            before,
            other,
        ) by {
            assert(setting_at(after.skip(1), other) == setting_at(before.skip(1), other));
        }
    } else {
        assert(after.skip(1) =~= before.skip(1));
    }
}

proof fn lemma_setting_push(before: Seq<(String, Vec<u8>)>, new: (String, Vec<u8>), name: Seq<char>)
    requires
        new.0@ == name,
        forall|j: int| 0 <= j < before.len() ==> (#[trigger] before[j]).0@ != name,
    ensures
        setting_at(before.push(new), name) == Some(new.1@),
        forall|other: Seq<char>|
            other != name ==> #[trigger] setting_at(before.push(new), other) == setting_at(before, other),
    decreases before.len(),
{
    let after = before.push(new);
    if before.len() > 0 {
        lemma_setting_push(before.skip(1), new, name);
        assert(after.skip(1) =~= before.skip(1).push(new));
        assert forall|other: Seq<char>| other != name implies #[trigger] setting_at(after, other) == setting_at(
            before,
            other,
        ) by {
            assert(setting_at(before.skip(1).push(new), other) == setting_at(before.skip(1), other));
        }
    } else {
        assert(after.skip(1) =~= before);
        assert(after[0] == new);
    }
}

/// The latest time of an op exchanged with `peer`, as it is stored.
pub open spec fn latest(rows: Seq<OpRow>, peer: [u8; 32]) -> i64
    decreases rows.len(),
{
    if rows.len() == 0 {
        i64::MIN
    } else {
        let before = latest(rows.drop_last(), peer);
        if rows.last().peer == peer && rows.last().id.ts_ms as i64 > before {
            rows.last().id.ts_ms as i64
        } else {
            before
        }
    }
}

/// Whether an op was exchanged with `peer`.
pub open spec fn met(rows: Seq<OpRow>, peer: [u8; 32]) -> bool {
    exists|i: int| 0 <= i < rows.len() && (#[trigger] rows[i]).peer == peer
}

/// Whether no key stands twice in a list of keys with times.
spec fn distinct(found: Seq<([u8; 32], i64)>) -> bool {
    forall|i: int, j: int| 0 <= i < j < found.len() ==> (#[trigger] found[i]).0 != (#[trigger] found[j]).0
}

/// Whether a key stands in a list of keys with times.
spec fn listed(found: Seq<([u8; 32], i64)>, key: [u8; 32]) -> bool {
    exists|i: int| 0 <= i < found.len() && (#[trigger] found[i]).0 == key
}

/// Every peer with the time of the latest op, in the order of first contact.
fn contacts(rows: &Vec<OpRow>) -> (found: Vec<([u8; 32], i64)>)
    ensures
        distinct(found@),
        forall|p: [u8; 32]| #[trigger] listed(found@, p) <==> met(rows@, p),
        forall|k: int| 0 <= k < found@.len() ==> (#[trigger] found@[k]).1 == latest(rows@, found@[k].0),
{
    let mut found: Vec<([u8; 32], i64)> = Vec::new();
    let mut i: usize = 0;
    while i < rows.len()
        invariant
            i <= rows@.len(),
            distinct(found@),
            forall|p: [u8; 32]| #[trigger] listed(found@, p) <==> met(rows@.take(i as int), p),
            forall|k: int|
                0 <= k < found@.len() ==> (#[trigger] found@[k]).1 == latest(
                    rows@.take(i as int),
                    found@[k].0,
                ),
        decreases rows@.len() - i,
    {
        let ghost now = rows@.take(i as int);
        let ghost next = rows@.take(i + 1);
        let ghost was = found@;
        let row = &rows[i];
        let ts: i64 = row.id.ts_ms as i64;
        proof {
            assert(next.drop_last() =~= now);
            assert(next.last() == *row);
            lemma_met_grows(rows@, i as int);
            lemma_latest_of_stranger(now, row.peer);
        }
        let mut k: usize = 0;
        while k < found.len() && !bytes::same32(&found[k].0, &row.peer)
            invariant
                k <= found@.len(),
                forall|j: int| 0 <= j < k ==> (#[trigger] found@[j]).0 != row.peer,
            decreases found@.len() - k,
        {
            k = k + 1;
        }
        if k < found.len() {
            if ts > found[k].1 {
                found[k].1 = ts;
            }
            proof {
                assert(was[k as int].0 == row.peer);
                assert(listed(was, row.peer));
                assert forall|p: [u8; 32]| #[trigger] listed(found@, p) == listed(was, p) by {
                    if listed(found@, p) {
                        let j = choose|j: int| 0 <= j < found@.len() && (#[trigger] found@[j]).0 == p;
                        assert(was[j].0 == p);
                    }
                    if listed(was, p) {
                        let j = choose|j: int| 0 <= j < was.len() && (#[trigger] was[j]).0 == p;
                        assert(found@[j].0 == p);
                    }
                }
                assert forall|j: int| 0 <= j < found@.len() implies (#[trigger] found@[j]).1 == latest(
                    next,
                    found@[j].0,
                ) by {
                    assert(was[j].1 == latest(now, was[j].0));
                    if j != k {
                        assert(was[j].0 != was[k as int].0);
                    }
                }
            }
        } else {
            found.push((row.peer, ts));
            proof {
                assert(!listed(was, row.peer));
                assert(!met(now, row.peer));
                assert forall|p: [u8; 32]| #[trigger] listed(found@, p) == (listed(was, p) || p == row.peer) by {
                    if listed(was, p) {
                        let j = choose|j: int| 0 <= j < was.len() && (#[trigger] was[j]).0 == p;
                        assert(found@[j].0 == p);
                    }
                    assert(found@[was.len() as int].0 == row.peer);
                }
                assert forall|j: int| 0 <= j < found@.len() implies (#[trigger] found@[j]).1 == latest(
                    next,
                    found@[j].0,
                ) by {
                    if j < was.len() {
                        assert(was[j].1 == latest(now, was[j].0));
                        assert(was[j].0 != row.peer);
                    }
                }
            }
        }
        i = i + 1;
    }
    assert(rows@.take(i as int) =~= rows@);
    found
}

proof fn lemma_met_grows(rows: Seq<OpRow>, n: int)
    requires
        0 <= n < rows.len(),
    ensures
        forall|p: [u8; 32]| #[trigger] met(rows.take(n + 1), p) == (met(rows.take(n), p) || p == rows[n].peer),
{
    assert forall|p: [u8; 32]| #[trigger] met(rows.take(n + 1), p) == (met(rows.take(n), p) || p
        == rows[n].peer) by {
        if met(rows.take(n + 1), p) {
            let j = choose|j: int| 0 <= j < n + 1 && (#[trigger] rows.take(n + 1)[j]).peer == p;
            if j < n {
                assert(rows.take(n)[j].peer == p);
            }
        }
        if met(rows.take(n), p) {
            let j = choose|j: int| 0 <= j < n && (#[trigger] rows.take(n)[j]).peer == p;
            assert(rows.take(n + 1)[j].peer == p);
        }
        assert(rows.take(n + 1)[n].peer == rows[n].peer);
    }
}

proof fn lemma_latest_of_stranger(rows: Seq<OpRow>, peer: [u8; 32])
    ensures
        !met(rows, peer) ==> latest(rows, peer) == i64::MIN,
    decreases rows.len(),
{
    if rows.len() > 0 && !met(rows, peer) {
        assert(rows[rows.len() - 1].peer != peer);
        assert(!met(rows.drop_last(), peer)) by {
            if met(rows.drop_last(), peer) {
                let j = choose|j: int|
                    0 <= j < rows.len() - 1 && (#[trigger] rows.drop_last()[j]).peer == peer;
                assert(rows[j].peer == peer);
            }
        }
        lemma_latest_of_stranger(rows.drop_last(), peer);
    }
}

impl Store {
    /// Every peer this endpoint has exchanged an op with, most recent first.
    pub fn peers(&self) -> (r: Vec<[u8; 32]>)
        ensures
            r@.no_duplicates(),
            forall|p: [u8; 32]| #[trigger] r@.contains(p) <==> met(self.ops@, p),
            forall|i: int, j: int|
                0 <= i < j < r@.len() ==> latest(self.ops@, #[trigger] r@[i]) >= latest(
                    self.ops@,
                    #[trigger] r@[j],
                ),
    {
        let mut found = contacts(&self.ops);
        let ghost all = found@;
        let mut out: Vec<[u8; 32]> = Vec::new();
        while found.len() > 0
            invariant
                distinct(found@),
                out@.no_duplicates(),
                forall|p: [u8; 32]| (#[trigger] out@.contains(p) || listed(found@, p)) <==> listed(all, p),
                forall|p: [u8; 32]| !(#[trigger] out@.contains(p) && listed(found@, p)),
                forall|k: int|
                    0 <= k < found@.len() ==> (#[trigger] found@[k]).1 == latest(self.ops@, found@[k].0),
                forall|i: int, j: int|
                    0 <= i < j < out@.len() ==> latest(self.ops@, #[trigger] out@[i]) >= latest(
                        self.ops@,
                        #[trigger] out@[j],
                    ),
                forall|i: int, k: int|
                    0 <= i < out@.len() && 0 <= k < found@.len() ==> latest(self.ops@, #[trigger] out@[i])
                        >= (#[trigger] found@[k]).1,
            decreases found@.len(),
        {
            let mut best: usize = 0;
            let mut k: usize = 1;
            while k < found.len()
                invariant
                    best < found@.len(),
                    1 <= k <= found@.len(),
                    best < k,
                    forall|j: int| 0 <= j < k ==> found@[best as int].1 >= (#[trigger] found@[j]).1,
                decreases found@.len() - k,
            {
                if found[k].1 > found[best].1 {
                    best = k;
                }
                k = k + 1;
            }
            let ghost was = found@;
            let ghost done = out@;
            let (key, ts) = found.remove(best);
            out.push(key);
            proof {
                assert(was[best as int] == (key, ts));
                assert(listed(was, key));
                assert forall|k: int| 0 <= k < found@.len() implies #[trigger] found@[k] == was[if k < best {
                    k
                } else {
                    k + 1
                }] by {}
                assert(distinct(found@)) by {
                    assert forall|i: int, j: int| 0 <= i < j < found@.len() implies (#[trigger] found@[i]).0
                        != (#[trigger] found@[j]).0 by {
                        let x = if i < best { i } else { i + 1 };
                        let y = if j < best { j } else { j + 1 };
                        assert(was[x].0 != was[y].0);
                    }
                }
                assert forall|p: [u8; 32]| listed(found@, p) == (#[trigger] listed(was, p) && p != key) by {
                    if listed(found@, p) {
                        let j = choose|j: int| 0 <= j < found@.len() && (#[trigger] found@[j]).0 == p;
                        let x = if j < best { j } else { j + 1 };
                        assert(was[x].0 == p);
                        if x < best {
                            assert(was[x].0 != was[best as int].0);
                        } else {
                            assert(was[best as int].0 != was[x].0);
                        }
                    }
                    if listed(was, p) && p != key {
                        let j = choose|j: int| 0 <= j < was.len() && (#[trigger] was[j]).0 == p;
                        assert(found@[if j < best { j } else { j - 1 }].0 == p);
                    }
                }
                assert forall|p: [u8; 32]| #[trigger] out@.contains(p) == (done.contains(p) || p == key) by {
                    if done.contains(p) {
                        let j = done.index_of(p);
                        assert(out@[j] == p);
                    }
                    assert(out@[done.len() as int] == key);
                    if out@.contains(p) && p != key {
                        let j = out@.index_of(p);
                        assert(done[j] == p);
                    }
                }
                assert(!done.contains(key));
                assert(out@.no_duplicates()) by {
                    assert forall|i: int, j: int| 0 <= i < out@.len() && 0 <= j < out@.len() && i != j implies out@[i]
                        != out@[j] by {
                        if i == done.len() {
                            assert(done.contains(done[j]));
                        } else if j == done.len() {
                            assert(done.contains(done[i]));
                        }
                    }
                }
                assert forall|p: [u8; 32]| (#[trigger] out@.contains(p) || listed(found@, p)) == listed(all, p) by {
                    assert((done.contains(p) || listed(was, p)) == listed(all, p));
                    assert(listed(found@, p) == (listed(was, p) && p != key));
                    assert(out@.contains(p) == (done.contains(p) || p == key));
                }
                assert forall|p: [u8; 32]| !(#[trigger] out@.contains(p) && listed(found@, p)) by {
                    assert(!(done.contains(p) && listed(was, p)));
                }
            }
        }
        assert forall|p: [u8; 32]| #[trigger] out@.contains(p) == met(self.ops@, p) by {
            assert(!listed(found@, p));
            assert(listed(all, p) <==> met(self.ops@, p));
        }
        out
    }
}

/// Whether a row holds an edit or a delete of someone else's message.
pub open spec fn forged(key: Seq<u8>, row: OpRow) -> bool {
    match opened_frame(key, row.payload@) {
        Ok(FrameView::Edit { target, .. }) => target.sender != row.id.sender,
        Ok(FrameView::Delete { target, .. }) => target.sender != row.id.sender,
        _ => false,
    }
}

/// Tells the rows of a conversation that are not forged.
pub open spec fn honest(key: Seq<u8>, peer: [u8; 32]) -> spec_fn(OpRow) -> bool {
    |r: OpRow| r.peer == peer && !forged(key, r)
}

/// Edits and deletes of someone else's messages change nothing, however many
/// there are and wherever they stand: stores that differ only in such ops show
/// the same conversation.
pub proof fn law_only_the_author_edits(
    key: Seq<u8>,
    rows: Seq<OpRow>,
    more: Seq<OpRow>,
    peer: [u8; 32],
    me: [u8; 32],
    limit: nat,
)
    requires
        rows.filter(honest(key, peer)) == more.filter(honest(key, peer)),
        opened_ops(key, timeline(rows, peer)) is Ok,
    ensures
        opened_ops(key, timeline(more, peer)) is Ok,
        ({
            let a = opened_ops(key, timeline(rows, peer))->Ok_0;
            let b = opened_ops(key, timeline(more, peer))->Ok_0;
            &&& conversation(b, me) == conversation(a, me)
            &&& newest(conversation(b, me), limit) == newest(conversation(a, me), limit)
        }),
{
    let p = honest(key, peer);
    lemma_timeline_filter(rows, peer, p);
    lemma_timeline_filter(more, peer, p);
    lemma_timeline_peer(rows, peer);
    lemma_timeline_peer(more, peer);
    lemma_forged_is_idle(key, timeline(rows, peer), peer, me);
    lemma_forged_is_idle(key, timeline(more, peer), peer, me);
    let rest = opened_ops(key, timeline(rows.filter(p), peer))->Ok_0;
    lemma_alike_shown(opened_ops(key, timeline(rows, peer))->Ok_0, rest, me);
    lemma_alike_shown(opened_ops(key, timeline(more, peer))->Ok_0, rest, me);
}

/// One edit or delete of someone else's message changes nothing, whatever comes
/// before and after it.
pub proof fn law_forged_ops_are_idle(
    ops: Seq<(MessageId, FrameView)>,
    id: MessageId,
    op: FrameView,
    later: Seq<(MessageId, FrameView)>,
    me: [u8; 32],
)
    requires
        match op {
            FrameView::Edit { target, .. } => target.sender != id.sender,
            FrameView::Delete { target, .. } => target.sender != id.sender,
            _ => false,
        },
    ensures
        conversation(ops.push((id, op)) + later, me) == conversation(ops + later, me),
{
    lemma_alike_anywhere(ops, (id, op), later, me);
    lemma_alike_shown(ops.push((id, op)) + later, ops + later, me);
}

proof fn lemma_alike_anywhere(
    ops: Seq<(MessageId, FrameView)>,
    op: (MessageId, FrameView),
    later: Seq<(MessageId, FrameView)>,
    me: [u8; 32],
)
    requires
        !(op.1 is Chat) && !(op.1 is React),
        forall|t: MessageId| !#[trigger] touches(op.0, op.1, t),
    ensures
        alike(ops.push(op) + later, ops + later, me),
    decreases later.len(),
{
    if later.len() == 0 {
        assert(ops.push(op) + later =~= ops.push(op));
        assert(ops + later =~= ops);
        lemma_alike_without(ops, ops, op, me);
    } else {
        let init = later.drop_last();
        lemma_alike_anywhere(ops, op, init, me);
        lemma_alike_grows(ops.push(op) + init, ops + init, later.last(), me);
        assert((ops.push(op) + init).push(later.last()) =~= ops.push(op) + later);
        assert((ops + init).push(later.last()) =~= ops + later);
    }
}

proof fn lemma_timeline_peer(rows: Seq<OpRow>, peer: [u8; 32])
    ensures
        forall|k: int| 0 <= k < timeline(rows, peer).len() ==> (#[trigger] timeline(rows, peer)[k]).peer == peer,
    decreases rows.len(),
{
    if rows.len() > 0 {
        lemma_timeline_peer(rows.drop_last(), peer);
        if rows.last().peer == peer {
            law_timeline_is_sorted(rows.drop_last(), peer);
            let before = timeline(rows.drop_last(), peer);
            lemma_placed_sorted(before, rows.last());
            assert forall|k: int| 0 <= k < timeline(rows, peer).len() implies (#[trigger] timeline(
                rows,
                peer,
            )[k]).peer == peer by {
                let r = timeline(rows, peer)[k];
                if r != rows.last() {
                    let j = before.index_of(r);
                    assert(before[j].peer == peer);
                }
            }
        }
    }
}

/// Whether two sequences of ops amount to the same.
pub open spec fn alike(a: Seq<(MessageId, FrameView)>, b: Seq<(MessageId, FrameView)>, me: [u8; 32]) -> bool {
    &&& written(a, me) == written(b, me)
    &&& reacted(a) == reacted(b)
    &&& forall|t: MessageId| #[trigger] deciding(a, t) == deciding(b, t)
    &&& forall|t: MessageId| #[trigger] removed(a, t) == removed(b, t)
}

proof fn lemma_alike_shown(a: Seq<(MessageId, FrameView)>, b: Seq<(MessageId, FrameView)>, me: [u8; 32])
    requires
        alike(a, b, me),
    ensures
        conversation(a, me) == conversation(b, me),
{
    assert forall|m: MessageView| #[trigger] amended(m, a) == amended(m, b) by {
        assert(deciding(a, m.id) == deciding(b, m.id));
        assert(removed(a, m.id) == removed(b, m.id));
    }
    assert(conversation(a, me) =~= conversation(b, me));
}

proof fn lemma_alike_grows(
    a: Seq<(MessageId, FrameView)>,
    b: Seq<(MessageId, FrameView)>,
    op: (MessageId, FrameView),
    me: [u8; 32],
)
    requires
        alike(a, b, me),
    ensures
        alike(a.push(op), b.push(op), me),
{
    assert(a.push(op).drop_last() =~= a);
    assert(b.push(op).drop_last() =~= b);
    assert forall|t: MessageId| #[trigger] deciding(a.push(op), t) == deciding(b.push(op), t) by {
        assert(deciding(a, t) == deciding(b, t));
    }
    assert forall|t: MessageId| #[trigger] removed(a.push(op), t) == removed(b.push(op), t) by {
        assert(removed(a, t) == removed(b, t));
    }
}

proof fn lemma_alike_without(
    a: Seq<(MessageId, FrameView)>,
    b: Seq<(MessageId, FrameView)>,
    op: (MessageId, FrameView),
    me: [u8; 32],
)
    requires
        alike(a, b, me),
        !(op.1 is Chat) && !(op.1 is React),
        forall|t: MessageId| !#[trigger] touches(op.0, op.1, t),
    ensures
        alike(a.push(op), b, me),
{
    assert(a.push(op).drop_last() =~= a);
    assert forall|t: MessageId| #[trigger] deciding(a.push(op), t) == deciding(b, t) by {
        assert(deciding(a, t) == deciding(b, t));
        assert(!touches(op.0, op.1, t));
    }
    assert forall|t: MessageId| #[trigger] removed(a.push(op), t) == removed(b, t) by {
        assert(removed(a, t) == removed(b, t));
        assert(!touches(op.0, op.1, t));
    }
}

proof fn lemma_forged_is_idle(key: Seq<u8>, line: Seq<OpRow>, peer: [u8; 32], me: [u8; 32])
    requires
        forall|k: int| 0 <= k < line.len() ==> (#[trigger] line[k]).peer == peer,
    ensures
        opened_ops(key, line) is Ok <==> opened_ops(key, line.filter(honest(key, peer))) is Ok,
        opened_ops(key, line) is Ok ==> alike(
            opened_ops(key, line)->Ok_0,
            opened_ops(key, line.filter(honest(key, peer)))->Ok_0,
            me,
        ),
    decreases line.len(),
{
    let p = honest(key, peer);
    reveal(Seq::filter);
    if line.len() > 0 {
        let init = line.drop_last();
        let row = line.last();
        assert(line[line.len() - 1].peer == peer);
        assert forall|k: int| 0 <= k < init.len() implies (#[trigger] init[k]).peer == peer by {
            assert(init[k] == line[k]);
        }
        lemma_forged_is_idle(key, init, peer, me);
        let rest = init.filter(p);
        if p(row) {
            assert(line.filter(p) == rest.push(row));
            assert(rest.push(row).drop_last() =~= rest);
            assert(rest.push(row).last() == row);
        } else {
            assert(line.filter(p) == rest);
        }
        if opened_ops(key, init) is Ok && opened_frame(key, row.payload@) is Ok {
            let a = opened_ops(key, init)->Ok_0;
            let b = opened_ops(key, rest)->Ok_0;
            let op = (row.id, opened_frame(key, row.payload@)->Ok_0);
            if p(row) {
                lemma_alike_grows(a, b, op, me);
            } else {
                lemma_alike_without(a, b, op, me);
            }
        }
    }
}

/// Leaving rows out and putting the rest in order may be done in either order.
proof fn lemma_timeline_filter(rows: Seq<OpRow>, peer: [u8; 32], p: spec_fn(OpRow) -> bool)
    ensures
        timeline(rows, peer).filter(p) == timeline(rows.filter(p), peer),
    decreases rows.len(),
{
    reveal(Seq::filter);
    if rows.len() > 0 {
        let init = rows.drop_last();
        let row = rows.last();
        lemma_timeline_filter(init, peer, p);
        if p(row) {
            assert(rows.filter(p).drop_last() =~= init.filter(p));
        }
        if row.peer == peer {
            law_timeline_is_sorted(init, peer);
            lemma_placed_filter(timeline(init, peer), row, p);
        }
    } else {
        assert(timeline(rows, peer).filter(p) =~= timeline(rows.filter(p), peer));
    }
}

proof fn lemma_placed_filter(rows: Seq<OpRow>, row: OpRow, p: spec_fn(OpRow) -> bool)
    requires
        in_order(rows),
    ensures
        placed(rows, row).filter(p) == if p(row) {
            placed(rows.filter(p), row)
        } else {
            rows.filter(p)
        },
    decreases rows.len(),
{
    reveal(Seq::filter);
    let after = placed(rows, row);
    if rows.len() == 0 || !earlier(row.id, rows.last().id) {
        assert(after.drop_last() =~= rows);
        if p(row) && rows.filter(p).len() > 0 {
            lemma_filter_last(rows, p);
        }
    } else {
        let init = rows.drop_last();
        lemma_placed_filter(init, row, p);
        assert(after.drop_last() =~= placed(init, row));
        if p(rows.last()) {
            assert(rows.filter(p).drop_last() =~= init.filter(p));
        }
    }
}

/// What is left last was not behind the last.
proof fn lemma_filter_last(rows: Seq<OpRow>, p: spec_fn(OpRow) -> bool)
    requires
        in_order(rows),
        rows.filter(p).len() > 0,
    ensures
        !earlier(rows.last().id, rows.filter(p).last().id),
    decreases rows.len(),
{
    reveal(Seq::filter);
    if rows.len() > 0 && !p(rows.last()) {
        let init = rows.drop_last();
        lemma_filter_last(init, p);
        assert(!earlier(rows[rows.len() - 1].id, rows[init.len() - 1].id));
    }
}

/// Of the edits that the author made, the last by number replaces the text of
/// the message, wherever the clock puts it.
pub proof fn law_own_edits_apply(ops: Seq<(MessageId, FrameView)>, j: int, target: MessageId, me: [u8; 32])
    requires
        0 <= j < ops.len(),
        touches(ops[j].0, ops[j].1, target),
        forall|k: int|
            0 <= k < ops.len() && k != j && touches((#[trigger] ops[k]).0, ops[k].1, target) ==> made_before(
                ops[k].0,
                ops[j].0,
            ),
    ensures
        forall|i: int|
            0 <= i < conversation(ops, me).len() && (#[trigger] conversation(ops, me)[i]).id == target
                ==> conversation(ops, me)[i].body == text_left(ops[j].1),
{
    lemma_deciding(ops, j, target);
    assert forall|i: int| 0 <= i < conversation(ops, me).len() && (#[trigger] conversation(ops, me)[i]).id
        == target implies conversation(ops, me)[i].body == text_left(ops[j].1) by {
        assert(written(ops, me)[i].id == target);
    }
}

proof fn lemma_deciding(ops: Seq<(MessageId, FrameView)>, j: int, target: MessageId)
    requires
        0 <= j < ops.len(),
        touches(ops[j].0, ops[j].1, target),
        forall|k: int|
            0 <= k < ops.len() && k != j && touches((#[trigger] ops[k]).0, ops[k].1, target) ==> made_before(
                ops[k].0,
                ops[j].0,
            ),
    ensures
        deciding(ops, target) == Some(ops[j]),
    decreases ops.len(),
{
    let init = ops.drop_last();
    if j < init.len() {
        assert(ops[ops.len() - 1] == ops.last());
        lemma_deciding(init, j, target);
    } else {
        lemma_deciding_is_one(init, target);
        if let Some(b) = deciding(init, target) {
            let k = choose|k: int| 0 <= k < init.len() && init[k] == b;
            assert(ops[k] == b);
        }
    }
}

proof fn lemma_deciding_is_one(ops: Seq<(MessageId, FrameView)>, target: MessageId)
    ensures
        deciding(ops, target) matches Some(b) ==> touches(b.0, b.1, target) && exists|k: int|
            0 <= k < ops.len() && ops[k] == b,
    decreases ops.len(),
{
    if ops.len() > 0 {
        let init = ops.drop_last();
        lemma_deciding_is_one(init, target);
        if let Some(b) = deciding(ops, target) {
            if deciding(init, target) == Some(b) {
                let k = choose|k: int| 0 <= k < init.len() && init[k] == b;
                assert(ops[k] == b);
            } else {
                assert(ops[ops.len() - 1] == b);
            }
        }
    }
}

/// The author's own delete marks the message, wherever it stands.
pub proof fn law_own_deletes_apply(ops: Seq<(MessageId, FrameView)>, j: int, target: MessageId, me: [u8; 32])
    requires
        0 <= j < ops.len(),
        touches(ops[j].0, ops[j].1, target),
        ops[j].1 is Delete,
    ensures
        forall|i: int|
            0 <= i < conversation(ops, me).len() && (#[trigger] conversation(ops, me)[i]).id == target
                ==> conversation(ops, me)[i].deleted,
{
    lemma_removed(ops, j, target);
    assert forall|i: int| 0 <= i < conversation(ops, me).len() && (#[trigger] conversation(ops, me)[i]).id
        == target implies conversation(ops, me)[i].deleted by {
        assert(written(ops, me)[i].id == target);
    }
}

proof fn lemma_removed(ops: Seq<(MessageId, FrameView)>, j: int, target: MessageId)
    requires
        0 <= j < ops.len(),
        touches(ops[j].0, ops[j].1, target),
        ops[j].1 is Delete,
    ensures
        removed(ops, target),
    decreases ops.len(),
{
    if j < ops.len() - 1 {
        lemma_removed(ops.drop_last(), j, target);
    }
}

/// A message that none of its author's ops touches reads as it was written.
pub proof fn law_nothing_else_is_changed(ops: Seq<(MessageId, FrameView)>, i: int, me: [u8; 32])
    requires
        0 <= i < written(ops, me).len(),
        untouched(ops, written(ops, me)[i].id),
    ensures
        ({
            let m = conversation(ops, me)[i];
            let w = written(ops, me)[i];
            m == MessageView { reactions: m.reactions, ..w }
        }),
{
    lemma_untouched(ops, written(ops, me)[i].id);
    lemma_written_stands(ops, me);
}

proof fn lemma_untouched(ops: Seq<(MessageId, FrameView)>, target: MessageId)
    requires
        untouched(ops, target),
    ensures
        deciding(ops, target) is None,
        !removed(ops, target),
    decreases ops.len(),
{
    if ops.len() > 0 {
        let init = ops.drop_last();
        assert(ops[ops.len() - 1] == ops.last());
        assert forall|k: int| 0 <= k < init.len() implies !touches((#[trigger] init[k]).0, init[k].1, target) by {
            assert(init[k] == ops[k]);
        }
        lemma_untouched(init, target);
    }
}

/// The ids of the chat messages among the ops, in order.
pub open spec fn chats(ops: Seq<(MessageId, FrameView)>) -> Seq<MessageId>
    decreases ops.len(),
{
    if ops.len() == 0 {
        Seq::empty()
    } else if ops.last().1 is Chat {
        chats(ops.drop_last()).push(ops.last().0)
    } else {
        chats(ops.drop_last())
    }
}

/// Ops are not messages: a conversation shows the chat messages, each once and
/// in order, and nothing else.
pub proof fn law_ops_are_not_messages(ops: Seq<(MessageId, FrameView)>, me: [u8; 32])
    ensures
        conversation(ops, me).map_values(|m: MessageView| m.id) == chats(ops),
{
    lemma_written_ids(ops, me);
    assert(conversation(ops, me).map_values(|m: MessageView| m.id) =~= chats(ops));
}

proof fn lemma_written_ids(ops: Seq<(MessageId, FrameView)>, me: [u8; 32])
    ensures
        written(ops, me).len() == chats(ops).len(),
        forall|k: int| 0 <= k < chats(ops).len() ==> (#[trigger] written(ops, me)[k]).id == chats(ops)[k],
    decreases ops.len(),
{
    if ops.len() > 0 {
        lemma_written_ids(ops.drop_last(), me);
    }
}

/// What is kept of this peer's reaction to this message with this emoji.
pub open spec fn kept(reactions: Seq<ReactionView>, target: MessageId, emoji: Seq<char>, reactor: [u8; 32]) -> Option<
    ReactionView,
>
    decreases reactions.len(),
{
    if reactions.len() == 0 {
        None
    } else if concerns(reactions[0], target, emoji, reactor) {
        Some(reactions[0])
    } else {
        kept(reactions.skip(1), target, emoji, reactor)
    }
}

/// Whether no reaction is kept twice.
pub open spec fn settled_once(reactions: Seq<ReactionView>) -> bool {
    forall|i: int, j: int|
        #![trigger reactions[i], reactions[j]]
        0 <= i < j < reactions.len() ==> !concerns(
            reactions[j],
            reactions[i].target,
            reactions[i].emoji,
            reactions[i].reactor,
        )
}

proof fn lemma_settled(reactions: Seq<ReactionView>, new: ReactionView)
    requires
        settled_once(reactions),
    ensures
        settled_once(settled(reactions, new)),
        forall|i: int|
            0 <= i < settled(reactions, new).len() && !concerns(
                #[trigger] settled(reactions, new)[i],
                new.target,
                new.emoji,
                new.reactor,
            ) ==> reactions.contains(settled(reactions, new)[i]),
    decreases reactions.len(),
{
    let after = settled(reactions, new);
    if reactions.len() > 0 {
        if concerns(reactions[0], new.target, new.emoji, new.reactor) {
            assert forall|i: int| 0 <= i < after.len() && !concerns(
                #[trigger] after[i],
                new.target,
                new.emoji,
                new.reactor,
            ) implies reactions.contains(after[i]) by {
                assert(after[i] == reactions[i]);
            }
            assert forall|i: int, j: int|
                #![trigger after[i], after[j]]
                0 <= i < j < after.len() implies !concerns(
                after[j],
                after[i].target,
                after[i].emoji,
                after[i].reactor,
            ) by {
                assert(after[j] == reactions[j]);
                assert(!concerns(reactions[j], reactions[i].target, reactions[i].emoji, reactions[i].reactor));
            }
        } else {
            let rest = reactions.skip(1);
            assert(settled_once(rest)) by {
                assert forall|i: int, j: int|
                    #![trigger rest[i], rest[j]]
                    0 <= i < j < rest.len() implies !concerns(
                    rest[j],
                    rest[i].target,
                    rest[i].emoji,
                    rest[i].reactor,
                ) by {
                    assert(rest[i] == reactions[i + 1]);
                    assert(rest[j] == reactions[j + 1]);
                }
            }
            lemma_settled(rest, new);
            let tail = settled(rest, new);
            assert(after =~= seq![reactions[0]] + tail);
            assert forall|i: int| 0 <= i < after.len() && !concerns(
                #[trigger] after[i],
                new.target,
                new.emoji,
                new.reactor,
            ) implies reactions.contains(after[i]) by {
                if i > 0 {
                    assert(after[i] == tail[i - 1]);
                    let j = rest.index_of(tail[i - 1]);
                    assert(reactions[j + 1] == after[i]);
                } else {
                    assert(reactions[0] == after[0]);
                }
            }
            assert forall|i: int, j: int|
                #![trigger after[i], after[j]]
                0 <= i < j < after.len() implies !concerns(
                after[j],
                after[i].target,
                after[i].emoji,
                after[i].reactor,
            ) by {
                assert(after[j] == tail[j - 1]);
                if i > 0 {
                    assert(after[i] == tail[i - 1]);
                } else if !concerns(after[j], new.target, new.emoji, new.reactor) {
                    assert(rest.contains(tail[j - 1]));
                    let k = rest.index_of(tail[j - 1]);
                    assert(reactions[k + 1] == after[j]);
                }
            }
        }
    }
}

/// Reactions are kept once per message, emoji and peer.
pub proof fn law_reactions_are_kept_once(ops: Seq<(MessageId, FrameView)>)
    ensures
        settled_once(reacted(ops)),
    decreases ops.len(),
{
    if ops.len() > 0 {
        law_reactions_are_kept_once(ops.drop_last());
        let id = ops.last().0;
        match ops.last().1 {
            FrameView::React { target, emoji, on, .. } => lemma_settled(
                reacted(ops.drop_last()),
                ReactionView { target, emoji, reactor: id.sender, on, at: id },
            ),
            _ => {},
        }
    }
}

/// The op that says whether a peer's reaction to a message with an emoji
/// stands: of the reactor's ops on it, the one made last.
pub open spec fn last_word(
    ops: Seq<(MessageId, FrameView)>,
    target: MessageId,
    emoji: Seq<char>,
    reactor: [u8; 32],
) -> Option<ReactionView>
    decreases ops.len(),
{
    if ops.len() == 0 {
        None
    } else {
        let before = last_word(ops.drop_last(), target, emoji, reactor);
        let id = ops.last().0;
        match ops.last().1 {
            FrameView::React { target: t, emoji: e, on, .. } => if t == target && e == emoji && id.sender == reactor
                && (before matches Some(b) ==> !made_before(id, b.at)) {
                Some(ReactionView { target, emoji, reactor, on, at: id })
            } else {
                before
            },
            _ => before,
        }
    }
}

/// A reaction is a toggle that its reactor's last op settles, by number,
/// wherever the clock puts it, and it settles nobody else's.
pub proof fn law_last_reaction_wins(
    ops: Seq<(MessageId, FrameView)>,
    target: MessageId,
    emoji: Seq<char>,
    reactor: [u8; 32],
)
    ensures
        kept(reacted(ops), target, emoji, reactor) == last_word(ops, target, emoji, reactor),
    decreases ops.len(),
{
    if ops.len() > 0 {
        let init = ops.drop_last();
        law_last_reaction_wins(init, target, emoji, reactor);
        let id = ops.last().0;
        match ops.last().1 {
            FrameView::React { target: t, emoji: e, on, .. } => lemma_kept(
                reacted(init),
                ReactionView { target: t, emoji: e, reactor: id.sender, on, at: id },
                target,
                emoji,
                reactor,
            ),
            _ => {},
        }
    }
}

proof fn lemma_kept(
    reactions: Seq<ReactionView>,
    new: ReactionView,
    target: MessageId,
    emoji: Seq<char>,
    reactor: [u8; 32],
)
    ensures
        kept(settled(reactions, new), target, emoji, reactor) == if concerns(new, target, emoji, reactor) {
            match kept(reactions, target, emoji, reactor) {
                Some(r) if made_before(new.at, r.at) => Some(r),
                _ => Some(new),
            }
        } else {
            kept(reactions, target, emoji, reactor)
        },
    decreases reactions.len(),
{
    reveal_with_fuel(kept, 2);
    let after = settled(reactions, new);
    if reactions.len() == 0 {
        assert(after.skip(1) =~= reactions);
    } else if concerns(reactions[0], new.target, new.emoji, new.reactor) {
        assert(after.skip(1) =~= reactions.skip(1));
    } else {
        lemma_kept(reactions.skip(1), new, target, emoji, reactor);
        assert(after.skip(1) =~= settled(reactions.skip(1), new));
    }
}

/// The reactions to a message with an emoji that stand.
pub open spec fn standing(reactions: Seq<ReactionView>, target: MessageId, emoji: Seq<char>) -> Seq<ReactionView> {
    reactions.filter(|r: ReactionView| r.target == target && r.emoji == emoji && r.on)
}

/// Whether one of these reactions is `me`'s.
pub open spec fn among(reactions: Seq<ReactionView>, me: [u8; 32]) -> bool {
    exists|i: int| 0 <= i < reactions.len() && (#[trigger] reactions[i]).reactor == me
}

/// What is counted of an emoji.
pub open spec fn slot_of(slots: Seq<Slot>, emoji: Seq<char>) -> Option<Slot>
    decreases slots.len(),
{
    if slots.len() == 0 {
        None
    } else if slots[0].emoji == emoji {
        Some(slots[0])
    } else {
        slot_of(slots.skip(1), emoji)
    }
}

/// Whether slots are in the order of their emoji, none twice.
pub open spec fn by_emoji(slots: Seq<Slot>) -> bool {
    forall|i: int, j: int|
        0 <= i < j < slots.len() ==> text::precedes((#[trigger] slots[i]).emoji, (#[trigger] slots[j]).emoji)
}

proof fn lemma_counted_slot(slots: Seq<Slot>, emoji: Seq<char>, mine: bool, other: Seq<char>)
    requires
        by_emoji(slots),
    ensures
        slot_of(counted(slots, emoji, mine), other) == if other != emoji {
            slot_of(slots, other)
        } else {
            match slot_of(slots, emoji) {
                Some(s) => Some(Slot { emoji, count: s.count + 1, mine: s.mine || mine }),
                None => Some(Slot { emoji, count: 1, mine }),
            }
        },
    decreases slots.len(),
{
    reveal_with_fuel(slot_of, 2);
    let after = counted(slots, emoji, mine);
    if slots.len() == 0 {
        assert(after.skip(1) =~= slots);
    } else if slots[0].emoji == emoji {
        assert(after.skip(1) =~= slots.skip(1));
    } else if text::precedes(emoji, slots[0].emoji) {
        assert(after.skip(1) =~= slots);
        lemma_no_slot_before(slots, emoji);
    } else {
        let rest = slots.skip(1);
        assert(by_emoji(rest)) by {
            assert forall|i: int, j: int| 0 <= i < j < rest.len() implies text::precedes(
                (#[trigger] rest[i]).emoji,
                (#[trigger] rest[j]).emoji,
            ) by {
                assert(rest[i] == slots[i + 1] && rest[j] == slots[j + 1]);
            }
        }
        lemma_counted_slot(rest, emoji, mine, other);
        assert(after.skip(1) =~= counted(rest, emoji, mine));
    }
}

proof fn lemma_no_slot_before(slots: Seq<Slot>, emoji: Seq<char>)
    requires
        by_emoji(slots),
        slots.len() > 0 ==> text::precedes(emoji, slots[0].emoji),
    ensures
        slot_of(slots, emoji) is None,
    decreases slots.len(),
{
    if slots.len() > 0 {
        text::lemma_precedes(emoji, slots[0].emoji, slots[0].emoji);
        let rest = slots.skip(1);
        assert forall|i: int, j: int| 0 <= i < j < rest.len() implies text::precedes(
            (#[trigger] rest[i]).emoji,
            (#[trigger] rest[j]).emoji,
        ) by {
            assert(rest[i] == slots[i + 1] && rest[j] == slots[j + 1]);
        }
        if rest.len() > 0 {
            assert(rest[0] == slots[1]);
            text::lemma_precedes(emoji, slots[0].emoji, slots[1].emoji);
        }
        lemma_no_slot_before(rest, emoji);
    }
}

proof fn lemma_counted_sorted(slots: Seq<Slot>, emoji: Seq<char>, mine: bool)
    requires
        by_emoji(slots),
    ensures
        by_emoji(counted(slots, emoji, mine)),
        forall|i: int|
            0 <= i < counted(slots, emoji, mine).len() ==> (#[trigger] counted(slots, emoji, mine)[i]).emoji == emoji
                || exists|j: int| 0 <= j < slots.len() && slots[j].emoji == counted(slots, emoji, mine)[i].emoji,
    decreases slots.len(),
{
    let after = counted(slots, emoji, mine);
    if slots.len() > 0 {
        let rest = slots.skip(1);
        assert forall|i: int, j: int| 0 <= i < j < rest.len() implies text::precedes(
            (#[trigger] rest[i]).emoji,
            (#[trigger] rest[j]).emoji,
        ) by {
            assert(rest[i] == slots[i + 1] && rest[j] == slots[j + 1]);
        }
        if slots[0].emoji == emoji {
            assert forall|i: int| 0 <= i < after.len() implies (#[trigger] after[i]).emoji == emoji || exists|j: int|
                0 <= j < slots.len() && slots[j].emoji == after[i].emoji by {
                assert(slots[i].emoji == after[i].emoji);
            }
            assert forall|i: int, j: int| 0 <= i < j < after.len() implies text::precedes(
                (#[trigger] after[i]).emoji,
                (#[trigger] after[j]).emoji,
            ) by {
                assert(text::precedes(slots[i].emoji, slots[j].emoji));
            }
        } else if text::precedes(emoji, slots[0].emoji) {
            assert forall|i: int| 0 <= i < after.len() implies (#[trigger] after[i]).emoji == emoji || exists|j: int|
                0 <= j < slots.len() && slots[j].emoji == after[i].emoji by {
                if i > 0 {
                    assert(slots[i - 1].emoji == after[i].emoji);
                }
            }
            assert forall|i: int, j: int| 0 <= i < j < after.len() implies text::precedes(
                (#[trigger] after[i]).emoji,
                (#[trigger] after[j]).emoji,
            ) by {
                assert(after[j] == slots[j - 1]);
                if i > 0 {
                    assert(after[i] == slots[i - 1]);
                } else if j > 1 {
                    assert(text::precedes(slots[0].emoji, slots[j - 1].emoji));
                    text::lemma_precedes(emoji, slots[0].emoji, slots[j - 1].emoji);
                }
            }
        } else {
            lemma_counted_sorted(rest, emoji, mine);
            let tail = counted(rest, emoji, mine);
            assert(after =~= seq![slots[0]] + tail);
            assert forall|i: int| 0 <= i < after.len() implies (#[trigger] after[i]).emoji == emoji || exists|j: int|
                0 <= j < slots.len() && slots[j].emoji == after[i].emoji by {
                if i > 0 {
                    assert(after[i] == tail[i - 1]);
                    if tail[i - 1].emoji != emoji {
                        let j = choose|j: int| 0 <= j < rest.len() && rest[j].emoji == tail[i - 1].emoji;
                        assert(slots[j + 1].emoji == after[i].emoji);
                    }
                } else {
                    assert(slots[0].emoji == after[i].emoji);
                }
            }
            assert forall|i: int, j: int| 0 <= i < j < after.len() implies text::precedes(
                (#[trigger] after[i]).emoji,
                (#[trigger] after[j]).emoji,
            ) by {
                assert(after[j] == tail[j - 1]);
                if i > 0 {
                    assert(after[i] == tail[i - 1]);
                } else if tail[j - 1].emoji == emoji {
                    text::lemma_precedes(slots[0].emoji, emoji, emoji);
                } else {
                    let k = choose|k: int| 0 <= k < rest.len() && rest[k].emoji == tail[j - 1].emoji;
                    assert(rest[k] == slots[k + 1]);
                    assert(text::precedes(slots[0].emoji, slots[k + 1].emoji));
                }
            }
        }
    }
}

/// Whether an emoji is counted under a message as often as it stands, with a mark
/// where one is `me`'s, and not at all where none stands.
pub open spec fn counted_right(
    reactions: Seq<ReactionView>,
    target: MessageId,
    me: [u8; 32],
    emoji: Seq<char>,
) -> bool {
    let these = standing(reactions, target, emoji);
    match slot_of(tally(reactions, target, me), emoji) {
        Some(s) => s.emoji == emoji && s.count == these.len() && s.count > 0 && s.mine == among(these, me),
        None => these.len() == 0,
    }
}

/// The reactions shown under a message are in the order of their emoji, each
/// emoji once, with exactly as many as stand and a mark where one is this
/// endpoint's. A peer counts once, as reactions are kept once.
pub proof fn law_reactions_are_counted(reactions: Seq<ReactionView>, target: MessageId, me: [u8; 32])
    ensures
        by_emoji(tally(reactions, target, me)),
        forall|e: Seq<char>| #[trigger] counted_right(reactions, target, me, e),
    decreases reactions.len(),
{
    reveal(Seq::filter);
    if reactions.len() > 0 {
        let init = reactions.drop_last();
        let r = reactions.last();
        law_reactions_are_counted(init, target, me);
        let before = tally(init, target, me);
        if r.target == target && r.on {
            lemma_counted_sorted(before, r.emoji, r.reactor == me);
        }
        assert forall|e: Seq<char>| #[trigger] counted_right(reactions, target, me, e) by {
            assert(counted_right(init, target, me, e));
            let was = standing(init, target, e);
            let now = standing(reactions, target, e);
            if r.target == target && r.on {
                lemma_counted_slot(before, r.emoji, r.reactor == me, e);
            }
            if r.target == target && r.on && r.emoji == e {
                assert(now == was.push(r));
                if among(was, me) {
                    let i = choose|i: int| 0 <= i < was.len() && (#[trigger] was[i]).reactor == me;
                    assert(now[i].reactor == me);
                }
                if among(now, me) {
                    let i = choose|i: int| 0 <= i < now.len() && (#[trigger] now[i]).reactor == me;
                    if i < was.len() {
                        assert(was[i].reactor == me);
                    }
                }
                assert(now[was.len() as int].reactor == r.reactor);
            } else {
                assert(now == was);
            }
        }
    } else {
        assert forall|e: Seq<char>| #[trigger] counted_right(reactions, target, me, e) by {
            assert(standing(reactions, target, e).len() == 0);
        }
    }
}

/// Whether the ops are in the order in which they are shown.
pub open spec fn in_order(rows: Seq<OpRow>) -> bool {
    forall|i: int, j: int|
        0 <= i < j < rows.len() ==> !earlier((#[trigger] rows[j]).id, (#[trigger] rows[i]).id)
}

/// A conversation is shown in the order of the clock, whatever the order in
/// which its ops arrived, and none of them is lost or doubled.
pub proof fn law_timeline_is_sorted(rows: Seq<OpRow>, peer: [u8; 32])
    ensures
        in_order(timeline(rows, peer)),
        timeline(rows, peer).to_multiset() == rows.filter(|r: OpRow| r.peer == peer).to_multiset(),
    decreases rows.len(),
{
    broadcast use vstd::seq_lib::group_to_multiset_ensures;

    let p = |r: OpRow| r.peer == peer;
    reveal(Seq::filter);
    if rows.len() > 0 {
        let init = rows.drop_last();
        law_timeline_is_sorted(init, peer);
        if rows.last().peer == peer {
            lemma_placed_sorted(timeline(init, peer), rows.last());
        }
    } else {
        assert(timeline(rows, peer) =~= rows.filter(p));
    }
}

proof fn lemma_placed_sorted(rows: Seq<OpRow>, row: OpRow)
    requires
        in_order(rows),
    ensures
        in_order(placed(rows, row)),
        placed(rows, row).to_multiset() == rows.to_multiset().insert(row),
        forall|i: int|
            0 <= i < placed(rows, row).len() ==> (#[trigger] placed(rows, row)[i]) == row || rows.contains(
                placed(rows, row)[i],
            ),
    decreases rows.len(),
{
    broadcast use vstd::seq_lib::group_to_multiset_ensures;

    let after = placed(rows, row);
    if rows.len() == 0 || !earlier(row.id, rows.last().id) {
        assert forall|i: int, j: int| 0 <= i < j < after.len() implies !earlier(
            (#[trigger] after[j]).id,
            (#[trigger] after[i]).id,
        ) by {
            if j == rows.len() {
                if i < rows.len() - 1 {
                    assert(!earlier(rows[rows.len() - 1].id, rows[i].id));
                }
            }
        }
        assert forall|i: int| 0 <= i < after.len() implies (#[trigger] after[i]) == row || rows.contains(
            after[i],
        ) by {
            if i < rows.len() {
                assert(rows[i] == after[i]);
            }
        }
    } else {
        let init = rows.drop_last();
        lemma_placed_sorted(init, row);
        let front = placed(init, row);
        assert forall|i: int, j: int| 0 <= i < j < after.len() implies !earlier(
            (#[trigger] after[j]).id,
            (#[trigger] after[i]).id,
        ) by {
            if j == front.len() {
                assert(after[i] == front[i]);
                if front[i] != row {
                    let k = init.index_of(front[i]);
                    assert(rows[k] == front[i]);
                    assert(!earlier(rows[rows.len() - 1].id, rows[k].id));
                }
            } else {
                assert(after[i] == front[i]);
                assert(after[j] == front[j]);
            }
        }
        assert forall|i: int| 0 <= i < after.len() implies (#[trigger] after[i]) == row || rows.contains(
            after[i],
        ) by {
            if i < front.len() {
                assert(after[i] == front[i]);
                if front[i] != row {
                    let k = init.index_of(front[i]);
                    assert(rows[k] == front[i]);
                }
            } else {
                assert(rows[rows.len() - 1] == after[i]);
            }
        }
        assert(rows =~= init.push(rows.last()));
    }
}

proof fn lemma_placed_holds(rows: Seq<OpRow>, row: OpRow)
    ensures
        placed(rows, row).contains(row),
        forall|r: OpRow| #[trigger] rows.contains(r) ==> placed(rows, row).contains(r),
    decreases rows.len(),
{
    let after = placed(rows, row);
    if rows.len() == 0 || !earlier(row.id, rows.last().id) {
        assert(after[rows.len() as int] == row);
        assert forall|r: OpRow| #[trigger] rows.contains(r) implies after.contains(r) by {
            let k = rows.index_of(r);
            assert(after[k] == r);
        }
    } else {
        let init = rows.drop_last();
        lemma_placed_holds(init, row);
        let front = placed(init, row);
        let k = front.index_of(row);
        assert(after[k] == row);
        assert forall|r: OpRow| #[trigger] rows.contains(r) implies after.contains(r) by {
            let j = rows.index_of(r);
            if j < init.len() {
                assert(init[j] == r);
                assert(init.contains(r));
                let m = front.index_of(r);
                assert(after[m] == r);
            } else {
                assert(after[front.len() as int] == r);
            }
        }
    }
}

proof fn lemma_timeline_holds(rows: Seq<OpRow>, i: int)
    requires
        0 <= i < rows.len(),
    ensures
        timeline(rows, rows[i].peer).contains(rows[i]),
    decreases rows.len(),
{
    let peer = rows[i].peer;
    let init = rows.drop_last();
    if i < init.len() {
        lemma_timeline_holds(init, i);
        lemma_placed_holds(timeline(init, peer), rows.last());
    } else {
        lemma_placed_holds(timeline(init, peer), rows.last());
    }
}

proof fn lemma_opened_ops(key: Seq<u8>, rows: Seq<OpRow>, j: int)
    requires
        opened_ops(key, rows) is Ok,
        0 <= j < rows.len(),
    ensures
        (opened_ops(key, rows)->Ok_0).len() == rows.len(),
        opened_frame(key, rows[j].payload@) is Ok,
        (opened_ops(key, rows)->Ok_0)[j] == (rows[j].id, opened_frame(key, rows[j].payload@)->Ok_0),
    decreases rows.len(),
{
    reveal_with_fuel(opened_ops, 2);
    if rows.len() > 1 {
        lemma_opened_ops(key, rows.drop_last(), if j < rows.len() - 1 { j } else { 0 });
    }
}

/// Whether no edit and no delete among the ops touches this message.
pub open spec fn untouched(ops: Seq<(MessageId, FrameView)>, id: MessageId) -> bool {
    forall|k: int| 0 <= k < ops.len() ==> !touches((#[trigger] ops[k]).0, ops[k].1, id)
}

proof fn lemma_written_holds(ops: Seq<(MessageId, FrameView)>, j: int, me: [u8; 32]) -> (k: int)
    requires
        0 <= j < ops.len(),
        ops[j].1 is Chat,
    ensures
        0 <= k < written(ops, me).len(),
        written(ops, me)[k].id == ops[j].0,
        written(ops, me)[k].body == ops[j].1->Chat_body,
        written(ops, me)[k].reply_to == ops[j].1->reply_to,
    decreases ops.len(),
{
    let init = ops.drop_last();
    if j == ops.len() - 1 {
        written(init, me).len() as int
    } else {
        lemma_written_holds(init, j, me)
    }
}

/// What is recorded is read back: a message in the store is in its
/// conversation, as it was written unless its author edits or deletes it.
pub proof fn law_recorded_messages_are_shown(key: Seq<u8>, rows: Seq<OpRow>, i: int, me: [u8; 32])
    requires
        0 <= i < rows.len(),
        opened_ops(key, timeline(rows, rows[i].peer)) is Ok,
        opened_frame(key, rows[i].payload@) matches Ok(f) && f is Chat,
    ensures
        ({
            let ops = opened_ops(key, timeline(rows, rows[i].peer))->Ok_0;
            let f = opened_frame(key, rows[i].payload@)->Ok_0;
            &&& ops.contains((rows[i].id, f))
            &&& chats(ops).contains(rows[i].id)
            &&& untouched(ops, rows[i].id) ==> exists|k: int|
                0 <= k < conversation(ops, me).len() && {
                    let m = #[trigger] conversation(ops, me)[k];
                    m.id == rows[i].id && m.body == f->Chat_body && m.reply_to == f->reply_to && !m.deleted
                        && m.outbound == (m.id.sender == me)
                }
        }),
{
    let peer = rows[i].peer;
    let line = timeline(rows, peer);
    let ops = opened_ops(key, line)->Ok_0;
    let f = opened_frame(key, rows[i].payload@)->Ok_0;
    lemma_timeline_holds(rows, i);
    let j = line.index_of(rows[i]);
    lemma_opened_ops(key, line, j);
    assert(ops[j] == (rows[i].id, f));
    lemma_chats_hold(ops, j);
    if untouched(ops, rows[i].id) {
        let k = lemma_written_holds(ops, j, me);
        lemma_untouched(ops, rows[i].id);
        lemma_written_stands(ops, me);
        assert(conversation(ops, me)[k].id == rows[i].id);
    }
}

/// Tells the rows of a conversation that hold a chat message.
pub open spec fn chat_of(key: Seq<u8>, peer: [u8; 32]) -> spec_fn(OpRow) -> bool {
    |r: OpRow| r.peer == peer && (opened_frame(key, r.payload@) matches Ok(f) && f is Chat)
}

/// A history is the end of the whole conversation. The whole shows one message
/// for each chat message that the store holds of it, and nothing else, sorted
/// by the clock and by number, oldest first, and tells which are this
/// endpoint's own.
pub proof fn law_history_is_the_end_of_the_whole(
    key: Seq<u8>,
    rows: Seq<OpRow>,
    peer: [u8; 32],
    me: [u8; 32],
    limit: nat,
    most: nat,
)
    requires
        opened_ops(key, timeline(rows, peer)) is Ok,
        limit <= most,
    ensures
        ({
            let all = conversation(opened_ops(key, timeline(rows, peer))->Ok_0, me);
            let chat_rows = timeline(rows.filter(chat_of(key, peer)), peer);
            &&& newest(all, limit) == newest(newest(all, most), limit)
            &&& newest(all, limit).len() == if limit < all.len() { limit } else { all.len() }
            &&& newest(all, limit) == all.skip(all.len() - newest(all, limit).len())
            &&& all.len() <= rows.len()
            &&& all.map_values(|m: MessageView| m.id) == chat_rows.map_values(|r: OpRow| r.id)
            &&& chat_rows.to_multiset() == rows.filter(chat_of(key, peer)).to_multiset()
            &&& forall|i: int, j: int|
                0 <= i < j < all.len() ==> !earlier((#[trigger] all[j]).id, (#[trigger] all[i]).id)
            &&& forall|i: int| 0 <= i < all.len() ==> (#[trigger] all[i]).outbound == (all[i].id.sender == me)
        }),
{
    let p = chat_of(key, peer);
    let line = timeline(rows, peer);
    let ops = opened_ops(key, line)->Ok_0;
    let all = conversation(ops, me);
    let chat_rows = timeline(rows.filter(p), peer);
    assert(newest(newest(all, most), limit) =~= newest(all, limit));
    assert(newest(all, limit) =~= all.skip(all.len() - newest(all, limit).len()));
    lemma_timeline_filter(rows, peer, p);
    lemma_timeline_peer(rows, peer);
    lemma_chats_are_rows(key, line, peer);
    law_ops_are_not_messages(ops, me);
    law_timeline_is_sorted(rows.filter(p), peer);
    lemma_filter_twice(rows, p, |r: OpRow| r.peer == peer);
    let ids = all.map_values(|m: MessageView| m.id);
    assert(ids == chat_rows.map_values(|r: OpRow| r.id));
    assert forall|i: int, j: int| 0 <= i < j < all.len() implies !earlier(
        (#[trigger] all[j]).id,
        (#[trigger] all[i]).id,
    ) by {
        assert(ids[i] == chat_rows[i].id);
        assert(ids[j] == chat_rows[j].id);
    }
    lemma_written_stands(ops, me);
    assert forall|i: int| 0 <= i < all.len() implies (#[trigger] all[i]).outbound == (all[i].id.sender == me) by {
        assert(written(ops, me)[i].outbound == (written(ops, me)[i].id.sender == me));
    }
    assert(all.len() <= rows.len()) by {
        broadcast use vstd::seq_lib::group_to_multiset_ensures;

        lemma_filter_len(rows, p);
        assert(chat_rows.to_multiset().len() == chat_rows.len());
        assert(rows.filter(p).to_multiset().len() == rows.filter(p).len());
        assert(ids.len() == all.len());
    }
}

proof fn lemma_filter_len(rows: Seq<OpRow>, p: spec_fn(OpRow) -> bool)
    ensures
        rows.filter(p).len() <= rows.len(),
    decreases rows.len(),
{
    reveal(Seq::filter);
    if rows.len() > 0 {
        lemma_filter_len(rows.drop_last(), p);
    }
}

proof fn lemma_filter_twice(rows: Seq<OpRow>, p: spec_fn(OpRow) -> bool, q: spec_fn(OpRow) -> bool)
    requires
        forall|r: OpRow| #[trigger] p(r) ==> q(r),
    ensures
        rows.filter(p).filter(q) == rows.filter(p),
    decreases rows.len(),
{
    reveal(Seq::filter);
    if rows.len() > 0 {
        let init = rows.drop_last();
        lemma_filter_twice(init, p, q);
        if p(rows.last()) {
            assert(rows.filter(p).drop_last() =~= init.filter(p));
        }
    } else {
        assert(rows.filter(p).filter(q) =~= rows.filter(p));
    }
}

proof fn lemma_chats_are_rows(key: Seq<u8>, line: Seq<OpRow>, peer: [u8; 32])
    requires
        opened_ops(key, line) is Ok,
        forall|k: int| 0 <= k < line.len() ==> (#[trigger] line[k]).peer == peer,
    ensures
        chats(opened_ops(key, line)->Ok_0) == line.filter(chat_of(key, peer)).map_values(|r: OpRow| r.id),
    decreases line.len(),
{
    let p = chat_of(key, peer);
    let ids = |r: OpRow| r.id;
    reveal(Seq::filter);
    if line.len() > 0 {
        let init = line.drop_last();
        assert(line[line.len() - 1].peer == peer);
        assert forall|k: int| 0 <= k < init.len() implies (#[trigger] init[k]).peer == peer by {
            assert(init[k] == line[k]);
        }
        lemma_chats_are_rows(key, init, peer);
        let ops = opened_ops(key, line)->Ok_0;
        assert(ops.drop_last() =~= opened_ops(key, init)->Ok_0);
        assert(chats(ops) =~= line.filter(p).map_values(ids));
    } else {
        assert(chats(opened_ops(key, line)->Ok_0) =~= line.filter(p).map_values(ids));
    }
}

proof fn lemma_chats_hold(ops: Seq<(MessageId, FrameView)>, j: int)
    requires
        0 <= j < ops.len(),
        ops[j].1 is Chat,
    ensures
        chats(ops).contains(ops[j].0),
    decreases ops.len(),
{
    if j == ops.len() - 1 {
        assert(chats(ops)[chats(ops).len() - 1] == ops[j].0);
    } else {
        lemma_chats_hold(ops.drop_last(), j);
        let k = chats(ops.drop_last()).index_of(ops[j].0);
        assert(chats(ops)[k] == ops[j].0);
    }
}

/// Each chat message is shown, at its place among the chat messages, with what
/// it answers and whose it is. Its text is that of the last edit or delete that
/// its author made after it, by number, however far behind, and a delete leaves
/// none. Where there is no such op it reads as it was written. It is marked as
/// deleted just where its author deleted it.
pub proof fn law_messages_read_as_their_authors_left_them(
    ops: Seq<(MessageId, FrameView)>,
    i: int,
    me: [u8; 32],
)
    requires
        0 <= i < ops.len(),
        ops[i].1 is Chat,
    ensures
        ({
            let target = ops[i].0;
            let chat = |op: (MessageId, FrameView)| op.1 is Chat;
            let own = |op: (MessageId, FrameView)|
                (match op.1 {
                    FrameView::Edit { target: t, .. } => t == target,
                    FrameView::Delete { target: t, .. } => t == target,
                    _ => false,
                }) && op.0.sender == target.sender && (op.0.seq > target.seq || (op.0.seq == target.seq && op.0.ts_ms
                    > target.ts_ms));
            let at = ops.take(i).filter(chat).len() as int;
            let m = conversation(ops, me)[at];
            &&& conversation(ops, me).len() == ops.filter(chat).len()
            &&& at < conversation(ops, me).len()
            &&& m.id == target
            &&& m.reply_to == ops[i].1->reply_to
            &&& m.outbound == (target.sender == me)
            &&& m.deleted <==> exists|j: int| 0 <= j < ops.len() && own(#[trigger] ops[j]) && ops[j].1 is Delete
            &&& (forall|j: int| 0 <= j < ops.len() ==> !own(#[trigger] ops[j])) ==> m.body == ops[i].1->Chat_body
            &&& forall|j: int|
                0 <= j < ops.len() && own(#[trigger] ops[j]) && (forall|k: int|
                    0 <= k < ops.len() && k != j && own(#[trigger] ops[k]) ==> ops[k].0.seq < ops[j].0.seq || (
                    ops[k].0.seq == ops[j].0.seq && ops[k].0.ts_ms < ops[j].0.ts_ms)) ==> m.body == (
                match ops[j].1 {
                    FrameView::Edit { body, .. } => body,
                    _ => Seq::<char>::empty(),
                })
        }),
{
    let target = ops[i].0;
    let own = |op: (MessageId, FrameView)|
        (match op.1 {
            FrameView::Edit { target: t, .. } => t == target,
            FrameView::Delete { target: t, .. } => t == target,
            _ => false,
        }) && op.0.sender == target.sender && (op.0.seq > target.seq || (op.0.seq == target.seq && op.0.ts_ms
            > target.ts_ms));
    let at = ops.take(i).filter(|op: (MessageId, FrameView)| op.1 is Chat).len() as int;
    lemma_chat_at(ops, i, me);
    assert forall|op: (MessageId, FrameView)| #[trigger] own(op) == touches(op.0, op.1, target) by {}
    assert(removed(ops, target) <==> exists|j: int|
        0 <= j < ops.len() && own(#[trigger] ops[j]) && ops[j].1 is Delete) by {
        lemma_removed_by_one(ops, target);
        if exists|j: int| 0 <= j < ops.len() && own(#[trigger] ops[j]) && ops[j].1 is Delete {
            let j = choose|j: int| 0 <= j < ops.len() && own(#[trigger] ops[j]) && ops[j].1 is Delete;
            lemma_removed(ops, j, target);
        }
        if removed(ops, target) {
            let j = choose|j: int|
                0 <= j < ops.len() && touches((#[trigger] ops[j]).0, ops[j].1, target) && ops[j].1 is Delete;
            assert(own(ops[j]));
        }
    }
    if forall|j: int| 0 <= j < ops.len() ==> !own(#[trigger] ops[j]) {
        assert forall|k: int| 0 <= k < ops.len() implies !touches((#[trigger] ops[k]).0, ops[k].1, target) by {
            assert(!own(ops[k]));
        }
        lemma_untouched(ops, target);
    }
    assert forall|j: int|
        0 <= j < ops.len() && own(#[trigger] ops[j]) && (forall|k: int|
            0 <= k < ops.len() && k != j && own(#[trigger] ops[k]) ==> ops[k].0.seq < ops[j].0.seq || (ops[k].0.seq
                == ops[j].0.seq && ops[k].0.ts_ms < ops[j].0.ts_ms)) implies conversation(ops, me)[at].body == (
    match ops[j].1 {
        FrameView::Edit { body, .. } => body,
        _ => Seq::<char>::empty(),
    }) by {
        assert forall|k: int|
            0 <= k < ops.len() && k != j && touches((#[trigger] ops[k]).0, ops[k].1, target) implies made_before(
            ops[k].0,
            ops[j].0,
        ) by {
            assert(own(ops[k]));
        }
        lemma_deciding(ops, j, target);
    }
}

/// Where a chat message is among the messages as they were written.
proof fn lemma_chat_at(ops: Seq<(MessageId, FrameView)>, i: int, me: [u8; 32])
    requires
        0 <= i < ops.len(),
        ops[i].1 is Chat,
    ensures
        ({
            let chat = |op: (MessageId, FrameView)| op.1 is Chat;
            let at = ops.take(i).filter(chat).len() as int;
            let w = written(ops, me)[at];
            &&& written(ops, me).len() == ops.filter(chat).len()
            &&& at < written(ops, me).len()
            &&& w.id == ops[i].0
            &&& w.body == ops[i].1->Chat_body
            &&& w.reply_to == ops[i].1->reply_to
            &&& w.outbound == (ops[i].0.sender == me)
        }),
    decreases ops.len(),
{
    let chat = |op: (MessageId, FrameView)| op.1 is Chat;
    let init = ops.drop_last();
    reveal(Seq::filter);
    lemma_written_len(init, me);
    if i < init.len() {
        lemma_chat_at(init, i, me);
        assert(init.take(i) =~= ops.take(i));
    } else {
        assert(ops.take(i) =~= init);
    }
}

proof fn lemma_written_len(ops: Seq<(MessageId, FrameView)>, me: [u8; 32])
    ensures
        written(ops, me).len() == ops.filter(|op: (MessageId, FrameView)| op.1 is Chat).len(),
    decreases ops.len(),
{
    reveal(Seq::filter);
    if ops.len() > 0 {
        lemma_written_len(ops.drop_last(), me);
    }
}

proof fn lemma_removed_by_one(ops: Seq<(MessageId, FrameView)>, target: MessageId)
    ensures
        removed(ops, target) ==> exists|j: int|
            0 <= j < ops.len() && touches((#[trigger] ops[j]).0, ops[j].1, target) && ops[j].1 is Delete,
    decreases ops.len(),
{
    if ops.len() > 0 && removed(ops, target) {
        let init = ops.drop_last();
        lemma_removed_by_one(init, target);
        if removed(init, target) {
            let j = choose|j: int|
                0 <= j < init.len() && touches((#[trigger] init[j]).0, init[j].1, target) && init[j].1 is Delete;
            assert(ops[j] == init[j]);
        } else {
            assert(ops[ops.len() - 1] == ops.last());
        }
    }
}

/// A conversation is in the order of the wall clock, and of the numbers where the
/// clock is the same. This is so for clocks and numbers in the range of signed
/// numbers, which is how they are stored.
pub proof fn law_the_clock_orders_a_conversation(rows: Seq<OpRow>, peer: [u8; 32], i: int, j: int)
    requires
        0 <= i < j < timeline(rows, peer).len(),
        forall|k: int|
            0 <= k < rows.len() ==> (#[trigger] rows[k]).id.ts_ms <= i64::MAX && rows[k].id.seq <= i64::MAX,
    ensures
        ({
            let a = timeline(rows, peer)[i].id;
            let b = timeline(rows, peer)[j].id;
            a.ts_ms < b.ts_ms || (a.ts_ms == b.ts_ms && a.seq <= b.seq)
        }),
{
    law_timeline_is_sorted(rows, peer);
    let line = timeline(rows, peer);
    let mine = rows.filter(|r: OpRow| r.peer == peer);
    assert forall|k: int| 0 <= k < line.len() implies (#[trigger] line[k]).id.ts_ms <= i64::MAX && line[k].id.seq
        <= i64::MAX by {
        broadcast use vstd::seq_lib::group_to_multiset_ensures;

        assert(line.contains(line[k]));
        assert(line.to_multiset().count(line[k]) > 0);
        assert(mine.contains(line[k]));
        let n = mine.index_of(line[k]);
        lemma_filter_member(rows, |r: OpRow| r.peer == peer, n);
    }
    assert(!earlier(line[j].id, line[i].id));
    let a = line[i].id;
    let b = line[j].id;
    assert(a.ts_ms as i64 == a.ts_ms && b.ts_ms as i64 == b.ts_ms);
    assert(a.seq as i64 == a.seq && b.seq as i64 == b.seq);
}

proof fn lemma_filter_member(rows: Seq<OpRow>, p: spec_fn(OpRow) -> bool, n: int)
    requires
        0 <= n < rows.filter(p).len(),
    ensures
        exists|k: int| 0 <= k < rows.len() && #[trigger] rows[k] == rows.filter(p)[n],
    decreases rows.len(),
{
    reveal(Seq::filter);
    if rows.len() > 0 {
        let init = rows.drop_last();
        if n < init.filter(p).len() {
            lemma_filter_member(init, p, n);
            let k = choose|k: int| 0 <= k < init.len() && #[trigger] init[k] == init.filter(p)[n];
            assert(rows[k] == rows.filter(p)[n]);
        } else {
            assert(rows[rows.len() - 1] == rows.filter(p)[n]);
        }
    }
}

/// A store resumes at the highest number that its owner has used in it, so that
/// no number is used again, and at no other.
pub proof fn law_numbers_are_not_used_again(rows: Seq<OpRow>, me: [u8; 32])
    ensures
        forall|i: int|
            0 <= i < rows.len() && (#[trigger] rows[i]).id.sender == me ==> rows[i].id.seq <= highest(rows, me),
        highest(rows, me) == 0 || exists|i: int|
            0 <= i < rows.len() && (#[trigger] rows[i]).id.sender == me && rows[i].id.seq == highest(rows, me),
    decreases rows.len(),
{
    if rows.len() > 0 {
        let init = rows.drop_last();
        law_numbers_are_not_used_again(init, me);
        assert forall|i: int| 0 <= i < rows.len() && (#[trigger] rows[i]).id.sender == me implies rows[i].id.seq
            <= highest(rows, me) by {
            if i < init.len() {
                assert(init[i].id.seq <= highest(init, me));
            }
        }
        if highest(rows, me) != 0 {
            if highest(rows, me) == highest(init, me) {
                let i = choose|i: int|
                    0 <= i < init.len() && (#[trigger] init[i]).id.sender == me && init[i].id.seq == highest(init, me);
                assert(rows[i].id.seq == highest(rows, me));
            } else {
                assert(rows[rows.len() - 1].id.seq == highest(rows, me));
            }
        }
    }
}

/// A conversation has as many messages as there are chat messages among its ops.
pub proof fn lemma_conversation_len(ops: Seq<(MessageId, FrameView)>, me: [u8; 32])
    ensures
        conversation(ops, me).len() == ops.filter(|op: (MessageId, FrameView)| op.1 is Chat).len(),
{
    lemma_written_len(ops, me);
}

/// Whether an op is this peer's on the reaction to this message with this emoji.
pub open spec fn reacts(op: (MessageId, FrameView), target: MessageId, emoji: Seq<char>, who: [u8; 32]) -> bool {
    op.0.sender == who && (op.1 matches FrameView::React { target: t, emoji: e, .. } && t == target && e == emoji)
}

/// Whether op number `j` is this peer's last word on such a reaction, by number,
/// and turns it on.
pub open spec fn turns_on(
    ops: Seq<(MessageId, FrameView)>,
    j: int,
    target: MessageId,
    emoji: Seq<char>,
    who: [u8; 32],
) -> bool {
    &&& 0 <= j < ops.len()
    &&& reacts(ops[j], target, emoji, who)
    &&& ops[j].1->on
    &&& forall|k: int|
        0 <= k < ops.len() && k != j && reacts(#[trigger] ops[k], target, emoji, who) ==> ops[k].0.seq < ops[j].0.seq
            || (ops[k].0.seq == ops[j].0.seq && ops[k].0.ts_ms < ops[j].0.ts_ms)
}

/// Those whose reaction to a message with an emoji stands.
pub open spec fn reactors(ops: Seq<(MessageId, FrameView)>, target: MessageId, emoji: Seq<char>) -> Set<[u8; 32]> {
    Set::new(|who: [u8; 32]| exists|j: int| turns_on(ops, j, target, emoji, who))
}

/// Under a message each emoji is shown once, in order, with exactly as many as
/// those whose last word turned it on, however many they are, and with a mark
/// where this endpoint is one of them. An emoji that nobody stands by is not
/// shown.
pub proof fn law_reactions_shown_are_those_that_stand(
    ops: Seq<(MessageId, FrameView)>,
    i: int,
    me: [u8; 32],
    emoji: Seq<char>,
)
    requires
        0 <= i < ops.len(),
        ops[i].1 is Chat,
        forall|a: int, b: int| 0 <= a < b < ops.len() ==> (#[trigger] ops[a]).0 != (#[trigger] ops[b]).0,
    ensures
        ({
            let at = ops.take(i).filter(|op: (MessageId, FrameView)| op.1 is Chat).len() as int;
            let shown = conversation(ops, me)[at].reactions;
            let who = reactors(ops, ops[i].0, emoji);
            &&& who.finite()
            &&& who.len() > 0 <==> exists|k: int| 0 <= k < shown.len() && (#[trigger] shown[k]).emoji == emoji
            &&& forall|k: int|
                0 <= k < shown.len() && (#[trigger] shown[k]).emoji == emoji ==> shown[k].count == who.len()
                    && shown[k].mine == who.contains(me)
            &&& forall|a: int, b: int|
                0 <= a < b < shown.len() ==> text::precedes((#[trigger] shown[a]).emoji, (#[trigger] shown[b]).emoji)
        }),
{
    let target = ops[i].0;
    let all = reacted(ops);
    let shown = tally(all, target, me);
    let these = standing(all, target, emoji);
    let who = reactors(ops, target, emoji);
    lemma_chat_at(ops, i, me);
    law_reactions_are_kept_once(ops);
    law_reactions_are_counted(all, target, me);
    assert(counted_right(all, target, me, emoji));
    lemma_standing_once(all, target, emoji);
    let names = these.map_values(|r: ReactionView| r.reactor);
    assert(names.no_duplicates()) by {
        assert forall|a: int, b: int| 0 <= a < names.len() && 0 <= b < names.len() && a != b implies names[a]
            != names[b] by {
            assert(these[a].reactor != these[b].reactor);
        }
    }
    assert forall|w: [u8; 32]| #[trigger] who.contains(w) <==> names.to_set().contains(w) by {
        law_last_reaction_wins(ops, target, emoji, w);
        lemma_last_word(ops, target, emoji, w);
        lemma_standing_kept(all, target, emoji, w);
        if names.contains(w) {
            let a = names.index_of(w);
            assert(these[a].reactor == w);
        }
        if among(these, w) {
            let a = choose|a: int| 0 <= a < these.len() && (#[trigger] these[a]).reactor == w;
            assert(names[a] == w);
        }
    }
    assert(who =~= names.to_set());
    names.unique_seq_to_set();
    assert(among(these, me) <==> who.contains(me)) by {
        if among(these, me) {
            let a = choose|a: int| 0 <= a < these.len() && (#[trigger] these[a]).reactor == me;
            assert(names[a] == me);
        }
        if names.contains(me) {
            let a = names.index_of(me);
            assert(these[a].reactor == me);
        }
    }
    assert forall|k: int| 0 <= k < shown.len() && (#[trigger] shown[k]).emoji == emoji implies slot_of(shown, emoji)
        == Some(shown[k]) by {
        lemma_slot_at(shown, emoji, k);
    }
    lemma_slot_is_one(shown, emoji);
    assert(conversation(ops, me)[ops.take(i).filter(|op: (MessageId, FrameView)| op.1 is Chat).len() as int].reactions
        == shown);
}

proof fn lemma_slot_at(slots: Seq<Slot>, emoji: Seq<char>, k: int)
    requires
        by_emoji(slots),
        0 <= k < slots.len(),
        slots[k].emoji == emoji,
    ensures
        slot_of(slots, emoji) == Some(slots[k]),
    decreases slots.len(),
{
    if k > 0 {
        assert(text::precedes(slots[0].emoji, slots[k].emoji));
        text::lemma_precedes(emoji, emoji, emoji);
        let rest = slots.skip(1);
        assert forall|a: int, b: int| 0 <= a < b < rest.len() implies text::precedes(
            (#[trigger] rest[a]).emoji,
            (#[trigger] rest[b]).emoji,
        ) by {
            assert(rest[a] == slots[a + 1] && rest[b] == slots[b + 1]);
        }
        lemma_slot_at(rest, emoji, k - 1);
    }
}

proof fn lemma_slot_is_one(slots: Seq<Slot>, emoji: Seq<char>)
    ensures
        slot_of(slots, emoji) is Some ==> exists|k: int| 0 <= k < slots.len() && (#[trigger] slots[k]).emoji == emoji,
    decreases slots.len(),
{
    if slots.len() > 0 {
        if slots[0].emoji != emoji {
            let rest = slots.skip(1);
            lemma_slot_is_one(rest, emoji);
            if slot_of(rest, emoji) is Some {
                let k = choose|k: int| 0 <= k < rest.len() && (#[trigger] rest[k]).emoji == emoji;
                assert(slots[k + 1].emoji == emoji);
            }
        }
    }
}

proof fn lemma_standing_once(reactions: Seq<ReactionView>, target: MessageId, emoji: Seq<char>)
    requires
        settled_once(reactions),
    ensures
        ({
            let these = standing(reactions, target, emoji);
            &&& forall|a: int, b: int|
                0 <= a < these.len() && 0 <= b < these.len() && a != b ==> (#[trigger] these[a]).reactor != (
                #[trigger] these[b]).reactor
            &&& forall|a: int| 0 <= a < these.len() ==> reactions.contains(#[trigger] these[a])
            &&& forall|a: int|
                0 <= a < these.len() ==> (#[trigger] these[a]).target == target && these[a].emoji == emoji && these[a].on
        }),
    decreases reactions.len(),
{
    reveal(Seq::filter);
    if reactions.len() > 0 {
        let init = reactions.drop_last();
        let r = reactions.last();
        assert(settled_once(init)) by {
            assert forall|a: int, b: int|
                #![trigger init[a], init[b]]
                0 <= a < b < init.len() implies !concerns(init[b], init[a].target, init[a].emoji, init[a].reactor) by {
                assert(init[a] == reactions[a] && init[b] == reactions[b]);
            }
        }
        lemma_standing_once(init, target, emoji);
        let was = standing(init, target, emoji);
        let these = standing(reactions, target, emoji);
        assert forall|a: int| 0 <= a < was.len() implies reactions.contains(#[trigger] was[a]) && (r.target == target
            && r.emoji == emoji ==> was[a].reactor != r.reactor) by {
            assert(init.contains(was[a]));
            let k = init.index_of(was[a]);
            assert(reactions[k] == was[a]);
            assert(!concerns(
                reactions[reactions.len() - 1],
                reactions[k].target,
                reactions[k].emoji,
                reactions[k].reactor,
            ));
        }
        assert(reactions[reactions.len() - 1] == r);
        assert forall|a: int| 0 <= a < these.len() implies reactions.contains(#[trigger] these[a]) by {
            if a < was.len() {
                assert(these[a] == was[a]);
            }
        }
        assert forall|a: int, b: int| 0 <= a < these.len() && 0 <= b < these.len() && a != b implies (
        #[trigger] these[a]).reactor != (#[trigger] these[b]).reactor by {
            if a < was.len() && b < was.len() {
                assert(was[a].reactor != was[b].reactor);
            } else if a < was.len() {
                assert(these[b] == r && these[a] == was[a]);
            } else {
                assert(these[a] == r && these[b] == was[b]);
            }
        }
    }
}

/// A peer's reaction stands where what is kept of it is on.
proof fn lemma_standing_kept(reactions: Seq<ReactionView>, target: MessageId, emoji: Seq<char>, who: [u8; 32])
    requires
        settled_once(reactions),
    ensures
        among(standing(reactions, target, emoji), who) <==> (kept(reactions, target, emoji, who) matches Some(r)
            && r.on),
{
    let p = |r: ReactionView| r.target == target && r.emoji == emoji && r.on;
    let these = standing(reactions, target, emoji);
    lemma_standing_once(reactions, target, emoji);
    if among(these, who) {
        let a = choose|a: int| 0 <= a < these.len() && (#[trigger] these[a]).reactor == who;
        assert(reactions.contains(these[a]));
        let k = reactions.index_of(these[a]);
        lemma_kept_at(reactions, target, emoji, who, k);
    }
    lemma_kept_is_one(reactions, target, emoji, who);
    if let Some(r) = kept(reactions, target, emoji, who) {
        if r.on {
            let k = choose|k: int| 0 <= k < reactions.len() && #[trigger] reactions[k] == r;
            reactions.lemma_filter_contains(p, k);
            let a = these.index_of(r);
            assert(these[a].reactor == who);
        }
    }
}

proof fn lemma_kept_at(reactions: Seq<ReactionView>, target: MessageId, emoji: Seq<char>, who: [u8; 32], k: int)
    requires
        settled_once(reactions),
        0 <= k < reactions.len(),
        concerns(reactions[k], target, emoji, who),
    ensures
        kept(reactions, target, emoji, who) == Some(reactions[k]),
    decreases reactions.len(),
{
    if k > 0 {
        assert(!concerns(reactions[k], reactions[0].target, reactions[0].emoji, reactions[0].reactor));
        let rest = reactions.skip(1);
        assert(settled_once(rest)) by {
            assert forall|a: int, b: int|
                #![trigger rest[a], rest[b]]
                0 <= a < b < rest.len() implies !concerns(rest[b], rest[a].target, rest[a].emoji, rest[a].reactor) by {
                assert(rest[a] == reactions[a + 1] && rest[b] == reactions[b + 1]);
            }
        }
        lemma_kept_at(rest, target, emoji, who, k - 1);
    }
}

proof fn lemma_kept_is_one(reactions: Seq<ReactionView>, target: MessageId, emoji: Seq<char>, who: [u8; 32])
    ensures
        kept(reactions, target, emoji, who) matches Some(r) ==> concerns(r, target, emoji, who) && exists|k: int|
            0 <= k < reactions.len() && #[trigger] reactions[k] == r,
    decreases reactions.len(),
{
    if reactions.len() > 0 {
        if concerns(reactions[0], target, emoji, who) {
            assert(reactions[0] == kept(reactions, target, emoji, who)->0);
        } else {
            let rest = reactions.skip(1);
            lemma_kept_is_one(rest, target, emoji, who);
            if let Some(r) = kept(rest, target, emoji, who) {
                let k = choose|k: int| 0 <= k < rest.len() && #[trigger] rest[k] == r;
                assert(reactions[k + 1] == r);
            }
        }
    }
}

/// The last word is that of the op with the highest number.
proof fn lemma_last_word(ops: Seq<(MessageId, FrameView)>, target: MessageId, emoji: Seq<char>, who: [u8; 32])
    requires
        forall|a: int, b: int| 0 <= a < b < ops.len() ==> (#[trigger] ops[a]).0 != (#[trigger] ops[b]).0,
    ensures
        match last_word(ops, target, emoji, who) {
            Some(r) => exists|j: int|
                0 <= j < ops.len() && reacts(#[trigger] ops[j], target, emoji, who) && ops[j].0 == r.at && ops[j].1->on
                    == r.on && (forall|k: int|
                    0 <= k < ops.len() && k != j && reacts(#[trigger] ops[k], target, emoji, who) ==> made_before(
                        ops[k].0,
                        ops[j].0,
                    )),
            None => forall|k: int| 0 <= k < ops.len() ==> !reacts(#[trigger] ops[k], target, emoji, who),
        },
        (last_word(ops, target, emoji, who) matches Some(r) && r.on) <==> exists|j: int|
            turns_on(ops, j, target, emoji, who),
    decreases ops.len(),
{
    if ops.len() > 0 {
        let init = ops.drop_last();
        let n = ops.len() - 1;
        assert forall|a: int, b: int| 0 <= a < b < init.len() implies (#[trigger] init[a]).0 != (#[trigger] init[b]).0 by {
            assert(init[a] == ops[a] && init[b] == ops[b]);
        }
        lemma_last_word(init, target, emoji, who);
        let op = ops.last();
        match last_word(init, target, emoji, who) {
            Some(b) => {
                let j = choose|j: int|
                    0 <= j < init.len() && reacts(#[trigger] init[j], target, emoji, who) && init[j].0 == b.at
                        && init[j].1->on == b.on && (forall|k: int|
                        0 <= k < init.len() && k != j && reacts(#[trigger] init[k], target, emoji, who) ==> made_before(
                            init[k].0,
                            init[j].0,
                        ));
                assert(ops[j] == init[j]);
                assert(ops[j].0 != ops[n].0);
                assert forall|k: int| 0 <= k < init.len() implies #[trigger] ops[k] == init[k] by {}
                if reacts(op, target, emoji, who) && !made_before(op.0, b.at) {
                    assert(reacts(ops[n], target, emoji, who));
                    assert forall|k: int|
                        0 <= k < ops.len() && k != n && reacts(#[trigger] ops[k], target, emoji, who) implies made_before(
                        ops[k].0,
                        ops[n].0,
                    ) by {
                        assert(reacts(init[k], target, emoji, who));
                    }
                } else {
                    assert forall|k: int|
                        0 <= k < ops.len() && k != j && reacts(#[trigger] ops[k], target, emoji, who) implies made_before(
                        ops[k].0,
                        ops[j].0,
                    ) by {
                        if k < n {
                            assert(reacts(init[k], target, emoji, who));
                        }
                    }
                }
            },
            None => {
                assert forall|k: int| 0 <= k < init.len() implies !reacts(#[trigger] ops[k], target, emoji, who) by {
                    assert(init[k] == ops[k]);
                }
                if reacts(op, target, emoji, who) {
                    assert(reacts(ops[n], target, emoji, who));
                }
            },
        }
    }
    lemma_turns_on(ops, target, emoji, who);
}

proof fn lemma_turns_on(ops: Seq<(MessageId, FrameView)>, target: MessageId, emoji: Seq<char>, who: [u8; 32])
    requires
        match last_word(ops, target, emoji, who) {
            Some(r) => exists|j: int|
                0 <= j < ops.len() && reacts(#[trigger] ops[j], target, emoji, who) && ops[j].0 == r.at && ops[j].1->on
                    == r.on && (forall|k: int|
                    0 <= k < ops.len() && k != j && reacts(#[trigger] ops[k], target, emoji, who) ==> made_before(
                        ops[k].0,
                        ops[j].0,
                    )),
            None => forall|k: int| 0 <= k < ops.len() ==> !reacts(#[trigger] ops[k], target, emoji, who),
        },
    ensures
        (last_word(ops, target, emoji, who) matches Some(r) && r.on) <==> exists|j: int|
            turns_on(ops, j, target, emoji, who),
{
    if let Some(r) = last_word(ops, target, emoji, who) {
        let j = choose|j: int|
            0 <= j < ops.len() && reacts(#[trigger] ops[j], target, emoji, who) && ops[j].0 == r.at && ops[j].1->on == r.on
                && (forall|k: int|
                0 <= k < ops.len() && k != j && reacts(#[trigger] ops[k], target, emoji, who) ==> made_before(
                    ops[k].0,
                    ops[j].0,
                ));
        if r.on {
            assert(turns_on(ops, j, target, emoji, who));
        }
        if exists|m: int| turns_on(ops, m, target, emoji, who) {
            let m = choose|m: int| turns_on(ops, m, target, emoji, who);
            if m != j {
                assert(made_before(ops[m].0, ops[j].0));
                assert(reacts(ops[j], target, emoji, who));
            }
        }
    } else {
        if exists|m: int| turns_on(ops, m, target, emoji, who) {
            let m = choose|m: int| turns_on(ops, m, target, emoji, who);
            assert(reacts(ops[m], target, emoji, who));
        }
    }
}

/// A conversation whose rows all open to something that neither edits nor deletes
/// opens, and none of its messages is touched.
pub proof fn lemma_calm_conversation(key: Seq<u8>, rows: Seq<OpRow>, peer: [u8; 32])
    requires
        forall|i: int|
            0 <= i < rows.len() && (#[trigger] rows[i]).peer == peer ==> (opened_frame(key, rows[i].payload@) matches Ok(
                f,
            ) && !(f is Edit) && !(f is Delete)),
    ensures
        opened_ops(key, timeline(rows, peer)) is Ok,
        forall|id: MessageId| #[trigger] untouched(opened_ops(key, timeline(rows, peer))->Ok_0, id),
{
    let line = timeline(rows, peer);
    lemma_timeline_rows(rows, peer);
    assert forall|k: int| 0 <= k < line.len() implies (opened_frame(key, (#[trigger] line[k]).payload@) matches Ok(f)
        && !(f is Edit) && !(f is Delete)) by {
        let i = choose|i: int| 0 <= i < rows.len() && (#[trigger] rows[i]) == line[k] && rows[i].peer == peer;
        assert(rows[i].peer == peer);
    }
    lemma_calm_ops(key, line);
}

proof fn lemma_timeline_rows(rows: Seq<OpRow>, peer: [u8; 32])
    ensures
        forall|k: int|
            0 <= k < timeline(rows, peer).len() ==> exists|i: int|
                0 <= i < rows.len() && (#[trigger] rows[i]) == #[trigger] timeline(rows, peer)[k] && rows[i].peer == peer,
    decreases rows.len(),
{
    if rows.len() > 0 {
        let init = rows.drop_last();
        lemma_timeline_rows(init, peer);
        law_timeline_is_sorted(init, peer);
        let before = timeline(init, peer);
        if rows.last().peer == peer {
            lemma_placed_sorted(before, rows.last());
        }
        assert forall|k: int| 0 <= k < timeline(rows, peer).len() implies exists|i: int|
            0 <= i < rows.len() && (#[trigger] rows[i]) == #[trigger] timeline(rows, peer)[k] && rows[i].peer == peer by {
            let r = timeline(rows, peer)[k];
            if rows.last().peer == peer && r == rows.last() {
                assert(rows[rows.len() - 1] == r);
            } else {
                assert(before.contains(r));
                let j = before.index_of(r);
                let i = choose|i: int| 0 <= i < init.len() && (#[trigger] init[i]) == before[j] && init[i].peer == peer;
                assert(rows[i] == r);
            }
        }
    }
}

proof fn lemma_calm_ops(key: Seq<u8>, line: Seq<OpRow>)
    requires
        forall|k: int|
            0 <= k < line.len() ==> (opened_frame(key, (#[trigger] line[k]).payload@) matches Ok(f) && !(f is Edit) && !(
            f is Delete)),
    ensures
        opened_ops(key, line) is Ok,
        forall|id: MessageId| #[trigger] untouched(opened_ops(key, line)->Ok_0, id),
    decreases line.len(),
{
    if line.len() > 0 {
        let init = line.drop_last();
        assert forall|k: int| 0 <= k < init.len() implies (opened_frame(key, (#[trigger] init[k]).payload@) matches Ok(
            f,
        ) && !(f is Edit) && !(f is Delete)) by {
            assert(init[k] == line[k]);
        }
        lemma_calm_ops(key, init);
        let n = line.len() - 1;
        assert(opened_frame(key, line[n].payload@) is Ok);
        let before = opened_ops(key, init)->Ok_0;
        let ops = opened_ops(key, line)->Ok_0;
        assert forall|id: MessageId| #[trigger] untouched(ops, id) by {
            assert(untouched(before, id));
            assert forall|k: int| 0 <= k < ops.len() implies !touches((#[trigger] ops[k]).0, ops[k].1, id) by {
                if k < before.len() {
                    assert(ops[k] == before[k]);
                }
            }
        }
    }
}

/// A conversation is shown whole where the limit is the largest number there is.
pub proof fn lemma_whole_history(key: Seq<u8>, rows: Seq<OpRow>, peer: [u8; 32], me: [u8; 32])
    requires
        opened_ops(key, timeline(rows, peer)) is Ok,
        rows.len() <= usize::MAX,
    ensures
        ({
            let all = conversation(opened_ops(key, timeline(rows, peer))->Ok_0, me);
            newest(all, usize::MAX as nat) == all
        }),
{
    law_history_is_the_end_of_the_whole(key, rows, peer, me, 0, 0);
}

/// Every op of a conversation is read, each at its place, if all of them open. If
/// some do not, the conversation is not read, for the reason that the first of
/// those gives.
pub proof fn law_every_op_is_read(key: Seq<u8>, rows: Seq<OpRow>)
    ensures
        match opened_ops(key, rows) {
            Ok(ops) => {
                &&& ops.len() == rows.len()
                &&& forall|i: int|
                    0 <= i < rows.len() ==> (#[trigger] ops[i]).0 == rows[i].id && opened_frame(key, rows[i].payload@)
                        == Ok::<FrameView, StoreError>(ops[i].1)
            },
            Err(e) => exists|i: int|
                0 <= i < rows.len() && opened_frame(key, (#[trigger] rows[i]).payload@) == Err::<FrameView, StoreError>(e)
                    && forall|k: int| 0 <= k < i ==> opened_frame(key, (#[trigger] rows[k]).payload@) is Ok,
        },
    decreases rows.len(),
{
    if rows.len() > 0 {
        let init = rows.drop_last();
        law_every_op_is_read(key, init);
        match opened_ops(key, init) {
            Ok(ops) => {
                assert forall|k: int| 0 <= k < init.len() implies opened_frame(key, (#[trigger] rows[k]).payload@) is Ok by {
                    assert(rows[k] == init[k]);
                    assert(ops[k].0 == init[k].id);
                }
                match opened_frame(key, rows.last().payload@) {
                    Ok(f) => {
                        let more = ops.push((rows.last().id, f));
                        assert forall|i: int| 0 <= i < rows.len() implies (#[trigger] more[i]).0 == rows[i].id
                            && opened_frame(key, rows[i].payload@) == Ok::<FrameView, StoreError>(more[i].1) by {
                            if i < init.len() {
                                assert(more[i] == ops[i] && rows[i] == init[i]);
                            }
                        }
                    },
                    Err(e) => {
                        assert(rows[rows.len() - 1] == rows.last());
                    },
                }
            },
            Err(e) => {
                let i = choose|i: int|
                    0 <= i < init.len() && opened_frame(key, (#[trigger] init[i]).payload@) == Err::<
                        FrameView,
                        StoreError,
                    >(e) && forall|k: int| 0 <= k < i ==> opened_frame(key, (#[trigger] init[k]).payload@) is Ok;
                assert(rows[i] == init[i]);
                assert forall|k: int| 0 <= k < i implies opened_frame(key, (#[trigger] rows[k]).payload@) is Ok by {
                    assert(rows[k] == init[k]);
                }
            },
        }
    }
}

/// Every room that is kept is listed, each at its place and with its whole log, if
/// all of them hold up.
pub proof fn law_every_room_is_listed(key: Seq<u8>, rows: Seq<([u8; 32], Vec<u8>)>)
    requires
        forall|i: int| 0 <= i < rows.len() ==> verified_log(key, (#[trigger] rows[i]).0, rows[i].1@) is Ok,
    ensures
        opened_logs(key, rows) matches Ok(logs) && logs.len() == rows.len() && forall|i: int|
            0 <= i < rows.len() ==> (#[trigger] logs[i]).0 == rows[i].0 && opened_log(key, rows[i].1@) == Ok::<
                Seq<room::EntryView>,
                StoreError,
            >(logs[i].1),
    decreases rows.len(),
{
    if rows.len() > 0 {
        let init = rows.drop_last();
        assert forall|i: int| 0 <= i < init.len() implies verified_log(key, (#[trigger] init[i]).0, init[i].1@) is Ok by {
            assert(init[i] == rows[i]);
        }
        law_every_room_is_listed(key, init);
        assert(rows[rows.len() - 1] == rows.last());
        let before = opened_logs(key, init)->Ok_0;
        let logs = opened_logs(key, rows)->Ok_0;
        assert forall|i: int| 0 <= i < rows.len() implies (#[trigger] logs[i]).0 == rows[i].0 && opened_log(
            key,
            rows[i].1@,
        ) == Ok::<Seq<room::EntryView>, StoreError>(logs[i].1) by {
            if i < init.len() {
                assert(logs[i] == before[i] && rows[i] == init[i]);
            }
        }
    }
}

/// Whoever an op is filed under is a contact from then on, and its id is recorded;
/// nobody else becomes one, and nothing else is. A contact is as recent as the
/// newest of its ops, by the clock.
pub proof fn law_ops_make_contacts(rows: Seq<OpRow>, row: OpRow, peer: [u8; 32], id: MessageId)
    requires
        row.id.ts_ms <= i64::MAX,
    ensures
        !met(Seq::empty(), peer) && !recorded(Seq::empty(), id),
        met(rows.push(row), peer) <==> met(rows, peer) || row.peer == peer,
        recorded(rows.push(row), id) <==> recorded(rows, id) || row.id == id,
        row.peer != peer ==> latest(rows.push(row), peer) == latest(rows, peer),
        row.peer == peer ==> latest(rows.push(row), peer) == if row.id.ts_ms > latest(rows, peer) {
            row.id.ts_ms as int
        } else {
            latest(rows, peer) as int
        },
        !met(rows, peer) ==> latest(rows, peer) == i64::MIN,
{
    let more = rows.push(row);
    assert(more.drop_last() =~= rows);
    assert(more[rows.len() as int] == row);
    assert(forall|i: int| 0 <= i < rows.len() ==> more[i] == rows[i]);
    if met(rows, peer) {
        let i = choose|i: int| 0 <= i < rows.len() && (#[trigger] rows[i]).peer == peer;
        assert(more[i].peer == peer);
    }
    if recorded(rows, id) {
        let i = choose|i: int| 0 <= i < rows.len() && (#[trigger] rows[i]).id == id;
        assert(more[i].id == id);
    }
    if !met(rows, peer) {
        lemma_latest_of_stranger(rows, peer);
    }
}

} // verus!
