//! The hub's tables. Everything they hold is opaque to the hub.

use crate::e2e::{Envelope, SignedPrekey};
use crate::table::Table;
use crate::{bytes, e2e, table, wire};
use vstd::prelude::*;

verus! {

/// A published prekey, as it was sent.
pub struct PrekeyRow {
    pub created_ms: i64,
    pub blob: Vec<u8>,
}

/// A sealed message that waits for its recipient.
pub struct MailRow {
    pub id: i64,
    pub recipient: [u8; 32],
    pub sender: [u8; 32],
    pub received_ms: i64,
    pub blob: Vec<u8>,
}

/// A room's log, as it was sent.
pub struct RoomRow {
    pub length: usize,
    pub blob: Vec<u8>,
}

/// Prekeys by owner, mail in the order of arrival, room logs by room.
pub struct HubStore {
    pub prekeys: Table<[u8; 32], PrekeyRow>,
    pub mail: Vec<MailRow>,
    pub rooms: Table<[u8; 32], RoomRow>,
}

/// The mail in `rows` for one recipient: each row's id with the envelope it
/// holds. A row that holds none is skipped.
pub open spec fn mailbox(rows: Seq<MailRow>, recipient: [u8; 32]) -> Seq<(i64, e2e::EnvelopeView)>
    decreases rows.len(),
{
    if rows.len() == 0 {
        Seq::empty()
    } else {
        let before = mailbox(rows.drop_last(), recipient);
        let row = rows.last();
        if row.recipient == recipient && e2e::read_envelope(row.blob@) is Some {
            before.push((row.id, (e2e::read_envelope(row.blob@)->0).0))
        } else {
            before
        }
    }
}

/// A mailbox as mathematical values.
pub open spec fn mail_view(mail: Seq<(i64, Envelope)>) -> Seq<(i64, e2e::EnvelopeView)> {
    mail.map_values(|m: (i64, Envelope)| (m.0, m.1@))
}

/// The rows that one sender has waiting for one recipient.
pub open spec fn backlog(rows: Seq<MailRow>, sender: [u8; 32], recipient: [u8; 32]) -> Seq<MailRow> {
    rows.filter(|row: MailRow| row.sender == sender && row.recipient == recipient)
}

/// What is left when `recipient` has taken delivery of these ids.
pub open spec fn delivered(rows: Seq<MailRow>, recipient: [u8; 32], ids: Seq<i64>) -> Seq<MailRow> {
    rows.filter(|row: MailRow| !(row.recipient == recipient && ids.contains(row.id)))
}

/// The oldest time of arrival that a sweep leaves.
pub open spec fn cutoff(now_ms: u64, ttl_ms: u64) -> i64 {
    (if now_ms >= ttl_ms { (now_ms - ttl_ms) as u64 } else { 0 }) as i64
}

/// What a sweep leaves.
pub open spec fn fresh(rows: Seq<MailRow>, cutoff: i64) -> Seq<MailRow> {
    rows.filter(|row: MailRow| row.received_ms >= cutoff)
}

/// The id of the next row: one above the last.
pub open spec fn next_row(rows: Seq<MailRow>) -> int {
    if rows.len() == 0 {
        1
    } else {
        rows.last().id + 1
    }
}

impl HubStore {
    /// Whether keys are distinct and mail is in the order of its ids.
    pub open spec fn wf(&self) -> bool {
        &&& self.prekeys.wf()
        &&& self.rooms.wf()
        &&& forall|i: int, j: int|
            0 <= i < j < self.mail@.len() ==> (#[trigger] self.mail@[i]).id < (#[trigger] self.mail@[j]).id
    }

    /// A hub without rows.
    pub fn new() -> (r: HubStore)
        ensures
            r.wf(),
            r.prekeys@ == Map::<[u8; 32], PrekeyRow>::empty(),
            r.mail@ == Seq::<MailRow>::empty(),
            r.rooms@ == Map::<[u8; 32], RoomRow>::empty(),
    {
        HubStore { prekeys: Table::new(), mail: Vec::new(), rooms: Table::new() }
    }

    /// Last publish wins. A client that rotates its prekey simply overwrites.
    pub fn put_prekey(&mut self, prekey: &SignedPrekey, blob: &[u8])
        requires
            old(self).wf(),
        ensures
            final(self).wf(),
            final(self).mail == old(self).mail,
            final(self).rooms == old(self).rooms,
            final(self).prekeys@.dom() == old(self).prekeys@.dom().insert(prekey.owner),
            final(self).prekeys@[prekey.owner].blob@ == blob@,
            final(self).prekeys@[prekey.owner].created_ms == prekey.created_ms as i64,
            forall|owner: [u8; 32]|
                owner != prekey.owner && old(self).prekeys@.dom().contains(owner)
                    ==> #[trigger] final(self).prekeys@[owner] == old(self).prekeys@[owner],
    {
        self.prekeys.set(
            prekey.owner,
            PrekeyRow { created_ms: prekey.created_ms as i64, blob: vstd::slice::slice_to_vec(blob) },
        );
    }

    /// What `owner` published last.
    pub fn prekey(&self, owner: &[u8; 32]) -> (r: Option<Vec<u8>>)
        requires
            self.wf(),
        ensures
            r is Some <==> self.prekeys@.dom().contains(*owner),
            r is Some ==> r->0@ == self.prekeys@[*owner].blob@,
    {
        match self.prekeys.get(owner) {
            Some(row) => Some(row.blob.clone()),
            None => None,
        }
    }

    /// Files a message that arrived at `now_ms`, behind all others.
    pub fn put_mail_at(&mut self, sender: &[u8; 32], recipient: &[u8; 32], blob: &[u8], now_ms: u64)
        requires
            old(self).wf(),
            next_row(old(self).mail@) <= i64::MAX,
        ensures
            final(self).wf(),
            final(self).prekeys == old(self).prekeys,
            final(self).rooms == old(self).rooms,
            final(self).mail@.len() == old(self).mail@.len() + 1,
            final(self).mail@.drop_last() == old(self).mail@,
            final(self).mail@.last().id == next_row(old(self).mail@),
            final(self).mail@.last().sender == *sender,
            final(self).mail@.last().recipient == *recipient,
            final(self).mail@.last().received_ms == now_ms as i64,
            final(self).mail@.last().blob@ == blob@,
    {
        let ghost before = self.mail@;
        let id: i64 = if self.mail.len() == 0 { 1 } else { self.mail[self.mail.len() - 1].id + 1 };
        self.mail.push(
            MailRow {
                id,
                recipient: *recipient,
                sender: *sender,
                received_ms: now_ms as i64,
                blob: vstd::slice::slice_to_vec(blob),
            },
        );
        assert(self.mail@.drop_last() =~= before);
    }

    /// Files a message that arrives now.
    pub fn put_mail(&mut self, sender: &[u8; 32], recipient: &[u8; 32], blob: &[u8])
        requires
            old(self).wf(),
            next_row(old(self).mail@) <= i64::MAX,
        ensures
            final(self).wf(),
            final(self).prekeys == old(self).prekeys,
            final(self).rooms == old(self).rooms,
            final(self).mail@.len() == old(self).mail@.len() + 1,
            final(self).mail@.drop_last() == old(self).mail@,
            final(self).mail@.last().id == next_row(old(self).mail@),
            final(self).mail@.last().sender == *sender,
            final(self).mail@.last().recipient == *recipient,
            final(self).mail@.last().blob@ == blob@,
    {
        self.put_mail_at(sender, recipient, blob, wire::now_ms());
    }

    /// How many messages of `sender` wait for `recipient`.
    pub fn pending_from(&self, sender: &[u8; 32], recipient: &[u8; 32]) -> (n: usize)
        ensures
            n == backlog(self.mail@, *sender, *recipient).len(),
    {
        let ghost p = |row: MailRow| row.sender == *sender && row.recipient == *recipient;
        let mut n: usize = 0;
        let mut i: usize = 0;
        proof {
            reveal(Seq::filter);
        }
        while i < self.mail.len()
            invariant
                i <= self.mail@.len(),
                n <= i,
                p == (|row: MailRow| row.sender == *sender && row.recipient == *recipient),
                n == self.mail@.take(i as int).filter(p).len(),
            decreases self.mail@.len() - i,
        {
            proof {
                reveal(Seq::filter);
                assert(self.mail@.take(i + 1).drop_last() =~= self.mail@.take(i as int));
            }
            let row = &self.mail[i];
            if bytes::same32(&row.sender, sender) && bytes::same32(&row.recipient, recipient) {
                n = n + 1;
            }
            i = i + 1;
        }
        assert(self.mail@.take(i as int) =~= self.mail@);
        n
    }

    /// The mail of `recipient`, in the order of arrival. Skipping a row that
    /// does not decode beats failing the whole fetch for it.
    pub fn mail_for(&self, recipient: &[u8; 32]) -> (r: Vec<(i64, Envelope)>)
        ensures
            mail_view(r@) == mailbox(self.mail@, *recipient),
    {
        let mut out: Vec<(i64, Envelope)> = Vec::new();
        let mut i: usize = 0;
        assert(mail_view(out@) =~= mailbox(self.mail@.take(0), *recipient));
        while i < self.mail.len()
            invariant
                i <= self.mail@.len(),
                mail_view(out@) == mailbox(self.mail@.take(i as int), *recipient),
            decreases self.mail@.len() - i,
        {
            let row = &self.mail[i];
            let ghost before = out@;
            proof {
                assert(self.mail@.take(i + 1).drop_last() =~= self.mail@.take(i as int));
            }
            if bytes::same32(&row.recipient, recipient) {
                match Envelope::decode(&row.blob) {
                    Some(envelope) => {
                        out.push((row.id, envelope));
                        assert(mail_view(out@) =~= mail_view(before).push((row.id, envelope@)));
                    },
                    None => {},
                }
            }
            i = i + 1;
        }
        assert(self.mail@.take(i as int) =~= self.mail@);
        out
    }

    /// Scoped to `recipient`, so an id belonging to someone else is a no-op
    /// rather than a way to delete other people's mail. Returns how many rows
    /// went.
    pub fn delete_mail(&mut self, recipient: &[u8; 32], ids: &[i64]) -> (n: usize)
        requires
            old(self).wf(),
        ensures
            final(self).wf(),
            final(self).prekeys == old(self).prekeys,
            final(self).rooms == old(self).rooms,
            final(self).mail@ == delivered(old(self).mail@, *recipient, ids@),
            n == old(self).mail@.len() - final(self).mail@.len(),
    {
        let ghost before = self.mail@;
        let ghost p = |row: MailRow| !(row.recipient == *recipient && ids@.contains(row.id));
        let had: usize = self.mail.len();
        let keep = |row: &MailRow| -> (kept: bool)
            ensures
                kept == p(*row),
        {
            !(bytes::same32(&row.recipient, recipient) && holds(ids, row.id))
        };
        table::retain(&mut self.mail, keep, Ghost(p));
        proof {
            before.lemma_filter_len(p);
            lemma_filter_keeps_order(before, p);
        }
        had - self.mail.len()
    }

    /// Deletes what arrived before the time to live ran out at `now_ms`.
    /// Returns how many rows went.
    pub fn sweep_at(&mut self, now_ms: u64, ttl_ms: u64) -> (n: usize)
        requires
            old(self).wf(),
        ensures
            final(self).wf(),
            final(self).prekeys == old(self).prekeys,
            final(self).rooms == old(self).rooms,
            final(self).mail@ == fresh(old(self).mail@, cutoff(now_ms, ttl_ms)),
            n == old(self).mail@.len() - final(self).mail@.len(),
    {
        let ghost before = self.mail@;
        let limit: i64 = now_ms.saturating_sub(ttl_ms) as i64;
        let ghost p = |row: MailRow| row.received_ms >= limit;
        let had: usize = self.mail.len();
        let keep = |row: &MailRow| -> (kept: bool)
            ensures
                kept == p(*row),
        {
            row.received_ms >= limit
        };
        table::retain(&mut self.mail, keep, Ghost(p));
        proof {
            before.lemma_filter_len(p);
            lemma_filter_keeps_order(before, p);
        }
        had - self.mail.len()
    }

    /// Undelivered mail is not storage anyone signed up to provide forever.
    pub fn sweep(&mut self, ttl_ms: u64) -> (n: usize)
        requires
            old(self).wf(),
        ensures
            final(self).wf(),
            final(self).prekeys == old(self).prekeys,
            final(self).rooms == old(self).rooms,
            exists|now_ms: u64| final(self).mail@ == #[trigger] fresh(old(self).mail@, cutoff(now_ms, ttl_ms)),
            n == old(self).mail@.len() - final(self).mail@.len(),
    {
        self.sweep_at(wire::now_ms(), ttl_ms)
    }

    /// Stores a membership log verbatim, verifying nothing about it: that is
    /// the clients' job and the reason this server cannot forge membership.
    ///
    /// The one rule is that a log may not get shorter. It costs no verification
    /// and stops anyone who can reach the hub from erasing a room by putting a
    /// one-entry chain over it.
    pub fn put_room(&mut self, id: &[u8; 32], length: usize, blob: &[u8]) -> (stored: bool)
        requires
            old(self).wf(),
        ensures
            final(self).wf(),
            final(self).prekeys == old(self).prekeys,
            final(self).mail == old(self).mail,
            stored <==> !old(self).rooms@.dom().contains(*id) || length > old(self).rooms@[*id].length,
            !stored ==> final(self).rooms@ == old(self).rooms@,
            stored ==> {
                &&& final(self).rooms@.dom() == old(self).rooms@.dom().insert(*id)
                &&& final(self).rooms@[*id].length == length
                &&& final(self).rooms@[*id].blob@ == blob@
                &&& forall|other: [u8; 32]|
                    other != *id && old(self).rooms@.dom().contains(other)
                        ==> #[trigger] final(self).rooms@[other] == old(self).rooms@[other]
            },
    {
        match self.rooms.get(id) {
            Some(row) => {
                if length <= row.length {
                    return false;
                }
            },
            None => {},
        }
        self.rooms.set(*id, RoomRow { length, blob: vstd::slice::slice_to_vec(blob) });
        true
    }

    /// The log of a room.
    pub fn room(&self, id: &[u8; 32]) -> (r: Option<Vec<u8>>)
        requires
            self.wf(),
        ensures
            r is Some <==> self.rooms@.dom().contains(*id),
            r is Some ==> r->0@ == self.rooms@[*id].blob@,
    {
        match self.rooms.get(id) {
            Some(row) => Some(row.blob.clone()),
            None => None,
        }
    }
}

/// Whether `id` is one of `ids`.
fn holds(ids: &[i64], id: i64) -> (r: bool)
    ensures
        r == ids@.contains(id),
{
    let mut i: usize = 0;
    while i < ids.len()
        invariant
            i <= ids@.len(),
            forall|j: int| 0 <= j < i ==> ids@[j] != id,
        decreases ids@.len() - i,
    {
        if ids[i] == id {
            return true;
        }
        i = i + 1;
    }
    false
}

/// Rows that are kept stay in the order of their ids.
proof fn lemma_filter_keeps_order(rows: Seq<MailRow>, p: spec_fn(MailRow) -> bool)
    requires
        forall|i: int, j: int| 0 <= i < j < rows.len() ==> (#[trigger] rows[i]).id < (#[trigger] rows[j]).id,
    ensures
        forall|i: int, j: int|
            0 <= i < j < rows.filter(p).len() ==> (#[trigger] rows.filter(p)[i]).id < (#[trigger] rows.filter(
                p,
            )[j]).id,
        forall|i: int|
            0 <= i < rows.filter(p).len() ==> rows.len() > 0 && (#[trigger] rows.filter(p)[i]).id
                <= rows.last().id,
    decreases rows.len(),
{
    reveal(Seq::filter);
    if rows.len() > 0 {
        lemma_filter_keeps_order(rows.drop_last(), p);
        assert forall|i: int| 0 <= i < rows.drop_last().filter(p).len() implies (
        #[trigger] rows.drop_last().filter(p)[i]).id < rows.last().id by {
            assert(rows.drop_last().last().id < rows.last().id);
        }
    }
}

/// Nobody can take mail out of someone else's mailbox: deleting ids as one
/// recipient leaves the mailbox of every other as it was, and their backlogs
/// too.
pub proof fn law_deletes_are_scoped(rows: Seq<MailRow>, me: [u8; 32], ids: Seq<i64>, other: [u8; 32])
    requires
        me != other,
    ensures
        mailbox(delivered(rows, me, ids), other) == mailbox(rows, other),
        forall|sender: [u8; 32]|
            #[trigger] backlog(delivered(rows, me, ids), sender, other) == backlog(rows, sender, other),
    decreases rows.len(),
{
    let p = |row: MailRow| !(row.recipient == me && ids.contains(row.id));
    reveal(Seq::filter);
    if rows.len() > 0 {
        let init = rows.drop_last();
        law_deletes_are_scoped(init, me, ids, other);
        if p(rows.last()) {
            assert(delivered(rows, me, ids).drop_last() =~= delivered(init, me, ids));
            assert forall|sender: [u8; 32]| #[trigger] backlog(delivered(rows, me, ids), sender, other)
                == backlog(rows, sender, other) by {
                assert(backlog(delivered(init, me, ids), sender, other) == backlog(init, sender, other));
            }
        } else {
            assert forall|sender: [u8; 32]| #[trigger] backlog(delivered(rows, me, ids), sender, other)
                == backlog(rows, sender, other) by {
                assert(backlog(delivered(init, me, ids), sender, other) == backlog(init, sender, other));
            }
        }
    }
}

/// A mailbox shows no more than its owner's mail, each message under the id of
/// a row that is addressed to them.
pub proof fn law_mailbox_is_own(rows: Seq<MailRow>, me: [u8; 32], k: int)
    requires
        0 <= k < mailbox(rows, me).len(),
    ensures
        exists|i: int|
            0 <= i < rows.len() && (#[trigger] rows[i]).recipient == me && rows[i].id == mailbox(rows, me)[k].0,
    decreases rows.len(),
{
    if rows.len() > 0 {
        let init = rows.drop_last();
        if k < mailbox(init, me).len() {
            law_mailbox_is_own(init, me, k);
            let i = choose|i: int|
                0 <= i < init.len() && (#[trigger] init[i]).recipient == me && init[i].id == mailbox(init, me)[k].0;
            assert(rows[i].recipient == me);
        } else {
            assert(rows[rows.len() - 1].recipient == me);
        }
    }
}

/// A sweep at the time of arrival takes nothing that is younger than the time
/// to live.
pub proof fn law_sweep_keeps_the_fresh(rows: Seq<MailRow>, now_ms: u64, ttl_ms: u64, i: int)
    requires
        0 <= i < rows.len(),
        now_ms <= i64::MAX,
        rows[i].received_ms >= now_ms - ttl_ms,
        rows[i].received_ms >= 0,
    ensures
        fresh(rows, cutoff(now_ms, ttl_ms)).contains(rows[i]),
{
    rows.lemma_filter_contains(|row: MailRow| row.received_ms >= cutoff(now_ms, ttl_ms), i);
}

/// A mailbox holds all that waits for its owner: the envelope of every row that
/// is addressed to them and holds one, under the row's id, in the order of
/// arrival, whatever their size.
pub proof fn law_mailbox_is_complete(rows: Seq<MailRow>, me: [u8; 32])
    ensures
        mailbox(rows, me) == rows.filter(
            |row: MailRow| row.recipient == me && e2e::read_envelope(row.blob@) is Some,
        ).map_values(|row: MailRow| (row.id, (e2e::read_envelope(row.blob@)->0).0)),
    decreases rows.len(),
{
    let p = |row: MailRow| row.recipient == me && e2e::read_envelope(row.blob@) is Some;
    let f = |row: MailRow| (row.id, (e2e::read_envelope(row.blob@)->0).0);
    reveal(Seq::filter);
    if rows.len() > 0 {
        law_mailbox_is_complete(rows.drop_last(), me);
        assert(mailbox(rows, me) =~= rows.filter(p).map_values(f));
    } else {
        assert(mailbox(rows, me) =~= rows.filter(p).map_values(f));
    }
}

/// What an envelope is encoded as waits in the mailbox of its recipient, behind
/// what waited there before, and in no other. Whatever its size, it is handed out
/// as it was.
pub proof fn law_filed_mail_is_handed_out(rows: Seq<MailRow>, row: MailRow, e: e2e::EnvelopeView, other: [u8; 32])
    requires
        e.fits(),
        row.blob@ == e.encoded(),
        row.recipient == e.recipient,
    ensures
        mailbox(rows.push(row), e.recipient) == mailbox(rows, e.recipient).push((row.id, e)),
        other != e.recipient ==> mailbox(rows.push(row), other) == mailbox(rows, other),
{
    e2e::lemma_envelope_roundtrip(e, Seq::empty());
    assert(e.encoded() + Seq::<u8>::empty() =~= e.encoded());
    assert(rows.push(row).drop_last() =~= rows);
}

/// Taking delivery of ids leaves just the rest of the mailbox, in order.
pub proof fn law_delivered_mail_is_gone(rows: Seq<MailRow>, me: [u8; 32], ids: Seq<i64>)
    ensures
        mailbox(delivered(rows, me, ids), me) == mailbox(rows, me).filter(
            |m: (i64, e2e::EnvelopeView)| !ids.contains(m.0),
        ),
        forall|i: int|
            0 <= i < rows.len() && (rows[i].recipient != me || !ids.contains(rows[i].id)) ==> delivered(
                rows,
                me,
                ids,
            ).contains(#[trigger] rows[i]),
    decreases rows.len(),
{
    let q = |m: (i64, e2e::EnvelopeView)| !ids.contains(m.0);
    let p = |row: MailRow| !(row.recipient == me && ids.contains(row.id));
    reveal(Seq::filter);
    assert forall|i: int| 0 <= i < rows.len() && (rows[i].recipient != me || !ids.contains(rows[i].id)) implies delivered(
        rows,
        me,
        ids,
    ).contains(#[trigger] rows[i]) by {
        rows.lemma_filter_contains(p, i);
    }
    if rows.len() > 0 {
        let init = rows.drop_last();
        let row = rows.last();
        law_delivered_mail_is_gone(init, me, ids);
        if p(row) {
            assert(delivered(rows, me, ids).drop_last() =~= delivered(init, me, ids));
        }
        if row.recipient == me && e2e::read_envelope(row.blob@) is Some {
            assert(mailbox(rows, me).drop_last() =~= mailbox(init, me));
        }
    } else {
        assert(mailbox(delivered(rows, me, ids), me) =~= mailbox(rows, me).filter(q));
    }
}

/// A sweep leaves just what arrived within the time to live, in order.
pub proof fn law_sweep_takes_the_stale(rows: Seq<MailRow>, now_ms: u64, ttl_ms: u64)
    requires
        now_ms <= i64::MAX,
        forall|i: int| 0 <= i < rows.len() ==> (#[trigger] rows[i]).received_ms >= 0,
    ensures
        fresh(rows, cutoff(now_ms, ttl_ms)) == rows.filter(|row: MailRow| row.received_ms + ttl_ms >= now_ms),
    decreases rows.len(),
{
    let limit = cutoff(now_ms, ttl_ms);
    reveal(Seq::filter);
    if rows.len() > 0 {
        let init = rows.drop_last();
        assert forall|i: int| 0 <= i < init.len() implies (#[trigger] init[i]).received_ms >= 0 by {
            assert(init[i] == rows[i]);
        }
        law_sweep_takes_the_stale(init, now_ms, ttl_ms);
        assert(rows[rows.len() - 1].received_ms >= 0);
    } else {
        assert(fresh(rows, limit) =~= rows.filter(|row: MailRow| row.received_ms + ttl_ms >= now_ms));
    }
}

/// Rows are numbered upwards from one, each above all before it, and the next one
/// above the last.
pub proof fn law_rows_are_numbered_upwards(rows: Seq<MailRow>, i: int, row: MailRow)
    requires
        forall|i: int, j: int| 0 <= i < j < rows.len() ==> (#[trigger] rows[i]).id < (#[trigger] rows[j]).id,
        0 <= i < rows.len(),
    ensures
        rows[i].id < next_row(rows),
        next_row(rows.take(0)) == 1,
        next_row(rows.push(row)) == row.id + 1,
{
}

} // verus!
