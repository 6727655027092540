//! What events make of what the UI knows.

use super::state::{Entry, EntryView, EventView, Peer, PeerView, Ui, UiEvent, UiView};
use super::{state, text as layout};
use crate::table::Table;
use crate::{bytes, table};
use vstd::prelude::*;

verus! {

/// Where a conversation is listed; the number of conversations where it is not.
pub open spec fn peer_at(peers: Seq<PeerView>, key: [u8; 32]) -> int
    decreases peers.len(),
{
    if peers.len() == 0 || peers[0].key == key {
        0
    } else {
        1 + peer_at(peers.skip(1), key)
    }
}

/// A conversation of which nothing is known but whose it is.
pub open spec fn stranger(key: [u8; 32]) -> PeerView {
    PeerView {
        key,
        nick: None,
        alias: None,
        online: false,
        path: Seq::empty(),
        log: Seq::empty(),
        unread: 0,
        cursor: 0,
        unread_from: None,
        room: None,
    }
}

/// The conversations with one of them listed, at the end where it was not.
pub open spec fn introduced(peers: Seq<PeerView>, key: [u8; 32]) -> Seq<PeerView> {
    if peer_at(peers, key) < peers.len() {
        peers
    } else {
        peers.push(stranger(key))
    }
}

/// A conversation with a new log. The cursor follows the end where it was
/// there, and stays on a message in any case; a log that grew out of sight
/// leaves a mark where it grew.
pub open spec fn refolded(p: PeerView, entries: Seq<EntryView>, selected: bool) -> PeerView {
    let last = layout::monus(entries.len(), 1);
    let news = entries.len() > p.log.len() && !selected;
    PeerView {
        log: entries,
        cursor: if p.cursor + 1 >= p.log.len() {
            last
        } else {
            layout::least(p.cursor, last)
        },
        unread: if news {
            p.unread + 1
        } else {
            p.unread
        },
        unread_from: if news && p.unread_from is None {
            Some(p.log.len() as usize)
        } else {
            p.unread_from
        },
        ..p
    }
}

impl UiView {
    /// What the UI knows with one conversation changed.
    pub open spec fn with_peer(self, i: int, p: PeerView) -> UiView {
        UiView { peers: self.peers.update(i, p), ..self }
    }

    /// What the UI knows after an event.
    pub open spec fn applied(self, event: EventView) -> UiView {
        match event {
            EventView::Known { peer, nick, alias } => {
                let ui = UiView { peers: introduced(self.peers, peer), ..self };
                let i = peer_at(self.peers, peer);
                ui.with_peer(i, PeerView { nick, alias, ..ui.peers[i] })
            },
            EventView::Connected { peer, nick, path } => {
                let ui = UiView { peers: introduced(self.peers, peer), ..self };
                let i = peer_at(self.peers, peer);
                ui.with_peer(i, PeerView { nick: Some(nick), online: true, path, ..ui.peers[i] })
            },
            EventView::Path { peer, path } => {
                let ui = UiView { peers: introduced(self.peers, peer), ..self };
                let i = peer_at(self.peers, peer);
                ui.with_peer(i, PeerView { path, ..ui.peers[i] })
            },
            EventView::Disconnected { peer } => {
                let ui = UiView { peers: introduced(self.peers, peer), ..self };
                let i = peer_at(self.peers, peer);
                ui.with_peer(i, PeerView { online: false, path: Seq::empty(), ..ui.peers[i] })
            },
            EventView::Log { peer, entries } => {
                let selected = self.selected_key() == Some(peer);
                let ui = UiView {
                    peers: introduced(self.peers, peer),
                    scroll: if selected {
                        0
                    } else {
                        self.scroll
                    },
                    ..self
                };
                let i = peer_at(self.peers, peer);
                ui.with_peer(i, refolded(ui.peers[i], entries, selected))
            },
            EventView::Delivery { id, state } => UiView {
                delivery: self.delivery.insert(
                    id,
                    if self.delivery.dom().contains(id) {
                        self.delivery[id].worse(state)
                    } else {
                        state
                    },
                ),
                ..self
            },
            EventView::Transfer { id, done, total } => UiView {
                transfers: if done >= total {
                    self.transfers.remove(id)
                } else {
                    self.transfers.insert(id, (done, total))
                },
                ..self
            },
            EventView::Forgotten { peer } => {
                let peers = self.peers.filter(|p: PeerView| p.key != peer);
                UiView {
                    peers,
                    sel: layout::least(self.sel, layout::monus(peers.len(), 1)),
                    scroll: 0,
                    delivery: Map::empty(),
                    ..self
                }
            },
            EventView::Wiped => UiView {
                peers: Seq::empty(),
                sel: 0,
                scroll: 0,
                delivery: Map::empty(),
                transfers: Map::empty(),
                ..self
            },
            EventView::Room { id, view } => {
                let ui = UiView { peers: introduced(self.peers, id), ..self };
                let i = peer_at(self.peers, id);
                ui.with_peer(i, PeerView { room: Some(view), ..ui.peers[i] })
            },
            EventView::Status(status) => UiView { status, ..self },
        }
    }
}

proof fn lemma_peer_at(peers: Seq<PeerView>, key: [u8; 32], n: int)
    requires
        0 <= n <= peers.len(),
        forall|i: int| 0 <= i < n ==> (#[trigger] peers[i]).key != key,
        n == peers.len() || peers[n].key == key,
    ensures
        peer_at(peers, key) == n,
    decreases peers.len(),
{
    if n > 0 {
        assert(peers[0].key != key);
        assert forall|i: int| 0 <= i < n - 1 implies (#[trigger] peers.skip(1)[i]).key != key by {
            assert(peers[i + 1].key != key);
        }
        lemma_peer_at(peers.skip(1), key, n - 1);
    }
}

/// Changing a conversation, but not whose it is, keeps the UI well.
pub proof fn lemma_wf_update(ui: UiView, i: int, p: PeerView)
    requires
        ui.wf(),
        0 <= i < ui.peers.len(),
        p.key == ui.peers[i].key,
        p.wf(),
    ensures
        ui.with_peer(i, p).wf(),
{
    let after = ui.with_peer(i, p);
    assert forall|x: int, y: int| 0 <= x < y < after.peers.len() implies (#[trigger] after.peers[x]).key != (
    #[trigger] after.peers[y]).key by {
        assert(ui.peers[x].key != ui.peers[y].key);
    }
    assert forall|x: int| 0 <= x < after.peers.len() implies (#[trigger] after.peers[x]).wf() by {
        assert(ui.peers[x].wf());
    }
}

/// Forgetting keeps the rest of the conversations apart and in order.
proof fn lemma_filter_wf(peers: Seq<PeerView>, key: [u8; 32])
    requires
        forall|i: int, j: int|
            0 <= i < j < peers.len() ==> (#[trigger] peers[i]).key != (#[trigger] peers[j]).key,
        forall|i: int| 0 <= i < peers.len() ==> (#[trigger] peers[i]).wf(),
    ensures
        ({
            let kept = peers.filter(|p: PeerView| p.key != key);
            &&& forall|i: int, j: int|
                0 <= i < j < kept.len() ==> (#[trigger] kept[i]).key != (#[trigger] kept[j]).key
            &&& forall|i: int| 0 <= i < kept.len() ==> (#[trigger] kept[i]).wf() && kept[i].key != key
            &&& forall|i: int| 0 <= i < kept.len() ==> peers.contains(#[trigger] kept[i])
        }),
    decreases peers.len(),
{
    let f = |p: PeerView| p.key != key;
    let kept = peers.filter(f);
    reveal(Seq::filter);
    if peers.len() > 0 {
        let init = peers.drop_last();
        lemma_filter_wf(init, key);
        let front = init.filter(f);
        assert forall|i: int| 0 <= i < kept.len() implies peers.contains(#[trigger] kept[i]) && kept[i].wf()
            && kept[i].key != key by {
            if i < front.len() {
                assert(kept[i] == front[i]);
                assert(init.contains(front[i]));
                let j = init.index_of(front[i]);
                assert(peers[j] == kept[i]);
            } else {
                assert(peers[peers.len() - 1] == kept[i]);
            }
        }
        assert forall|i: int, j: int| 0 <= i < j < kept.len() implies (#[trigger] kept[i]).key != (
        #[trigger] kept[j]).key by {
            if j < front.len() {
                assert(kept[i] == front[i] && kept[j] == front[j]);
            } else {
                assert(kept[i] == front[i]);
                assert(init.contains(front[i]));
                let x = init.index_of(front[i]);
                assert(peers[x] == kept[i]);
                assert(peers[peers.len() - 1] == kept[j]);
            }
        }
    }
}

impl Ui {
    /// The place of a conversation, which is listed now if it was not before.
    fn peer_mut(&mut self, key: [u8; 32]) -> (i: usize)
        requires
            old(self).wf(),
        ensures
            final(self).wf(),
            final(self)@ == (UiView { peers: introduced(old(self)@.peers, key), ..old(self)@ }),
            final(self).transfers == old(self).transfers,
            final(self).delivery == old(self).delivery,
            i == peer_at(old(self)@.peers, key),
            i < final(self).peers@.len(),
            final(self)@.peers[i as int].key == key,
            i < old(self).peers@.len() ==> final(self).peers == old(self).peers,
    {
        let ghost before = self@;
        let mut i: usize = 0;
        while i < self.peers.len() && !bytes::same32(&self.peers[i].key, &key)
            invariant
                *self == *old(self),
                before == self@,
                i <= self.peers@.len(),
                forall|j: int| 0 <= j < i ==> (#[trigger] self.peers@[j]).key != key,
            decreases self.peers@.len() - i,
        {
            i = i + 1;
        }
        proof {
            assert forall|j: int| 0 <= j < i implies (#[trigger] before.peers[j]).key != key by {
                assert(before.peers[j] == self.peers@[j]@);
            }
            lemma_peer_at(before.peers, key, i as int);
        }
        if i == self.peers.len() {
            let ghost was = self.peers@;
            let p = Peer {
                key,
                nick: None,
                alias: None,
                online: false,
                path: String::new(),
                log: Vec::new(),
                unread: 0,
                cursor: 0,
                unread_from: None,
                room: None,
            };
            assert(p@.log =~= Seq::empty());
            assert(p@ =~= stranger(key));
            self.peers.push(p);
            assert(state::peers_view(self.peers@) =~= state::peers_view(was).push(stranger(key)));
        }
        i
    }

    /// Takes in an event.
    pub fn apply(&mut self, event: UiEvent)
        requires
            old(self).wf(),
            old(self)@.countable(),
        ensures
            final(self).wf(),
            final(self)@ == old(self)@.applied(event@),
    {
        let ghost before = self@;
        match event {
            UiEvent::Known { peer, nick, alias } => {
                let i = self.peer_mut(peer);
                let ghost mid = self@;
                self.peers[i].nick = nick;
                self.peers[i].alias = alias;
                proof {
                    let p = self.peers@[i as int]@;
                    lemma_wf_update(mid, i as int, p);
                    assert(self@.peers =~= mid.peers.update(i as int, p));
                }
            },
            UiEvent::Connected { peer, nick, path } => {
                let i = self.peer_mut(peer);
                let ghost mid = self@;
                self.peers[i].nick = Some(nick);
                self.peers[i].online = true;
                self.peers[i].path = path;
                proof {
                    let p = self.peers@[i as int]@;
                    lemma_wf_update(mid, i as int, p);
                    assert(self@.peers =~= mid.peers.update(i as int, p));
                }
            },
            UiEvent::Path { peer, path } => {
                let i = self.peer_mut(peer);
                let ghost mid = self@;
                self.peers[i].path = path;
                proof {
                    let p = self.peers@[i as int]@;
                    lemma_wf_update(mid, i as int, p);
                    assert(self@.peers =~= mid.peers.update(i as int, p));
                }
            },
            UiEvent::Disconnected { peer } => {
                let i = self.peer_mut(peer);
                let ghost mid = self@;
                self.peers[i].online = false;
                self.peers[i].path = String::new();
                proof {
                    let p = self.peers@[i as int]@;
                    lemma_wf_update(mid, i as int, p);
                    assert(self@.peers =~= mid.peers.update(i as int, p));
                }
            },
            UiEvent::Log { peer, entries } => {
                let selected = match self.selected_key() {
                    Some(key) => bytes::same32(&key, &peer),
                    None => false,
                };
                let i = self.peer_mut(peer);
                let ghost mid = self@;
                proof {
                    assert(mid.peers[i as int] == self.peers@[i as int]@);
                    assert(mid.peers[i as int].wf());
                    if i < before.peers.len() {
                        assert(before.peers[i as int].unread < usize::MAX);
                    }
                }
                self.relog(i, entries, selected);
                let ghost after = self@;
                if selected {
                    self.scroll = 0;
                }
            },
            UiEvent::Delivery { id, state } => {
                let worst = match self.delivery.get(&id) {
                    Some(seen) => seen.worst(state),
                    None => state,
                };
                self.delivery.set(id, worst);
            },
            UiEvent::Transfer { id, done, total } => {
                if done >= total {
                    self.transfers.unset(&id);
                } else {
                    self.transfers.set(id, (done, total));
                }
            },
            UiEvent::Forgotten { peer } => {
                self.forget(&peer);
            },
            UiEvent::Wiped => {
                self.peers = Vec::new();
                self.delivery = Table::new();
                self.transfers = Table::new();
                self.sel = 0;
                self.scroll = 0;
                assert(self@.peers =~= Seq::empty());
            },
            UiEvent::Room { id, view } => {
                let i = self.peer_mut(id);
                let ghost mid = self@;
                self.peers[i].room = Some(view);
                proof {
                    let p = self.peers@[i as int]@;
                    lemma_wf_update(mid, i as int, p);
                    assert(self@.peers =~= mid.peers.update(i as int, p));
                }
            },
            UiEvent::Status(status) => {
                self.status = status;
            },
        }
    }

    /// Replaces the log of conversation `i`.
    fn relog(&mut self, i: usize, entries: Vec<Entry>, selected: bool)
        requires
            old(self).wf(),
            i < old(self).peers@.len(),
            old(self)@.peers[i as int].unread < usize::MAX,
        ensures
            final(self).wf(),
            final(self).transfers == old(self).transfers,
            final(self).delivery == old(self).delivery,
            final(self)@ == old(self)@.with_peer(
                i as int,
                refolded(old(self)@.peers[i as int], state::log_view(entries@), selected),
            ),
    {
        let ghost mid = self@;
        assert(mid.peers[i as int] == self.peers@[i as int]@);
        assert(mid.peers[i as int].wf());
        let before: usize = self.peers[i].log.len();
        let grew = entries.len() > before;
        let at_end = self.peers[i].cursor + 1 >= before;
        let last: usize = entries.len().saturating_sub(1);
        self.peers[i].log = entries;
        if at_end || self.peers[i].cursor > last {
            self.peers[i].cursor = last;
        }
        if grew && !selected {
            self.peers[i].unread = self.peers[i].unread + 1;
            if self.peers[i].unread_from.is_none() {
                self.peers[i].unread_from = Some(before);
            }
        }
        proof {
            let p = self.peers@[i as int]@;
            assert(p =~= refolded(mid.peers[i as int], state::log_view(entries@), selected));
            lemma_wf_update(mid, i as int, p);
            assert(self@.peers =~= mid.peers.update(i as int, p));
        }
    }

    /// Drops a conversation. The selection does not dangle past the end.
    fn forget(&mut self, peer: &[u8; 32])
        requires
            old(self).wf(),
        ensures
            final(self).wf(),
            final(self)@ == old(self)@.applied(EventView::Forgotten { peer: *peer }),
    {
        let ghost before = self@;
        let ghost was = self.peers@;
        let ghost p = |x: Peer| x.key != *peer;
        let ghost q = |x: PeerView| x.key != *peer;
        let keep = |x: &Peer| -> (kept: bool)
            ensures
                kept == p(*x),
        {
            !bytes::same32(&x.key, peer)
        };
        table::retain(&mut self.peers, keep, Ghost(p));
        let last: usize = self.peers.len().saturating_sub(1);
        if self.sel > last {
            self.sel = last;
        }
        self.scroll = 0;
        self.delivery = Table::new();
        proof {
            lemma_filter_view(was, *peer);
            lemma_filter_wf(before.peers, *peer);
        }
    }
}

proof fn lemma_filter_view(peers: Seq<Peer>, key: [u8; 32])
    ensures
        state::peers_view(peers.filter(|x: Peer| x.key != key)) == state::peers_view(peers).filter(|x: PeerView| x.key != key),
    decreases peers.len(),
{
    reveal(Seq::filter);
    if peers.len() > 0 {
        lemma_filter_view(peers.drop_last(), key);
        assert(state::peers_view(peers).drop_last() =~= state::peers_view(peers.drop_last()));
        assert(state::peers_view(peers.filter(|x: Peer| x.key != key)) =~= state::peers_view(peers).filter(
            |x: PeerView| x.key != key,
        ));
    } else {
        assert(state::peers_view(peers.filter(|x: Peer| x.key != key)) =~= state::peers_view(peers).filter(
            |x: PeerView| x.key != key,
        ));
    }
}

/// A name you chose outranks the one they claim, whatever they claim, and is
/// shown as trusted.
pub proof fn law_alias_outranks_claim(p: PeerView, nick: Option<Seq<char>>)
    requires
        p.room is None,
        p.alias is Some,
    ensures
        (PeerView { nick, ..p }).label() == p.alias->0,
        (PeerView { nick, ..p }).named(),
{
}

/// A name that is shown as trusted is never the claim of a peer: it is yours,
/// the room's, or the key.
pub proof fn law_claims_are_marked(p: PeerView)
    requires
        p.named(),
    ensures
        p.room is Some || p.alias == Some(p.label()) || p.label() == state::shortened(p.key),
{
}

/// Someone who connects cannot take over a name that you gave: what a
/// conversation with a name of yours is called does not change.
pub proof fn law_connecting_keeps_your_names(
    ui: UiView,
    i: int,
    peer: [u8; 32],
    nick: Seq<char>,
    path: Seq<char>,
)
    requires
        0 <= i < ui.peers.len(),
        ui.peers[i].alias is Some || ui.peers[i].room is Some,
    ensures
        ui.applied(EventView::Connected { peer, nick, path }).peers[i].label() == ui.peers[i].label(),
        ui.applied(EventView::Connected { peer, nick, path }).peers[i].named(),
{
    lemma_peer_at_least(ui.peers, peer);
}

proof fn lemma_peer_at_least(peers: Seq<PeerView>, key: [u8; 32])
    ensures
        0 <= peer_at(peers, key) <= peers.len(),
    decreases peers.len(),
{
    if peers.len() > 0 && peers[0].key != key {
        lemma_peer_at_least(peers.skip(1), key);
    }
}

/// A forgotten conversation is gone, and every other one is still there.
pub proof fn law_forgetting_takes_one(ui: UiView, peer: [u8; 32])
    requires
        ui.wf(),
    ensures
        forall|i: int|
            0 <= i < ui.applied(EventView::Forgotten { peer }).peers.len() ==> (#[trigger] ui.applied(
                EventView::Forgotten { peer },
            ).peers[i]).key != peer,
        forall|i: int|
            0 <= i < ui.peers.len() && (#[trigger] ui.peers[i]).key != peer ==> ui.applied(
                EventView::Forgotten { peer },
            ).peers.contains(ui.peers[i]),
        forall|i: int|
            0 <= i < ui.applied(EventView::Forgotten { peer }).peers.len() ==> ui.peers.contains(
                #[trigger] ui.applied(EventView::Forgotten { peer }).peers[i],
            ),
{
    lemma_filter_wf(ui.peers, peer);
    lemma_filter_keeps(ui.peers, peer);
}

proof fn lemma_filter_keeps(peers: Seq<PeerView>, key: [u8; 32])
    ensures
        forall|i: int|
            0 <= i < peers.len() && (#[trigger] peers[i]).key != key ==> peers.filter(
                |p: PeerView| p.key != key,
            ).contains(peers[i]),
    decreases peers.len(),
{
    let f = |p: PeerView| p.key != key;
    reveal(Seq::filter);
    if peers.len() > 0 {
        let init = peers.drop_last();
        lemma_filter_keeps(init, key);
        let front = init.filter(f);
        let kept = peers.filter(f);
        assert forall|i: int| 0 <= i < peers.len() && (#[trigger] peers[i]).key != key implies kept.contains(
            peers[i],
        ) by {
            if i < init.len() {
                assert(init[i] == peers[i]);
                assert(front.contains(init[i]));
                let j = front.index_of(init[i]);
                assert(kept[j] == front[j]);
            } else {
                assert(kept.last() == peers[i]);
                assert(kept[kept.len() - 1] == peers[i]);
            }
        }
    }
}

/// What the UI knows after a series of events.
pub open spec fn told(ui: UiView, events: Seq<EventView>) -> UiView
    decreases events.len(),
{
    if events.len() == 0 {
        ui
    } else {
        told(ui, events.drop_last()).applied(events.last())
    }
}

/// Whether an event says how an op left.
pub open spec fn says(event: EventView, id: crate::wire::MessageId, outcome: state::Delivery) -> bool {
    event == (EventView::Delivery { id, state: outcome })
}

/// A fan-out shows its worst outcome: whatever the events, and in whatever order
/// they come, what is shown of an op is the worst that was said of it. Only
/// where a conversation is deleted from the machine is it forgotten.
pub proof fn law_the_worst_delivery_is_shown(ui: UiView, events: Seq<EventView>, id: crate::wire::MessageId)
    requires
        forall|k: int| 0 <= k < events.len() ==> !((#[trigger] events[k]) is Forgotten) && !(events[k] is Wiped),
    ensures
        ({
            let after = told(ui, events).delivery;
            let was = ui.delivery;
            &&& forall|k: int, o: state::Delivery|
                0 <= k < events.len() && #[trigger] says(events[k], id, o) ==> after.dom().contains(id)
                    && after[id].rank() >= o.rank()
            &&& was.dom().contains(id) ==> after.dom().contains(id) && after[id].rank() >= was[id].rank()
            &&& after.dom().contains(id) ==> (was.dom().contains(id) && was[id] == after[id]) || exists|k: int|
                0 <= k < events.len() && #[trigger] says(events[k], id, after[id])
        }),
    decreases events.len(),
{
    if events.len() > 0 {
        let init = events.drop_last();
        let last = events.last();
        assert(events[events.len() - 1] == last);
        assert forall|k: int| 0 <= k < init.len() implies !((#[trigger] init[k]) is Forgotten) && !(init[k] is Wiped) by {
            assert(init[k] == events[k]);
        }
        law_the_worst_delivery_is_shown(ui, init, id);
        let mid = told(ui, init);
        let before = mid.delivery;
        let after = told(ui, events).delivery;
        assert(!(last is Delivery) ==> after == before);
        assert forall|k: int, o: state::Delivery|
            0 <= k < events.len() && #[trigger] says(events[k], id, o) implies after.dom().contains(id)
            && after[id].rank() >= o.rank() by {
            if k < init.len() {
                assert(says(init[k], id, o));
            }
        }
        if after.dom().contains(id) {
            if before.dom().contains(id) && before[id] == after[id] {
                if !(ui.delivery.dom().contains(id) && ui.delivery[id] == after[id]) {
                    let k = choose|k: int| 0 <= k < init.len() && #[trigger] says(init[k], id, before[id]);
                    assert(says(events[k], id, after[id]));
                }
            } else {
                assert(says(events[events.len() - 1], id, after[id]));
            }
        }
    }
}

/// Deliveries only ever get worse: a fan-out shows its worst outcome.
pub proof fn law_deliveries_get_worse(ui: UiView, id: crate::wire::MessageId, outcome: state::Delivery)
    ensures
        ui.applied(EventView::Delivery { id, state: outcome }).delivery.dom().contains(id),
        ui.applied(EventView::Delivery { id, state: outcome }).delivery[id].rank() >= outcome.rank(),
        ui.delivery.dom().contains(id) ==> ui.applied(EventView::Delivery { id, state: outcome }).delivery[id].rank()
            >= ui.delivery[id].rank(),
{
}

proof fn lemma_at(ui: UiView, j: int)
    requires
        ui.wf(),
        0 <= j < ui.peers.len(),
    ensures
        peer_at(ui.peers, ui.peers[j].key) == j,
        introduced(ui.peers, ui.peers[j].key) == ui.peers,
{
    lemma_peer_at(ui.peers, ui.peers[j].key, j);
}

/// What is told of a peer that is known already changes that peer in just what is
/// told, and nobody else.
pub proof fn law_events_change_what_they_tell(
    ui: UiView,
    j: int,
    nick: Option<Seq<char>>,
    alias: Option<Seq<char>>,
    name: Seq<char>,
    path: Seq<char>,
    room: state::RoomFace,
)
    requires
        ui.wf(),
        0 <= j < ui.peers.len(),
    ensures
        ({
            let p = ui.peers[j];
            let only = |q: PeerView| UiView { peers: ui.peers.update(j, q), ..ui };
            &&& ui.applied(EventView::Known { peer: p.key, nick, alias }) == only(PeerView { nick, alias, ..p })
            &&& ui.applied(EventView::Connected { peer: p.key, nick: name, path }) == only(
                PeerView { nick: Some(name), online: true, path, ..p },
            )
            &&& ui.applied(EventView::Path { peer: p.key, path }) == only(PeerView { path, ..p })
            &&& ui.applied(EventView::Disconnected { peer: p.key }) == only(
                PeerView { online: false, path: Seq::empty(), ..p },
            )
            &&& ui.applied(EventView::Room { id: p.key, view: room }) == only(PeerView { room: Some(room), ..p })
        }),
{
    lemma_at(ui, j);
}

/// Whoever is told of for the first time joins the list at its end, with what is
/// told and nothing more. Those who were there stay as they were.
pub proof fn law_strangers_join_at_the_end(
    ui: UiView,
    key: [u8; 32],
    nick: Option<Seq<char>>,
    alias: Option<Seq<char>>,
    name: Seq<char>,
    path: Seq<char>,
    room: state::RoomFace,
)
    requires
        forall|i: int| 0 <= i < ui.peers.len() ==> (#[trigger] ui.peers[i]).key != key,
    ensures
        ({
            let new = PeerView {
                key,
                nick: None,
                alias: None,
                online: false,
                path: Seq::empty(),
                log: Seq::empty(),
                unread: 0,
                cursor: 0,
                unread_from: None,
                room: None,
            };
            let joined = |q: PeerView| UiView { peers: ui.peers.push(q), ..ui };
            &&& ui.applied(EventView::Known { peer: key, nick, alias }) == joined(PeerView { nick, alias, ..new })
            &&& ui.applied(EventView::Connected { peer: key, nick: name, path }) == joined(
                PeerView { nick: Some(name), online: true, path, ..new },
            )
            &&& ui.applied(EventView::Room { id: key, view: room }) == joined(PeerView { room: Some(room), ..new })
        }),
{
    lemma_peer_at(ui.peers, key, ui.peers.len() as int);
    let n = ui.peers.len() as int;
    assert forall|q: PeerView| #[trigger] ui.peers.push(stranger(key)).update(n, q) =~= ui.peers.push(q) by {}
}

/// A log that is told replaces what is shown of that conversation, whole, however
/// long. What is new in a conversation that is not selected counts as unread,
/// once, from where the new part begins. A cursor at the end stays at the end,
/// and any other stays where it is while there is a message there.
pub proof fn law_logs_are_shown_whole(ui: UiView, j: int, entries: Seq<EntryView>)
    requires
        ui.wf(),
        0 <= j < ui.peers.len(),
        ui.peers[j].log.len() <= usize::MAX,
    ensures
        ({
            let p = ui.peers[j];
            let after = ui.applied(EventView::Log { peer: p.key, entries });
            let q = after.peers[j];
            let selected = ui.sel == j;
            let news = entries.len() > p.log.len() && !selected;
            &&& after.peers.len() == ui.peers.len()
            &&& forall|i: int| 0 <= i < ui.peers.len() && i != j ==> (#[trigger] after.peers[i]) == ui.peers[i]
            &&& q.log == entries
            &&& q.unread == (if news { p.unread + 1 } else { p.unread })
            &&& news && p.unread_from is None ==> q.unread_from == Some(p.log.len() as usize)
            &&& !news || p.unread_from is Some ==> q.unread_from == p.unread_from
            &&& entries.len() > 0 && (p.log.len() == 0 || p.cursor == p.log.len() - 1) ==> q.cursor == entries.len()
                - 1
            &&& p.cursor + 1 < p.log.len() && p.cursor < entries.len() ==> q.cursor == p.cursor
            &&& q == (PeerView {
                log: q.log,
                cursor: q.cursor,
                unread: q.unread,
                unread_from: q.unread_from,
                ..p
            })
            &&& after == (UiView {
                peers: after.peers,
                scroll: if selected {
                    0
                } else {
                    ui.scroll
                },
                ..ui
            })
        }),
{
    lemma_at(ui, j);
    if ui.sel != j && ui.selected_key() == Some(ui.peers[j].key) {
        assert(ui.peers[ui.sel as int].key == ui.peers[j].key);
        if ui.sel < j {
            assert(ui.peers[ui.sel as int].key != ui.peers[j].key);
        } else {
            assert(ui.peers[j].key != ui.peers[ui.sel as int].key);
        }
    }
}

/// A transfer is shown with how far it is until all of it is there. A status is
/// shown as it is. Nothing else changes.
pub proof fn law_transfers_and_status(
    ui: UiView,
    id: crate::wire::MessageId,
    done: u64,
    total: u64,
    status: Seq<char>,
)
    ensures
        ui.applied(EventView::Transfer { id, done, total }) == (UiView {
            transfers: if done < total {
                ui.transfers.insert(id, (done, total))
            } else {
                ui.transfers.remove(id)
            },
            ..ui
        }),
        ui.applied(EventView::Status(status)) == (UiView { status, ..ui }),
{
}

/// After a wipe nobody is left, and nothing of what was sent; the line that is
/// being typed and what waits to be sent stay.
pub proof fn law_a_wipe_leaves_nobody(ui: UiView)
    ensures
        ({
            let after = ui.applied(EventView::Wiped);
            &&& after.peers.len() == 0
            &&& after.selected() is None
            &&& after.delivery.dom() == Set::<crate::wire::MessageId>::empty()
            &&& after.transfers.dom() == Set::<crate::wire::MessageId>::empty()
            &&& after.input == ui.input && after.outbox == ui.outbox && after.nickname == ui.nickname
        }),
{
    assert(ui.applied(EventView::Wiped).delivery.dom() =~= Set::empty());
    assert(ui.applied(EventView::Wiped).transfers.dom() =~= Set::empty());
}

/// Forgetting a peer keeps the order of the others and selects one of them.
pub proof fn law_forgetting_keeps_the_order(ui: UiView, peer: [u8; 32])
    ensures
        ({
            let after = ui.applied(EventView::Forgotten { peer });
            &&& after.peers == ui.peers.filter(|p: PeerView| p.key != peer)
            &&& after.peers.len() > 0 ==> after.sel < after.peers.len()
            &&& ui.sel < after.peers.len() ==> after.sel == ui.sel
            &&& after.outbox == ui.outbox && after.input == ui.input
        }),
{
}

/// Of what became of a message, the worst is remembered: that it went nowhere over
/// that it was left on the hub, and that over that it went over the wire. What
/// became of other messages stays.
pub proof fn law_failures_are_remembered(ui: UiView, id: crate::wire::MessageId, outcome: state::Delivery)
    ensures
        ({
            let after = ui.applied(EventView::Delivery { id, state: outcome });
            let was = if ui.delivery.dom().contains(id) { Some(ui.delivery[id]) } else { None::<state::Delivery> };
            &&& after == (UiView { delivery: ui.delivery.insert(id, after.delivery[id]), ..ui })
            &&& was is None ==> after.delivery[id] == outcome
            &&& was == Some(state::Delivery::Failed) || outcome == state::Delivery::Failed ==> after.delivery[id]
                == state::Delivery::Failed
            &&& was == Some(state::Delivery::Wire) ==> after.delivery[id] == outcome
            &&& was == Some(state::Delivery::Mailbox) && outcome != state::Delivery::Failed ==> after.delivery[id]
                == state::Delivery::Mailbox
        }),
{
}

/// An endpoint that was not there joins the list with whatever is told of it, be it
/// a path, that it went, or what was said.
pub proof fn law_anything_told_of_a_stranger_adds_it(
    ui: UiView,
    key: [u8; 32],
    path: Seq<char>,
    entries: Seq<EntryView>,
)
    requires
        forall|i: int| 0 <= i < ui.peers.len() ==> (#[trigger] ui.peers[i]).key != key,
    ensures
        ({
            let n = ui.peers.len() as int;
            let on_path = ui.applied(EventView::Path { peer: key, path });
            let gone = ui.applied(EventView::Disconnected { peer: key });
            let said = ui.applied(EventView::Log { peer: key, entries });
            &&& on_path.peers.len() == n + 1 && on_path.peers.take(n) == ui.peers && on_path.peers[n].key == key
                && on_path.peers[n].path == path && !on_path.peers[n].online
            &&& gone.peers.len() == n + 1 && gone.peers.take(n) == ui.peers && gone.peers[n].key == key
                && !gone.peers[n].online
            &&& said.peers.len() == n + 1 && said.peers.take(n) == ui.peers && said.peers[n].key == key
                && said.peers[n].log == entries
            &&& said.peers[n].unread == (if entries.len() > 0 { 1int } else { 0 })
            &&& said.scroll == ui.scroll
        }),
{
    lemma_peer_at(ui.peers, key, ui.peers.len() as int);
    assert(ui.applied(EventView::Path { peer: key, path }).peers.take(ui.peers.len() as int) =~= ui.peers);
    assert(ui.applied(EventView::Disconnected { peer: key }).peers.take(ui.peers.len() as int) =~= ui.peers);
    assert(ui.applied(EventView::Log { peer: key, entries }).peers.take(ui.peers.len() as int) =~= ui.peers);
}

/// When an endpoint is forgotten, what became of messages is forgotten too, and the
/// chat is shown from its end; files on their way go on.
pub proof fn law_forgetting_starts_afresh(ui: UiView, peer: [u8; 32])
    ensures
        ({
            let after = ui.applied(EventView::Forgotten { peer });
            &&& after.delivery.dom() == Set::<crate::wire::MessageId>::empty()
            &&& after.scroll == 0
            &&& after.transfers == ui.transfers
            &&& after.status == ui.status && after.nickname == ui.nickname && after.pending == ui.pending
        }),
{
}

} // verus!
