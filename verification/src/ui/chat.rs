//! The chat pane: one conversation, drawn from the bottom.

use super::dates;
use super::lines::{Bubble, BubbleView, Color, Line, LineView, Span, SpanView, Style};
use super::state::{Entry, EntryView, Focus, Peer, PeerView, Rect, Ui, UiView};
use super::{lines, state, text as layout};
use crate::store::Slot;
use crate::wire::MessageId;
use crate::{bytes, store, text};
use vstd::prelude::*;

verus! {

/// When a message was written, as the pane shows it.
#[derive(Debug)]
pub struct Stamp {
    pub clock: String,
    /// The day, where the calendar has one for it.
    pub day: Option<i32>,
}

/// A stamp as mathematical values.
#[verifier::ext_equal]
pub struct StampView {
    pub clock: Seq<char>,
    pub day: Option<i32>,
}

impl View for Stamp {
    type V = StampView;

    open spec fn view(&self) -> StampView {
        StampView { clock: self.clock@, day: self.day }
    }
}

/// Stamps as mathematical values.
pub open spec fn stamps_view(stamps: Seq<Stamp>) -> Seq<StampView> {
    stamps.map_values(|s: Stamp| s@)
}

/// Whether the calendar holds every day of the stamps.
pub open spec fn dated(stamps: Seq<StampView>) -> bool {
    forall|i: int|
        0 <= i < stamps.len() ==> ((#[trigger] stamps[i]).day matches Some(d) ==> dates::in_calendar(d as int))
}

/// A pane with its border.
#[derive(Debug, PartialEq, Eq)]
pub struct Pane {
    pub lines: Vec<Line>,
    pub title: String,
    /// Whether the border stands out.
    pub focused: bool,
}

/// A pane as mathematical values.
#[verifier::ext_equal]
pub struct PaneView {
    pub lines: Seq<LineView>,
    pub title: Seq<char>,
    pub focused: bool,
}

impl View for Pane {
    type V = PaneView;

    open spec fn view(&self) -> PaneView {
        PaneView { lines: lines::lines_view(self.lines@), title: self.title@, focused: self.focused }
    }
}

/// The first of some messages under an id.
pub open spec fn found(log: Seq<EntryView>, id: MessageId) -> Option<EntryView>
    decreases log.len(),
{
    if log.len() == 0 {
        None
    } else if log[0].id == id {
        Some(log[0])
    } else {
        found(log.skip(1), id)
    }
}

/// A reaction with its count; one of yours is in brackets.
pub open spec fn chip(slot: Slot) -> Seq<char> {
    if slot.mine {
        "["@ + slot.emoji + " "@ + text::decimal(slot.count) + "]"@
    } else {
        slot.emoji + " "@ + text::decimal(slot.count)
    }
}

/// Reactions side by side.
pub open spec fn chips(slots: Seq<Slot>) -> Seq<char>
    decreases slots.len(),
{
    if slots.len() == 0 {
        Seq::empty()
    } else if slots.len() == 1 {
        chip(slots[0])
    } else {
        chips(slots.drop_last()) + " "@ + chip(slots.last())
    }
}

/// Lines shown in reverse.
pub open spec fn reversed(lines: Seq<LineView>) -> Seq<LineView> {
    lines.map_values(|l: LineView| LineView { reversed: true, ..l })
}

/// What is drawn of a conversation before it is cut to the pane.
#[verifier::ext_equal]
pub struct Sheet {
    pub lines: Seq<LineView>,
    /// Which message each line came from.
    pub owners: Seq<usize>,
    /// Where the message under the cursor starts and ends.
    pub span: (nat, nat),
}

/// What the pane is drawn from.
pub struct Scene<'a> {
    pub ui: &'a Ui,
    pub peer: &'a Peer,
    pub stamps: &'a Vec<Stamp>,
    pub today: i32,
    pub width: usize,
}

/// What the pane is drawn from, as mathematical values.
pub struct SceneView {
    pub ui: UiView,
    pub peer: PeerView,
    pub stamps: Seq<StampView>,
    pub today: int,
    pub width: nat,
}

impl<'a> View for Scene<'a> {
    type V = SceneView;

    open spec fn view(&self) -> SceneView {
        SceneView {
            ui: self.ui@,
            peer: self.peer@,
            stamps: stamps_view(self.stamps@),
            today: self.today as int,
            width: self.width as nat,
        }
    }
}

impl SceneView {
    /// Whether there is room for bubbles.
    pub open spec fn bubbles(self) -> bool {
        self.width >= lines::BUBBLE_MIN_PANE
    }

    /// The last day on which one of the first `n` messages was written.
    pub open spec fn last_day(self, n: nat) -> Option<i32>
        decreases n,
    {
        if n == 0 {
            None
        } else {
            match self.stamps[n - 1].day {
                Some(d) => Some(d),
                None => self.last_day((n - 1) as nat),
            }
        }
    }

    /// Whether the messages not seen yet begin with message `i`.
    pub open spec fn first_unread(self, i: int) -> bool {
        self.peer.unread_from matches Some(u) && u == i
    }

    /// The rules above message `i`: a new day, the start of what is unread.
    pub open spec fn rules(self, i: int) -> Seq<LineView> {
        let day = match self.stamps[i].day {
            Some(d) => if self.last_day(i as nat) != Some(d) {
                seq![
                    lines::single(
                        layout::ruled(dates::labelled(d as int, self.today), self.width),
                        lines::coloured(Color::DarkGray),
                    ),
                ]
            } else {
                Seq::empty()
            },
            None => Seq::empty(),
        };
        if self.first_unread(i) {
            day.push(lines::single(layout::ruled("new"@, self.width), lines::coloured(Color::Yellow)))
        } else {
            day
        }
    }

    /// Who wrote a message, and the colour of the name: one that is only
    /// claimed is dimmed.
    pub open spec fn writer(self, e: EntryView) -> (Seq<char>, Color) {
        if e.outbound {
            (self.ui.nickname, Color::Cyan)
        } else if self.peer.named() {
            (self.peer.label(), Color::Magenta)
        } else {
            (self.peer.label(), Color::DarkGray)
        }
    }

    /// Whether message `i` goes on from the one before: the same sender on the
    /// same day within five minutes, and no mark between.
    pub open spec fn grouped(self, i: int) -> bool {
        &&& i > 0
        &&& self.peer.log[i - 1].id.sender == self.peer.log[i].id.sender
        &&& self.peer.log[i].id.ts_ms - self.peer.log[i - 1].id.ts_ms < 300_000
        &&& !self.first_unread(i)
        &&& self.stamps[i - 1].day == self.stamps[i].day
    }

    /// The start of the message that a reply is to.
    pub open spec fn quoted(self, e: EntryView) -> Option<Seq<char>> {
        match e.reply_to {
            Some(target) => {
                let said = match found(self.peer.log, target) {
                    Some(q) => if q.deleted {
                        "(deleted)"@
                    } else {
                        q.body
                    },
                    None => "(message not here)"@,
                };
                Some("┆ "@ + layout::first_line_of(said, self.width / 2))
            },
            None => None,
        }
    }

    /// How a message of yours left.
    pub open spec fn marker(self, e: EntryView) -> Option<(Seq<char>, Color)> {
        if e.outbound && self.ui.delivery.dom().contains(e.id) {
            Some(self.ui.delivery[e.id].mark())
        } else {
            None
        }
    }

    /// How far the bytes of a file have come.
    pub open spec fn progress(self, id: MessageId, path: Option<Seq<char>>) -> Seq<char> {
        if self.ui.transfers.dom().contains(id) {
            layout::progress(self.ui.transfers[id].0 as nat, self.ui.transfers[id].1 as nat)
        } else {
            match path {
                Some(path) => "saved to "@ + path,
                None => "waiting for the bytes"@,
            }
        }
    }

    /// The columns that the text of message `i` may take.
    pub open spec fn room(self, i: int) -> nat {
        let taken = if self.bubbles() {
            6
        } else {
            layout::columns(self.stamps[i].clock) as nat + layout::columns(
                self.writer(self.peer.log[i]).0,
            ) as nat + 2
        };
        let all = if self.bubbles() {
            layout::least(self.width, lines::BUBBLE_MAX as nat)
        } else {
            self.width
        };
        layout::most(layout::monus(all, taken), 8)
    }

    /// What message `i` says, line by line.
    pub open spec fn content(self, i: int) -> Seq<Seq<char>> {
        let e = self.peer.log[i];
        match e.attachment {
            Some(file) => seq![
                "📎 "@ + file.name + " · "@ + layout::sized(file.size as nat) + " · blake3 "@ + bytes::hex(
                    file.hash@.take(4),
                ),
                self.progress(e.id, file.path),
            ],
            None => if e.deleted {
                seq!["(deleted)"@]
            } else {
                layout::wrapped(e.body, self.room(i))
            },
        }
    }

    /// How what a message says looks in a bubble.
    pub open spec fn style(self, e: EntryView) -> Style {
        if e.attachment is Some {
            Style { bold: true, ..lines::plain() }
        } else if e.deleted {
            Style { fg: Some(Color::DarkGray), italic: true, ..lines::plain() }
        } else {
            lines::plain()
        }
    }

    /// Message `i` as a bubble.
    pub open spec fn bubble(self, i: int) -> BubbleView {
        let e = self.peer.log[i];
        BubbleView {
            body: self.content(i),
            quoted: self.quoted(e),
            name: if !self.grouped(i) && !e.outbound {
                Some(self.writer(e).0)
            } else {
                None
            },
            meta: self.stamps[i].clock,
            colour: self.writer(e).1,
            mine: e.outbound,
            pane: self.width,
            style: self.style(e),
            marker: self.marker(e),
        }
    }

    /// What stands before line `n` of message `i` where there is no bubble.
    pub open spec fn head(self, i: int, n: int) -> Seq<SpanView> {
        let clock = self.stamps[i].clock;
        let (who, colour) = self.writer(self.peer.log[i]);
        if n == 0 && !self.grouped(i) {
            seq![
                lines::styled(clock + " "@, lines::coloured(Color::DarkGray)),
                lines::styled(who + ": "@, lines::coloured(colour)),
            ]
        } else {
            seq![
                lines::styled(
                    layout::repeated(' ', layout::columns(clock + " "@ + who + ": "@) as nat),
                    lines::plain(),
                ),
            ]
        }
    }

    /// Line `n` of message `i` where there is no bubble.
    pub open spec fn row(self, i: int, n: int) -> LineView {
        let said = self.head(i, n) + lines::mentions(self.content(i)[n], self.ui.nickname);
        LineView {
            spans: match self.marker(self.peer.log[i]) {
                Some((glyph, colour)) => if n == self.content(i).len() - 1 {
                    said.push(lines::styled(" "@ + glyph, lines::coloured(colour)))
                } else {
                    said
                },
                None => said,
            },
            reversed: false,
        }
    }

    /// Message `i` where there is no bubble.
    pub open spec fn compact(self, i: int) -> Seq<LineView> {
        let rows = Seq::new(self.content(i).len(), |n: int| self.row(i, n));
        match self.quoted(self.peer.log[i]) {
            Some(quote) => seq![lines::single("  "@ + quote, lines::coloured(Color::DarkGray))] + rows,
            None => rows,
        }
    }

    /// The reactions to a message.
    pub open spec fn reactions(self, e: EntryView) -> Seq<LineView> {
        if e.reactions.len() == 0 {
            Seq::empty()
        } else {
            let all = chips(e.reactions);
            let indent = if self.bubbles() && e.outbound {
                layout::monus(self.width, layout::columns(all) as nat + 3)
            } else {
                2
            };
            seq![lines::single(layout::repeated(' ', indent) + all, lines::coloured(Color::Yellow))]
        }
    }

    /// Whether the keys go to message `i`.
    pub open spec fn pointed(self, i: int) -> bool {
        i == self.peer.cursor && self.ui.focus == Focus::Chat
    }

    /// The lines of message `i`.
    pub open spec fn message(self, i: int) -> Seq<LineView> {
        let all = (if self.bubbles() {
            self.bubble(i).rendered()
        } else {
            self.compact(i)
        }) + self.reactions(self.peer.log[i]);
        if self.pointed(i) {
            reversed(all)
        } else {
            all
        }
    }

    /// The first `n` messages, one below the other.
    pub open spec fn sheet(self, n: nat) -> Sheet
        decreases n,
    {
        if n == 0 {
            Sheet { lines: Seq::empty(), owners: Seq::empty(), span: (0, 0) }
        } else {
            let above = self.sheet((n - 1) as nat);
            let i = n - 1;
            let rules = self.rules(i);
            let message = self.message(i);
            let start = above.lines.len() + rules.len();
            Sheet {
                lines: above.lines + rules + message,
                owners: above.owners + Seq::new(rules.len(), |k: int| usize::MAX) + Seq::new(
                    message.len(),
                    |k: int| i as usize,
                ),
                span: if self.pointed(i) {
                    (start, start + message.len())
                } else {
                    above.span
                },
            }
        }
    }
}

impl Sheet {
    /// How far the pane can be scrolled back.
    pub open spec fn farthest(self, height: nat) -> nat {
        layout::monus(self.lines.len(), height)
    }

    /// How far the pane is scrolled back, when `scroll` was asked for: as far
    /// as there are lines, and so that the message under the cursor is on
    /// screen when the keys go to it.
    pub open spec fn settled(self, height: nat, scroll: nat, focused: bool) -> nat {
        let farthest = self.farthest(height);
        let above = layout::monus(farthest, scroll);
        let moved = if focused && height > 0 && self.span.0 < above {
            (farthest - self.span.0) as nat
        } else if focused && height > 0 && self.span.1 > above + height {
            layout::monus(farthest, layout::monus(self.span.1, height))
        } else {
            scroll
        };
        layout::least(moved, farthest)
    }

    /// What is on screen. Chat reads from the bottom, so a short log is padded
    /// above, not below.
    pub open spec fn window<T>(self, all: Seq<T>, filler: T, height: nat, scroll: nat) -> Seq<T> {
        let start = self.farthest(height) - scroll;
        let shown = layout::least(self.lines.len(), height);
        Seq::new((height - shown) as nat, |k: int| filler) + all.subrange(start, start + shown)
    }
}

impl UiView {
    /// What the chat pane is drawn from.
    pub open spec fn scene(self, stamps: Seq<StampView>, today: int, area: Rect) -> SceneView {
        SceneView {
            ui: self,
            peer: self.peers[self.sel as int],
            stamps,
            today,
            width: layout::most(layout::monus(area.width as nat, 2), 8),
        }
    }

    /// The title of the chat pane.
    pub open spec fn chat_title(self) -> Seq<char> {
        let p = self.peers[self.sel as int];
        let title = if p.named() {
            p.label() + " — "@ + p.subtitle()
        } else {
            p.label() + "? — unverified name — "@ + p.subtitle()
        };
        if self.scroll > 0 {
            title + "  ↑"@ + text::decimal(self.scroll) + " scrolled back"@
        } else {
            title
        }
    }

    /// With the selected conversation drawn, and the pane.
    pub open spec fn chat_drawn(self, area: Rect, stamps: Seq<StampView>, today: int) -> (UiView, PaneView) {
        let scene = self.scene(stamps, today, area);
        let sheet = scene.sheet(scene.peer.log.len());
        let height = layout::monus(area.height as nat, 2);
        let scroll = sheet.settled(height, self.scroll, self.focus == Focus::Chat);
        let ui = UiView {
            scroll,
            chat_rows: sheet.window(sheet.owners, usize::MAX, height, scroll),
            ..self
        };
        let blank = LineView { spans: Seq::empty(), reversed: false };
        (
            ui,
            PaneView {
                lines: sheet.window(sheet.lines, blank, height, scroll),
                title: ui.chat_title(),
                focused: self.focus == Focus::Chat,
            },
        )
    }
}

/// The text of a message under an id, or what stands for it.
fn quotation(log: &Vec<Entry>, target: &MessageId) -> (r: String)
    ensures
        r@ == (match found(state::log_view(log@), *target) {
            Some(q) => if q.deleted {
                "(deleted)"@
            } else {
                q.body
            },
            None => "(message not here)"@,
        }),
{
    let ghost all = state::log_view(log@);
    let mut i: usize = 0;
    assert(all.skip(0) =~= all);
    while i < log.len()
        invariant
            i <= log@.len(),
            all == state::log_view(log@),
            found(all.skip(i as int), *target) == found(all, *target),
        decreases log@.len() - i,
    {
        let e = &log[i];
        proof {
            assert(all.skip(i as int)[0] == e@);
            assert(all.skip(i as int).skip(1) =~= all.skip(i + 1));
        }
        if e.id.same(target) {
            return if e.deleted { "(deleted)".to_owned() } else { e.body.clone() };
        }
        i = i + 1;
    }
    assert(all.skip(i as int).len() == 0);
    "(message not here)".to_owned()
}

/// Computes [`chips`].
fn chips_of(reactions: &Vec<(String, usize, bool)>) -> (r: String)
    ensures
        r@ == chips(store::slots_view(reactions@)),
{
    let ghost all = store::slots_view(reactions@);
    let mut out: String = String::new();
    let mut i: usize = 0;
    assert(all.take(0) =~= Seq::<Slot>::empty());
    while i < reactions.len()
        invariant
            i <= reactions@.len(),
            all == store::slots_view(reactions@),
            out@ == chips(all.take(i as int)),
        decreases reactions@.len() - i,
    {
        let (emoji, count, mine) = &reactions[i];
        proof {
            assert(all.take(i + 1).drop_last() =~= all.take(i as int));
            assert(all.take(i + 1).last() == all[i as int]);
            if i == 0 {
                assert(all.take(1)[0] == all[0]);
            }
        }
        if i > 0 {
            out.append(" ");
        }
        let ghost was = out@;
        if *mine {
            out.append("[");
        }
        out.append(emoji.as_str());
        out.append(" ");
        out.append(text::decimal_of(*count as u64).as_str());
        if *mine {
            out.append("]");
        }
        proof {
            assert(out@ =~= was + chip(all[i as int]));
            if i > 0 {
                assert(out@ =~= chips(all.take(i as int)) + " "@ + chip(all[i as int]));
            } else {
                assert(out@ =~= chip(all[0]));
            }
        }
        i = i + 1;
    }
    assert(all.take(i as int) =~= all);
    out
}

impl<'a> Scene<'a> {
    /// Whether the parts fit together.
    pub open spec fn wf(&self) -> bool {
        &&& self.ui.wf()
        &&& self.stamps@.len() == self.peer.log@.len()
        &&& dated(self@.stamps)
        &&& dates::in_calendar(self.today as int)
    }

    /// Computes [`SceneView::writer`].
    fn writer(&self, e: &Entry) -> (r: (String, Color))
        ensures
            (r.0@, r.1) == self@.writer(e@),
    {
        if e.outbound {
            (self.ui.nickname.clone(), Color::Cyan)
        } else if self.peer.named() {
            (self.peer.label(), Color::Magenta)
        } else {
            (self.peer.label(), Color::DarkGray)
        }
    }

    /// Computes [`SceneView::grouped`].
    fn grouped(&self, i: usize) -> (r: bool)
        requires
            self.wf(),
            i < self.peer.log@.len(),
        ensures
            r == self@.grouped(i as int),
    {
        if i == 0 {
            return false;
        }
        let prev = &self.peer.log[i - 1];
        let here = &self.peer.log[i];
        proof {
            assert(self@.peer.log[i as int] == here@);
            assert(self@.peer.log[i - 1] == prev@);
            assert(self@.stamps[i as int] == self.stamps@[i as int]@);
            assert(self@.stamps[i - 1] == self.stamps@[i - 1]@);
        }
        bytes::same32(&prev.id.sender, &here.id.sender) && here.id.ts_ms.saturating_sub(prev.id.ts_ms) < 300_000
            && !self.first_unread(i) && self.stamps[i - 1].day == self.stamps[i].day
    }

    /// Computes [`SceneView::first_unread`].
    fn first_unread(&self, i: usize) -> (r: bool)
        ensures
            r == self@.first_unread(i as int),
    {
        match self.peer.unread_from {
            Some(u) => u == i,
            None => false,
        }
    }

    /// Computes [`SceneView::quoted`].
    fn quoted(&self, e: &Entry) -> (r: Option<String>)
        ensures
            lines::maybe(r) == self@.quoted(e@),
    {
        match &e.reply_to {
            Some(target) => {
                let said = quotation(&self.peer.log, target);
                Some("┆ ".to_owned().concat(layout::first_line(said.as_str(), self.width / 2).as_str()))
            },
            None => None,
        }
    }

    /// Computes [`SceneView::marker`].
    fn marker(&self, e: &Entry) -> (r: Option<(String, Color)>)
        requires
            self.wf(),
        ensures
            lines::maybe_mark(r) == self@.marker(e@),
    {
        if !e.outbound {
            return None;
        }
        match self.ui.delivery.get(&e.id) {
            Some(d) => Some(d.glyph()),
            None => None,
        }
    }

    /// Computes [`SceneView::progress`].
    fn progress(&self, id: &MessageId, path: &Option<String>) -> (r: String)
        requires
            self.wf(),
        ensures
            r@ == self@.progress(*id, lines::maybe(*path)),
    {
        match self.ui.transfers.get(id) {
            Some(t) => layout::progress_bar(t.0, t.1),
            None => match path {
                Some(path) => "saved to ".to_owned().concat(path.as_str()),
                None => "waiting for the bytes".to_owned(),
            },
        }
    }

    /// Computes [`SceneView::room`].
    fn room(&self, i: usize) -> (r: usize)
        requires
            self.wf(),
            i < self.peer.log@.len(),
        ensures
            r == self@.room(i as int),
    {
        let left: usize = if self.width >= lines::BUBBLE_MIN_PANE {
            let all: usize = if self.width < lines::BUBBLE_MAX { self.width } else { lines::BUBBLE_MAX };
            all - 6
        } else {
            proof {
                assert(self@.peer.log[i as int] == self.peer.log@[i as int]@);
                assert(self@.stamps[i as int] == self.stamps@[i as int]@);
            }
            let who = self.writer(&self.peer.log[i]).0;
            let taken: usize = layout::str_width(self.stamps[i].clock.as_str()).saturating_add(
                layout::str_width(who.as_str()),
            ).saturating_add(2);
            self.width.saturating_sub(taken)
        };
        if left > 8 { left } else { 8 }
    }

    /// Computes [`SceneView::content`].
    fn content(&self, i: usize) -> (r: Vec<String>)
        requires
            self.wf(),
            i < self.peer.log@.len(),
        ensures
            layout::strings_view(r@) == self@.content(i as int),
            r@.len() > 0,
    {
        let e = &self.peer.log[i];
        assert(self@.peer.log[i as int] == e@);
        match &e.attachment {
            Some(file) => {
                let mut hash: String = String::new();
                text::push_hex(&mut hash, vstd::slice::slice_subrange(&file.hash, 0, 4));
                proof {
                    assert(file.hash@.subrange(0, 4) =~= file.hash@.take(4));
                    assert(hash@ =~= bytes::hex(file.hash@.take(4)));
                }
                let name = "📎 ".to_owned().concat(file.name.as_str()).concat(" · ").concat(
                    layout::human(file.size).as_str(),
                ).concat(" · blake3 ").concat(hash.as_str());
                let mut out: Vec<String> = Vec::new();
                out.push(name);
                out.push(self.progress(&e.id, &file.path));
                assert(layout::strings_view(out@) =~= self@.content(i as int));
                out
            },
            None => {
                if e.deleted {
                    let mut out: Vec<String> = Vec::new();
                    out.push("(deleted)".to_owned());
                    assert(layout::strings_view(out@) =~= self@.content(i as int));
                    out
                } else {
                    layout::wrap(e.body.as_str(), self.room(i))
                }
            },
        }
    }

    /// Computes [`SceneView::style`].
    fn style(&self, e: &Entry) -> (r: Style)
        ensures
            r == self@.style(e@),
    {
        if e.attachment.is_some() {
            Style { fg: None, bg: None, bold: true, italic: false, reversed: false }
        } else if e.deleted {
            Style { fg: Some(Color::DarkGray), bg: None, bold: false, italic: true, reversed: false }
        } else {
            Style::new()
        }
    }

    /// Computes [`SceneView::bubble`].
    fn bubble(&self, i: usize) -> (r: Bubble)
        requires
            self.wf(),
            i < self.peer.log@.len(),
        ensures
            r@ == self@.bubble(i as int),
    {
        let e = &self.peer.log[i];
        proof {
            assert(self@.peer.log[i as int] == e@);
            assert(self@.stamps[i as int] == self.stamps@[i as int]@);
        }
        let (who, colour) = self.writer(e);
        Bubble {
            body: self.content(i),
            quoted: self.quoted(e),
            name: if !self.grouped(i) && !e.outbound { Some(who) } else { None },
            meta: self.stamps[i].clock.clone(),
            colour,
            mine: e.outbound,
            pane: self.width,
            style: self.style(e),
            marker: self.marker(e),
        }
    }
}

impl<'a> Scene<'a> {
    /// Computes [`SceneView::head`].
    fn head(&self, i: usize, first: bool) -> (r: Vec<Span>)
        requires
            self.wf(),
            i < self.peer.log@.len(),
        ensures
            forall|n: int| (n == 0) == first ==> lines::spans_view(r@) == #[trigger] self@.head(i as int, n),
    {
        let e = &self.peer.log[i];
        proof {
            assert(self@.peer.log[i as int] == e@);
            assert(self@.stamps[i as int] == self.stamps@[i as int]@);
        }
        let (who, colour) = self.writer(e);
        let clock = self.stamps[i].clock.clone().concat(" ");
        let mut out: Vec<Span> = Vec::new();
        if first && !self.grouped(i) {
            out.push(Span { content: clock, style: Style::of(Color::DarkGray) });
            out.push(Span { content: who.concat(": "), style: Style::of(colour) });
            assert(lines::spans_view(out@) =~= self@.head(i as int, 0));
        } else {
            let prefix = clock.concat(who.as_str()).concat(": ");
            let blank = layout::repeat(' ', layout::str_width(prefix.as_str()));
            out.push(Span { content: blank, style: Style::new() });
            assert forall|n: int| (n == 0) == first implies lines::spans_view(out@) == #[trigger] self@.head(
                i as int,
                n,
            ) by {
                assert(lines::spans_view(out@) =~= self@.head(i as int, n));
            }
        }
        out
    }

    /// Computes [`SceneView::row`].
    fn row(&self, i: usize, content: &Vec<String>, n: usize) -> (r: Line)
        requires
            self.wf(),
            i < self.peer.log@.len(),
            layout::strings_view(content@) == self@.content(i as int),
            n < content@.len(),
        ensures
            r@ == self@.row(i as int, n as int),
    {
        let mut spans = self.head(i, n == 0);
        let ghost before = lines::spans_view(spans@);
        let mut said = lines::mention_spans(content[n].as_str(), self.ui.nickname.as_str());
        let ghost named = lines::spans_view(said@);
        proof {
            assert(before == self@.head(i as int, n as int));
            assert(self@.content(i as int)[n as int] == content@[n as int]@);
        }
        spans.append(&mut said);
        assert(lines::spans_view(spans@) =~= before + named);
        let mut line = Line { spans, reversed: false };
        assert(self@.peer.log[i as int] == self.peer.log@[i as int]@);
        match self.marker(&self.peer.log[i]) {
            Some((glyph, colour)) => {
                if n == content.len() - 1 {
                    line.push(Span { content: " ".to_owned().concat(glyph.as_str()), style: Style::of(colour) });
                }
            },
            None => {},
        }
        line
    }

    /// Draws [`SceneView::compact`] below the lines that are there.
    fn compact(&self, i: usize, out: &mut Vec<Line>)
        requires
            self.wf(),
            i < self.peer.log@.len(),
        ensures
            lines::lines_view(final(out)@) == lines::lines_view(old(out)@) + self@.compact(i as int),
    {
        let ghost start = lines::lines_view(out@);
        let ghost scene = self@;
        let content = self.content(i);
        assert(scene.peer.log[i as int] == self.peer.log@[i as int]@);
        match self.quoted(&self.peer.log[i]) {
            Some(quote) => {
                lines::push_line(
                    out,
                    Line::single("  ".to_owned().concat(quote.as_str()), Style::of(Color::DarkGray)),
                );
            },
            None => {},
        }
        let ghost above = lines::lines_view(out@);
        let ghost rows = Seq::new(scene.content(i as int).len(), |n: int| scene.row(i as int, n));
        let mut n: usize = 0;
        assert(above + rows.take(0) =~= above);
        while n < content.len()
            invariant
                n <= content@.len(),
                self.wf(),
                scene == self@,
                i < self.peer.log@.len(),
                layout::strings_view(content@) == scene.content(i as int),
                rows == Seq::new(scene.content(i as int).len(), |n: int| scene.row(i as int, n)),
                lines::lines_view(out@) == above + rows.take(n as int),
            decreases content@.len() - n,
        {
            lines::push_line(out, self.row(i, &content, n));
            proof {
                assert(rows.take(n + 1) =~= rows.take(n as int).push(scene.row(i as int, n as int)));
                assert(above + rows.take(n + 1) =~= (above + rows.take(n as int)).push(
                    scene.row(i as int, n as int),
                ));
            }
            n = n + 1;
        }
        proof {
            assert(rows.take(n as int) =~= rows);
            assert(above + rows =~= start + scene.compact(i as int));
        }
    }

    /// Draws [`SceneView::reactions`] below the lines that are there.
    fn reactions(&self, e: &Entry, out: &mut Vec<Line>)
        ensures
            lines::lines_view(final(out)@) == lines::lines_view(old(out)@) + self@.reactions(e@),
    {
        let ghost start = lines::lines_view(out@);
        if e.reactions.len() == 0 {
            assert(start + self@.reactions(e@) =~= start);
            return;
        }
        let chips = chips_of(&e.reactions);
        let indent: usize = if self.width >= lines::BUBBLE_MIN_PANE && e.outbound {
            self.width.saturating_sub(layout::str_width(chips.as_str()).saturating_add(3))
        } else {
            2
        };
        lines::push_line(
            out,
            Line::single(layout::repeat(' ', indent).concat(chips.as_str()), Style::of(Color::Yellow)),
        );
        assert(lines::lines_view(out@) =~= start + self@.reactions(e@));
    }

    /// Draws [`SceneView::rules`] below the lines that are there.
    fn rules(&self, i: usize, last_day: Option<i32>, out: &mut Vec<Line>)
        requires
            self.wf(),
            i < self.peer.log@.len(),
            last_day == self@.last_day(i as nat),
        ensures
            lines::lines_view(final(out)@) == lines::lines_view(old(out)@) + self@.rules(i as int),
    {
        let ghost start = lines::lines_view(out@);
        assert(self@.stamps[i as int] == self.stamps@[i as int]@);
        match self.stamps[i].day {
            Some(date) => {
                if last_day != Some(date) {
                    let label = dates::day_label(date, self.today);
                    lines::push_line(
                        out,
                        Line::single(layout::rule(label.as_str(), self.width), Style::of(Color::DarkGray)),
                    );
                }
            },
            None => {},
        }
        if self.first_unread(i) {
            lines::push_line(out, Line::single(layout::rule("new", self.width), Style::of(Color::Yellow)));
        }
        assert(lines::lines_view(out@) =~= start + self@.rules(i as int));
    }

    /// Draws [`SceneView::message`] below the lines that are there.
    fn message(&self, i: usize, out: &mut Vec<Line>)
        requires
            self.wf(),
            i < self.peer.log@.len(),
        ensures
            lines::lines_view(final(out)@) == lines::lines_view(old(out)@) + self@.message(i as int),
    {
        let ghost start = lines::lines_view(out@);
        let ghost scene = self@;
        let from: usize = out.len();
        if self.width >= lines::BUBBLE_MIN_PANE {
            self.bubble(i).render(out);
        } else {
            self.compact(i, out);
        }
        let e = &self.peer.log[i];
        assert(scene.peer.log[i as int] == e@);
        self.reactions(e, out);
        let ghost all = (if scene.bubbles() {
            scene.bubble(i as int).rendered()
        } else {
            scene.compact(i as int)
        }) + scene.reactions(e@);
        assert(lines::lines_view(out@) =~= start + all);
        if i == self.peer.cursor && self.ui.focus == Focus::Chat {
            reverse_from(out, from);
            assert(lines::lines_view(out@) =~= start + reversed(all));
        }
    }
}

/// Shows the lines from `from` on in reverse.
fn reverse_from(out: &mut Vec<Line>, from: usize)
    requires
        from <= old(out)@.len(),
    ensures
        lines::lines_view(final(out)@) == lines::lines_view(old(out)@).take(from as int) + reversed(
            lines::lines_view(old(out)@).skip(from as int),
        ),
{
    let ghost was = out@;
    let mut k: usize = from;
    while k < out.len()
        invariant
            from <= k <= out@.len(),
            out@.len() == was.len(),
            forall|j: int| 0 <= j < from || k <= j < was.len() ==> out@[j] == #[trigger] was[j],
            forall|j: int|
                from <= j < k ==> out@[j].spans == (#[trigger] was[j]).spans && out@[j].reversed,
        decreases out@.len() - k,
    {
        out[k].reversed = true;
        k = k + 1;
    }
    proof {
        let lhs = lines::lines_view(out@);
        let rhs = lines::lines_view(was).take(from as int) + reversed(lines::lines_view(was).skip(from as int));
        assert(lhs.len() == rhs.len());
        assert forall|j: int| 0 <= j < lhs.len() implies lhs[j] == #[trigger] rhs[j] by {
            assert(was[j] == was[j]);
        }
        assert(lhs =~= rhs);
    }
}

/// A conversation drawn, before it is cut to the pane.
struct Drawn {
    lines: Vec<Line>,
    owners: Vec<usize>,
    start: usize,
    end: usize,
}

impl Drawn {
    /// Whether it is `sheet`.
    spec fn is(&self, sheet: Sheet) -> bool {
        &&& lines::lines_view(self.lines@) == sheet.lines
        &&& self.owners@ == sheet.owners
        &&& (self.start as nat, self.end as nat) == sheet.span
    }
}

/// A sheet has an owner for every line, and the message under the cursor lies
/// on it.
pub proof fn lemma_sheet(scene: SceneView, n: nat)
    ensures
        scene.sheet(n).owners.len() == scene.sheet(n).lines.len(),
        scene.sheet(n).span.0 <= scene.sheet(n).span.1 <= scene.sheet(n).lines.len(),
    decreases n,
{
    if n > 0 {
        lemma_sheet(scene, (n - 1) as nat);
    }
}

/// Adds a number over and over.
fn fill_owners(owners: &mut Vec<usize>, to: usize, i: usize)
    requires
        old(owners)@.len() <= to,
    ensures
        final(owners)@ == old(owners)@ + Seq::new((to - old(owners)@.len()) as nat, |k: int| i),
{
    let ghost was = owners@;
    while owners.len() < to
        invariant
            was.len() <= owners@.len() <= to,
            owners@ == was + Seq::new((owners@.len() - was.len()) as nat, |k: int| i),
        decreases to - owners@.len(),
    {
        owners.push(i);
        assert(owners@ =~= was + Seq::new((owners@.len() - was.len()) as nat, |k: int| i));
    }
}

impl<'a> Scene<'a> {
    /// Computes [`SceneView::sheet`].
    fn sheet(&self) -> (r: Drawn)
        requires
            self.wf(),
        ensures
            r.is(self@.sheet(self@.peer.log.len())),
    {
        let ghost scene = self@;
        let mut lines: Vec<Line> = Vec::new();
        let mut owners: Vec<usize> = Vec::new();
        let mut start: usize = 0;
        let mut end: usize = 0;
        let mut last_day: Option<i32> = None;
        let mut i: usize = 0;
        assert(lines::lines_view(lines@) =~= Seq::empty());
        while i < self.peer.log.len()
            invariant
                i <= self.peer.log@.len(),
                self.wf(),
                scene == self@,
                last_day == scene.last_day(i as nat),
                lines::lines_view(lines@) == scene.sheet(i as nat).lines,
                owners@ == scene.sheet(i as nat).owners,
                (start as nat, end as nat) == scene.sheet(i as nat).span,
            decreases self.peer.log@.len() - i,
        {
            proof {
                lemma_sheet(scene, i as nat);
                assert(scene.stamps[i as int] == self.stamps@[i as int]@);
            }
            self.rules(i, last_day, &mut lines);
            assert(lines@.len() == lines::lines_view(lines@).len());
            fill_owners(&mut owners, lines.len(), usize::MAX);
            match self.stamps[i].day {
                Some(date) => {
                    last_day = Some(date);
                },
                None => {},
            }
            let from: usize = lines.len();
            self.message(i, &mut lines);
            assert(lines@.len() == lines::lines_view(lines@).len());
            fill_owners(&mut owners, lines.len(), i);
            if i == self.peer.cursor && self.ui.focus == Focus::Chat {
                start = from;
                end = lines.len();
            }
            proof {
                let above = scene.sheet(i as nat);
                let rules = scene.rules(i as int);
                let message = scene.message(i as int);
                assert(owners@ =~= above.owners + Seq::new(rules.len(), |k: int| usize::MAX) + Seq::new(
                    message.len(),
                    |k: int| i,
                ));
                assert(scene.sheet((i + 1) as nat).owners =~= owners@);
            }
            i = i + 1;
        }
        Drawn { lines, owners, start, end }
    }
}

impl Drawn {
    /// Computes [`Sheet::settled`].
    fn settle(&self, height: usize, scroll: usize, focused: bool, Ghost(sheet): Ghost<Sheet>) -> (r: usize)
        requires
            self.is(sheet),
            sheet.span.0 <= sheet.span.1 <= sheet.lines.len(),
            height <= 0xffff,
        ensures
            r == sheet.settled(height as nat, scroll as nat, focused),
    {
        assert(self.lines@.len() == lines::lines_view(self.lines@).len());
        let farthest: usize = self.lines.len().saturating_sub(height);
        let mut moved: usize = scroll;
        if focused && height > 0 {
            // Keep the cursor's message on screen.
            let above: usize = farthest.saturating_sub(scroll);
            if self.start < above {
                moved = farthest - self.start;
            } else if self.end > above && self.end - above > height {
                moved = farthest.saturating_sub(self.end.saturating_sub(height));
            }
        }
        if moved > farthest { farthest } else { moved }
    }

    /// Computes [`Sheet::window`] of the lines and of their owners.
    fn window(self, height: usize, scroll: usize, Ghost(sheet): Ghost<Sheet>) -> (r: (Vec<Line>, Vec<usize>))
        requires
            self.is(sheet),
            sheet.owners.len() == sheet.lines.len(),
            scroll <= sheet.farthest(height as nat),
        ensures
            lines::lines_view((r.0)@) == sheet.window(
                sheet.lines,
                (LineView { spans: Seq::empty(), reversed: false }),
                height as nat,
                scroll as nat,
            ),
            (r.1)@ == sheet.window(sheet.owners, usize::MAX, height as nat, scroll as nat),
    {
        assert(self.lines@.len() == lines::lines_view(self.lines@).len());
        let total: usize = self.lines.len();
        let start: usize = total.saturating_sub(height) - scroll;
        let shown: usize = if total < height { total } else { height };
        let mut rows: Vec<usize> = Vec::new();
        fill_owners(&mut rows, height - shown, usize::MAX);
        let mut owners = cut(self.owners, start, shown);
        rows.append(&mut owners);
        assert(rows@ =~= sheet.window(sheet.owners, usize::MAX, height as nat, scroll as nat));
        let mut view = blank_lines(height - shown);
        let ghost pad = lines::lines_view(view@);
        let mut tail = cut(self.lines, start, shown);
        let ghost kept = lines::lines_view(tail@);
        view.append(&mut tail);
        proof {
            assert(kept =~= sheet.lines.subrange(start as int, start + shown));
            assert(lines::lines_view(view@) =~= pad + kept);
        }
        (view, rows)
    }
}

/// Lines without text.
fn blank_lines(n: usize) -> (r: Vec<Line>)
    ensures
        lines::lines_view(r@) == Seq::new(n as nat, |k: int| LineView { spans: Seq::empty(), reversed: false }),
{
    let ghost blank = LineView { spans: Seq::empty(), reversed: false };
    let mut out: Vec<Line> = Vec::new();
    assert(lines::lines_view(out@) =~= Seq::new(0, |k: int| blank));
    while out.len() < n
        invariant
            out@.len() <= n,
            blank == (LineView { spans: Seq::empty(), reversed: false }),
            lines::lines_view(out@) == Seq::new(out@.len(), |k: int| blank),
        decreases n - out@.len(),
    {
        lines::push_line(&mut out, Line::empty());
        assert(out@.len() == lines::lines_view(out@).len());
        assert(lines::lines_view(out@) =~= Seq::new(out@.len(), |k: int| blank));
    }
    assert(lines::lines_view(out@) =~= Seq::new(
        n as nat,
        |k: int| LineView { spans: Seq::empty(), reversed: false },
    ));
    out
}

/// A stretch of a vector.
fn cut<T>(all: Vec<T>, start: usize, shown: usize) -> (r: Vec<T>)
    requires
        start + shown <= all@.len(),
    ensures
        r@ == all@.subrange(start as int, start + shown),
{
    let mut all = all;
    let mut tail = all.split_off(start);
    tail.truncate(shown);
    tail
}

impl Ui {
    /// Draws the selected conversation, whose messages were written as `stamps`
    /// says, on the day `today`.
    pub fn chat_pane(&mut self, area: Rect, stamps: &Vec<Stamp>, today: i32) -> (r: Pane)
        requires
            old(self).wf(),
            old(self).sel < old(self).peers@.len(),
            stamps@.len() == old(self).peers@[old(self).sel as int].log@.len(),
            dated(stamps_view(stamps@)),
            dates::in_calendar(today as int),
        ensures
            final(self).wf(),
            (final(self)@, r@) == old(self)@.chat_drawn(area, stamps_view(stamps@), today as int),
    {
        let ghost before = self@;
        let inner_width: usize = area.width.saturating_sub(2) as usize;
        let width: usize = if inner_width > 8 { inner_width } else { 8 };
        let height: usize = area.height.saturating_sub(2) as usize;
        let ghost scene = before.scene(stamps_view(stamps@), today as int, area);
        let ghost sheet = scene.sheet(scene.peer.log.len());
        let drawn = Scene { ui: &*self, peer: &self.peers[self.sel], stamps, today, width }.sheet();
        proof {
            lemma_sheet(scene, scene.peer.log.len());
            assert(drawn.is(sheet));
        }
        let focused = self.focus == Focus::Chat;
        let scroll = drawn.settle(height, self.scroll, focused, Ghost(sheet));
        let (view, rows) = drawn.window(height, scroll, Ghost(sheet));
        self.scroll = scroll;
        self.chat_rows = rows;
        let title = self.chat_title();
        Pane { lines: view, title, focused }
    }

    /// Computes [`UiView::chat_title`].
    fn chat_title(&self) -> (r: String)
        requires
            self.sel < self.peers@.len(),
        ensures
            r@ == self@.chat_title(),
    {
        let p = &self.peers[self.sel];
        assert(self@.peers[self.sel as int] == p@);
        let mut title = p.label();
        title.append(if p.named() { " — " } else { "? — unverified name — " });
        title.append(p.subtitle().as_str());
        if self.scroll > 0 {
            title.append("  ↑");
            title.append(text::decimal_of(self.scroll as u64).as_str());
            title.append(" scrolled back");
        }
        title
    }
}

/// When the keys go to the chat, the message under the cursor is on screen: all
/// of it where the pane is tall enough.
pub proof fn law_cursor_stays_on_screen(sheet: Sheet, height: nat, scroll: nat)
    requires
        sheet.span.0 <= sheet.span.1 <= sheet.lines.len(),
        sheet.span.1 - sheet.span.0 <= height,
        height > 0,
    ensures
        sheet.farthest(height) - sheet.settled(height, scroll, true) <= sheet.span.0,
        sheet.span.1 <= sheet.farthest(height) - sheet.settled(height, scroll, true) + height,
{
}

/// What is on screen fills the pane, and each row of it belongs to the line it
/// shows.
pub proof fn law_rows_fill_the_pane(
    ui: UiView,
    area: Rect,
    stamps: Seq<StampView>,
    today: int,
)
    ensures
        ({
            let (after, pane) = ui.chat_drawn(area, stamps, today);
            &&& pane.lines.len() == layout::monus(area.height as nat, 2)
            &&& after.chat_rows.len() == pane.lines.len()
        }),
{
    let scene = ui.scene(stamps, today, area);
    let n = scene.peer.log.len();
    lemma_sheet(scene, n);
}

/// A row of the pane belongs to a message of the conversation or to none, so a
/// click on it lands on a message that is there.
pub proof fn law_rows_name_messages(scene: SceneView, n: nat, k: int)
    requires
        n <= usize::MAX,
        0 <= k < scene.sheet(n).owners.len(),
    ensures
        scene.sheet(n).owners[k] == usize::MAX || scene.sheet(n).owners[k] < n,
    decreases n,
{
    if n > 0 {
        let above = scene.sheet((n - 1) as nat);
        lemma_sheet(scene, (n - 1) as nat);
        if k < above.owners.len() {
            law_rows_name_messages(scene, (n - 1) as nat, k);
        }
    }
}

} // verus!
