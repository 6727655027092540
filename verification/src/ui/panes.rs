//! The panes around the chat: the list of conversations, the input line, the
//! status line, and what the chat pane shows when there is no chat.

use super::chat::{Pane, PaneView, Stamp, StampView};
use super::lines::{Color, Line, LineView, Span, Style};
use super::state::{EntryView, Focus, Peer, PeerView, Pending, Rect, Ui, UiView};
use super::{chat, dates, lines, state, text as layout};
use crate::text;
use vstd::prelude::*;

verus! {

/// A key or command, and what it does.
pub open spec fn help_line(key: Seq<char>, what: Seq<char>) -> LineView {
    LineView {
        spans: seq![
            lines::styled("  "@ + layout::padded_right(key, 20), lines::coloured(Color::Cyan)),
            lines::styled(what, lines::coloured(Color::DarkGray)),
        ],
        reversed: false,
    }
}

/// A line without text.
pub open spec fn blank_line() -> LineView {
    LineView { spans: Seq::empty(), reversed: false }
}

/// What the keys do.
pub open spec fn key_help() -> Seq<LineView> {
    seq![
        help_line("tab / shift-tab"@, "move between the peer list, the chat and the input"@),
        help_line("↑ ↓"@, "pick a peer, or a message when the chat has focus"@),
        help_line("r  e  d"@, "reply · edit · delete the message under the cursor"@),
        help_line("1 – 5"@, "react 👍 ❤️ 😂 😮 😢"@),
        help_line("esc"@, "abandon a pending reply or edit"@),
        blank_line(),
    ]
}

/// What the commands on people and files do.
pub open spec fn talk_help() -> Seq<LineView> {
    seq![
        help_line("/connect <id>"@, "dial a peer by the EndpointId they gave you"@),
        help_line("/name <alias>"@, "your own name for this peer — outranks their claim"@),
        help_line("/whois"@, "their full EndpointId, which is the real identity"@),
        help_line("/nick <name>"@, "change what you call yourself"@),
        help_line("/send <path>"@, "send a file — needs a live connection"@),
        help_line("/room create <name>"@, "start a room; then /room invite and /room kick"@),
        help_line("/peers  /whoami"@, "who is around · your own key, copied to the clipboard"@),
        help_line("/mouse"@, "hand the mouse back so you can select and copy text"@),
    ]
}

/// What the commands that take leave do, and what the marks mean.
pub open spec fn leave_help() -> Seq<LineView> {
    seq![
        help_line("/leave"@, "sign yourself out of the selected room"@),
        help_line("/clear"@, "empty this conversation but keep the contact"@),
        help_line("/forget"@, "delete a conversation and the contact — no undo"@),
        help_line("/wipe"@, "delete every conversation on this machine"@),
        help_line("/quit"@, "leave"@),
        blank_line(),
        help_line("→ ✉ !"@, "sent over the wire · left on the hub · went nowhere"@),
        help_line("name?"@, "a name they claim, that you have not confirmed"@),
    ]
}

/// The help, which takes over the chat pane.
pub open spec fn help_shown() -> PaneView {
    PaneView {
        lines: key_help() + talk_help() + leave_help(),
        title: " help — any key to close "@,
        focused: true,
    }
}

fn push_help(out: &mut Vec<Line>, key: &str, what: &str)
    ensures
        lines::lines_view(final(out)@) == lines::lines_view(old(out)@).push(help_line(key@, what@)),
{
    let mut line = Line::single(
        "  ".to_owned().concat(layout::pad_right(key, 20).as_str()),
        Style::of(Color::Cyan),
    );
    line.push(Span { content: what.to_owned(), style: Style::of(Color::DarkGray) });
    assert(line@.spans =~= help_line(key@, what@).spans);
    lines::push_line(out, line);
}

fn push_key_help(out: &mut Vec<Line>)
    ensures
        lines::lines_view(final(out)@) == lines::lines_view(old(out)@) + key_help(),
{
    let ghost was = lines::lines_view(out@);
    push_help(out, "tab / shift-tab", "move between the peer list, the chat and the input");
    push_help(out, "↑ ↓", "pick a peer, or a message when the chat has focus");
    push_help(out, "r  e  d", "reply · edit · delete the message under the cursor");
    push_help(out, "1 – 5", "react 👍 ❤️ 😂 😮 😢");
    push_help(out, "esc", "abandon a pending reply or edit");
    lines::push_line(out, Line::empty());
    assert(lines::lines_view(out@) =~= was + key_help());
}

fn push_talk_help(out: &mut Vec<Line>)
    ensures
        lines::lines_view(final(out)@) == lines::lines_view(old(out)@) + talk_help(),
{
    let ghost was = lines::lines_view(out@);
    push_help(out, "/connect <id>", "dial a peer by the EndpointId they gave you");
    push_help(out, "/name <alias>", "your own name for this peer — outranks their claim");
    push_help(out, "/whois", "their full EndpointId, which is the real identity");
    push_help(out, "/nick <name>", "change what you call yourself");
    push_help(out, "/send <path>", "send a file — needs a live connection");
    push_help(out, "/room create <name>", "start a room; then /room invite and /room kick");
    push_help(out, "/peers  /whoami", "who is around · your own key, copied to the clipboard");
    push_help(out, "/mouse", "hand the mouse back so you can select and copy text");
    assert(lines::lines_view(out@) =~= was + talk_help());
}

fn push_leave_help(out: &mut Vec<Line>)
    ensures
        lines::lines_view(final(out)@) == lines::lines_view(old(out)@) + leave_help(),
{
    let ghost was = lines::lines_view(out@);
    push_help(out, "/leave", "sign yourself out of the selected room");
    push_help(out, "/clear", "empty this conversation but keep the contact");
    push_help(out, "/forget", "delete a conversation and the contact — no undo");
    push_help(out, "/wipe", "delete every conversation on this machine");
    push_help(out, "/quit", "leave");
    lines::push_line(out, Line::empty());
    push_help(out, "→ ✉ !", "sent over the wire · left on the hub · went nowhere");
    push_help(out, "name?", "a name they claim, that you have not confirmed");
    assert(lines::lines_view(out@) =~= was + leave_help());
}

/// Computes [`help_shown`].
pub fn draw_help() -> (r: Pane)
    ensures
        r@ == help_shown(),
{
    let mut out: Vec<Line> = Vec::new();
    assert(lines::lines_view(out@) =~= Seq::empty());
    push_key_help(&mut out);
    push_talk_help(&mut out);
    push_leave_help(&mut out);
    let r = Pane { lines: out, title: " help — any key to close ".to_owned(), focused: true };
    assert(r@.lines =~= help_shown().lines);
    r
}

/// What the chat pane shows before there is a conversation.
pub open spec fn welcome() -> Seq<LineView> {
    seq![
        lines::single("No conversations yet."@, lines::plain()),
        blank_line(),
        lines::single("/whoami  copies your EndpointId — send it to someone."@, lines::plain()),
        lines::single("/connect <their-id>  starts talking to them."@, lines::plain()),
        lines::single("/help  for everything else."@, lines::plain()),
    ]
}

/// Computes [`welcome`].
fn welcome_lines() -> (r: Vec<Line>)
    ensures
        lines::lines_view(r@) == welcome(),
{
    let mut out: Vec<Line> = Vec::new();
    lines::push_line(&mut out, Line::single("No conversations yet.".to_owned(), Style::new()));
    lines::push_line(&mut out, Line::empty());
    lines::push_line(
        &mut out,
        Line::single("/whoami  copies your EndpointId — send it to someone.".to_owned(), Style::new()),
    );
    lines::push_line(
        &mut out,
        Line::single("/connect <their-id>  starts talking to them.".to_owned(), Style::new()),
    );
    lines::push_line(&mut out, Line::single("/help  for everything else.".to_owned(), Style::new()));
    assert(lines::lines_view(out@) =~= welcome());
    out
}

/// A conversation as the sidebar shows it: a dot or a room's mark, the name
/// (dimmed and with a `?` where it is only a claim), how much is unread.
pub open spec fn peer_line(p: PeerView) -> LineView {
    let (dot, colour) = match p.room {
        Some(room) => ("# "@, if room.joined { Color::Blue } else { Color::DarkGray }),
        None => if p.online {
            ("● "@, Color::Green)
        } else {
            ("○ "@, Color::DarkGray)
        },
    };
    let name = if p.named() {
        seq![lines::styled(p.label(), lines::plain())]
    } else {
        seq![
            lines::styled(p.label(), lines::coloured(Color::DarkGray)),
            lines::styled("?"@, lines::coloured(Color::Yellow)),
        ]
    };
    let unread = if p.unread > 0 {
        seq![lines::styled(" ("@ + text::decimal(p.unread) + ")"@, lines::coloured(Color::Yellow))]
    } else {
        Seq::empty()
    };
    LineView { spans: seq![lines::styled(dot, lines::coloured(colour))] + name + unread, reversed: false }
}

/// Computes [`peer_line`].
fn draw_peer(p: &Peer) -> (r: Line)
    ensures
        r@ == peer_line(p@),
{
    let (dot, colour) = match &p.room {
        Some(room) => ("# ", if room.joined { Color::Blue } else { Color::DarkGray }),
        None => if p.online { ("● ", Color::Green) } else { ("○ ", Color::DarkGray) },
    };
    let mut line = Line::single(dot.to_owned(), Style::of(colour));
    if p.named() {
        line.push(Span { content: p.label(), style: Style::new() });
    } else {
        // Their claim, not your decision. Shown so it cannot be mistaken for a
        // name you verified.
        line.push(Span { content: p.label(), style: Style::of(Color::DarkGray) });
        line.push(Span { content: "?".to_owned(), style: Style::of(Color::Yellow) });
    }
    if p.unread > 0 {
        line.push(
            Span {
                content: " (".to_owned().concat(text::decimal_of(p.unread as u64).as_str()).concat(")"),
                style: Style::of(Color::Yellow),
            },
        );
    }
    assert(line@.spans =~= peer_line(p@).spans);
    line
}

/// The input line with its border.
#[derive(Debug, PartialEq, Eq)]
pub struct InputPane {
    pub title: String,
    pub focused: bool,
    /// How many columns of the line are scrolled out on the left.
    pub offset: u16,
    /// Where the terminal's cursor goes, when the keys go here.
    pub cursor: Option<(u16, u16)>,
}

impl UiView {
    /// What the next Enter will do.
    pub open spec fn input_title(self) -> Seq<char> {
        match self.pending {
            Some(Pending::Reply(id)) => "reply to "@ + id.text() + " — esc cancels"@,
            Some(Pending::Edit(id)) => "edit "@ + id.text() + " — esc cancels"@,
            None => "message"@,
        }
    }

    /// The columns before the caret.
    pub open spec fn caret_column(self) -> nat {
        layout::columns(self.input.take(layout::index_at(self.input, self.caret))) as nat
    }

    /// How far the line is scrolled, so that the caret stays visible.
    pub open spec fn input_offset(self, area: Rect) -> nat {
        let inner = layout::most(layout::monus(area.width as nat, 2), 1);
        layout::monus(self.caret_column(), (inner - 1) as nat)
    }

    /// The bottom line: who you are, what happened last, what the keys do.
    pub open spec fn status_shown(self) -> LineView {
        LineView {
            spans: seq![
                lines::styled(
                    " "@ + self.nickname + " "@,
                    Style { fg: Some(Color::Black), bg: Some(Color::Cyan), ..lines::plain() },
                ),
                lines::styled(" "@ + self.me + "  "@, lines::plain()),
                lines::styled(self.status, lines::coloured(Color::DarkGray)),
                lines::styled(hints_in(self.focus), lines::coloured(Color::DarkGray)),
            ],
            reversed: false,
        }
    }
}

/// The caret of the input line stays visible, however long the line is: it is
/// drawn within the columns inside the border.
pub proof fn law_caret_stays_visible(ui: UiView, area: Rect)
    ensures
        0 <= ui.caret_column() - ui.input_offset(area) < layout::most(layout::monus(area.width as nat, 2), 1),
{
}

/// What the keys do in a pane.
pub open spec fn hints_in(focus: Focus) -> Seq<char> {
    match focus {
        Focus::Chat => "  ↑↓ pick · r reply · e edit · d delete · 1-5 react"@,
        _ => "  tab · enter · /help · ^c quit"@,
    }
}

/// Whether a stamp tells a message's clock time and day in some zone.
pub open spec fn stamp_of(e: EntryView, stamp: StampView) -> bool {
    let ms = dates::signed(e.id.ts_ms);
    exists|offset: Option<i32>|
        {
            &&& dates::zoned(ms, offset)
            &&& stamp.clock == #[trigger] dates::clock_told(ms, offset)
            &&& stamp.day == dates::day_told(ms, offset)
        }
}

/// Whether stamps are ones that the machine can give the messages of a log.
pub open spec fn stamps_of(log: Seq<EntryView>, stamps: Seq<StampView>) -> bool {
    &&& stamps.len() == log.len()
    &&& forall|i: int| 0 <= i < log.len() ==> stamp_of(log[i], #[trigger] stamps[i])
}

impl Ui {
    /// Computes [`hints_in`] for the focused pane.
    pub fn hints(&self) -> (r: String)
        ensures
            r@ == hints_in(self.focus),
    {
        match self.focus {
            Focus::Chat => "  ↑↓ pick · r reply · e edit · d delete · 1-5 react".to_owned(),
            _ => "  tab · enter · /help · ^c quit".to_owned(),
        }
    }

    /// Computes [`UiView::status_shown`].
    pub fn status_line(&self) -> (r: Line)
        ensures
            r@ == self@.status_shown(),
    {
        let mut line = Line::single(
            " ".to_owned().concat(self.nickname.as_str()).concat(" "),
            Style {
                fg: Some(Color::Black),
                bg: Some(Color::Cyan),
                bold: false,
                italic: false,
                reversed: false,
            },
        );
        line.push(
            Span { content: " ".to_owned().concat(self.me.as_str()).concat("  "), style: Style::new() },
        );
        line.push(Span { content: self.status.clone(), style: Style::of(Color::DarkGray) });
        line.push(Span { content: self.hints(), style: Style::of(Color::DarkGray) });
        assert(line@.spans =~= self@.status_shown().spans);
        line
    }

    /// Remembers where the panes are drawn, for hit-testing clicks.
    pub fn place(&mut self, sidebar: Rect, chat: Rect, input: Rect)
        requires
            old(self).wf(),
        ensures
            final(self).wf(),
            final(self)@ == (UiView { peers_area: sidebar, chat_area: chat, input_area: input, ..old(self)@ }),
    {
        self.peers_area = sidebar;
        self.chat_area = chat;
        self.input_area = input;
    }

    /// The list of conversations. Rooms and people share it: a room id is 32
    /// bytes, exactly like an endpoint id.
    pub fn draw_peers(&self) -> (r: Pane)
        ensures
            r@ == (PaneView {
                lines: self@.peers.map_values(|p: PeerView| peer_line(p)),
                title: "peers"@,
                focused: self.focus == Focus::Peers,
            }),
    {
        let ghost all = self@.peers.map_values(|p: PeerView| peer_line(p));
        let mut out: Vec<Line> = Vec::new();
        let mut i: usize = 0;
        assert(lines::lines_view(out@) =~= all.take(0));
        while i < self.peers.len()
            invariant
                i <= self.peers@.len(),
                all == self@.peers.map_values(|p: PeerView| peer_line(p)),
                lines::lines_view(out@) == all.take(i as int),
            decreases self.peers@.len() - i,
        {
            assert(self@.peers[i as int] == self.peers@[i as int]@);
            lines::push_line(&mut out, draw_peer(&self.peers[i]));
            assert(all.take(i + 1) =~= all.take(i as int).push(all[i as int]));
            i = i + 1;
        }
        assert(all.take(i as int) =~= all);
        Pane { lines: out, title: "peers".to_owned(), focused: self.focus == Focus::Peers }
    }

    /// The input line. The single-line editor is scrolled so that the caret
    /// stays visible.
    pub fn draw_input(&self, area: Rect) -> (r: InputPane)
        requires
            self.wf(),
            self.focus == Focus::Input ==> area.x + area.width <= 0xffff && area.x < 0xffff && area.y < 0xffff,
        ensures
            r.title@ == self@.input_title(),
            r.focused == (self.focus == Focus::Input),
            r.offset == self@.input_offset(area) % 0x1_0000,
            r.cursor == (if self.focus == Focus::Input {
                Some(
                    (
                        (area.x + 1 + self@.caret_column() - self@.input_offset(area)) as u16,
                        (area.y + 1) as u16,
                    ),
                )
            } else {
                None
            }),
    {
        let title = match &self.pending {
            Some(Pending::Reply(id)) => "reply to ".to_owned().concat(id.to_string().as_str()).concat(
                " — esc cancels",
            ),
            Some(Pending::Edit(id)) => "edit ".to_owned().concat(id.to_string().as_str()).concat(
                " — esc cancels",
            ),
            None => "message".to_owned(),
        };
        let (column, offset): (usize, usize) = self.caret_and_offset(area);
        let cursor: Option<(u16, u16)> = if self.focus == Focus::Input {
            Some((area.x + 1 + (column - offset) as u16, area.y + 1))
        } else {
            None
        };
        InputPane {
            title,
            focused: self.focus == Focus::Input,
            offset: (offset % 0x1_0000) as u16,
            cursor,
        }
    }

    /// The columns before the caret, and how far the line is scrolled.
    pub(crate) fn caret_and_offset(&self, area: Rect) -> (r: (usize, usize))
        requires
            self.wf(),
        ensures
            r.0 == self@.caret_column(),
            r.1 == self@.input_offset(area),
            r.0 - r.1 < layout::most(layout::monus(area.width as nat, 2), 1),
    {
        let inner: usize = if area.width > 3 { area.width as usize - 2 } else { 1 };
        let n = layout::chars_before(self.input.as_str(), self.caret);
        let chars = text::chars_of(self.input.as_str());
        let before = text::string_of(vstd::slice::slice_subrange(chars.as_slice(), 0, n));
        assert(before@ =~= self@.input.take(n as int));
        let column: usize = layout::str_width(before.as_str());
        let offset: usize = column.saturating_sub(inner - 1);
        (column, offset)
    }

    /// When the messages of the selected conversation were written.
    fn stamps(&self) -> (r: Vec<Stamp>)
        requires
            self.sel < self.peers@.len(),
        ensures
            stamps_of(self@.peers[self.sel as int].log, chat::stamps_view(r@)),
    {
        let log = &self.peers[self.sel].log;
        let mut out: Vec<Stamp> = Vec::new();
        let mut i: usize = 0;
        while i < log.len()
            invariant
                i <= log@.len(),
                out@.len() == i,
                forall|k: int| 0 <= k < i ==> stamp_of(log@[k]@, #[trigger] out@[k]@),
            decreases log@.len() - i,
        {
            let ts_ms: u64 = log[i].id.ts_ms;
            let (clock, day) = dates::clock_and_day(ts_ms);
            let stamp = Stamp { clock, day };
            assert(stamp_of(log@[i as int]@, stamp@));
            out.push(stamp);
            i = i + 1;
        }
        proof {
            let all = self@.peers[self.sel as int].log;
            assert(all == state::log_view(log@));
            assert forall|k: int| 0 <= k < all.len() implies stamp_of(
                all[k],
                #[trigger] chat::stamps_view(out@)[k],
            ) by {
                assert(stamp_of(log@[k]@, out@[k]@));
            }
        }
        out
    }

    /// Draws the chat pane. Clock times and dates are those of the machine's
    /// time zone, whatever it is.
    pub fn draw_chat(&mut self, area: Rect) -> (r: Pane)
        requires
            old(self).wf(),
        ensures
            final(self).wf(),
            old(self).help ==> (final(self)@, r@) == (old(self)@, help_shown()),
            !old(self).help && old(self)@.selected() is None ==> (final(self)@, r@) == (
                old(self)@,
                (PaneView { lines: welcome(), title: "chat"@, focused: old(self).focus == Focus::Chat }),
            ),
            !old(self).help ==> (old(self)@.selected() matches Some(p) ==> exists|
                stamps: Seq<StampView>,
                today: int,
            | stamps_of(p.log, stamps) && dates::in_calendar(today) && (final(self)@, r@) == #[trigger] old(
                self,
            )@.chat_drawn(area, stamps, today)),
    {
        if self.help {
            return draw_help();
        }
        let ghost before = self@;
        if self.sel >= self.peers.len() {
            return Pane {
                lines: welcome_lines(),
                title: "chat".to_owned(),
                focused: self.focus == Focus::Chat,
            };
        }
        let stamps = self.stamps();
        let today = dates::today();
        proof {
            let all = chat::stamps_view(stamps@);
            assert forall|i: int| 0 <= i < all.len() implies ((#[trigger] all[i]).day matches Some(d)
                ==> dates::in_calendar(d as int)) by {
                assert(stamp_of(before.peers[before.sel as int].log[i], all[i]));
            }
            assert(before.peers[before.sel as int] == self.peers@[self.sel as int]@);
        }
        let r = self.chat_pane(area, &stamps, today);
        assert((self@, r@) == before.chat_drawn(area, chat::stamps_view(stamps@), today as int));
        r
    }
}

} // verus!
