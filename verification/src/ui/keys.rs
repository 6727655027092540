//! What keys and clicks make of what the UI knows.

use super::state::{
    CommandView, EntryView, Focus, Peer, PeerView, Pending, Rect, RoomCommand, Ui, UiCommand, UiView,
};
use super::{events, state, text as layout};
use crate::{bytes, text};
use vstd::prelude::*;

verus! {

/// A key of the keyboard.
#[derive(Clone, Copy, Debug, PartialEq, Eq, Structural)]
pub enum KeyCode {
    Tab,
    BackTab,
    Esc,
    PageUp,
    PageDown,
    Up,
    Down,
    Enter,
    Char(char),
    Backspace,
    Delete,
    Left,
    Right,
    Home,
    End,
    Other,
}

/// A key going down, repeating or coming up.
#[derive(Clone, Copy, Debug, PartialEq, Eq, Structural)]
pub struct KeyEvent {
    pub code: KeyCode,
    pub control: bool,
    pub press: bool,
}

impl KeyEvent {
    /// A key going down by itself.
    pub fn from(code: KeyCode) -> (r: KeyEvent)
        ensures
            r == (KeyEvent { code, control: false, press: true }),
    {
        KeyEvent { code, control: false, press: true }
    }
}

/// What the mouse did.
#[derive(Clone, Copy, Debug, PartialEq, Eq, Structural)]
pub enum MouseKind {
    ScrollUp,
    ScrollDown,
    /// The left button going down.
    Left,
    Other,
}

/// What the mouse did, and where.
#[derive(Clone, Copy, Debug, PartialEq, Eq, Structural)]
pub struct MouseEvent {
    pub kind: MouseKind,
    pub column: u16,
    pub row: u16,
}

/// The five reactions bound to keys 1-5. A picker would be a lot of UI for a
/// feature whose whole point is that it is one keystroke.
pub open spec fn reaction(c: char) -> Option<Seq<char>> {
    if c == '1' {
        Some("👍"@)
    } else if c == '2' {
        Some("❤️"@)
    } else if c == '3' {
        Some("😂"@)
    } else if c == '4' {
        Some("😮"@)
    } else if c == '5' {
        Some("😢"@)
    } else {
        None
    }
}

/// Computes [`reaction`].
pub fn reaction_of(c: char) -> (r: Option<String>)
    ensures
        super::lines::maybe(r) == reaction(c),
{
    if c == '1' {
        Some("👍".to_owned())
    } else if c == '2' {
        Some("❤️".to_owned())
    } else if c == '3' {
        Some("😂".to_owned())
    } else if c == '4' {
        Some("😮".to_owned())
    } else if c == '5' {
        Some("😢".to_owned())
    } else {
        None
    }
}

/// The drawable area inside a bordered block.
pub open spec fn inside_of(area: Rect) -> Rect {
    Rect {
        x: if area.x < u16::MAX {
            (area.x + 1) as u16
        } else {
            u16::MAX
        },
        y: if area.y < u16::MAX {
            (area.y + 1) as u16
        } else {
            u16::MAX
        },
        width: if area.width >= 2 {
            (area.width - 2) as u16
        } else {
            0
        },
        height: if area.height >= 2 {
            (area.height - 2) as u16
        } else {
            0
        },
    }
}

/// Computes [`inside_of`].
pub fn inner(area: Rect) -> (r: Rect)
    ensures
        r == inside_of(area),
{
    Rect {
        x: area.x.saturating_add(1),
        y: area.y.saturating_add(1),
        width: area.width.saturating_sub(2),
        height: area.height.saturating_sub(2),
    }
}

/// Whether a cell of the screen is in an area.
pub open spec fn covers(area: Rect, x: u16, y: u16) -> bool {
    area.x <= x < area.x + area.width && area.y <= y < area.y + area.height
}

/// Decides [`covers`].
pub fn inside(area: Rect, x: u16, y: u16) -> (r: bool)
    ensures
        r == covers(area, x, y),
{
    x >= area.x && (x as u32) < area.x as u32 + area.width as u32 && y >= area.y && (y as u32) < area.y as u32
        + area.height as u32
}

/// The endpoint id that a string writes in hexadecimal.
pub open spec fn key_of(s: Seq<char>) -> Option<[u8; 32]> {
    match bytes::unhex(vstd::utf8::encode_utf8(text::trimmed(s))) {
        Some(b) => if b.len() == 32 {
            Some(bytes::array_of::<32>(b))
        } else {
            None
        },
        None => None,
    }
}

/// Computes [`key_of`].
pub fn parse_key(hex: &str) -> (r: Option<[u8; 32]>)
    ensures
        r == key_of(hex@),
{
    match bytes::hex_decode(text::trim(hex).as_str().as_bytes()) {
        Some(b) => {
            if b.len() == 32 {
                let key = bytes::array_from::<32>(b.as_slice());
                assert(b@.subrange(0, 32) =~= b@);
                Some(key)
            } else {
                None
            }
        },
        None => None,
    }
}

/// The character that stands for six bits in base64.
pub open spec fn base64_digit(n: int) -> char {
    if n < 26 {
        ('A' as int + n) as char
    } else if n < 52 {
        ('a' as int + n - 26) as char
    } else if n < 62 {
        ('0' as int + n - 52) as char
    } else if n == 62 {
        '+'
    } else {
        '/'
    }
}

/// The base64 form of a byte string: four characters for three bytes, with
/// padding at the end.
pub open spec fn base64(b: Seq<u8>) -> Seq<char>
    decreases b.len(),
{
    if b.len() == 0 {
        Seq::empty()
    } else if b.len() == 1 {
        seq![base64_digit(b[0] as int / 4), base64_digit(b[0] as int % 4 * 16), '=', '=']
    } else {
        let front = seq![
            base64_digit(b[0] as int / 4),
            base64_digit(b[0] as int % 4 * 16 + b[1] as int / 16),
        ];
        if b.len() == 2 {
            front + seq![base64_digit(b[1] as int % 16 * 4), '=']
        } else {
            front + seq![
                base64_digit(b[1] as int % 16 * 4 + b[2] as int / 64),
                base64_digit(b[2] as int % 64),
            ] + base64(b.skip(3))
        }
    }
}

/// `base64::engine::general_purpose::STANDARD.encode`, which writes [`base64`].
#[verifier::external_body]
fn base64_encode(b: &[u8]) -> (r: String)
    ensures
        r@ == base64(b@),
{
    base64::Engine::encode(&base64::engine::general_purpose::STANDARD, b)
}

/// The terminal sequence that puts text on the clipboard.
pub open spec fn clip(s: Seq<char>) -> Seq<char> {
    "\x1b]52;c;"@ + base64(vstd::utf8::encode_utf8(s)) + "\x07"@
}

/// Puts text on the system clipboard with OSC 52, which the terminal forwards
/// even over ssh: the reason `/whoami` can hand you a 64-character key without
/// you dragging across a pane to select it.
fn copy_to_clipboard(s: &str) -> (r: String)
    ensures
        r@ == clip(s@),
{
    "\x1b]52;c;".to_owned().concat(base64_encode(s.as_bytes()).as_str()).concat("\x07")
}

/// A line as a command and what follows its first blank.
pub open spec fn split_blank(s: Seq<char>) -> (Seq<char>, Seq<char>) {
    let n = layout::run_to(s, ' ') as int;
    if n < s.len() {
        (s.take(n), s.skip(n + 1))
    } else {
        (s, Seq::empty())
    }
}

/// Computes [`split_blank`].
fn split_once(s: &str) -> (r: (String, String))
    ensures
        (r.0@, r.1@) == split_blank(s@),
{
    let chars = text::chars_of(s);
    let n = layout::find_from(&chars, 0, ' ');
    assert(chars@.skip(0) =~= chars@);
    let front = text::string_of(vstd::slice::slice_subrange(chars.as_slice(), 0, n));
    if n < chars.len() {
        let back = text::string_of(vstd::slice::slice_subrange(chars.as_slice(), n + 1, chars.len()));
        assert(front@ =~= chars@.take(n as int));
        assert(back@ =~= chars@.skip(n + 1));
        (front, back)
    } else {
        assert(front@ =~= chars@);
        (front, String::new())
    }
}

impl UiView {
    /// The message the chat cursor is on.
    pub open spec fn pointed(self) -> Option<EntryView> {
        match self.selected() {
            Some(p) => if p.cursor < p.log.len() {
                Some(p.log[p.cursor as int])
            } else {
                None
            },
            None => None,
        }
    }

    /// With a command for the network side.
    pub open spec fn sending(self, command: CommandView) -> UiView {
        UiView { outbox: self.outbox.push(command), ..self }
    }

    /// With another status line.
    pub open spec fn saying(self, status: Seq<char>) -> UiView {
        UiView { status, ..self }
    }

    /// With the caret behind `n` characters.
    pub open spec fn caret_at(self, n: int) -> UiView {
        UiView { caret: layout::byte_len(self.input.take(n)), ..self }
    }

    /// How many characters stand before the caret.
    pub open spec fn caret_index(self) -> int {
        layout::index_at(self.input, self.caret)
    }

    /// With a character typed at the caret.
    pub open spec fn typed(self, c: char) -> UiView {
        let n = self.caret_index();
        (UiView { input: self.input.insert(n, c), ..self }).caret_at(n + 1)
    }

    /// With the character before the caret gone.
    pub open spec fn backspaced(self) -> UiView {
        let n = self.caret_index();
        if n > 0 {
            (UiView { input: self.input.remove(n - 1), ..self }).caret_at(n - 1)
        } else {
            self
        }
    }

    /// With the character behind the caret gone.
    pub open spec fn cut(self) -> UiView {
        let n = self.caret_index();
        if n < self.input.len() {
            (UiView { input: self.input.remove(n), ..self }).caret_at(n)
        } else {
            self
        }
    }

    /// With another conversation selected, and what is unread in it seen.
    pub open spec fn selecting(self, i: int) -> UiView {
        (UiView { sel: i as nat, scroll: 0, ..self }).with_peer(
            i,
            PeerView { unread: 0, unread_from: None, ..self.peers[i] },
        )
    }

    /// With the next conversation selected, or the one before; the last is
    /// followed by the first.
    pub open spec fn turned(self, forward: bool) -> UiView {
        let n = self.peers.len();
        if n == 0 {
            self
        } else if forward {
            self.selecting(if self.sel + 1 < n {
                self.sel as int + 1
            } else {
                0
            })
        } else {
            self.selecting(if self.sel > 0 {
                self.sel - 1
            } else {
                n - 1
            })
        }
    }

    /// With the chat cursor on the next message, or the one before.
    pub open spec fn pointing(self, forward: bool) -> UiView {
        match self.selected() {
            Some(p) => if p.log.len() == 0 {
                self
            } else if forward {
                self.with_peer(
                    self.sel as int,
                    PeerView { cursor: layout::least(p.cursor + 1, (p.log.len() - 1) as nat), ..p },
                )
            } else {
                self.with_peer(self.sel as int, PeerView { cursor: layout::monus(p.cursor, 1), ..p })
            },
            None => self,
        }
    }

    /// With a key pressed on the message the chat cursor is on: reply, edit,
    /// delete and react.
    pub open spec fn acted(self, c: char) -> UiView {
        match (self.selected(), self.pointed()) {
            (Some(p), Some(e)) => if c == 'r' {
                UiView { pending: Some(Pending::Reply(e.id)), focus: Focus::Input, ..self }
            } else if c == 'e' {
                if e.outbound && !e.deleted {
                    UiView {
                        pending: Some(Pending::Edit(e.id)),
                        input: e.body,
                        caret: layout::byte_len(e.body),
                        focus: Focus::Input,
                        ..self
                    }
                } else {
                    self.saying("you can only edit your own messages"@)
                }
            } else if c == 'd' {
                if e.outbound && !e.deleted {
                    self.sending(CommandView::Delete { peer: p.key, target: e.id })
                } else {
                    self.saying("you can only delete your own messages"@)
                }
            } else {
                match reaction(c) {
                    Some(emoji) => self.sending(
                        CommandView::React { peer: p.key, target: e.id, emoji, on: !has_mine(e, emoji) },
                    ),
                    None => self,
                }
            },
            _ => self,
        }
    }

    /// With the next pane focused.
    pub open spec fn tabbed(self) -> UiView {
        UiView {
            focus: match self.focus {
                Focus::Input => Focus::Peers,
                Focus::Peers => Focus::Chat,
                Focus::Chat => Focus::Input,
            },
            ..self
        }
    }

    /// With the pane before focused.
    pub open spec fn back_tabbed(self) -> UiView {
        UiView {
            focus: match self.focus {
                Focus::Input => Focus::Chat,
                Focus::Chat => Focus::Peers,
                Focus::Peers => Focus::Input,
            },
            ..self
        }
    }

    /// With the input line abandoned.
    pub open spec fn escaped(self) -> UiView {
        UiView { pending: None, input: Seq::empty(), caret: 0, ..self }
    }

    /// With a key pressed that is neither a quit nor the end of the help.
    pub open spec fn pressed(self, code: KeyCode) -> (UiView, bool) {
        match code {
            KeyCode::Tab => (self.tabbed(), true),
            KeyCode::BackTab => (self.back_tabbed(), true),
            KeyCode::Esc => (self.escaped(), true),
            KeyCode::PageUp => (UiView { scroll: self.scroll + 5, ..self }, true),
            KeyCode::PageDown => (UiView { scroll: layout::monus(self.scroll, 5), ..self }, true),
            KeyCode::Up => match self.focus {
                Focus::Peers => (self.turned(false), true),
                Focus::Chat => (self.pointing(false), true),
                Focus::Input => (UiView { scroll: self.scroll + 1, ..self }, true),
            },
            KeyCode::Down => match self.focus {
                Focus::Peers => (self.turned(true), true),
                Focus::Chat => (self.pointing(true), true),
                Focus::Input => (UiView { scroll: layout::monus(self.scroll, 1), ..self }, true),
            },
            KeyCode::Enter => self.submitted(),
            KeyCode::Char(c) => match self.focus {
                Focus::Chat => (self.acted(c), true),
                Focus::Input => (self.typed(c), true),
                Focus::Peers => (self, true),
            },
            KeyCode::Backspace => if self.focus == Focus::Input {
                (self.backspaced(), true)
            } else {
                (self, true)
            },
            KeyCode::Delete => if self.focus == Focus::Input {
                (self.cut(), true)
            } else {
                (self, true)
            },
            KeyCode::Left => if self.focus == Focus::Input && self.caret_index() > 0 {
                (self.caret_at(self.caret_index() - 1), true)
            } else {
                (self, true)
            },
            KeyCode::Right => if self.focus == Focus::Input && self.caret_index() < self.input.len() {
                (self.caret_at(self.caret_index() + 1), true)
            } else {
                (self, true)
            },
            KeyCode::Home => (UiView { caret: 0, ..self }, true),
            KeyCode::End => (UiView { caret: layout::byte_len(self.input), ..self }, true),
            KeyCode::Other => (self, true),
        }
    }

    /// With a key pressed, and whether to go on.
    pub open spec fn keyed(self, key: KeyEvent) -> (UiView, bool) {
        if !key.press {
            (self, true)
        } else if key.control && key.code == KeyCode::Char('c') {
            (self.sending(CommandView::Quit), false)
        } else if self.help {
            (UiView { help: false, ..self }, true)
        } else {
            self.pressed(key.code)
        }
    }

    /// Whether the selected conversation is a room that this endpoint was kicked
    /// from: nothing can be posted to it any more.
    pub open spec fn left_room(self) -> bool {
        self.selected() matches Some(p) && (p.room matches Some(room) && !room.joined)
    }

    /// With the input line sent, or carried out where it is a command.
    pub open spec fn submitted(self) -> (UiView, bool) {
        let body = text::trimmed(self.input);
        let ui = UiView { input: Seq::empty(), caret: 0, ..self };
        if body.len() > 0 && body[0] == '/' {
            ui.slashed(body.skip(1))
        } else if body.len() == 0 {
            (UiView { pending: None, ..ui }, true)
        } else {
            match ui.selected_key() {
                None => (ui.saying("no peer selected — nothing to send to"@), true),
                Some(_) if ui.left_room() => (ui.saying("you are not in this room"@), true),
                Some(peer) => (
                    (UiView { pending: None, scroll: 0, ..ui }).sending(
                        match self.pending {
                            Some(Pending::Edit(target)) => CommandView::Edit { peer, target, body },
                            Some(Pending::Reply(target)) => CommandView::Send {
                                peer,
                                body,
                                reply_to: Some(target),
                            },
                            None => CommandView::Send { peer, body, reply_to: None },
                        },
                    ),
                    true,
                ),
            }
        }
    }

    /// With a command carried out, and whether to go on.
    pub open spec fn slashed(self, rest: Seq<char>) -> (UiView, bool) {
        let cmd = split_blank(rest).0;
        let arg = text::trimmed(split_blank(rest).1);
        if cmd == "quit"@ {
            (self.sending(CommandView::Quit), false)
        } else {
            (self.commanded(cmd, arg), true)
        }
    }

    /// With a command other than quit carried out.
    pub open spec fn commanded(self, cmd: Seq<char>, arg: Seq<char>) -> UiView {
        if cmd == "whoami"@ {
            (UiView { clipboard: self.clipboard.push(clip(self.me)), ..self }).saying(
                self.nickname + " — "@ + self.me + " (copied)"@,
            )
        } else if cmd == "peers"@ {
            self.saying(
                if self.peers.len() == 0 {
                    "no peers yet"@
                } else {
                    roll(self.peers)
                },
            )
        } else if cmd == "nick"@ {
            if arg.len() > 0 {
                (UiView { nickname: arg, ..self }).sending(CommandView::Nick(arg)).saying("you are now "@ + arg)
            } else {
                self.saying("usage: /nick <name>"@)
            }
        } else if cmd == "room"@ {
            self.roomed(arg)
        } else if cmd == "name"@ {
            self.naming(arg)
        } else if cmd == "whois"@ {
            self.identified()
        } else if cmd == "help"@ {
            UiView { help: true, ..self }
        } else if cmd == "leave"@ {
            self.leaving()
        } else if cmd == "forget"@ {
            match self.selected_key() {
                Some(peer) => self.sending(CommandView::Forget { peer, confirm: arg == "yes"@ }),
                None => self.saying("select a conversation first"@),
            }
        } else if cmd == "clear"@ {
            match self.selected_key() {
                Some(peer) => self.sending(CommandView::Clear { peer, confirm: arg == "yes"@ }),
                None => self.saying("select a conversation first"@),
            }
        } else if cmd == "wipe"@ {
            self.sending(CommandView::Wipe { confirm: arg == "yes"@ })
        } else if cmd == "mouse"@ {
            (UiView { mouse: !self.mouse, ..self }).saying(
                if !self.mouse {
                    "mouse on — click to move around; /mouse again to select text"@
                } else {
                    "mouse off — drag to select and copy; /mouse to turn it back on"@
                },
            )
        } else if cmd == "connect"@ {
            match key_of(arg) {
                Some(peer) => self.sending(CommandView::Connect(peer)),
                None => self.saying("usage: /connect <endpoint-id>"@),
            }
        } else if cmd == "send"@ {
            if arg.len() > 0 {
                match self.selected_key() {
                    Some(_) if self.left_room() => self.saying("you are not in this room"@),
                    Some(peer) => self.sending(CommandView::SendFile { peer, path: arg }),
                    None => self.saying("select a peer first"@),
                }
            } else {
                self.saying("usage: /send <path>"@)
            }
        } else {
            self.saying("unknown command /"@ + cmd)
        }
    }

    /// With the selected room left.
    pub open spec fn leaving(self) -> UiView {
        match self.selected() {
            Some(p) => if p.room is Some {
                self.sending(CommandView::LeaveRoom { room: p.key })
            } else {
                self.saying("/leave is for rooms — use /forget for a peer"@)
            },
            None => self.saying("select a room first"@),
        }
    }

    /// With your own name for the selected peer, or without one.
    pub open spec fn naming(self, arg: Seq<char>) -> UiView {
        match self.selected() {
            None => self.saying("select a peer first"@),
            Some(p) => if p.room is Some {
                self.saying("rooms are named by whoever created them"@)
            } else {
                let alias = if arg.len() > 0 { Some(arg) } else { None::<Seq<char>> };
                self.with_peer(self.sel as int, PeerView { alias, ..p }).sending(
                    CommandView::Name { peer: p.key, alias },
                ).saying(
                    match alias {
                        Some(alias) => "you now call "@ + state::shortened(p.key) + " "@ + alias,
                        None => "forgot your name for "@ + state::shortened(p.key),
                    },
                )
            },
        }
    }

    /// With the full key of the selected conversation, and both names it goes
    /// by. The key is the only part that means anything.
    pub open spec fn identified(self) -> UiView {
        match self.selected() {
            None => self.saying("select a peer first"@),
            Some(p) => {
                let hex = bytes::hex(p.key@);
                (UiView { clipboard: self.clipboard.push(clip(hex)), ..self }).saying(
                    match (p.room, p.alias, p.nick) {
                        (Some(room), _, _) => "#"@ + room.name + " · "@ + text::decimal(room.members as nat)
                            + " members · "@ + hex,
                        (None, Some(alias), Some(nick)) => alias + " (your name; they call themselves "@ + nick
                            + ") · "@ + hex,
                        (None, Some(alias), None) => alias + " (your name) · "@ + hex,
                        (None, None, Some(nick)) => nick
                            + " — their claim, unverified; /name to set yours · "@ + hex,
                        (None, None, None) => "no name yet · "@ + hex,
                    },
                )
            },
        }
    }

    /// With a room command carried out. Invite and kick act on the room the
    /// sidebar is on, so there is no room id to paste as well as the member's.
    pub open spec fn roomed(self, arg: Seq<char>) -> UiView {
        let verb = split_blank(arg).0;
        let rest = text::trimmed(split_blank(arg).1);
        if verb == "create"@ && rest.len() > 0 {
            self.sending(CommandView::CreateRoom(rest))
        } else if verb == "invite"@ || verb == "kick"@ {
            match self.selected() {
                None => self.saying("select a room first"@),
                Some(p) => if p.room is None {
                    self.saying("select a room first — invite and kick act on it"@)
                } else {
                    match key_of(rest) {
                        Some(member) => self.sending(
                            if verb == "invite"@ {
                                CommandView::Invite { room: p.key, member }
                            } else {
                                CommandView::Kick { room: p.key, member }
                            },
                        ),
                        None => self.saying("usage: /room "@ + verb + " <endpoint-id>"@),
                    }
                },
            }
        } else {
            self.saying("usage: /room create <name> | invite <id> | kick <id>"@)
        }
    }

    /// With a click or a turn of the wheel, mapped to whatever was drawn under
    /// it last frame.
    pub open spec fn clicked(self, ev: MouseEvent) -> UiView {
        let peers = inside_of(self.peers_area);
        let chat = inside_of(self.chat_area);
        let input = inside_of(self.input_area);
        let over_chat = covers(chat, ev.column, ev.row);
        match ev.kind {
            MouseKind::ScrollUp => if over_chat {
                UiView { scroll: self.scroll + 3, ..self }
            } else {
                self.turned(false)
            },
            MouseKind::ScrollDown => if over_chat {
                UiView { scroll: layout::monus(self.scroll, 3), ..self }
            } else {
                self.turned(true)
            },
            MouseKind::Left => if covers(peers, ev.column, ev.row) {
                let ui = UiView { focus: Focus::Peers, ..self };
                let row = ev.row - peers.y + self.peer_offset;
                if row < self.peers.len() {
                    ui.selecting(row)
                } else {
                    ui
                }
            } else if over_chat {
                let ui = UiView { focus: Focus::Chat, ..self };
                let row = ev.row - chat.y;
                match ui.selected() {
                    Some(p) => if row < self.chat_rows.len() && self.chat_rows[row] != usize::MAX {
                        ui.with_peer(
                            self.sel as int,
                            PeerView {
                                cursor: layout::least(self.chat_rows[row] as nat, layout::monus(p.log.len(), 1)),
                                ..p
                            },
                        )
                    } else {
                        ui
                    },
                    None => ui,
                }
            } else if covers(input, ev.column, ev.row) {
                (UiView { focus: Focus::Input, ..self }).caret_at(
                    layout::chars_left_of(
                        self.input,
                        (ev.column - input.x + self.input_offset(self.input_area) % 0x1_0000) as nat,
                        0,
                    ) as int,
                )
            } else {
                self
            },
            MouseKind::Other => self,
        }
    }
}

/// Whether a message already has this reaction of yours.
pub open spec fn has_mine(e: EntryView, emoji: Seq<char>) -> bool {
    exists|i: int| 0 <= i < e.reactions.len() && (#[trigger] e.reactions[i]).emoji == emoji && e.reactions[i].mine
}

/// A conversation as the list of peers tells it.
pub open spec fn roll_item(p: PeerView) -> Seq<char> {
    (if p.online {
        "●"@
    } else {
        "○"@
    }) + p.label()
}

/// The conversations as the list of peers tells them.
pub open spec fn roll(peers: Seq<PeerView>) -> Seq<char>
    decreases peers.len(),
{
    if peers.len() == 0 {
        Seq::empty()
    } else if peers.len() == 1 {
        roll_item(peers[0])
    } else {
        roll(peers.drop_last()) + "  "@ + roll_item(peers.last())
    }
}

/// Computes [`roll`].
fn roll_of(peers: &Vec<Peer>) -> (r: String)
    ensures
        r@ == roll(state::peers_view(peers@)),
{
    let ghost all = state::peers_view(peers@);
    let mut out: String = String::new();
    let mut i: usize = 0;
    assert(all.take(0) =~= Seq::empty());
    while i < peers.len()
        invariant
            i <= peers@.len(),
            all == state::peers_view(peers@),
            out@ == roll(all.take(i as int)),
        decreases peers@.len() - i,
    {
        let p = &peers[i];
        proof {
            assert(all.take(i + 1).drop_last() =~= all.take(i as int));
            assert(all.take(i + 1).last() == p@);
            if i == 0 {
                assert(all.take(1)[0] == p@);
            }
        }
        if i > 0 {
            out.append("  ");
        }
        out.append(if p.online { "●" } else { "○" });
        out.append(p.label().as_str());
        i = i + 1;
        assert(out@ =~= roll(all.take(i as int)));
    }
    assert(all.take(i as int) =~= all);
    out
}

impl Ui {
    /// Puts the caret behind `n` characters.
    fn move_caret(&mut self, n: usize)
        requires
            n <= old(self)@.input.len(),
        ensures
            final(self)@ == old(self)@.caret_at(n as int),
            final(self).transfers == old(self).transfers,
            final(self).delivery == old(self).delivery,
            old(self)@.peers == final(self)@.peers,
            state::on_boundary(final(self)@.input, final(self)@.caret),
    {
        self.caret = layout::offset_of(self.input.as_str(), n);
    }

    /// Types a character at the caret.
    fn type_char(&mut self, c: char)
        requires
            old(self).wf(),
        ensures
            final(self).wf(),
            final(self)@ == old(self)@.typed(c),
    {
        let n = layout::chars_before(self.input.as_str(), self.caret);
        let mut chars = text::chars_of(self.input.as_str());
        chars.insert(n, c);
        assert(n < chars.len());
        self.input = text::string_of(chars.as_slice());
        self.move_caret(n + 1);
    }

    /// Takes away the character before the caret.
    fn backspace(&mut self)
        requires
            old(self).wf(),
        ensures
            final(self).wf(),
            final(self)@ == old(self)@.backspaced(),
    {
        let n = layout::chars_before(self.input.as_str(), self.caret);
        if n > 0 {
            let mut chars = text::chars_of(self.input.as_str());
            chars.remove(n - 1);
            self.input = text::string_of(chars.as_slice());
            self.move_caret(n - 1);
        }
    }

    /// Takes away the character behind the caret.
    fn delete_char(&mut self)
        requires
            old(self).wf(),
        ensures
            final(self).wf(),
            final(self)@ == old(self)@.cut(),
    {
        let n = layout::chars_before(self.input.as_str(), self.caret);
        let mut chars = text::chars_of(self.input.as_str());
        if n < chars.len() {
            chars.remove(n);
            self.input = text::string_of(chars.as_slice());
            self.move_caret(n);
        }
    }

    /// Selects a conversation.
    fn select(&mut self, i: usize)
        requires
            old(self).wf(),
            i < old(self).peers@.len(),
        ensures
            final(self).wf(),
            final(self)@ == old(self)@.selecting(i as int),
    {
        let ghost before = self@;
        self.sel = i;
        self.scroll = 0;
        self.peers[i].unread = 0;
        self.peers[i].unread_from = None;
        proof {
            let p = self.peers@[i as int]@;
            assert(before.peers[i as int].wf());
            let mid = UiView { sel: i as nat, scroll: 0, ..before };
            events::lemma_wf_update(mid, i as int, p);
            assert(self@.peers =~= before.peers.update(i as int, p));
        }
    }

    /// Selects the next conversation, or the one before.
    pub fn select_peer(&mut self, forward: bool)
        requires
            old(self).wf(),
        ensures
            final(self).wf(),
            final(self)@ == old(self)@.turned(forward),
    {
        let n: usize = self.peers.len();
        if n == 0 {
            return;
        }
        let i: usize = if forward {
            if self.sel < n - 1 { self.sel + 1 } else { 0 }
        } else {
            if self.sel > 0 { self.sel - 1 } else { n - 1 }
        };
        self.select(i);
    }

    /// Moves the chat cursor to the next message, or the one before.
    pub fn move_cursor(&mut self, forward: bool)
        requires
            old(self).wf(),
        ensures
            final(self).wf(),
            final(self)@ == old(self)@.pointing(forward),
    {
        let i: usize = self.sel;
        if i >= self.peers.len() || self.peers[i].log.len() == 0 {
            return;
        }
        let ghost before = self@;
        let last: usize = self.peers[i].log.len() - 1;
        let at: usize = self.peers[i].cursor;
        assert(before.peers[i as int].wf());
        self.peers[i].cursor = if forward {
            if at < last { at + 1 } else { last }
        } else {
            at.saturating_sub(1)
        };
        proof {
            let p = self.peers@[i as int]@;
            events::lemma_wf_update(before, i as int, p);
            assert(self@.peers =~= before.peers.update(i as int, p));
        }
    }

    /// Reply, edit, delete and react, all keyed by the message the chat cursor
    /// is on.
    pub fn chat_action(&mut self, c: char)
        requires
            old(self).wf(),
        ensures
            final(self).wf(),
            final(self)@ == old(self)@.acted(c),
    {
        let i: usize = self.sel;
        if i >= self.peers.len() || self.peers[i].cursor >= self.peers[i].log.len() {
            return;
        }
        let ghost before = self@;
        let key = self.peers[i].key;
        let entry = &self.peers[i].log[self.peers[i].cursor];
        assert(before.pointed() == Some(entry@));
        let id = entry.id;
        let own = entry.outbound && !entry.deleted;
        if c == 'r' {
            self.pending = Some(Pending::Reply(id));
            self.focus = Focus::Input;
        } else if c == 'e' {
            if own {
                let body = entry.body.clone();
                self.pending = Some(Pending::Edit(id));
                self.caret = body.as_str().as_bytes().len();
                self.input = body;
                self.focus = Focus::Input;
                proof {
                    assert(self@.input.take(self@.input.len() as int) =~= self@.input);
                    assert(self@.caret == layout::byte_len(self@.input.take(self@.input.len() as int)));
                }
            } else {
                self.say("you can only edit your own messages".to_owned());
            }
        } else if c == 'd' {
            if own {
                self.send(UiCommand::Delete { peer: key, target: id });
            } else {
                self.say("you can only delete your own messages".to_owned());
            }
        } else {
            match reaction_of(c) {
                Some(emoji) => {
                    let on = !reacted(entry, &emoji);
                    self.send(UiCommand::React { peer: key, target: id, emoji, on });
                },
                None => {},
            }
        }
    }

    /// `/name <alias>` on the selected peer, or bare `/name` to forget it.
    fn name_command(&mut self, arg: &String)
        requires
            old(self).wf(),
        ensures
            final(self).wf(),
            final(self)@ == old(self)@.naming(arg@),
    {
        let i: usize = self.sel;
        if i >= self.peers.len() {
            self.say("select a peer first".to_owned());
            return;
        }
        let ghost before = self@;
        assert(before.peers[i as int] == self.peers@[i as int]@);
        if self.peers[i].room.is_some() {
            self.say("rooms are named by whoever created them".to_owned());
            return;
        }
        let key = self.peers[i].key;
        let alias: Option<String> = if arg.as_str().is_empty() { None } else { Some(arg.clone()) };
        let status = match &alias {
            Some(alias) => "you now call ".to_owned().concat(state::short(&key).as_str()).concat(" ").concat(
                alias.as_str(),
            ),
            None => "forgot your name for ".to_owned().concat(state::short(&key).as_str()),
        };
        self.peers[i].alias = alias.clone();
        proof {
            let p = self.peers@[i as int]@;
            assert(before.peers[i as int].wf());
            events::lemma_wf_update(before, i as int, p);
            assert(self@.peers =~= before.peers.update(i as int, p));
        }
        self.send(UiCommand::Name { peer: key, alias });
        self.say(status);
    }

    /// The full key for the selected conversation, and both names it goes by.
    fn whois(&mut self)
        requires
            old(self).wf(),
        ensures
            final(self).wf(),
            final(self)@ == old(self)@.identified(),
    {
        if self.sel >= self.peers.len() {
            self.say("select a peer first".to_owned());
            return;
        }
        let p = &self.peers[self.sel];
        assert(self@.peers[self.sel as int] == p@);
        let mut hex: String = String::new();
        text::push_hex(&mut hex, &p.key);
        assert(hex@ =~= bytes::hex(p.key@));
        let status = match (&p.room, &p.alias, &p.nick) {
            (Some(room), _, _) => "#".to_owned().concat(room.name.as_str()).concat(" · ").concat(
                text::decimal_of(room.members as u64).as_str(),
            ).concat(" members · ").concat(hex.as_str()),
            (None, Some(alias), Some(nick)) => alias.clone().concat(" (your name; they call themselves ").concat(
                nick.as_str(),
            ).concat(") · ").concat(hex.as_str()),
            (None, Some(alias), None) => alias.clone().concat(" (your name) · ").concat(hex.as_str()),
            (None, None, Some(nick)) => nick.clone().concat(
                " — their claim, unverified; /name to set yours · ",
            ).concat(hex.as_str()),
            (None, None, None) => "no name yet · ".to_owned().concat(hex.as_str()),
        };
        self.copy(hex.as_str());
        self.say(status);
    }

    /// Queues the sequence that puts text on the clipboard.
    fn copy(&mut self, s: &str)
        ensures
            final(self)@ == (UiView { clipboard: old(self)@.clipboard.push(clip(s@)), ..old(self)@ }),
            final(self).transfers == old(self).transfers,
            final(self).delivery == old(self).delivery,
    {
        let ghost was = self.clipboard@;
        let seq = copy_to_clipboard(s);
        proof {
            layout::lemma_strings_push(was, seq);
        }
        self.clipboard.push(seq);
    }

    /// `/room create <name>`, `/room invite <endpoint-id>`, `/room kick <id>`.
    fn room_command(&mut self, arg: &String)
        requires
            old(self).wf(),
        ensures
            final(self).wf(),
            final(self)@ == old(self)@.roomed(arg@),
    {
        let (verb, tail) = split_once(arg.as_str());
        let rest = text::trim(tail.as_str());
        let invite = text::same(verb.as_str(), "invite");
        if text::same(verb.as_str(), "create") && !rest.as_str().is_empty() {
            self.send(UiCommand::Room(RoomCommand::Create(rest)));
        } else if invite || text::same(verb.as_str(), "kick") {
            if self.sel >= self.peers.len() {
                self.say("select a room first".to_owned());
                return;
            }
            assert(self@.peers[self.sel as int] == self.peers@[self.sel as int]@);
            if self.peers[self.sel].room.is_none() {
                self.say("select a room first — invite and kick act on it".to_owned());
                return;
            }
            let room = self.peers[self.sel].key;
            match parse_key(rest.as_str()) {
                Some(member) => {
                    self.send(
                        UiCommand::Room(
                            if invite {
                                RoomCommand::Invite { room, member }
                            } else {
                                RoomCommand::Kick { room, member }
                            },
                        ),
                    );
                },
                None => {
                    self.say("usage: /room ".to_owned().concat(verb.as_str()).concat(" <endpoint-id>"));
                },
            }
        } else {
            self.say("usage: /room create <name> | invite <id> | kick <id>".to_owned());
        }
    }

    /// Carries out a command. Returns false when it quits.
    pub fn slash(&mut self, rest: &str) -> (go_on: bool)
        requires
            old(self).wf(),
        ensures
            final(self).wf(),
            (final(self)@, go_on) == old(self)@.slashed(rest@),
    {
        let (cmd, tail) = split_once(rest);
        let arg = text::trim(tail.as_str());
        if text::same(cmd.as_str(), "quit") {
            self.send(UiCommand::Quit);
            return false;
        }
        self.command(&cmd, &arg);
        true
    }

    /// Carries out a command other than quit.
    fn command(&mut self, cmd: &String, arg: &String)
        requires
            old(self).wf(),
        ensures
            final(self).wf(),
            final(self)@ == old(self)@.commanded(cmd@, arg@),
    {
        let name = cmd.as_str();
        if text::same(name, "whoami") {
            let me = self.me.clone();
            self.copy(me.as_str());
            self.say(self.nickname.clone().concat(" — ").concat(me.as_str()).concat(" (copied)"));
        } else if text::same(name, "peers") {
            if self.peers.len() == 0 {
                self.say("no peers yet".to_owned());
            } else {
                self.say(roll_of(&self.peers));
            }
        } else if text::same(name, "nick") {
            if arg.as_str().is_empty() {
                self.say("usage: /nick <name>".to_owned());
            } else {
                self.nickname = arg.clone();
                self.send(UiCommand::Nick(arg.clone()));
                self.say("you are now ".to_owned().concat(arg.as_str()));
            }
        } else if text::same(name, "room") {
            self.room_command(arg);
        } else if text::same(name, "name") {
            self.name_command(arg);
        } else if text::same(name, "whois") {
            self.whois();
        } else if text::same(name, "help") {
            self.help = true;
        } else if text::same(name, "leave") {
            self.leave_command();
        } else if text::same(name, "forget") {
            match self.selected_key() {
                Some(peer) => {
                    self.send(UiCommand::Forget { peer, confirm: text::same(arg.as_str(), "yes") });
                },
                None => {
                    self.say("select a conversation first".to_owned());
                },
            }
        } else if text::same(name, "clear") {
            match self.selected_key() {
                Some(peer) => {
                    self.send(UiCommand::Clear { peer, confirm: text::same(arg.as_str(), "yes") });
                },
                None => {
                    self.say("select a conversation first".to_owned());
                },
            }
        } else if text::same(name, "wipe") {
            self.send(UiCommand::Wipe { confirm: text::same(arg.as_str(), "yes") });
        } else if text::same(name, "mouse") {
            self.mouse = !self.mouse;
            self.say(
                if self.mouse {
                    "mouse on — click to move around; /mouse again to select text".to_owned()
                } else {
                    "mouse off — drag to select and copy; /mouse to turn it back on".to_owned()
                },
            );
        } else if text::same(name, "connect") {
            match parse_key(arg.as_str()) {
                Some(peer) => {
                    self.send(UiCommand::Connect(peer));
                },
                None => {
                    self.say("usage: /connect <endpoint-id>".to_owned());
                },
            }
        } else if text::same(name, "send") {
            self.file_command(arg);
        } else {
            self.say("unknown command /".to_owned().concat(name));
        }
    }

    /// `/leave` on the selected room.
    fn leave_command(&mut self)
        requires
            old(self).wf(),
        ensures
            final(self).wf(),
            final(self)@ == old(self)@.leaving(),
    {
        if self.sel >= self.peers.len() {
            self.say("select a room first".to_owned());
            return;
        }
        assert(self@.peers[self.sel as int] == self.peers@[self.sel as int]@);
        if self.peers[self.sel].room.is_some() {
            let room = self.peers[self.sel].key;
            self.send(UiCommand::Room(RoomCommand::Leave { room }));
        } else {
            self.say("/leave is for rooms — use /forget for a peer".to_owned());
        }
    }

    /// `/send <path>` to the selected peer.
    fn file_command(&mut self, arg: &String)
        requires
            old(self).wf(),
        ensures
            final(self).wf(),
            final(self)@ == (if arg@.len() > 0 {
                match old(self)@.selected_key() {
                    Some(_) if old(self)@.left_room() => old(self)@.saying("you are not in this room"@),
                    Some(peer) => old(self)@.sending(CommandView::SendFile { peer, path: arg@ }),
                    None => old(self)@.saying("select a peer first"@),
                }
            } else {
                old(self)@.saying("usage: /send <path>"@)
            }),
    {
        if arg.as_str().is_empty() {
            self.say("usage: /send <path>".to_owned());
            return;
        }
        match self.selected_key() {
            Some(peer) => {
                if self.has_left() {
                    self.say("you are not in this room".to_owned());
                } else {
                    self.send(UiCommand::SendFile { peer, path: arg.clone() });
                }
            },
            None => {
                self.say("select a peer first".to_owned());
            },
        }
    }

    /// Sends the input line, or carries it out. Returns false when it was a
    /// command that quits.
    pub fn submit(&mut self) -> (go_on: bool)
        requires
            old(self).wf(),
        ensures
            final(self).wf(),
            (final(self)@, go_on) == old(self)@.submitted(),
    {
        let body = text::trim(self.input.as_str());
        self.clear_input();
        let chars = text::chars_of(body.as_str());
        if chars.len() > 0 && chars[0] == '/' {
            let rest = text::string_of(vstd::slice::slice_subrange(chars.as_slice(), 1, chars.len()));
            assert(rest@ =~= body@.skip(1));
            return self.slash(rest.as_str());
        }
        if chars.len() == 0 {
            self.pending = None;
            return true;
        }
        let peer = match self.selected_key() {
            Some(peer) => peer,
            None => {
                self.say("no peer selected — nothing to send to".to_owned());
                return true;
            },
        };
        if self.has_left() {
            self.say("you are not in this room".to_owned());
            return true;
        }
        let command = match self.pending {
            Some(Pending::Edit(target)) => UiCommand::Edit { peer, target, body },
            Some(Pending::Reply(target)) => UiCommand::Send { peer, body, reply_to: Some(target) },
            None => UiCommand::Send { peer, body, reply_to: None },
        };
        self.pending = None;
        self.scroll = 0;
        self.send(command);
        true
    }

    /// Decides [`UiView::left_room`].
    fn has_left(&self) -> (r: bool)
        ensures
            r == self@.left_room(),
    {
        if self.sel < self.peers.len() {
            assert(self@.peers[self.sel as int] == self.peers@[self.sel as int]@);
            match &self.peers[self.sel].room {
                Some(room) => !room.joined,
                None => false,
            }
        } else {
            false
        }
    }

    /// Empties the input line.
    fn clear_input(&mut self)
        requires
            old(self).wf(),
        ensures
            final(self).wf(),
            final(self)@ == (UiView { input: Seq::empty(), caret: 0, ..old(self)@ }),
    {
        self.input = String::new();
        self.caret = 0;
        proof {
            assert(self@.input.take(0) =~= Seq::<char>::empty());
            assert(vstd::utf8::encode_utf8(Seq::<char>::empty()).len() == 0);
            assert(layout::byte_len(self@.input.take(0)) == 0);
        }
    }

    /// Takes in a key. Returns false when the app should quit.
    pub fn on_key(&mut self, key: KeyEvent) -> (go_on: bool)
        requires
            old(self).wf(),
            old(self)@.scrollable(),
        ensures
            final(self).wf(),
            (final(self)@, go_on) == old(self)@.keyed(key),
    {
        if !key.press {
            return true;
        }
        if key.control && key.code == KeyCode::Char('c') {
            self.send(UiCommand::Quit);
            return false;
        }
        if self.help {
            // The key that dismisses it does nothing else.
            self.help = false;
            return true;
        }
        self.press(key.code)
    }

    /// Takes in a key that is neither a quit nor the end of the help.
    fn press(&mut self, code: KeyCode) -> (go_on: bool)
        requires
            old(self).wf(),
            old(self)@.scrollable(),
        ensures
            final(self).wf(),
            (final(self)@, go_on) == old(self)@.pressed(code),
    {
        match code {
            KeyCode::Tab => {
                self.focus = match self.focus {
                    Focus::Input => Focus::Peers,
                    Focus::Peers => Focus::Chat,
                    Focus::Chat => Focus::Input,
                };
            },
            KeyCode::BackTab => {
                self.focus = match self.focus {
                    Focus::Input => Focus::Chat,
                    Focus::Chat => Focus::Peers,
                    Focus::Peers => Focus::Input,
                };
            },
            KeyCode::Esc => {
                self.pending = None;
                self.clear_input();
            },
            KeyCode::PageUp => {
                self.scroll = self.scroll + 5;
            },
            KeyCode::PageDown => {
                self.scroll = self.scroll.saturating_sub(5);
            },
            KeyCode::Up => match self.focus {
                Focus::Peers => self.select_peer(false),
                Focus::Chat => self.move_cursor(false),
                Focus::Input => {
                    self.scroll = self.scroll + 1;
                },
            },
            KeyCode::Down => match self.focus {
                Focus::Peers => self.select_peer(true),
                Focus::Chat => self.move_cursor(true),
                Focus::Input => {
                    self.scroll = self.scroll.saturating_sub(1);
                },
            },
            KeyCode::Enter => {
                return self.submit();
            },
            KeyCode::Char(c) => match self.focus {
                Focus::Chat => self.chat_action(c),
                Focus::Input => self.type_char(c),
                Focus::Peers => {},
            },
            KeyCode::Backspace => {
                if self.focus == Focus::Input {
                    self.backspace();
                }
            },
            KeyCode::Delete => {
                if self.focus == Focus::Input {
                    self.delete_char();
                }
            },
            KeyCode::Left => {
                if self.focus == Focus::Input {
                    let n = layout::chars_before(self.input.as_str(), self.caret);
                    if n > 0 {
                        self.move_caret(n - 1);
                    }
                }
            },
            KeyCode::Right => {
                if self.focus == Focus::Input {
                    let n = layout::chars_before(self.input.as_str(), self.caret);
                    if n < text::chars_of(self.input.as_str()).len() {
                        self.move_caret(n + 1);
                    }
                }
            },
            KeyCode::Home => {
                self.caret = 0;
                proof {
                    assert(self@.input.take(0) =~= Seq::<char>::empty());
                    assert(vstd::utf8::encode_utf8(Seq::<char>::empty()).len() == 0);
                    assert(layout::byte_len(self@.input.take(0)) == 0);
                }
            },
            KeyCode::End => {
                self.caret = self.input.as_str().as_bytes().len();
                proof {
                    assert(self@.input.take(self@.input.len() as int) =~= self@.input);
                    assert(self@.caret == layout::byte_len(self@.input.take(self@.input.len() as int)));
                }
            },
            KeyCode::Other => {},
        }
        true
    }

    /// Maps a click to whatever was drawn under it last frame.
    pub fn on_mouse(&mut self, ev: MouseEvent)
        requires
            old(self).wf(),
            old(self)@.scrollable(),
        ensures
            final(self).wf(),
            final(self)@ == old(self)@.clicked(ev),
    {
        let (x, y): (u16, u16) = (ev.column, ev.row);
        let chat = inner(self.chat_area);
        let over_chat = inside(chat, x, y);
        match ev.kind {
            MouseKind::ScrollUp => {
                if over_chat {
                    self.scroll = self.scroll + 3;
                } else {
                    self.select_peer(false);
                }
            },
            MouseKind::ScrollDown => {
                if over_chat {
                    self.scroll = self.scroll.saturating_sub(3);
                } else {
                    self.select_peer(true);
                }
            },
            MouseKind::Left => {
                let peers = inner(self.peers_area);
                let input = inner(self.input_area);
                if inside(peers, x, y) {
                    self.focus = Focus::Peers;
                    let row: usize = (y - peers.y) as usize + self.peer_offset;
                    if row < self.peers.len() {
                        self.select(row);
                    }
                } else if over_chat {
                    self.focus = Focus::Chat;
                    self.point((y - chat.y) as usize);
                } else if inside(input, x, y) {
                    self.focus = Focus::Input;
                    // The line may have been drawn scrolled.
                    let (_, offset) = self.caret_and_offset(self.input_area);
                    let column: usize = (x - input.x) as usize + offset % 0x1_0000;
                    self.caret = layout::byte_at_column(self.input.as_str(), column);
                }
            },
            MouseKind::Other => {},
        }
    }

    /// Moves the chat cursor to the message that row `row` of the pane shows.
    fn point(&mut self, row: usize)
        requires
            old(self).wf(),
        ensures
            final(self).wf(),
            final(self)@ == (match old(self)@.selected() {
                Some(p) => if row < old(self)@.chat_rows.len() && old(self)@.chat_rows[row as int] != usize::MAX {
                    old(self)@.with_peer(
                        old(self).sel as int,
                        PeerView {
                            cursor: layout::least(
                                old(self)@.chat_rows[row as int] as nat,
                                layout::monus(p.log.len(), 1),
                            ),
                            ..p
                        },
                    )
                } else {
                    old(self)@
                },
                None => old(self)@,
            }),
    {
        let i: usize = self.sel;
        if i >= self.peers.len() || row >= self.chat_rows.len() {
            return;
        }
        let owner: usize = self.chat_rows[row];
        if owner == usize::MAX {
            return;
        }
        let ghost before = self@;
        let last: usize = self.peers[i].log.len().saturating_sub(1);
        self.peers[i].cursor = if owner < last { owner } else { last };
        proof {
            let p = self.peers@[i as int]@;
            assert(before.peers[i as int].wf());
            events::lemma_wf_update(before, i as int, p);
            assert(self@.peers =~= before.peers.update(i as int, p));
        }
    }
}

/// Decides [`has_mine`].
fn reacted(entry: &state::Entry, emoji: &String) -> (r: bool)
    ensures
        r == has_mine(entry@, emoji@),
{
    let mut i: usize = 0;
    while i < entry.reactions.len()
        invariant
            i <= entry.reactions@.len(),
            forall|j: int|
                0 <= j < i ==> !((#[trigger] entry@.reactions[j]).emoji == emoji@ && entry@.reactions[j].mine),
        decreases entry.reactions@.len() - i,
    {
        assert(entry@.reactions[i as int].emoji == entry.reactions@[i as int].0@);
        if entry.reactions[i].0 == *emoji && entry.reactions[i].2 {
            return true;
        }
        i = i + 1;
    }
    false
}

/// Tab and shift-tab undo each other, and three tabs come back to where they
/// began.
pub proof fn law_tabs_undo_each_other(ui: UiView)
    ensures
        ui.tabbed().back_tabbed() == ui,
        ui.back_tabbed().tabbed() == ui,
        ui.tabbed().tabbed().tabbed() == ui,
{
}

/// Asking for the mouse twice leaves it as it was.
pub proof fn law_mouse_toggles_back(ui: UiView, a: Seq<char>, b: Seq<char>)
    ensures
        ui.commanded("mouse"@, a).mouse == !ui.mouse,
        ui.commanded("mouse"@, a).commanded("mouse"@, b).mouse == ui.mouse,
{
    reveal_strlit("mouse");
    reveal_strlit("whoami");
    reveal_strlit("peers");
    reveal_strlit("nick");
    reveal_strlit("room");
    reveal_strlit("name");
    reveal_strlit("whois");
    reveal_strlit("help");
    reveal_strlit("leave");
    reveal_strlit("forget");
    reveal_strlit("clear");
    reveal_strlit("wipe");
    assert("mouse"@[0] == 'm');
    assert("peers"@[0] == 'p');
    assert("whois"@[0] == 'w');
    assert("leave"@[0] == 'l');
    assert("clear"@[0] == 'c');
}

/// Backspace takes away what was just typed, and nothing else.
pub proof fn law_backspace_undoes_typing(ui: UiView, c: char)
    requires
        ui.wf(),
    ensures
        ui.typed(c).backspaced() == ui,
{
    let n = ui.caret_index();
    assert(0 <= n <= ui.input.len() && ui.caret == layout::byte_len(ui.input.take(n)));
    let after = ui.typed(c);
    layout::lemma_index_at(after.input, n + 1);
    assert(after.caret_index() == n + 1);
    assert(after.input.remove(n) =~= ui.input);
}

/// The keys for a message do nothing to one that someone else wrote, or that is
/// gone, but say so: it is neither edited nor deleted.
pub proof fn law_only_own_messages_are_changed(ui: UiView, c: char)
    requires
        ui.pointed() matches Some(e) ==> !e.outbound || e.deleted,
        c == 'e' || c == 'd',
    ensures
        ui.acted(c).outbox == ui.outbox,
        ui.acted(c).pending == ui.pending,
        ui.acted(c).input == ui.input,
        ui.acted(c).peers == ui.peers,
{
}

/// Pressing the key of a reaction asks for the opposite of what is there.
pub proof fn law_reactions_toggle(ui: UiView, c: char)
    requires
        ui.pointed() is Some,
        reaction(c) is Some,
    ensures
        ui.acted(c).outbox.len() == ui.outbox.len() + 1,
        ui.acted(c).outbox.last() == (CommandView::React {
            peer: ui.selected_key()->0,
            target: (ui.pointed()->0).id,
            emoji: reaction(c)->0,
            on: !has_mine(ui.pointed()->0, reaction(c)->0),
        }),
{
}

/// Escape abandons a pending reply or edit: Enter then sends nothing.
pub proof fn law_escape_abandons(ui: UiView)
    ensures
        ui.escaped().pending is None,
        ui.escaped().submitted().0.outbox == ui.outbox,
        ui.escaped().submitted().1,
{
    assert(text::trimmed(Seq::<char>::empty()) =~= Seq::<char>::empty());
}

/// Going to the next conversation and back selects the one that was selected.
pub proof fn law_turning_back(ui: UiView)
    requires
        ui.wf(),
    ensures
        ui.turned(true).turned(false).sel == ui.sel,
        ui.turned(false).turned(true).sel == ui.sel,
{
}

/// Whose conversations are listed, in order.
pub open spec fn listed(ui: UiView) -> Seq<[u8; 32]> {
    ui.peers.map_values(|p: PeerView| p.key)
}

proof fn lemma_listed_update(ui: UiView, i: int, p: PeerView)
    requires
        0 <= i < ui.peers.len(),
        p.key == ui.peers[i].key,
    ensures
        listed(ui.with_peer(i, p)) == listed(ui),
{
    assert(listed(ui.with_peer(i, p)) =~= listed(ui));
}

/// No command takes a conversation off the list, and none adds one: `/forget`
/// only asks, and the peer leaves when the store says it is gone.
pub proof fn law_commands_forget_nobody(ui: UiView, cmd: Seq<char>, arg: Seq<char>)
    requires
        ui.wf(),
    ensures
        listed(ui.commanded(cmd, arg)) == listed(ui),
{
    if ui.sel < ui.peers.len() {
        let p = ui.peers[ui.sel as int];
        let alias = if arg.len() > 0 {
            Some(arg)
        } else {
            None::<Seq<char>>
        };
        lemma_listed_update(ui, ui.sel as int, PeerView { alias, ..p });
    }
}

/// No key takes a conversation off the list, and none adds one.
pub proof fn law_keys_forget_nobody(ui: UiView, key: KeyEvent)
    requires
        ui.wf(),
    ensures
        listed(ui.keyed(key).0) == listed(ui),
{
    let shut = UiView { help: false, ..ui };
    lemma_pressed_forgets_nobody(ui, key.code);
    lemma_pressed_forgets_nobody(shut, key.code);
    assert(listed(shut) == listed(ui));
}

proof fn lemma_selecting_forgets_nobody(ui: UiView, i: int)
    requires
        0 <= i < ui.peers.len(),
    ensures
        listed(ui.selecting(i)) == listed(ui),
{
    assert(listed(ui.selecting(i)) =~= listed(ui));
}

proof fn lemma_pressed_forgets_nobody(ui: UiView, code: KeyCode)
    requires
        ui.wf(),
    ensures
        listed(ui.pressed(code).0) == listed(ui),
{
    let n = ui.peers.len();
    if n > 0 {
        lemma_selecting_forgets_nobody(
            ui,
            if ui.sel + 1 < n {
                ui.sel as int + 1
            } else {
                0
            },
        );
        lemma_selecting_forgets_nobody(
            ui,
            if ui.sel > 0 {
                ui.sel - 1
            } else {
                n - 1
            },
        );
        let p = ui.peers[ui.sel as int];
        lemma_listed_update(
            ui,
            ui.sel as int,
            PeerView { cursor: layout::least(p.cursor + 1, (p.log.len() - 1) as nat), ..p },
        );
        lemma_listed_update(ui, ui.sel as int, PeerView { cursor: layout::monus(p.cursor, 1), ..p });
    }
    let body = text::trimmed(ui.input);
    let bare = UiView { input: Seq::empty(), caret: 0, ..ui };
    if body.len() > 0 && body[0] == '/' {
        assert(bare.input.take(0) =~= Seq::<char>::empty());
        assert(vstd::utf8::encode_utf8(Seq::<char>::empty()).len() == 0);
        assert(layout::byte_len(bare.input.take(0)) == 0);
        assert(bare.wf());
        let rest = body.skip(1);
        law_commands_forget_nobody(bare, split_blank(rest).0, text::trimmed(split_blank(rest).1));
    }
}

/// What is copied is written three bytes at a time, four characters for each.
pub proof fn law_copies_are_written_in_groups(a: Seq<u8>, b: Seq<u8>)
    requires
        a.len() % 3 == 0,
    ensures
        base64(a + b) == base64(a) + base64(b),
        base64(a).len() == a.len() / 3 * 4,
        b.len() > 0 ==> base64(b).len() == (b.len() + 2) / 3 * 4,
    decreases a.len() + b.len(),
{
    if a.len() == 0 {
        assert(a + b =~= b);
        assert(base64(a) + base64(b) =~= base64(b));
        if b.len() >= 3 {
            law_copies_are_written_in_groups(a, b.skip(3));
            assert(a + b.skip(3) =~= b.skip(3));
        }
    } else {
        law_copies_are_written_in_groups(a.skip(3), b);
        assert((a + b).skip(3) =~= a.skip(3) + b);
        assert(base64(a + b) =~= base64(a) + base64(b));
    }
}

/// The peers are listed one after the other, each with a dot that is full while it
/// is online, and as it is called.
pub proof fn law_peers_are_listed(peers: Seq<PeerView>, p: PeerView)
    ensures
        roll(seq![p]) == (if p.online {
            "●"@ + p.label()
        } else {
            "○"@ + p.label()
        }),
        peers.len() > 0 ==> roll(peers.push(p)) == roll(peers) + "  "@ + roll(seq![p]),
{
    assert(peers.push(p).drop_last() =~= peers);
}

} // verus!
