//! What lines, keys and clicks do, from what is typed to what is sent.

use super::keys::{KeyCode, KeyEvent, MouseEvent, MouseKind};
use super::state::{CommandView, EntryView, Focus, PeerView, Pending, UiView};
use super::{keys, state, text as layout};
use crate::{bytes, text};
use vstd::prelude::*;

verus! {

/// Whether a text has characters and no blank at either end.
pub open spec fn trim(s: Seq<char>) -> bool {
    s.len() > 0 && !text::blank(s[0]) && !text::blank(s.last())
}

/// The key that submits a line.
pub open spec fn enter() -> KeyEvent {
    KeyEvent { code: KeyCode::Enter, control: false, press: true }
}

proof fn lemma_run(word: Seq<char>, rest: Seq<char>)
    requires
        forall|i: int| 0 <= i < word.len() ==> (#[trigger] word[i]) != ' ',
        rest.len() > 0 ==> rest[0] == ' ',
    ensures
        layout::run_to(word + rest, ' ') == word.len(),
    decreases word.len(),
{
    if word.len() > 0 {
        let tail = word.skip(1);
        assert forall|i: int| 0 <= i < tail.len() implies (#[trigger] tail[i]) != ' ' by {
            assert(tail[i] == word[i + 1]);
        }
        lemma_run(tail, rest);
        assert((word + rest)[0] == word[0]);
        assert((word + rest).skip(1) =~= tail + rest);
    } else {
        assert(word + rest =~= rest);
    }
}

proof fn lemma_split(word: Seq<char>, arg: Seq<char>)
    requires
        forall|i: int| 0 <= i < word.len() ==> (#[trigger] word[i]) != ' ',
    ensures
        keys::split_blank(word) == (word, Seq::<char>::empty()),
        keys::split_blank(word + seq![' '] + arg) == (word, arg),
{
    lemma_run(word, Seq::empty());
    assert(word + Seq::<char>::empty() =~= word);
    let rest = seq![' '] + arg;
    lemma_run(word, rest);
    assert(word + seq![' '] + arg =~= word + rest);
    assert((word + rest).take(word.len() as int) =~= word);
    assert((word + rest).skip(word.len() as int + 1) =~= arg);
}

/// Whether a word can name a command: letters only.
pub open spec fn wordy(word: Seq<char>) -> bool {
    word.len() > 0 && forall|i: int| 0 <= i < word.len() ==> 'a' <= (#[trigger] word[i]) <= 'z'
}

/// What a line with a command and an argument does.
proof fn lemma_line(ui: UiView, cmd: Seq<char>, arg: Seq<char>)
    requires
        !ui.help,
        wordy(cmd),
        arg.len() > 0 ==> trim(arg),
        ui.input == (if arg.len() > 0 {
            seq!['/'] + cmd + seq![' '] + arg
        } else {
            seq!['/'] + cmd
        }),
    ensures
        ui.keyed(enter()) == (UiView { input: Seq::empty(), caret: 0, ..ui }).slashed(if arg.len() > 0 {
            cmd + seq![' '] + arg
        } else {
            cmd
        }),
        ui.keyed(enter()) == (if cmd == "quit"@ {
            ((UiView { input: Seq::empty(), caret: 0, ..ui }).sending(CommandView::Quit), false)
        } else {
            ((UiView { input: Seq::empty(), caret: 0, ..ui }).commanded(cmd, arg), true)
        }),
{
    assert forall|i: int| 0 <= i < cmd.len() implies (#[trigger] cmd[i]) != ' ' by {}
    let rest = if arg.len() > 0 { cmd + seq![' '] + arg } else { cmd };
    assert(ui.input =~= seq!['/'] + rest);
    assert(ui.input.last() == rest.last());
    if arg.len() == 0 {
        assert('a' <= cmd[cmd.len() - 1] <= 'z');
    } else {
        assert(rest.last() == arg.last());
    }
    text::lemma_trimmed_already(ui.input);
    assert(ui.input.skip(1) =~= rest);
    lemma_split(cmd, arg);
    if arg.len() > 0 {
        text::lemma_trimmed_already(arg);
    } else {
        text::lemma_trimmed_already(Seq::empty());
        assert(arg =~= Seq::empty());
    }
}

/// The words that name commands, spelled out.
proof fn lemma_words()
    ensures
        "quit"@ =~= seq!['q', 'u', 'i', 't'],
        "whoami"@ =~= seq!['w', 'h', 'o', 'a', 'm', 'i'],
        "peers"@ =~= seq!['p', 'e', 'e', 'r', 's'],
        "nick"@ =~= seq!['n', 'i', 'c', 'k'],
        "room"@ =~= seq!['r', 'o', 'o', 'm'],
        "name"@ =~= seq!['n', 'a', 'm', 'e'],
        "whois"@ =~= seq!['w', 'h', 'o', 'i', 's'],
        "help"@ =~= seq!['h', 'e', 'l', 'p'],
        "leave"@ =~= seq!['l', 'e', 'a', 'v', 'e'],
        "forget"@ =~= seq!['f', 'o', 'r', 'g', 'e', 't'],
        "clear"@ =~= seq!['c', 'l', 'e', 'a', 'r'],
        "wipe"@ =~= seq!['w', 'i', 'p', 'e'],
        "mouse"@ =~= seq!['m', 'o', 'u', 's', 'e'],
        "connect"@ =~= seq!['c', 'o', 'n', 'n', 'e', 'c', 't'],
        "send"@ =~= seq!['s', 'e', 'n', 'd'],
        "create"@ =~= seq!['c', 'r', 'e', 'a', 't', 'e'],
        "invite"@ =~= seq!['i', 'n', 'v', 'i', 't', 'e'],
        "kick"@ =~= seq!['k', 'i', 'c', 'k'],
        "yes"@ =~= seq!['y', 'e', 's'],
{
    reveal_strlit("quit");
    reveal_strlit("whoami");
    reveal_strlit("peers");
    reveal_strlit("nick");
    reveal_strlit("room");
    reveal_strlit("name");
    reveal_strlit("whois");
    reveal_strlit("help");
    reveal_strlit("leave");
    reveal_strlit("forget");
    reveal_strlit("clear");
    reveal_strlit("wipe");
    reveal_strlit("mouse");
    reveal_strlit("connect");
    reveal_strlit("send");
    reveal_strlit("create");
    reveal_strlit("invite");
    reveal_strlit("kick");
    reveal_strlit("yes");
}

/// An endpoint id reads back from its hexadecimal digits.
proof fn lemma_key_line(k: [u8; 32])
    ensures
        keys::key_of(bytes::hex(k@)) == Some(k),
        trim(bytes::hex(k@)),
        bytes::hex(k@).len() == 64,
        forall|i: int| 0 <= i < 64 ==> !text::blank(#[trigger] bytes::hex(k@)[i]),
{
    let h = bytes::hex(k@);
    assert forall|i: int| 0 <= i < 64 implies !text::blank(#[trigger] h[i]) by {}
    text::lemma_trimmed_already(h);
    bytes::lemma_hex_roundtrip(k@);
    bytes::lemma_array_of(k);
}

/// What a line with `/room`, a verb and something behind it does.
proof fn lemma_room_line(ui: UiView, verb: Seq<char>, rest: Seq<char>)
    requires
        !ui.help,
        wordy(verb),
        trim(rest),
        ui.input =~= "/room "@ + verb + seq![' '] + rest,
    ensures
        ui.keyed(enter()) == ((UiView { input: Seq::empty(), caret: 0, ..ui }).roomed(verb + seq![' '] + rest), true),
        keys::split_blank(verb + seq![' '] + rest) == (verb, rest),
        text::trimmed(rest) == rest,
{
    lemma_words();
    reveal_strlit("/room ");
    let arg = verb + seq![' '] + rest;
    assert(ui.input =~= seq!['/'] + "room"@ + seq![' '] + arg);
    assert(arg[0] == verb[0]);
    assert(arg.last() == rest.last());
    lemma_line(ui, "room"@, arg);
    lemma_split(verb, rest);
    text::lemma_trimmed_already(rest);
}

/// With a room selected, `/room invite` and an endpoint id send just an
/// invitation of that endpoint to that room.
pub proof fn law_members_are_invited(ui: UiView, p: PeerView, k: [u8; 32])
    requires
        !ui.help,
        ui.selected() == Some(p),
        p.room is Some,
        ui.input == "/room "@ + "invite"@ + " "@ + bytes::hex(k@),
    ensures
        ui.keyed(enter()) == (
            UiView {
                input: Seq::empty(),
                caret: 0,
                outbox: ui.outbox.push(CommandView::Invite { room: p.key, member: k }),
                ..ui
            },
            true,
        ),
{
    lemma_verbs();
    lemma_key_line(k);
    lemma_room_line(ui, "invite"@, bytes::hex(k@));
    assert((UiView { input: Seq::empty(), caret: 0, ..ui }).selected() == Some(p));
}

/// With a room selected, `/room kick` and an endpoint id send just a kick of that
/// endpoint out of that room.
pub proof fn law_members_are_kicked(ui: UiView, p: PeerView, k: [u8; 32])
    requires
        !ui.help,
        ui.selected() == Some(p),
        p.room is Some,
        ui.input == "/room "@ + "kick"@ + " "@ + bytes::hex(k@),
    ensures
        ui.keyed(enter()) == (
            UiView {
                input: Seq::empty(),
                caret: 0,
                outbox: ui.outbox.push(CommandView::Kick { room: p.key, member: k }),
                ..ui
            },
            true,
        ),
{
    lemma_verbs();
    lemma_key_line(k);
    lemma_room_line(ui, "kick"@, bytes::hex(k@));
    assert((UiView { input: Seq::empty(), caret: 0, ..ui }).selected() == Some(p));
}

/// The verbs of `/room`, which are different words.
proof fn lemma_verbs()
    ensures
        wordy("create"@),
        wordy("invite"@),
        wordy("kick"@),
        "create"@ != "invite"@,
        "create"@ != "kick"@,
        "invite"@ != "kick"@,
        " "@ =~= seq![' '],
{
    lemma_words();
    reveal_strlit(" ");
    assert("create"@[0] != "invite"@[0]);
    assert("create"@.len() != "kick"@.len());
    assert("invite"@.len() != "kick"@.len());
}

/// `/room create` and a name, however long, ask for a room of that name.
pub proof fn law_rooms_are_created(ui: UiView, name: Seq<char>)
    requires
        !ui.help,
        trim(name),
        ui.input == "/room "@ + "create"@ + " "@ + name,
    ensures
        ui.keyed(enter()) == (
            UiView {
                input: Seq::empty(),
                caret: 0,
                outbox: ui.outbox.push(CommandView::CreateRoom(name)),
                ..ui
            },
            true,
        ),
{
    lemma_verbs();
    lemma_room_line(ui, "create"@, name);
}

/// Without a room selected nobody is invited or kicked, and nothing is sent.
pub proof fn law_members_need_a_room(ui: UiView, k: [u8; 32])
    requires
        !ui.help,
        ui.selected() matches Some(p) ==> p.room is None,
        ui.input == "/room "@ + "invite"@ + " "@ + bytes::hex(k@) || ui.input == "/room "@ + "kick"@ + " "@
            + bytes::hex(k@),
    ensures
        ui.keyed(enter()).0.outbox == ui.outbox,
        ui.keyed(enter()).0.peers == ui.peers,
        ui.keyed(enter()).1,
{
    lemma_verbs();
    lemma_key_line(k);
    assert((UiView { input: Seq::empty(), caret: 0, ..ui }).selected() == ui.selected());
    if ui.input == "/room "@ + "invite"@ + " "@ + bytes::hex(k@) {
        lemma_room_line(ui, "invite"@, bytes::hex(k@));
    } else {
        lemma_room_line(ui, "kick"@, bytes::hex(k@));
    }
}

/// `/leave` leaves the selected room, and is refused for a peer.
pub proof fn law_rooms_are_left(ui: UiView, p: PeerView)
    requires
        !ui.help,
        ui.selected() == Some(p),
        ui.input == "/leave"@,
    ensures
        p.room is Some ==> ui.keyed(enter()) == (
            UiView {
                input: Seq::empty(),
                caret: 0,
                outbox: ui.outbox.push(CommandView::LeaveRoom { room: p.key }),
                ..ui
            },
            true,
        ),
        p.room is None ==> ui.keyed(enter()).0.outbox == ui.outbox,
{
    lemma_words();
    reveal_strlit("/leave");
    assert(ui.input =~= seq!['/'] + "leave"@);
    lemma_line(ui, "leave"@, Seq::empty());
}

/// `/connect` and an endpoint id dial that endpoint.
#[verifier::rlimit(40)]
pub proof fn law_endpoints_are_dialled(ui: UiView, k: [u8; 32])
    requires
        !ui.help,
        ui.input == "/connect "@ + bytes::hex(k@),
    ensures
        ui.keyed(enter()) == (
            UiView {
                input: Seq::empty(),
                caret: 0,
                outbox: ui.outbox.push(CommandView::Connect(k)),
                ..ui
            },
            true,
        ),
{
    lemma_words();
    reveal_strlit("/connect ");
    lemma_key_line(k);
    let h = bytes::hex(k@);
    assert(ui.input =~= seq!['/'] + "connect"@ + seq![' '] + h);
    lemma_line(ui, "connect"@, h);
}

/// What is no endpoint id, because a character is no hexadecimal digit or
/// because there are not sixty-four, dials nobody.
pub proof fn law_junk_dials_nobody(ui: UiView, junk: Seq<char>)
    requires
        !ui.help,
        trim(junk),
        vstd::utf8::is_ascii_chars(junk),
        junk.len() != 64 || exists|i: int| 0 <= i < junk.len() && !hex_char(#[trigger] junk[i]),
        ui.input == "/connect "@ + junk,
    ensures
        ui.keyed(enter()).0.outbox == ui.outbox,
{
    lemma_words();
    reveal_strlit("/connect ");
    assert(ui.input =~= seq!['/'] + "connect"@ + seq![' '] + junk);
    lemma_line(ui, "connect"@, junk);
    lemma_junk(junk);
}

/// Whether a character is a hexadecimal digit.
pub open spec fn hex_char(c: char) -> bool {
    '0' <= c <= '9' || 'a' <= c <= 'f' || 'A' <= c <= 'F'
}

proof fn lemma_junk(junk: Seq<char>)
    requires
        trim(junk),
        vstd::utf8::is_ascii_chars(junk),
        junk.len() != 64 || exists|i: int| 0 <= i < junk.len() && !hex_char(#[trigger] junk[i]),
    ensures
        keys::key_of(junk) is None,
{
    text::lemma_trimmed_already(junk);
    vstd::utf8::is_ascii_chars_encode_utf8(junk);
    let b = vstd::utf8::encode_utf8(junk);
    if junk.len() == 64 {
        let i = choose|i: int| 0 <= i < junk.len() && !hex_char(#[trigger] junk[i]);
        assert(b[i] == junk[i] as u8);
        assert(!bytes::is_hex(b[i]));
        if b.all(|x: u8| bytes::is_hex(x)) {
            assert((|x: u8| bytes::is_hex(x))(b[i]));
        }
    }
}

/// `/nick` and a name, however long, change what you call yourself and tell it.
pub proof fn law_nicknames_change(ui: UiView, name: Seq<char>)
    requires
        !ui.help,
        trim(name),
        ui.input == "/nick "@ + name,
    ensures
        ui.keyed(enter()) == (
            UiView {
                input: Seq::empty(),
                caret: 0,
                nickname: name,
                outbox: ui.outbox.push(CommandView::Nick(name)),
                status: "you are now "@ + name,
                ..ui
            },
            true,
        ),
{
    lemma_words();
    reveal_strlit("/nick ");
    assert(ui.input =~= seq!['/'] + "nick"@ + seq![' '] + name);
    lemma_line(ui, "nick"@, name);
}

/// `/name` gives the selected peer the name that you choose, and none takes it
/// back. What the peer calls itself stays, and nobody else is renamed.
pub proof fn law_peers_are_named(ui: UiView, p: PeerView, name: Seq<char>)
    requires
        !ui.help,
        ui.selected() == Some(p),
        p.room is None,
        trim(name),
    ensures
        ({
            let after = ui.keyed(enter()).0;
            let i = ui.sel as int;
            &&& ui.input == "/name "@ + name ==> {
                &&& after.peers == ui.peers.update(i, PeerView { alias: Some(name), ..p })
                &&& after.outbox == ui.outbox.push(CommandView::Name { peer: p.key, alias: Some(name) })
                &&& after.peers[i].label() == name
            }
            &&& ui.input == "/name"@ ==> {
                &&& after.peers == ui.peers.update(i, PeerView { alias: None, ..p })
                &&& after.outbox == ui.outbox.push(CommandView::Name { peer: p.key, alias: None })
            }
        }),
{
    lemma_words();
    reveal_strlit("/name ");
    reveal_strlit("/name");
    let bare = UiView { input: Seq::empty(), caret: 0, ..ui };
    assert(bare.selected() == Some(p));
    if ui.input == "/name "@ + name {
        assert(ui.input =~= seq!['/'] + "name"@ + seq![' '] + name);
        lemma_line(ui, "name"@, name);
    }
    if ui.input == "/name"@ {
        assert(ui.input =~= seq!['/'] + "name"@);
        lemma_line(ui, "name"@, Seq::empty());
    }
}

/// `/send` and a path, however long, offer that file to the selected
/// conversation, unless it is a room that you have left.
pub proof fn law_files_are_offered(ui: UiView, p: PeerView, path: Seq<char>)
    requires
        !ui.help,
        ui.selected() == Some(p),
        trim(path),
        ui.input == "/send "@ + path,
    ensures
        (p.room matches Some(room) ==> room.joined) ==> ui.keyed(enter()) == (
            UiView {
                input: Seq::empty(),
                caret: 0,
                outbox: ui.outbox.push(CommandView::SendFile { peer: p.key, path }),
                ..ui
            },
            true,
        ),
        (p.room matches Some(room) && !room.joined) ==> ui.keyed(enter()).0.outbox == ui.outbox,
{
    lemma_words();
    reveal_strlit("/send ");
    let bare = UiView { input: Seq::empty(), caret: 0, ..ui };
    assert(bare.selected() == Some(p));
    assert(ui.input =~= seq!['/'] + "send"@ + seq![' '] + path);
    lemma_line(ui, "send"@, path);
}

/// `/forget`, `/clear` and `/wipe` ask for what they say, confirmed only by
/// "yes".
pub proof fn law_deletions_want_a_yes(ui: UiView, peer: [u8; 32], word: Seq<char>)
    requires
        !ui.help,
        ui.selected_key() == Some(peer),
        trim(word),
    ensures
        ({
            let after = ui.keyed(enter()).0.outbox;
            &&& ui.input == "/forget"@ ==> after == ui.outbox.push(CommandView::Forget { peer, confirm: false })
            &&& ui.input == "/forget "@ + word ==> after == ui.outbox.push(
                CommandView::Forget { peer, confirm: word == "yes"@ },
            )
            &&& ui.input == "/clear"@ ==> after == ui.outbox.push(CommandView::Clear { peer, confirm: false })
            &&& ui.input == "/clear "@ + word ==> after == ui.outbox.push(
                CommandView::Clear { peer, confirm: word == "yes"@ },
            )
            &&& ui.input == "/wipe"@ ==> after == ui.outbox.push(CommandView::Wipe { confirm: false })
            &&& ui.input == "/wipe "@ + word ==> after == ui.outbox.push(
                CommandView::Wipe { confirm: word == "yes"@ },
            )
        }),
{
    lemma_words();
    reveal_strlit("/forget");
    reveal_strlit("/forget ");
    reveal_strlit("/clear");
    reveal_strlit("/clear ");
    reveal_strlit("/wipe");
    reveal_strlit("/wipe ");
    let bare = UiView { input: Seq::empty(), caret: 0, ..ui };
    assert(bare.selected_key() == Some(peer));
    lemma_deletion(ui, "/forget"@, "/forget "@, "forget"@, word);
    lemma_deletion(ui, "/clear"@, "/clear "@, "clear"@, word);
    lemma_deletion(ui, "/wipe"@, "/wipe "@, "wipe"@, word);
}

proof fn lemma_deletion(ui: UiView, alone: Seq<char>, before: Seq<char>, cmd: Seq<char>, word: Seq<char>)
    requires
        !ui.help,
        trim(word),
        wordy(cmd),
        cmd != "quit"@,
        alone =~= seq!['/'] + cmd,
        before =~= seq!['/'] + cmd + seq![' '],
    ensures
        ui.input == alone ==> ui.keyed(enter()).0 == (UiView { input: Seq::empty(), caret: 0, ..ui }).commanded(
            cmd,
            Seq::empty(),
        ),
        ui.input == before + word ==> ui.keyed(enter()).0 == (UiView {
            input: Seq::empty(),
            caret: 0,
            ..ui
        }).commanded(cmd, word),
{
    if ui.input == alone {
        lemma_line(ui, cmd, Seq::empty());
    }
    if ui.input == before + word {
        assert(ui.input =~= seq!['/'] + cmd + seq![' '] + word);
        lemma_line(ui, cmd, word);
    }
}

/// `/quit` and Ctrl-C stop the program.
pub proof fn law_quitting_stops(ui: UiView)
    ensures
        !ui.help && ui.input == "/quit"@ ==> ui.keyed(enter()) == (
            UiView { input: Seq::empty(), caret: 0, outbox: ui.outbox.push(CommandView::Quit), ..ui },
            false,
        ),
        ui.keyed(KeyEvent { code: KeyCode::Char('c'), control: true, press: true }) == (
            UiView { outbox: ui.outbox.push(CommandView::Quit), ..ui },
            false,
        ),
{
    lemma_words();
    reveal_strlit("/quit");
    if !ui.help && ui.input == "/quit"@ {
        assert(ui.input =~= seq!['/'] + "quit"@);
        lemma_line(ui, "quit"@, Seq::empty());
    }
}

/// No other key stops it, and no other line.
pub proof fn law_nothing_else_stops(ui: UiView, key: KeyEvent)
    requires
        !ui.keyed(key).1,
    ensures
        ui.keyed(key).0.outbox == ui.outbox.push(CommandView::Quit),
        key.press,
        (key.control && key.code == KeyCode::Char('c')) || (key.code == KeyCode::Enter && !ui.help && (text::trimmed(
            ui.input,
        ) == "/quit"@ || (text::trimmed(ui.input).len() > 6 && text::trimmed(ui.input).take(6) == "/quit "@))),
{
    if key.code == KeyCode::Enter {
        lemma_quit_line(text::trimmed(ui.input), ui.input);
    }
}

proof fn lemma_quit_line(line: Seq<char>, input: Seq<char>)
    requires
        line == text::trimmed(input),
    ensures
        line.len() > 0 && line[0] == '/' && keys::split_blank(line.skip(1)).0 == "quit"@ ==> line == "/quit"@ || (
        line.len() > 6 && line.take(6) == "/quit "@),
{
    reveal_strlit("quit");
    reveal_strlit("/quit");
    reveal_strlit("/quit ");
    if line.len() > 0 && line[0] == '/' && keys::split_blank(line.skip(1)).0 == "quit"@ {
        let rest = line.skip(1);
        let n = layout::run_to(rest, ' ') as int;
        layout::lemma_run_to_char(rest, ' ');
        if n < rest.len() {
            let word = rest.take(n);
            assert(word == "quit"@);
            assert(word.len() == 4);
            assert(word[0] == line[1] && word[1] == line[2] && word[2] == line[3] && word[3] == line[4]);
            assert(line[5] == ' ');
            lemma_no_trailing_blank(input);
            assert(line.take(6) =~= "/quit "@);
        } else {
            assert(rest == "quit"@);
            assert(line =~= seq!['/'] + rest);
            assert(line =~= "/quit"@);
        }
    }
}

proof fn lemma_no_trailing_blank(s: Seq<char>)
    ensures
        text::trimmed(s).len() > 0 ==> !text::blank(text::trimmed(s).last()),
{
    lemma_end_solid(text::trim_start(s));
}

proof fn lemma_end_solid(s: Seq<char>)
    ensures
        text::trim_end(s).len() > 0 ==> !text::blank(text::trim_end(s).last()),
    decreases s.len(),
{
    if s.len() > 0 && text::blank(s.last()) {
        lemma_end_solid(s.drop_last());
    }
}

/// `/help` shows the help, `/mouse` turns the mouse on or off, and nothing is
/// sent.
pub proof fn law_help_and_mouse(ui: UiView)
    requires
        !ui.help,
    ensures
        ui.input == "/help"@ ==> ui.keyed(enter()) == (
            UiView { input: Seq::empty(), caret: 0, help: true, ..ui },
            true,
        ),
        ui.input == "/mouse"@ ==> ui.keyed(enter()).0 == (UiView {
            input: Seq::empty(),
            caret: 0,
            mouse: !ui.mouse,
            status: ui.keyed(enter()).0.status,
            ..ui
        }),
{
    lemma_words();
    reveal_strlit("/help");
    reveal_strlit("/mouse");
    if ui.input == "/help"@ {
        assert(ui.input =~= seq!['/'] + "help"@);
        lemma_line(ui, "help"@, Seq::empty());
    }
    if ui.input == "/mouse"@ {
        assert(ui.input =~= seq!['/'] + "mouse"@);
        lemma_line(ui, "mouse"@, Seq::empty());
    }
}

/// `/whoami` copies your own endpoint id to the clipboard, and `/whois` that of
/// the selected conversation. Nothing is sent.
pub proof fn law_ids_are_copied(ui: UiView, p: PeerView)
    requires
        !ui.help,
        ui.selected() == Some(p),
    ensures
        ui.input == "/whoami"@ ==> ui.keyed(enter()).0 == (UiView {
            input: Seq::empty(),
            caret: 0,
            clipboard: ui.clipboard.push(
                "\x1b]52;c;"@ + keys::base64(vstd::utf8::encode_utf8(ui.me)) + "\x07"@,
            ),
            status: ui.nickname + " — "@ + ui.me + " (copied)"@,
            ..ui
        }),
        ui.input == "/whois"@ ==> ui.keyed(enter()).0 == (UiView {
            input: Seq::empty(),
            caret: 0,
            clipboard: ui.clipboard.push(
                "\x1b]52;c;"@ + keys::base64(vstd::utf8::encode_utf8(bytes::hex(p.key@))) + "\x07"@,
            ),
            status: ui.keyed(enter()).0.status,
            ..ui
        }),
{
    lemma_words();
    reveal_strlit("/whoami");
    reveal_strlit("/whois");
    assert((UiView { input: Seq::empty(), caret: 0, ..ui }).selected() == Some(p));
    if ui.input == "/whoami"@ {
        assert(ui.input =~= seq!['/'] + "whoami"@);
        lemma_line(ui, "whoami"@, Seq::empty());
    }
    if ui.input == "/whois"@ {
        assert(ui.input =~= seq!['/'] + "whois"@);
        lemma_line(ui, "whois"@, Seq::empty());
    }
}

/// A line that is no command goes to the selected conversation as it was typed,
/// however long: as a message, as an answer, or as the new text of the message
/// that is being edited.
pub proof fn law_lines_are_sent(ui: UiView, p: PeerView)
    requires
        !ui.help,
        ui.selected() == Some(p),
        p.room matches Some(room) ==> room.joined,
        trim(ui.input),
        ui.input[0] != '/',
    ensures
        ui.keyed(enter()) == (
            UiView {
                input: Seq::empty(),
                caret: 0,
                pending: None,
                scroll: 0,
                outbox: ui.outbox.push(
                    match ui.pending {
                        None => CommandView::Send { peer: p.key, body: ui.input, reply_to: None },
                        Some(Pending::Reply(target)) => CommandView::Send {
                            peer: p.key,
                            body: ui.input,
                            reply_to: Some(target),
                        },
                        Some(Pending::Edit(target)) => CommandView::Edit {
                            peer: p.key,
                            target,
                            body: ui.input,
                        },
                    },
                ),
                ..ui
            },
            true,
        ),
{
    text::lemma_trimmed_already(ui.input);
    assert((UiView { input: Seq::empty(), caret: 0, ..ui }).selected() == Some(p));
}

/// A line goes nowhere without a conversation, nor in a room that you have left:
/// nothing is sent, and the status says why.
pub proof fn law_lines_need_a_conversation(ui: UiView)
    requires
        !ui.help,
        trim(ui.input),
        ui.input[0] != '/',
        ui.selected() matches Some(p) ==> (p.room matches Some(room) && !room.joined),
    ensures
        ui.keyed(enter()) == (
            UiView {
                input: Seq::empty(),
                caret: 0,
                status: if ui.selected() is None {
                    "no peer selected — nothing to send to"@
                } else {
                    "you are not in this room"@
                },
                ..ui
            },
            true,
        ),
{
    text::lemma_trimmed_already(ui.input);
    assert((UiView { input: Seq::empty(), caret: 0, ..ui }).selected() == ui.selected());
}

/// With the caret behind `n` characters, a key writes there, takes the character
/// before or behind, or moves the caret by one character, whatever their width in
/// bytes. The rest of the line stays.
pub proof fn law_keys_edit_the_line(ui: UiView, n: int, c: char)
    requires
        !ui.help,
        ui.focus == Focus::Input,
        0 <= n <= ui.input.len(),
        ui.caret == vstd::utf8::encode_utf8(ui.input.take(n)).len(),
    ensures
        ({
            let key = |code: KeyCode| ui.keyed(KeyEvent { code, control: false, press: true });
            let bytes = |s: Seq<char>| vstd::utf8::encode_utf8(s).len();
            let (before, after) = (ui.input.take(n), ui.input.skip(n));
            &&& key(KeyCode::Char(c)) == (
                UiView { input: before.push(c) + after, caret: bytes(before.push(c)), ..ui },
                true,
            )
            &&& key(KeyCode::Backspace) == (if n > 0 {
                (UiView { input: before.drop_last() + after, caret: bytes(before.drop_last()), ..ui }, true)
            } else {
                (ui, true)
            })
            &&& key(KeyCode::Delete) == (if n < ui.input.len() {
                (UiView { input: before + after.skip(1), ..ui }, true)
            } else {
                (ui, true)
            })
            &&& key(KeyCode::Left) == (if n > 0 {
                (UiView { caret: bytes(before.drop_last()), ..ui }, true)
            } else {
                (ui, true)
            })
            &&& key(KeyCode::Right) == (if n < ui.input.len() {
                (UiView { caret: bytes(before.push(after[0])), ..ui }, true)
            } else {
                (ui, true)
            })
            &&& key(KeyCode::Home) == (UiView { caret: 0, ..ui }, true)
            &&& key(KeyCode::End) == (UiView { caret: bytes(ui.input), ..ui }, true)
        }),
{
    layout::lemma_index_at(ui.input, n);
    let (before, after) = (ui.input.take(n), ui.input.skip(n));
    assert(ui.input.insert(n, c) =~= before.push(c) + after);
    assert(ui.input.insert(n, c).take(n + 1) =~= before.push(c));
    if n > 0 {
        assert(ui.input.remove(n - 1) =~= before.drop_last() + after);
        assert(ui.input.remove(n - 1).take(n - 1) =~= before.drop_last());
        assert(ui.input.take(n - 1) =~= before.drop_last());
    }
    if n < ui.input.len() {
        assert(ui.input.remove(n) =~= before + after.skip(1));
        assert(ui.input.remove(n).take(n) =~= before);
        assert(ui.input.take(n + 1) =~= before.push(after[0]));
    }
}

/// Over a message in the chat, `r` answers it, `e` edits it and `d` deletes it,
/// the last two only where it is your own and not deleted, and the first five
/// digits toggle their reaction. No other character does anything.
pub proof fn law_chat_keys(ui: UiView, p: PeerView, e: EntryView, c: char)
    requires
        !ui.help,
        ui.focus == Focus::Chat,
        ui.selected() == Some(p),
        p.cursor < p.log.len(),
        e == p.log[p.cursor as int],
    ensures
        ({
            let key = |c: char| ui.keyed(KeyEvent { code: KeyCode::Char(c), control: false, press: true }).0;
            let react = |emoji: Seq<char>|
                UiView {
                    outbox: ui.outbox.push(
                        CommandView::React {
                            peer: p.key,
                            target: e.id,
                            emoji,
                            on: !(exists|i: int|
                                0 <= i < e.reactions.len() && (#[trigger] e.reactions[i]).emoji == emoji
                                    && e.reactions[i].mine),
                        },
                    ),
                    ..ui
                };
            &&& key('r') == (UiView { pending: Some(Pending::Reply(e.id)), focus: Focus::Input, ..ui })
            &&& e.outbound && !e.deleted ==> key('e') == (UiView {
                pending: Some(Pending::Edit(e.id)),
                input: e.body,
                caret: vstd::utf8::encode_utf8(e.body).len(),
                focus: Focus::Input,
                ..ui
            })
            &&& e.outbound && !e.deleted ==> key('d') == (UiView {
                outbox: ui.outbox.push(CommandView::Delete { peer: p.key, target: e.id }),
                ..ui
            })
            &&& !e.outbound || e.deleted ==> key('e').outbox == ui.outbox && key('d').outbox == ui.outbox
            &&& key('1') == react("👍"@)
            &&& key('2') == react("❤️"@)
            &&& key('3') == react("😂"@)
            &&& key('4') == react("😮"@)
            &&& key('5') == react("😢"@)
            &&& c != 'r' && c != 'e' && c != 'd' && !('1' <= c <= '5') ==> key(c) == ui
        }),
{
    let key = |c: char| ui.keyed(KeyEvent { code: KeyCode::Char(c), control: false, press: true }).0;
    assert forall|d: char| #[trigger] key(d) == ui.acted(d) by {}
    assert(ui.pointed() == Some(e));
}

/// The arrow and page keys: in the chat they move the cursor by one message, up
/// to either end, among the peers they select the next or the one before,
/// around the ends, and in the input they scroll the chat.
pub proof fn law_arrows(ui: UiView, p: PeerView)
    requires
        !ui.help,
        ui.selected() == Some(p),
        p.log.len() > 0,
        p.cursor < p.log.len(),
    ensures
        ({
            let key = |code: KeyCode| ui.keyed(KeyEvent { code, control: false, press: true }).0;
            let (up, down) = (key(KeyCode::Up), key(KeyCode::Down));
            let (i, n) = (ui.sel as int, ui.peers.len() as int);
            &&& ui.focus == Focus::Chat ==> up == (UiView {
                peers: ui.peers.update(
                    i,
                    PeerView { cursor: (if p.cursor > 0 { p.cursor - 1 } else { 0 }) as nat, ..p },
                ),
                ..ui
            })
            &&& ui.focus == Focus::Chat ==> down == (UiView {
                peers: ui.peers.update(
                    i,
                    PeerView {
                        cursor: if p.cursor + 1 < p.log.len() { p.cursor + 1 } else { p.cursor },
                        ..p
                    },
                ),
                ..ui
            })
            &&& ui.focus == Focus::Peers ==> up.sel == (if i > 0 { i - 1 } else { n - 1 })
            &&& ui.focus == Focus::Peers ==> down.sel == (if i + 1 < n { i + 1 } else { 0 })
            &&& ui.focus == Focus::Input ==> up == (UiView { scroll: ui.scroll + 1, ..ui })
            &&& ui.focus == Focus::Input ==> down == (UiView {
                scroll: (if ui.scroll > 0 { ui.scroll - 1 } else { 0 }) as nat,
                ..ui
            })
            &&& key(KeyCode::PageUp) == (UiView { scroll: ui.scroll + 5, ..ui })
            &&& key(KeyCode::PageDown) == (UiView {
                scroll: (if ui.scroll > 5 { ui.scroll - 5 } else { 0 }) as nat,
                ..ui
            })
        }),
{
}

/// A conversation that is selected has been read: nothing of it is unread, it is
/// shown from its end, and all else stays.
pub proof fn law_selecting_reads(ui: UiView, forward: bool)
    requires
        ui.wf(),
        ui.peers.len() > 0,
    ensures
        ({
            let after = ui.turned(forward);
            let i = after.sel as int;
            &&& 0 <= i < ui.peers.len()
            &&& after == (UiView {
                sel: after.sel,
                scroll: 0,
                peers: ui.peers.update(i, PeerView { unread: 0, unread_from: None, ..ui.peers[i] }),
                ..ui
            })
        }),
{
}

/// Tab moves the focus from the input to the peers, to the chat and back, and
/// nothing else. Escape abandons what was begun. Any key ends the help and does
/// nothing more, and a release does nothing.
pub proof fn law_tab_and_escape(ui: UiView, key: KeyEvent)
    ensures
        ({
            let press = |code: KeyCode| ui.keyed(KeyEvent { code, control: false, press: true });
            &&& !ui.help ==> press(KeyCode::Tab) == (
                UiView {
                    focus: if ui.focus == Focus::Input {
                        Focus::Peers
                    } else if ui.focus == Focus::Peers {
                        Focus::Chat
                    } else {
                        Focus::Input
                    },
                    ..ui
                },
                true,
            )
            &&& !ui.help ==> press(KeyCode::BackTab) == (
                UiView {
                    focus: if ui.focus == Focus::Input {
                        Focus::Chat
                    } else if ui.focus == Focus::Chat {
                        Focus::Peers
                    } else {
                        Focus::Input
                    },
                    ..ui
                },
                true,
            )
            &&& !ui.help ==> press(KeyCode::Esc) == (
                UiView { pending: None, input: Seq::empty(), caret: 0, ..ui },
                true,
            )
            &&& ui.help && key.press && !(key.control && key.code == KeyCode::Char('c')) ==> ui.keyed(key) == (
                UiView { help: false, ..ui },
                true,
            )
            &&& !key.press ==> ui.keyed(key) == (ui, true)
        }),
{
}

/// A click on a row of the peer list selects the peer that is drawn there.
pub proof fn law_clicks_select_peers(ui: UiView, ev: MouseEvent)
    requires
        ev.kind == MouseKind::Left,
        ui.peers_area.x < ev.column,
        ev.column + 1 < ui.peers_area.x + ui.peers_area.width,
        ui.peers_area.y < ev.row,
        ev.row + 1 < ui.peers_area.y + ui.peers_area.height,
    ensures
        ({
            let i = ui.peer_offset + (ev.row - ui.peers_area.y - 1);
            if i < ui.peers.len() {
                ui.clicked(ev) == (UiView {
                    focus: Focus::Peers,
                    sel: i as nat,
                    scroll: 0,
                    peers: ui.peers.update(i, PeerView { unread: 0, unread_from: None, ..ui.peers[i] }),
                    ..ui
                })
            } else {
                ui.clicked(ev) == (UiView { focus: Focus::Peers, ..ui })
            }
        }),
{
}

/// A click on a row of the chat takes the cursor to the message that is drawn
/// there. The wheel scrolls the chat by three rows where it is over it, and
/// elsewhere selects the next peer or the one before.
pub proof fn law_clicks_find_messages(ui: UiView, ev: MouseEvent, p: PeerView)
    requires
        ui.selected() == Some(p),
        p.log.len() > 0,
        ui.peers_area.x < u16::MAX && ui.peers_area.y < u16::MAX,
        ui.chat_area.x < ev.column,
        ev.column + 1 < ui.chat_area.x + ui.chat_area.width,
        ui.chat_area.y < ev.row,
        ev.row + 1 < ui.chat_area.y + ui.chat_area.height,
        !(ui.peers_area.x < ev.column && ev.column + 1 < ui.peers_area.x + ui.peers_area.width && ui.peers_area.y
            < ev.row && ev.row + 1 < ui.peers_area.y + ui.peers_area.height),
    ensures
        ({
            let row = ev.row - ui.chat_area.y - 1;
            &&& ev.kind == MouseKind::Left && row < ui.chat_rows.len() && ui.chat_rows[row] < p.log.len()
                && ui.chat_rows[row] != usize::MAX ==> ui.clicked(ev) == (UiView {
                focus: Focus::Chat,
                peers: ui.peers.update(ui.sel as int, PeerView { cursor: ui.chat_rows[row] as nat, ..p }),
                ..ui
            })
            &&& ev.kind == MouseKind::ScrollUp ==> ui.clicked(ev) == (UiView { scroll: ui.scroll + 3, ..ui })
            &&& ev.kind == MouseKind::ScrollDown ==> ui.clicked(ev) == (UiView {
                scroll: (if ui.scroll > 3 { ui.scroll - 3 } else { 0 }) as nat,
                ..ui
            })
        }),
{
    assert((UiView { focus: Focus::Chat, ..ui }).selected() == Some(p));
}

/// Blanks around a line change nothing of what it does.
pub proof fn law_blanks_around_a_line(ui: UiView, front: Seq<char>, core: Seq<char>, back: Seq<char>)
    requires
        !ui.help,
        forall|i: int| 0 <= i < front.len() ==> text::blank(#[trigger] front[i]),
        forall|i: int| 0 <= i < back.len() ==> text::blank(#[trigger] back[i]),
        core.len() > 0 ==> trim(core),
        ui.input == front + core + back,
    ensures
        ui.keyed(enter()) == (UiView { input: core, ..ui }).keyed(enter()),
        core.len() == 0 ==> ui.keyed(enter()) == (
            UiView { input: Seq::empty(), caret: 0, pending: None, ..ui },
            true,
        ),
{
    let none = Seq::<char>::empty();
    text::law_trimming_takes_the_blanks(front, core, back);
    text::law_trimming_takes_the_blanks(none, core, none);
    assert(none + core + none =~= core);
    if core.len() == 0 {
        assert(core =~= none);
    }
}

/// Control matters with `c` and with no other key.
pub proof fn law_control_matters_with_one_key(ui: UiView, code: KeyCode)
    requires
        code != KeyCode::Char('c'),
    ensures
        ui.keyed(KeyEvent { code, control: true, press: true }) == ui.keyed(
            KeyEvent { code, control: false, press: true },
        ),
{
}

/// Away from the input, the keys that edit the line leave it alone, and so does a
/// character among the peers.
pub proof fn law_the_line_is_edited_in_the_input(ui: UiView, c: char)
    requires
        !ui.help,
        ui.focus != Focus::Input,
    ensures
        ({
            let key = |code: KeyCode| ui.keyed(KeyEvent { code, control: false, press: true });
            &&& key(KeyCode::Backspace) == (ui, true)
            &&& key(KeyCode::Delete) == (ui, true)
            &&& key(KeyCode::Left) == (ui, true)
            &&& key(KeyCode::Right) == (ui, true)
            &&& ui.focus == Focus::Peers ==> key(KeyCode::Char(c)) == (ui, true)
            &&& ui.focus == Focus::Chat ==> key(KeyCode::Char(c)).0.input == ui.input || c == 'e'
            &&& key(KeyCode::Home) == (UiView { caret: 0, ..ui }, true)
            &&& key(KeyCode::End) == (UiView { caret: vstd::utf8::encode_utf8(ui.input).len(), ..ui }, true)
            &&& key(KeyCode::Other) == (ui, true)
        }),
{
}

/// Where there is nothing to pick, the arrows and the keys for messages do nothing.
pub proof fn law_nothing_to_pick(ui: UiView, c: char)
    requires
        !ui.help,
        ui.focus != Focus::Input,
        ui.peers.len() == 0 || (ui.focus == Focus::Chat && (ui.selected() matches Some(p) && p.log.len() == 0)),
    ensures
        ({
            let key = |code: KeyCode| ui.keyed(KeyEvent { code, control: false, press: true });
            &&& key(KeyCode::Up) == (ui, true)
            &&& key(KeyCode::Down) == (ui, true)
            &&& key(KeyCode::Char(c)) == (ui, true)
        }),
{
}

/// Among the peers the arrows go round the list, one at a time, and what they reach
/// is read.
pub proof fn law_arrows_go_round_the_peers(ui: UiView)
    requires
        !ui.help,
        ui.focus == Focus::Peers,
        ui.sel < ui.peers.len(),
    ensures
        ({
            let key = |code: KeyCode| ui.keyed(KeyEvent { code, control: false, press: true });
            let n = ui.peers.len() as int;
            let at = |i: int|
                UiView {
                    sel: i as nat,
                    scroll: 0,
                    peers: ui.peers.update(i, PeerView { unread: 0, unread_from: None, ..ui.peers[i] }),
                    ..ui
                };
            &&& key(KeyCode::Up) == (at((ui.sel + n - 1) % n), true)
            &&& key(KeyCode::Down) == (at((ui.sel as int + 1) % n), true)
        }),
{
    let n = ui.peers.len() as int;
    let i = ui.sel as int;
    assert((i + n - 1) % n == if i > 0 { i - 1 } else { n - 1 }) by (nonlinear_arith)
        requires
            0 <= i < n,
    ;
    assert((i + 1) % n == if i + 1 < n { i + 1 } else { 0 }) by (nonlinear_arith)
        requires
            0 <= i < n,
    ;
}

/// The wheel, away from the chat, goes round the peers as the arrows do.
pub proof fn law_the_wheel_elsewhere(ui: UiView, ev: MouseEvent)
    requires
        ui.sel < ui.peers.len(),
        ev.column <= ui.chat_area.x || ev.row <= ui.chat_area.y || ev.column + 1 >= ui.chat_area.x + ui.chat_area.width
            || ev.row + 1 >= ui.chat_area.y + ui.chat_area.height,
        ui.chat_area.x < u16::MAX && ui.chat_area.y < u16::MAX,
    ensures
        ({
            let n = ui.peers.len() as int;
            &&& ev.kind == MouseKind::ScrollUp ==> ui.clicked(ev).sel == (ui.sel + n - 1) % n && ui.clicked(ev).focus
                == ui.focus
            &&& ev.kind == MouseKind::ScrollDown ==> ui.clicked(ev).sel == (ui.sel as int + 1) % n && ui.clicked(ev).focus
                == ui.focus
            &&& ev.kind == MouseKind::Other ==> ui.clicked(ev) == ui
        }),
{
    let n = ui.peers.len() as int;
    let i = ui.sel as int;
    assert((i + n - 1) % n == if i > 0 { i - 1 } else { n - 1 }) by (nonlinear_arith)
        requires
            0 <= i < n,
    ;
    assert((i + 1) % n == if i + 1 < n { i + 1 } else { 0 }) by (nonlinear_arith)
        requires
            0 <= i < n,
    ;
}

/// An unknown command is named, and nothing comes of it.
pub proof fn law_unknown_commands_are_named(ui: UiView, cmd: Seq<char>)
    requires
        !ui.help,
        wordy(cmd),
        ui.input == seq!['/'] + cmd,
        cmd.len() > 8,
    ensures
        ui.keyed(enter()) == (
            UiView { input: Seq::empty(), caret: 0, status: "unknown command /"@ + cmd, ..ui },
            true,
        ),
{
    lemma_words();
    lemma_line(ui, cmd, Seq::empty());
}

/// With a room selected, something that is no endpoint id invites and kicks nobody.
pub proof fn law_junk_invites_nobody(ui: UiView, junk: Seq<char>)
    requires
        !ui.help,
        trim(junk),
        vstd::utf8::is_ascii_chars(junk),
        junk.len() != 64 || exists|i: int| 0 <= i < junk.len() && !hex_char(#[trigger] junk[i]),
        ui.input == "/room "@ + "invite"@ + " "@ + junk || ui.input == "/room "@ + "kick"@ + " "@ + junk,
    ensures
        ui.keyed(enter()).0.outbox == ui.outbox,
        ui.keyed(enter()).1,
{
    lemma_words();
    lemma_verbs();
    let verb = if ui.input == "/room "@ + "invite"@ + " "@ + junk { "invite"@ } else { "kick"@ };
    lemma_room_line(ui, verb, junk);
    lemma_junk(junk);
}

/// `/whois` tells how the endpoint that is selected is called, and by whom, with its
/// whole id.
pub proof fn law_endpoints_are_identified(ui: UiView, p: PeerView, room: state::RoomFace, a: Seq<char>, n: Seq<char>)
    requires
        !ui.help,
        ui.input == "/whois"@,
        ui.selected() == Some(p),
    ensures
        ({
            let told = ui.keyed(enter()).0.status;
            let hex = bytes::hex(p.key@);
            &&& p.room == Some(room) ==> told == "#"@ + room.name + " · "@ + text::decimal(room.members as nat)
                + " members · "@ + hex
            &&& p.room is None && p.alias == Some(a) && p.nick == Some(n) ==> told == a
                + " (your name; they call themselves "@ + n + ") · "@ + hex
            &&& p.room is None && p.alias == Some(a) && p.nick is None ==> told == a + " (your name) · "@ + hex
            &&& p.room is None && p.alias is None && p.nick == Some(n) ==> told == n
                + " — their claim, unverified; /name to set yours · "@ + hex
            &&& p.room is None && p.alias is None && p.nick is None ==> told == "no name yet · "@ + hex
        }),
{
    lemma_words();
    reveal_strlit("/whois");
    assert(ui.input =~= seq!['/'] + "whois"@);
    lemma_line(ui, "whois"@, Seq::empty());
}

/// `/peers` tells who is around, and that nobody is where nobody is.
pub proof fn law_the_peers_are_told(ui: UiView)
    requires
        !ui.help,
        ui.input == "/peers"@,
    ensures
        ui.keyed(enter()) == (
            UiView {
                input: Seq::empty(),
                caret: 0,
                status: if ui.peers.len() == 0 {
                    "no peers yet"@
                } else {
                    keys::roll(ui.peers)
                },
                ..ui
            },
            true,
        ),
{
    lemma_words();
    reveal_strlit("/peers");
    assert(ui.input =~= seq!['/'] + "peers"@);
    lemma_line(ui, "peers"@, Seq::empty());
}

/// A command that wants something and is given nothing tells how it is used, and
/// sends nothing.
pub proof fn law_usage_is_told(ui: UiView, cmd: Seq<char>)
    requires
        !ui.help,
        cmd == "nick"@ || cmd == "connect"@ || cmd == "send"@ || cmd == "room"@,
        ui.input == seq!['/'] + cmd,
    ensures
        ui.keyed(enter()) == (
            UiView {
                input: Seq::empty(),
                caret: 0,
                status: if cmd == "nick"@ {
                    "usage: /nick <name>"@
                } else if cmd == "connect"@ {
                    "usage: /connect <endpoint-id>"@
                } else if cmd == "send"@ {
                    "usage: /send <path>"@
                } else {
                    "usage: /room create <name> | invite <id> | kick <id>"@
                },
                ..ui
            },
            true,
        ),
{
    lemma_words();
    lemma_line(ui, cmd, Seq::empty());
    text::lemma_trimmed_already(Seq::empty());
    let none = Seq::<char>::empty();
    assert(vstd::utf8::encode_utf8(none).len() == 0);
    assert(keys::key_of(none) is None);
    lemma_run(none, none);
    assert(none + none =~= none);
    assert(keys::split_blank(none).0 == none);
}

} // verus!
