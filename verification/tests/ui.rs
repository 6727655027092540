//! The terminal UI: what keys, clicks and events make of it.

use unicode_width::UnicodeWidthStr;
use wicara::ui::keys::{inner, inside, KeyCode, KeyEvent, MouseEvent, MouseKind};
use wicara::ui::lines::mention_spans;
use wicara::ui::state::{
    short, Delivery, Entry, Focus, Rect, RoomCommand, RoomView, Ui, UiCommand, UiEvent,
};
use wicara::ui::text::{byte_at_column, first_line, human, progress_bar, wrap};
use wicara::wire::MessageId;

fn entry(id: MessageId, body: &str, outbound: bool) -> Entry {
    Entry {
        id,
        body: body.into(),
        outbound,
        deleted: false,
        reply_to: None,
        reactions: Vec::new(),
        attachment: None,
    }
}

fn id(sender: u8, seq: u64) -> MessageId {
    MessageId { sender: [sender; 32], seq, ts_ms: seq }
}

fn ui() -> Ui {
    Ui::new("mykey".into(), "me".into())
}

fn next(ui: &mut Ui) -> Option<UiCommand> {
    if ui.outbox.is_empty() {
        None
    } else {
        Some(ui.outbox.remove(0))
    }
}

fn press(ui: &mut Ui, c: char) -> bool {
    ui.on_key(KeyEvent::from(KeyCode::Char(c)))
}

fn line(ui: &mut Ui, text: &str) -> bool {
    for c in text.chars() {
        press(ui, c);
    }
    ui.on_key(KeyEvent::from(KeyCode::Enter))
}

#[test]
fn sizes_and_progress_read_sensibly() {
    assert_eq!(human(512), "512 B");
    assert_eq!(human(1024), "1.0 KiB");
    assert_eq!(human(1536), "1.5 KiB");
    assert_eq!(human(3 * 1024 * 1024), "3.0 MiB");
    assert!(progress_bar(0, 100).starts_with("[                    ]"));
    assert!(progress_bar(50, 100).starts_with("[==========          ]"));
    assert!(progress_bar(100, 100).starts_with("[====================]"));
    // A peer that lies about the size must not panic the renderer.
    assert!(progress_bar(200, 100).starts_with("[====================]"));
    assert!(progress_bar(5, 0).starts_with("["));
}

#[test]
fn sizes_round_as_floating_point_does() {
    let by_float = |bytes: u64| {
        let units = ["B", "KiB", "MiB", "GiB"];
        let mut size = bytes as f64;
        let mut unit = 0;
        while size >= 1024.0 && unit + 1 < units.len() {
            size /= 1024.0;
            unit += 1;
        }
        if unit == 0 {
            format!("{bytes} B")
        } else {
            format!("{size:.1} {}", units[unit])
        }
    };
    let mut n: u64 = 1;
    for i in 0..20_000u64 {
        n = n.wrapping_mul(6_364_136_223_846_793_005).wrapping_add(1_442_695_040_888_963_407);
        let bytes = n >> (i % 64);
        assert_eq!(human(bytes), by_float(bytes), "{bytes}");
    }
    for bytes in [0, 1023, 1024, 1075, 1076, 1126, 1127, 1_048_575, 1_048_576, u64::MAX, u64::MAX - 1] {
        assert_eq!(human(bytes), by_float(bytes), "{bytes}");
    }
    assert_eq!(human(u64::MAX), "17179869184.0 GiB");
}

#[test]
fn a_progress_bar_says_how_much_of_how_much() {
    assert_eq!(progress_bar(1536, 3 * 1024), "[==========          ] 1.5 KiB/3.0 KiB");
    assert_eq!(progress_bar(99, 100), "[=================== ] 99 B/100 B");
}

#[test]
fn wrapping_respects_width_and_splits_long_words() {
    assert_eq!(wrap("a b c", 5), vec!["a b c"]);
    assert_eq!(wrap("hello world", 5), vec!["hello", "world"]);
    assert_eq!(wrap("aaaaaaa", 3), vec!["aaa", "aaa", "a"]);
    assert_eq!(wrap("one\ntwo", 10), vec!["one", "two"]);
    assert!(wrap("日本語のテキスト", 6).iter().all(|l| l.width() <= 6));
    assert_eq!(first_line("a long line here", 6), "a long…");
}

#[test]
fn wrapping_keeps_every_character() {
    for (text, width) in [("the quick  brown\tfox\n\njumps over", 7), ("日本語 abc のテキスト", 4), ("", 3)] {
        let joined: String = wrap(text, width).concat();
        let ink = |s: &str| s.chars().filter(|c| !c.is_whitespace()).collect::<String>();
        assert_eq!(ink(&joined), ink(text));
    }
    assert_eq!(wrap("a\n\nb", 5), vec!["a", "", "b"]);
    assert_eq!(wrap("ab", 0), vec!["a", "b"]);
    assert_eq!(first_line("short", 9), "short");
    assert_eq!(first_line("first\nsecond", 20), "first");
}

#[test]
fn wrapped_lines_are_tidy_and_few() {
    assert_eq!(wrap("  a\u{a0}b \n \t\n\u{2003}c\u{3000}\u{85}d ", 9), vec!["a b", "", "c d"]);
    // What only looks blank is written.
    assert_eq!(wrap("a\u{200b}b", 9).len(), 1);
    for (text, width) in [("the quick brown fox jumps over the dog", 10), ("a bb ccc dddd ccc bb a", 7)] {
        let lines = wrap(text, width);
        assert!(lines.iter().all(|l| l.trim() == l && !l.is_empty()), "{lines:?}");
        // No word of a line would have fitted on the one before.
        for pair in lines.windows(2) {
            let word = pair[1].split(' ').next().unwrap();
            assert!(pair[0].width() + 1 + word.width() > width, "{lines:?}");
        }
    }
    // A word wider than the pane begins a line.
    assert_eq!(wrap("a bcdefg", 4), vec!["a", "bcde", "fg"]);
}

#[test]
fn nothing_is_said_in_a_room_that_was_left() {
    let mut ui = ui();
    let room = [1u8; 32];
    let view = |joined: bool| RoomView { name: "kitchen".into(), members: 1, joined };
    ui.apply(UiEvent::Room { id: room, view: view(false) });
    line(&mut ui, "hello?");
    assert_eq!(ui.status, "you are not in this room");
    assert_eq!(next(&mut ui), None);
    line(&mut ui, "/send a.txt");
    assert_eq!(ui.status, "you are not in this room");
    assert_eq!(next(&mut ui), None);

    ui.apply(UiEvent::Room { id: room, view: view(true) });
    line(&mut ui, "hello!");
    assert_eq!(
        next(&mut ui),
        Some(UiCommand::Send { peer: room, body: "hello!".into(), reply_to: None })
    );
}

#[test]
fn caret_edits_stay_on_char_boundaries() {
    let mut ui = ui();
    for c in "héllo".chars() {
        press(&mut ui, c);
    }
    assert_eq!(ui.input, "héllo");
    for _ in 0..3 {
        ui.on_key(KeyEvent::from(KeyCode::Left));
    }
    ui.on_key(KeyEvent::from(KeyCode::Backspace));
    assert_eq!(ui.input, "hllo");
    ui.on_key(KeyEvent::from(KeyCode::Home));
    ui.on_key(KeyEvent::from(KeyCode::Delete));
    assert_eq!(ui.input, "llo");
}

#[test]
fn backspace_undoes_typing_wherever_the_caret_is() {
    let mut ui = ui();
    for c in "日é!".chars() {
        press(&mut ui, c);
    }
    ui.on_key(KeyEvent::from(KeyCode::Left));
    assert_eq!(ui.caret, 5);
    press(&mut ui, '😂');
    assert_eq!((ui.input.as_str(), ui.caret), ("日é😂!", 9));
    ui.on_key(KeyEvent::from(KeyCode::Backspace));
    assert_eq!((ui.input.as_str(), ui.caret), ("日é!", 5));
    ui.on_key(KeyEvent::from(KeyCode::End));
    assert_eq!(ui.caret, 6);
    ui.on_key(KeyEvent::from(KeyCode::Right));
    assert_eq!(ui.caret, 6);
    ui.on_key(KeyEvent::from(KeyCode::Home));
    ui.on_key(KeyEvent::from(KeyCode::Right));
    assert_eq!(ui.caret, 3);
}

#[test]
fn ctrl_c_and_slash_quit_both_stop() {
    let mut ui = ui();
    assert!(!ui.on_key(KeyEvent { code: KeyCode::Char('c'), control: true, press: true }));
    assert_eq!(next(&mut ui), Some(UiCommand::Quit));

    for c in "/quit".chars() {
        press(&mut ui, c);
    }
    assert!(!ui.on_key(KeyEvent::from(KeyCode::Enter)));
    assert_eq!(next(&mut ui), Some(UiCommand::Quit));
}

#[test]
fn slash_commands_report_without_sending() {
    let mut ui = ui();
    ui.apply(UiEvent::Connected { peer: [7; 32], nick: "bob".into(), path: "direct".into() });
    for text in ["/whoami", "/peers", "/nope"] {
        for c in text.chars() {
            press(&mut ui, c);
        }
        assert!(ui.on_key(KeyEvent::from(KeyCode::Enter)));
    }
    assert!(ui.status.contains("unknown command /nope"));
    assert!(next(&mut ui).is_none(), "no network traffic from a report");

    for c in "/nick satya".chars() {
        press(&mut ui, c);
    }
    ui.on_key(KeyEvent::from(KeyCode::Enter));
    assert_eq!(next(&mut ui), Some(UiCommand::Nick("satya".into())));
    assert_eq!(ui.nickname, "satya");
}

#[test]
fn reply_edit_delete_and_react_key_off_the_cursor() {
    let mut ui = ui();
    let peer = [7u8; 32];
    let theirs = id(7, 1);
    let mine = id(1, 2);
    ui.apply(UiEvent::Log {
        peer,
        entries: vec![entry(theirs, "their message", false), entry(mine, "mine", true)],
    });
    ui.focus = Focus::Chat;

    // Cursor lands on the newest message, which is mine.
    press(&mut ui, 'd');
    assert_eq!(next(&mut ui), Some(UiCommand::Delete { peer, target: mine }));

    press(&mut ui, 'e');
    assert_eq!(ui.input, "mine");
    for c in " edited".chars() {
        press(&mut ui, c);
    }
    ui.on_key(KeyEvent::from(KeyCode::Enter));
    assert_eq!(
        next(&mut ui),
        Some(UiCommand::Edit { peer, target: mine, body: "mine edited".into() })
    );

    // Move up to theirs: editing and deleting are refused, replying is not.
    ui.focus = Focus::Chat;
    ui.on_key(KeyEvent::from(KeyCode::Up));
    press(&mut ui, 'e');
    assert!(ui.status.contains("only edit your own"));
    press(&mut ui, 'd');
    assert!(ui.status.contains("only delete your own"));
    assert!(next(&mut ui).is_none());

    press(&mut ui, 'r');
    for c in "sure".chars() {
        press(&mut ui, c);
    }
    ui.on_key(KeyEvent::from(KeyCode::Enter));
    assert_eq!(
        next(&mut ui),
        Some(UiCommand::Send { peer, body: "sure".into(), reply_to: Some(theirs) })
    );

    // Reacting toggles against what is already there.
    ui.focus = Focus::Chat;
    press(&mut ui, '1');
    assert_eq!(
        next(&mut ui),
        Some(UiCommand::React { peer, target: theirs, emoji: "👍".into(), on: true })
    );
    let mut reacted = entry(theirs, "their message", false);
    reacted.reactions = vec![("👍".into(), 1, true)];
    ui.apply(UiEvent::Log { peer, entries: vec![reacted, entry(mine, "mine", true)] });
    ui.focus = Focus::Chat;
    ui.on_key(KeyEvent::from(KeyCode::Up));
    press(&mut ui, '1');
    assert_eq!(
        next(&mut ui),
        Some(UiCommand::React { peer, target: theirs, emoji: "👍".into(), on: false })
    );
}

#[test]
fn the_five_reactions_are_on_the_digits() {
    let mut ui = ui();
    let peer = [7u8; 32];
    ui.apply(UiEvent::Log { peer, entries: vec![entry(id(7, 1), "x", false)] });
    ui.focus = Focus::Chat;
    for (c, expected) in [('1', "👍"), ('2', "❤️"), ('3', "😂"), ('4', "😮"), ('5', "😢")] {
        press(&mut ui, c);
        assert_eq!(
            next(&mut ui),
            Some(UiCommand::React { peer, target: id(7, 1), emoji: expected.into(), on: true })
        );
    }
    press(&mut ui, '6');
    press(&mut ui, '0');
    assert!(next(&mut ui).is_none());
}

#[test]
fn mentions_are_split_out_and_yours_looks_different() {
    let spans = mention_spans("hey @satya and @bob, look", "satya");
    let text: Vec<&str> = spans.iter().map(|s| s.content.as_ref()).collect();
    assert_eq!(text, vec!["hey ", "@satya", " and ", "@bob", ", look"]);
    assert_ne!(spans[1].style, spans[3].style, "your own mention stands out");
    assert_eq!(mention_spans("no mentions", "satya").len(), 1);
    assert_eq!(mention_spans("", "satya").len(), 0);
}

#[test]
fn mentions_keep_the_text() {
    for text in ["@", "@@", "a@b.c d", "@SATYA", "x @satya.", "no", "é@日本 語"] {
        let spans = mention_spans(text, "satya");
        assert_eq!(spans.iter().map(|s| s.content.as_str()).collect::<String>(), text);
    }
    let upper = mention_spans("@SATYA", "satya");
    assert_eq!(upper[0].style, mention_spans("@satya", "satya")[0].style, "case does not matter");
}

#[test]
fn clicks_land_on_whatever_was_drawn_under_them() {
    let mut ui = ui();
    ui.apply(UiEvent::Known { peer: [1; 32], nick: Some("one".into()), alias: None });
    ui.apply(UiEvent::Known { peer: [2; 32], nick: Some("two".into()), alias: None });
    // Pretend a frame was drawn: 20-wide sidebar, chat beside it, input below.
    ui.peers_area = Rect { x: 0, y: 0, width: 20, height: 10 };
    ui.chat_area = Rect { x: 20, y: 0, width: 40, height: 10 };
    ui.input_area = Rect { x: 0, y: 10, width: 60, height: 3 };
    ui.chat_rows = vec![usize::MAX, 0, 1];

    let click = |x, y| MouseEvent { kind: MouseKind::Left, column: x, row: y };

    // Second row of the peer list is the second peer.
    ui.on_mouse(click(3, 2));
    assert_eq!(ui.focus, Focus::Peers);
    assert_eq!(ui.sel, 1);

    // A click past the last peer moves focus but selects nothing new.
    ui.on_mouse(click(3, 8));
    assert_eq!(ui.sel, 1);

    // The input bar takes the caret to the character under the pointer.
    ui.on_mouse(click(1, 11));
    assert_eq!(ui.focus, Focus::Input);
    for c in "hello".chars() {
        press(&mut ui, c);
    }
    assert_eq!(ui.caret, 5);
    ui.on_mouse(click(3, 11));
    assert_eq!(ui.caret, 2, "caret follows the pointer");

    // Padding rows in the chat pane are not messages.
    ui.on_mouse(click(25, 1));
    assert_eq!(ui.focus, Focus::Chat);

    // Scrolling over the chat pane scrolls; elsewhere it changes peer.
    let wheel = |kind, x, y| MouseEvent { kind, column: x, row: y };
    ui.on_mouse(wheel(MouseKind::ScrollUp, 25, 5));
    assert_eq!(ui.scroll, 3);
    ui.on_mouse(wheel(MouseKind::ScrollDown, 25, 5));
    assert_eq!(ui.scroll, 0);
    let before = ui.sel;
    ui.on_mouse(wheel(MouseKind::ScrollDown, 3, 3));
    assert_ne!(ui.sel, before, "wheel over the sidebar changes conversation");
}

#[test]
fn a_click_on_a_message_takes_the_cursor_there() {
    let mut ui = ui();
    ui.apply(UiEvent::Log {
        peer: [7; 32],
        entries: vec![entry(id(7, 1), "a", false), entry(id(7, 2), "b", false)],
    });
    ui.chat_area = Rect { x: 20, y: 0, width: 40, height: 10 };
    ui.chat_rows = vec![usize::MAX, 0, 1, 9];
    assert_eq!(ui.peers[0].cursor, 1);
    ui.on_mouse(MouseEvent { kind: MouseKind::Left, column: 25, row: 2 });
    assert_eq!(ui.peers[0].cursor, 0);
    ui.on_mouse(MouseEvent { kind: MouseKind::Left, column: 25, row: 1 });
    assert_eq!(ui.peers[0].cursor, 0, "a padding row is no message");
    ui.on_mouse(MouseEvent { kind: MouseKind::Left, column: 25, row: 4 });
    assert_eq!(ui.peers[0].cursor, 1, "the cursor stays on a message");
    assert_eq!(inner(Rect { x: 20, y: 0, width: 40, height: 10 }), Rect { x: 21, y: 1, width: 38, height: 8 });
    assert_eq!(inner(Rect { x: u16::MAX, y: 4, width: 1, height: 0 }), Rect { x: u16::MAX, y: 5, width: 0, height: 0 });
    let area = Rect { x: 2, y: 3, width: 4, height: 1 };
    assert!(inside(area, 2, 3) && inside(area, 5, 3));
    assert!(!inside(area, 1, 3) && !inside(area, 6, 3) && !inside(area, 2, 2) && !inside(area, 2, 4));
}

#[test]
fn byte_at_column_respects_wide_characters() {
    assert_eq!(byte_at_column("hello", 0), 0);
    assert_eq!(byte_at_column("hello", 3), 3);
    assert_eq!(byte_at_column("hello", 99), 5);
    // 'é' is two bytes, one column.
    assert_eq!(byte_at_column("héllo", 2), 3);
    // CJK is one char, two columns.
    assert_eq!(byte_at_column("日本", 2), 3);
    // Either half of it is the character.
    assert_eq!(byte_at_column("日本", 0), 0);
    assert_eq!(byte_at_column("日本", 1), 0);
    assert_eq!(byte_at_column("日本", 3), 3);
    assert_eq!(byte_at_column("日本", 4), 6);
    assert_eq!(byte_at_column("", 0), 0);
}

#[test]
fn mouse_toggle_flips_and_reports() {
    let mut ui = ui();
    assert!(ui.mouse, "clicking works out of the box");
    for c in "/mouse".chars() {
        press(&mut ui, c);
    }
    ui.on_key(KeyEvent::from(KeyCode::Enter));
    assert!(!ui.mouse && ui.status.contains("select and copy"));
    for c in "/mouse".chars() {
        press(&mut ui, c);
    }
    ui.on_key(KeyEvent::from(KeyCode::Enter));
    assert!(ui.mouse);
}

#[test]
fn shift_tab_cycles_the_other_way() {
    let mut ui = ui();
    assert_eq!(ui.focus, Focus::Input);
    ui.on_key(KeyEvent::from(KeyCode::BackTab));
    assert_eq!(ui.focus, Focus::Chat);
    ui.on_key(KeyEvent::from(KeyCode::BackTab));
    assert_eq!(ui.focus, Focus::Peers);
    ui.on_key(KeyEvent::from(KeyCode::Tab));
    assert_eq!(ui.focus, Focus::Chat);
}

#[test]
fn forget_asks_before_it_deletes() {
    let mut ui = ui();
    let peer = [7u8; 32];
    ui.apply(UiEvent::Known { peer, nick: Some("bob".into()), alias: None });

    // A bare /forget only warns.
    for c in "/forget".chars() {
        press(&mut ui, c);
    }
    ui.on_key(KeyEvent::from(KeyCode::Enter));
    assert_eq!(
        next(&mut ui),
        Some(UiCommand::Forget { peer, confirm: false }),
        "a bare /forget only asks"
    );
    assert_eq!(ui.peers.len(), 1);

    // Confirming does.
    for c in "/forget yes".chars() {
        press(&mut ui, c);
    }
    ui.on_key(KeyEvent::from(KeyCode::Enter));
    assert_eq!(next(&mut ui), Some(UiCommand::Forget { peer, confirm: true }));

    // The peer only leaves the list when the store says it is gone.
    assert_eq!(ui.peers.len(), 1);
    ui.apply(UiEvent::Forgotten { peer });
    assert!(ui.peers.is_empty());
    assert_eq!(ui.sel, 0, "selection must not dangle past the end");
}

#[test]
fn forgetting_keeps_the_peer_index_consistent() {
    let mut ui = ui();
    for n in [1u8, 2, 3] {
        ui.apply(UiEvent::Known { peer: [n; 32], nick: None, alias: None });
    }
    ui.sel = 2;
    ui.apply(UiEvent::Forgotten { peer: [1; 32] });
    assert_eq!(ui.peers.len(), 2);
    // The survivors keep working: a log for the last one must still land.
    ui.apply(UiEvent::Log { peer: [3; 32], entries: vec![entry(id(3, 1), "still here", false)] });
    let three = ui.peers.iter().find(|p| p.key == [3u8; 32]).unwrap();
    assert_eq!(three.log.len(), 1, "index rebuilt correctly after removal");
}

#[test]
fn a_name_you_chose_outranks_the_one_they_claim() {
    let mut ui = ui();
    let peer = [7u8; 32];

    // Nothing known: fall back to the key, which is at least true.
    ui.apply(UiEvent::Known { peer, nick: None, alias: None });
    assert_eq!(ui.peers[0].label(), short(&peer));
    assert!(ui.peers[0].named(), "a key is not a claim");

    // They introduce themselves. That is a claim, not a fact.
    ui.apply(UiEvent::Known { peer, nick: Some("bob".into()), alias: None });
    assert_eq!(ui.peers[0].label(), "bob");
    assert!(!ui.peers[0].named(), "an unverified name must be marked");

    // You name them. Yours wins, and the display is trusted again.
    for c in "/name Bob from work".chars() {
        press(&mut ui, c);
    }
    ui.on_key(KeyEvent::from(KeyCode::Enter));
    assert_eq!(next(&mut ui), Some(UiCommand::Name { peer, alias: Some("Bob from work".into()) }));
    assert_eq!(ui.peers[0].label(), "Bob from work");
    assert!(ui.peers[0].named());

    // An impostor cannot take the name over by claiming it.
    ui.apply(UiEvent::Known {
        peer,
        nick: Some("Bob from work".into()),
        alias: Some("Bob from work".into()),
    });
    assert_eq!(ui.peers[0].label(), "Bob from work");

    // whois always shows the key, which is the part that means something.
    for c in "/whois".chars() {
        press(&mut ui, c);
    }
    ui.on_key(KeyEvent::from(KeyCode::Enter));
    assert!(ui.status.contains(&"07".repeat(32)), "{}", ui.status);

    // Bare /name forgets it and the claim goes back to being a claim.
    for c in "/name".chars() {
        press(&mut ui, c);
    }
    ui.on_key(KeyEvent::from(KeyCode::Enter));
    assert_eq!(next(&mut ui), Some(UiCommand::Name { peer, alias: None }));
    assert!(!ui.peers[0].named());
}

#[test]
fn connect_takes_an_endpoint_id_and_rejects_junk() {
    let mut ui = ui();
    let peer = [9u8; 32];
    for c in format!("/connect {}", data_encoding::HEXLOWER.encode(&peer)).chars() {
        press(&mut ui, c);
    }
    ui.on_key(KeyEvent::from(KeyCode::Enter));
    assert_eq!(next(&mut ui), Some(UiCommand::Connect(peer)));

    for text in ["/connect", "/connect nonsense", "/connect abcd"] {
        for c in text.chars() {
            press(&mut ui, c);
        }
        ui.on_key(KeyEvent::from(KeyCode::Enter));
        assert!(ui.status.contains("usage: /connect"), "{text}");
        assert!(next(&mut ui).is_none(), "{text} must not dial");
    }
}

#[test]
fn room_commands_need_a_room_selected() {
    let mut ui = ui();
    let member = [7u8; 32];
    let member_hex = data_encoding::HEXLOWER.encode(&member);

    for c in "/room create kitchen".chars() {
        press(&mut ui, c);
    }
    ui.on_key(KeyEvent::from(KeyCode::Enter));
    assert_eq!(next(&mut ui), Some(UiCommand::Room(RoomCommand::Create("kitchen".into()))));

    // Invite with a person selected, not a room.
    ui.apply(UiEvent::Known { peer: member, nick: None, alias: None });
    for c in format!("/room invite {member_hex}").chars() {
        press(&mut ui, c);
    }
    ui.on_key(KeyEvent::from(KeyCode::Enter));
    assert!(ui.status.contains("select a room first"));
    assert!(next(&mut ui).is_none());

    // Now with the room selected.
    let room = [1u8; 32];
    ui.apply(UiEvent::Room {
        id: room,
        view: RoomView { name: "kitchen".into(), members: 1, joined: true },
    });
    ui.sel = 1;
    for c in format!("/room kick {member_hex}").chars() {
        press(&mut ui, c);
    }
    ui.on_key(KeyEvent::from(KeyCode::Enter));
    assert_eq!(next(&mut ui), Some(UiCommand::Room(RoomCommand::Kick { room, member })));
}

#[test]
fn escape_abandons_a_pending_edit() {
    let mut ui = ui();
    ui.apply(UiEvent::Log { peer: [7; 32], entries: vec![entry(id(1, 1), "mine", true)] });
    ui.focus = Focus::Chat;
    press(&mut ui, 'e');
    assert!(ui.pending.is_some());
    ui.on_key(KeyEvent::from(KeyCode::Esc));
    assert!(ui.pending.is_none() && ui.input.is_empty());
    ui.on_key(KeyEvent::from(KeyCode::Enter));
    assert!(next(&mut ui).is_none());
}

#[test]
fn every_command_says_or_sends_what_it_should() {
    let mut ui = ui();
    for (text, status) in [
        ("/peers", "no peers yet"),
        ("/nick", "usage: /nick <name>"),
        ("/name x", "select a peer first"),
        ("/whois", "select a peer first"),
        ("/leave", "select a room first"),
        ("/forget", "select a conversation first"),
        ("/clear", "select a conversation first"),
        ("/send a.txt", "select a peer first"),
        ("/send", "usage: /send <path>"),
        ("/room", "usage: /room create <name> | invite <id> | kick <id>"),
        ("/room create", "usage: /room create <name> | invite <id> | kick <id>"),
        ("/room kick x", "select a room first"),
        ("hello", "no peer selected — nothing to send to"),
    ] {
        assert!(line(&mut ui, text));
        assert_eq!(ui.status, status, "{text}");
    }
    assert!(next(&mut ui).is_none());

    let peer = [7u8; 32];
    ui.apply(UiEvent::Connected { peer, nick: "bob".into(), path: "direct".into() });
    line(&mut ui, "/peers");
    assert_eq!(ui.status, "●bob");
    line(&mut ui, "/leave");
    assert_eq!(ui.status, "/leave is for rooms — use /forget for a peer");
    line(&mut ui, "/room kick 07");
    assert_eq!(ui.status, "select a room first — invite and kick act on it");
    line(&mut ui, "/whois");
    assert_eq!(
        ui.status,
        format!("bob — their claim, unverified; /name to set yours · {}", "07".repeat(32))
    );
    line(&mut ui, "/clear yes");
    assert_eq!(next(&mut ui), Some(UiCommand::Clear { peer, confirm: true }));
    line(&mut ui, "/wipe");
    assert_eq!(next(&mut ui), Some(UiCommand::Wipe { confirm: false }));
    line(&mut ui, "/send  notes.txt ");
    assert_eq!(next(&mut ui), Some(UiCommand::SendFile { peer, path: "notes.txt".into() }));
    line(&mut ui, "  hello  there ");
    assert_eq!(
        next(&mut ui),
        Some(UiCommand::Send { peer, body: "hello  there".into(), reply_to: None })
    );
    let room = [1u8; 32];
    ui.apply(UiEvent::Room { id: room, view: RoomView { name: "kitchen".into(), members: 2, joined: true } });
    ui.sel = 1;
    line(&mut ui, "/name x");
    assert_eq!(ui.status, "rooms are named by whoever created them");
    line(&mut ui, "/leave");
    assert_eq!(next(&mut ui), Some(UiCommand::Room(RoomCommand::Leave { room })));
    line(&mut ui, "/whois");
    assert_eq!(ui.status, format!("#kitchen · 2 members · {}", "01".repeat(32)));
    line(&mut ui, "/room invite zz");
    assert_eq!(ui.status, "usage: /room invite <endpoint-id>");
    line(&mut ui, "/peers");
    assert_eq!(ui.status, "●bob  ○#kitchen");
}

#[test]
fn the_clipboard_takes_the_key_in_base64() {
    let mut ui = ui();
    line(&mut ui, "/whoami");
    assert_eq!(ui.status, "me — mykey (copied)");
    assert_eq!(ui.clipboard, vec!["\x1b]52;c;bXlrZXk=\x07"]);
    for (me, encoded) in [("", ""), ("~", "fg=="), ("~?é", "fj/DqQ=="), ("~~~", "fn5+")] {
        let mut ui = Ui::new(me.into(), "me".into());
        line(&mut ui, "/whoami");
        assert_eq!(ui.clipboard, vec![format!("\x1b]52;c;{encoded}\x07")]);
    }
}

#[test]
fn a_click_on_a_scrolled_line_finds_what_is_drawn_there() {
    let mut ui = ui();
    ui.input_area = Rect { x: 0, y: 10, width: 12, height: 3 };
    for c in "abcdefghijklmnopqrst".chars() {
        press(&mut ui, c);
    }
    // Ten columns show the last nine letters and the caret.
    assert_eq!(ui.draw_input(ui.input_area).offset, 11);
    let click = |column: u16| MouseEvent { kind: MouseKind::Left, column, row: 11 };
    ui.on_mouse(click(1));
    assert_eq!(ui.caret, 11);
    // With the caret there the line is scrolled less.
    assert_eq!(ui.draw_input(ui.input_area).offset, 2);
    ui.on_mouse(click(4));
    assert_eq!(ui.caret, 5);
    assert_eq!(ui.draw_input(ui.input_area).offset, 0);
    ui.on_mouse(click(4));
    assert_eq!(ui.caret, 3);
}

#[test]
fn help_goes_away_with_the_next_key() {
    let mut ui = ui();
    line(&mut ui, "/help");
    assert!(ui.help);
    ui.on_key(KeyEvent { code: KeyCode::Tab, control: false, press: false });
    assert!(ui.help, "a key coming up is no key");
    ui.on_key(KeyEvent::from(KeyCode::Tab));
    assert!(!ui.help);
    assert_eq!(ui.focus, Focus::Input, "the key that dismissed it did nothing else");
    line(&mut ui, "/help");
    press(&mut ui, 'x');
    assert!(!ui.help);
    assert_eq!((ui.input.as_str(), ui.caret), ("", 0), "nor did a character");
    press(&mut ui, 'x');
    assert_eq!(ui.input, "x");
}

#[test]
fn events_move_the_cursor_and_count_what_is_unread() {
    let mut ui = ui();
    let (a, b) = ([1u8; 32], [2u8; 32]);
    ui.apply(UiEvent::Known { peer: a, nick: None, alias: None });
    ui.apply(UiEvent::Log { peer: b, entries: vec![entry(id(2, 1), "x", false)] });
    assert_eq!((ui.peers[1].unread, ui.peers[1].unread_from), (1, Some(0)));
    ui.apply(UiEvent::Log {
        peer: b,
        entries: vec![entry(id(2, 1), "x", false), entry(id(2, 2), "y", false)],
    });
    assert_eq!((ui.peers[1].unread, ui.peers[1].unread_from, ui.peers[1].cursor), (2, Some(0), 1));
    ui.focus = Focus::Peers;
    ui.on_key(KeyEvent::from(KeyCode::Down));
    assert_eq!((ui.sel, ui.peers[1].unread, ui.peers[1].unread_from), (1, 0, None));
    ui.on_key(KeyEvent::from(KeyCode::Down));
    assert_eq!(ui.sel, 0, "the last is followed by the first");
    ui.on_key(KeyEvent::from(KeyCode::Up));
    assert_eq!(ui.sel, 1);
    ui.apply(UiEvent::Disconnected { peer: b });
    assert!(!ui.peers[1].online && ui.peers[1].path.is_empty());
    assert_eq!(ui.peers[1].subtitle(), "offline");
    ui.apply(UiEvent::Path { peer: b, path: "relayed".into() });
    assert_eq!(ui.peers[1].subtitle(), "relayed");
    ui.apply(UiEvent::Status("hello".into()));
    assert_eq!(ui.status, "hello");
    ui.apply(UiEvent::Wiped);
    assert!(ui.peers.is_empty() && ui.sel == 0);
}

#[test]
fn a_fan_out_shows_its_worst_outcome() {
    let mut ui = ui();
    let m = id(1, 1);
    ui.apply(UiEvent::Delivery { id: m, state: Delivery::Mailbox });
    ui.apply(UiEvent::Delivery { id: m, state: Delivery::Wire });
    assert_eq!(ui.delivery.get(&m), Some(&Delivery::Mailbox));
    ui.apply(UiEvent::Delivery { id: m, state: Delivery::Failed });
    assert_eq!(ui.delivery.get(&m), Some(&Delivery::Failed));
    ui.apply(UiEvent::Transfer { id: m, done: 1, total: 2 });
    assert_eq!(ui.transfers.get(&m), Some(&(1, 2)));
    ui.apply(UiEvent::Transfer { id: m, done: 2, total: 2 });
    assert_eq!(ui.transfers.get(&m), None);
}
