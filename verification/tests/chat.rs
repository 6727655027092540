//! What the panes show.

use wicara::ui::chat::{Pane, Stamp};
use wicara::ui::dates::{clock, clock_at, day, day_at, day_label};
use wicara::ui::lines::{Bubble, Color, Line, Style};
use wicara::ui::panes::draw_help;
use wicara::ui::state::{Attach, Delivery, Entry, Focus, Pending, Rect, RoomView, Ui, UiEvent};
use wicara::ui::text::rule;
use wicara::wire::MessageId;

fn text(line: &Line) -> String {
    line.spans.iter().map(|s| s.content.as_str()).collect()
}

fn texts(pane: &Pane) -> Vec<String> {
    pane.lines.iter().map(text).collect()
}

fn id(sender: u8, seq: u64, ts_ms: u64) -> MessageId {
    MessageId { sender: [sender; 32], seq, ts_ms }
}

fn entry(id: MessageId, body: &str, outbound: bool) -> Entry {
    Entry {
        id,
        body: body.into(),
        outbound,
        deleted: false,
        reply_to: None,
        reactions: Vec::new(),
        attachment: None,
    }
}

fn stamp(clock: &str, day: i32) -> Stamp {
    Stamp { clock: clock.into(), day: Some(day) }
}

fn area(width: u16, height: u16) -> Rect {
    Rect { x: 0, y: 0, width, height }
}

fn with_log(entries: Vec<Entry>) -> Ui {
    let mut ui = Ui::new("mykey".into(), "me".into());
    ui.apply(UiEvent::Known { peer: [7; 32], nick: None, alias: Some("bob".into()) });
    ui.apply(UiEvent::Log { peer: [7; 32], entries });
    ui
}

const TODAY: i32 = 739_000;

#[test]
fn a_narrow_pane_is_compact() {
    let mut ui = with_log(vec![
        entry(id(7, 1, 0), "hello @me there", false),
        entry(id(7, 2, 1000), "again", false),
        entry(id(1, 1, 400_000), "yes", true),
    ]);
    ui.apply(UiEvent::Delivery { id: id(1, 1, 400_000), state: Delivery::Mailbox });
    let stamps = vec![stamp("09:00", TODAY), stamp("09:00", TODAY), stamp("09:06", TODAY)];
    let pane = ui.chat_pane(area(32, 8), &stamps, TODAY);
    assert_eq!(
        texts(&pane),
        vec![
            "",
            "",
            "─────────── today ───────────",
            "09:00 bob: hello @me there",
            "           again",
            "09:06 me: yes ✉",
        ]
    );
    assert_eq!(ui.chat_rows, vec![usize::MAX, usize::MAX, usize::MAX, 0, 1, 2]);
    assert_eq!(pane.title, "bob — offline");
    assert!(!pane.focused);
    let mention = &pane.lines[3].spans[3];
    assert_eq!((mention.content.as_str(), mention.style.bg), ("@me", Some(Color::Yellow)));
    assert_eq!(pane.lines[5].spans.last().unwrap().style, Style::of(Color::Yellow));
}

#[test]
fn a_wide_pane_has_bubbles() {
    let mut ui = with_log(vec![entry(id(7, 1, 0), "hi", false), entry(id(1, 1, 10), "yo", true)]);
    ui.apply(UiEvent::Delivery { id: id(1, 1, 10), state: Delivery::Wire });
    let stamps = vec![stamp("09:00", TODAY - 1), stamp("09:00", TODAY - 1)];
    let pane = ui.chat_pane(area(52, 14), &stamps, TODAY);
    let blank = " ".repeat(40);
    assert_eq!(
        texts(&pane)[2..].to_vec(),
        vec![
            rule("yesterday", 50),
            "bob".to_string(),
            "╭───────╮".to_string(),
            "│ hi    │".to_string(),
            "╰───────╯".to_string(),
            " 09:00".to_string(),
            format!("{blank}╭───────╮"),
            format!("{blank}│ yo    │"),
            format!("{blank}╰───────╯"),
            format!("{:>46} →", "09:00"),
        ]
    );
}

#[test]
fn a_bubble_can_hold_a_quote() {
    let bubble = Bubble {
        body: vec!["yes".into()],
        quoted: Some("┆ really".into()),
        name: None,
        meta: "09:00".into(),
        colour: Color::Cyan,
        mine: true,
        pane: 20,
        style: Style::new(),
        marker: Some(("✉".into(), Color::Yellow)),
    };
    let mut out = Vec::new();
    bubble.render(&mut out);
    assert_eq!(
        out.iter().map(text).collect::<Vec<_>>(),
        vec![
            "       ╭──────────╮",
            "       │ ┆ really │",
            "       │ yes      │",
            "       ╰──────────╯",
            "           09:00 ✉",
        ]
    );
}

#[test]
fn replies_reactions_files_and_deletes_are_drawn() {
    let mut reply = entry(id(1, 1, 10), "sure", true);
    reply.reply_to = Some(id(7, 1, 0));
    reply.reactions = vec![("👍".into(), 2, true), ("😂".into(), 1, false)];
    let mut lost = entry(id(1, 2, 20), "what?", true);
    lost.reply_to = Some(id(9, 9, 9));
    let mut gone = entry(id(7, 2, 30), "", false);
    gone.deleted = true;
    let mut to_gone = entry(id(1, 3, 40), "oh", true);
    to_gone.reply_to = Some(id(7, 2, 30));
    let mut file = entry(id(7, 3, 50), "", false);
    file.attachment = Some(Attach { name: "a.txt".into(), size: 2048, hash: [0xab; 32], path: None });
    let mut saved = entry(id(7, 4, 60), "", false);
    saved.attachment =
        Some(Attach { name: "b.txt".into(), size: 1, hash: [1; 32], path: Some("/tmp/b".into()) });
    let log = vec![entry(id(7, 1, 0), "coming?\nor not", false), reply, lost, gone, to_gone, file, saved];
    let mut ui = with_log(log);
    let stamps: Vec<Stamp> = (0..7).map(|_| Stamp { clock: "--:--".into(), day: None }).collect();
    let pane = ui.chat_pane(area(40, 19), &stamps, TODAY);
    assert_eq!(
        texts(&pane),
        vec![
            "",
            "",
            "",
            "--:-- bob: coming?",
            "           or not",
            "  ┆ coming?",
            "--:-- me: sure",
            "  [👍 2] 😂 1",
            "  ┆ (message not here)",
            "          what?",
            "--:-- bob: (deleted)",
            "  ┆ (deleted)",
            "--:-- me: oh",
            "--:-- bob: 📎 a.txt · 2.0 KiB · blake3 abababab",
            "           waiting for the bytes",
            "           📎 b.txt · 1 B · blake3 01010101",
            "           saved to /tmp/b",
        ]
    );
    ui.apply(UiEvent::Transfer { id: id(7, 3, 50), done: 1024, total: 2048 });
    let pane = ui.chat_pane(area(80, 60), &stamps, TODAY);
    assert!(texts(&pane).iter().any(|l| l.contains("[==========          ] 1.0 KiB/2.0 KiB")));
}

#[test]
fn the_cursor_is_kept_on_screen_and_shown_in_reverse() {
    let log: Vec<Entry> = (0..10).map(|n| entry(id(7, n, n), &format!("line {n}"), false)).collect();
    let mut ui = with_log(log);
    let stamps: Vec<Stamp> = (0..10).map(|_| stamp("09:00", TODAY)).collect();
    ui.focus = Focus::Chat;
    ui.peers[0].cursor = 1;
    let pane = ui.chat_pane(area(30, 6), &stamps, TODAY);
    assert!(texts(&pane)[0].contains("line 1"));
    assert_eq!(pane.lines.iter().map(|l| l.reversed).collect::<Vec<_>>(), vec![true, false, false, false]);
    assert_eq!(ui.scroll, 5);
    assert!(pane.focused && pane.title.ends_with("  ↑5 scrolled back"));
    assert_eq!(ui.chat_rows, vec![1, 2, 3, 4]);
    ui.peers[0].cursor = 9;
    let pane = ui.chat_pane(area(30, 6), &stamps, TODAY);
    assert!(texts(&pane)[3].contains("line 9"));
    assert_eq!(ui.scroll, 0);
    // Without the focus the pane stays where it is scrolled to, as far as there
    // are lines.
    ui.focus = Focus::Input;
    ui.scroll = 99;
    ui.chat_pane(area(30, 6), &stamps, TODAY);
    assert_eq!(ui.scroll, 7);
}

#[test]
fn what_is_unread_is_marked_and_a_claim_is_too() {
    let mut ui = Ui::new("mykey".into(), "me".into());
    ui.apply(UiEvent::Known { peer: [1; 32], nick: None, alias: None });
    ui.apply(UiEvent::Connected { peer: [7; 32], nick: "bob".into(), path: "direct".into() });
    ui.apply(UiEvent::Log { peer: [7; 32], entries: vec![entry(id(7, 1, 0), "a", false)] });
    ui.sel = 1;
    let stamps = vec![stamp("09:00", TODAY)];
    let pane = ui.chat_pane(area(22, 6), &stamps, TODAY);
    assert_eq!(
        texts(&pane)[1..].to_vec(),
        vec![rule("today", 20), rule("new", 20), "09:00 bob: a".to_string()]
    );
    assert_eq!(pane.title, "bob? — unverified name — direct");

    let sidebar = ui.draw_peers();
    assert_eq!(texts(&sidebar), vec!["○ 0101010101", "● bob? (1)"]);
    assert_eq!(sidebar.title, "peers");
    ui.apply(UiEvent::Room { id: [2; 32], view: RoomView { name: "kitchen".into(), members: 2, joined: false } });
    let sidebar = ui.draw_peers();
    assert_eq!(text(&sidebar.lines[2]), "# #kitchen");
    assert_eq!(sidebar.lines[2].spans[0].style, Style::of(Color::DarkGray));
    assert_eq!(ui.peers[2].subtitle(), "you are not in this room");
}

#[test]
fn the_input_line_scrolls_with_the_caret() {
    let mut ui = Ui::new("mykey".into(), "me".into());
    let pane = ui.draw_input(Rect { x: 3, y: 10, width: 12, height: 3 });
    assert_eq!((pane.title.as_str(), pane.offset, pane.cursor), ("message", 0, Some((4, 11))));
    ui.input = "0123456789abc".into();
    ui.caret = 13;
    let pane = ui.draw_input(Rect { x: 3, y: 10, width: 12, height: 3 });
    assert_eq!((pane.offset, pane.cursor), (4, Some((13, 11))));
    ui.focus = Focus::Chat;
    ui.pending = Some(Pending::Reply(id(9, 42, 1)));
    let pane = ui.draw_input(Rect { x: 3, y: 10, width: 12, height: 3 });
    assert_eq!((pane.title.as_str(), pane.cursor, pane.focused), ("reply to 09090909-42 — esc cancels", None, false));
    ui.pending = Some(Pending::Edit(id(9, 42, 1)));
    assert_eq!(ui.draw_input(area(9, 3)).title, "edit 09090909-42 — esc cancels");
}

#[test]
fn the_other_panes_say_what_they_should() {
    let mut ui = Ui::new("mykey".into(), "me".into());
    assert_eq!(text(&ui.status_line()), " me  mykey  waiting for peers  tab · enter · /help · ^c quit");
    ui.focus = Focus::Chat;
    assert_eq!(ui.hints(), "  ↑↓ pick · r reply · e edit · d delete · 1-5 react");
    let pane = ui.draw_chat(area(40, 10));
    assert_eq!(texts(&pane)[0], "No conversations yet.");
    assert_eq!((pane.lines.len(), pane.title.as_str(), pane.focused), (5, "chat", true));
    ui.help = true;
    assert_eq!(ui.draw_chat(area(40, 10)), draw_help());
    let help = draw_help();
    assert_eq!(help.lines.len(), 22);
    assert_eq!(texts(&help)[5], "");
    assert_eq!(texts(&help)[4], "  esc                 abandon a pending reply or edit");
    ui.place(area(1, 2), area(3, 4), area(5, 6));
    assert_eq!((ui.peers_area, ui.chat_area, ui.input_area), (area(1, 2), area(3, 4), area(5, 6)));
}

#[test]
fn days_are_called_by_their_distance() {
    assert_eq!(day_label(TODAY, TODAY), "today");
    assert_eq!(day_label(TODAY - 1, TODAY), "yesterday");
    // The first day of the Unix epoch was a Thursday.
    assert_eq!(day_label(719_163, 719_163 + 2), "Thursday");
    assert_eq!(day_label(719_163 - 4, 719_163 + 2), "Sunday");
    assert_eq!(day_label(719_163, 719_163 + 7), "Thursday, 1 January");
    assert_eq!(day_label(719_163 + 9, 719_163 + 20), "Saturday, 10 January");
    assert_eq!(day_label(719_164, 719_163), "Friday, 2 January");
    // Leap years, with and without the exception for centuries.
    assert_eq!(day_label(730_179, TODAY), "Tuesday, 29 February");
    assert_eq!(day_label(693_654, TODAY), "Wednesday, 28 February");
    assert_eq!(day_label(693_655, TODAY), "Thursday, 1 March");
    // Before the year 1.
    assert_eq!(day_label(0, TODAY), "Sunday, 31 December");
    assert_eq!(day_label(-306, TODAY), "Tuesday, 29 February");
}

#[test]
fn clock_and_day_are_told_in_a_zone() {
    // A quarter past ten at night at Greenwich, on the fourteenth.
    let (ts, d) = (1_700_000_000_000u64, 719_163 + 19_675);
    assert_eq!((clock_at(ts, Some(0)), day_at(ts, Some(0))), ("22:13".to_string(), Some(d)));
    assert_eq!((clock_at(ts, Some(7 * 3600)), day_at(ts, Some(7 * 3600))), ("05:13".to_string(), Some(d + 1)));
    assert_eq!((clock_at(ts, Some(-86_399)), day_at(ts, Some(-86_399))), ("22:13".to_string(), Some(d - 1)));
    assert_eq!((clock_at(ts, None), day_at(ts, None)), ("--:--".to_string(), None));
    // A moment before the epoch.
    assert_eq!((clock_at(u64::MAX, Some(0)), day_at(u64::MAX, Some(0))), ("23:59".to_string(), Some(719_162)));
    // The zone leads out of the calendar.
    assert_eq!(day_at(8_210_266_876_799_999, Some(0)), Some(95_745_399));
    assert_eq!(day_at(8_210_266_876_799_999, Some(1)), None);
    assert_eq!(clock_at(8_210_266_876_799_999, Some(1)), "00:00");
    // The machine's own zone.
    for ts in [0u64, 1_700_000_000_000, 951_782_400_000, -1_000_000_000_000i64 as u64] {
        let t = chrono::DateTime::from_timestamp_millis(ts as i64).unwrap().with_timezone(&chrono::Local);
        assert_eq!(clock(ts), t.format("%H:%M").to_string());
        assert_eq!(day(ts), Some(chrono::Datelike::num_days_from_ce(&t.date_naive())));
    }
}

#[test]
fn clocks_read_as_clocks() {
    let s = clock(1_700_000_000_000);
    let parts: Vec<&str> = s.split(':').collect();
    assert!(parts.len() == 2 && parts.iter().all(|p| p.len() == 2));
    assert!(parts[0].parse::<u8>().unwrap() < 24 && parts[1].parse::<u8>().unwrap() < 60);
    let d = day(1_700_000_000_000).unwrap();
    assert!((719_163 + 19_675 - 1..=719_163 + 19_675 + 1).contains(&d));
    // Times beyond the calendar have neither.
    assert_eq!(clock(9_000_000_000_000_000), "--:--");
    assert_eq!(day(9_000_000_000_000_000), None);
    // The last and the first moment of the calendar, and those beside them.
    assert_eq!(clock(8_210_266_876_799_999).len(), 5);
    assert_ne!(clock(8_210_266_876_799_999), "--:--");
    assert_eq!(clock(8_210_266_876_800_000), "--:--");
    assert_ne!(clock(-8_334_601_228_800_000i64 as u64), "--:--");
    assert_eq!(clock(-8_334_601_228_800_001i64 as u64), "--:--");
    assert_eq!(day(8_210_266_876_799_999 - 86_400_000).map(|d| d >= 95_745_397), Some(true));
    assert!(day(u64::MAX).is_some(), "the bits of -1 are a moment before the epoch");
}

#[test]
fn the_chat_is_drawn_by_the_clock_of_the_machine() {
    let mut ui = with_log(vec![entry(id(7, 1, 1_000_000_000_000), "long ago", false)]);
    let pane = ui.draw_chat(area(60, 12));
    assert_eq!(pane.lines.len(), 10);
    let shown = texts(&pane);
    assert!(shown.iter().any(|l| l.contains("September")), "{shown:?}");
    assert!(shown.iter().any(|l| l.contains("long ago")));
}
