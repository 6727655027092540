//! What the panes show of what there is to show.

use super::chat::{SceneView, Sheet};
use super::lines::{Color, LineView, SpanView};
use super::state::{Delivery, EntryView, Focus, PeerView, Pending, UiView};
use super::{chat, dates, lines, panes, state, text as layout};
use crate::{bytes, text};
use vstd::prelude::*;

verus! {

proof fn lemma_said_push(spans: Seq<SpanView>, s: SpanView)
    ensures
        lines::said(spans.push(s)) == lines::said(spans) + s.content,
    decreases spans.len(),
{
    reveal_with_fuel(lines::said, 2);
    if spans.len() == 0 {
        assert(spans.push(s).skip(1) =~= Seq::<SpanView>::empty());
        assert(lines::said(spans.push(s)) =~= lines::said(spans) + s.content);
    } else {
        lemma_said_push(spans.skip(1), s);
        assert(spans.push(s).skip(1) =~= spans.skip(1).push(s));
        assert(lines::said(spans.push(s)) =~= lines::said(spans) + s.content);
    }
}

proof fn lemma_said_add(a: Seq<SpanView>, b: Seq<SpanView>)
    ensures
        lines::said(a + b) == lines::said(a) + lines::said(b),
    decreases b.len(),
{
    if b.len() == 0 {
        assert(a + b =~= a);
        assert(lines::said(a + b) =~= lines::said(a) + lines::said(b));
    } else {
        lemma_said_add(a, b.drop_last());
        lemma_said_push(a + b.drop_last(), b.last());
        lemma_said_push(b.drop_last(), b.last());
        assert((a + b.drop_last()).push(b.last()) =~= a + b);
        assert(b.drop_last().push(b.last()) =~= b);
        assert(lines::said(a + b) =~= lines::said(a) + lines::said(b));
    }
}

/// Every message of a conversation is drawn, whole and in one piece, in order,
/// and each of its rows is known to be its own.
pub proof fn law_every_message_is_drawn(scene: SceneView, n: nat, i: int)
    requires
        0 <= i < n <= usize::MAX,
    ensures
        scene.sheet(n).lines.len() == scene.sheet(n).owners.len(),
        ({
            let start = scene.sheet(i as nat).lines.len() + scene.rules(i).len();
            let rows = scene.message(i).len();
            &&& start + rows <= scene.sheet(n).lines.len()
            &&& scene.sheet(n).lines.subrange(start as int, (start + rows) as int) == scene.message(i)
            &&& forall|k: int| start <= k < start + rows ==> (#[trigger] scene.sheet(n).owners[k]) == i
            &&& scene.sheet(n).lines.subrange(scene.sheet(i as nat).lines.len() as int, start as int) == scene.rules(i)
        }),
    decreases n,
{
    let m = (n - 1) as nat;
    let above = scene.sheet(m);
    let start = scene.sheet(i as nat).lines.len() + scene.rules(i).len();
    let rows = scene.message(i).len();
    lemma_owners(scene, m);
    lemma_owners(scene, i as nat);
    if i < m {
        law_every_message_is_drawn(scene, m, i);
        assert(scene.sheet(n).lines.subrange(start as int, (start + rows) as int) =~= above.lines.subrange(
            start as int,
            (start + rows) as int,
        ));
        let first = scene.sheet(i as nat).lines.len() as int;
        assert(scene.sheet(n).lines.subrange(first, start as int) =~= above.lines.subrange(first, start as int));
        assert forall|k: int| start <= k < start + rows implies (#[trigger] scene.sheet(n).owners[k]) == i by {
            assert(above.owners[k] == i);
        }
    } else {
        let all = scene.sheet(n).lines;
        assert(all.subrange(start as int, (start + rows) as int) =~= scene.message(i));
        assert(all.subrange(above.lines.len() as int, start as int) =~= scene.rules(i));
    }
}

proof fn lemma_owners(scene: SceneView, n: nat)
    ensures
        scene.sheet(n).lines.len() == scene.sheet(n).owners.len(),
    decreases n,
{
    if n > 0 {
        lemma_owners(scene, (n - 1) as nat);
    }
}

/// Of a message's text every character that is not blank is drawn, in order,
/// however long the text and however narrow the pane. Of a deleted message none
/// is.
pub proof fn law_texts_are_drawn_whole(scene: SceneView, i: int)
    requires
        scene.peer.log[i].attachment is None,
    ensures
        !scene.peer.log[i].deleted ==> layout::ink_of_all(scene.content(i)) == layout::ink(scene.peer.log[i].body),
        scene.peer.log[i].deleted ==> scene.content(i) == seq!["(deleted)"@],
        scene.content(i).len() > 0,
{
    if !scene.peer.log[i].deleted {
        layout::law_wrapping_keeps_the_text(scene.peer.log[i].body, scene.room(i));
        lemma_wrapped_some(scene.peer.log[i].body, scene.room(i));
    }
}

proof fn lemma_wrapped_some(s: Seq<char>, width: nat)
    ensures
        layout::wrapped(s, width).len() > 0,
{
    let paras = layout::paragraphs(s);
    assert(paras.len() > 0);
}

/// Of an attachment the name, the size and the beginning of the hash are drawn,
/// and below them how far it is, where it was saved, or that it has not come.
pub proof fn law_attachments_are_drawn(scene: SceneView, i: int, file: state::AttachView)
    requires
        scene.peer.log[i].attachment == Some(file),
    ensures
        ({
            let e = scene.peer.log[i];
            &&& scene.content(i).len() == 2
            &&& scene.content(i)[0] == "📎 "@ + file.name + " · "@ + layout::sized(file.size as nat) + " · blake3 "@
                + bytes::hex(file.hash@.take(4))
            &&& scene.ui.transfers.dom().contains(e.id) ==> scene.content(i)[1] == layout::progress(
                scene.ui.transfers[e.id].0 as nat,
                scene.ui.transfers[e.id].1 as nat,
            )
            &&& !scene.ui.transfers.dom().contains(e.id) && file.path is Some ==> scene.content(i)[1] == "saved to "@
                + file.path->0
            &&& !scene.ui.transfers.dom().contains(e.id) && file.path is None ==> scene.content(i)[1]
                == "waiting for the bytes"@
        }),
{
}

/// In a narrow pane each line of a message is a row, which says the line and
/// nothing more behind its head, but for the mark of delivery on the last.
pub proof fn law_narrow_rows_say_their_line(scene: SceneView, i: int, n: int)
    requires
        scene.width < 50,
        0 <= n < scene.content(i).len(),
    ensures
        ({
            let e = scene.peer.log[i];
            let above: int = if e.reply_to is Some { 1 } else { 0 };
            let said = lines::said(scene.message(i)[above + n].spans);
            let own = lines::said(scene.head(i, n)) + scene.content(i)[n];
            &&& scene.message(i).len() >= above + scene.content(i).len()
            &&& n < scene.content(i).len() - 1 || !e.outbound || !scene.ui.delivery.dom().contains(e.id) ==> said == own
            &&& n == scene.content(i).len() - 1 && e.outbound && scene.ui.delivery.dom().contains(e.id) ==> said == own
                + " "@ + (match scene.ui.delivery[e.id] {
                Delivery::Wire => "→"@,
                Delivery::Mailbox => "✉"@,
                Delivery::Failed => "!"@,
            })
        }),
{
    let e = scene.peer.log[i];
    let above: int = if e.reply_to is Some { 1 } else { 0 };
    let said = scene.head(i, n) + lines::mentions(scene.content(i)[n], scene.ui.nickname);
    lines::law_mentions_keep_the_text(scene.content(i)[n], scene.ui.nickname);
    lemma_said_add(scene.head(i, n), lines::mentions(scene.content(i)[n], scene.ui.nickname));
    let rows = Seq::new(scene.content(i).len(), |n: int| scene.row(i, n));
    assert(rows[n] == scene.row(i, n));
    assert(scene.compact(i)[above + n] == rows[n]);
    assert(scene.message(i)[above + n].spans == scene.row(i, n).spans);
    if let Some((glyph, colour)) = scene.marker(e) {
        lemma_said_push(said, lines::styled(" "@ + glyph, lines::coloured(colour)));
        assert(lines::said(said) + (" "@ + glyph) =~= lines::said(said) + " "@ + glyph);
    }
}

/// In a wide pane each line of a message stands on a row of its bubble, between
/// the sides, as it is.
pub proof fn law_bubbles_hold_their_lines(scene: SceneView, i: int, n: int)
    requires
        scene.width >= 50,
        0 <= n < scene.content(i).len(),
    ensures
        ({
            let e = scene.peer.log[i];
            let name: int = if !e.outbound && !scene.grouped(i) { 1 } else { 0 };
            let quote: int = if e.reply_to is Some { 1 } else { 0 };
            let row = name + 1 + quote + n;
            &&& scene.message(i).len() >= name + 1 + quote + scene.content(i).len() + 2
            &&& scene.message(i)[row].spans.len() == 3
            &&& scene.message(i)[row].spans[1].content == scene.content(i)[n]
            &&& name == 1 ==> lines::said(scene.message(i)[0].spans) == scene.peer.label()
        }),
{
    let e = scene.peer.log[i];
    let name: int = if !e.outbound && !scene.grouped(i) { 1 } else { 0 };
    let quote: int = if e.reply_to is Some { 1 } else { 0 };
    let b = scene.bubble(i);
    let sides = b.body.map_values(|line: Seq<char>| b.side(line));
    assert(sides[n] == b.side(scene.content(i)[n]));
    assert(b.rendered()[name + 1 + quote + n] == sides[n]);
    assert(scene.message(i)[name + 1 + quote + n].spans == sides[n].spans);
    if name == 1 {
        let first = lines::single(b.gap() + scene.peer.label(), lines::coloured(b.colour));
        assert(b.rendered()[0] == first);
        assert(scene.message(i)[0].spans == first.spans);
        assert(b.gap() =~= Seq::empty());
        let none = Seq::<SpanView>::empty();
        lemma_said_push(none, first.spans[0]);
        assert(first.spans =~= none.push(first.spans[0]));
        assert(lines::said(first.spans) =~= scene.peer.label());
    }
}

/// Messages belong together that one sender wrote within five minutes, on one
/// day, and with none unread between them. Others are headed by who wrote them:
/// you by your nickname, anyone else as they are called.
pub proof fn law_groups_last_five_minutes(scene: SceneView, i: int)
    requires
        0 < i < scene.peer.log.len(),
    ensures
        ({
            let (a, b) = (scene.peer.log[i - 1].id, scene.peer.log[i].id);
            scene.grouped(i) <==> {
                &&& a.sender == b.sender
                &&& b.ts_ms < a.ts_ms + 5 * 60 * 1000
                &&& scene.peer.unread_from != Some(i as usize) || i > usize::MAX
                &&& scene.stamps[i - 1].day == scene.stamps[i].day
            }
        }),
        !scene.grouped(0),
        scene.writer(scene.peer.log[i]).0 == (if scene.peer.log[i].outbound {
            scene.ui.nickname
        } else {
            scene.peer.label()
        }),
{
}

/// The reactions of a message are drawn below it, all on one row, each emoji with
/// its number, and your own in brackets.
pub proof fn law_reactions_are_drawn(scene: SceneView, e: EntryView)
    ensures
        e.reactions.len() == 0 ==> scene.reactions(e).len() == 0,
        e.reactions.len() > 0 ==> scene.reactions(e).len() == 1,
        e.reactions.len() == 1 ==> chat::chips(e.reactions) == (if e.reactions[0].mine {
            "["@ + e.reactions[0].emoji + " "@ + text::decimal(e.reactions[0].count) + "]"@
        } else {
            e.reactions[0].emoji + " "@ + text::decimal(e.reactions[0].count)
        }),
        e.reactions.len() > 1 ==> chat::chips(e.reactions) == chat::chips(e.reactions.drop_last()) + " "@
            + chat::chips(seq![e.reactions.last()]),
{
    if e.reactions.len() > 1 {
        assert(seq![e.reactions.last()][0] == e.reactions.last());
    }
}

/// An answer quotes the message that it answers, by its first line.
pub proof fn law_answers_quote(scene: SceneView, e: EntryView, k: int)
    requires
        0 <= k < scene.peer.log.len(),
        e.reply_to == Some(scene.peer.log[k].id),
        forall|j: int| 0 <= j < k ==> (#[trigger] scene.peer.log[j]).id != scene.peer.log[k].id,
    ensures
        scene.quoted(e) == Some(
            "┆ "@ + layout::first_line_of(
                if scene.peer.log[k].deleted {
                    "(deleted)"@
                } else {
                    scene.peer.log[k].body
                },
                scene.width / 2,
            ),
        ),
{
    lemma_found(scene.peer.log, k);
}

proof fn lemma_found(log: Seq<EntryView>, k: int)
    requires
        0 <= k < log.len(),
        forall|j: int| 0 <= j < k ==> (#[trigger] log[j]).id != log[k].id,
    ensures
        chat::found(log, log[k].id) == Some(log[k]),
    decreases log.len(),
{
    if k > 0 {
        let rest = log.skip(1);
        assert(log[0].id != log[k].id);
        assert forall|j: int| 0 <= j < k - 1 implies (#[trigger] rest[j]).id != rest[k - 1].id by {
            assert(rest[j] == log[j + 1]);
        }
        lemma_found(rest, k - 1);
    }
}

/// A pane that is not scrolled shows the end of the conversation: the last row at
/// the bottom, and all of it where it fits. Scrolled by one row, it shows one row
/// further up, as far as there is any.
pub proof fn law_the_end_is_at_the_bottom(sheet: Sheet, height: nat, scroll: nat, filler: LineView)
    requires
        height > 0,
        sheet.lines.len() > 0,
        scroll <= sheet.farthest(height),
    ensures
        ({
            let pane = sheet.window(sheet.lines, filler, height, scroll);
            let n = sheet.lines.len();
            &&& pane.len() == height
            &&& pane.last() == sheet.lines[n - 1 - scroll]
            &&& n <= height ==> scroll == 0 && pane.skip(height - n) == sheet.lines
            &&& n > height ==> forall|k: int|
                0 <= k < height ==> (#[trigger] pane[k]) == sheet.lines[n - height - scroll + k]
            &&& sheet.settled(height, 0, false) == 0
            &&& sheet.settled(height, scroll, false) == scroll
        }),
{
    let n = sheet.lines.len();
    let pane = sheet.window(sheet.lines, filler, height, scroll);
    if n <= height {
        assert(pane.skip(height - n) =~= sheet.lines);
    }
}

/// The list says of each peer whether it is a room, here or away, how it is
/// called, with a question mark behind a name that is only claimed, and how much
/// is unread.
pub proof fn law_peer_lines(p: PeerView)
    ensures
        ({
            let dot = if p.room is Some {
                "# "@
            } else if p.online {
                "● "@
            } else {
                "○ "@
            };
            let claim = if p.room is None && p.alias is None && p.nick is Some { "?"@ } else { ""@ };
            let unread = if p.unread > 0 { " ("@ + text::decimal(p.unread) + ")"@ } else { ""@ };
            lines::said(panes::peer_line(p).spans) == dot + p.label() + claim + unread
        }),
{
    reveal_strlit("");
    let spans = panes::peer_line(p).spans;
    let dot = spans[0];
    let unread = lines::styled(" ("@ + text::decimal(p.unread) + ")"@, lines::coloured(Color::Yellow));
    let none = Seq::<SpanView>::empty();
    lemma_said_push(none, dot);
    let one = none.push(dot);
    let label = spans[1];
    lemma_said_push(one, label);
    let two = one.push(label);
    let three = if p.named() { two } else { two.push(spans[2]) };
    if !p.named() {
        lemma_said_push(two, spans[2]);
    }
    if p.unread > 0 {
        lemma_said_push(three, unread);
        assert(spans =~= three.push(unread));
    } else {
        assert(spans =~= three);
    }
    let claim = if p.room is None && p.alias is None && p.nick is Some { "?"@ } else { ""@ };
    let count = if p.unread > 0 { " ("@ + text::decimal(p.unread) + ")"@ } else { ""@ };
    assert(lines::said(spans) =~= dot.content + p.label() + claim + count);
}

/// A conversation is called by the room's name, by the name that you chose, by
/// the one that the peer claims, or by the beginning of its key, in this order.
pub proof fn law_labels(p: PeerView, room: state::RoomFace, s: Seq<char>)
    ensures
        p.room == Some(room) ==> p.label() == "#"@ + room.name,
        p.room is None && p.alias == Some(s) ==> p.label() == s,
        p.room is None && p.alias is None && p.nick == Some(s) ==> p.label() == s,
        p.room is None && p.alias is None && p.nick is None ==> p.label() == bytes::hex(p.key@.take(5)),
        p.room == Some(room) && !room.joined ==> p.subtitle() == "you are not in this room"@,
        p.room == Some(room) && room.joined ==> p.subtitle() == text::decimal(room.members as nat) + " member(s)"@,
        p.room is None ==> p.subtitle() == (if p.path.len() > 0 {
            p.path
        } else {
            "offline"@
        }),
{
}

/// The title of the input says what a line will do, that of the chat who it is
/// with and how far it is scrolled back.
pub proof fn law_titles(ui: UiView, id: crate::wire::MessageId, p: PeerView)
    requires
        ui.selected() == Some(p),
    ensures
        ui.pending is None ==> ui.input_title() == "message"@,
        ui.pending == Some(Pending::Reply(id)) ==> ui.input_title() == "reply to "@ + id.text() + " — esc cancels"@,
        ui.pending == Some(Pending::Edit(id)) ==> ui.input_title() == "edit "@ + id.text() + " — esc cancels"@,
        ({
            let title = p.label() + (if p.room is None && p.alias is None && p.nick is Some {
                "? — unverified name — "@
            } else {
                " — "@
            }) + p.subtitle();
            ui.chat_title() == (if ui.scroll > 0 {
                title + "  ↑"@ + text::decimal(ui.scroll) + " scrolled back"@
            } else {
                title
            })
        }),
{
}

/// The bottom line says who you are, your endpoint id, and what happened last.
pub proof fn law_the_status_is_shown(ui: UiView)
    ensures
        ui.status_shown().spans[0].content == " "@ + ui.nickname + " "@,
        ui.status_shown().spans[1].content == " "@ + ui.me + "  "@,
        ui.status_shown().spans[2].content == ui.status,
        ui.status_shown().spans[3].content == (if ui.focus == Focus::Chat {
            "  ↑↓ pick · r reply · e edit · d delete · 1-5 react"@
        } else {
            "  tab · enter · /help · ^c quit"@
        }),
{
}

/// A day is called by its distance up to a week back, and by its date else. A new
/// day is announced before its first message.
pub proof fn law_days_are_announced(scene: SceneView, i: int, day: i32)
    requires
        scene.stamps[i].day == Some(day),
    ensures
        ({
            let ago = scene.today - day;
            &&& ago == 0 ==> dates::labelled(day as int, scene.today) == "today"@
            &&& ago == 1 ==> dates::labelled(day as int, scene.today) == "yesterday"@
            &&& 2 <= ago < 7 ==> dates::labelled(day as int, scene.today) == dates::weekday_name(day as int)
            &&& ago >= 7 || ago < 0 ==> dates::labelled(day as int, scene.today) == dates::squeezed(
                dates::long_date(day as int),
            )
        }),
        scene.last_day(i as nat) != Some(day) ==> scene.rules(i).len() > 0 && scene.rules(i)[0] == lines::single(
            layout::ruled(dates::labelled(day as int, scene.today), scene.width),
            lines::coloured(Color::DarkGray),
        ),
        scene.last_day(i as nat) == Some(day) && scene.peer.unread_from is None ==> scene.rules(i).len() == 0,
        i > 0 && scene.stamps[i - 1].day is Some ==> scene.last_day(i as nat) == scene.stamps[i - 1].day,
{
}

/// The first unread message has a rule above it.
pub proof fn law_the_unread_is_marked(scene: SceneView, i: int, n: usize)
    requires
        scene.peer.unread_from == Some(n),
    ensures
        n == i ==> scene.rules(i).len() > 0 && scene.rules(i).last() == lines::single(
            layout::ruled("new"@, scene.width),
            lines::coloured(Color::Yellow),
        ),
        n != i && scene.stamps[i].day is None ==> scene.rules(i).len() == 0,
{
}

/// The message that the cursor is on stands out, whole, while the chat has the
/// focus, and no other does.
pub proof fn law_the_picked_message_stands_out(scene: SceneView, i: int, k: int)
    requires
        0 <= k < scene.message(i).len(),
    ensures
        scene.message(i)[k].reversed <==> scene.peer.cursor == i && scene.ui.focus == Focus::Chat,
{
    let e = scene.peer.log[i];
    let b = scene.bubble(i);
    let sides = b.body.map_values(|line: Seq<char>| b.side(line));
    let rows = Seq::new(scene.content(i).len(), |n: int| scene.row(i, n));
    assert forall|n: int| 0 <= n < sides.len() implies !(#[trigger] sides[n]).reversed by {}
    assert forall|n: int| 0 <= n < rows.len() implies !(#[trigger] rows[n]).reversed by {}
    let all = (if scene.bubbles() { b.rendered() } else { scene.compact(i) }) + scene.reactions(e);
    assert(!all[k].reversed);
}

/// A narrow row is headed by the time and by who wrote it, and the rows below stand
/// as far in.
pub proof fn law_narrow_heads(scene: SceneView, i: int, n: int)
    ensures
        ({
            let e = scene.peer.log[i];
            let who = if e.outbound { scene.ui.nickname } else { scene.peer.label() };
            let head = scene.stamps[i].clock + " "@ + who + ": "@;
            &&& n == 0 && !scene.grouped(i) ==> lines::said(scene.head(i, n)) == head
            &&& n > 0 || scene.grouped(i) ==> lines::said(scene.head(i, n)) == Seq::new(
                layout::columns(head) as nat,
                |k: int| ' ',
            )
        }),
{
    let none = Seq::<SpanView>::empty();
    let head = scene.head(i, n);
    lemma_said_push(none, head[0]);
    assert(none.push(head[0])[0] == head[0]);
    if n == 0 && !scene.grouped(i) {
        lemma_said_push(none.push(head[0]), head[1]);
        assert(none.push(head[0]).push(head[1]) =~= head);
        let e = scene.peer.log[i];
        let who = if e.outbound { scene.ui.nickname } else { scene.peer.label() };
        assert(lines::said(head) =~= scene.stamps[i].clock + " "@ + who + ": "@);
    } else {
        assert(none.push(head[0]) =~= head);
        assert(lines::said(head) =~= head[0].content);
    }
}

/// Below a bubble stands the time, at its right end where the message is yours, and
/// behind it what became of it.
pub proof fn law_bubbles_tell_the_time(scene: SceneView, i: int)
    requires
        scene.width >= 50,
        scene.peer.log[i].reactions.len() == 0,
    ensures
        ({
            let e = scene.peer.log[i];
            let foot = scene.message(i).last();
            let clock = scene.stamps[i].clock;
            let told = foot.spans[0].content;
            &&& told.len() >= clock.len()
            &&& told.skip(told.len() - clock.len()) == clock
            &&& forall|k: int| 0 <= k < told.len() - clock.len() ==> (#[trigger] told[k]) == ' '
            &&& !e.outbound ==> told.len() == clock.len() + 1
            &&& foot.spans.len() == (if e.outbound && scene.ui.delivery.dom().contains(e.id) { 2int } else { 1 })
            &&& e.outbound && scene.ui.delivery.dom().contains(e.id) ==> foot.spans[1].content == " "@ + (
            match scene.ui.delivery[e.id] {
                Delivery::Wire => "→"@,
                Delivery::Mailbox => "✉"@,
                Delivery::Failed => "!"@,
            })
        }),
{
    let e = scene.peer.log[i];
    let b = scene.bubble(i);
    let clock = scene.stamps[i].clock;
    assert(b.rendered().last() == b.foot());
    assert(b.rendered() + scene.reactions(e) =~= b.rendered());
    assert(scene.message(i).last().spans == b.foot().spans);
    let told = b.foot().spans[0].content;
    assert(told.skip(told.len() - clock.len()) =~= clock);
}

/// Reactions stand in a row below their message, two columns in where it is someone
/// else's or the pane is narrow.
pub proof fn law_reactions_stand_below(scene: SceneView, i: int)
    requires
        scene.peer.log[i].reactions.len() > 0,
    ensures
        ({
            let e = scene.peer.log[i];
            let row = scene.message(i).last().spans;
            let chips = chat::chips(e.reactions);
            &&& row.len() == 1
            &&& row[0].content.len() >= chips.len()
            &&& row[0].content.skip(row[0].content.len() - chips.len()) == chips
            &&& !e.outbound || scene.width < 50 ==> row[0].content == "  "@ + chips
        }),
{
    let e = scene.peer.log[i];
    let chips = chat::chips(e.reactions);
    let below = scene.reactions(e);
    let b = (if scene.bubbles() { scene.bubble(i).rendered() } else { scene.compact(i) });
    assert((b + below).last() == below[0]);
    assert(scene.message(i).last().spans == below[0].spans);
    let content = below[0].spans[0].content;
    assert(content.skip(content.len() - chips.len()) =~= chips);
    reveal_strlit("  ");
    if !e.outbound || scene.width < 50 {
        assert(content =~= "  "@ + chips);
    }
}

/// An answer to a message that is not here says so, and what answers nothing quotes
/// nothing.
pub proof fn law_missing_messages_are_quoted_as_such(scene: SceneView, e: EntryView)
    ensures
        e.reply_to is None ==> scene.quoted(e) is None,
        e.reply_to is Some && (forall|k: int|
            0 <= k < scene.peer.log.len() ==> (#[trigger] scene.peer.log[k]).id != e.reply_to->0) ==> scene.quoted(e)
            == Some("┆ "@ + layout::first_line_of("(message not here)"@, scene.width / 2)),
{
    if e.reply_to is Some && (forall|k: int|
        0 <= k < scene.peer.log.len() ==> (#[trigger] scene.peer.log[k]).id != e.reply_to->0) {
        lemma_not_found(scene.peer.log, e.reply_to->0);
    }
}

proof fn lemma_not_found(log: Seq<EntryView>, id: crate::wire::MessageId)
    requires
        forall|k: int| 0 <= k < log.len() ==> (#[trigger] log[k]).id != id,
    ensures
        chat::found(log, id) is None,
    decreases log.len(),
{
    if log.len() > 0 {
        let rest = log.skip(1);
        assert forall|k: int| 0 <= k < rest.len() implies (#[trigger] rest[k]).id != id by {
            assert(rest[k] == log[k + 1]);
        }
        assert(log[0].id != id);
        lemma_not_found(rest, id);
    }
}

/// A text has the room that the pane leaves: all but six columns of it, and of sixty
/// at most, in a bubble, and what the time and the name leave in a narrow pane.
/// There are always eight.
pub proof fn law_texts_have_room(scene: SceneView, i: int)
    ensures
        scene.width >= 60 ==> scene.room(i) == 54,
        50 <= scene.width < 60 ==> scene.room(i) == scene.width - 6,
        scene.width < 50 ==> ({
            let e = scene.peer.log[i];
            let who = if e.outbound { scene.ui.nickname } else { scene.peer.label() };
            let left = scene.width - layout::columns(scene.stamps[i].clock) - layout::columns(who) - 2;
            scene.room(i) == (if left > 8 { left } else { 8 })
        }),
{
}

/// A chat that is not scrolled shows the newest message of the conversation that is
/// selected at the bottom of its pane, which is drawn as wide as the pane is inside
/// its border.
pub proof fn law_the_newest_is_at_the_bottom(
    ui: UiView,
    area: state::Rect,
    stamps: Seq<chat::StampView>,
    today: int,
)
    requires
        ui.sel < ui.peers.len(),
        0 < ui.peers[ui.sel as int].log.len() <= usize::MAX,
        ui.scroll == 0,
        ui.focus != Focus::Chat,
        area.height > 2,
        area.width >= 10,
    ensures
        ({
            let p = ui.peers[ui.sel as int];
            let scene = SceneView { ui, peer: p, stamps, today, width: (area.width - 2) as nat };
            let (after, pane) = ui.chat_drawn(area, stamps, today);
            &&& scene.message(p.log.len() - 1).len() > 0
            &&& pane.lines.len() == area.height - 2
            &&& pane.lines.last() == scene.message(p.log.len() - 1).last()
            &&& after.chat_rows.last() == p.log.len() - 1
            &&& after.scroll == 0
            &&& !pane.focused
        }),
{
    let p = ui.peers[ui.sel as int];
    let n = p.log.len();
    let scene = SceneView { ui, peer: p, stamps, today, width: (area.width - 2) as nat };
    let sheet = scene.sheet(n);
    let height = (area.height - 2) as nat;
    let blank = LineView { spans: Seq::empty(), reversed: false };
    assert(ui.scene(stamps, today, area) == scene);
    law_every_message_is_drawn(scene, n, n - 1);
    lemma_message_some(scene, n - 1);
    let m = scene.message(n - 1);
    let start = scene.sheet((n - 1) as nat).lines.len() + scene.rules(n - 1).len();
    assert(sheet.lines.len() == start + m.len());
    assert(sheet.lines.subrange(start as int, (start + m.len()) as int).last() == m.last());
    assert(sheet.lines.last() == m.last());
    assert(sheet.owners[sheet.lines.len() - 1] == n - 1);
    law_the_end_is_at_the_bottom(sheet, height, 0, blank);
}

proof fn lemma_message_some(scene: SceneView, i: int)
    ensures
        scene.message(i).len() > 0,
{
    let e = scene.peer.log[i];
    if scene.bubbles() {
        assert(scene.bubble(i).rendered().len() >= 2);
    } else {
        if e.attachment is None {
            law_texts_are_drawn_whole(scene, i);
        }
        assert(scene.compact(i).len() >= scene.content(i).len());
    }
}

/// A rule is a label between two equal bars, with a blank on either side of it, as
/// wide as the pane or a column less.
pub proof fn law_rules_centre_their_label(label: Seq<char>, width: nat)
    ensures
        ({
            let rule = layout::ruled(label, width);
            let left = width - layout::columns(label) - 2;
            let n = if left > 0 { left / 2 } else { 0 };
            &&& rule.len() == 2 * n + label.len() + 2
            &&& rule.subrange(n + 1, n + 1 + label.len()) == label
            &&& rule[n] == ' ' && rule[n + 1 + label.len()] == ' '
            &&& forall|k: int| 0 <= k < n ==> (#[trigger] rule[k]) == '─'
            &&& forall|k: int| n + 2 + label.len() <= k < rule.len() ==> (#[trigger] rule[k]) == '─'
        }),
{
    let rule = layout::ruled(label, width);
    let left = width - layout::columns(label) - 2;
    let n = if left > 0 { left / 2 } else { 0 };
    assert(rule.subrange(n + 1, n + 1 + label.len()) =~= label);
}

/// A room is marked in blue while you are in it, an endpoint in green while it is
/// online, and anything else in grey. A name that is only claimed is grey too.
pub proof fn law_colours_of_peers(p: PeerView)
    ensures
        ({
            let spans = panes::peer_line(p).spans;
            &&& spans[0].style.fg == Some(
                if p.room matches Some(room) && room.joined {
                    Color::Blue
                } else if p.room is None && p.online {
                    Color::Green
                } else {
                    Color::DarkGray
                },
            )
            &&& spans[1].content == p.label()
            &&& spans[1].style.fg == (if p.room is None && p.alias is None && p.nick is Some {
                Some(Color::DarkGray)
            } else {
                None
            })
        }),
{
}

/// What you wrote is in your colour, what others did in theirs, and in grey where
/// the name is only claimed. What went over the wire is marked in grey, what was left
/// on the hub in yellow and what went nowhere in red.
pub proof fn law_colours_of_messages(scene: SceneView, e: EntryView)
    ensures
        scene.writer(e).1 == (if e.outbound {
            Color::Cyan
        } else if scene.peer.room is None && scene.peer.alias is None && scene.peer.nick is Some {
            Color::DarkGray
        } else {
            Color::Magenta
        }),
        scene.marker(e) == (if e.outbound && scene.ui.delivery.dom().contains(e.id) {
            Some(
                match scene.ui.delivery[e.id] {
                    Delivery::Wire => ("→"@, Color::DarkGray),
                    Delivery::Mailbox => ("✉"@, Color::Yellow),
                    Delivery::Failed => ("!"@, Color::Red),
                },
            )
        } else {
            None
        }),
        scene.style(e) == (if e.attachment is Some {
            lines::Style { fg: None, bg: None, bold: true, italic: false, reversed: false }
        } else if e.deleted {
            lines::Style { fg: Some(Color::DarkGray), bg: None, bold: false, italic: true, reversed: false }
        } else {
            lines::Style { fg: None, bg: None, bold: false, italic: false, reversed: false }
        }),
{
}

/// The line under the caret is shown from its start while the caret is within the
/// pane.
pub proof fn law_short_lines_are_shown_from_their_start(ui: UiView, area: state::Rect)
    requires
        area.width >= 3,
        ui.caret_column() < area.width - 2,
    ensures
        ui.input_offset(area) == 0,
{
}

} // verus!
