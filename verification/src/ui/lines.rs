//! Styled lines, and messages drawn as bubbles.

use super::text as layout;
use crate::text;
use vstd::prelude::*;

verus! {

/// The colours in use.
#[derive(Clone, Copy, Debug, PartialEq, Eq, Structural)]
pub enum Color {
    Black,
    Blue,
    Cyan,
    DarkGray,
    Green,
    Magenta,
    Red,
    Yellow,
}

/// How a stretch of text looks.
#[derive(Clone, Copy, Debug, PartialEq, Eq, Structural)]
pub struct Style {
    pub fg: Option<Color>,
    pub bg: Option<Color>,
    pub bold: bool,
    pub italic: bool,
    pub reversed: bool,
}

/// Text as the terminal shows it by itself.
pub open spec fn plain() -> Style {
    Style { fg: None, bg: None, bold: false, italic: false, reversed: false }
}

/// Text in a colour.
pub open spec fn coloured(c: Color) -> Style {
    Style { fg: Some(c), ..plain() }
}

impl Style {
    /// Computes [`plain`].
    pub fn new() -> (r: Style)
        ensures
            r == plain(),
    {
        Style { fg: None, bg: None, bold: false, italic: false, reversed: false }
    }

    /// Computes [`coloured`].
    pub fn of(c: Color) -> (r: Style)
        ensures
            r == coloured(c),
    {
        Style { fg: Some(c), bg: None, bold: false, italic: false, reversed: false }
    }
}

/// A stretch of text in one style.
#[derive(Debug, PartialEq, Eq)]
pub struct Span {
    pub content: String,
    pub style: Style,
}

/// A stretch of text as mathematical values.
#[verifier::ext_equal]
pub struct SpanView {
    pub content: Seq<char>,
    pub style: Style,
}

impl View for Span {
    type V = SpanView;

    open spec fn view(&self) -> SpanView {
        SpanView { content: self.content@, style: self.style }
    }
}

/// A line of text, and whether it is shown in reverse.
#[derive(Debug, PartialEq, Eq)]
pub struct Line {
    pub spans: Vec<Span>,
    pub reversed: bool,
}

/// A line as mathematical values.
#[verifier::ext_equal]
pub struct LineView {
    pub spans: Seq<SpanView>,
    pub reversed: bool,
}

/// Stretches of text as mathematical values.
pub open spec fn spans_view(spans: Seq<Span>) -> Seq<SpanView> {
    spans.map_values(|s: Span| s@)
}

impl View for Line {
    type V = LineView;

    open spec fn view(&self) -> LineView {
        LineView { spans: spans_view(self.spans@), reversed: self.reversed }
    }
}

/// Lines as mathematical values.
pub open spec fn lines_view(lines: Seq<Line>) -> Seq<LineView> {
    lines.map_values(|l: Line| l@)
}

/// Pushing a line pushes its values.
pub proof fn lemma_lines_push(lines: Seq<Line>, line: Line)
    ensures
        lines_view(lines.push(line)) == lines_view(lines).push(line@),
{
    assert(lines_view(lines.push(line)) =~= lines_view(lines).push(line@));
}

/// Pushing a stretch of text pushes its values.
pub proof fn lemma_spans_push(spans: Seq<Span>, span: Span)
    ensures
        spans_view(spans.push(span)) == spans_view(spans).push(span@),
{
    assert(spans_view(spans.push(span)) =~= spans_view(spans).push(span@));
}

/// A stretch of text in a style.
pub open spec fn styled(content: Seq<char>, style: Style) -> SpanView {
    SpanView { content, style }
}

/// A line of one stretch of text.
pub open spec fn single(content: Seq<char>, style: Style) -> LineView {
    LineView { spans: seq![styled(content, style)], reversed: false }
}

impl Line {
    /// A line without text.
    pub fn empty() -> (r: Line)
        ensures
            r@ == (LineView { spans: Seq::empty(), reversed: false }),
    {
        let r = Line { spans: Vec::new(), reversed: false };
        assert(r@.spans =~= Seq::empty());
        r
    }

    /// Computes [`single`].
    pub fn single(content: String, style: Style) -> (r: Line)
        ensures
            r@ == single(content@, style),
    {
        let mut spans: Vec<Span> = Vec::new();
        spans.push(Span { content, style });
        let r = Line { spans, reversed: false };
        assert(r@.spans =~= seq![styled(content@, style)]);
        r
    }

    /// A line of three stretches of text.
    pub fn triple(a: Span, b: Span, c: Span) -> (r: Line)
        ensures
            r@ == (LineView { spans: seq![a@, b@, c@], reversed: false }),
    {
        let mut spans: Vec<Span> = Vec::new();
        spans.push(a);
        spans.push(b);
        spans.push(c);
        let r = Line { spans, reversed: false };
        assert(r@.spans =~= seq![a@, b@, c@]);
        r
    }

    /// Adds a stretch of text.
    pub fn push(&mut self, span: Span)
        ensures
            final(self)@ == (LineView { spans: old(self)@.spans.push(span@), reversed: old(self).reversed }),
    {
        let ghost was = self.spans@;
        self.spans.push(span);
        proof {
            lemma_spans_push(was, span);
        }
    }
}

/// Whether a character ends a mention.
pub open spec fn ends_mention(c: char) -> bool {
    text::blank(c) || c == ',' || c == '.'
}

/// How many characters stand before the end of a mention.
pub open spec fn mention_len(s: Seq<char>) -> nat
    decreases s.len(),
{
    if s.len() == 0 || ends_mention(s[0]) {
        0
    } else {
        1 + mention_len(s.skip(1))
    }
}

proof fn lemma_mention_len(s: Seq<char>, n: int)
    requires
        0 <= n <= s.len(),
        forall|i: int| 0 <= i < n ==> !ends_mention(#[trigger] s[i]),
        n == s.len() || ends_mention(s[n]),
    ensures
        mention_len(s) == n,
    decreases s.len(),
{
    if n > 0 {
        assert(!ends_mention(s[0]));
        assert forall|i: int| 0 <= i < n - 1 implies !ends_mention(#[trigger] s.skip(1)[i]) by {
            assert(!ends_mention(s[i + 1]));
        }
        lemma_mention_len(s.skip(1), n - 1);
    }
}

/// The look of a mention of `name` to someone called `me`: yours stands out
/// more.
pub open spec fn mention_style(name: Seq<char>, me: Seq<char>) -> Style {
    if layout::same_ignoring_case(name, me) {
        Style { fg: Some(Color::Black), bg: Some(Color::Yellow), ..plain() }
    } else {
        Style { fg: Some(Color::Blue), bold: true, ..plain() }
    }
}

/// A text with what comes before a mention, the mention, and so on with the
/// rest.
pub open spec fn mentions(s: Seq<char>, me: Seq<char>) -> Seq<SpanView>
    decreases s.len(),
{
    let at = layout::run_to(s, '@') as int;
    if 0 <= at < s.len() {
        let before = if at > 0 { seq![styled(s.take(at), plain())] } else { Seq::empty() };
        let tail = s.skip(at + 1);
        let n = mention_len(tail) as int;
        let name = tail.take(n);
        let mention = styled(seq!['@'] + name, mention_style(name, me));
        if 0 <= n <= tail.len() {
            before + seq![mention] + mentions(tail.skip(n), me)
        } else {
            before
        }
    } else if s.len() > 0 {
        seq![styled(s, plain())]
    } else {
        Seq::empty()
    }
}

/// Splits a line so `@nickname` stands out, and stands out more when it is
/// yours. Nicknames are local metadata, so this is a display convenience and
/// nothing addresses anyone by it.
pub fn mention_spans(s: &str, me: &str) -> (r: Vec<Span>)
    ensures
        spans_view(r@) == mentions(s@, me@),
{
    let chars = text::chars_of(s);
    let mut out: Vec<Span> = Vec::new();
    let mut from: usize = 0;
    proof {
        assert(chars@.skip(0) =~= chars@);
        assert(spans_view(out@) + mentions(chars@, me@) =~= mentions(chars@, me@));
    }
    loop
        invariant
            from <= chars@.len(),
            chars@ == s@,
            spans_view(out@) + mentions(chars@.skip(from as int), me@) == mentions(s@, me@),
        decreases chars@.len() - from,
    {
        let ghost rest = chars@.skip(from as int);
        let ghost was = spans_view(out@);
        let at = layout::find_from(&chars, from, '@');
        if at > from {
            let before = text::string_of(vstd::slice::slice_subrange(chars.as_slice(), from, at));
            let span = Span { content: before, style: Style::new() };
            proof {
                assert(before@ =~= rest.take(at - from));
                lemma_spans_push(out@, span);
            }
            out.push(span);
        }
        if at == chars.len() {
            proof {
                assert(rest.take(at - from) =~= rest);
                assert(spans_view(out@) =~= was + mentions(rest, me@));
            }
            return out;
        }
        let mut end: usize = at + 1;
        while end < chars.len() && !(chars[end].is_whitespace() || chars[end] == ',' || chars[end] == '.')
            invariant
                at < end <= chars@.len(),
                forall|j: int| at < j < end ==> !ends_mention(#[trigger] chars@[j]),
            decreases chars@.len() - end,
        {
            end = end + 1;
        }
        let name = vstd::slice::slice_subrange(chars.as_slice(), at + 1, end);
        let content = text::string_of(vstd::slice::slice_subrange(chars.as_slice(), at, end));
        let style = if layout::eq_ignore_case(name, me) {
            Style { fg: Some(Color::Black), bg: Some(Color::Yellow), bold: false, italic: false, reversed: false }
        } else {
            Style { fg: Some(Color::Blue), bg: None, bold: true, italic: false, reversed: false }
        };
        let span = Span { content, style };
        let ghost mid = spans_view(out@);
        proof {
            let tail = rest.skip(at - from + 1);
            assert(tail =~= chars@.skip(at + 1));
            assert forall|j: int| 0 <= j < end - at - 1 implies !ends_mention(#[trigger] tail[j]) by {
                assert(!ends_mention(chars@[j + at + 1]));
            }
            lemma_mention_len(tail, end - at - 1);
            assert(name@ =~= tail.take(end - at - 1));
            assert(content@ =~= seq!['@'] + name@);
            assert(tail.skip(end - at - 1) =~= chars@.skip(end as int));
            lemma_spans_push(out@, span);
            let before = if at > from {
                seq![styled(rest.take(at - from), plain())]
            } else {
                Seq::empty()
            };
            assert(mid =~= was + before);
            assert(mentions(rest, me@) == before + seq![span@] + mentions(chars@.skip(end as int), me@));
            assert(was + (before + seq![span@] + mentions(chars@.skip(end as int), me@)) =~= mid.push(span@)
                + mentions(chars@.skip(end as int), me@));
        }
        out.push(span);
        from = end;
    }
}

/// What spans say, one after the other.
pub open spec fn said(spans: Seq<SpanView>) -> Seq<char>
    decreases spans.len(),
{
    if spans.len() == 0 {
        Seq::empty()
    } else {
        spans[0].content + said(spans.skip(1))
    }
}

proof fn lemma_said_add(a: Seq<SpanView>, b: Seq<SpanView>)
    ensures
        said(a + b) == said(a) + said(b),
    decreases a.len(),
{
    if a.len() == 0 {
        assert(a + b =~= b);
        assert(said(a) + said(b) =~= said(b));
    } else {
        lemma_said_add(a.skip(1), b);
        assert((a + b).skip(1) =~= a.skip(1) + b);
        assert(said(a + b) =~= said(a) + said(b));
    }
}

proof fn lemma_mention_bound(s: Seq<char>)
    ensures
        mention_len(s) <= s.len(),
    decreases s.len(),
{
    if s.len() > 0 && !ends_mention(s[0]) {
        lemma_mention_bound(s.skip(1));
    }
}

/// Splitting out mentions loses nothing and adds nothing: the pieces, put
/// together again, are the text.
pub proof fn law_mentions_keep_the_text(s: Seq<char>, me: Seq<char>)
    ensures
        said(mentions(s, me)) == s,
    decreases s.len(),
{
    let at = layout::run_to(s, '@') as int;
    layout::lemma_run_to_char(s, '@');
    if at < s.len() {
        let before: Seq<SpanView> = if at > 0 { seq![styled(s.take(at), plain())] } else { Seq::empty() };
        let tail = s.skip(at + 1);
        let n = mention_len(tail) as int;
        lemma_mention_bound(tail);
        let name = tail.take(n);
        let mention = styled(seq!['@'] + name, mention_style(name, me));
        let rest = mentions(tail.skip(n), me);
        law_mentions_keep_the_text(tail.skip(n), me);
        lemma_said_add(before + seq![mention], rest);
        lemma_said_add(before, seq![mention]);
        reveal_with_fuel(said, 3);
        assert(seq![mention].skip(1) =~= Seq::<SpanView>::empty());
        assert(said(seq![mention]) =~= mention.content);
        if at > 0 {
            assert(before.skip(1) =~= Seq::<SpanView>::empty());
            assert(said(before) =~= s.take(at));
        } else {
            assert(said(before) =~= s.take(at));
        }
        assert(s =~= s.take(at) + (seq!['@'] + name) + tail.skip(n));
    } else if s.len() > 0 {
        let all = seq![styled(s, plain())];
        assert(all.skip(1) =~= Seq::<SpanView>::empty());
        reveal_with_fuel(said, 3);
        assert(said(all) =~= s);
    } else {
        assert(said(mentions(s, me)) =~= s);
    }
}

/// Below this a bubble has no room to breathe, so the pane falls back to the
/// compact layout.
pub const BUBBLE_MIN_PANE: usize = 50;

/// Long lines are hard to read however much room there is.
pub const BUBBLE_MAX: usize = 60;

/// One message drawn as a bubble.
///
/// `mine` puts it against the right edge with no name on it, and `theirs`
/// against the left under a name. The meta line underneath carries the clock
/// and, for your own, the delivery mark.
pub struct Bubble {
    pub body: Vec<String>,
    pub quoted: Option<String>,
    pub name: Option<String>,
    pub meta: String,
    pub colour: Color,
    pub mine: bool,
    pub pane: usize,
    pub style: Style,
    pub marker: Option<(String, Color)>,
}

/// A bubble as mathematical values.
#[verifier::ext_equal]
pub struct BubbleView {
    pub body: Seq<Seq<char>>,
    pub quoted: Option<Seq<char>>,
    pub name: Option<Seq<char>>,
    pub meta: Seq<char>,
    pub colour: Color,
    pub mine: bool,
    pub pane: nat,
    pub style: Style,
    pub marker: Option<(Seq<char>, Color)>,
}

/// A string that may be missing, as mathematical values.
pub open spec fn maybe(s: Option<String>) -> Option<Seq<char>> {
    match s {
        Some(s) => Some(s@),
        None => None,
    }
}

/// A mark that may be missing, as mathematical values.
pub open spec fn maybe_mark(m: Option<(String, Color)>) -> Option<(Seq<char>, Color)> {
    match m {
        Some((glyph, colour)) => Some((glyph@, colour)),
        None => None,
    }
}

impl View for Bubble {
    type V = BubbleView;

    open spec fn view(&self) -> BubbleView {
        BubbleView {
            body: layout::strings_view(self.body@),
            quoted: maybe(self.quoted),
            name: maybe(self.name),
            meta: self.meta@,
            colour: self.colour,
            mine: self.mine,
            pane: self.pane as nat,
            style: self.style,
            marker: maybe_mark(self.marker),
        }
    }
}

/// The most columns that any of these takes.
pub open spec fn widest(lines: Seq<Seq<char>>) -> nat
    decreases lines.len(),
{
    if lines.len() == 0 {
        0
    } else {
        layout::most(widest(lines.drop_last()), layout::columns(lines.last()) as nat)
    }
}

impl BubbleView {
    /// The columns between the two sides, without the blanks beside them.
    pub open spec fn inner(self) -> nat {
        let text = match self.quoted {
            Some(q) => layout::most(widest(self.body), layout::columns(q) as nat),
            None => widest(self.body),
        };
        layout::least(
            layout::most(text, layout::columns(self.meta) as nat),
            layout::monus(self.pane, 5),
        )
    }

    /// The columns to the left of the bubble: one column of air stays on the
    /// right, so a bubble never fuses with the pane border.
    pub open spec fn pad(self) -> nat {
        if self.mine {
            layout::monus(self.pane, self.inner() + 5)
        } else {
            0
        }
    }

    /// The blanks to the left of the bubble.
    pub open spec fn gap(self) -> Seq<char> {
        layout::repeated(' ', self.pad())
    }

    /// A horizontal edge between its corners.
    pub open spec fn edge(self, left: char, right: char) -> LineView {
        single(
            self.gap().push(left) + layout::repeated('─', self.inner() + 2).push(right),
            coloured(self.colour),
        )
    }

    /// A line of the body between the sides.
    pub open spec fn side(self, line: Seq<char>) -> LineView {
        LineView {
            spans: seq![
                styled(self.gap() + "│ "@, coloured(self.colour)),
                styled(line, self.style),
                styled(
                    layout::repeated(' ', layout::monus(self.inner(), layout::columns(line) as nat)) + " │"@,
                    coloured(self.colour),
                ),
            ],
            reversed: false,
        }
    }

    /// The quotation between the sides.
    pub open spec fn quotation(self, quote: Seq<char>) -> LineView {
        LineView {
            spans: seq![
                styled(self.gap() + "│ "@, coloured(self.colour)),
                styled(
                    layout::padded_right(quote, self.inner()),
                    Style { fg: Some(Color::DarkGray), italic: true, ..plain() },
                ),
                styled(" │"@, coloured(self.colour)),
            ],
            reversed: false,
        }
    }

    /// The clock and the delivery mark. The mark is counted in the alignment,
    /// or it lands past the edge.
    pub open spec fn foot(self) -> LineView {
        let mark_w: nat = match self.marker {
            Some((glyph, _)) => layout::columns(glyph) as nat + 1,
            None => 0,
        };
        let meta = styled(
            if self.mine {
                layout::padded_left(
                    self.meta,
                    layout::monus(self.pad() + self.inner() + 4, 1 + mark_w),
                )
            } else {
                self.gap().push(' ') + self.meta
            },
            coloured(Color::DarkGray),
        );
        LineView {
            spans: match self.marker {
                Some((glyph, colour)) => seq![meta, styled(" "@ + glyph, coloured(colour))],
                None => seq![meta],
            },
            reversed: false,
        }
    }

    /// The lines that the bubble occupies.
    pub open spec fn rendered(self) -> Seq<LineView> {
        let name = match self.name {
            Some(name) => seq![single(self.gap() + name, coloured(self.colour))],
            None => Seq::empty(),
        };
        let quote = match self.quoted {
            Some(quote) => seq![self.quotation(quote)],
            None => Seq::empty(),
        };
        name + seq![self.edge('╭', '╮')] + quote + self.body.map_values(|line: Seq<char>| self.side(line)) + seq![
            self.edge('╰', '╯'),
            self.foot(),
        ]
    }
}

/// Computes [`widest`].
fn widest_of(lines: &Vec<String>) -> (r: usize)
    ensures
        r == widest(layout::strings_view(lines@)),
{
    let ghost all = layout::strings_view(lines@);
    let mut best: usize = 0;
    let mut i: usize = 0;
    assert(all.take(0) =~= Seq::empty());
    while i < lines.len()
        invariant
            i <= lines@.len(),
            all == layout::strings_view(lines@),
            best == widest(all.take(i as int)),
        decreases lines@.len() - i,
    {
        proof {
            assert(all.take(i + 1).drop_last() =~= all.take(i as int));
            assert(all.take(i + 1).last() == lines@[i as int]@);
        }
        let w = layout::str_width(lines[i].as_str());
        if w > best {
            best = w;
        }
        i = i + 1;
    }
    assert(all.take(i as int) =~= all);
    best
}

proof fn lemma_rendered(
    b: BubbleView,
    s0: Seq<LineView>,
    s1: Seq<LineView>,
    s2: Seq<LineView>,
    s3: Seq<LineView>,
    s4: Seq<LineView>,
    s5: Seq<LineView>,
)
    requires
        s1 == (match b.name {
            Some(name) => s0.push(single(b.gap() + name, coloured(b.colour))),
            None => s0,
        }),
        s2 == s1.push(b.edge('╭', '╮')),
        s3 == (match b.quoted {
            Some(quote) => s2.push(b.quotation(quote)),
            None => s2,
        }),
        s4 == s3 + b.body.map_values(|line: Seq<char>| b.side(line)),
        s5 == s4.push(b.edge('╰', '╯')).push(b.foot()),
    ensures
        s5 == s0 + b.rendered(),
{
    let sides = b.body.map_values(|line: Seq<char>| b.side(line));
    let name: Seq<LineView> = match b.name {
        Some(name) => seq![single(b.gap() + name, coloured(b.colour))],
        None => Seq::empty(),
    };
    let quote: Seq<LineView> = match b.quoted {
        Some(quote) => seq![b.quotation(quote)],
        None => Seq::empty(),
    };
    assert(s1 =~= s0 + name);
    assert(s3 =~= s2 + quote);
    assert(b.rendered() == name + seq![b.edge('╭', '╮')] + quote + sides + seq![b.edge('╰', '╯'), b.foot()]);
    assert(s5 =~= s0 + b.rendered());
}

/// Adds a line.
pub(crate) fn push_line(out: &mut Vec<Line>, line: Line)
    ensures
        lines_view(final(out)@) == lines_view(old(out)@).push(line@),
{
    proof {
        lemma_lines_push(out@, line);
    }
    out.push(line);
}

impl Bubble {
    /// Computes [`BubbleView::inner`].
    fn inner(&self) -> (r: usize)
        ensures
            r == self@.inner(),
            r + 5 <= self.pane || r == 0,
    {
        let mut inner: usize = widest_of(&self.body);
        match &self.quoted {
            Some(quote) => {
                let w = layout::str_width(quote.as_str());
                if w > inner {
                    inner = w;
                }
            },
            None => {},
        }
        let meta_w = layout::str_width(self.meta.as_str());
        if meta_w > inner {
            inner = meta_w;
        }
        let room: usize = self.pane.saturating_sub(5);
        if inner > room {
            inner = room;
        }
        inner
    }

    /// Computes [`BubbleView::edge`].
    fn edge(&self, inner: usize, gap: &String, left: char, right: char) -> (r: Line)
        requires
            inner == self@.inner(),
            inner + 5 <= usize::MAX,
            gap@ == self@.gap(),
        ensures
            r@ == self@.edge(left, right),
    {
        let mut s = gap.clone();
        s.push(left);
        s.append(layout::repeat('─', inner + 2).as_str());
        s.push(right);
        assert(s@ =~= self@.gap().push(left) + layout::repeated('─', self@.inner() + 2).push(right));
        Line::single(s, Style::of(self.colour))
    }

    /// Computes [`BubbleView::quotation`].
    fn quotation(&self, inner: usize, gap: &String, quote: &String) -> (r: Line)
        requires
            inner == self@.inner(),
            gap@ == self@.gap(),
        ensures
            r@ == self@.quotation(quote@),
    {
        let edge = Style::of(self.colour);
        Line::triple(
            Span { content: gap.clone().concat("│ "), style: edge },
            Span {
                content: layout::pad_right(quote.as_str(), inner),
                style: Style {
                    fg: Some(Color::DarkGray),
                    bg: None,
                    bold: false,
                    italic: true,
                    reversed: false,
                },
            },
            Span { content: " │".to_owned(), style: edge },
        )
    }

    /// Computes [`BubbleView::side`].
    fn side(&self, inner: usize, gap: &String, line: &String) -> (r: Line)
        requires
            inner == self@.inner(),
            gap@ == self@.gap(),
        ensures
            r@ == self@.side(line@),
    {
        let edge = Style::of(self.colour);
        let fill: usize = inner.saturating_sub(layout::str_width(line.as_str()));
        Line::triple(
            Span { content: gap.clone().concat("│ "), style: edge },
            Span { content: line.clone(), style: self.style },
            Span { content: layout::repeat(' ', fill).concat(" │"), style: edge },
        )
    }

    /// Draws the body between the sides.
    fn sides(&self, inner: usize, gap: &String, out: &mut Vec<Line>)
        requires
            inner == self@.inner(),
            gap@ == self@.gap(),
        ensures
            lines_view(final(out)@) == lines_view(old(out)@) + self@.body.map_values(
                |line: Seq<char>| self@.side(line),
            ),
    {
        let ghost b = self@;
        let ghost f = |line: Seq<char>| b.side(line);
        let ghost start = lines_view(out@);
        let mut i: usize = 0;
        assert(start + b.body.take(0).map_values(f) =~= start);
        while i < self.body.len()
            invariant
                i <= self.body@.len(),
                b == self@,
                f == (|line: Seq<char>| b.side(line)),
                inner == b.inner(),
                gap@ == b.gap(),
                lines_view(out@) == start + b.body.take(i as int).map_values(f),
            decreases self.body@.len() - i,
        {
            push_line(out, self.side(inner, gap, &self.body[i]));
            proof {
                assert(b.body[i as int] == self.body@[i as int]@);
                assert(b.body.take(i + 1).map_values(f) =~= b.body.take(i as int).map_values(f).push(
                    b.side(b.body[i as int]),
                ));
                assert(start + b.body.take(i + 1).map_values(f) =~= (start + b.body.take(i as int).map_values(
                    f,
                )).push(b.side(b.body[i as int])));
            }
            i = i + 1;
        }
        assert(b.body.take(i as int) =~= b.body);
    }

    /// Draws the bubble below the lines that are there.
    pub fn render(&self, out: &mut Vec<Line>)
        ensures
            lines_view(final(out)@) == lines_view(old(out)@) + self@.rendered(),
    {
        let ghost b = self@;
        let inner = self.inner();
        let pad: usize = if self.mine { self.pane.saturating_sub(inner + 5) } else { 0 };
        let gap = layout::repeat(' ', pad);
        let ghost s0 = lines_view(out@);
        match &self.name {
            Some(name) => {
                push_line(out, Line::single(gap.clone().concat(name.as_str()), Style::of(self.colour)));
            },
            None => {},
        }
        let ghost s1 = lines_view(out@);
        push_line(out, self.edge(inner, &gap, '╭', '╮'));
        let ghost s2 = lines_view(out@);
        match &self.quoted {
            Some(quote) => {
                push_line(out, self.quotation(inner, &gap, quote));
            },
            None => {},
        }
        let ghost s3 = lines_view(out@);
        self.sides(inner, &gap, out);
        let ghost s4 = lines_view(out@);
        push_line(out, self.edge(inner, &gap, '╰', '╯'));
        push_line(out, self.foot(inner, pad, &gap));
        proof {
            lemma_rendered(b, s0, s1, s2, s3, s4, lines_view(out@));
        }
    }

    /// Computes [`BubbleView::foot`].
    fn foot(&self, inner: usize, pad: usize, gap: &String) -> (r: Line)
        requires
            inner == self@.inner(),
            pad == self@.pad(),
            gap@ == self@.gap(),
            pad + inner + 5 <= usize::MAX,
        ensures
            r@ == self@.foot(),
    {
        let ghost b = self@;
        let mark_w: usize = match &self.marker {
            Some((glyph, _)) => layout::str_width(glyph.as_str()).saturating_add(1),
            None => 0,
        };
        let content = if self.mine {
            layout::pad_left(self.meta.as_str(), (pad + inner + 4).saturating_sub(mark_w.saturating_add(1)))
        } else {
            let mut s = gap.clone();
            s.push(' ');
            s.concat(self.meta.as_str())
        };
        let mut line = Line::single(content, Style::of(Color::DarkGray));
        match &self.marker {
            Some((glyph, colour)) => {
                line.push(Span { content: " ".to_owned().concat(glyph.as_str()), style: Style::of(*colour) });
            },
            None => {},
        }
        assert(line@.spans =~= b.foot().spans);
        line
    }
}

/// A bubble of yours ends one column before the edge of the pane, and one of
/// theirs no later, so a bubble never fuses with the border.
pub proof fn law_bubbles_keep_off_the_border(b: BubbleView)
    requires
        b.pane >= 5,
    ensures
        b.mine ==> b.pad() + b.inner() + 4 == b.pane - 1,
        !b.mine ==> b.pad() + b.inner() + 4 <= b.pane - 1,
        b.edge('╭', '╮').spans[0].content.len() <= b.pane - 1,
        b.edge('╰', '╯').spans[0].content.len() <= b.pane - 1,
{
}

/// A name behind an at sign stands out, up to the next blank, comma or full stop,
/// whatever comes before and behind it, and more where it is yours.
pub proof fn law_mentions_stand_out(before: Seq<char>, name: Seq<char>, rest: Seq<char>, me: Seq<char>)
    requires
        forall|i: int| 0 <= i < before.len() ==> (#[trigger] before[i]) != '@',
        forall|i: int|
            0 <= i < name.len() ==> !text::blank(#[trigger] name[i]) && name[i] != ',' && name[i] != '.',
        rest.len() > 0 ==> text::blank(rest[0]) || rest[0] == ',' || rest[0] == '.',
    ensures
        ({
            let shown = mentions(before + seq!['@'] + name + rest, me);
            let mention = styled(
                seq!['@'] + name,
                if layout::same_ignoring_case(name, me) {
                    Style { fg: Some(Color::Black), bg: Some(Color::Yellow), ..plain() }
                } else {
                    Style { fg: Some(Color::Blue), bold: true, ..plain() }
                },
            );
            &&& before.len() > 0 ==> shown == seq![styled(before, plain()), mention] + mentions(rest, me)
            &&& before.len() == 0 ==> shown == seq![mention] + mentions(rest, me)
        }),
{
    let s = before + seq!['@'] + name + rest;
    lemma_run_to_at(before, seq!['@'] + name + rest);
    assert(s =~= before + (seq!['@'] + name + rest));
    let at = before.len() as int;
    let tail = s.skip(at + 1);
    assert(tail =~= name + rest);
    assert(s.take(at) =~= before);
    let n = name.len() as int;
    assert forall|i: int| 0 <= i < n implies !ends_mention(#[trigger] tail[i]) by {
        assert(tail[i] == name[i]);
    }
    if n < tail.len() {
        assert(tail[n] == rest[0]);
    }
    lemma_mention_len(tail, n);
    assert(tail.take(n) =~= name);
    assert(tail.skip(n) =~= rest);
    if before.len() > 0 {
        assert(mentions(s, me) =~= seq![
            styled(before, plain()),
            styled(seq!['@'] + name, mention_style(name, me)),
        ] + mentions(rest, me));
    } else {
        assert(mentions(s, me) =~= seq![styled(seq!['@'] + name, mention_style(name, me))] + mentions(rest, me));
    }
}

proof fn lemma_run_to_at(before: Seq<char>, rest: Seq<char>)
    requires
        forall|i: int| 0 <= i < before.len() ==> (#[trigger] before[i]) != '@',
        rest.len() > 0,
        rest[0] == '@',
    ensures
        layout::run_to(before + rest, '@') == before.len(),
    decreases before.len(),
{
    if before.len() > 0 {
        let tail = before.skip(1);
        assert forall|i: int| 0 <= i < tail.len() implies (#[trigger] tail[i]) != '@' by {
            assert(tail[i] == before[i + 1]);
        }
        lemma_run_to_at(tail, rest);
        assert((before + rest)[0] == before[0]);
        assert((before + rest).skip(1) =~= tail + rest);
    } else {
        assert(before + rest =~= rest);
    }
}

/// A text without an at sign is written as it is.
pub proof fn law_plain_text_is_plain(s: Seq<char>, me: Seq<char>)
    requires
        forall|i: int| 0 <= i < s.len() ==> (#[trigger] s[i]) != '@',
        s.len() > 0,
    ensures
        mentions(s, me) == seq![styled(s, plain())],
{
    layout::lemma_run_to_char(s, '@');
    let n = layout::run_to(s, '@') as int;
    if n < s.len() {
        assert(s[n] == '@');
    }
}

/// A bubble is as wide as the widest of its lines, what it quotes and its time, as
/// far as the pane allows: each that fits in the pane fits in the bubble, and the
/// bubble is no wider than it has to be.
pub proof fn law_bubbles_are_as_wide_as_they_must_be(b: BubbleView, i: int, w: nat)
    ensures
        b.pane >= 5 ==> b.inner() <= b.pane - 5,
        0 <= i < b.body.len() && layout::columns(b.body[i]) + 5 <= b.pane ==> layout::columns(b.body[i]) <= b.inner(),
        layout::columns(b.meta) + 5 <= b.pane ==> layout::columns(b.meta) <= b.inner(),
        b.quoted matches Some(q) ==> (layout::columns(q) + 5 <= b.pane ==> layout::columns(q) <= b.inner()),
        (forall|k: int| 0 <= k < b.body.len() ==> layout::columns(#[trigger] b.body[k]) <= w) && layout::columns(
            b.meta,
        ) <= w && (b.quoted matches Some(q) ==> layout::columns(q) <= w) ==> b.inner() <= w,
{
    lemma_widest(b.body, i, w);
}

proof fn lemma_widest(lines: Seq<Seq<char>>, i: int, w: nat)
    ensures
        0 <= i < lines.len() ==> layout::columns(lines[i]) <= widest(lines),
        (forall|k: int| 0 <= k < lines.len() ==> layout::columns(#[trigger] lines[k]) <= w) ==> widest(lines) <= w,
    decreases lines.len(),
{
    if lines.len() > 0 {
        let init = lines.drop_last();
        lemma_widest(init, i, w);
        if 0 <= i < init.len() {
            assert(init[i] == lines[i]);
        }
        if forall|k: int| 0 <= k < lines.len() ==> layout::columns(#[trigger] lines[k]) <= w {
            assert forall|k: int| 0 <= k < init.len() implies layout::columns(#[trigger] init[k]) <= w by {
                assert(init[k] == lines[k]);
            }
            assert(lines[lines.len() - 1] == lines.last());
        }
    }
}

} // verus!
