//! Text as it is laid out on the screen: widths in columns, wrapping, padding,
//! sizes in words.

use crate::text;
use unicode_width::{UnicodeWidthChar, UnicodeWidthStr};
use vstd::prelude::*;

verus! {

/// How many columns a character takes; `None` for control characters.
pub uninterp spec fn char_columns(c: char) -> Option<usize>;

/// How many columns a string takes, which need not be the sum over its
/// characters.
pub uninterp spec fn columns(s: Seq<char>) -> usize;

/// `unicode_width::UnicodeWidthChar::width`.
#[verifier::external_body]
pub(crate) fn char_width(c: char) -> (r: Option<usize>)
    ensures
        r == char_columns(c),
{
    UnicodeWidthChar::width(c)
}

/// `unicode_width::UnicodeWidthStr::width`.
#[verifier::external_body]
pub(crate) fn str_width(s: &str) -> (r: usize)
    ensures
        r == columns(s@),
{
    UnicodeWidthStr::width(s)
}

/// The columns of a character, none for a control character.
pub open spec fn span_of(c: char) -> nat {
    match char_columns(c) {
        Some(n) => n as nat,
        None => 0,
    }
}

/// Computes [`span_of`].
fn column_count(c: char) -> (r: usize)
    ensures
        r == span_of(c),
{
    match char_width(c) {
        Some(n) => n,
        None => 0,
    }
}

/// Subtraction that stops at zero.
pub open spec fn monus(a: nat, b: nat) -> nat {
    if a >= b {
        (a - b) as nat
    } else {
        0
    }
}

/// The smaller of two numbers.
pub open spec fn least(a: nat, b: nat) -> nat {
    if a <= b {
        a
    } else {
        b
    }
}

/// The larger of two numbers.
pub open spec fn most(a: nat, b: nat) -> nat {
    if a >= b {
        a
    } else {
        b
    }
}

/// A character over and over.
pub open spec fn repeated(c: char, n: nat) -> Seq<char> {
    Seq::new(n, |i: int| c)
}

/// Computes [`repeated`].
pub fn repeat(c: char, n: usize) -> (r: String)
    ensures
        r@ == repeated(c, n as nat),
{
    let mut out: String = String::new();
    let mut i: usize = 0;
    while i < n
        invariant
            i <= n,
            out@ == repeated(c, i as nat),
        decreases n - i,
    {
        out.push(c);
        i = i + 1;
        assert(out@ =~= repeated(c, i as nat));
    }
    assert(out@ =~= repeated(c, n as nat));
    out
}

/// A string with blanks behind it, to at least `n` characters.
pub open spec fn padded_right(s: Seq<char>, n: nat) -> Seq<char> {
    s + repeated(' ', monus(n, s.len()))
}

/// Computes [`padded_right`].
pub fn pad_right(s: &str, n: usize) -> (r: String)
    ensures
        r@ == padded_right(s@, n as nat),
{
    let len: usize = text::chars_of(s).len();
    s.to_owned().concat(repeat(' ', n.saturating_sub(len)).as_str())
}

/// A string with blanks before it, to at least `n` characters.
pub open spec fn padded_left(s: Seq<char>, n: nat) -> Seq<char> {
    repeated(' ', monus(n, s.len())) + s
}

/// Computes [`padded_left`].
pub fn pad_left(s: &str, n: usize) -> (r: String)
    ensures
        r@ == padded_left(s@, n as nat),
{
    let len: usize = text::chars_of(s).len();
    repeat(' ', n.saturating_sub(len)).concat(s)
}

/// Strings as mathematical values.
pub open spec fn strings_view(v: Seq<String>) -> Seq<Seq<char>> {
    v.map_values(|s: String| s@)
}

/// Pushing a string pushes its characters.
pub proof fn lemma_strings_push(v: Seq<String>, s: String)
    ensures
        strings_view(v.push(s)) == strings_view(v).push(s@),
{
    assert(strings_view(v.push(s)) =~= strings_view(v).push(s@));
}

/// How many characters stand before the first `c`.
pub open spec fn run_to(s: Seq<char>, c: char) -> nat
    decreases s.len(),
{
    if s.len() == 0 || s[0] == c {
        0
    } else {
        1 + run_to(s.skip(1), c)
    }
}

proof fn lemma_run_to(s: Seq<char>, c: char, n: int)
    requires
        0 <= n <= s.len(),
        forall|i: int| 0 <= i < n ==> #[trigger] s[i] != c,
        n == s.len() || s[n] == c,
    ensures
        run_to(s, c) == n,
    decreases s.len(),
{
    if n > 0 {
        assert(s[0] != c);
        assert forall|i: int| 0 <= i < n - 1 implies #[trigger] s.skip(1)[i] != c by {
            assert(s[i + 1] != c);
        }
        lemma_run_to(s.skip(1), c, n - 1);
    }
}

/// Where a run ends, there is the character, or nothing.
pub proof fn lemma_run_to_char(s: Seq<char>, c: char)
    ensures
        run_to(s, c) <= s.len(),
        run_to(s, c) < s.len() ==> s[run_to(s, c) as int] == c,
    decreases s.len(),
{
    if s.len() > 0 && s[0] != c {
        lemma_run_to_char(s.skip(1), c);
    }
}

/// Computes [`run_to`] from position `from` on; the result is the position of
/// the first `c`, or the length.
pub fn find_from(chars: &Vec<char>, from: usize, c: char) -> (r: usize)
    requires
        from <= chars@.len(),
    ensures
        from <= r <= chars@.len(),
        r - from == run_to(chars@.skip(from as int), c),
        r < chars@.len() ==> chars@[r as int] == c,
        forall|i: int| from <= i < r ==> #[trigger] chars@[i] != c,
{
    let mut i: usize = from;
    while i < chars.len() && chars[i] != c
        invariant
            from <= i <= chars@.len(),
            forall|j: int| from <= j < i ==> #[trigger] chars@[j] != c,
        decreases chars@.len() - i,
    {
        i = i + 1;
    }
    proof {
        let s = chars@.skip(from as int);
        assert forall|j: int| 0 <= j < i - from implies #[trigger] s[j] != c by {
            assert(chars@[j + from] != c);
        }
        lemma_run_to(s, c, i - from);
    }
    i
}

/// The paragraphs of a text: what stands between line breaks.
pub open spec fn paragraphs(s: Seq<char>) -> Seq<Seq<char>>
    decreases s.len(),
{
    let n = run_to(s, '\n') as int;
    if 0 <= n < s.len() {
        seq![s.take(n)] + paragraphs(s.skip(n + 1))
    } else {
        seq![s]
    }
}

/// How many characters stand before the first white space.
pub open spec fn word_len(s: Seq<char>) -> nat
    decreases s.len(),
{
    if s.len() == 0 || text::blank(s[0]) {
        0
    } else {
        1 + word_len(s.skip(1))
    }
}

proof fn lemma_word_len(s: Seq<char>, n: int)
    requires
        0 <= n <= s.len(),
        forall|i: int| 0 <= i < n ==> !text::blank(#[trigger] s[i]),
        n == s.len() || text::blank(s[n]),
    ensures
        word_len(s) == n,
    decreases s.len(),
{
    if n > 0 {
        assert(!text::blank(s[0]));
        assert forall|i: int| 0 <= i < n - 1 implies !text::blank(#[trigger] s.skip(1)[i]) by {
            assert(!text::blank(s[i + 1]));
        }
        lemma_word_len(s.skip(1), n - 1);
    }
}

/// A word is no longer than what it stands in.
pub proof fn lemma_word_len_bound(s: Seq<char>)
    ensures
        word_len(s) <= s.len(),
    decreases s.len(),
{
    if s.len() > 0 && !text::blank(s[0]) {
        lemma_word_len_bound(s.skip(1));
    }
}

/// The words of a text: what stands between white space.
pub open spec fn words(s: Seq<char>) -> Seq<Seq<char>>
    decreases s.len(),
{
    proof {
        lemma_word_len_bound(s);
    }
    if s.len() == 0 {
        Seq::empty()
    } else if text::blank(s[0]) {
        words(s.skip(1))
    } else {
        seq![s.take(word_len(s) as int)] + words(s.skip(word_len(s) as int))
    }
}

/// Computes [`paragraphs`].
fn split_lines(s: &str) -> (r: Vec<String>)
    ensures
        strings_view(r@) == paragraphs(s@),
{
    let chars = text::chars_of(s);
    let mut out: Vec<String> = Vec::new();
    let mut from: usize = 0;
    proof {
        assert(chars@.skip(0) =~= chars@);
        assert(strings_view(out@) + paragraphs(chars@) =~= paragraphs(chars@));
    }
    loop
        invariant
            from <= chars@.len(),
            chars@ == s@,
            strings_view(out@) + paragraphs(chars@.skip(from as int)) == paragraphs(chars@),
        decreases chars@.len() - from,
    {
        let end = find_from(&chars, from, '\n');
        let line = text::string_of(vstd::slice::slice_subrange(chars.as_slice(), from, end));
        let ghost was = out@;
        let ghost rest = chars@.skip(from as int);
        out.push(line);
        proof {
            lemma_strings_push(was, line);
            assert(line@ =~= rest.take(end - from));
        }
        if end == chars.len() {
            proof {
                assert(rest.take(end - from) =~= rest);
                assert(strings_view(out@) =~= strings_view(was) + paragraphs(rest));
            }
            return out;
        }
        proof {
            assert(rest.skip(end - from + 1) =~= chars@.skip(end + 1));
            assert(strings_view(was) + (seq![line@] + paragraphs(chars@.skip(end + 1))) =~= strings_view(out@)
                + paragraphs(chars@.skip(end + 1)));
        }
        from = end + 1;
    }
}

/// Computes [`words`].
fn split_words(s: &str) -> (r: Vec<String>)
    ensures
        strings_view(r@) == words(s@),
{
    let chars = text::chars_of(s);
    let mut out: Vec<String> = Vec::new();
    let mut from: usize = 0;
    proof {
        assert(chars@.skip(0) =~= chars@);
        assert(strings_view(out@) + words(chars@) =~= words(chars@));
    }
    while from < chars.len()
        invariant
            from <= chars@.len(),
            chars@ == s@,
            strings_view(out@) + words(chars@.skip(from as int)) == words(chars@),
        decreases chars@.len() - from,
    {
        let ghost rest = chars@.skip(from as int);
        if chars[from].is_whitespace() {
            assert(rest.skip(1) =~= chars@.skip(from + 1));
            from = from + 1;
        } else {
            let mut end: usize = from + 1;
            while end < chars.len() && !chars[end].is_whitespace()
                invariant
                    from < end <= chars@.len(),
                    forall|j: int| from <= j < end ==> !text::blank(#[trigger] chars@[j]),
                decreases chars@.len() - end,
            {
                end = end + 1;
            }
            let word = text::string_of(vstd::slice::slice_subrange(chars.as_slice(), from, end));
            let ghost was = out@;
            out.push(word);
            proof {
                assert forall|j: int| 0 <= j < end - from implies !text::blank(#[trigger] rest[j]) by {
                    assert(!text::blank(chars@[j + from]));
                }
                lemma_word_len(rest, end - from);
                lemma_strings_push(was, word);
                assert(word@ =~= rest.take(end - from));
                assert(rest.skip(end - from) =~= chars@.skip(end as int));
                assert(strings_view(was) + (seq![word@] + words(chars@.skip(end as int))) =~= strings_view(
                    out@,
                ) + words(chars@.skip(end as int)));
            }
            from = end;
        }
    }
    proof {
        assert(words(chars@.skip(from as int)) =~= Seq::empty());
        assert(strings_view(out@) + Seq::<Seq<char>>::empty() =~= strings_view(out@));
    }
    out
}

/// Lines that are done, and the line being filled.
pub type Filling = (Seq<Seq<char>>, Seq<char>);

/// Adds a character of a word that is too wide for any line.
pub open spec fn char_step(f: Filling, c: char, width: nat) -> Filling {
    if f.1.len() > 0 && columns(f.1) + span_of(c) > width {
        (f.0.push(f.1), seq![c])
    } else {
        (f.0, f.1.push(c))
    }
}

/// Adds the characters of a word that is too wide for any line.
pub open spec fn chars_step(f: Filling, word: Seq<char>, width: nat) -> Filling
    decreases word.len(),
{
    if word.len() == 0 {
        f
    } else {
        char_step(chars_step(f, word.drop_last(), width), word.last(), width)
    }
}

/// Adds a word: to the line where it fits with a blank between, to a new line
/// where it does not, and character by character where it never can.
pub open spec fn word_step(f: Filling, word: Seq<char>, width: nat) -> Filling {
    let f = if f.1.len() > 0 && columns(f.1) + 1 + columns(word) > width {
        (f.0.push(f.1), Seq::<char>::empty())
    } else {
        f
    };
    if columns(word) > width {
        chars_step(f, word, width)
    } else if f.1.len() > 0 {
        (f.0, f.1.push(' ') + word)
    } else {
        (f.0, word)
    }
}

/// Adds words one after the other.
pub open spec fn words_step(f: Filling, words: Seq<Seq<char>>, width: nat) -> Filling
    decreases words.len(),
{
    if words.len() == 0 {
        f
    } else {
        word_step(words_step(f, words.drop_last(), width), words.last(), width)
    }
}

/// The lines of paragraphs, each of which begins a new line.
pub open spec fn wrap_paragraphs(paras: Seq<Seq<char>>, width: nat) -> Seq<Seq<char>>
    decreases paras.len(),
{
    if paras.len() == 0 {
        Seq::empty()
    } else {
        let f = words_step(
            (wrap_paragraphs(paras.drop_last(), width), Seq::<char>::empty()),
            words(paras.last()),
            width,
        );
        f.0.push(f.1)
    }
}

/// A text in lines of at most `width` columns.
pub open spec fn wrapped(s: Seq<char>, width: nat) -> Seq<Seq<char>> {
    wrap_paragraphs(paragraphs(s), most(width, 1))
}

/// Computes [`chars_step`]: returns the line being filled.
fn fill_chars(out: &mut Vec<String>, line: String, word: &str, width: usize) -> (r: String)
    ensures
        (strings_view(final(out)@), r@) == chars_step((strings_view(old(out)@), line@), word@, width as nat),
{
    let chars = text::chars_of(word);
    let ghost start = (strings_view(out@), line@);
    let mut line: String = line;
    let mut i: usize = 0;
    assert(chars@.take(0) =~= Seq::<char>::empty());
    while i < chars.len()
        invariant
            i <= chars@.len(),
            (strings_view(out@), line@) == chars_step(start, chars@.take(i as int), width as nat),
        decreases chars@.len() - i,
    {
        let c = chars[i];
        let ghost was = out@;
        proof {
            assert(chars@.take(i + 1).drop_last() =~= chars@.take(i as int));
            assert(chars@.take(i + 1).last() == c);
        }
        let wide = str_width(line.as_str()) as u128 + column_count(c) as u128 > width as u128;
        if !is_empty(&line) && wide {
            out.push(line);
            proof {
                lemma_strings_push(was, line);
            }
            line = String::new();
            line.push(c);
            assert(line@ =~= seq![c]);
        } else {
            line.push(c);
        }
        i = i + 1;
    }
    assert(chars@.take(i as int) =~= chars@);
    line
}

/// Whether a string has no characters.
pub fn is_empty(s: &String) -> (r: bool)
    ensures
        r == (s@.len() == 0),
{
    s.as_str().is_empty()
}

/// Computes [`word_step`]: returns the line being filled.
fn fill_word(out: &mut Vec<String>, line: String, word: &String, width: usize) -> (r: String)
    ensures
        (strings_view(final(out)@), r@) == word_step((strings_view(old(out)@), line@), word@, width as nat),
{
    let word_width = str_width(word.as_str());
    let ghost was = out@;
    let mut line: String = line;
    let full = str_width(line.as_str()) as u128 + 1 + word_width as u128 > width as u128;
    if !is_empty(&line) && full {
        out.push(line);
        proof {
            lemma_strings_push(was, line);
        }
        line = String::new();
    }
    if word_width > width {
        fill_chars(out, line, word.as_str(), width)
    } else if !is_empty(&line) {
        line.push(' ');
        line.append(word.as_str());
        line
    } else {
        word.clone()
    }
}

/// Word wrap on display width, hard-splitting any word wider than the column.
pub fn wrap(s: &str, width: usize) -> (r: Vec<String>)
    ensures
        strings_view(r@) == wrapped(s@, width as nat),
        r@.len() > 0,
{
    let width: usize = if width > 1 { width } else { 1 };
    let paras = split_lines(s);
    let ghost all = strings_view(paras@);
    let mut out: Vec<String> = Vec::new();
    let mut i: usize = 0;
    proof {
        assert(all.take(0) =~= Seq::empty());
        assert(strings_view(out@) =~= Seq::empty());
        lemma_paragraphs_some(s@);
    }
    while i < paras.len()
        invariant
            i <= paras@.len(),
            all == strings_view(paras@),
            strings_view(out@) == wrap_paragraphs(all.take(i as int), width as nat),
            i > 0 ==> out@.len() > 0,
        decreases paras@.len() - i,
    {
        let ghost start = (strings_view(out@), Seq::<char>::empty());
        let list = split_words(paras[i].as_str());
        let ghost ws = strings_view(list@);
        proof {
            assert(all.take(i + 1).drop_last() =~= all.take(i as int));
            assert(all.take(i + 1).last() == paras@[i as int]@);
            assert(ws.take(0) =~= Seq::empty());
        }
        let mut line: String = String::new();
        let mut k: usize = 0;
        while k < list.len()
            invariant
                k <= list@.len(),
                ws == strings_view(list@),
                (strings_view(out@), line@) == words_step(start, ws.take(k as int), width as nat),
            decreases list@.len() - k,
        {
            proof {
                assert(ws.take(k + 1).drop_last() =~= ws.take(k as int));
                assert(ws.take(k + 1).last() == list@[k as int]@);
            }
            line = fill_word(&mut out, line, &list[k], width);
            k = k + 1;
        }
        assert(ws.take(k as int) =~= ws);
        let ghost was = out@;
        out.push(line);
        proof {
            lemma_strings_push(was, line);
        }
        i = i + 1;
    }
    assert(all.take(i as int) =~= all);
    out
}

proof fn lemma_paragraphs_some(s: Seq<char>)
    ensures
        paragraphs(s).len() > 0,
{
}

/// The first line of a text, cut to a width, with an ellipsis where the width
/// cut it.
pub open spec fn first_line_of(s: Seq<char>, width: nat) -> Seq<char> {
    let one = paragraphs(s)[0];
    let cut = wrapped(one, width)[0];
    if columns(cut) < columns(one) {
        cut.push('…')
    } else {
        cut
    }
}

/// Computes [`first_line_of`].
pub fn first_line(s: &str, width: usize) -> (r: String)
    ensures
        r@ == first_line_of(s@, width as nat),
{
    let chars = text::chars_of(s);
    let end = find_from(&chars, 0, '\n');
    let one = text::string_of(vstd::slice::slice_subrange(chars.as_slice(), 0, end));
    proof {
        assert(chars@.skip(0) =~= chars@);
        assert(one@ =~= chars@.take(end as int));
        assert(chars@.take(chars@.len() as int) =~= chars@);
    }
    let lines = wrap(one.as_str(), width);
    assert(strings_view(lines@)[0] == lines@[0]@);
    let mut cut = lines[0].clone();
    if str_width(cut.as_str()) < str_width(one.as_str()) {
        cut.push('…');
    }
    cut
}

/// A label between two bars that fill the width.
pub open spec fn ruled(label: Seq<char>, width: nat) -> Seq<char> {
    let bar = repeated('─', monus(width, (columns(label) + 2) as nat) / 2);
    bar.push(' ') + label.push(' ') + bar
}

/// A centred rule, used for day breaks and the unread mark.
pub fn rule(label: &str, width: usize) -> (r: String)
    ensures
        r@ == ruled(label@, width as nat),
{
    let bar = repeat('─', width.saturating_sub(str_width(label).saturating_add(2)) / 2);
    let mut out = bar.clone();
    out.push(' ');
    out.append(label);
    out.push(' ');
    out.append(bar.as_str());
    assert(out@ =~= ruled(label@, width as nat));
    out
}

/// The nearest whole number to a quotient; of two that are as near, the even
/// one.
pub open spec fn nearest(num: nat, den: nat) -> nat {
    let q = num / den;
    let r = num % den;
    if 2 * r > den || (2 * r == den && q % 2 == 1) {
        q + 1
    } else {
        q
    }
}

/// Computes [`nearest`].
fn nearest_of(num: u128, den: u128) -> (r: u128)
    requires
        0 < den < 0x1_0000_0000_0000_0000,
        num < 0x1_0000_0000_0000_0000_0000,
    ensures
        r == nearest(num as nat, den as nat),
        r <= num + 1,
{
    let q: u128 = num / den;
    let rest: u128 = num % den;
    assert(q <= num) by (nonlinear_arith)
        requires
            q == num / den,
            den > 0,
    ;
    if 2 * rest > den || (2 * rest == den && q % 2 == 1) {
        q + 1
    } else {
        q
    }
}

/// The smallest power of two that leaves 53 bits of a number of 64 bits.
pub open spec fn coarse_step(n: nat) -> nat {
    if n < 0x20000000000000 {
        1
    } else if n < 0x40000000000000 {
        2
    } else if n < 0x80000000000000 {
        4
    } else if n < 0x100000000000000 {
        8
    } else if n < 0x200000000000000 {
        16
    } else if n < 0x400000000000000 {
        32
    } else if n < 0x800000000000000 {
        64
    } else if n < 0x1000000000000000 {
        128
    } else if n < 0x2000000000000000 {
        256
    } else if n < 0x4000000000000000 {
        512
    } else if n < 0x8000000000000000 {
        1024
    } else {
        2048
    }
}

/// Computes [`coarse_step`].
fn coarse_step_of(n: u64) -> (r: u128)
    ensures
        r == coarse_step(n as nat),
{
    if n < 0x20000000000000 {
        1
    } else if n < 0x40000000000000 {
        2
    } else if n < 0x80000000000000 {
        4
    } else if n < 0x100000000000000 {
        8
    } else if n < 0x200000000000000 {
        16
    } else if n < 0x400000000000000 {
        32
    } else if n < 0x800000000000000 {
        64
    } else if n < 0x1000000000000000 {
        128
    } else if n < 0x2000000000000000 {
        256
    } else if n < 0x4000000000000000 {
        512
    } else if n < 0x8000000000000000 {
        1024
    } else {
        2048
    }
}

/// A number of bytes to 53 significant bits, which is all that a size is shown
/// from.
pub open spec fn coarse(n: nat) -> nat {
    nearest(n, coarse_step(n)) * coarse_step(n)
}

/// Computes [`coarse`].
fn coarse_of(n: u64) -> (r: u128)
    ensures
        r == coarse(n as nat),
        r <= 0x1_0000_0000_0000_0000,
{
    let step = coarse_step_of(n);
    let q = nearest_of(n as u128, step);
    proof {
        lemma_coarse_bound(n as nat, step as nat);
    }
    q * step
}

proof fn lemma_coarse_bound(n: nat, step: nat)
    requires
        n <= u64::MAX,
        step == 1 || step == 2 || step == 4 || step == 8 || step == 16 || step == 32 || step == 64 || step == 128
            || step == 256 || step == 512 || step == 1024 || step == 2048,
    ensures
        nearest(n, step) * step <= 0x1_0000_0000_0000_0000,
{
    let q = n / step;
    let top: nat = 0x1_0000_0000_0000_0000;
    assert(nearest(n, step) <= q + 1);
    assert((q + 1) * step <= top) by {
        if step == 1 {
        } else if step == 2 {
            assert(q + 1 <= top / 2);
        } else if step == 4 {
            assert(q + 1 <= top / 4);
        } else if step == 8 {
            assert(q + 1 <= top / 8);
        } else if step == 16 {
            assert(q + 1 <= top / 16);
        } else if step == 32 {
            assert(q + 1 <= top / 32);
        } else if step == 64 {
            assert(q + 1 <= top / 64);
        } else if step == 128 {
            assert(q + 1 <= top / 128);
        } else if step == 256 {
            assert(q + 1 <= top / 256);
        } else if step == 512 {
            assert(q + 1 <= top / 512);
        } else if step == 1024 {
            assert(q + 1 <= top / 1024);
        } else {
            assert(q + 1 <= top / 2048);
        }
    }
    assert(nearest(n, step) * step <= (q + 1) * step) by (nonlinear_arith)
        requires
            nearest(n, step) <= q + 1,
    ;
}

/// A number of bytes in words: bytes as they are below 1024, and else in the
/// largest unit up to GiB that leaves at least one, to one decimal.
pub open spec fn sized(bytes: nat) -> Seq<char> {
    if bytes < 0x400 {
        text::decimal(bytes) + " B"@
    } else if bytes < 0x10_0000 {
        tenths(nearest(10 * bytes, 0x400)) + " KiB"@
    } else if bytes < 0x4000_0000 {
        tenths(nearest(10 * bytes, 0x10_0000)) + " MiB"@
    } else {
        tenths(nearest(10 * coarse(bytes), 0x4000_0000)) + " GiB"@
    }
}

/// A number of tenths with a decimal point.
pub open spec fn tenths(n: nat) -> Seq<char> {
    text::decimal(n / 10) + "."@ + text::decimal(n % 10)
}

/// Computes [`tenths`].
fn tenths_of(n: u128) -> (r: String)
    requires
        n < 0x1_0000_0000_0000_0000,
    ensures
        r@ == tenths(n as nat),
{
    text::decimal_of((n / 10) as u64).concat(".").concat(text::decimal_of((n % 10) as u64).as_str())
}

/// Computes [`sized`].
pub fn human(bytes: u64) -> (r: String)
    ensures
        r@ == sized(bytes as nat),
{
    let b: u128 = bytes as u128;
    if bytes < 0x400 {
        text::decimal_of(bytes).concat(" B")
    } else if bytes < 0x10_0000 {
        tenths_of(nearest_of(10 * b, 0x400)).concat(" KiB")
    } else if bytes < 0x4000_0000 {
        tenths_of(nearest_of(10 * b, 0x10_0000)).concat(" MiB")
    } else {
        let c = coarse_of(bytes);
        let n = nearest_of(10 * c, 0x4000_0000);
        assert(n <= 10 * c / 0x4000_0000 + 1);
        tenths_of(n).concat(" GiB")
    }
}

/// How many of the twenty cells of a progress bar are filled.
pub open spec fn filled(done: nat, total: nat) -> nat {
    if total == 0 {
        0
    } else {
        least(done * 20 / total, 20)
    }
}

/// A progress bar of twenty cells, and how much of how much.
pub open spec fn progress(done: nat, total: nat) -> Seq<char> {
    "["@ + repeated('=', filled(done, total)) + repeated(' ', (20 - filled(done, total)) as nat) + "] "@ + sized(
        done,
    ) + "/"@ + sized(total)
}

/// Computes [`progress`]. A peer that lies about the size is shown a full bar.
pub fn progress_bar(done: u64, total: u64) -> (r: String)
    ensures
        r@ == progress(done as nat, total as nat),
{
    let cells: u128 = if total == 0 { 0 } else { done as u128 * 20 / total as u128 };
    let n: usize = if cells > 20 { 20 } else { cells as usize };
    "[".to_owned().concat(repeat('=', n).as_str()).concat(repeat(' ', 20 - n).as_str()).concat("] ").concat(
        human(done).as_str(),
    ).concat("/").concat(human(total).as_str())
}

/// A progress bar is always twenty cells wide, however the sizes lie.
pub proof fn law_progress_bar_is_bounded(done: nat, total: nat)
    ensures
        filled(done, total) <= 20,
        repeated('=', filled(done, total)).len() + repeated(' ', (20 - filled(done, total)) as nat).len() == 20,
        total > 0 && done >= total ==> filled(done, total) == 20,
{
    if total > 0 && done >= total {
        assert(done * 20 / total >= 20) by (nonlinear_arith)
            requires
                done >= total,
                total > 0,
        ;
    }
}

/// How many bytes a string takes.
pub open spec fn byte_len(s: Seq<char>) -> nat {
    vstd::utf8::encode_utf8(s).len()
}

/// How many bytes a character takes.
pub open spec fn char_bytes(c: char) -> nat {
    vstd::utf8::encode_scalar(c as u32).len()
}

/// Computes [`char_bytes`].
pub fn utf8_len(c: char) -> (r: usize)
    ensures
        r == char_bytes(c),
        1 <= r <= 4,
{
    let n: u32 = c as u32;
    if n < 0x80 {
        1
    } else if n < 0x800 {
        2
    } else if n < 0x10000 {
        3
    } else {
        4
    }
}

/// One more character adds its own bytes.
pub proof fn lemma_byte_len_push(s: Seq<char>, c: char)
    ensures
        byte_len(s.push(c)) == byte_len(s) + char_bytes(c),
    decreases s.len(),
{
    if s.len() == 0 {
        assert(s.push(c).drop_first() =~= Seq::<char>::empty());
        assert(vstd::utf8::encode_utf8(Seq::<char>::empty()).len() == 0);
        assert(s.push(c)[0] == c);
    } else {
        lemma_byte_len_push(s.drop_first(), c);
        assert(s.push(c).drop_first() =~= s.drop_first().push(c));
        assert(s.push(c)[0] == s[0]);
    }
}

/// A beginning of a string takes no more bytes than the string, and fewer where
/// it is shorter.
pub proof fn lemma_byte_len_take(s: Seq<char>, n: int)
    requires
        0 <= n <= s.len(),
    ensures
        byte_len(s.take(n)) <= byte_len(s),
        n < s.len() ==> byte_len(s.take(n)) < byte_len(s),
    decreases s.len() - n,
{
    if n == s.len() {
        assert(s.take(n) =~= s);
    } else {
        lemma_byte_len_take(s, n + 1);
        lemma_byte_len_push(s.take(n), s[n]);
        assert(s.take(n + 1) =~= s.take(n).push(s[n]));
    }
}

/// How many characters stand before a caret.
pub open spec fn index_at(s: Seq<char>, caret: nat) -> int {
    choose|n: int| 0 <= n <= s.len() && caret == #[trigger] byte_len(s.take(n))
}

/// A caret behind `n` characters has `n` characters before it.
pub proof fn lemma_index_at(s: Seq<char>, n: int)
    requires
        0 <= n <= s.len(),
    ensures
        index_at(s, byte_len(s.take(n))) == n,
{
    let m = index_at(s, byte_len(s.take(n)));
    assert(0 <= m <= s.len() && byte_len(s.take(n)) == byte_len(s.take(m)));
    if m < n {
        lemma_byte_len_take(s.take(n), m);
        assert(s.take(n).take(m) =~= s.take(m));
    } else if n < m {
        lemma_byte_len_take(s.take(m), n);
        assert(s.take(m).take(n) =~= s.take(n));
    }
}

/// The byte offset behind `n` characters.
pub fn offset_of(s: &str, n: usize) -> (r: usize)
    requires
        n <= s@.len(),
    ensures
        r == byte_len(s@.take(n as int)),
{
    let chars = text::chars_of(s);
    let total: usize = s.as_bytes().len();
    let mut at: usize = 0;
    let mut i: usize = 0;
    proof {
        assert(chars@.take(0) =~= Seq::<char>::empty());
        assert(vstd::utf8::encode_utf8(Seq::<char>::empty()).len() == 0);
    }
    while i < n
        invariant
            i <= n <= chars@.len(),
            chars@ == s@,
            total == byte_len(s@),
            at == byte_len(chars@.take(i as int)),
        decreases n - i,
    {
        proof {
            lemma_byte_len_push(chars@.take(i as int), chars@[i as int]);
            assert(chars@.take(i + 1) =~= chars@.take(i as int).push(chars@[i as int]));
            lemma_byte_len_take(chars@, i + 1);
        }
        at = at + utf8_len(chars[i]);
        i = i + 1;
    }
    at
}

/// How many characters stand before the byte offset `caret`, which stands
/// between two characters or at an end.
pub fn chars_before(s: &str, caret: usize) -> (n: usize)
    requires
        exists|n: int| 0 <= n <= s@.len() && caret == #[trigger] byte_len(s@.take(n)),
    ensures
        n <= s@.len(),
        n == index_at(s@, caret as nat),
        caret == byte_len(s@.take(n as int)),
{
    let chars = text::chars_of(s);
    let count: usize = chars.len();
    let ghost goal = index_at(s@, caret as nat);
    let mut at: usize = 0;
    let mut i: usize = 0;
    proof {
        assert(chars@.take(0) =~= Seq::<char>::empty());
        assert(vstd::utf8::encode_utf8(Seq::<char>::empty()).len() == 0);
    }
    while at < caret
        invariant
            chars@ == s@,
            count == chars@.len(),
            0 <= goal <= chars@.len(),
            caret == byte_len(s@.take(goal)),
            i <= goal,
            at == byte_len(chars@.take(i as int)),
        decreases chars@.len() - i,
    {
        proof {
            assert(i < goal);
            lemma_byte_len_push(chars@.take(i as int), chars@[i as int]);
            assert(chars@.take(i + 1) =~= chars@.take(i as int).push(chars@[i as int]));
            lemma_byte_len_take(chars@.take(goal), i + 1);
            assert(chars@.take(goal).take(i + 1) =~= chars@.take(i + 1));
        }
        at = at + utf8_len(chars[i]);
        i = i + 1;
    }
    proof {
        if i < goal {
            lemma_byte_len_take(chars@.take(goal), i as int);
            assert(chars@.take(goal).take(i as int) =~= chars@.take(i as int));
        }
    }
    i
}

/// How many characters end at `column` or left of it, when `used` columns are
/// taken. The next one is drawn over `column`.
pub open spec fn chars_left_of(s: Seq<char>, column: nat, used: nat) -> nat
    decreases s.len(),
{
    if s.len() == 0 || used + span_of(s[0]) > column {
        0
    } else {
        1 + chars_left_of(s.skip(1), column, used + span_of(s[0]))
    }
}

/// The columns that characters take one after the other.
pub open spec fn spread(s: Seq<char>) -> nat
    decreases s.len(),
{
    if s.len() == 0 {
        0
    } else {
        span_of(s[0]) + spread(s.skip(1))
    }
}

/// A click finds the character drawn over its column: it begins at the column or
/// left of it, and ends right of it. Behind the last character there is none.
pub proof fn law_columns_find_their_character(s: Seq<char>, column: nat, used: nat)
    requires
        used <= column,
    ensures
        ({
            let n = chars_left_of(s, column, used);
            &&& n <= s.len()
            &&& used + spread(s.take(n as int)) <= column
            &&& n < s.len() ==> column < used + spread(s.take(n as int)) + span_of(s[n as int])
        }),
    decreases s.len(),
{
    if s.len() > 0 && used + span_of(s[0]) <= column {
        let n = chars_left_of(s, column, used);
        law_columns_find_their_character(s.skip(1), column, used + span_of(s[0]));
        assert(s.take(n as int).skip(1) =~= s.skip(1).take(n - 1));
    } else {
        assert(s.take(0) =~= Seq::<char>::empty());
    }
}

/// Byte offset of the character drawn at `column`, so clicking in the input bar
/// puts the caret where it looks like it should be.
pub fn byte_at_column(s: &str, column: usize) -> (r: usize)
    ensures
        chars_left_of(s@, column as nat, 0) <= s@.len(),
        r == byte_len(s@.take(chars_left_of(s@, column as nat, 0) as int)),
{
    let chars = text::chars_of(s);
    let mut used: usize = 0;
    let mut at: usize = 0;
    let mut i: usize = 0;
    let total: usize = s.as_bytes().len();
    proof {
        assert(chars@.skip(0) =~= chars@);
        assert(chars@.take(0) =~= Seq::<char>::empty());
        assert(vstd::utf8::encode_utf8(Seq::<char>::empty()).len() == 0);
    }
    while i < chars.len() && column_count(chars[i]) <= column - used
        invariant
            i <= chars@.len(),
            chars@ == s@,
            total == byte_len(s@),
            at == byte_len(chars@.take(i as int)),
            used <= column,
            i + chars_left_of(chars@.skip(i as int), column as nat, used as nat) == chars_left_of(
                s@,
                column as nat,
                0,
            ),
        decreases chars@.len() - i,
    {
        let c = chars[i];
        proof {
            lemma_byte_len_push(chars@.take(i as int), c);
            assert(chars@.take(i + 1) =~= chars@.take(i as int).push(c));
            lemma_byte_len_take(chars@, i + 1);
            assert(chars@.skip(i as int).skip(1) =~= chars@.skip(i + 1));
        }
        used = used + column_count(c);
        at = at + utf8_len(c);
        i = i + 1;
    }
    at
}

/// Whether two characters are the same but for the case of ASCII letters.
pub open spec fn same_folded(a: char, b: char) -> bool {
    lower(a) == lower(b)
}

/// An ASCII capital as a small letter, anything else as it is.
pub open spec fn lower(c: char) -> char {
    if 'A' <= c <= 'Z' {
        (c as u32 + 32) as char
    } else {
        c
    }
}

/// Computes [`lower`].
fn lower_of(c: char) -> (r: char)
    ensures
        r == lower(c),
{
    if 'A' <= c && c <= 'Z' {
        ((c as u8) + 32) as char
    } else {
        c
    }
}

/// Whether two strings are the same but for the case of ASCII letters.
pub open spec fn same_ignoring_case(a: Seq<char>, b: Seq<char>) -> bool {
    a.len() == b.len() && forall|i: int| 0 <= i < a.len() ==> same_folded(#[trigger] a[i], b[i])
}

/// Decides [`same_ignoring_case`].
pub fn eq_ignore_case(a: &[char], b: &str) -> (r: bool)
    ensures
        r == same_ignoring_case(a@, b@),
{
    let y = text::chars_of(b);
    if a.len() != y.len() {
        return false;
    }
    let mut i: usize = 0;
    while i < a.len()
        invariant
            i <= a@.len(),
            a@.len() == y@.len(),
            y@ == b@,
            forall|j: int| 0 <= j < i ==> same_folded(#[trigger] a@[j], y@[j]),
        decreases a@.len() - i,
    {
        if lower_of(a[i]) != lower_of(y[i]) {
            assert(!same_folded(a@[i as int], y@[i as int]));
            return false;
        }
        i = i + 1;
    }
    true
}

/// The characters of a text that are not white space.
pub open spec fn ink(s: Seq<char>) -> Seq<char>
    decreases s.len(),
{
    if s.len() == 0 {
        Seq::empty()
    } else if text::blank(s.last()) {
        ink(s.drop_last())
    } else {
        ink(s.drop_last()).push(s.last())
    }
}

/// The characters of lines that are not white space, one line after the other.
pub open spec fn ink_of_all(lines: Seq<Seq<char>>) -> Seq<char>
    decreases lines.len(),
{
    if lines.len() == 0 {
        Seq::empty()
    } else {
        ink_of_all(lines.drop_last()) + ink(lines.last())
    }
}

proof fn lemma_ink_add(a: Seq<char>, b: Seq<char>)
    ensures
        ink(a + b) == ink(a) + ink(b),
    decreases b.len(),
{
    if b.len() == 0 {
        assert(a + b =~= a);
        assert(ink(a) + ink(b) =~= ink(a));
    } else {
        lemma_ink_add(a, b.drop_last());
        assert((a + b).drop_last() =~= a + b.drop_last());
        assert((a + b).last() == b.last());
        assert(ink(a + b) =~= ink(a) + ink(b));
    }
}

proof fn lemma_ink_of_all_add(a: Seq<Seq<char>>, b: Seq<Seq<char>>)
    ensures
        ink_of_all(a + b) == ink_of_all(a) + ink_of_all(b),
    decreases b.len(),
{
    if b.len() == 0 {
        assert(a + b =~= a);
        assert(ink_of_all(a) + ink_of_all(b) =~= ink_of_all(a));
    } else {
        lemma_ink_of_all_add(a, b.drop_last());
        assert((a + b).drop_last() =~= a + b.drop_last());
        assert((a + b).last() == b.last());
        assert(ink_of_all(a + b) =~= ink_of_all(a) + ink_of_all(b));
    }
}

proof fn lemma_ink_of_one(s: Seq<char>)
    ensures
        ink_of_all(seq![s]) == ink(s),
{
    assert(seq![s].drop_last() =~= Seq::<Seq<char>>::empty());
    assert(ink_of_all(Seq::<Seq<char>>::empty()) + ink(s) =~= ink(s));
}

proof fn lemma_ink_of_char(c: char)
    ensures
        ink(seq![c]) == (if text::blank(c) {
            Seq::empty()
        } else {
            seq![c]
        }),
{
    assert(seq![c].drop_last() =~= Seq::<char>::empty());
    assert(ink(Seq::<char>::empty()).push(c) =~= seq![c]);
}

proof fn lemma_words_ink(s: Seq<char>)
    ensures
        ink_of_all(words(s)) == ink(s),
    decreases s.len(),
{
    if s.len() > 0 {
        if text::blank(s[0]) {
            lemma_words_ink(s.skip(1));
            lemma_ink_add(seq![s[0]], s.skip(1));
            lemma_ink_of_char(s[0]);
            assert(s =~= seq![s[0]] + s.skip(1));
            assert(ink(s) =~= ink(s.skip(1)));
        } else {
            lemma_word_len_bound(s);
            let n = word_len(s) as int;
            lemma_words_ink(s.skip(n));
            lemma_ink_add(s.take(n), s.skip(n));
            assert(s =~= s.take(n) + s.skip(n));
            lemma_ink_of_all_add(seq![s.take(n)], words(s.skip(n)));
            lemma_ink_of_one(s.take(n));
        }
    }
}

proof fn lemma_paragraphs_ink(s: Seq<char>)
    ensures
        ink_of_all(paragraphs(s)) == ink(s),
    decreases s.len(),
{
    lemma_run_to_char(s, '\n');
    let n = run_to(s, '\n') as int;
    if n < s.len() {
        let rest = s.skip(n + 1);
        lemma_paragraphs_ink(rest);
        lemma_ink_of_all_add(seq![s.take(n)], paragraphs(rest));
        lemma_ink_of_one(s.take(n));
        lemma_ink_add(s.take(n), seq!['\n']);
        lemma_ink_of_char('\n');
        lemma_ink_add(s.take(n) + seq!['\n'], rest);
        assert(s =~= s.take(n) + seq!['\n'] + rest);
        assert(ink(s.take(n)) + Seq::<char>::empty() =~= ink(s.take(n)));
    } else {
        lemma_ink_of_one(s);
    }
}

/// What lines that are done and the line being filled hold.
spec fn held(f: Filling) -> Seq<char> {
    ink_of_all(f.0) + ink(f.1)
}

proof fn lemma_held_push(f: Filling)
    ensures
        ink_of_all(f.0.push(f.1)) == held(f),
{
    assert(f.0.push(f.1).drop_last() =~= f.0);
}

proof fn lemma_chars_step_ink(f: Filling, word: Seq<char>, width: nat)
    ensures
        held(chars_step(f, word, width)) == held(f) + ink(word),
    decreases word.len(),
{
    if word.len() == 0 {
        assert(held(f) + ink(word) =~= held(f));
    } else {
        let g = chars_step(f, word.drop_last(), width);
        let c = word.last();
        lemma_chars_step_ink(f, word.drop_last(), width);
        lemma_ink_of_char(c);
        lemma_ink_add(g.1, seq![c]);
        lemma_ink_add(word.drop_last(), seq![c]);
        lemma_held_push(g);
        assert(g.1.push(c) =~= g.1 + seq![c]);
        assert(word =~= word.drop_last() + seq![c]);
        assert(held(char_step(g, c, width)) =~= held(g) + ink(seq![c]));
        assert(held(f) + ink(word) =~= held(g) + ink(seq![c]));
    }
}

proof fn lemma_word_step_ink(f: Filling, word: Seq<char>, width: nat)
    ensures
        held(word_step(f, word, width)) == held(f) + ink(word),
{
    let g = if f.1.len() > 0 && columns(f.1) + 1 + columns(word) > width {
        (f.0.push(f.1), Seq::<char>::empty())
    } else {
        f
    };
    lemma_held_push(f);
    assert(held(g) =~= held(f));
    lemma_chars_step_ink(g, word, width);
    lemma_ink_add(g.1, seq![' ']);
    lemma_ink_of_char(' ');
    lemma_ink_add(g.1.push(' '), word);
    assert(g.1.push(' ') =~= g.1 + seq![' ']);
    assert(ink(g.1) + Seq::<char>::empty() =~= ink(g.1));
    if g.1.len() == 0 {
        assert(ink_of_all(g.0) + ink(word) =~= held(g) + ink(word));
    } else {
        assert(ink_of_all(g.0) + (ink(g.1) + ink(word)) =~= held(g) + ink(word));
    }
}

proof fn lemma_words_step_ink(f: Filling, words: Seq<Seq<char>>, width: nat)
    ensures
        held(words_step(f, words, width)) == held(f) + ink_of_all(words),
    decreases words.len(),
{
    if words.len() == 0 {
        assert(held(f) + ink_of_all(words) =~= held(f));
    } else {
        let g = words_step(f, words.drop_last(), width);
        lemma_words_step_ink(f, words.drop_last(), width);
        lemma_word_step_ink(g, words.last(), width);
        assert(held(f) + ink_of_all(words) =~= held(g) + ink(words.last()));
    }
}

proof fn lemma_wrap_paragraphs_ink(paras: Seq<Seq<char>>, width: nat)
    ensures
        ink_of_all(wrap_paragraphs(paras, width)) == ink_of_all(paras),
    decreases paras.len(),
{
    if paras.len() > 0 {
        let above = wrap_paragraphs(paras.drop_last(), width);
        let start = (above, Seq::<char>::empty());
        let f = words_step(start, words(paras.last()), width);
        lemma_wrap_paragraphs_ink(paras.drop_last(), width);
        lemma_words_step_ink(start, words(paras.last()), width);
        lemma_words_ink(paras.last());
        lemma_held_push(f);
        assert(held(start) =~= ink_of_all(above));
    }
}

/// Wrapping loses nothing, adds nothing and moves nothing but white space: the
/// lines, one after the other, hold the same characters as the text.
pub proof fn law_wrapping_keeps_the_text(s: Seq<char>, width: nat)
    ensures
        ink_of_all(wrapped(s, width)) == ink(s),
{
    lemma_wrap_paragraphs_ink(paragraphs(s), most(width, 1));
    lemma_paragraphs_ink(s);
}

/// Whether a text is made of characters of another, and blanks.
pub open spec fn made_of(a: Seq<char>, s: Seq<char>) -> bool {
    forall|i: int| 0 <= i < a.len() ==> #[trigger] a[i] == ' ' || s.contains(a[i])
}

/// Whether what is written with the characters of a text takes no more columns
/// than its parts. A character that widens the one before it breaks this.
pub open spec fn evenly_spaced(s: Seq<char>) -> bool {
    &&& forall|a: Seq<char>, b: Seq<char>|
        made_of(a, s) && made_of(b, s) ==> #[trigger] columns(a + b) <= columns(a) + columns(b)
    &&& forall|c: char| s.contains(c) ==> columns(seq![c]) <= #[trigger] span_of(c)
    &&& columns(seq![' ']) <= 1
    &&& columns(Seq::empty()) == 0
}

/// Whether every line is within the width and made of the text.
spec fn fits(f: Filling, s: Seq<char>, width: nat) -> bool {
    &&& forall|i: int| 0 <= i < f.0.len() ==> columns(#[trigger] f.0[i]) <= width
    &&& columns(f.1) <= width
    &&& made_of(f.1, s)
}

proof fn lemma_char_step_fits(f: Filling, c: char, s: Seq<char>, width: nat)
    requires
        fits(f, s, width),
        evenly_spaced(s),
        s.contains(c),
        span_of(c) <= width,
    ensures
        fits(char_step(f, c, width), s, width),
{
    assert(made_of(seq![c], s));
    assert(f.1.push(c) =~= f.1 + seq![c]);
    assert(columns(f.1 + seq![c]) <= columns(f.1) + columns(seq![c]));
    assert(columns(seq![c]) <= span_of(c));
    if f.1.len() == 0 {
        assert(f.1 =~= Seq::empty());
    }
}

proof fn lemma_chars_step_fits(f: Filling, word: Seq<char>, s: Seq<char>, width: nat)
    requires
        fits(f, s, width),
        evenly_spaced(s),
        forall|i: int| 0 <= i < word.len() ==> s.contains(#[trigger] word[i]),
        forall|c: char| s.contains(c) ==> #[trigger] span_of(c) <= width,
    ensures
        fits(chars_step(f, word, width), s, width),
    decreases word.len(),
{
    if word.len() > 0 {
        lemma_chars_step_fits(f, word.drop_last(), s, width);
        assert(s.contains(word[word.len() - 1]));
        lemma_char_step_fits(chars_step(f, word.drop_last(), width), word.last(), s, width);
    }
}

proof fn lemma_word_step_fits(f: Filling, word: Seq<char>, s: Seq<char>, width: nat)
    requires
        fits(f, s, width),
        evenly_spaced(s),
        forall|i: int| 0 <= i < word.len() ==> s.contains(#[trigger] word[i]),
        forall|c: char| s.contains(c) ==> #[trigger] span_of(c) <= width,
    ensures
        fits(word_step(f, word, width), s, width),
{
    let g = if f.1.len() > 0 && columns(f.1) + 1 + columns(word) > width {
        (f.0.push(f.1), Seq::<char>::empty())
    } else {
        f
    };
    assert(fits(g, s, width));
    assert(made_of(word, s));
    lemma_chars_step_fits(g, word, s, width);
    assert(made_of(seq![' '], s));
    assert(g.1.push(' ') =~= g.1 + seq![' ']);
    assert(made_of(g.1 + seq![' '], s));
    assert(columns(g.1 + seq![' ']) <= columns(g.1) + columns(seq![' ']));
    assert(columns((g.1 + seq![' ']) + word) <= columns(g.1 + seq![' ']) + columns(word));
}

proof fn lemma_words_step_fits(f: Filling, words: Seq<Seq<char>>, s: Seq<char>, width: nat)
    requires
        fits(f, s, width),
        evenly_spaced(s),
        forall|k: int, i: int|
            0 <= k < words.len() && 0 <= i < words[k].len() ==> s.contains(#[trigger] words[k][i]),
        forall|c: char| s.contains(c) ==> #[trigger] span_of(c) <= width,
    ensures
        fits(words_step(f, words, width), s, width),
    decreases words.len(),
{
    if words.len() > 0 {
        assert forall|k: int, i: int|
            0 <= k < words.drop_last().len() && 0 <= i < words.drop_last()[k].len() implies s.contains(
            #[trigger] words.drop_last()[k][i],
        ) by {
            assert(s.contains(words[k][i]));
        }
        lemma_words_step_fits(f, words.drop_last(), s, width);
        let word = words.last();
        assert forall|i: int| 0 <= i < word.len() implies s.contains(#[trigger] word[i]) by {
            assert(s.contains(words[words.len() - 1][i]));
        }
        lemma_word_step_fits(words_step(f, words.drop_last(), width), word, s, width);
    }
}

proof fn lemma_words_within(s: Seq<char>, k: int, i: int)
    requires
        0 <= k < words(s).len(),
        0 <= i < words(s)[k].len(),
    ensures
        s.contains(words(s)[k][i]),
    decreases s.len(),
{
    if s.len() > 0 {
        if text::blank(s[0]) {
            lemma_words_within(s.skip(1), k, i);
            let j = s.skip(1).index_of(words(s)[k][i]);
            assert(s[j + 1] == words(s)[k][i]);
        } else {
            lemma_word_len_bound(s);
            let n = word_len(s) as int;
            if k == 0 {
                assert(s[i] == words(s)[k][i]);
            } else {
                lemma_words_within(s.skip(n), k - 1, i);
                let j = s.skip(n).index_of(words(s)[k][i]);
                assert(s[j + n] == words(s)[k][i]);
            }
        }
    }
}

proof fn lemma_paragraphs_within(s: Seq<char>, k: int, i: int)
    requires
        0 <= k < paragraphs(s).len(),
        0 <= i < paragraphs(s)[k].len(),
    ensures
        s.contains(paragraphs(s)[k][i]),
    decreases s.len(),
{
    let n = run_to(s, '\n') as int;
    if 0 <= n < s.len() {
        if k == 0 {
            assert(s[i] == paragraphs(s)[k][i]);
        } else {
            let rest = s.skip(n + 1);
            lemma_paragraphs_within(rest, k - 1, i);
            let j = rest.index_of(paragraphs(s)[k][i]);
            assert(s[j + n + 1] == paragraphs(s)[k][i]);
        }
    } else {
        assert(s[i] == paragraphs(s)[k][i]);
    }
}

proof fn lemma_wrap_paragraphs_fit(paras: Seq<Seq<char>>, s: Seq<char>, width: nat)
    requires
        evenly_spaced(s),
        forall|k: int, i: int|
            0 <= k < paras.len() && 0 <= i < paras[k].len() ==> s.contains(#[trigger] paras[k][i]),
        forall|c: char| s.contains(c) ==> #[trigger] span_of(c) <= width,
    ensures
        forall|i: int|
            0 <= i < wrap_paragraphs(paras, width).len() ==> columns(#[trigger] wrap_paragraphs(paras, width)[i])
                <= width,
    decreases paras.len(),
{
    if paras.len() > 0 {
        let init = paras.drop_last();
        let last = paras.last();
        assert forall|k: int, i: int| 0 <= k < init.len() && 0 <= i < init[k].len() implies s.contains(
            #[trigger] init[k][i],
        ) by {
            assert(s.contains(paras[k][i]));
        }
        lemma_wrap_paragraphs_fit(init, s, width);
        let list = words(last);
        assert forall|k: int, i: int| 0 <= k < list.len() && 0 <= i < list[k].len() implies s.contains(
            #[trigger] list[k][i],
        ) by {
            lemma_words_within(last, k, i);
            let j = last.index_of(list[k][i]);
            assert(s.contains(paras[paras.len() - 1][j]));
        }
        let start = (wrap_paragraphs(init, width), Seq::<char>::empty());
        lemma_words_step_fits(start, list, s, width);
    }
}

/// No line is wider than the pane: a word that can never fit is split rather
/// than pushed past the border. This is so for a text whose characters take the
/// columns they take alone, none of which is wider than the pane by itself. A
/// pane without columns counts as one column.
pub proof fn law_wrapping_respects_the_width(s: Seq<char>, width: nat)
    requires
        evenly_spaced(s),
        forall|c: char| s.contains(c) ==> #[trigger] span_of(c) <= most(width, 1),
    ensures
        forall|i: int| 0 <= i < wrapped(s, width).len() ==> columns(#[trigger] wrapped(s, width)[i]) <= most(width, 1),
{
    assert forall|k: int, i: int|
        0 <= k < paragraphs(s).len() && 0 <= i < paragraphs(s)[k].len() implies s.contains(
        #[trigger] paragraphs(s)[k][i],
    ) by {
        lemma_paragraphs_within(s, k, i);
    }
    lemma_wrap_paragraphs_fit(paragraphs(s), s, most(width, 1));
}

/// Whether a line neither begins nor ends with a blank.
pub open spec fn tidy(line: Seq<char>) -> bool {
    line.len() > 0 ==> !text::blank(line[0]) && !text::blank(line.last())
}

/// Whether a word has characters, none of them blank.
pub open spec fn solid(word: Seq<char>) -> bool {
    word.len() > 0 && forall|i: int| 0 <= i < word.len() ==> !text::blank(#[trigger] word[i])
}

/// Whether every line is tidy, and every one that is done has characters.
spec fn in_order(f: Filling) -> bool {
    &&& forall|i: int| 0 <= i < f.0.len() ==> tidy(#[trigger] f.0[i]) && f.0[i].len() > 0
    &&& tidy(f.1)
}

proof fn lemma_word_is_solid(s: Seq<char>)
    requires
        s.len() > 0,
        !text::blank(s[0]),
    ensures
        solid(s.take(word_len(s) as int)),
    decreases s.len(),
{
    lemma_word_len_bound(s);
    let n = word_len(s) as int;
    if s.len() > 1 && !text::blank(s[1]) {
        let t = s.skip(1);
        lemma_word_is_solid(t);
        assert forall|i: int| 0 <= i < n implies !text::blank(#[trigger] s.take(n)[i]) by {
            if i > 0 {
                assert(s[i] == t.take(word_len(t) as int)[i - 1]);
            }
        }
    } else {
        assert(word_len(s.skip(1)) == 0);
        assert(n == 1);
    }
}

proof fn lemma_words_are_solid(s: Seq<char>)
    ensures
        forall|k: int| 0 <= k < words(s).len() ==> solid(#[trigger] words(s)[k]),
    decreases s.len(),
{
    if s.len() > 0 {
        if text::blank(s[0]) {
            lemma_words_are_solid(s.skip(1));
            assert(words(s) == words(s.skip(1)));
        } else {
            lemma_word_len_bound(s);
            let n = word_len(s) as int;
            lemma_word_is_solid(s);
            lemma_words_are_solid(s.skip(n));
            assert forall|k: int| 0 <= k < words(s).len() implies solid(#[trigger] words(s)[k]) by {
                if k > 0 {
                    assert(words(s)[k] == words(s.skip(n))[k - 1]);
                }
            }
        }
    }
}

proof fn lemma_chars_step_in_order(f: Filling, word: Seq<char>, width: nat)
    requires
        in_order(f),
        forall|i: int| 0 <= i < word.len() ==> !text::blank(#[trigger] word[i]),
    ensures
        in_order(chars_step(f, word, width)),
        word.len() > 0 ==> chars_step(f, word, width).1.len() > 0,
    decreases word.len(),
{
    if word.len() > 0 {
        assert(!text::blank(word[word.len() - 1]));
        assert forall|i: int| 0 <= i < word.drop_last().len() implies !text::blank(#[trigger] word.drop_last()[i]) by {
            assert(word.drop_last()[i] == word[i]);
        }
        lemma_chars_step_in_order(f, word.drop_last(), width);
    }
}

proof fn lemma_words_step_in_order(f: Filling, list: Seq<Seq<char>>, width: nat)
    requires
        in_order(f),
        forall|k: int| 0 <= k < list.len() ==> solid(#[trigger] list[k]),
    ensures
        in_order(words_step(f, list, width)),
        list.len() > 0 ==> words_step(f, list, width).1.len() > 0,
    decreases list.len(),
{
    if list.len() > 0 {
        let init = list.drop_last();
        let word = list.last();
        assert(solid(list[list.len() - 1]));
        assert forall|k: int| 0 <= k < init.len() implies solid(#[trigger] init[k]) by {
            assert(init[k] == list[k]);
        }
        lemma_words_step_in_order(f, init, width);
        let g = words_step(f, init, width);
        let h = if g.1.len() > 0 && columns(g.1) + 1 + columns(word) > width {
            (g.0.push(g.1), Seq::<char>::empty())
        } else {
            g
        };
        assert(in_order(h));
        lemma_chars_step_in_order(h, word, width);
        assert(h.1.len() > 0 ==> (h.1.push(' ') + word)[0] == h.1[0]);
        assert(!text::blank(word[0]) && !text::blank(word[word.len() - 1]));
    }
}

/// The lines of one paragraph.
pub open spec fn lines_of(para: Seq<char>, width: nat) -> Seq<Seq<char>> {
    wrap_paragraphs(seq![para], width)
}

/// The lines of paragraphs, each wrapped by itself.
pub open spec fn all_lines(paras: Seq<Seq<char>>, width: nat) -> Seq<Seq<char>>
    decreases paras.len(),
{
    if paras.len() == 0 {
        Seq::empty()
    } else {
        all_lines(paras.drop_last(), width) + lines_of(paras.last(), width)
    }
}

proof fn lemma_chars_step_above(above: Seq<Seq<char>>, f: Filling, word: Seq<char>, width: nat)
    ensures
        chars_step((above + f.0, f.1), word, width) == (
            above + chars_step(f, word, width).0,
            chars_step(f, word, width).1,
        ),
    decreases word.len(),
{
    if word.len() > 0 {
        lemma_chars_step_above(above, f, word.drop_last(), width);
        let g = chars_step(f, word.drop_last(), width);
        assert((above + g.0).push(g.1) =~= above + g.0.push(g.1));
    }
}

proof fn lemma_words_step_above(above: Seq<Seq<char>>, f: Filling, list: Seq<Seq<char>>, width: nat)
    ensures
        words_step((above + f.0, f.1), list, width) == (
            above + words_step(f, list, width).0,
            words_step(f, list, width).1,
        ),
    decreases list.len(),
{
    if list.len() > 0 {
        lemma_words_step_above(above, f, list.drop_last(), width);
        let g = words_step(f, list.drop_last(), width);
        let word = list.last();
        assert((above + g.0).push(g.1) =~= above + g.0.push(g.1));
        lemma_chars_step_above(above, g, word, width);
        lemma_chars_step_above(above, (g.0.push(g.1), Seq::<char>::empty()), word, width);
    }
}

proof fn lemma_lines_of(para: Seq<char>, width: nat)
    ensures
        ({
            let f = words_step((Seq::<Seq<char>>::empty(), Seq::<char>::empty()), words(para), width);
            lines_of(para, width) == f.0.push(f.1)
        }),
{
    reveal_with_fuel(wrap_paragraphs, 2);
    let one = seq![para];
    assert(one.drop_last() =~= Seq::<Seq<char>>::empty());
}

proof fn lemma_wrap_apart(paras: Seq<Seq<char>>, width: nat)
    ensures
        wrap_paragraphs(paras, width) == all_lines(paras, width),
    decreases paras.len(),
{
    if paras.len() > 0 {
        let above = wrap_paragraphs(paras.drop_last(), width);
        let none = (Seq::<Seq<char>>::empty(), Seq::<char>::empty());
        lemma_wrap_apart(paras.drop_last(), width);
        assert(above + none.0 =~= above);
        lemma_words_step_above(above, none, words(paras.last()), width);
        lemma_lines_of(paras.last(), width);
        let f = words_step(none, words(paras.last()), width);
        assert((above + f.0).push(f.1) =~= above + f.0.push(f.1));
    }
}

/// Paragraphs are wrapped one by one, and one without words is one empty line.
/// No other line is empty, and none begins or ends with a blank.
pub proof fn law_paragraphs_are_wrapped_one_by_one(s: Seq<char>, width: nat)
    ensures
        wrapped(s, width) == all_lines(paragraphs(s), most(width, 1)),
        forall|para: Seq<char>|
            words(para).len() == 0 ==> #[trigger] lines_of(para, most(width, 1)) == seq![Seq::<char>::empty()],
        forall|para: Seq<char>, i: int|
            words(para).len() > 0 && 0 <= i < lines_of(para, most(width, 1)).len() ==> tidy(
                #[trigger] lines_of(para, most(width, 1))[i],
            ) && lines_of(para, most(width, 1))[i].len() > 0,
{
    let w = most(width, 1);
    let none = (Seq::<Seq<char>>::empty(), Seq::<char>::empty());
    lemma_wrap_apart(paragraphs(s), w);
    assert forall|para: Seq<char>| words(para).len() == 0 implies #[trigger] lines_of(para, w) == seq![
        Seq::<char>::empty(),
    ] by {
        lemma_lines_of(para, w);
        assert(words_step(none, words(para), w) == none);
        assert(none.0.push(none.1) =~= seq![Seq::<char>::empty()]);
    }
    assert forall|para: Seq<char>, i: int|
        words(para).len() > 0 && 0 <= i < lines_of(para, w).len() implies tidy(#[trigger] lines_of(para, w)[i])
        && lines_of(para, w)[i].len() > 0 by {
        lemma_lines_of(para, w);
        lemma_words_are_solid(para);
        lemma_words_step_in_order(none, words(para), w);
    }
}

/// Whether what is written with the characters of a text takes just the columns
/// that its parts take.
pub open spec fn exactly_spaced(s: Seq<char>) -> bool {
    &&& forall|a: Seq<char>, b: Seq<char>|
        made_of(a, s) && made_of(b, s) ==> #[trigger] columns(a + b) == columns(a) + columns(b)
    &&& columns(seq![' ']) == 1
}

/// The columns of the words from number `b` up to number `n`, with a blank
/// between each two.
pub open spec fn stretch(list: Seq<Seq<char>>, b: int, n: int) -> nat
    decreases n - b,
{
    if n <= b {
        0
    } else if n == b + 1 {
        columns(list[b]) as nat
    } else {
        stretch(list, b, n - 1) + 1 + columns(list[n - 1]) as nat
    }
}

/// Where line number `k` of a layout ends, as the number of the word after it.
pub open spec fn line_end(list: Seq<Seq<char>>, starts: Seq<int>, k: int) -> int {
    if k + 1 < starts.len() {
        starts[k + 1]
    } else {
        list.len() as int
    }
}

/// Whether line number `k` of a layout has words, and they fit.
pub open spec fn line_fits(list: Seq<Seq<char>>, starts: Seq<int>, k: int, width: nat) -> bool {
    starts[k] < line_end(list, starts, k) && stretch(list, starts[k], line_end(list, starts, k)) <= width
}

/// Whether words can be laid out within a width in lines that begin with the
/// words of the given numbers.
pub open spec fn laid_out(list: Seq<Seq<char>>, starts: Seq<int>, width: nat) -> bool {
    &&& starts.len() > 0
    &&& starts[0] == 0
    &&& forall|k: int| 0 <= k < starts.len() ==> #[trigger] line_fits(list, starts, k, width)
}

/// Where the line that is being filled begins after `n` words.
spec fn line_start(list: Seq<Seq<char>>, n: int, width: nat) -> int
    decreases n,
{
    if n <= 1 {
        0
    } else if stretch(list, line_start(list, n - 1, width), n) > width {
        n - 1
    } else {
        line_start(list, n - 1, width)
    }
}

proof fn lemma_line_start(list: Seq<Seq<char>>, n: int, width: nat)
    ensures
        n > 0 ==> 0 <= line_start(list, n, width) < n,
    decreases n,
{
    if n > 1 {
        lemma_line_start(list, n - 1, width);
    }
}

proof fn lemma_stretch_shrinks(list: Seq<Seq<char>>, b: int, c: int, n: int)
    requires
        0 <= b <= c < n <= list.len(),
    ensures
        stretch(list, c, n) <= stretch(list, b, n),
    decreases n,
{
    if c < n - 1 {
        lemma_stretch_shrinks(list, b, c, n - 1);
    }
}

proof fn lemma_stretch_grows(list: Seq<Seq<char>>, b: int, n: int, m: int)
    requires
        0 <= b < n <= m <= list.len(),
    ensures
        stretch(list, b, n) <= stretch(list, b, m),
    decreases m,
{
    if n < m {
        lemma_stretch_grows(list, b, n, m - 1);
    }
}

proof fn lemma_starts_within(list: Seq<Seq<char>>, starts: Seq<int>, width: nat, k: int)
    requires
        laid_out(list, starts, width),
        0 <= k < starts.len(),
    ensures
        0 <= starts[k],
        line_end(list, starts, k) <= list.len(),
    decreases starts.len() - k,
{
    if k > 0 {
        lemma_starts_ascend(list, starts, width, k);
    }
    if k + 1 < starts.len() {
        lemma_starts_within(list, starts, width, k + 1);
        assert(line_fits(list, starts, k + 1, width));
    }
}

proof fn lemma_starts_ascend(list: Seq<Seq<char>>, starts: Seq<int>, width: nat, k: int)
    requires
        laid_out(list, starts, width),
        0 <= k < starts.len(),
    ensures
        0 <= starts[k],
    decreases k,
{
    if k > 0 {
        lemma_starts_ascend(list, starts, width, k - 1);
        assert(line_fits(list, starts, k - 1, width));
    }
}

/// What one more word that fits by itself does to a line with characters.
proof fn lemma_one_word(g: Filling, word: Seq<char>, s: Seq<char>, width: nat)
    requires
        exactly_spaced(s),
        g.1.len() > 0,
        made_of(g.1, s),
        solid(word),
        made_of(word, s),
        columns(word) <= width,
    ensures
        columns(g.1) + 1 + columns(word) > width ==> word_step(g, word, width) == (g.0.push(g.1), word),
        columns(g.1) + 1 + columns(word) <= width ==> word_step(g, word, width) == (g.0, g.1.push(' ') + word),
        made_of(g.1.push(' ') + word, s),
        columns(g.1.push(' ') + word) == columns(g.1) + 1 + columns(word),
{
    let blank = seq![' '];
    assert(g.1.push(' ') =~= g.1 + blank);
    assert(made_of(blank, s));
    assert(made_of(g.1 + blank, s));
    assert(columns(g.1 + blank) == columns(g.1) + columns(blank));
    assert(columns((g.1 + blank) + word) == columns(g.1 + blank) + columns(word));
}

/// What filling lines one after the other holds after `n` words that each fit:
/// the columns of the line, and that another layout, which has word `n - 1` in
/// line `k`, is not ahead.
proof fn lemma_greedy(list: Seq<Seq<char>>, n: int, s: Seq<char>, width: nat, starts: Seq<int>, k: int)
    requires
        0 < n <= list.len(),
        exactly_spaced(s),
        forall|i: int| 0 <= i < list.len() ==> solid(#[trigger] list[i]) && made_of(list[i], s) && columns(list[i])
            <= width,
        laid_out(list, starts, width),
        0 <= k < starts.len(),
        starts[k] < n <= line_end(list, starts, k),
    ensures
        ({
            let f = words_step((Seq::<Seq<char>>::empty(), Seq::<char>::empty()), list.take(n), width);
            let start = line_start(list, n, width);
            &&& f.1.len() > 0
            &&& made_of(f.1, s)
            &&& columns(f.1) == stretch(list, start, n)
            &&& f.0.len() < k || (f.0.len() == k && starts[k] <= start)
        }),
    decreases n,
{
    let none = (Seq::<Seq<char>>::empty(), Seq::<char>::empty());
    let word = list[n - 1];
    assert(list.take(n).drop_last() =~= list.take(n - 1));
    assert(list.take(n).last() == word);
    let g = words_step(none, list.take(n - 1), width);
    let f = words_step(none, list.take(n), width);
    assert(solid(word) && made_of(word, s) && columns(word) <= width);
    lemma_starts_within(list, starts, width, k);
    assert(line_fits(list, starts, k, width));
    if n == 1 {
        assert(list.take(0) =~= Seq::<Seq<char>>::empty());
        assert(g == none);
        assert(f == (none.0, word));
        if k > 0 {
            lemma_starts_ascend(list, starts, width, k - 1);
            assert(line_fits(list, starts, k - 1, width));
        }
    } else {
        if starts[k] < n - 1 {
            lemma_greedy(list, n - 1, s, width, starts, k);
        } else {
            assert(line_fits(list, starts, k - 1, width));
            lemma_greedy(list, n - 1, s, width, starts, k - 1);
        }
        lemma_line_start(list, n - 1, width);
        let start = line_start(list, n - 1, width);
        lemma_one_word(g, word, s, width);
        assert(f == word_step(g, word, width));
        assert(stretch(list, start, n) == columns(g.1) + 1 + columns(word));
        if starts[k] < n - 1 && starts[k] <= start {
            lemma_stretch_shrinks(list, starts[k], start, n);
            lemma_stretch_grows(list, starts[k], n, line_end(list, starts, k));
        }
    }
}

/// A paragraph whose words all fit takes no more lines than any other way of
/// laying its words out within the width. This is so for a text whose
/// characters take just the columns they take alone. A word that is wider than
/// the pane begins a line of its own, which can cost one.
pub proof fn law_wrapping_uses_the_fewest_lines(para: Seq<char>, width: nat, starts: Seq<int>)
    requires
        exactly_spaced(para),
        forall|k: int| 0 <= k < words(para).len() ==> columns(#[trigger] words(para)[k]) <= most(width, 1),
        laid_out(words(para), starts, most(width, 1)),
    ensures
        lines_of(para, most(width, 1)).len() <= starts.len(),
{
    let list = words(para);
    let w = most(width, 1);
    lemma_words_are_solid(para);
    assert forall|k: int| 0 <= k < list.len() implies solid(#[trigger] list[k]) && made_of(list[k], para) && columns(
        list[k],
    ) <= w by {
        assert forall|i: int| 0 <= i < list[k].len() implies #[trigger] list[k][i] == ' ' || para.contains(list[k][i]) by {
            lemma_words_within(para, k, i);
        }
    }
    let k = starts.len() - 1;
    lemma_starts_ascend(list, starts, w, k);
    assert(line_fits(list, starts, k, w));
    lemma_greedy(list, list.len() as int, para, w, starts, k);
    assert(list.take(list.len() as int) =~= list);
    lemma_lines_of(para, w);
}

/// A quotient is rounded to the nearest whole number.
pub proof fn law_rounding_is_to_the_nearest(num: nat, den: nat)
    requires
        den > 0,
    ensures
        2 * (nearest(num, den) * den) <= 2 * num + den,
        2 * num <= 2 * (nearest(num, den) * den) + den,
{
    let q = num / den;
    let r = num % den;
    vstd::arithmetic::div_mod::lemma_fundamental_div_mod(num as int, den as int);
    assert(den * q == q * den) by (nonlinear_arith);
    assert((q + 1) * den == q * den + den) by (nonlinear_arith);
}

/// A size below a kibibyte is written in bytes, exactly. A larger one is written
/// with one decimal in kibibytes, mebibytes or gibibytes, the largest that it
/// reaches, rounded to the nearest tenth.
pub proof fn law_sizes_are_written_in_tenths(bytes: nat) -> (t: nat)
    requires
        bytes < 0x20_0000_0000_0000,
    ensures
        bytes < 1024 ==> sized(bytes) == text::decimal(bytes) + " B"@,
        bytes >= 1024 ==> ({
            let unit: nat = if bytes < 1024 * 1024 {
                1024
            } else if bytes < 1024 * 1024 * 1024 {
                1024 * 1024
            } else {
                1024 * 1024 * 1024
            };
            &&& sized(bytes) == text::decimal(t / 10) + "."@ + text::decimal(t % 10) + (if unit == 1024 {
                " KiB"@
            } else if unit == 1024 * 1024 {
                " MiB"@
            } else {
                " GiB"@
            })
            &&& 2 * (t * unit) <= 20 * bytes + unit
            &&& 20 * bytes <= 2 * (t * unit) + unit
        }),
{
    if bytes < 0x400 {
        0
    } else if bytes < 0x10_0000 {
        law_rounding_is_to_the_nearest(10 * bytes, 0x400);
        nearest(10 * bytes, 0x400)
    } else if bytes < 0x4000_0000 {
        law_rounding_is_to_the_nearest(10 * bytes, 0x10_0000);
        nearest(10 * bytes, 0x10_0000)
    } else {
        assert(coarse(bytes) == bytes) by {
            assert(bytes / 1 == bytes && bytes % 1 == 0);
            assert(nearest(bytes, 1) == bytes);
        }
        law_rounding_is_to_the_nearest(10 * bytes, 0x4000_0000);
        nearest(10 * bytes, 0x4000_0000)
    }
}

/// A bar of twenty cells is filled by as many as the part that is done, rounded
/// down, and what is behind it says how much of how much.
pub proof fn law_the_bar_is_in_proportion(done: nat, total: nat)
    requires
        total > 0,
    ensures
        done < total ==> filled(done, total) * total <= done * 20 < (filled(done, total) + 1) * total,
        done >= total ==> filled(done, total) == 20,
        progress(done, total) == "["@ + Seq::new(filled(done, total), |i: int| '=') + Seq::new(
            (20 - filled(done, total)) as nat,
            |i: int| ' ',
        ) + "] "@ + sized(done) + "/"@ + sized(total),
{
    let q = done * 20 / total;
    vstd::arithmetic::div_mod::lemma_fundamental_div_mod((done * 20) as int, total as int);
    assert(total * q == q * total) by (nonlinear_arith);
    assert((q + 1) * total == q * total + total) by (nonlinear_arith);
    if done < total {
        assert(q < 20) by (nonlinear_arith)
            requires
                q * total <= done * 20,
                done < total,
        ;
    } else {
        law_progress_bar_is_bounded(done, total);
    }
    assert(repeated('=', filled(done, total)) =~= Seq::new(filled(done, total), |i: int| '='));
    assert(repeated(' ', (20 - filled(done, total)) as nat) =~= Seq::new(
        (20 - filled(done, total)) as nat,
        |i: int| ' ',
    ));
}

/// Of a text its first paragraph is quoted, as much of it as fits on a line, and
/// dots where that is not all.
pub proof fn law_first_lines(first: Seq<char>, more: Seq<char>, width: nat)
    requires
        forall|i: int| 0 <= i < first.len() ==> (#[trigger] first[i]) != '\n',
    ensures
        ({
            let cut = wrapped(first, width)[0];
            let quote = if columns(cut) < columns(first) { cut.push('…') } else { cut };
            first_line_of(first, width) == quote && first_line_of(first + seq!['\n'] + more, width) == quote
        }),
{
    let s = first + seq!['\n'] + more;
    lemma_run_to(first, '\n', first.len() as int);
    assert forall|i: int| 0 <= i < first.len() implies #[trigger] s[i] != '\n' by {
        assert(s[i] == first[i]);
    }
    lemma_run_to(s, '\n', first.len() as int);
    assert(s.take(first.len() as int) =~= first);
    assert(paragraphs(first)[0] == first);
    assert(paragraphs(s)[0] == first);
}

} // verus!
