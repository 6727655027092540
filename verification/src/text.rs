//! Strings as sequences of characters.

use vstd::prelude::*;

verus! {

/// `String::push` appends one character.
pub assume_specification[ String::push ](s: &mut String, c: char)
    ensures
        final(s)@ == old(s)@.push(c),
;

/// `==` on string slices compares their characters.
pub assume_specification[ <str as PartialEq>::eq ](a: &str, b: &str) -> (r: bool)
    ensures
        r == (a@ == b@),
;

/// The characters of a string, in order.
pub fn chars_of(s: &str) -> (r: Vec<char>)
    ensures
        r@ == s@,
{
    let mut out: Vec<char> = Vec::new();
    for c in it: s.chars()
        invariant
            out@ == it.seq().take(it.index()),
            it.seq() == s@,
    {
        out.push(c);
    }
    assert(out@ =~= s@);
    out
}

/// The string made of these characters.
pub fn string_of(chars: &[char]) -> (r: String)
    ensures
        r@ == chars@,
{
    let mut out: String = String::new();
    let mut i: usize = 0;
    while i < chars.len()
        invariant
            i <= chars@.len(),
            out@ == chars@.take(i as int),
        decreases chars@.len() - i,
    {
        out.push(chars[i]);
        i = i + 1;
        assert(out@ =~= chars@.take(i as int));
    }
    assert(out@ =~= chars@);
    out
}

/// Whether two strings hold the same characters.
pub fn same(a: &str, b: &str) -> (r: bool)
    ensures
        r == (a@ == b@),
{
    a.eq(b)
}

/// The decimal digits of a number.
pub open spec fn decimal(n: nat) -> Seq<char>
    decreases n,
{
    if n < 10 {
        seq![digit(n)]
    } else {
        decimal(n / 10).push(digit(n % 10))
    }
}

/// The digit of a number below ten.
pub open spec fn digit(n: nat) -> char {
    (('0' as int) + n) as char
}

/// Computes [`digit`].
pub(crate) fn digit_char(n: u64) -> (c: char)
    requires
        n < 10,
    ensures
        c == digit(n as nat),
{
    ('0' as u8 + n as u8) as char
}

/// Computes [`decimal`].
pub fn decimal_of(n: u64) -> (r: String)
    ensures
        r@ == decimal(n as nat),
    decreases n,
{
    if n < 10 {
        let mut out: String = String::new();
        out.push(digit_char(n));
        assert(out@ =~= seq![digit(n as nat)]);
        out
    } else {
        let mut out = decimal_of(n / 10);
        out.push(digit_char(n % 10));
        out
    }
}

/// Appends the lower-case hexadecimal form of `s` to `out`.
pub fn push_hex(out: &mut String, s: &[u8])
    ensures
        final(out)@ == old(out)@ + crate::bytes::hex(s@),
{
    let mut i: usize = 0;
    while i < s.len()
        invariant
            i <= s@.len(),
            out@ == old(out)@ + crate::bytes::hex(s@.take(i as int)),
        decreases s@.len() - i,
    {
        let ghost before = out@;
        out.push(hex_char(s[i] / 16));
        out.push(hex_char(s[i] % 16));
        proof {
            let next = s@.take(i + 1);
            assert(crate::bytes::hex(next) =~= crate::bytes::hex(s@.take(i as int))
                .push(crate::bytes::hex_digit(s@[i as int] as int / 16))
                .push(crate::bytes::hex_digit(s@[i as int] as int % 16)));
            assert(out@ =~= old(out)@ + crate::bytes::hex(next));
        }
        i = i + 1;
    }
    assert(s@.take(i as int) =~= s@);
}

/// The lower-case hexadecimal digit of a number below sixteen.
fn hex_char(n: u8) -> (c: char)
    requires
        n < 16,
    ensures
        c == crate::bytes::hex_digit(n as int),
{
    if n < 10 {
        ('0' as u8 + n) as char
    } else {
        ('a' as u8 + (n - 10)) as char
    }
}

/// Whether `a` comes before `b` in the order of code points, which is also the
/// order of their UTF-8 bytes.
pub open spec fn precedes(a: Seq<char>, b: Seq<char>) -> bool
    decreases a.len(),
{
    if b.len() == 0 {
        false
    } else if a.len() == 0 {
        true
    } else if a[0] != b[0] {
        a[0] < b[0]
    } else {
        precedes(a.skip(1), b.skip(1))
    }
}

/// Decides [`precedes`].
pub fn comes_before(a: &str, b: &str) -> (r: bool)
    ensures
        r == precedes(a@, b@),
{
    let x = chars_of(a);
    let y = chars_of(b);
    let mut i: usize = 0;
    assert(x@.skip(0) =~= x@);
    assert(y@.skip(0) =~= y@);
    while i < x.len() && i < y.len()
        invariant
            i <= x@.len(),
            i <= y@.len(),
            x@ == a@,
            y@ == b@,
            precedes(x@.skip(i as int), y@.skip(i as int)) == precedes(x@, y@),
        decreases x@.len() - i,
    {
        if x[i] != y[i] {
            return x[i] < y[i];
        }
        assert(x@.skip(i as int).skip(1) =~= x@.skip(i + 1));
        assert(y@.skip(i as int).skip(1) =~= y@.skip(i + 1));
        i = i + 1;
    }
    i < y.len()
}

/// The order of code points is strict and total.
pub proof fn lemma_precedes(a: Seq<char>, b: Seq<char>, c: Seq<char>)
    ensures
        !precedes(a, a),
        precedes(a, b) && precedes(b, c) ==> precedes(a, c),
        !precedes(a, b) && !precedes(b, a) ==> a == b,
    decreases a.len() + b.len() + c.len(),
{
    if a.len() > 0 && b.len() > 0 && c.len() > 0 {
        lemma_precedes(a.skip(1), b.skip(1), c.skip(1));
    } else if a.len() > 0 && b.len() > 0 {
        lemma_precedes(a.skip(1), b.skip(1), c);
    } else if a.len() > 0 {
        lemma_precedes(a.skip(1), b, c);
    }
    if !precedes(a, b) && !precedes(b, a) {
        if a.len() > 0 && b.len() > 0 {
            assert(a =~= seq![a[0]] + a.skip(1));
            assert(b =~= seq![b[0]] + b.skip(1));
        } else {
            assert(a =~= b);
        }
    }
}

/// Whether a character has the White_Space property of Unicode.
pub open spec fn blank(c: char) -> bool {
    let n = c as u32;
    ||| 0x9 <= n <= 0xd
    ||| n == 0x20
    ||| n == 0x85
    ||| n == 0xa0
    ||| n == 0x1680
    ||| 0x2000 <= n <= 0x200a
    ||| n == 0x2028
    ||| n == 0x2029
    ||| n == 0x202f
    ||| n == 0x205f
    ||| n == 0x3000
}

/// `char::is_whitespace` tells the White_Space property: [`blank`].
pub assume_specification[ char::is_whitespace ](c: char) -> (r: bool)
    ensures
        r == blank(c),
;

/// A string without the white space in front.
pub open spec fn trim_start(s: Seq<char>) -> Seq<char>
    decreases s.len(),
{
    if s.len() > 0 && blank(s[0]) {
        trim_start(s.skip(1))
    } else {
        s
    }
}

/// A string without the white space behind.
pub open spec fn trim_end(s: Seq<char>) -> Seq<char>
    decreases s.len(),
{
    if s.len() > 0 && blank(s.last()) {
        trim_end(s.drop_last())
    } else {
        s
    }
}

/// A string without the white space around it.
pub open spec fn trimmed(s: Seq<char>) -> Seq<char> {
    trim_end(trim_start(s))
}

/// Computes [`trimmed`].
pub fn trim(s: &str) -> (r: String)
    ensures
        r@ == trimmed(s@),
{
    let chars = chars_of(s);
    let mut start: usize = 0;
    assert(chars@.skip(0) =~= chars@);
    while start < chars.len() && chars[start].is_whitespace()
        invariant
            start <= chars@.len(),
            trim_start(chars@.skip(start as int)) == trim_start(chars@),
        decreases chars@.len() - start,
    {
        assert(chars@.skip(start as int).skip(1) =~= chars@.skip(start + 1));
        start = start + 1;
    }
    let mut end: usize = chars.len();
    assert(chars@.subrange(start as int, end as int) =~= chars@.skip(start as int));
    while start < end && chars[end - 1].is_whitespace()
        invariant
            start <= end <= chars@.len(),
            trim_end(chars@.subrange(start as int, end as int)) == trimmed(chars@),
        decreases end,
    {
        assert(chars@.subrange(start as int, end as int).drop_last() =~= chars@.subrange(
            start as int,
            end - 1,
        ));
        end = end - 1;
    }
    string_of(vstd::slice::slice_subrange(chars.as_slice(), start, end))
}

/// Whether a character is an ASCII digit.
pub open spec fn is_digit(c: char) -> bool {
    '0' <= c <= '9'
}

/// Whether every character is an ASCII digit.
pub open spec fn all_digits(s: Seq<char>) -> bool {
    forall|i: int| 0 <= i < s.len() ==> is_digit(#[trigger] s[i])
}

/// The number that decimal digits stand for.
pub open spec fn value(s: Seq<char>) -> nat
    decreases s.len(),
{
    if s.len() == 0 {
        0
    } else {
        (value(s.drop_last()) * 10 + (s.last() as int - '0' as int)) as nat
    }
}

/// The number that a string stands for: decimal digits, a plus sign before them
/// or not, and no more than 64 bits.
pub open spec fn parsed(s: Seq<char>) -> Option<nat> {
    let digits = if s.len() > 0 && s[0] == '+' { s.skip(1) } else { s };
    if digits.len() == 0 || !all_digits(digits) || value(digits) > u64::MAX {
        None
    } else {
        Some(value(digits))
    }
}

proof fn lemma_value_grows(s: Seq<char>, n: int)
    requires
        0 <= n <= s.len(),
        all_digits(s),
    ensures
        value(s.take(n)) <= value(s),
    decreases s.len(),
{
    if n < s.len() {
        let init = s.drop_last();
        assert(all_digits(init));
        lemma_value_grows(init, n);
        assert(init.take(n) =~= s.take(n));
        assert(is_digit(s.last()));
    } else {
        assert(s.take(n) =~= s);
    }
}

/// Computes [`parsed`].
pub fn parse_u64(s: &str) -> (r: Option<u64>)
    ensures
        r is Some <==> parsed(s@) is Some,
        r is Some ==> parsed(s@) == Some(r->0 as nat),
{
    let chars = chars_of(s);
    let start: usize = if chars.len() > 0 && chars[0] == '+' { 1 } else { 0 };
    let ghost digits = chars@.skip(start as int);
    assert(chars@.skip(0) =~= chars@);
    if start == chars.len() {
        return None;
    }
    let mut sum: u64 = 0;
    let mut i: usize = start;
    assert(digits.take(0) =~= Seq::<char>::empty());
    while i < chars.len()
        invariant
            start <= i <= chars@.len(),
            start <= 1,
            digits == chars@.skip(start as int),
            parsed(s@) == (if digits.len() == 0 || !all_digits(digits) || value(digits)
                > u64::MAX {
                None
            } else {
                Some(value(digits))
            }),
            all_digits(digits.take(i - start)),
            sum == value(digits.take(i - start)),
        decreases chars@.len() - i,
    {
        let c = chars[i];
        assert(c == digits[i - start]);
        if c < '0' || c > '9' {
            assert(!is_digit(digits[i - start]));
            assert(!all_digits(digits));
            return None;
        }
        let d: u64 = (c as u32 - '0' as u32) as u64;
        proof {
            let next = digits.take(i - start + 1);
            assert(next.drop_last() =~= digits.take(i - start));
            assert(next.last() == c);
            assert(value(next) == sum * 10 + d);
            if all_digits(digits) {
                lemma_value_grows(digits, i - start + 1);
            }
            assert(all_digits(next)) by {
                assert forall|k: int| 0 <= k < next.len() implies is_digit(next[k]) by {
                    if k < i - start {
                        assert(digits.take(i - start)[k] == next[k]);
                    }
                }
            }
        }
        if sum > (u64::MAX - d) / 10 {
            return None;
        }
        sum = sum * 10 + d;
        i = i + 1;
    }
    assert(digits.take(i - start) =~= digits);
    Some(sum)
}

/// A decimal number reads back as itself.
pub proof fn lemma_decimal_parses(n: u64)
    ensures
        parsed(decimal(n as nat)) == Some(n as nat),
{
    lemma_decimal_value(n as nat);
    let s = decimal(n as nat);
    assert(is_digit(s[0]));
}

proof fn lemma_decimal_value(n: nat)
    ensures
        decimal(n).len() > 0,
        all_digits(decimal(n)),
        value(decimal(n)) == n,
    decreases n,
{
    if n < 10 {
        assert(decimal(n).drop_last() =~= Seq::<char>::empty());
        assert(value(Seq::<char>::empty()) == 0);
        assert(decimal(n).last() == digit(n));
    } else {
        lemma_decimal_value(n / 10);
        assert(decimal(n).drop_last() =~= decimal(n / 10));
        assert(decimal(n).last() == digit(n % 10));
        let s = decimal(n);
        assert forall|k: int| 0 <= k < s.len() implies is_digit(s[k]) by {
            if k < s.len() - 1 {
                assert(decimal(n / 10)[k] == s[k]);
            }
        }
    }
}

/// The text that bytes are read as where they need not be valid UTF-8.
pub uninterp spec fn lossy(b: Seq<u8>) -> Seq<char>;

/// `String::from_utf8_lossy`: valid UTF-8 is decoded as it is. What becomes of
/// other bytes is left unsaid.
#[verifier::external_body]
pub(crate) fn from_utf8_lossy(b: &[u8]) -> (r: String)
    ensures
        r@ == lossy(b@),
        vstd::utf8::valid_utf8(b@) ==> r@ == vstd::utf8::decode_utf8(b@),
{
    String::from_utf8_lossy(b).into_owned()
}

/// Trimming takes the blanks at both ends and nothing else, however long what is
/// between them.
pub proof fn law_trimming_takes_the_blanks(front: Seq<char>, core: Seq<char>, back: Seq<char>)
    requires
        forall|i: int| 0 <= i < front.len() ==> blank(#[trigger] front[i]),
        forall|i: int| 0 <= i < back.len() ==> blank(#[trigger] back[i]),
        core.len() > 0 ==> !blank(core[0]) && !blank(core.last()),
    ensures
        trimmed(front + core + back) == core,
{
    lemma_trim_start(front, core + back);
    assert(front + core + back =~= front + (core + back));
    if core.len() > 0 {
        lemma_trim_end(core, back);
    } else {
        assert(core + back =~= back);
        lemma_trim_start(back, Seq::empty());
        assert(back + Seq::<char>::empty() =~= back);
        assert(trim_start(core + back) =~= core);
    }
}

proof fn lemma_trim_start(front: Seq<char>, rest: Seq<char>)
    requires
        forall|i: int| 0 <= i < front.len() ==> blank(#[trigger] front[i]),
    ensures
        trim_start(front + rest) == trim_start(rest),
    decreases front.len(),
{
    if front.len() > 0 {
        assert(blank(front[0]));
        let tail = front.skip(1);
        assert forall|i: int| 0 <= i < tail.len() implies blank(#[trigger] tail[i]) by {
            assert(tail[i] == front[i + 1]);
        }
        lemma_trim_start(tail, rest);
        assert((front + rest).skip(1) =~= tail + rest);
    } else {
        assert(front + rest =~= rest);
    }
}

proof fn lemma_trim_end(core: Seq<char>, back: Seq<char>)
    requires
        core.len() > 0,
        !blank(core.last()),
        forall|i: int| 0 <= i < back.len() ==> blank(#[trigger] back[i]),
    ensures
        trim_end(core + back) == core,
    decreases back.len(),
{
    if back.len() > 0 {
        assert(blank(back[back.len() - 1]));
        let init = back.drop_last();
        assert forall|i: int| 0 <= i < init.len() implies blank(#[trigger] init[i]) by {
            assert(init[i] == back[i]);
        }
        lemma_trim_end(core, init);
        assert((core + back).drop_last() =~= core + init);
    } else {
        assert(core + back =~= core);
    }
}

/// A text without blanks at its ends is trimmed already.
pub proof fn lemma_trimmed_already(s: Seq<char>)
    requires
        s.len() > 0 ==> !blank(s[0]) && !blank(s.last()),
    ensures
        trimmed(s) == s,
{
    let none = Seq::<char>::empty();
    law_trimming_takes_the_blanks(none, s, none);
    assert(none + s + none =~= s);
}

/// A number is written in digits that amount to it, without a zero in front.
pub proof fn law_numbers_are_written_out(n: nat)
    ensures
        all_digits(decimal(n)),
        value(decimal(n)) == n,
        n >= 10 ==> decimal(n).len() > 1 && decimal(n)[0] != '0',
        n < 10 ==> decimal(n).len() == 1,
    decreases n,
{
    lemma_decimal_value(n);
    if n >= 10 {
        law_numbers_are_written_out(n / 10);
    }
}

/// Texts are ordered as words are: by the first character in which they differ,
/// and a beginning before what goes on.
pub proof fn law_texts_are_ordered_as_words(same: Seq<char>, a: char, x: Seq<char>, b: char, y: Seq<char>)
    requires
        a < b,
    ensures
        precedes(same + seq![a] + x, same + seq![b] + y),
        !precedes(same + seq![b] + y, same + seq![a] + x),
        precedes(same, same + seq![a] + x),
    decreases same.len(),
{
    let (s, t) = (same + seq![a] + x, same + seq![b] + y);
    if same.len() > 0 {
        let rest = same.skip(1);
        law_texts_are_ordered_as_words(rest, a, x, b, y);
        assert(s[0] == same[0] && t[0] == same[0]);
        assert(s.skip(1) =~= rest + seq![a] + x);
        assert(t.skip(1) =~= rest + seq![b] + y);
    } else {
        assert(s[0] == a && t[0] == b);
    }
}

/// Numbers are read as they are written; what is no number is refused.
pub proof fn law_numbers_read_back(n: u64, s: Seq<char>, i: int)
    ensures
        parsed(decimal(n as nat)) == Some(n as nat),
        0 < i < s.len() && !('0' <= s[i] <= '9') ==> parsed(s) is None,
        s.len() == 0 ==> parsed(s) is None,
{
    lemma_decimal_parses(n);
    if 0 < i < s.len() && !('0' <= s[i] <= '9') {
        let digits = if s[0] == '+' { s.skip(1) } else { s };
        let k = if s[0] == '+' { i - 1 } else { i };
        assert(digits[k] == s[i]);
        assert(!is_digit(digits[k]));
    }
}

/// A plus in front of a number, or zeros, change nothing; what is no number does
/// not become one by them. What does not fit in sixty-four bits is none.
pub proof fn law_signs_and_zeros_change_nothing(s: Seq<char>)
    requires
        s.len() > 0,
        forall|i: int| 0 <= i < s.len() ==> '0' <= (#[trigger] s[i]) <= '9',
    ensures
        parsed(seq!['+'] + s) == parsed(s),
        parsed(seq!['0'] + s) == parsed(s),
        parsed(s) is Some <==> value(s) <= 0xffff_ffff_ffff_ffff,
        parsed(s) is Some ==> parsed(s)->0 == value(s),
{
    let zero = seq!['0'] + s;
    assert((seq!['+'] + s).skip(1) =~= s);
    assert(all_digits(s));
    assert forall|i: int| 0 <= i < zero.len() implies is_digit(#[trigger] zero[i]) by {
        if i > 0 {
            assert(zero[i] == s[i - 1]);
        }
    }
    lemma_zero_in_front(s);
    assert(s[0] != '+' && zero[0] != '+');
}

proof fn lemma_zero_in_front(s: Seq<char>)
    ensures
        value(seq!['0'] + s) == value(s),
    decreases s.len(),
{
    let zero = seq!['0'] + s;
    if s.len() == 0 {
        assert(zero.drop_last() =~= Seq::<char>::empty());
        assert(value(zero.drop_last()) == 0);
    } else {
        lemma_zero_in_front(s.drop_last());
        assert(zero.drop_last() =~= seq!['0'] + s.drop_last());
        assert(zero.last() == s.last());
    }
}

/// Of the characters below the hundred and twenty-eighth, the space, the tab and the
/// line breaks are blank; none that is drawn is.
pub proof fn law_spaces_are_blank(c: char)
    ensures
        blank(' ') && blank('\t') && blank('\n') && blank('\r'),
        '!' <= c <= '~' ==> !blank(c),
        blank('\u{a0}') && blank('\u{3000}') && blank('\u{2003}') && blank('\u{2028}'),
{
}

} // verus!
