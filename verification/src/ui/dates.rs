//! Clock times and dates, as the machine's time zone tells them.
//!
//! A day is counted as chrono counts it: day 1 is the first of January of the
//! year 1.

use crate::text;
use chrono::Datelike;
use vstd::prelude::*;

verus! {

/// The first day that chrono's calendar holds.
pub const CALENDAR_FIRST: i32 = -95_746_129;

/// The last day that chrono's calendar holds.
pub const CALENDAR_LAST: i32 = 95_745_399;

/// A number of days: more than a signed number of milliseconds can go back.
const LONG_AGO: i128 = 200_000_000_000;

/// Whether chrono's calendar holds a day.
pub open spec fn in_calendar(day: int) -> bool {
    CALENDAR_FIRST <= day <= CALENDAR_LAST
}

/// The day, at Greenwich, of a time in milliseconds since the Unix epoch.
pub open spec fn utc_day(ms: int) -> int {
    719_163 + ms / 86_400_000
}

/// A time of day in writing.
pub open spec fn clock_text(h: nat, m: nat) -> Seq<char> {
    seq![text::digit(h / 10), text::digit(h % 10), ':', text::digit(m / 10), text::digit(m % 10)]
}

/// Whether an offset from Greenwich, in seconds, is one that a time zone can
/// have at a time: there is one just for the times whose day the calendar holds,
/// and it is less than a day.
pub open spec fn zoned(ms: int, offset: Option<i32>) -> bool {
    &&& offset is Some <==> in_calendar(utc_day(ms))
    &&& offset matches Some(o) ==> -86_400 < o < 86_400
}

/// The time of day in a zone, or dashes where there is none.
pub open spec fn clock_told(ms: int, offset: Option<i32>) -> Seq<char> {
    match offset {
        Some(o) => {
            let minute = (ms + 1000 * o) / 60_000 % 1440;
            clock_text((minute / 60) as nat, (minute % 60) as nat)
        },
        None => "--:--"@,
    }
}

/// The day in a zone, if the calendar holds it.
pub open spec fn day_told(ms: int, offset: Option<i32>) -> Option<i32> {
    match offset {
        Some(o) => if in_calendar(utc_day(ms + 1000 * o)) {
            Some(utc_day(ms + 1000 * o) as i32)
        } else {
            None
        },
        None => None,
    }
}

/// `chrono::DateTime::from_timestamp_millis`, moved to `chrono::Local` by
/// `with_timezone`: how many seconds that zone is ahead of Greenwich then. Which
/// offset it is depends on the time zone that the machine is set to.
#[verifier::external_body]
fn local_offset(ms: i64) -> (r: Option<i32>)
    ensures
        zoned(ms as int, r),
{
    match chrono::DateTime::from_timestamp_millis(ms) {
        Some(t) => Some(t.with_timezone(&chrono::Local).offset().local_minus_utc()),
        None => None,
    }
}

/// The date that `chrono::Local::now` gives, as `num_days_from_ce` counts it:
/// some day of the calendar.
#[verifier::external_body]
pub(crate) fn today() -> (r: i32)
    ensures
        in_calendar(r as int),
{
    chrono::Local::now().date_naive().num_days_from_ce()
}

/// The name of a day of the week. The first of January of the year 1 was a
/// Monday.
pub open spec fn weekday_name(day: int) -> Seq<char> {
    let n = (day - 1) % 7;
    if n == 0 {
        "Monday"@
    } else if n == 1 {
        "Tuesday"@
    } else if n == 2 {
        "Wednesday"@
    } else if n == 3 {
        "Thursday"@
    } else if n == 4 {
        "Friday"@
    } else if n == 5 {
        "Saturday"@
    } else {
        "Sunday"@
    }
}

/// `chrono::NaiveDate::format` with `%A`: the full name of the day of the week.
#[verifier::external_body]
fn weekday(day: i32) -> (r: String)
    requires
        in_calendar(day as int),
    ensures
        r@ == weekday_name(day as int),
{
    chrono::NaiveDate::from_num_days_from_ce_opt(day).unwrap().format("%A").to_string()
}

/// Whether a year is a leap year.
pub open spec fn leap(y: int) -> bool {
    y % 4 == 0 && (y % 100 != 0 || y % 400 == 0)
}

/// How many days a month has, counting months from 1.
pub open spec fn month_days(y: int, m: int) -> int {
    if m == 2 {
        if leap(y) {
            29
        } else {
            28
        }
    } else if m == 4 || m == 6 || m == 9 || m == 11 {
        30
    } else {
        31
    }
}

/// How many days of a year go before a month.
pub open spec fn days_before(y: int, m: int) -> int
    decreases m,
{
    if m <= 1 {
        0
    } else {
        days_before(y, m - 1) + month_days(y, m - 1)
    }
}

/// How many days go before a year, counting from the year 1.
pub open spec fn days_to_year(y: int) -> int {
    365 * (y - 1) + (y - 1) / 4 - (y - 1) / 100 + (y - 1) / 400
}

/// Whether a year, a month and a day of the month make a date.
pub open spec fn is_date(y: int, m: int, d: int) -> bool {
    1 <= m <= 12 && 1 <= d <= month_days(y, m)
}

/// The day that a date of the Gregorian calendar, carried on into the past,
/// stands for.
pub open spec fn day_of(y: int, m: int, d: int) -> int {
    days_to_year(y) + days_before(y, m) + d
}

/// The name of a month.
pub open spec fn month_name(m: int) -> Seq<char> {
    if m == 1 {
        "January"@
    } else if m == 2 {
        "February"@
    } else if m == 3 {
        "March"@
    } else if m == 4 {
        "April"@
    } else if m == 5 {
        "May"@
    } else if m == 6 {
        "June"@
    } else if m == 7 {
        "July"@
    } else if m == 8 {
        "August"@
    } else if m == 9 {
        "September"@
    } else if m == 10 {
        "October"@
    } else if m == 11 {
        "November"@
    } else {
        "December"@
    }
}

/// A date in writing: the day of the week, the day of the month in two columns,
/// the month.
pub open spec fn date_text(y: int, m: int, d: int) -> Seq<char> {
    let tens = if d < 10 {
        ' '
    } else {
        text::digit((d / 10) as nat)
    };
    weekday_name(day_of(y, m, d)) + ", "@ + seq![tens, text::digit((d % 10) as nat), ' '] + month_name(m)
}

/// The date of a day in writing.
pub open spec fn long_date(day: int) -> Seq<char> {
    let (y, m, d): (int, int, int) = choose|y: int, m: int, d: int| #[trigger] is_date(y, m, d) && day_of(y, m, d) == day;
    date_text(y, m, d)
}

proof fn lemma_years_follow(a: int, b: int)
    requires
        a < b,
    ensures
        days_to_year(a) + 365 + if leap(a) { 1int } else { 0int } <= days_to_year(b),
    decreases b - a,
{
    if a + 1 < b {
        lemma_years_follow(a, b - 1);
    }
}

proof fn lemma_months_follow(y: int, a: int, b: int)
    requires
        1 <= a < b <= 13,
    ensures
        days_before(y, a) + month_days(y, a) <= days_before(y, b),
        days_before(y, 13) == 365 + if leap(y) { 1int } else { 0int },
    decreases b,
{
    reveal_with_fuel(days_before, 13);
    if a + 1 < b {
        lemma_months_follow(y, a, b - 1);
    }
}

proof fn lemma_dates_follow(y: int, m: int, d: int, y2: int, m2: int, d2: int)
    requires
        is_date(y, m, d),
        is_date(y2, m2, d2),
        y < y2 || (y == y2 && m < m2),
    ensures
        day_of(y, m, d) < day_of(y2, m2, d2),
{
    lemma_months_follow(y, m, 13);
    if y < y2 {
        lemma_years_follow(y, y2);
        if 1 < m2 {
            lemma_months_follow(y2, 1, m2);
        }
    } else {
        lemma_months_follow(y, m, m2);
    }
}

/// A day has one date at most: the one that a day is written with is its own.
pub proof fn law_days_are_written_as_their_dates(y: int, m: int, d: int)
    requires
        is_date(y, m, d),
    ensures
        long_date(day_of(y, m, d)) == date_text(y, m, d),
{
    let day = day_of(y, m, d);
    let (y2, m2, d2): (int, int, int) = choose|y: int, m: int, d: int| #[trigger] is_date(y, m, d) && day_of(y, m, d) == day;
    assert(is_date(y, m, d) && day_of(y, m, d) == day);
    assert(is_date(y2, m2, d2) && day_of(y2, m2, d2) == day);
    if y < y2 || (y == y2 && m < m2) {
        lemma_dates_follow(y, m, d, y2, m2, d2);
    } else if y2 < y || (y2 == y && m2 < m) {
        lemma_dates_follow(y2, m2, d2, y, m, d);
    }
}

/// `chrono::NaiveDate::format` with `%A, %e %B`, on a day that
/// `from_num_days_from_ce_opt` takes: [`long_date`].
#[verifier::external_body]
fn weekday_and_date(day: i32) -> (r: String)
    requires
        in_calendar(day as int),
    ensures
        r@ == long_date(day as int),
{
    chrono::NaiveDate::from_num_days_from_ce_opt(day).unwrap().format("%A, %e %B").to_string()
}

/// A timestamp as a signed number of the same bits.
pub open spec fn signed(ts_ms: u64) -> int {
    if ts_ms < 0x8000_0000_0000_0000 {
        ts_ms as int
    } else {
        ts_ms - 0x1_0000_0000_0000_0000
    }
}

/// Computes [`signed`].
fn signed_of(ts_ms: u64) -> (r: i64)
    ensures
        r == signed(ts_ms),
{
    if ts_ms < 0x8000_0000_0000_0000 {
        ts_ms as i64
    } else {
        -((u64::MAX - ts_ms) as i64) - 1
    }
}

/// A time in a zone, counted from a day long before all that a timestamp can
/// tell: [`LONG_AGO`] days before the epoch.
fn since_long_ago(ms: i64, offset: i32) -> (r: i128)
    ensures
        r == ms + 1000 * offset + 86_400_000 * LONG_AGO,
        r >= 0,
{
    ms as i128 + 1000 * (offset as i128) + 86_400_000 * LONG_AGO
}

/// Computes [`clock_told`].
pub fn clock_at(ts_ms: u64, offset: Option<i32>) -> (r: String)
    ensures
        r@ == clock_told(signed(ts_ms), offset),
{
    match offset {
        Some(o) => {
            let minute: i128 = since_long_ago(signed_of(ts_ms), o) / 60_000 % 1440;
            proof {
                lemma_same_minute(signed(ts_ms) + 1000 * o);
            }
            written_clock(minute as u64)
        },
        None => "--:--".to_owned(),
    }
}

/// Whole days ago it was the same time of day.
proof fn lemma_same_minute(ms: int)
    ensures
        (ms + 86_400_000 * LONG_AGO) / 60_000 % 1440 == ms / 60_000 % 1440,
{
    let days: int = LONG_AGO as int;
    assert((ms + 86_400_000 * days) / 60_000 == ms / 60_000 + 1440 * days);
    assert((ms / 60_000 + 1440 * days) % 1440 == ms / 60_000 % 1440);
}

/// A minute of the day in writing.
fn written_clock(minute: u64) -> (r: String)
    requires
        minute < 1440,
    ensures
        r@ == clock_text((minute / 60) as nat, (minute % 60) as nat),
{
    let (h, m): (u64, u64) = (minute / 60, minute % 60);
    let mut r = String::new();
    r.push(text::digit_char(h / 10));
    r.push(text::digit_char(h % 10));
    r.push(':');
    r.push(text::digit_char(m / 10));
    r.push(text::digit_char(m % 10));
    assert(r@ =~= clock_text(h as nat, m as nat));
    r
}

/// Computes [`day_told`].
pub fn day_at(ts_ms: u64, offset: Option<i32>) -> (r: Option<i32>)
    ensures
        r == day_told(signed(ts_ms), offset),
{
    match offset {
        Some(o) => {
            let day: i128 = since_long_ago(signed_of(ts_ms), o) / 86_400_000 - LONG_AGO + 719_163;
            if CALENDAR_FIRST as i128 <= day && day <= CALENDAR_LAST as i128 {
                Some(day as i32)
            } else {
                None
            }
        },
        None => None,
    }
}

/// The clock time of a message. The sender's clock is not trusted for ordering,
/// so this is a display hint and nothing more.
pub fn clock(ts_ms: u64) -> (r: String)
    ensures
        exists|offset: Option<i32>|
            zoned(signed(ts_ms), offset) && r@ == #[trigger] clock_told(signed(ts_ms), offset),
{
    clock_at(ts_ms, local_offset(signed_of(ts_ms)))
}

/// The day a message landed on, for the separator between them.
pub fn day(ts_ms: u64) -> (r: Option<i32>)
    ensures
        exists|offset: Option<i32>|
            zoned(signed(ts_ms), offset) && r == #[trigger] day_told(signed(ts_ms), offset),
{
    day_at(ts_ms, local_offset(signed_of(ts_ms)))
}

/// The clock time of a message and the day it landed on, in one zone.
pub(crate) fn clock_and_day(ts_ms: u64) -> (r: (String, Option<i32>))
    ensures
        exists|offset: Option<i32>|
            {
                &&& zoned(signed(ts_ms), offset)
                &&& r.0@ == #[trigger] clock_told(signed(ts_ms), offset)
                &&& r.1 == day_told(signed(ts_ms), offset)
            },
{
    let offset = local_offset(signed_of(ts_ms));
    let r = (clock_at(ts_ms, offset), day_at(ts_ms, offset));
    assert(r.0@ == clock_told(signed(ts_ms), offset));
    r
}

/// A text with each pair of blanks, from the left, made one.
pub open spec fn squeezed(s: Seq<char>) -> Seq<char>
    decreases s.len(),
{
    if s.len() == 0 {
        s
    } else if s.len() >= 2 && s[0] == ' ' && s[1] == ' ' {
        seq![' '] + squeezed(s.skip(2))
    } else {
        seq![s[0]] + squeezed(s.skip(1))
    }
}

/// Computes [`squeezed`].
fn squeeze(s: &str) -> (r: String)
    ensures
        r@ == squeezed(s@),
{
    let chars = text::chars_of(s);
    let mut out: String = String::new();
    let mut i: usize = 0;
    assert(chars@.skip(0) =~= chars@);
    assert(out@ + squeezed(chars@) =~= squeezed(chars@));
    while i < chars.len()
        invariant
            i <= chars@.len(),
            chars@ == s@,
            out@ + squeezed(chars@.skip(i as int)) == squeezed(s@),
        decreases chars@.len() - i,
    {
        let ghost rest = chars@.skip(i as int);
        let ghost was = out@;
        let step: usize = if chars.len() - i >= 2 && chars[i] == ' ' && chars[i + 1] == ' ' { 2 } else { 1 };
        out.push(chars[i]);
        proof {
            assert(rest.skip(step as int) =~= chars@.skip(i + step));
            assert(rest[0] == chars@[i as int]);
            if step == 2 {
                assert(rest[1] == chars@[i + 1]);
            }
            assert(squeezed(rest) == seq![chars@[i as int]] + squeezed(rest.skip(step as int)));
            assert(out@ + squeezed(rest.skip(step as int)) =~= was + squeezed(rest));
        }
        i = i + step;
    }
    assert(chars@.skip(i as int) =~= Seq::<char>::empty());
    assert(out@ + squeezed(chars@.skip(i as int)) =~= out@);
    out
}

/// What a day is called on another: near ones by their distance or by the day
/// of the week, others by their date.
pub open spec fn labelled(date: int, today: int) -> Seq<char> {
    let ago = today - date;
    if ago == 0 {
        "today"@
    } else if ago == 1 {
        "yesterday"@
    } else if 2 <= ago <= 6 {
        weekday_name(date)
    } else {
        squeezed(long_date(date))
    }
}

/// Computes [`labelled`].
pub fn day_label(date: i32, today: i32) -> (r: String)
    requires
        in_calendar(date as int),
        in_calendar(today as int),
    ensures
        r@ == labelled(date as int, today as int),
{
    let ago: i32 = today - date;
    if ago == 0 {
        "today".to_owned()
    } else if ago == 1 {
        "yesterday".to_owned()
    } else if 2 <= ago && ago <= 6 {
        weekday(date)
    } else {
        squeeze(weekday_and_date(date).as_str())
    }
}

/// A time of day is written in hours and minutes of two digits each, in the zone,
/// and belongs to the day of the zone.
pub proof fn law_clocks_and_days(ms: int, offset: i32, day: int, h: int, m: int, rest: int)
    requires
        ms + 1000 * offset == day * 86_400_000 + h * 3_600_000 + m * 60_000 + rest,
        0 <= h < 24,
        0 <= m < 60,
        0 <= rest < 60_000,
    ensures
        clock_told(ms, Some(offset)) == seq![
            ('0' as int + h / 10) as char,
            ('0' as int + h % 10) as char,
            ':',
            ('0' as int + m / 10) as char,
            ('0' as int + m % 10) as char,
        ],
        CALENDAR_FIRST <= 719_163 + day <= CALENDAR_LAST ==> day_told(ms, Some(offset)) == Some(
            (719_163 + day) as i32,
        ),
{
    let local = ms + 1000 * offset;
    assert(local / 60_000 == day * 1440 + h * 60 + m);
    let minute = local / 60_000 % 1440;
    assert(minute == h * 60 + m);
    assert(minute / 60 == h && minute % 60 == m);
    assert(local / 86_400_000 == day);
}

/// A day is a week later called by the same name, and no two days within a week
/// are.
pub proof fn law_weeks_go_round(day: int, k: int)
    requires
        0 <= k < 7,
    ensures
        weekday_name(day + 7) == weekday_name(day),
        weekday_name(day + k) == weekday_name(day) ==> k == 0,
{
    reveal_strlit("Monday");
    reveal_strlit("Tuesday");
    reveal_strlit("Wednesday");
    reveal_strlit("Thursday");
    reveal_strlit("Friday");
    reveal_strlit("Saturday");
    reveal_strlit("Sunday");
    assert("Monday"@[0] == 'M' && "Tuesday"@[1] == 'u' && "Wednesday"@[0] == 'W' && "Thursday"@[1] == 'h');
    assert("Friday"@[0] == 'F' && "Saturday"@[1] == 'a' && "Sunday"@[1] == 'u' && "Tuesday"@[0] == 'T');
    assert("Thursday"@[0] == 'T' && "Saturday"@[0] == 'S' && "Sunday"@[0] == 'S');
}

/// The first day of the era of clocks was a Thursday, and the days of the week follow
/// one another from there.
pub proof fn law_weekdays_are_right(weeks: int)
    ensures
        weekday_name(719_163 + 7 * weeks) == "Thursday"@,
        weekday_name(719_164 + 7 * weeks) == "Friday"@,
        weekday_name(719_165 + 7 * weeks) == "Saturday"@,
        weekday_name(719_166 + 7 * weeks) == "Sunday"@,
        weekday_name(719_167 + 7 * weeks) == "Monday"@,
        weekday_name(719_168 + 7 * weeks) == "Tuesday"@,
        weekday_name(719_169 + 7 * weeks) == "Wednesday"@,
{
}

/// Days follow one another through months of their lengths and through years, every
/// fourth a leap year but for three centuries in four.
pub proof fn law_the_calendar_goes_on(y: int, m: int, d: int)
    requires
        1 <= m <= 12,
    ensures
        day_of(y, m, d + 1) == day_of(y, m, d) + 1,
        m == 1 || m == 3 || m == 5 || m == 7 || m == 8 || m == 10 ==> day_of(y, m + 1, 1) == day_of(y, m, 31) + 1,
        m == 4 || m == 6 || m == 9 || m == 11 ==> day_of(y, m + 1, 1) == day_of(y, m, 30) + 1,
        m == 2 && y % 4 == 0 && (y % 100 != 0 || y % 400 == 0) ==> day_of(y, m + 1, 1) == day_of(y, m, 29) + 1,
        m == 2 && (y % 4 != 0 || (y % 100 == 0 && y % 400 != 0)) ==> day_of(y, m + 1, 1) == day_of(y, m, 28) + 1,
        m == 12 ==> day_of(y + 1, 1, 1) == day_of(y, m, 31) + 1,
        is_date(y, m, d) <==> 1 <= d && if m == 12 {
            d <= 31
        } else {
            day_of(y, m, d) < day_of(y, m + 1, 1)
        },
{
    assert(days_before(y, m + 1) == days_before(y, m) + month_days(y, m));
    if m == 12 {
        lemma_year(y);
        lemma_year_days(y);
        assert(days_before(y + 1, 1) == 0);
    }
}

proof fn lemma_year(y: int)
    ensures
        days_before(y, 12) == if leap(y) { 335int } else { 334 },
{
    assert(days_before(y, 1) == 0);
    assert(days_before(y, 2) == days_before(y, 1) + 31);
    assert(days_before(y, 3) == days_before(y, 2) + month_days(y, 2));
    assert(days_before(y, 4) == days_before(y, 3) + 31);
    assert(days_before(y, 5) == days_before(y, 4) + 30);
    assert(days_before(y, 6) == days_before(y, 5) + 31);
    assert(days_before(y, 7) == days_before(y, 6) + 30);
    assert(days_before(y, 8) == days_before(y, 7) + 31);
    assert(days_before(y, 9) == days_before(y, 8) + 31);
    assert(days_before(y, 10) == days_before(y, 9) + 30);
    assert(days_before(y, 11) == days_before(y, 10) + 31);
    assert(days_before(y, 12) == days_before(y, 11) + 30);
}

proof fn lemma_year_days(y: int)
    ensures
        days_to_year(y + 1) == days_to_year(y) + if leap(y) { 366int } else { 365 },
{
    assert(y / 4 - (y - 1) / 4 == if y % 4 == 0 { 1int } else { 0 });
    assert(y / 100 - (y - 1) / 100 == if y % 100 == 0 { 1int } else { 0 });
    assert(y / 400 - (y - 1) / 400 == if y % 400 == 0 { 1int } else { 0 });
}

/// The day that clocks count from is the first of January 1970.
pub proof fn law_clocks_count_from_a_new_year()
    ensures
        day_of(1970, 1, 1) == 719_163,
        utc_day(0) == 719_163,
{
}

/// The months have their names.
pub proof fn law_months_have_their_names()
    ensures
        month_name(1) == "January"@ && month_name(2) == "February"@ && month_name(3) == "March"@,
        month_name(4) == "April"@ && month_name(5) == "May"@ && month_name(6) == "June"@,
        month_name(7) == "July"@ && month_name(8) == "August"@ && month_name(9) == "September"@,
        month_name(10) == "October"@ && month_name(11) == "November"@ && month_name(12) == "December"@,
{
}

/// Of two blanks side by side one goes; a text without them stays as it is.
pub proof fn law_double_blanks_are_squeezed(a: Seq<char>, b: Seq<char>)
    requires
        forall|i: int| 0 <= i < a.len() - 1 ==> (#[trigger] a[i]) != ' ' || a[i + 1] != ' ',
        forall|i: int| 0 <= i < b.len() - 1 ==> (#[trigger] b[i]) != ' ' || b[i + 1] != ' ',
        a.len() > 0 ==> a.last() != ' ',
        b.len() > 0 ==> b[0] != ' ',
    ensures
        squeezed(b) == b,
        squeezed(a + seq![' ', ' '] + b) == a + seq![' '] + b,
    decreases a.len(),
{
    lemma_squeezed_already(b);
    let s = a + seq![' ', ' '] + b;
    if a.len() == 0 {
        assert(s.skip(2) =~= b);
        assert(squeezed(s) =~= a + seq![' '] + b);
    } else {
        let rest = a.skip(1);
        assert forall|i: int| 0 <= i < rest.len() - 1 implies (#[trigger] rest[i]) != ' ' || rest[i + 1] != ' ' by {
            assert(rest[i] == a[i + 1] && rest[i + 1] == a[i + 2]);
        }
        if rest.len() > 0 {
            assert(rest.last() == a.last());
        }
        law_double_blanks_are_squeezed(rest, b);
        assert(s.skip(1) =~= rest + seq![' ', ' '] + b);
        if a.len() >= 2 {
            assert(s[0] == a[0] && s[1] == a[1]);
        }
        assert(squeezed(s) =~= a + seq![' '] + b);
    }
}

proof fn lemma_squeezed_already(b: Seq<char>)
    requires
        forall|i: int| 0 <= i < b.len() - 1 ==> (#[trigger] b[i]) != ' ' || b[i + 1] != ' ',
    ensures
        squeezed(b) == b,
    decreases b.len(),
{
    if b.len() > 0 {
        let rest = b.skip(1);
        assert forall|i: int| 0 <= i < rest.len() - 1 implies (#[trigger] rest[i]) != ' ' || rest[i + 1] != ' ' by {
            assert(rest[i] == b[i + 1] && rest[i + 1] == b[i + 2]);
        }
        lemma_squeezed_already(rest);
        assert(squeezed(b) =~= b);
    }
}

} // verus!
