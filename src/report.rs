//! Rendering the per-day report: one line per day and a summary line.
use vstd::prelude::*;
use vstd::arithmetic::div_mod::{lemma_fundamental_div_mod, lemma_fundamental_div_mod_converse, lemma_mod_bound};
use vstd::string::StrSliceExecFns;
use chrono::{Datelike, TimeZone};
use crate::record::DayRecord;

verus! {

pub open spec fn digit_char(v: int) -> char {
    if v == 0 {
        '0'
    } else if v == 1 {
        '1'
    } else if v == 2 {
        '2'
    } else if v == 3 {
        '3'
    } else if v == 4 {
        '4'
    } else if v == 5 {
        '5'
    } else if v == 6 {
        '6'
    } else if v == 7 {
        '7'
    } else if v == 8 {
        '8'
    } else {
        '9'
    }
}

/// The decimal digits of `n`, without leading zeros.
pub open spec fn digits_of(n: nat) -> Seq<char>
    decreases n,
{
    if n < 10 {
        seq![digit_char(n as int)]
    } else {
        digits_of(n / 10) + seq![digit_char((n % 10) as int)]
    }
}

/// `n` in decimal, with a `-` where it is negative.
pub open spec fn signed_text(n: int) -> Seq<char> {
    if n < 0 {
        seq!['-'] + digits_of((-n) as nat)
    } else {
        digits_of(n as nat)
    }
}

pub open spec fn spaces(k: int) -> Seq<char> {
    if k <= 0 {
        Seq::empty()
    } else {
        Seq::new(k as nat, |i: int| ' ')
    }
}

/// `v` (below 100) as two digits.
pub open spec fn two_digits(v: int) -> Seq<char> {
    seq![digit_char(v / 10), digit_char(v % 10)]
}

/// The hour of the day (UTC) of the epoch second `t`.
pub open spec fn hour_of(t: int) -> int {
    (t % 86400) / 3600
}

/// The minute of the hour of the epoch second `t`.
pub open spec fn minute_of(t: int) -> int {
    (t % 3600) / 60
}

/// `HH:MM` for the epoch second `t`.
pub open spec fn clock_text_of(t: int) -> Seq<char> {
    two_digits(hour_of(t)) + seq![':'] + two_digits(minute_of(t))
}

/// The day of the week of the epoch second `t`, counted from Monday = 0
/// (the epoch fell on a Thursday).
pub open spec fn weekday_of(t: int) -> int {
    (t / 86400 + 3) % 7
}

/// The calendar date `dd-mm-yyyy` of the epoch second `t`.
pub uninterp spec fn date_text_of(t: int) -> Seq<char>;

pub open spec fn weekday_name(i: int) -> Seq<char> {
    if i == 0 {
        "Montag"@
    } else if i == 1 {
        "Dienstag"@
    } else if i == 2 {
        "Mittwoch"@
    } else if i == 3 {
        "Donnerstag"@
    } else if i == 4 {
        "Freitag"@
    } else if i == 5 {
        "Samstag"@
    } else {
        "Sonntag"@
    }
}

/// The report line of one day.
pub open spec fn day_line_text(
    weekday: int,
    date: Seq<char>,
    start: Seq<char>,
    end: Seq<char>,
    count: int,
) -> Seq<char> {
    let name = weekday_name(weekday);
    let num = signed_text(count);
    "Du bist am "@ + name + spaces(10 - name.len()) + " den "@ + date + " zwischen "@ + start
        + " Uhr und "@ + end + " Uhr "@ + spaces(5 - num.len()) + num + " Schritte gegangen"@
}

/// The summary line: total, number of days and the average rounded down;
/// a notice instead where there are no days.
pub open spec fn summary_text(total: int, days: int) -> Seq<char> {
    if days <= 0 {
        "Keine Schrittdaten gefunden"@
    } else {
        "Das sind "@ + signed_text(total) + " Schritte in "@ + signed_text(days)
            + " Tagen, also im Schnitt "@ + signed_text(total / days) + " Schritte pro Tag"@
    }
}

pub open spec fn total_count(days: Seq<DayRecord>) -> int
    decreases days.len(),
{
    if days.len() == 0 {
        0
    } else {
        total_count(days.drop_last()) + days.last().count as int
    }
}

/// The line of day record `d`, whose local time is `offset` seconds ahead
/// of UTC.
pub open spec fn day_line_of(d: DayRecord, offset: int) -> Seq<char> {
    day_line_text(
        weekday_of(d.date as int),
        date_text_of(d.date + offset),
        clock_text_of(d.interval_start as int),
        clock_text_of(d.interval_end as int),
        d.count as int,
    )
}

/// The lines of the first `n` days, each ended by a newline.
pub open spec fn lines_upto(days: Seq<DayRecord>, offsets: Seq<i32>, n: int) -> Seq<char>
    decreases n,
{
    if n <= 0 {
        Seq::empty()
    } else {
        lines_upto(days, offsets, n - 1) + day_line_of(days[n - 1], offsets[n - 1] as int)
            + seq!['\n']
    }
}

pub open spec fn report_text(days: Seq<DayRecord>, offsets: Seq<i32>) -> Seq<char> {
    lines_upto(days, offsets, days.len() as int) + summary_text(
        total_count(days),
        days.len() as int,
    )
}

/// Relies on chrono's `DateTime::from_timestamp` and `Datelike::weekday`:
/// the day of the week of a UTC timestamp, as days since Monday.
#[verifier::external_body]
fn weekday_index(t: i32) -> (r: u32)
    ensures
        r as int == weekday_of(t as int),
{
    match chrono::DateTime::from_timestamp(t as i64, 0) {
        Some(dt) => dt.weekday().num_days_from_monday(),
        None => 0,
    }
}

/// Relies on chrono's `DateTime::from_timestamp` and its `%H:%M` format:
/// the zero-padded hour and minute of a UTC timestamp.
#[verifier::external_body]
fn clock_text(t: i32) -> (r: String)
    ensures
        r@ == clock_text_of(t as int),
{
    match chrono::DateTime::from_timestamp(t as i64, 0) {
        Some(dt) => dt.format("%H:%M").to_string(),
        None => String::new(),
    }
}

/// Relies on chrono's `DateTime::from_timestamp` and its `%d-%m-%Y`
/// format: the calendar date of a UTC timestamp.
#[verifier::external_body]
fn date_text(t: i64) -> (r: String)
    requires
        i32::MIN - 86400 < t < i32::MAX + 86400,
    ensures
        r@ == date_text_of(t as int),
{
    match chrono::DateTime::from_timestamp(t, 0) {
        Some(dt) => dt.format("%d-%m-%Y").to_string(),
        None => String::new(),
    }
}

/// Relies on chrono's `Local` time zone: how many seconds local time is
/// ahead of UTC at timestamp `t`. A `FixedOffset` is less than a day.
#[verifier::external_body]
fn local_offset(t: i32) -> (r: i32)
    ensures
        -86400 < r < 86400,
{
    match chrono::DateTime::from_timestamp(t as i64, 0) {
        Some(dt) => chrono::Local.offset_from_utc_datetime(&dt.naive_utc()).local_minus_utc(),
        None => 0,
    }
}

fn push_digit(out: &mut String, v: u8)
    requires
        v < 10,
    ensures
        final(out)@ == old(out)@ + seq![digit_char(v as int)],
{
    proof {
        reveal_strlit("0");
        reveal_strlit("1");
        reveal_strlit("2");
        reveal_strlit("3");
        reveal_strlit("4");
        reveal_strlit("5");
        reveal_strlit("6");
        reveal_strlit("7");
        reveal_strlit("8");
        reveal_strlit("9");
    }
    let s = if v == 0 {
        "0"
    } else if v == 1 {
        "1"
    } else if v == 2 {
        "2"
    } else if v == 3 {
        "3"
    } else if v == 4 {
        "4"
    } else if v == 5 {
        "5"
    } else if v == 6 {
        "6"
    } else if v == 7 {
        "7"
    } else if v == 8 {
        "8"
    } else {
        "9"
    };
    assert(s@ =~= seq![digit_char(v as int)]);
    out.append(s);
}

fn push_digits(out: &mut String, n: u128)
    ensures
        final(out)@ == old(out)@ + digits_of(n as nat),
    decreases n,
{
    if n >= 10 {
        push_digits(out, n / 10);
    }
    push_digit(out, (n % 10) as u8);
    assert(final(out)@ =~= old(out)@ + digits_of(n as nat));
}

/// `n` in decimal.
pub fn signed_decimal(n: i128) -> (r: String)
    ensures
        r@ == signed_text(n as int),
{
    let mut out = String::new();
    if n < 0 {
        proof {
            reveal_strlit("-");
        }
        out.append("-");
        let m: u128 = if n == i128::MIN {
            170141183460469231731687303715884105728u128
        } else {
            (-n) as u128
        };
        push_digits(&mut out, m);
    } else {
        push_digits(&mut out, n as u128);
    }
    out
}

fn push_spaces(out: &mut String, k: usize)
    ensures
        final(out)@ == old(out)@ + spaces(k as int),
{
    let mut i: usize = 0;
    while i < k
        invariant
            i <= k,
            out@ == old(out)@ + spaces(i as int),
        decreases k - i,
    {
        proof {
            reveal_strlit(" ");
        }
        assert(" "@ =~= seq![' ']);
        assert(spaces(i + 1) =~= spaces(i as int).push(' '));
        out.append(" ");
        i = i + 1;
        assert(out@ =~= old(out)@ + spaces(i as int));
    }
}

/// The German name of the day of the week `i` (Monday = 0).
pub fn weekday_name_of(i: u32) -> (r: &'static str)
    ensures
        r@ == weekday_name(i as int),
{
    if i == 0 {
        "Montag"
    } else if i == 1 {
        "Dienstag"
    } else if i == 2 {
        "Mittwoch"
    } else if i == 3 {
        "Donnerstag"
    } else if i == 4 {
        "Freitag"
    } else if i == 5 {
        "Samstag"
    } else {
        "Sonntag"
    }
}

fn push_padded_left(out: &mut String, s: &str, width: usize)
    ensures
        final(out)@ == old(out)@ + spaces(width - s@.len()) + s@,
{
    let len = s.unicode_len();
    if len < width {
        push_spaces(out, width - len);
    } else {
        assert(spaces(width - s@.len()) =~= Seq::<char>::empty());
    }
    out.append(s);
    assert(final(out)@ =~= old(out)@ + spaces(width - s@.len()) + s@);
}

/// The report line of one day, from its pieces: the day of the week
/// (Monday = 0), the date, the interval's start and end, and the count.
pub fn day_line(weekday: u32, date: &str, start: &str, end: &str, count: i64) -> (r: String)
    ensures
        r@ == day_line_text(weekday as int, date@, start@, end@, count as int),
{
    let mut out = String::new();
    out.append("Du bist am ");
    let name = weekday_name_of(weekday);
    let len = name.unicode_len();
    out.append(name);
    if len < 10 {
        push_spaces(&mut out, 10 - len);
    } else {
        assert(spaces(10 - name@.len()) =~= Seq::<char>::empty());
    }
    out.append(" den ");
    out.append(date);
    out.append(" zwischen ");
    out.append(start);
    out.append(" Uhr und ");
    out.append(end);
    out.append(" Uhr ");
    let num = signed_decimal(count as i128);
    push_padded_left(&mut out, num.as_str(), 5);
    out.append(" Schritte gegangen");
    assert(out@ =~= day_line_text(weekday as int, date@, start@, end@, count as int));
    out
}

/// `total / days` rounded down.
fn floor_div(total: i128, days: i128) -> (r: i128)
    requires
        days > 0,
    ensures
        r as int == total as int / days as int,
{
    if total >= 0 {
        total / days
    } else {
        let a: i128 = -(total + 1);
        let q: i128 = a / days;
        proof {
            let (ai, di, qi) = (a as int, days as int, q as int);
            lemma_fundamental_div_mod(ai, di);
            lemma_mod_bound(ai, di);
            let ri = ai % di;
            assert(total as int == (-qi - 1) * di + (di - 1 - ri)) by (nonlinear_arith)
                requires
                    ai == di * qi + ri,
                    total as int == -ai - 1,
            ;
            lemma_fundamental_div_mod_converse(total as int, di, -qi - 1, di - 1 - ri);
        }
        -q - 1
    }
}

/// The summary line: total count, number of days and the average per day
/// rounded down; a notice that there is no data where there are no days.
pub fn summary_line(total: i128, days: usize) -> (r: String)
    ensures
        r@ == summary_text(total as int, days as int),
{
    let mut out = String::new();
    if days == 0 {
        out.append("Keine Schrittdaten gefunden");
        assert(out@ =~= summary_text(total as int, days as int));
        return out;
    }
    let avg = floor_div(total, days as i128);
    out.append("Das sind ");
    let t = signed_decimal(total);
    out.append(t.as_str());
    out.append(" Schritte in ");
    let d = signed_decimal(days as i128);
    out.append(d.as_str());
    out.append(" Tagen, also im Schnitt ");
    let a = signed_decimal(avg);
    out.append(a.as_str());
    out.append(" Schritte pro Tag");
    assert(out@ =~= summary_text(total as int, days as int));
    out
}

/// `HH:MM` of the epoch second `t` (UTC).
pub fn clock_of(t: i32) -> (r: String)
    ensures
        r@ == clock_text_of(t as int),
{
    clock_text(t)
}

proof fn lemma_total_bound(days: Seq<DayRecord>)
    ensures
        -(days.len() * 9223372036854775808) <= total_count(days) <= days.len()
            * 9223372036854775808,
    decreases days.len(),
{
    if days.len() > 0 {
        lemma_total_bound(days.drop_last());
        assert(days.len() * 9223372036854775808 == (days.len() - 1) * 9223372036854775808
            + 9223372036854775808) by (nonlinear_arith);
    }
}

/// The report for `days`, with `offsets[i]` the seconds by which local
/// time is ahead of UTC on day `i`.
pub fn render_report_with(days: &Vec<DayRecord>, offsets: &Vec<i32>) -> (r: String)
    requires
        offsets@.len() == days@.len(),
        forall|i: int| 0 <= i < offsets@.len() ==> -86400 < #[trigger] offsets@[i] < 86400,
    ensures
        r@ == report_text(days@, offsets@),
{
    let mut out = String::new();
    let mut total: i128 = 0;
    let mut i: usize = 0;
    while i < days.len()
        invariant
            i <= days@.len() == offsets@.len(),
            forall|j: int| 0 <= j < offsets@.len() ==> -86400 < #[trigger] offsets@[j] < 86400,
            out@ == lines_upto(days@, offsets@, i as int),
            total as int == total_count(days@.take(i as int)),
        decreases days@.len() - i,
    {
        let d = days[i];
        let off = offsets[i];
        let w = weekday_index(d.date);
        let date = date_text(d.date as i64 + off as i64);
        let start = clock_text(d.interval_start);
        let end = clock_text(d.interval_end);
        let line = day_line(w, date.as_str(), start.as_str(), end.as_str(), d.count);
        out.append(line.as_str());
        proof {
            reveal_strlit("\n");
        }
        out.append("\n");
        proof {
            let p = days@.take(i + 1);
            assert(p.drop_last() =~= days@.take(i as int));
            lemma_total_bound(days@.take(i as int));
            assert(i * 9223372036854775808 <= 18446744073709551615 * 9223372036854775808)
                by (nonlinear_arith)
                requires
                    i <= 18446744073709551615int,
            ;
        }
        total = total + d.count as i128;
        i = i + 1;
        assert(out@ =~= lines_upto(days@, offsets@, i as int));
    }
    assert(days@.take(i as int) =~= days@);
    let summary = summary_line(total, days.len());
    out.append(summary.as_str());
    out
}

/// The report for `days`, dates in the local time zone. Whatever the
/// zone's offsets, the text is that of `report_text` for some offset of
/// less than a day per record.
pub fn render_report(days: &Vec<DayRecord>) -> (r: String)
    ensures
        exists|offsets: Seq<i32>|
            offsets.len() == days@.len() && (forall|i: int|
                0 <= i < offsets.len() ==> -86400 < #[trigger] offsets[i] < 86400) && r@
                == report_text(days@, offsets),
{
    let mut offsets: Vec<i32> = Vec::new();
    let mut i: usize = 0;
    while i < days.len()
        invariant
            i <= days@.len(),
            offsets@.len() == i,
            forall|j: int| 0 <= j < offsets@.len() ==> -86400 < #[trigger] offsets@[j] < 86400,
        decreases days@.len() - i,
    {
        let off = local_offset(days[i].date);
        offsets.push(off);
        i = i + 1;
    }
    render_report_with(days, &offsets)
}

pub open spec fn digit_value(c: char) -> int {
    c as int - 48
}

pub open spec fn is_digit_char(c: char) -> bool {
    '0' <= c <= '9'
}

/// The hour and minute that an `HH:MM` text spells, if it is one.
pub open spec fn clock_value(s: Seq<char>) -> Option<(int, int)> {
    if s.len() == 5 && is_digit_char(s[0]) && is_digit_char(s[1]) && s[2] == ':'
        && is_digit_char(s[3]) && is_digit_char(s[4]) {
        Some(
            (
                digit_value(s[0]) * 10 + digit_value(s[1]),
                digit_value(s[3]) * 10 + digit_value(s[4]),
            ),
        )
    } else {
        None
    }
}

/// Reads back an `HH:MM` text: the hour and minute, or `None` where the
/// text has another shape.
pub fn parse_clock(s: &str) -> (r: Option<(u32, u32)>)
    ensures
        r == (match clock_value(s@) {
            Some((h, m)) => Some((h as u32, m as u32)),
            None => None::<(u32, u32)>,
        }),
{
    if s.unicode_len() != 5 {
        return None;
    }
    let c0 = s.get_char(0);
    let c1 = s.get_char(1);
    let c2 = s.get_char(2);
    let c3 = s.get_char(3);
    let c4 = s.get_char(4);
    if '0' <= c0 && c0 <= '9' && '0' <= c1 && c1 <= '9' && c2 == ':' && '0' <= c3 && c3 <= '9'
        && '0' <= c4 && c4 <= '9' {
        let h = (c0 as u32 - 48) * 10 + (c1 as u32 - 48);
        let m = (c3 as u32 - 48) * 10 + (c4 as u32 - 48);
        Some((h, m))
    } else {
        None
    }
}

proof fn lemma_two_digits_value(v: int)
    requires
        0 <= v < 100,
    ensures
        is_digit_char(two_digits(v)[0]),
        is_digit_char(two_digits(v)[1]),
        digit_value(two_digits(v)[0]) * 10 + digit_value(two_digits(v)[1]) == v,
{
    let a = v / 10;
    let b = v % 10;
    assert(0 <= a < 10 && 0 <= b < 10 && v == a * 10 + b);
    assert(digit_value(digit_char(a)) == a && is_digit_char(digit_char(a)));
    assert(digit_value(digit_char(b)) == b && is_digit_char(digit_char(b)));
}

/// Reading back the `HH:MM` text of a timestamp gives the hour and minute
/// that it displays: the rendering loses nothing at minute resolution.
pub proof fn lemma_clock_round_trip(t: int)
    ensures
        clock_value(clock_text_of(t)) == Some((hour_of(t), minute_of(t))),
        0 <= hour_of(t) < 24,
        0 <= minute_of(t) < 60,
        hour_of(t) * 3600 + minute_of(t) * 60 <= t % 86400 < hour_of(t) * 3600 + minute_of(t) * 60
            + 60,
{
    let s = t % 86400;
    let h = hour_of(t);
    let m = minute_of(t);
    assert(0 <= s < 86400);
    assert(0 <= h < 24);
    assert(t % 3600 == s % 3600) by {
        lemma_fundamental_div_mod(t, 86400);
        lemma_fundamental_div_mod(t, 3600);
        lemma_fundamental_div_mod(s, 3600);
        lemma_mod_bound(t, 3600);
        lemma_mod_bound(s, 3600);
        let q = t / 86400;
        assert(t == s + 86400 * q);
        lemma_fundamental_div_mod_converse(t, 3600, s / 3600 + 24 * q, s % 3600);
    }
    assert(s == h * 3600 + s % 3600) by {
        lemma_fundamental_div_mod(s, 3600);
    }
    lemma_two_digits_value(h);
    lemma_two_digits_value(m);
    let c = clock_text_of(t);
    assert(c[0] == two_digits(h)[0] && c[1] == two_digits(h)[1] && c[2] == ':');
    assert(c[3] == two_digits(m)[0] && c[4] == two_digits(m)[1]);
}

} // verus!
