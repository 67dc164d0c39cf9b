//! Points in time as text, in UTC.

use vstd::prelude::*;

use crate::civil;
use crate::engine::parse;
use crate::number;
use crate::order;
use crate::scan;
use crate::scan::ByteClass;
use crate::text;

verus! {

/// `YYYY-MM-DD` of an epoch day.
#[verifier::opaque]
pub open spec fn date_text(day: int) -> Seq<char> {
    let (y, m, d) = civil::civil(day);
    number::zero_padded(y, 4) + seq!['-'] + number::zero_padded(m, 2) + seq!['-']
        + number::zero_padded(d, 2)
}

/// `HH:MM:SS` of a second of the day.
#[verifier::opaque]
pub open spec fn time_text(sec: int) -> Seq<char> {
    number::zero_padded(sec / 3_600, 2) + seq![':'] + number::zero_padded(sec % 3_600 / 60, 2)
        + seq![':'] + number::zero_padded(sec % 60, 2)
}

/// Date and time of a second since the epoch, with a character between.
pub open spec fn stamp(secs: int, sep: char) -> Seq<char> {
    date_text(secs / 86_400) + seq![sep] + time_text(secs % 86_400)
}

/// Whole days of a number of seconds, and the second of the day.
pub(crate) fn split_days(n: i64) -> (r: (i64, i64))
    ensures
        r.0 == n as int / 86_400,
        r.1 == n as int % 86_400,
        0 <= r.1 < 86_400,
{
    let q: i64 = n / 86_400;
    let rem: i64 = n % 86_400;
    if rem < 0 {
        (q - 1, rem + 86_400)
    } else {
        (q, rem)
    }
}

/// Whole seconds of a number of microseconds, and the microseconds left.
pub(crate) fn split_seconds(n: i64) -> (r: (i64, i64))
    ensures
        r.0 == n as int / 1_000_000,
        r.1 == n as int % 1_000_000,
        0 <= r.1 < 1_000_000,
{
    let q: i64 = n / 1_000_000;
    let rem: i64 = n % 1_000_000;
    if rem < 0 {
        (q - 1, rem + 1_000_000)
    } else {
        (q, rem)
    }
}

/// Append date and time of a second since the epoch.
pub(crate) fn push_stamp(out: &mut String, secs: i64, sep: char)
    ensures
        final(out)@ == old(out)@ + stamp(secs as int, sep),
{
    reveal(date_text);
    reveal(time_text);
    let (days, sec) = split_days(secs);
    let (y, m, d) = civil::civil_from_days(days);
    let ghost start = out@;
    number::push_year(out, y);
    out.push('-');
    number::push_padded(out, m as u64, 2);
    out.push('-');
    number::push_padded(out, d as u64, 2);
    assert(out@ =~= start + date_text(days as int));
    out.push(sep);
    let ghost mid = out@;
    number::push_padded(out, (sec / 3_600) as u64, 2);
    out.push(':');
    number::push_padded(out, (sec % 3_600 / 60) as u64, 2);
    out.push(':');
    number::push_padded(out, (sec % 60) as u64, 2);
    assert(out@ =~= mid + time_text(sec as int));
    assert(out@ =~= start + stamp(secs as int, sep));
}

/// Date and time of a microsecond since the epoch, `YYYY-MM-DDTHH:MM:SS.ffffff`.
pub open spec fn micros_text(micros: int) -> Seq<char> {
    stamp(micros / 1_000_000, 'T') + seq!['.'] + number::zero_padded(micros % 1_000_000, 6)
}

/// Date and time of a microsecond since the epoch.
pub fn format_micros(micros: i64) -> (r: String)
    ensures
        r@ == micros_text(micros as int),
{
    let (secs, frac) = split_seconds(micros);
    let mut out: String = String::new();
    push_stamp(&mut out, secs, 'T');
    out.push('.');
    number::push_padded(&mut out, frac as u64, 6);
    assert(out@ =~= micros_text(micros as int));
    out
}

/// Date and time of a second since the epoch, as RFC 3339 in UTC.
pub open spec fn seconds_text(secs: int) -> Seq<char> {
    stamp(secs, 'T') + seq!['Z']
}

/// RFC 3339 timestamp at second precision, UTC.
pub fn format_unix_seconds_utc(unix_seconds: i64) -> (r: String)
    ensures
        r@ == seconds_text(unix_seconds as int),
{
    let mut out: String = String::new();
    push_stamp(&mut out, unix_seconds, 'T');
    out.push('Z');
    assert(out@ =~= seconds_text(unix_seconds as int));
    out
}

/// The years that four digits can write.
pub open spec fn has_four_digit_year(secs: int) -> bool {
    0 <= civil::civil(secs / 86_400).0 <= 9_999
}

/// The years 1 to 9999 have four digits.
pub proof fn law_years_of_four_digits(secs: int)
    requires
        -62_135_596_800 <= secs < 253_402_300_800,
    ensures
        has_four_digit_year(secs),
{
    let z = secs / 86_400;
    assert(-719_162 <= z < 2_932_897);
    civil::law_day_of_date(1, 1, 1);
    civil::law_day_of_date(10_000, 1, 1);
    assert(civil::epoch_day(1, 1, 1) == -719_162);
    assert(civil::epoch_day(10_000, 1, 1) == 2_932_897);
    civil::law_date_of_day(z);
    civil::law_dates_follow_days(z, 2_932_897);
    if z > -719_162 {
        civil::law_dates_follow_days(-719_162, z);
    }
}

proof fn lemma_two_digits(n: int)
    requires
        0 <= n < 100,
    ensures
        number::zero_padded(n, 2) =~= seq![
            number::digit_char(n / 10),
            number::digit_char(n % 10),
        ],
{
    reveal_with_fuel(number::digits, 3);
}

proof fn lemma_four_digits(n: int)
    requires
        0 <= n < 10_000,
    ensures
        number::zero_padded(n, 4) =~= seq![
            number::digit_char(n / 1_000),
            number::digit_char(n / 100 % 10),
            number::digit_char(n / 10 % 10),
            number::digit_char(n % 10),
        ],
{
    reveal_with_fuel(number::digits, 5);
}

proof fn lemma_six_digits(n: int)
    requires
        0 <= n < 1_000_000,
    ensures
        number::zero_padded(n, 6) =~= seq![
            number::digit_char(n / 100_000),
            number::digit_char(n / 10_000 % 10),
            number::digit_char(n / 1_000 % 10),
            number::digit_char(n / 100 % 10),
            number::digit_char(n / 10 % 10),
            number::digit_char(n % 10),
        ],
{
    reveal_with_fuel(number::digits, 7);
}

/// The ten characters of a date.
proof fn lemma_date_chars(day: int)
    requires
        0 <= civil::civil(day).0 <= 9_999,
    ensures
        ({
            let (y, m, d) = civil::civil(day);
            date_text(day) =~= seq![
                number::digit_char(y / 1_000),
                number::digit_char(y / 100 % 10),
                number::digit_char(y / 10 % 10),
                number::digit_char(y % 10),
                '-',
                number::digit_char(m / 10),
                number::digit_char(m % 10),
                '-',
                number::digit_char(d / 10),
                number::digit_char(d % 10),
            ]
        }),
{
    reveal(date_text);
    let (y, m, d) = civil::civil(day);
    civil::law_date_of_day(day);
    lemma_four_digits(y);
    lemma_two_digits(m);
    lemma_two_digits(d);
}

/// The eight characters of a time.
proof fn lemma_time_chars(sec: int)
    requires
        0 <= sec < 86_400,
    ensures
        ({
            let h = sec / 3_600;
            let mi = sec % 3_600 / 60;
            let s = sec % 60;
            time_text(sec) =~= seq![
                number::digit_char(h / 10),
                number::digit_char(h % 10),
                ':',
                number::digit_char(mi / 10),
                number::digit_char(mi % 10),
                ':',
                number::digit_char(s / 10),
                number::digit_char(s % 10),
            ]
        }),
{
    reveal(time_text);
    lemma_two_digits(sec / 3_600);
    lemma_two_digits(sec % 3_600 / 60);
    lemma_two_digits(sec % 60);
}

/// The UTF-8 encoding of ASCII text, byte by byte.
proof fn lemma_ascii_bytes(t: Seq<char>)
    requires
        vstd::utf8::is_ascii_chars(t),
    ensures
        text::enc(t).len() == t.len(),
        forall|i: int| 0 <= i < t.len() ==> #[trigger] text::enc(t)[i] == t[i] as u8,
{
    vstd::utf8::is_ascii_chars_encode_utf8(t);
}

proof fn lemma_ascii_parts(a: Seq<char>, b: Seq<char>)
    requires
        vstd::utf8::is_ascii_chars(a),
        vstd::utf8::is_ascii_chars(b),
    ensures
        vstd::utf8::is_ascii_chars(a + b),
{
}

/// What the nineteen bytes of a date and time say.
proof fn lemma_bytes_shape(
    b: Seq<u8>,
    y: int,
    m: int,
    d: int,
    h: int,
    mi: int,
    s: int,
)
    requires
        b.len() >= 19,
        0 <= y < 10_000,
        civil::is_date(y, m, d),
        0 <= h <= 23,
        0 <= mi <= 59,
        0 <= s <= 59,
        b[0] == 48 + y / 1_000,
        b[1] == 48 + y / 100 % 10,
        b[2] == 48 + y / 10 % 10,
        b[3] == 48 + y % 10,
        b[4] == '-' as u8,
        b[5] == 48 + m / 10,
        b[6] == 48 + m % 10,
        b[7] == '-' as u8,
        b[8] == 48 + d / 10,
        b[9] == 48 + d % 10,
        b[10] == 'T' as u8,
        b[11] == 48 + h / 10,
        b[12] == 48 + h % 10,
        b[13] == ':' as u8,
        b[14] == 48 + mi / 10,
        b[15] == 48 + mi % 10,
        b[16] == ':' as u8,
        b[17] == 48 + s / 10,
        b[18] == 48 + s % 10,
    ensures
        parse::has_date_time(b),
        parse::date_time_seconds(b) == civil::epoch_day(y, m, d) * 86_400 + h * 3_600 + mi * 60 + s,
{
    lemma_number4(b, y);
    lemma_number2(b, 5, m);
    lemma_number2(b, 8, d);
    lemma_number2(b, 11, h);
    lemma_number2(b, 14, mi);
    lemma_number2(b, 17, s);
}

/// The bytes of a date and time, with more ASCII text behind it.
proof fn lemma_stamp_bytes(secs: int, rest: Seq<char>)
    requires
        has_four_digit_year(secs),
        vstd::utf8::is_ascii_chars(rest),
    ensures
        ({
            let t = stamp(secs, 'T') + rest;
            let b = text::enc(t);
            &&& b.len() == 19 + rest.len()
            &&& t.len() == b.len()
            &&& forall|i: int| 0 <= i < 10 ==> #[trigger] b[i] == date_text(secs / 86_400)[i] as u8
            &&& b[10] == 'T' as u8
            &&& forall|i: int|
                11 <= i < 19 ==> #[trigger] b[i] == time_text(secs % 86_400)[i - 11] as u8
            &&& forall|i: int| 19 <= i < b.len() ==> #[trigger] b[i] == rest[i - 19] as u8
        }),
{
    let t = stamp(secs, 'T') + rest;
    let date = date_text(secs / 86_400);
    let time = time_text(secs % 86_400);
    lemma_date_chars(secs / 86_400);
    lemma_time_chars(secs % 86_400);
    civil::law_date_of_day(secs / 86_400);
    assert(vstd::utf8::is_ascii_chars(date));
    assert(vstd::utf8::is_ascii_chars(time));
    assert(vstd::utf8::is_ascii_chars(seq!['T']));
    lemma_ascii_parts(date, seq!['T']);
    lemma_ascii_parts(date + seq!['T'], time);
    lemma_ascii_parts(stamp(secs, 'T'), rest);
    lemma_ascii_bytes(t);
}

/// The bytes of a date and time are read as the same second.
proof fn lemma_stamp_shape(secs: int, rest: Seq<char>)
    requires
        has_four_digit_year(secs),
        vstd::utf8::is_ascii_chars(rest),
    ensures
        parse::has_date_time(text::enc(stamp(secs, 'T') + rest)),
        parse::date_time_seconds(text::enc(stamp(secs, 'T') + rest)) == secs,
{
    let b = text::enc(stamp(secs, 'T') + rest);
    let day = secs / 86_400;
    let sec = secs % 86_400;
    lemma_stamp_bytes(secs, rest);
    lemma_date_chars(day);
    lemma_time_chars(sec);
    civil::law_date_of_day(day);
    let (y, m, d) = civil::civil(day);
    lemma_bytes_shape(b, y, m, d, sec / 3_600, sec % 3_600 / 60, sec % 60);
}

proof fn lemma_number2(b: Seq<u8>, i: int, n: int)
    requires
        0 <= i,
        i + 2 <= b.len(),
        0 <= n < 100,
        b[i] == 48 + n / 10,
        b[i + 1] == 48 + n % 10,
    ensures
        parse::number(b, i, i + 2) == Some(n),
{
    reveal_with_fuel(scan::decimal, 3);
    let s = b.subrange(i, i + 2);
    assert(s.drop_last().drop_last() =~= Seq::<u8>::empty());
    assert(s.last() == b[i + 1] && s.drop_last().last() == b[i]);
}

proof fn lemma_number4(b: Seq<u8>, n: int)
    requires
        4 <= b.len(),
        0 <= n < 10_000,
        b[0] == 48 + n / 1_000,
        b[1] == 48 + n / 100 % 10,
        b[2] == 48 + n / 10 % 10,
        b[3] == 48 + n % 10,
    ensures
        parse::number(b, 0, 4) == Some(n),
{
    reveal_with_fuel(scan::decimal, 5);
    let s = b.subrange(0, 4);
    let s3 = s.drop_last();
    let s2 = s3.drop_last();
    let s1 = s2.drop_last();
    assert(s1.drop_last() =~= Seq::<u8>::empty());
    assert(s.last() == b[3] && s3.last() == b[2] && s2.last() == b[1] && s1.last() == b[0]);
}

/// What six fraction digits and a `Z` behind a date and time are read as.
proof fn lemma_fraction_tail(b: Seq<u8>, n: int)
    requires
        b.len() == 27,
        0 <= n < 1_000_000,
        b[19] == '.' as u8,
        b[20] == 48 + n / 100_000,
        b[21] == 48 + n / 10_000 % 10,
        b[22] == 48 + n / 1_000 % 10,
        b[23] == 48 + n / 100 % 10,
        b[24] == 48 + n / 10 % 10,
        b[25] == 48 + n % 10,
        b[26] == 'Z' as u8,
    ensures
        parse::fraction_end(b) == 26,
        parse::offset_seconds(b, 26) == Some(0int),
        parse::fraction_value(b.subrange(20, 26), 6) == n,
{
    assert forall|i: int| 20 <= i < 26 implies ByteClass::Digit.has(#[trigger] b[i]) by {
        assert(i == 20 || i == 21 || i == 22 || i == 23 || i == 24 || i == 25);
    }
    scan::lemma_run_end_at(b, 20, 26, ByteClass::Digit);
    let s = b.subrange(20, 26);
    assert(s[0] == b[20] && s[1] == b[21] && s[2] == b[22] && s[3] == b[23] && s[4] == b[24] && s[5]
        == b[25]);
    reveal_with_fuel(parse::fraction_value, 7);
}

/// A timestamp written out with `Z` after it reads back as the same
/// microsecond, for every year of four digits.
pub proof fn law_written_micros_read_back(micros: int)
    requires
        has_four_digit_year(micros / 1_000_000),
    ensures
        parse::rfc3339(text::enc(micros_text(micros).push('Z'))) == Some(micros),
{
    let secs = micros / 1_000_000;
    let frac = micros % 1_000_000;
    lemma_six_digits(frac);
    let rest = (seq!['.'] + number::zero_padded(frac, 6)).push('Z');
    assert(vstd::utf8::is_ascii_chars(rest));
    lemma_stamp_bytes(secs, rest);
    lemma_stamp_shape(secs, rest);
    assert(micros_text(micros).push('Z') =~= stamp(secs, 'T') + rest);
    let b = text::enc(stamp(secs, 'T') + rest);
    assert(b[19] == rest[0] as u8 && b[20] == rest[1] as u8 && b[21] == rest[2] as u8);
    assert(b[22] == rest[3] as u8 && b[23] == rest[4] as u8 && b[24] == rest[5] as u8);
    assert(b[25] == rest[6] as u8 && b[26] == rest[7] as u8);
    lemma_fraction_tail(b, frac);
}

/// A second written as RFC 3339 reads back as the same second, for every year
/// of four digits.
pub proof fn law_written_seconds_read_back(secs: int)
    requires
        has_four_digit_year(secs),
    ensures
        parse::rfc3339(text::enc(seconds_text(secs))) == Some(secs * 1_000_000),
{
    let rest = seq!['Z'];
    lemma_stamp_bytes(secs, rest);
    lemma_stamp_shape(secs, rest);
    assert(seconds_text(secs) =~= stamp(secs, 'T') + rest);
    let b = text::enc(seconds_text(secs));
    assert(b[19] == 'Z' as u8);
}

/// The bytes of a date and time, digit by digit.
spec fn spells(b: Seq<u8>, y: int, m: int, d: int, h: int, mi: int, s: int) -> bool {
    &&& b.len() >= 19
    &&& b[0] == 48 + y / 1_000
    &&& b[1] == 48 + y / 100 % 10
    &&& b[2] == 48 + y / 10 % 10
    &&& b[3] == 48 + y % 10
    &&& b[4] == '-' as u8
    &&& b[5] == 48 + m / 10
    &&& b[6] == 48 + m % 10
    &&& b[7] == '-' as u8
    &&& b[8] == 48 + d / 10
    &&& b[9] == 48 + d % 10
    &&& b[10] == 'T' as u8
    &&& b[11] == 48 + h / 10
    &&& b[12] == 48 + h % 10
    &&& b[13] == ':' as u8
    &&& b[14] == 48 + mi / 10
    &&& b[15] == 48 + mi % 10
    &&& b[16] == ':' as u8
    &&& b[17] == 48 + s / 10
    &&& b[18] == 48 + s % 10
}

/// The bytes open with the date and time of a second since the epoch.
spec fn spells_second(b: Seq<u8>, secs: int) -> bool {
    let (y, m, d) = civil::civil(secs / 86_400);
    let t = clock_of(secs % 86_400);
    spells(b, y, m, d, t.0, t.1, t.2)
}

/// Hour, minute and second of a second of the day.
spec fn clock_of(sec: int) -> (int, int, int) {
    (sec / 3_600, sec % 3_600 / 60, sec % 60)
}

proof fn lemma_clock_order(u: int, v: int)
    requires
        0 <= u < v < 86_400,
    ensures
        civil::date_before(clock_of(u), clock_of(v)),
{
    let (a, b) = (clock_of(u), clock_of(v));
    assert(u == a.0 * 3_600 + a.1 * 60 + a.2);
    assert(v == b.0 * 3_600 + b.1 * 60 + b.2);
}

proof fn lemma_stamp_spelled(secs: int, rest: Seq<char>)
    requires
        has_four_digit_year(secs),
        vstd::utf8::is_ascii_chars(rest),
    ensures
        spells_second(text::enc(stamp(secs, 'T') + rest), secs),
{
    lemma_stamp_bytes(secs, rest);
    lemma_date_chars(secs / 86_400);
    lemma_time_chars(secs % 86_400);
    civil::law_date_of_day(secs / 86_400);
}

/// Two byte strings whose first difference is in a two-digit number.
proof fn lemma_lex_two(a: Seq<u8>, b: Seq<u8>, k: int, m: int, n: int)
    requires
        0 <= k,
        k + 1 < a.len(),
        k + 1 < b.len(),
        forall|i: int| 0 <= i < k ==> #[trigger] a[i] == b[i],
        0 <= m < n < 100,
        a[k] == 48 + m / 10,
        a[k + 1] == 48 + m % 10,
        b[k] == 48 + n / 10,
        b[k + 1] == 48 + n % 10,
    ensures
        order::lex_less(a, b),
{
    if m / 10 < n / 10 {
        order::lemma_lex_at(a, b, k);
    } else {
        order::lemma_lex_at(a, b, k + 1);
    }
}

/// A year in terms of its digits.
proof fn lemma_year_digits(n: int)
    requires
        0 <= n < 10_000,
    ensures
        n == n / 1_000 * 1_000 + n / 100 % 10 * 100 + n / 10 % 10 * 10 + n % 10,
        0 <= n / 1_000 < 10,
        0 <= n / 100 % 10 < 10,
        0 <= n / 10 % 10 < 10,
        0 <= n % 10 < 10,
{
    let tens = n / 10;
    let hundreds = tens / 10;
    assert(n == 10 * tens + n % 10);
    assert(tens == 10 * hundreds + tens % 10);
    assert(hundreds == 10 * (hundreds / 10) + hundreds % 10);
    assert(hundreds == n / 100);
    assert(hundreds / 10 == n / 1_000);
}

/// Two byte strings whose first difference is in a year.
proof fn lemma_lex_year(a: Seq<u8>, b: Seq<u8>, m: int, n: int)
    requires
        4 <= a.len(),
        4 <= b.len(),
        0 <= m < n < 10_000,
        a[0] == 48 + m / 1_000,
        a[1] == 48 + m / 100 % 10,
        a[2] == 48 + m / 10 % 10,
        a[3] == 48 + m % 10,
        b[0] == 48 + n / 1_000,
        b[1] == 48 + n / 100 % 10,
        b[2] == 48 + n / 10 % 10,
        b[3] == 48 + n % 10,
    ensures
        order::lex_less(a, b),
{
    lemma_year_digits(m);
    lemma_year_digits(n);
    if a[0] < b[0] {
        order::lemma_lex_at(a, b, 0);
    } else if a[1] < b[1] {
        assert(a[0] == b[0]);
        order::lemma_lex_at(a, b, 1);
    } else if a[2] < b[2] {
        assert(a[0] == b[0] && a[1] == b[1]);
        order::lemma_lex_at(a, b, 2);
    } else {
        assert(a[0] == b[0] && a[1] == b[1] && a[2] == b[2] && a[3] < b[3]);
        order::lemma_lex_at(a, b, 3);
    }
}

proof fn lemma_dates_sort(
    a: Seq<u8>,
    b: Seq<u8>,
    x: (int, int, int),
    y: (int, int, int),
    t: (int, int, int),
    u: (int, int, int),
)
    requires
        spells(a, x.0, x.1, x.2, t.0, t.1, t.2),
        spells(b, y.0, y.1, y.2, u.0, u.1, u.2),
        0 <= x.0 < 10_000,
        0 <= y.0 < 10_000,
        civil::is_date(x.0, x.1, x.2),
        civil::is_date(y.0, y.1, y.2),
        civil::date_before(x, y),
    ensures
        order::lex_less(a, b),
{
    if x.0 < y.0 {
        lemma_lex_year(a, b, x.0, y.0);
    } else if x.1 < y.1 {
        assert forall|i: int| 0 <= i < 5 implies #[trigger] a[i] == b[i] by {
            assert(i == 0 || i == 1 || i == 2 || i == 3 || i == 4);
        }
        lemma_lex_two(a, b, 5, x.1, y.1);
    } else {
        assert forall|i: int| 0 <= i < 8 implies #[trigger] a[i] == b[i] by {
            assert(i == 0 || i == 1 || i == 2 || i == 3 || i == 4 || i == 5 || i == 6 || i == 7);
        }
        lemma_lex_two(a, b, 8, x.2, y.2);
    }
}

proof fn lemma_times_sort(
    a: Seq<u8>,
    b: Seq<u8>,
    x: (int, int, int),
    t: (int, int, int),
    u: (int, int, int),
)
    requires
        spells(a, x.0, x.1, x.2, t.0, t.1, t.2),
        spells(b, x.0, x.1, x.2, u.0, u.1, u.2),
        0 <= t.0 < 100,
        0 <= t.1 < 100,
        0 <= t.2 < 100,
        0 <= u.0 < 100,
        0 <= u.1 < 100,
        0 <= u.2 < 100,
        civil::date_before(t, u),
    ensures
        order::lex_less(a, b),
{
    assert forall|i: int| 0 <= i < 11 implies #[trigger] a[i] == b[i] by {
        assert(i == 0 || i == 1 || i == 2 || i == 3 || i == 4 || i == 5 || i == 6 || i == 7 || i
            == 8 || i == 9 || i == 10);
    }
    if t.0 < u.0 {
        lemma_lex_two(a, b, 11, t.0, u.0);
    } else if t.1 < u.1 {
        assert forall|i: int| 0 <= i < 14 implies #[trigger] a[i] == b[i] by {
            if i >= 11 {
                assert(i == 11 || i == 12 || i == 13);
            }
        }
        lemma_lex_two(a, b, 14, t.1, u.1);
    } else {
        assert forall|i: int| 0 <= i < 17 implies #[trigger] a[i] == b[i] by {
            if i >= 11 {
                assert(i == 11 || i == 12 || i == 13 || i == 14 || i == 15 || i == 16);
            }
        }
        lemma_lex_two(a, b, 17, t.2, u.2);
    }
}

/// Texts that open with different seconds sort as the seconds do.
proof fn lemma_stamps_sort(a: Seq<u8>, b: Seq<u8>, s: int, t: int)
    requires
        has_four_digit_year(s),
        has_four_digit_year(t),
        spells_second(a, s),
        spells_second(b, t),
        s < t,
    ensures
        order::lex_less(a, b),
{
    let (d1, d2) = (s / 86_400, t / 86_400);
    let (u, v) = (s % 86_400, t % 86_400);
    civil::law_date_of_day(d1);
    civil::law_date_of_day(d2);
    if d1 < d2 {
        civil::law_dates_follow_days(d1, d2);
        lemma_dates_sort(a, b, civil::civil(d1), civil::civil(d2), clock_of(u), clock_of(v));
    } else {
        assert(d1 == d2 && u < v);
        lemma_clock_order(u, v);
        lemma_times_sort(a, b, civil::civil(d1), clock_of(u), clock_of(v));
    }
}

/// Written seconds sort as text the way they sort in time, for every year of
/// four digits.
pub proof fn law_written_seconds_sort_in_time(s: int, t: int)
    requires
        has_four_digit_year(s),
        has_four_digit_year(t),
        s < t,
    ensures
        order::lex_less(text::enc(seconds_text(s)), text::enc(seconds_text(t))),
{
    let rest = seq!['Z'];
    lemma_stamp_spelled(s, rest);
    lemma_stamp_spelled(t, rest);
    assert(seconds_text(s) =~= stamp(s, 'T') + rest);
    assert(seconds_text(t) =~= stamp(t, 'T') + rest);
    lemma_stamps_sort(text::enc(seconds_text(s)), text::enc(seconds_text(t)), s, t);
}

/// The bytes of a fraction of six digits, from index 19 on.
spec fn spells_fraction(b: Seq<u8>, n: int) -> bool {
    &&& b.len() >= 26
    &&& b[19] == '.' as u8
    &&& b[20] == 48 + n / 100_000
    &&& b[21] == 48 + n / 10_000 % 10
    &&& b[22] == 48 + n / 1_000 % 10
    &&& b[23] == 48 + n / 100 % 10
    &&& b[24] == 48 + n / 10 % 10
    &&& b[25] == 48 + n % 10
}

/// A number of six digits as two of three.
proof fn lemma_halves(n: int)
    requires
        0 <= n < 1_000_000,
    ensures
        ({
            let (h, l) = (n / 1_000, n % 1_000);
            &&& n / 100_000 == h / 100
            &&& n / 10_000 % 10 == h / 10 % 10
            &&& n / 1_000 % 10 == h % 10
            &&& n / 100 % 10 == l / 100
            &&& n / 10 % 10 == l / 10 % 10
            &&& n % 10 == l % 10
        }),
{
    let (h, l) = (n / 1_000, n % 1_000);
    assert(n == 1_000 * h + l);
    assert(n / 100_000 == h / 100);
    assert(n / 10_000 == h / 10);
    assert(n / 100 == 10 * h + l / 100);
    assert(n / 10 == 100 * h + l / 10);
    assert((10 * h + l / 100) % 10 == l / 100);
    assert((100 * h + l / 10) % 10 == l / 10 % 10);
}

/// A number of three digits in terms of them.
proof fn lemma_three_digits(n: int)
    requires
        0 <= n < 1_000,
    ensures
        n == n / 100 * 100 + n / 10 % 10 * 10 + n % 10,
        0 <= n / 100 < 10,
        0 <= n / 10 % 10 < 10,
        0 <= n % 10 < 10,
{
    let tens = n / 10;
    assert(n == 10 * tens + n % 10);
    assert(tens == 10 * (tens / 10) + tens % 10);
    assert(tens / 10 == n / 100);
}

/// Two byte strings whose first difference is in a three-digit number.
proof fn lemma_lex_three(a: Seq<u8>, b: Seq<u8>, k: int, m: int, n: int)
    requires
        0 <= k,
        k + 2 < a.len(),
        k + 2 < b.len(),
        forall|i: int| 0 <= i < k ==> #[trigger] a[i] == b[i],
        0 <= m < n < 1_000,
        a[k] == 48 + m / 100,
        a[k + 1] == 48 + m / 10 % 10,
        a[k + 2] == 48 + m % 10,
        b[k] == 48 + n / 100,
        b[k + 1] == 48 + n / 10 % 10,
        b[k + 2] == 48 + n % 10,
    ensures
        order::lex_less(a, b),
{
    lemma_three_digits(m);
    lemma_three_digits(n);
    if a[k] < b[k] {
        order::lemma_lex_at(a, b, k);
    } else if a[k + 1] < b[k + 1] {
        assert(a[k] == b[k]);
        order::lemma_lex_at(a, b, k + 1);
    } else {
        assert(a[k] == b[k] && a[k + 1] == b[k + 1] && a[k + 2] < b[k + 2]);
        order::lemma_lex_at(a, b, k + 2);
    }
}

proof fn lemma_fractions_sort(a: Seq<u8>, b: Seq<u8>, m: int, n: int)
    requires
        spells_fraction(a, m),
        spells_fraction(b, n),
        forall|i: int| 0 <= i < 19 ==> #[trigger] a[i] == b[i],
        0 <= m < n < 1_000_000,
    ensures
        order::lex_less(a, b),
{
    lemma_halves(m);
    lemma_halves(n);
    assert forall|i: int| 0 <= i < 20 implies #[trigger] a[i] == b[i] by {
        assert(i < 19 || i == 19);
    }
    if m / 1_000 < n / 1_000 {
        lemma_lex_three(a, b, 20, m / 1_000, n / 1_000);
    } else {
        assert(m / 1_000 == n / 1_000);
        assert forall|i: int| 0 <= i < 23 implies #[trigger] a[i] == b[i] by {
            if i >= 20 {
                assert(i == 20 || i == 21 || i == 22);
            }
        }
        lemma_lex_three(a, b, 23, m % 1_000, n % 1_000);
    }
}

proof fn lemma_micros_spelled(micros: int)
    requires
        has_four_digit_year(micros / 1_000_000),
    ensures
        spells_second(text::enc(micros_text(micros)), micros / 1_000_000),
        spells_fraction(text::enc(micros_text(micros)), micros % 1_000_000),
        micros_text(micros).len() == 26,
        text::enc(micros_text(micros)).len() == 26,
{
    let secs = micros / 1_000_000;
    let frac = micros % 1_000_000;
    lemma_six_digits(frac);
    let rest = seq!['.'] + number::zero_padded(frac, 6);
    assert(vstd::utf8::is_ascii_chars(rest));
    lemma_stamp_spelled(secs, rest);
    lemma_stamp_bytes(secs, rest);
    assert(micros_text(micros) =~= stamp(secs, 'T') + rest);
    let b = text::enc(stamp(secs, 'T') + rest);
    assert(b[19] == rest[0] as u8 && b[20] == rest[1] as u8 && b[21] == rest[2] as u8);
    assert(b[22] == rest[3] as u8 && b[23] == rest[4] as u8 && b[24] == rest[5] as u8);
    assert(b[25] == rest[6] as u8);
}

/// Written microseconds have one length, and sort as text the way they sort in
/// time, for every year of four digits.
pub proof fn law_written_micros_sort_in_time(s: int, t: int)
    requires
        has_four_digit_year(s / 1_000_000),
        has_four_digit_year(t / 1_000_000),
        s < t,
    ensures
        micros_text(s).len() == 26,
        micros_text(t).len() == 26,
        order::lex_less(text::enc(micros_text(s)), text::enc(micros_text(t))),
{
    lemma_micros_spelled(s);
    lemma_micros_spelled(t);
    let a = text::enc(micros_text(s));
    let b = text::enc(micros_text(t));
    let (p, q) = (s / 1_000_000, t / 1_000_000);
    if p < q {
        lemma_stamps_sort(a, b, p, q);
    } else {
        assert(p == q && s % 1_000_000 < t % 1_000_000);
        lemma_same_stamp(a, b, p);
        lemma_fractions_sort(a, b, s % 1_000_000, t % 1_000_000);
    }
}

/// A second has one spelling.
proof fn lemma_same_stamp(a: Seq<u8>, b: Seq<u8>, secs: int)
    requires
        spells_second(a, secs),
        spells_second(b, secs),
    ensures
        forall|i: int| 0 <= i < 19 ==> #[trigger] a[i] == b[i],
{
    assert forall|i: int| 0 <= i < 19 implies #[trigger] a[i] == b[i] by {
        assert(i == 0 || i == 1 || i == 2 || i == 3 || i == 4 || i == 5 || i == 6 || i == 7 || i
            == 8 || i == 9 || i == 10 || i == 11 || i == 12 || i == 13 || i == 14 || i == 15 || i
            == 16 || i == 17 || i == 18);
    }
}

} // verus!
