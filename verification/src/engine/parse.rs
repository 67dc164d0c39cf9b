//! Shared parse helpers: timestamps, parser tallies and field names.
//!
//! Used by every producer so that records carry valid `ts_micros` and
//! `severity` when they reach the engine: the merge step has the timestamps it
//! needs without parsing the bytes a second time.

use vstd::prelude::*;

use crate::scan;
use crate::scan::ByteClass;
use crate::civil;
use crate::engine::record::severity;
use crate::engine::record::TS_UNTIMED;
use crate::json;
use crate::json::LookupRef;
use crate::text;

verus! {

/// Field names to extract for ts and level. Defaults match the most common
/// NDJSON conventions.
#[derive(Debug, Clone)]
pub struct FieldNames {
    pub ts: String,
    pub level: String,
}

impl Default for FieldNames {
    fn default() -> (r: Self)
        ensures
            r.ts@ == "ts"@,
            r.level@ == "level"@,
    {
        FieldNames { ts: "ts".to_owned(), level: "level".to_owned() }
    }
}

/// The timestamp key in force: the override, or `ts`.
pub open spec fn ts_key(fields: Option<&FieldNames>) -> Seq<char> {
    match fields {
        Some(f) => f.ts@,
        None => "ts"@,
    }
}

/// The level key in force: the override, or `level`.
pub open spec fn level_key(fields: Option<&FieldNames>) -> Seq<char> {
    match fields {
        Some(f) => f.level@,
        None => "level"@,
    }
}

pub(crate) fn ts_key_of<'a>(fields: Option<&'a FieldNames>) -> (r: &'a str)
    ensures
        r@ == ts_key(fields),
{
    match fields {
        Some(f) => f.ts.as_str(),
        None => "ts",
    }
}

pub(crate) fn level_key_of<'a>(fields: Option<&'a FieldNames>) -> (r: &'a str)
    ensures
        r@ == level_key(fields),
{
    match fields {
        Some(f) => f.level.as_str(),
        None => "level",
    }
}

/// What a parser learned of one line's timestamp.
#[derive(Debug, Clone, Copy, PartialEq, Eq, Structural)]
pub enum TsOutcome {
    /// A timestamp was found and parsed.
    Timed(i64),
    /// The line is of its format but carries no timestamp.
    Missing,
    /// A timestamp is there and does not parse.
    Malformed,
    /// The line is not of its format at all.
    Unparsed,
}

impl TsOutcome {
    /// The value that goes into the time index.
    pub open spec fn micros(self) -> i64 {
        match self {
            TsOutcome::Timed(t) => t,
            _ => TS_UNTIMED,
        }
    }
}

/// A parsed timestamp, or the fact that it did not parse.
pub open spec fn parsed_or_malformed(t: Option<int>) -> TsOutcome {
    match t {
        Some(v) => TsOutcome::Timed(v as i64),
        None => TsOutcome::Malformed,
    }
}

/// Tally of parser outcomes accumulated by a producer.
#[derive(Debug, Clone, Copy, PartialEq, Eq, Structural)]
pub struct ParseStats {
    pub untimed: u64,
    pub ts_parse_errors: u64,
    pub json_parse_errors: u64,
}

impl Default for ParseStats {
    fn default() -> (r: Self)
        ensures
            r.untimed == 0,
            r.ts_parse_errors == 0,
            r.json_parse_errors == 0,
    {
        ParseStats { untimed: 0, ts_parse_errors: 0, json_parse_errors: 0 }
    }
}

impl ParseStats {
    /// One more outcome can be counted.
    pub open spec fn has_room(self) -> bool {
        self.untimed < u64::MAX && self.ts_parse_errors < u64::MAX && self.json_parse_errors
            < u64::MAX
    }

    /// The tally after one more outcome.
    pub open spec fn counting(self, o: TsOutcome) -> ParseStats {
        ParseStats {
            untimed: (self.untimed + if o is Timed {
                0int
            } else {
                1
            }) as u64,
            ts_parse_errors: (self.ts_parse_errors + if o is Malformed {
                1int
            } else {
                0
            }) as u64,
            json_parse_errors: (self.json_parse_errors + if o is Unparsed {
                1int
            } else {
                0
            }) as u64,
        }
    }

    /// Count one outcome and give the value for the time index.
    pub fn count(&mut self, o: TsOutcome) -> (r: i64)
        requires
            old(self).has_room(),
        ensures
            *final(self) == old(self).counting(o),
            r == o.micros(),
    {
        match o {
            TsOutcome::Timed(t) => t,
            TsOutcome::Missing => {
                self.untimed = self.untimed + 1;
                TS_UNTIMED
            },
            TsOutcome::Malformed => {
                self.ts_parse_errors = self.ts_parse_errors + 1;
                self.untimed = self.untimed + 1;
                TS_UNTIMED
            },
            TsOutcome::Unparsed => {
                self.json_parse_errors = self.json_parse_errors + 1;
                self.untimed = self.untimed + 1;
                TS_UNTIMED
            },
        }
    }

    /// Add another tally to this one.
    pub fn fold(&mut self, other: ParseStats)
        requires
            old(self).untimed + other.untimed <= u64::MAX,
            old(self).ts_parse_errors + other.ts_parse_errors <= u64::MAX,
            old(self).json_parse_errors + other.json_parse_errors <= u64::MAX,
        ensures
            final(self).untimed == old(self).untimed + other.untimed,
            final(self).ts_parse_errors == old(self).ts_parse_errors + other.ts_parse_errors,
            final(self).json_parse_errors == old(self).json_parse_errors + other.json_parse_errors,
    {
        self.untimed = self.untimed + other.untimed;
        self.ts_parse_errors = self.ts_parse_errors + other.ts_parse_errors;
        self.json_parse_errors = self.json_parse_errors + other.json_parse_errors;
    }
}

/// What a walk over a line's key/value pairs has found so far.
#[derive(Debug, Clone, Copy, PartialEq, Eq, Structural)]
pub struct Found {
    /// At least one pair was seen.
    pub any: bool,
    /// The last timestamp that parsed.
    pub ts: Option<i64>,
    /// A timestamp that did not parse was seen.
    pub bad_ts: bool,
    /// Rank of the last level seen.
    pub level: u8,
}

/// A severity that is a rank, and a time that is no mark of an untimed record.
pub open spec fn is_sound(reading: (TsOutcome, u8)) -> bool {
    reading.0 != TsOutcome::Timed(TS_UNTIMED) && reading.1 <= severity::FATAL
}

/// Before the first pair.
pub open spec fn nothing_found() -> Found {
    Found { any: false, ts: None, bad_ts: false, level: severity::UNKNOWN }
}

impl Found {
    pub open spec fn with_pair(self) -> Found {
        Found { any: true, ts: self.ts, bad_ts: self.bad_ts, level: self.level }
    }

    pub open spec fn with_ts(self, t: Option<int>) -> Found {
        match t {
            Some(v) => Found {
                any: self.any,
                ts: Some(v as i64),
                bad_ts: self.bad_ts,
                level: self.level,
            },
            None => Found { any: self.any, ts: self.ts, bad_ts: true, level: self.level },
        }
    }

    pub open spec fn with_level(self, level: u8) -> Found {
        Found { any: self.any, ts: self.ts, bad_ts: self.bad_ts, level }
    }

    /// The level is a rank, and the timestamp no mark of an untimed record.
    pub open spec fn is_sound(self) -> bool {
        self.ts != Some(TS_UNTIMED) && self.level <= severity::FATAL
    }

    /// What the whole line comes to.
    pub open spec fn reading(self) -> (TsOutcome, u8) {
        if !self.any {
            (TsOutcome::Unparsed, severity::UNKNOWN)
        } else {
            (
                match self.ts {
                    Some(v) => TsOutcome::Timed(v),
                    None => if self.bad_ts {
                        TsOutcome::Malformed
                    } else {
                        TsOutcome::Missing
                    },
                },
                self.level,
            )
        }
    }

    pub(crate) fn none() -> (r: Found)
        ensures
            r == nothing_found(),
    {
        Found { any: false, ts: None, bad_ts: false, level: severity::UNKNOWN }
    }

    pub(crate) fn see_pair(self) -> (r: Found)
        ensures
            r == self.with_pair(),
    {
        Found { any: true, ts: self.ts, bad_ts: self.bad_ts, level: self.level }
    }

    pub(crate) fn see_ts(self, t: Option<i64>) -> (r: Found)
        ensures
            t matches Some(v) ==> r == self.with_ts(Some(v as int)),
            t is None ==> r == self.with_ts(None),
    {
        match t {
            Some(v) => Found {
                any: self.any,
                ts: Some(v),
                bad_ts: self.bad_ts,
                level: self.level,
            },
            None => Found { any: self.any, ts: self.ts, bad_ts: true, level: self.level },
        }
    }

    pub(crate) fn see_level(self, level: u8) -> (r: Found)
        ensures
            r == self.with_level(level),
    {
        Found { any: self.any, ts: self.ts, bad_ts: self.bad_ts, level }
    }

    pub(crate) fn outcome(self) -> (r: (TsOutcome, u8))
        ensures
            r == self.reading(),
    {
        if !self.any {
            (TsOutcome::Unparsed, severity::UNKNOWN)
        } else {
            match self.ts {
                Some(v) => (TsOutcome::Timed(v), self.level),
                None => {
                    if self.bad_ts {
                        (TsOutcome::Malformed, self.level)
                    } else {
                        (TsOutcome::Missing, self.level)
                    }
                },
            }
        }
    }
}

/// The number written in `b[i..j]`, when those bytes are all digits.
pub open spec fn number(b: Seq<u8>, i: int, j: int) -> Option<int> {
    if scan::all_digits(b.subrange(i, j)) {
        Some(scan::decimal(b.subrange(i, j)) as int)
    } else {
        None
    }
}

/// The value of the first `k` digits of a fraction, missing ones read as zero.
pub open spec fn fraction_value(digits: Seq<u8>, k: nat) -> int
    decreases k,
{
    if k == 0 {
        0
    } else {
        fraction_value(digits, (k - 1) as nat) * 10 + if k - 1 < digits.len() {
            digits[k - 1] - '0' as u8
        } else {
            0
        }
    }
}

/// The UTC offset in seconds written at `i`, when it ends the text: `Z`, or a
/// sign with `HH:MM`, of at most 23 hours and 59 minutes.
pub open spec fn offset_seconds(b: Seq<u8>, i: int) -> Option<int> {
    if i + 1 == b.len() && b[i] == 'Z' as u8 {
        Some(0)
    } else if i + 6 == b.len() && (b[i] == '+' as u8 || b[i] == '-' as u8) && b[i + 3] == ':' as u8
        && number(b, i + 1, i + 3) is Some && number(b, i + 4, i + 6) is Some && number(
        b,
        i + 1,
        i + 3,
    )->0 <= 23 && number(b, i + 4, i + 6)->0 <= 59 {
        let secs = number(b, i + 1, i + 3)->0 * 3_600 + number(b, i + 4, i + 6)->0 * 60;
        Some(if b[i] == '+' as u8 {
            secs
        } else {
            -secs
        })
    } else {
        None
    }
}

/// `YYYY-MM-DDTHH:MM:SS`, with a space allowed for the `T`, opens the text.
pub open spec fn date_time_shape(b: Seq<u8>) -> bool {
    &&& b.len() >= 19
    &&& number(b, 0, 4) is Some
    &&& b[4] == '-' as u8
    &&& number(b, 5, 7) is Some
    &&& b[7] == '-' as u8
    &&& number(b, 8, 10) is Some
    &&& (b[10] == 'T' as u8 || b[10] == ' ' as u8)
    &&& number(b, 11, 13) is Some
    &&& b[13] == ':' as u8
    &&& number(b, 14, 16) is Some
    &&& b[16] == ':' as u8
    &&& number(b, 17, 19) is Some
}

/// The text opens with a date that the calendar has and a time that the clock
/// has; second 60 is a leap second.
pub open spec fn has_date_time(b: Seq<u8>) -> bool {
    &&& date_time_shape(b)
    &&& civil::is_date(number(b, 0, 4)->0, number(b, 5, 7)->0, number(b, 8, 10)->0)
    &&& number(b, 11, 13)->0 <= 23
    &&& number(b, 14, 16)->0 <= 59
    &&& number(b, 17, 19)->0 <= 60
}

/// Seconds since the epoch of an opening `YYYY-MM-DDTHH:MM:SS`, as if in UTC.
pub open spec fn date_time_seconds(b: Seq<u8>) -> int {
    civil::epoch_day(number(b, 0, 4)->0, number(b, 5, 7)->0, number(b, 8, 10)->0) * 86_400 + number(
        b,
        11,
        13,
    )->0 * 3_600 + number(b, 14, 16)->0 * 60 + number(b, 17, 19)->0
}

/// Where the optional fraction of an RFC 3339 text ends.
pub open spec fn fraction_end(b: Seq<u8>) -> int {
    if b.len() > 19 && b[19] == '.' as u8 {
        scan::run_end(b, 20, ByteClass::Digit)
    } else {
        19
    }
}

/// Microseconds since the epoch written as RFC 3339, or nothing when the text
/// is not of that form or a part of it is out of its range. Digits past the
/// microsecond are dropped.
pub open spec fn rfc3339(b: Seq<u8>) -> Option<int> {
    if b.len() < 20 || !has_date_time(b) || fraction_end(b) == 20 {
        None
    } else {
        let end = fraction_end(b);
        match offset_seconds(b, end) {
            None => None,
            Some(off) => Some(
                (date_time_seconds(b) - off) * 1_000_000 + if end > 19 {
                    fraction_value(b.subrange(20, end), 6)
                } else {
                    0
                },
            ),
        }
    }
}

/// A short digit string is below the matching power of ten.
proof fn lemma_short_number(s: Seq<u8>)
    requires
        scan::all_digits(s),
        s.len() <= 4,
    ensures
        scan::decimal(s) <= 9999,
        s.len() <= 2 ==> scan::decimal(s) <= 99,
{
    reveal_with_fuel(scan::decimal, 5);
    assert(forall|i: int| 0 <= i < s.len() ==> ByteClass::Digit.has(#[trigger] s[i]));
    if s.len() >= 1 {
        assert(ByteClass::Digit.has(s[s.len() - 1]));
    }
    if s.len() >= 2 {
        assert(ByteClass::Digit.has(s[s.len() - 2]));
    }
    if s.len() >= 3 {
        assert(ByteClass::Digit.has(s[s.len() - 3]));
    }
    if s.len() >= 4 {
        assert(ByteClass::Digit.has(s[s.len() - 4]));
    }
}

/// A fraction is below one second.
proof fn lemma_fraction_range(digits: Seq<u8>)
    requires
        scan::all_digits(digits),
    ensures
        0 <= fraction_value(digits, 6) <= 999_999,
{
    reveal_with_fuel(fraction_value, 7);
    assert forall|k: int| 0 <= k < digits.len() implies 0 <= #[trigger] digits[k] - '0' as u8
        <= 9 by {
        assert(ByteClass::Digit.has(digits[k]));
    }
}

/// What RFC 3339 can write in years of four digits.
pub proof fn lemma_rfc3339_range(b: Seq<u8>)
    ensures
        rfc3339(b) matches Some(v) ==> i64::MIN < v < i64::MAX,
{
    if rfc3339(b) is Some {
        lemma_short_number(b.subrange(0, 4));
        lemma_short_number(b.subrange(5, 7));
        lemma_short_number(b.subrange(8, 10));
        lemma_short_number(b.subrange(11, 13));
        lemma_short_number(b.subrange(14, 16));
        lemma_short_number(b.subrange(17, 19));
        civil::lemma_epoch_day_range(
            number(b, 0, 4)->0,
            number(b, 5, 7)->0,
            number(b, 8, 10)->0,
        );
        let end = fraction_end(b);
        if end > 19 {
            scan::lemma_run_end(b, 20, ByteClass::Digit);
            let f = b.subrange(20, end);
            assert forall|k: int| 0 <= k < f.len() implies ByteClass::Digit.has(#[trigger] f[k]) by {
                assert(f[k] == b[20 + k]);
            }
            lemma_fraction_range(f);
        }
    }
}

fn number_at(b: &[u8], i: usize, j: usize) -> (r: Option<i64>)
    requires
        i <= j <= b@.len(),
        j - i <= 4,
    ensures
        r is Some <==> number(b@, i as int, j as int) is Some,
        r matches Some(v) ==> v == number(b@, i as int, j as int)->0 && 0 <= v <= 9999 && (j - i
            <= 2 ==> v <= 99),
{
    proof {
        if scan::all_digits(b@.subrange(i as int, j as int)) {
            lemma_short_number(b@.subrange(i as int, j as int));
        }
    }
    match scan::parse_decimal(&b[i..j], 9999) {
        Some(v) => Some(v as i64),
        None => None,
    }
}

fn fraction_micros(b: &[u8], from: usize, to: usize) -> (r: i64)
    requires
        from <= to <= b@.len(),
        scan::all_digits(b@.subrange(from as int, to as int)),
    ensures
        r == fraction_value(b@.subrange(from as int, to as int), 6),
        0 <= r <= 999_999,
{
    let ghost digits = b@.subrange(from as int, to as int);
    let mut acc: i64 = 0;
    let mut scale: i64 = 1;
    let mut k: usize = 0;
    while k < 6
        invariant
            k <= 6,
            from <= to <= b@.len(),
            digits == b@.subrange(from as int, to as int),
            scan::all_digits(digits),
            acc == fraction_value(digits, k as nat),
            0 <= acc < scale,
            k == 0 ==> scale == 1,
            k == 1 ==> scale == 10,
            k == 2 ==> scale == 100,
            k == 3 ==> scale == 1_000,
            k == 4 ==> scale == 10_000,
            k == 5 ==> scale == 100_000,
            k == 6 ==> scale == 1_000_000,
        decreases 6 - k,
    {
        if k < to - from {
            assert(ByteClass::Digit.has(digits[k as int]));
            acc = acc * 10 + (b[from + k] - '0' as u8) as i64;
        } else {
            acc = acc * 10;
        }
        scale = scale * 10;
        k = k + 1;
    }
    acc
}

/// RFC 3339 parser for `YYYY-MM-DDTHH:MM:SS(.ffffff)?(Z|±HH:MM)`.
/// Returns microseconds since the epoch; nothing for a text of another form or
/// with a part out of its range.
pub fn parse_rfc3339_micros(s: &str) -> (r: Option<i64>)
    ensures
        r is Some <==> rfc3339(text::enc(s@)) is Some,
        r matches Some(v) ==> v == rfc3339(text::enc(s@))->0,
{
    rfc3339_micros(s.as_bytes())
}

/// [`parse_rfc3339_micros`] on bytes.
pub fn rfc3339_micros(b: &[u8]) -> (r: Option<i64>)
    ensures
        r is Some <==> rfc3339(b@) is Some,
        r matches Some(v) ==> v == rfc3339(b@)->0,
{
    if b.len() < 20 {
        return None;
    }
    let year: i64 = match number_at(b, 0, 4) {
        Some(v) => v,
        None => {
            return None;
        },
    };
    let month: i64 = match number_at(b, 5, 7) {
        Some(v) => v,
        None => {
            return None;
        },
    };
    let day: i64 = match number_at(b, 8, 10) {
        Some(v) => v,
        None => {
            return None;
        },
    };
    let hour: i64 = match number_at(b, 11, 13) {
        Some(v) => v,
        None => {
            return None;
        },
    };
    let minute: i64 = match number_at(b, 14, 16) {
        Some(v) => v,
        None => {
            return None;
        },
    };
    let second: i64 = match number_at(b, 17, 19) {
        Some(v) => v,
        None => {
            return None;
        },
    };
    if b[4] != '-' as u8 || b[7] != '-' as u8 || b[13] != ':' as u8 || b[16] != ':' as u8 || (b[10]
        != 'T' as u8 && b[10] != ' ' as u8) {
        return None;
    }
    if !civil::has_date(year, month, day) || hour > 23 || minute > 59 || second > 60 {
        return None;
    }
    let mut cursor: usize = 19;
    let mut micros: i64 = 0;
    if b[19] == '.' as u8 {
        cursor = scan::skip(b, 20, ByteClass::Digit);
        proof {
            scan::lemma_run_end(b@, 20, ByteClass::Digit);
        }
        if cursor == 20 {
            return None;
        }
        micros = fraction_micros(b, 20, cursor);
    }
    if cursor >= b.len() {
        return None;
    }
    let offset: i64 = if b[cursor] == 'Z' as u8 {
        if cursor + 1 != b.len() {
            return None;
        }
        0
    } else if b[cursor] == '+' as u8 || b[cursor] == '-' as u8 {
        if b.len() - cursor != 6 || b[cursor + 3] != ':' as u8 {
            return None;
        }
        let oh: i64 = match number_at(b, cursor + 1, cursor + 3) {
            Some(v) => v,
            None => {
                return None;
            },
        };
        let om: i64 = match number_at(b, cursor + 4, cursor + 6) {
            Some(v) => v,
            None => {
                return None;
            },
        };
        if oh > 23 || om > 59 {
            return None;
        }
        if b[cursor] == '+' as u8 {
            oh * 3_600 + om * 60
        } else {
            -(oh * 3_600 + om * 60)
        }
    } else {
        return None;
    };
    let days: i64 = civil::days_from_civil(year, month, day);
    let secs: i64 = days * 86_400 + hour * 3_600 + minute * 60 + second - offset;
    Some(secs * 1_000_000 + micros)
}

/// A `YYYY-MM-DD HH:MM:SS[.,]mmm` text rewritten as RFC 3339 in UTC.
pub open spec fn dashed_as_rfc3339(p: Seq<u8>) -> Seq<u8> {
    Seq::new(
        p.len(),
        |i: int|
            if i == 10 {
                'T' as u8
            } else if p[i] == ',' as u8 {
                '.' as u8
            } else {
                p[i]
            },
    ).push('Z' as u8)
}

/// Microseconds of a `YYYY-MM-DD HH:MM:SS[.,]mmm` text of fewer than 32 bytes.
pub open spec fn dashed_timestamp(p: Seq<u8>) -> Option<int> {
    if p.len() < 19 || p.len() >= 32 || p[10] != ' ' as u8 {
        None
    } else {
        rfc3339(dashed_as_rfc3339(p))
    }
}

/// Normalize a space-separated timestamp with a dot or comma before its
/// fraction, then parse it.
pub(crate) fn parse_dashed_timestamp(p: &[u8]) -> (r: Option<i64>)
    ensures
        r is Some <==> dashed_timestamp(p@) is Some,
        r matches Some(v) ==> v == dashed_timestamp(p@)->0,
{
    if p.len() < 19 || p.len() >= 32 || p[10] != ' ' as u8 {
        return None;
    }
    let mut buf: Vec<u8> = Vec::new();
    let mut i: usize = 0;
    while i < p.len()
        invariant
            i <= p@.len(),
            buf@.len() == i,
            forall|k: int| 0 <= k < i ==> buf@[k] == #[trigger] dashed_as_rfc3339(p@)[k],
        decreases p@.len() - i,
    {
        if i == 10 {
            buf.push('T' as u8);
        } else if p[i] == ',' as u8 {
            buf.push('.' as u8);
        } else {
            buf.push(p[i]);
        }
        i = i + 1;
    }
    buf.push('Z' as u8);
    assert(buf@ =~= dashed_as_rfc3339(p@));
    rfc3339_micros(&buf)
}

/// A parsed timestamp, or the fact that it did not parse.
pub(crate) fn timed_or_malformed(t: Option<i64>) -> (r: TsOutcome)
    ensures
        r == (match t {
            Some(v) => TsOutcome::Timed(v),
            None => TsOutcome::Malformed,
        }),
{
    match t {
        Some(v) => TsOutcome::Timed(v),
        None => TsOutcome::Malformed,
    }
}

/// What completes a date prefix of that length to an RFC 3339 text.
pub open spec fn padding(len: nat) -> Seq<u8> {
    if len == 4 {
        text::enc("-01-01T00:00:00Z"@)
    } else if len == 7 {
        text::enc("-01T00:00:00Z"@)
    } else if len == 10 {
        text::enc("T00:00:00Z"@)
    } else if len == 13 {
        text::enc(":00:00Z"@)
    } else if len == 16 {
        text::enc(":00Z"@)
    } else if len == 19 {
        text::enc("Z"@)
    } else {
        Seq::empty()
    }
}

/// Microseconds of a text that is RFC 3339, or a prefix of it down to the year.
pub open spec fn padded_timestamp(b: Seq<u8>) -> Option<int> {
    rfc3339(b + padding(b.len()))
}

/// Pad a date prefix to a full timestamp and parse it.
pub(crate) fn parse_padded(b: &[u8]) -> (r: Option<i64>)
    ensures
        r is Some <==> padded_timestamp(b@) is Some,
        r matches Some(v) ==> v == padded_timestamp(b@)->0,
{
    let mut buf: Vec<u8> = scan::copied(b);
    match b.len() {
        4 => scan::append(&mut buf, "-01-01T00:00:00Z".as_bytes()),
        7 => scan::append(&mut buf, "-01T00:00:00Z".as_bytes()),
        10 => scan::append(&mut buf, "T00:00:00Z".as_bytes()),
        13 => scan::append(&mut buf, ":00:00Z".as_bytes()),
        16 => scan::append(&mut buf, ":00Z".as_bytes()),
        19 => scan::append(&mut buf, "Z".as_bytes()),
        _ => {},
    }
    assert(buf@ =~= b@ + padding(b@.len()));
    rfc3339_micros(&buf)
}

/// Microseconds of a partial RFC 3339 text, white space around it ignored.
pub open spec fn partial_rfc3339(s: Seq<char>) -> Option<int> {
    padded_timestamp(text::enc(text::trimmed(s)))
}

/// Accept any RFC 3339 prefix and pad it to a full timestamp before parsing.
pub fn parse_partial_rfc3339(s: &str) -> (r: Option<i64>)
    ensures
        r is Some <==> partial_rfc3339(s@) is Some,
        r matches Some(v) ==> v == partial_rfc3339(s@)->0,
{
    parse_padded(s.trim().as_bytes())
}

/// What a member holds where a string is expected: nothing, the text between
/// its quotes, or something else. A string that is written with escapes, or is
/// no UTF-8, counts as something else.
pub enum StringMember {
    Absent,
    Text(Seq<u8>),
    Other,
}

pub open spec fn string_member(raw: Option<Seq<u8>>) -> StringMember {
    match raw {
        None => StringMember::Absent,
        Some(b) => if b == text::enc("null"@) {
            StringMember::Absent
        } else if json::is_quoted(b) && scan::run_end(b, 0, ByteClass::Except('\\' as u8))
            == b.len() && vstd::utf8::valid_utf8(json::unquoted(b)) {
            StringMember::Text(json::unquoted(b))
        } else {
            StringMember::Other
        },
    }
}

/// What the member called `name` holds. A repeated member counts as something
/// else.
pub open spec fn named_member(m: json::RawMembers, name: Seq<char>) -> StringMember {
    match json::lookup(m, name) {
        json::Lookup::Missing => StringMember::Absent,
        json::Lookup::Once(b) => string_member(Some(b)),
        json::Lookup::Repeated => StringMember::Other,
    }
}

/// What stands at a place of an array.
pub open spec fn placed_member(v: Seq<Seq<u8>>, i: int) -> StringMember {
    string_member(
        if i < v.len() {
            Some(v[i])
        } else {
            None
        },
    )
}

/// The timestamp and the level of a record, given the members of its object,
/// or the values of its array, where they take the first two places. Nothing
/// when it is neither, or one of them is something else.
pub open spec fn record_slots(
    members: Option<json::RawMembers>,
    values: Option<Seq<Seq<u8>>>,
) -> Option<(StringMember, StringMember)> {
    let slots = match (members, values) {
        (Some(m), _) => (named_member(m, "ts"@), named_member(m, "level"@)),
        (None, Some(v)) => if v.len() <= 2 {
            (placed_member(v, 0), placed_member(v, 1))
        } else {
            (StringMember::Other, StringMember::Other)
        },
        (None, None) => (StringMember::Other, StringMember::Other),
    };
    if slots.0 is Other || slots.1 is Other {
        None
    } else {
        Some(slots)
    }
}

/// The outcome and severity of a record with the default field names, given
/// its timestamp and level.
pub open spec fn default_reading(slots: Option<(StringMember, StringMember)>) -> (TsOutcome, u8) {
    match slots {
        None => (TsOutcome::Unparsed, severity::UNKNOWN),
        Some((ts, level)) => (
            match ts {
                StringMember::Text(b) => parsed_or_malformed(rfc3339(b)),
                _ => TsOutcome::Missing,
            },
            match level {
                StringMember::Text(b) => severity::rank_of(b),
                _ => severity::UNKNOWN,
            },
        ),
    }
}

/// The outcome and severity of a record under overridden field names, given
/// its members. A value that is no string counts as absent.
pub open spec fn named_reading(
    members: Option<json::Members>,
    ts: Seq<char>,
    level: Seq<char>,
) -> (TsOutcome, u8) {
    match members {
        None => (TsOutcome::Unparsed, severity::UNKNOWN),
        Some(m) => (
            match json::member(m, ts) {
                Some(raw) => if json::is_quoted(text::enc(raw)) {
                    parsed_or_malformed(rfc3339(json::unquoted(text::enc(raw))))
                } else {
                    TsOutcome::Missing
                },
                None => TsOutcome::Missing,
            },
            match json::member(m, level) {
                Some(raw) => if json::is_quoted(text::enc(raw)) {
                    severity::rank_of(json::unquoted(text::enc(raw)))
                } else {
                    severity::UNKNOWN
                },
                None => severity::UNKNOWN,
            },
        ),
    }
}

/// The timestamp or the level of a record, in place.
#[derive(Clone, Copy)]
pub enum Slot<'a> {
    Absent,
    Text(&'a [u8]),
    Other,
}

impl<'a> Slot<'a> {
    pub open spec fn member(self) -> StringMember {
        match self {
            Slot::Absent => StringMember::Absent,
            Slot::Text(b) => StringMember::Text(b@),
            Slot::Other => StringMember::Other,
        }
    }
}

/// The contents of a record's slots.
pub open spec fn slot_members(s: Option<(Slot, Slot)>) -> Option<(StringMember, StringMember)> {
    match s {
        Some((ts, level)) => Some((ts.member(), level.member())),
        None => None,
    }
}

fn read_string_member<'a>(b: &'a [u8]) -> (r: Slot<'a>)
    ensures
        r.member() == string_member(Some(b@)),
{
    if scan::bytes_eq(b, "null".as_bytes()) {
        Slot::Absent
    } else if json::test_quoted(b) && scan::skip(b, 0, ByteClass::Except('\\' as u8)) == b.len()
        && text::from_utf8(json::unquote(b)).is_some() {
        Slot::Text(json::unquote(b))
    } else {
        Slot::Other
    }
}

fn read_named_member<'a>(m: &Vec<(String, &'a [u8])>, name: &str) -> (r: Slot<'a>)
    ensures
        r.member() == named_member(json::raw_members_view(m@), name@),
{
    match json::find_once(m, name) {
        LookupRef::Missing => Slot::Absent,
        LookupRef::Once(b) => read_string_member(b),
        LookupRef::Repeated => Slot::Other,
    }
}

fn read_placed_member<'a>(v: &Vec<&'a [u8]>, i: usize) -> (r: Slot<'a>)
    ensures
        r.member() == placed_member(json::raw_values_view(v@), i as int),
{
    if i < v.len() {
        read_string_member(v[i])
    } else {
        Slot::Absent
    }
}

/// Take the timestamp and the level out of the members of an object or the
/// values of an array.
pub fn pick_slots<'a>(
    members: &Option<Vec<(String, &'a [u8])>>,
    values: &Option<Vec<&'a [u8]>>,
) -> (r: Option<(Slot<'a>, Slot<'a>)>)
    ensures
        slot_members(r) == record_slots(
            json::opt_raw_members(*members),
            json::opt_raw_values(*values),
        ),
{
    let (ts, level): (Slot<'a>, Slot<'a>) = match members {
        Some(m) => (read_named_member(m, "ts"), read_named_member(m, "level")),
        None => match values {
            Some(v) => {
                if v.len() > 2 {
                    return None;
                }
                (read_placed_member(v, 0), read_placed_member(v, 1))
            },
            None => {
                return None;
            },
        },
    };
    match ts {
        Slot::Other => None,
        _ => match level {
            Slot::Other => None,
            _ => Some((ts, level)),
        },
    }
}

/// The timestamp and the level of a line.
pub open spec fn line_slots(line: Seq<u8>) -> Option<(StringMember, StringMember)> {
    record_slots(json::raw_members(line), json::raw_values(line))
}

/// Find the timestamp and the level of a line.
pub fn find_slots<'a>(line: &'a [u8]) -> (r: Option<(Slot<'a>, Slot<'a>)>)
    ensures
        slot_members(r) == line_slots(line@),
{
    let members: Option<Vec<(String, &'a [u8])>> = json::find_members(line);
    let values: Option<Vec<&'a [u8]>> = match members {
        Some(_) => None,
        None => json::find_values(line),
    };
    pick_slots(&members, &values)
}

/// Members as an optional list of plain texts.
pub open spec fn opt_members(m: Option<Vec<(&str, &str)>>) -> Option<json::Members> {
    match m {
        Some(v) => Some(json::members_view(v@)),
        None => None,
    }
}

/// Read a record with the default field names from its timestamp and level.
pub fn read_default(slots: Option<(Slot<'_>, Slot<'_>)>) -> (r: (TsOutcome, u8))
    ensures
        r == default_reading(slot_members(slots)),
{
    match slots {
        None => (TsOutcome::Unparsed, severity::UNKNOWN),
        Some((ts, level)) => (
            match ts {
                Slot::Text(b) => timed_or_malformed(rfc3339_micros(b)),
                _ => TsOutcome::Missing,
            },
            match level {
                Slot::Text(b) => severity::from_bytes(b),
                _ => severity::UNKNOWN,
            },
        ),
    }
}

/// Read a record under overridden field names from its members.
pub fn read_named(members: &Option<Vec<(&str, &str)>>, fields: &FieldNames) -> (r: (TsOutcome, u8))
    ensures
        r == named_reading(opt_members(*members), fields.ts@, fields.level@),
{
    match members {
        None => (TsOutcome::Unparsed, severity::UNKNOWN),
        Some(m) => {
            let sev: u8 = match json::find_member(m, fields.level.as_str()) {
                Some(raw) => {
                    if json::test_quoted(raw.as_bytes()) {
                        severity::from_bytes(json::unquote(raw.as_bytes()))
                    } else {
                        severity::UNKNOWN
                    }
                },
                None => severity::UNKNOWN,
            };
            match json::find_member(m, fields.ts.as_str()) {
                Some(raw) => {
                    if json::test_quoted(raw.as_bytes()) {
                        (timed_or_malformed(rfc3339_micros(json::unquote(raw.as_bytes()))), sev)
                    } else {
                        (TsOutcome::Missing, sev)
                    }
                },
                None => (TsOutcome::Missing, sev),
            }
        },
    }
}

/// The outcome and severity of an NDJSON line.
pub open spec fn ndjson_reading(line: Seq<u8>, fields: Option<&FieldNames>) -> (TsOutcome, u8) {
    match fields {
        None => default_reading(line_slots(line)),
        Some(f) => named_reading(json::object_members(line), f.ts@, f.level@),
    }
}

/// Extract `(ts_micros, severity)` from a raw NDJSON line by the default field
/// names. Updates `stats` with the outcome. Bytes that are not UTF-8 do not
/// keep the other fields of a line from being read.
pub fn ts_and_level(bytes: &[u8], stats: &mut ParseStats) -> (r: (i64, u8))
    requires
        old(stats).has_room(),
    ensures
        r.0 == ndjson_reading(bytes@, None).0.micros(),
        r.1 == ndjson_reading(bytes@, None).1,
        *final(stats) == old(stats).counting(ndjson_reading(bytes@, None).0),
{
    let (outcome, sev) = read_default(find_slots(bytes));
    (stats.count(outcome), sev)
}

/// Extract `(ts_micros, severity)` from a raw NDJSON line, looking up custom
/// field names.
pub fn ts_and_level_named(bytes: &[u8], fields: &FieldNames, stats: &mut ParseStats) -> (r: (
    i64,
    u8,
))
    requires
        old(stats).has_room(),
    ensures
        r.0 == ndjson_reading(bytes@, Some(fields)).0.micros(),
        r.1 == ndjson_reading(bytes@, Some(fields)).1,
        *final(stats) == old(stats).counting(ndjson_reading(bytes@, Some(fields)).0),
{
    let (outcome, sev) = read_named(&json::parse_object(bytes), fields);
    (stats.count(outcome), sev)
}

/// A text with a UTC offset is the time that its date and time would be in
/// UTC, less the offset: the same instant has one value however it is written.
pub proof fn law_offset_is_subtracted(d: Seq<u8>, sign: u8, hh: Seq<u8>, mm: Seq<u8>)
    requires
        d.len() == 19,
        has_date_time(d),
        sign == '+' as u8 || sign == '-' as u8,
        hh.len() == 2,
        mm.len() == 2,
        scan::all_digits(hh),
        scan::all_digits(mm),
        scan::decimal(hh) <= 23,
        scan::decimal(mm) <= 59,
    ensures
        ({
            let zulu = rfc3339(d.push('Z' as u8));
            let secs = scan::decimal(hh) * 3_600 + scan::decimal(mm) * 60;
            let local = rfc3339(d.push(sign) + hh + seq![':' as u8] + mm);
            &&& zulu is Some
            &&& local == Some(
                zulu->0 - (if sign == '+' as u8 {
                    secs as int
                } else {
                    -secs
                }) * 1_000_000,
            )
        }),
{
    let z = d.push('Z' as u8);
    let l = d.push(sign) + hh + seq![':' as u8] + mm;
    lemma_same_date_time(d, z);
    lemma_same_date_time(d, l);
    assert(l.subrange(20, 22) =~= hh);
    assert(l.subrange(23, 25) =~= mm);
    assert(l[19] == sign && l[22] == ':' as u8);
    assert(z[19] == 'Z' as u8);
}

/// What a date and time say does not depend on what follows them.
proof fn lemma_same_date_time(d: Seq<u8>, b: Seq<u8>)
    requires
        d.len() == 19,
        b.len() >= 19,
        forall|i: int| 0 <= i < 19 ==> #[trigger] b[i] == d[i],
        has_date_time(d),
    ensures
        has_date_time(b),
        date_time_seconds(b) == date_time_seconds(d),
{
    assert(b.subrange(0, 4) =~= d.subrange(0, 4));
    assert(b.subrange(5, 7) =~= d.subrange(5, 7));
    assert(b.subrange(8, 10) =~= d.subrange(8, 10));
    assert(b.subrange(11, 13) =~= d.subrange(11, 13));
    assert(b.subrange(14, 16) =~= d.subrange(14, 16));
    assert(b.subrange(17, 19) =~= d.subrange(17, 19));
    assert(b[4] == d[4] && b[7] == d[7] && b[10] == d[10] && b[13] == d[13] && b[16] == d[16]);
}

/// A reading's severity is a rank, and a time in it is no mark of an untimed
/// record.
pub proof fn lemma_ndjson_sound(line: Seq<u8>, fields: Option<&FieldNames>)
    ensures
        is_sound(ndjson_reading(line, fields)),
{
    match fields {
        None => {
            if let Some((StringMember::Text(b), _)) = line_slots(line) {
                lemma_rfc3339_range(b);
            }
        },
        Some(f) => {
            if let Some(m) = json::object_members(line) {
                if let Some(raw) = json::member(m, f.ts@) {
                    lemma_rfc3339_range(json::unquoted(text::enc(raw)));
                }
            }
        },
    }
}

/// A number in a text stays what it is when something is written behind it.
proof fn lemma_number_before(p: Seq<u8>, q: Seq<u8>, i: int, j: int)
    requires
        0 <= i <= j <= p.len(),
    ensures
        number(p + q, i, j) == number(p, i, j),
{
    assert((p + q).subrange(i, j) =~= p.subrange(i, j));
}

/// The number that two digits write.
pub proof fn lemma_number_pair(b: Seq<u8>, i: int)
    requires
        0 <= i,
        i + 2 <= b.len(),
        '0' as u8 <= b[i] <= '9' as u8,
        '0' as u8 <= b[i + 1] <= '9' as u8,
    ensures
        number(b, i, i + 2) == Some((b[i] - 48) * 10 + (b[i + 1] - 48)),
{
    let n = b.subrange(i, i + 2);
    reveal_with_fuel(scan::decimal, 3);
    assert(n.drop_last().drop_last() =~= Seq::empty());
    assert(n.drop_last().last() == b[i]);
    assert(n.last() == b[i + 1]);
    assert(scan::decimal(n.drop_last()) == b[i] - 48);
}

/// `p` and a padding behind it that starts with `-01` or ends a time with
/// `:00:00Z` or a part of it.
proof fn lemma_padding(len: nat)
    ensures
        len == 4 ==> padding(len) =~= seq![45u8, 48, 49, 45, 48, 49, 84, 48, 48, 58, 48, 48, 58, 48, 48, 90],
        len == 7 ==> padding(len) =~= seq![45u8, 48, 49, 84, 48, 48, 58, 48, 48, 58, 48, 48, 90],
        len == 10 ==> padding(len) =~= seq![84u8, 48, 48, 58, 48, 48, 58, 48, 48, 90],
        len == 13 ==> padding(len) =~= seq![58u8, 48, 48, 58, 48, 48, 90],
        len == 16 ==> padding(len) =~= seq![58u8, 48, 48, 90],
        len == 19 ==> padding(len) =~= seq![90u8],
{
    reveal_strlit("-01-01T00:00:00Z");
    reveal_strlit("-01T00:00:00Z");
    reveal_strlit("T00:00:00Z");
    reveal_strlit(":00:00Z");
    reveal_strlit(":00Z");
    reveal_strlit("Z");
    text::lemma_ascii_literal("-01-01T00:00:00Z");
    text::lemma_ascii_literal("-01T00:00:00Z");
    text::lemma_ascii_literal("T00:00:00Z");
    text::lemma_ascii_literal(":00:00Z");
    text::lemma_ascii_literal(":00Z");
    text::lemma_ascii_literal("Z");
}

/// The parts of a date and time that a padded prefix has.
proof fn lemma_padded_parts(b: Seq<u8>)
    requires
        b.len() == 4 || b.len() == 7 || b.len() == 10 || b.len() == 13 || b.len() == 16 || b.len()
            == 19,
    ensures
        ({
            let full = b + padding(b.len());
            &&& full.len() == 20
            &&& full[19] == 'Z' as u8
            &&& number(full, 0, 4) == number(b, 0, 4)
            &&& b.len() <= 4 ==> full[4] == '-' as u8 && number(full, 5, 7) == Some(1int)
            &&& b.len() > 4 ==> full[4] == b[4] && number(full, 5, 7) == number(b, 5, 7)
            &&& b.len() <= 7 ==> full[7] == '-' as u8 && number(full, 8, 10) == Some(1int)
            &&& b.len() > 7 ==> full[7] == b[7] && number(full, 8, 10) == number(b, 8, 10)
            &&& b.len() <= 10 ==> full[10] == 'T' as u8 && number(full, 11, 13) == Some(0int)
            &&& b.len() > 10 ==> full[10] == b[10] && number(full, 11, 13) == number(b, 11, 13)
            &&& b.len() <= 13 ==> full[13] == ':' as u8 && number(full, 14, 16) == Some(0int)
            &&& b.len() > 13 ==> full[13] == b[13] && number(full, 14, 16) == number(b, 14, 16)
            &&& b.len() <= 16 ==> full[16] == ':' as u8 && number(full, 17, 19) == Some(0int)
            &&& b.len() > 16 ==> full[16] == b[16] && number(full, 17, 19) == number(b, 17, 19)
        }),
{
    let pad = padding(b.len());
    let full = b + pad;
    lemma_padding(b.len());
    lemma_number_before(b, pad, 0, 4);
    if b.len() <= 4 {
        lemma_number_pair(full, 5);
    } else {
        lemma_number_before(b, pad, 5, 7);
    }
    if b.len() <= 7 {
        lemma_number_pair(full, 8);
    } else {
        lemma_number_before(b, pad, 8, 10);
    }
    if b.len() <= 10 {
        lemma_number_pair(full, 11);
    } else {
        lemma_number_before(b, pad, 11, 13);
    }
    if b.len() <= 13 {
        lemma_number_pair(full, 14);
    } else {
        lemma_number_before(b, pad, 14, 16);
    }
    if b.len() <= 16 {
        lemma_number_pair(full, 17);
    } else {
        lemma_number_before(b, pad, 17, 19);
    }
}

/// A text that names a year, a month, a day, an hour, a minute or a second
/// stands for the first instant of it, in UTC. A year, month or day that the
/// calendar lacks, an hour past 23, a minute past 59 and a second past 60 name
/// nothing.
pub proof fn law_prefix_is_its_first_instant(s: Seq<char>)
    requires
        text::trimmed(s) == s,
    ensures
        ({
            let b = text::enc(s);
            let year = number(b, 0, 4);
            let month = number(b, 5, 7);
            let day = number(b, 8, 10);
            let hour = number(b, 11, 13);
            let minute = number(b, 14, 16);
            let second = number(b, 17, 19);
            let in_year = year is Some;
            let in_month = in_year && b[4] == '-' as u8 && month is Some && 1 <= month->0 <= 12;
            let in_day = in_month && b[7] == '-' as u8 && day is Some && 1 <= day->0
                <= civil::month_days(year->0, month->0);
            let in_hour = in_day && (b[10] == 'T' as u8 || b[10] == ' ' as u8) && hour is Some
                && hour->0 <= 23;
            let in_minute = in_hour && b[13] == ':' as u8 && minute is Some && minute->0 <= 59;
            let in_second = in_minute && b[16] == ':' as u8 && second is Some && second->0 <= 60;
            let midnight = civil::epoch_day(year->0, month->0, day->0) * 86_400;
            &&& b.len() == 4 ==> partial_rfc3339(s) == if in_year {
                Some(civil::epoch_day(year->0, 1, 1) * 86_400 * 1_000_000)
            } else {
                None
            }
            &&& b.len() == 7 ==> partial_rfc3339(s) == if in_month {
                Some(civil::epoch_day(year->0, month->0, 1) * 86_400 * 1_000_000)
            } else {
                None
            }
            &&& b.len() == 10 ==> partial_rfc3339(s) == if in_day {
                Some(midnight * 1_000_000)
            } else {
                None
            }
            &&& b.len() == 13 ==> partial_rfc3339(s) == if in_hour {
                Some((midnight + hour->0 * 3_600) * 1_000_000)
            } else {
                None
            }
            &&& b.len() == 16 ==> partial_rfc3339(s) == if in_minute {
                Some((midnight + hour->0 * 3_600 + minute->0 * 60) * 1_000_000)
            } else {
                None
            }
            &&& b.len() == 19 ==> partial_rfc3339(s) == if in_second {
                Some((midnight + hour->0 * 3_600 + minute->0 * 60 + second->0) * 1_000_000)
            } else {
                None
            }
            &&& b.len() >= 20 ==> partial_rfc3339(s) == rfc3339(b)
        }),
{
    let b = text::enc(s);
    if b.len() == 4 || b.len() == 7 || b.len() == 10 || b.len() == 13 || b.len() == 16 || b.len()
        == 19 {
        lemma_padded_parts(b);
    } else if b.len() >= 20 {
        assert(b + padding(b.len()) =~= b);
    }
}

/// No instant that is written in UTC and begins with a prefix comes before the
/// instant that the prefix stands for.
pub proof fn law_nothing_named_comes_before_a_prefix(s: Seq<char>, full: Seq<u8>)
    requires
        text::trimmed(s) == s,
        text::enc(s).len() <= 19,
        partial_rfc3339(s) is Some,
        full.len() >= 20,
        full.subrange(0, text::enc(s).len() as int) == text::enc(s),
        full[full.len() - 1] == 'Z' as u8,
        rfc3339(full) is Some,
    ensures
        partial_rfc3339(s)->0 <= rfc3339(full)->0,
{
    let b = text::enc(s);
    let n = b.len() as int;
    if n != 4 && n != 7 && n != 10 && n != 13 && n != 16 && n != 19 {
        assert(b + padding(b.len()) =~= b);
        assert(false);
    }
    lemma_padded_parts(b);
    let pad = b + padding(b.len());
    assert forall|i: int| 0 <= i < n implies #[trigger] full[i] == b[i] by {
        assert(full.subrange(0, n)[i] == b[i]);
    }
    assert(full.subrange(0, 4) =~= b.subrange(0, 4));
    if n >= 7 {
        assert(full.subrange(5, 7) =~= b.subrange(5, 7));
    }
    if n >= 10 {
        assert(full.subrange(8, 10) =~= b.subrange(8, 10));
    }
    if n >= 13 {
        assert(full.subrange(11, 13) =~= b.subrange(11, 13));
    }
    if n >= 16 {
        assert(full.subrange(14, 16) =~= b.subrange(14, 16));
    }
    if n >= 19 {
        assert(full.subrange(17, 19) =~= b.subrange(17, 19));
    }
    let (y, m, d) = (number(full, 0, 4)->0, number(full, 5, 7)->0, number(full, 8, 10)->0);
    let (pm, pd) = (number(pad, 5, 7)->0, number(pad, 8, 10)->0);
    let first = civil::epoch_day(y, pm, pd);
    let day = civil::epoch_day(y, m, d);
    civil::law_day_of_date(y, pm, pd);
    civil::law_day_of_date(y, m, d);
    if day < first {
        civil::law_dates_follow_days(day, first);
    }
    let end = fraction_end(full);
    scan::lemma_run_end(full, 20, ByteClass::Digit);
    if end > 19 {
        let f = full.subrange(20, end);
        assert forall|k: int| 0 <= k < f.len() implies ByteClass::Digit.has(#[trigger] f[k]) by {
            assert(f[k] == full[20 + k]);
        }
        lemma_fraction_range(f);
    }
    assert(offset_seconds(full, end) == Some(0int)) by {
        if end + 6 == full.len() {
            assert(ByteClass::Digit.has(full.subrange(end + 4, end + 6)[1]));
        }
    }
}

/// `YYYY-MM-DD HH:MM:SS`, with a fraction of one to twelve digits behind a dot
/// or a comma or without one, is the instant that its parts name in UTC.
/// Digits past the sixth are dropped, missing ones are zero.
pub proof fn law_dashed_time_is_its_instant(p: Seq<u8>)
    requires
        p.len() == 19 || (20 < p.len() < 32 && (p[19] == '.' as u8 || p[19] == ',' as u8)),
        forall|k: int| 20 <= k < p.len() ==> ByteClass::Digit.has(#[trigger] p[k]),
        p[10] == ' ' as u8,
        p[4] == '-' as u8,
        p[7] == '-' as u8,
        p[13] == ':' as u8,
        p[16] == ':' as u8,
        number(p, 0, 4) is Some,
        number(p, 5, 7) is Some,
        number(p, 8, 10) is Some,
        civil::is_date(number(p, 0, 4)->0, number(p, 5, 7)->0, number(p, 8, 10)->0),
        number(p, 11, 13) is Some && number(p, 11, 13)->0 <= 23,
        number(p, 14, 16) is Some && number(p, 14, 16)->0 <= 59,
        number(p, 17, 19) is Some && number(p, 17, 19)->0 <= 60,
    ensures
        ({
            let day = civil::epoch_day(
                number(p, 0, 4)->0,
                number(p, 5, 7)->0,
                number(p, 8, 10)->0,
            );
            let clock = number(p, 11, 13)->0 * 3_600 + number(p, 14, 16)->0 * 60 + number(
                p,
                17,
                19,
            )->0;
            dashed_timestamp(p) == Some(
                (day * 86_400 + clock) * 1_000_000 + digit_at(p, 20) * 100_000 + digit_at(p, 21)
                    * 10_000 + digit_at(p, 22) * 1_000 + digit_at(p, 23) * 100 + digit_at(p, 24)
                    * 10 + digit_at(p, 25),
            )
        }),
{
    let r = dashed_as_rfc3339(p);
    assert forall|i: int| 0 <= i < p.len() && i != 10 && p[i] != ',' as u8 implies #[trigger] r[i]
        == p[i] by {}
    lemma_no_comma(p, 0, 4);
    lemma_no_comma(p, 5, 7);
    lemma_no_comma(p, 8, 10);
    lemma_no_comma(p, 11, 13);
    lemma_no_comma(p, 14, 16);
    lemma_no_comma(p, 17, 19);
    assert(r.subrange(0, 4) =~= p.subrange(0, 4));
    assert(r.subrange(5, 7) =~= p.subrange(5, 7));
    assert(r.subrange(8, 10) =~= p.subrange(8, 10));
    assert(r.subrange(11, 13) =~= p.subrange(11, 13));
    assert(r.subrange(14, 16) =~= p.subrange(14, 16));
    assert(r.subrange(17, 19) =~= p.subrange(17, 19));
    let n = p.len() as int;
    assert(r[n] == 'Z' as u8);
    if n > 19 {
        assert(r[19] == '.' as u8);
        assert forall|k: int| 20 <= k < n implies ByteClass::Digit.has(#[trigger] r[k]) by {
            assert(ByteClass::Digit.has(p[k]));
        }
        scan::lemma_run_end_at(r, 20, n, ByteClass::Digit);
        let f = r.subrange(20, n);
        assert forall|k: int| 0 <= k < f.len() implies #[trigger] f[k] == p[20 + k] by {
            assert(ByteClass::Digit.has(p[20 + k]));
            assert(f[k] == r[20 + k]);
        }
        reveal_with_fuel(fraction_value, 7);
    }
}

/// The digit at a place of a text; zero behind its end.
pub open spec fn digit_at(p: Seq<u8>, i: int) -> int {
    if i < p.len() {
        p[i] - '0' as u8
    } else {
        0
    }
}

proof fn lemma_no_comma(p: Seq<u8>, i: int, j: int)
    requires
        0 <= i <= j <= p.len(),
        number(p, i, j) is Some,
    ensures
        forall|k: int| i <= k < j ==> #[trigger] p[k] != ',' as u8,
{
    assert forall|k: int| i <= k < j implies #[trigger] p[k] != ',' as u8 by {
        assert(ByteClass::Digit.has(p.subrange(i, j)[k - i]));
    }
}

/// A space between date and time reads as a `T`.
pub proof fn lemma_separator_does_not_matter(a: Seq<u8>, b: Seq<u8>)
    requires
        a.len() > 10,
        a[10] == ' ' as u8,
        b == a.update(10, 'T' as u8),
    ensures
        rfc3339(a) == rfc3339(b),
{
    if a.len() >= 20 {
        assert(a.subrange(0, 4) =~= b.subrange(0, 4));
        assert(a.subrange(5, 7) =~= b.subrange(5, 7));
        assert(a.subrange(8, 10) =~= b.subrange(8, 10));
        assert(a.subrange(11, 13) =~= b.subrange(11, 13));
        assert(a.subrange(14, 16) =~= b.subrange(14, 16));
        assert(a.subrange(17, 19) =~= b.subrange(17, 19));
        scan::lemma_run_end(a, 20, ByteClass::Digit);
        let e = scan::run_end(a, 20, ByteClass::Digit);
        assert forall|k: int| 20 <= k < e implies ByteClass::Digit.has(#[trigger] b[k]) by {
            assert(a[k] == b[k]);
        }
        scan::lemma_run_end_at(b, 20, e, ByteClass::Digit);
        let end = fraction_end(a);
        if end > 19 {
            assert(a.subrange(20, end) =~= b.subrange(20, end));
        }
        if end + 6 == a.len() {
            assert(a.subrange(end + 1, end + 3) =~= b.subrange(end + 1, end + 3));
            assert(a.subrange(end + 4, end + 6) =~= b.subrange(end + 4, end + 6));
        }
    }
}

/// The timestamp and the level go by `ts` and `level`, unless other names were
/// given.
pub proof fn law_field_names(fields: Option<&FieldNames>)
    ensures
        fields is None ==> ts_key(fields) == "ts"@ && level_key(fields) == "level"@,
        fields matches Some(f) ==> ts_key(fields) == f.ts@ && level_key(fields) == f.level@,
{
}

/// A member's value as JSON writes a text that needs no escape.
pub open spec fn plain_value(t: Seq<char>) -> Seq<u8> {
    seq!['"' as u8] + text::enc(t) + seq!['"' as u8]
}

proof fn lemma_plain_value(t: Seq<char>)
    requires
        forall|k: int| 0 <= k < text::enc(t).len() ==> #[trigger] text::enc(t)[k] != '\\' as u8,
    ensures
        string_member(Some(plain_value(t))) == StringMember::Text(text::enc(t)),
{
    let b = plain_value(t);
    let e = text::enc(t);
    text::lemma_lossy_of_text(t);
    assert forall|k: int| 0 <= k < b.len() implies ByteClass::Except('\\' as u8).has(
        #[trigger] b[k],
    ) by {
        if 0 < k < b.len() - 1 {
            assert(b[k] == e[k - 1]);
        }
    }
    scan::lemma_run_end_at(b, 0, b.len() as int, ByteClass::Except('\\' as u8));
    assert(json::unquoted(b) =~= e);
    reveal_strlit("null");
    text::lemma_ascii_literal("null");
    assert(text::enc("null"@)[0] == 'n' as u8);
}

/// A JSON object's time is what its member `ts` writes and its severity what
/// its member `level` names, wherever they stand among the members. An array
/// gives both by their places.
pub proof fn law_object_is_read_by_its_members(
    m: json::RawMembers,
    i: int,
    j: int,
    ts: Seq<char>,
    level: Seq<char>,
)
    requires
        0 <= i < m.len(),
        0 <= j < m.len(),
        m[i] == ("ts"@, plain_value(ts)),
        m[j] == ("level"@, plain_value(level)),
        forall|k: int| 0 <= k < m.len() && k != i ==> (#[trigger] m[k]).0 != "ts"@,
        forall|k: int| 0 <= k < m.len() && k != j ==> (#[trigger] m[k]).0 != "level"@,
        forall|k: int| 0 <= k < text::enc(ts).len() ==> #[trigger] text::enc(ts)[k] != '\\' as u8,
        forall|k: int|
            0 <= k < text::enc(level).len() ==> #[trigger] text::enc(level)[k] != '\\' as u8,
    ensures
        default_reading(record_slots(Some(m), None)) == (
            match rfc3339(text::enc(ts)) {
                Some(t) => TsOutcome::Timed(t as i64),
                None => TsOutcome::Malformed,
            },
            severity::rank_of(text::enc(level)),
        ),
        default_reading(record_slots(None, Some(seq![plain_value(ts), plain_value(level)])))
            == default_reading(record_slots(Some(m), None)),
{
    lemma_plain_value(ts);
    lemma_plain_value(level);
    lemma_member_once(m, "ts"@, 0, i);
    lemma_member_once(m, "level"@, 0, j);
}

proof fn lemma_member_once(m: json::RawMembers, name: Seq<char>, i: int, k: int)
    requires
        0 <= i <= m.len(),
        0 <= k < m.len(),
        m[k].0 == name,
        forall|j: int| 0 <= j < m.len() && j != k ==> (#[trigger] m[j]).0 != name,
    ensures
        i <= k ==> json::lookup_from(m, name, i) == json::Lookup::Once(m[k].1),
        i > k ==> json::lookup_from(m, name, i) is Missing,
    decreases m.len() - i,
{
    if i < m.len() {
        assert(i == k || m[i].0 != name);
        lemma_member_once(m, name, i + 1, k);
    }
}

/// Every record that is not timed counts as untimed. One whose timestamp does
/// not parse is a timestamp error as well, and one that is not parsed at all a
/// parse error.
pub proof fn law_outcomes_are_counted(s: ParseStats, t: i64)
    requires
        s.has_room(),
    ensures
        s.counting(TsOutcome::Timed(t)) == s,
        s.counting(TsOutcome::Missing).untimed == s.untimed + 1,
        s.counting(TsOutcome::Missing).ts_parse_errors == s.ts_parse_errors,
        s.counting(TsOutcome::Missing).json_parse_errors == s.json_parse_errors,
        s.counting(TsOutcome::Malformed).untimed == s.untimed + 1,
        s.counting(TsOutcome::Malformed).ts_parse_errors == s.ts_parse_errors + 1,
        s.counting(TsOutcome::Malformed).json_parse_errors == s.json_parse_errors,
        s.counting(TsOutcome::Unparsed).untimed == s.untimed + 1,
        s.counting(TsOutcome::Unparsed).ts_parse_errors == s.ts_parse_errors,
        s.counting(TsOutcome::Unparsed).json_parse_errors == s.json_parse_errors + 1,
{
}

} // verus!
