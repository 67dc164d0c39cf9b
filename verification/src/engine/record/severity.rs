//! Severity ranks, byte-sized for the severity index.
//!
//! Values are stable across releases: treat them as a wire format.

use vstd::prelude::*;

use crate::scan;
use crate::text;

verus! {

pub const UNKNOWN: u8 = 0;
pub const TRACE: u8 = 1;
pub const DEBUG: u8 = 2;
pub const INFO: u8 = 3;
pub const WARN: u8 = 4;
pub const ERROR: u8 = 5;
pub const FATAL: u8 = 6;

/// The rank that a level name stands for. Names are compared without regard
/// to ASCII case; `warning` is another name for `warn`.
pub open spec fn rank_of(b: Seq<u8>) -> u8 {
    if scan::same_ignoring_case(b, text::enc("info"@)) {
        INFO
    } else if scan::same_ignoring_case(b, text::enc("warn"@)) {
        WARN
    } else if scan::same_ignoring_case(b, text::enc("error"@)) {
        ERROR
    } else if scan::same_ignoring_case(b, text::enc("debug"@)) {
        DEBUG
    } else if scan::same_ignoring_case(b, text::enc("trace"@)) {
        TRACE
    } else if scan::same_ignoring_case(b, text::enc("fatal"@)) {
        FATAL
    } else if scan::same_ignoring_case(b, text::enc("warning"@)) {
        WARN
    } else {
        UNKNOWN
    }
}

/// Match the byte form of a level against the ranks, ignoring ASCII case.
/// `UNKNOWN` for unrecognized values.
pub fn from_bytes(b: &[u8]) -> (r: u8)
    ensures
        r == rank_of(b@),
{
    if scan::eq_ignore_ascii_case(b, "info".as_bytes()) {
        INFO
    } else if scan::eq_ignore_ascii_case(b, "warn".as_bytes()) {
        WARN
    } else if scan::eq_ignore_ascii_case(b, "error".as_bytes()) {
        ERROR
    } else if scan::eq_ignore_ascii_case(b, "debug".as_bytes()) {
        DEBUG
    } else if scan::eq_ignore_ascii_case(b, "trace".as_bytes()) {
        TRACE
    } else if scan::eq_ignore_ascii_case(b, "fatal".as_bytes()) {
        FATAL
    } else if scan::eq_ignore_ascii_case(b, "warning".as_bytes()) {
        WARN
    } else {
        UNKNOWN
    }
}

/// The lower-case name of a rank; `?` for anything that is not one.
pub open spec fn name_of(s: u8) -> Seq<char> {
    if s == TRACE {
        "trace"@
    } else if s == DEBUG {
        "debug"@
    } else if s == INFO {
        "info"@
    } else if s == WARN {
        "warn"@
    } else if s == ERROR {
        "error"@
    } else if s == FATAL {
        "fatal"@
    } else {
        "?"@
    }
}

pub fn name(s: u8) -> (r: &'static str)
    ensures
        r@ == name_of(s),
{
    match s {
        TRACE => "trace",
        DEBUG => "debug",
        INFO => "info",
        WARN => "warn",
        ERROR => "error",
        FATAL => "fatal",
        _ => "?",
    }
}

/// The name of a rank stands for that rank.
pub proof fn law_names_stand_for_their_ranks(s: u8)
    requires
        TRACE <= s <= FATAL,
    ensures
        rank_of(text::enc(name_of(s))) == s,
{
    reveal_strlit("trace");
    reveal_strlit("debug");
    reveal_strlit("info");
    reveal_strlit("warn");
    reveal_strlit("error");
    reveal_strlit("fatal");
    text::lemma_ascii_literal("trace");
    text::lemma_ascii_literal("debug");
    text::lemma_ascii_literal("info");
    text::lemma_ascii_literal("warn");
    text::lemma_ascii_literal("error");
    text::lemma_ascii_literal("fatal");
    assert(scan::same_ignoring_case(text::enc(name_of(s)), text::enc(name_of(s))));
    let b = text::enc(name_of(s));
    if s == ERROR || s == DEBUG || s == TRACE || s == FATAL {
        assert(b.len() == 5);
        assert(scan::lower(b[0]) == b[0] && scan::lower(b[1]) == b[1]);
    } else {
        assert(scan::lower(b[0]) == b[0]);
    }
}

/// A level name means the same in any mix of upper and lower case.
pub proof fn law_case_does_not_matter(a: Seq<u8>, b: Seq<u8>)
    requires
        scan::same_ignoring_case(a, b),
    ensures
        rank_of(a) == rank_of(b),
{
    assert forall|c: Seq<u8>| scan::same_ignoring_case(a, c) == scan::same_ignoring_case(b, c) by {
        if scan::same_ignoring_case(b, c) {
            assert forall|i: int| 0 <= i < a.len() implies scan::lower(#[trigger] a[i])
                == scan::lower(c[i]) by {
                assert(scan::lower(b[i]) == scan::lower(c[i]));
            }
        }
        if scan::same_ignoring_case(a, c) {
            assert forall|i: int| 0 <= i < b.len() implies scan::lower(#[trigger] b[i])
                == scan::lower(c[i]) by {
                assert(scan::lower(a[i]) == scan::lower(c[i]));
            }
        }
    }
}

/// The seven level names, in any case, have the ranks 1 to 6 from `trace` up to
/// `fatal`; `warning` is `warn`, and any other text has rank 0.
pub proof fn law_levels_rank_from_trace_to_fatal(b: Seq<u8>)
    ensures
        UNKNOWN < TRACE < DEBUG < INFO < WARN < ERROR < FATAL,
        UNKNOWN == 0 && FATAL == 6,
        scan::same_ignoring_case(b, text::enc("trace"@)) <==> rank_of(b) == TRACE,
        scan::same_ignoring_case(b, text::enc("debug"@)) <==> rank_of(b) == DEBUG,
        scan::same_ignoring_case(b, text::enc("info"@)) <==> rank_of(b) == INFO,
        scan::same_ignoring_case(b, text::enc("warn"@)) || scan::same_ignoring_case(
            b,
            text::enc("warning"@),
        ) <==> rank_of(b) == WARN,
        scan::same_ignoring_case(b, text::enc("error"@)) <==> rank_of(b) == ERROR,
        scan::same_ignoring_case(b, text::enc("fatal"@)) <==> rank_of(b) == FATAL,
{
    reveal_strlit("trace");
    reveal_strlit("debug");
    reveal_strlit("info");
    reveal_strlit("warn");
    reveal_strlit("warning");
    reveal_strlit("error");
    reveal_strlit("fatal");
    text::lemma_ascii_literal("trace");
    text::lemma_ascii_literal("debug");
    text::lemma_ascii_literal("info");
    text::lemma_ascii_literal("warn");
    text::lemma_ascii_literal("warning");
    text::lemma_ascii_literal("error");
    text::lemma_ascii_literal("fatal");
    let (t, d, i, w) = (
        text::enc("trace"@),
        text::enc("debug"@),
        text::enc("info"@),
        text::enc("warn"@),
    );
    let (e, f, g) = (text::enc("error"@), text::enc("fatal"@), text::enc("warning"@));
    assert(t.len() == 5 && d.len() == 5 && e.len() == 5 && f.len() == 5);
    assert(i.len() == 4 && w.len() == 4 && g.len() == 7);
    assert(t[0] == 't' as u8 && d[0] == 'd' as u8 && e[0] == 'e' as u8 && f[0] == 'f' as u8);
    assert(i[0] == 'i' as u8 && w[0] == 'w' as u8);
    assert(scan::same_ignoring_case(b, t) ==> scan::lower(b[0]) == 't' as u8);
    assert(scan::same_ignoring_case(b, d) ==> scan::lower(b[0]) == 'd' as u8);
    assert(scan::same_ignoring_case(b, e) ==> scan::lower(b[0]) == 'e' as u8);
    assert(scan::same_ignoring_case(b, f) ==> scan::lower(b[0]) == 'f' as u8);
    assert(scan::same_ignoring_case(b, i) ==> scan::lower(b[0]) == 'i' as u8);
    assert(scan::same_ignoring_case(b, w) ==> scan::lower(b[0]) == 'w' as u8);
}

/// The lower-case names are told apart, and a rank without a name shows as `?`.
pub proof fn law_each_rank_shows_its_name(s: u8)
    ensures
        s == 1 ==> name_of(s) == "trace"@,
        s == 2 ==> name_of(s) == "debug"@,
        s == 3 ==> name_of(s) == "info"@,
        s == 4 ==> name_of(s) == "warn"@,
        s == 5 ==> name_of(s) == "error"@,
        s == 6 ==> name_of(s) == "fatal"@,
        s == 0 || s > 6 ==> name_of(s) == "?"@,
{
}

} // verus!
