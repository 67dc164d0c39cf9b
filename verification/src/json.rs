//! JSON objects as lists of members, read by `serde_json`.

use vstd::prelude::*;

use serde::de::IgnoredAny;
use serde_json::value::RawValue;
use std::collections::BTreeMap;

use crate::scan;
use crate::scan::ByteClass;
use crate::text;

verus! {

/// The members of a JSON object: names and verbatim value texts.
pub type Members = Seq<(Seq<char>, Seq<char>)>;

/// The members of the JSON object that a line holds, in ascending order of
/// their names; nothing when it is not one object of JSON, or when a member
/// name is written with an escape. Of two members with one name the later
/// counts.
pub uninterp spec fn object_members(line: Seq<u8>) -> Option<Members>;

/// No two members share a name.
pub open spec fn distinct_names(m: Members) -> bool {
    forall|i: int, j: int|
        0 <= i < j < m.len() ==> (#[trigger] m[i]).0 != (#[trigger] m[j]).0
}

/// Members as plain text.
pub open spec fn members_view(m: Seq<(&str, &str)>) -> Members {
    Seq::new(m.len(), |i: int| (m[i].0@, m[i].1@))
}

/// `serde_json::from_slice` into a map of borrowed names to unparsed values.
/// The result is a function of the line, and its names are distinct.
#[verifier::external_body]
pub(crate) fn parse_object<'a>(line: &'a [u8]) -> (r: Option<Vec<(&'a str, &'a str)>>)
    ensures
        match r {
            Some(v) => object_members(line@) == Some(members_view(v@)) && distinct_names(
                members_view(v@),
            ),
            None => object_members(line@) is None,
        },
{
    let map: BTreeMap<&'a str, &'a RawValue> = serde_json::from_slice(line).ok()?;
    Some(map.into_iter().map(|(k, v)| (k, v.get())).collect())
}

/// The value text of the first member called `name` at or after `i`.
pub open spec fn member_from(m: Members, name: Seq<char>, i: int) -> Option<Seq<char>>
    decreases m.len() - i,
{
    if !(0 <= i < m.len()) {
        None
    } else if m[i].0 == name {
        Some(m[i].1)
    } else {
        member_from(m, name, i + 1)
    }
}

/// The value text of the member called `name`.
pub open spec fn member(m: Members, name: Seq<char>) -> Option<Seq<char>> {
    member_from(m, name, 0)
}

/// Look up a member by name.
pub fn find_member<'a>(m: &Vec<(&'a str, &'a str)>, name: &str) -> (r: Option<&'a str>)
    ensures
        match r {
            Some(v) => member(members_view(m@), name@) == Some(v@),
            None => member(members_view(m@), name@) is None,
        },
{
    let mut i: usize = 0;
    while i < m.len()
        invariant
            i <= m@.len(),
            member(members_view(m@), name@) == member_from(members_view(m@), name@, i as int),
        decreases m@.len() - i,
    {
        if text::str_eq(m[i].0, name) {
            return Some(m[i].1);
        }
        i = i + 1;
    }
    None
}

/// `b` is wrapped in double quotes.
pub open spec fn is_quoted(b: Seq<u8>) -> bool {
    b.len() >= 2 && b[0] == '"' as u8 && b[b.len() - 1] == '"' as u8
}

/// `b` without the quotes that wrap it, if they do.
pub open spec fn unquoted(b: Seq<u8>) -> Seq<u8> {
    if is_quoted(b) {
        b.subrange(1, b.len() - 1)
    } else {
        b
    }
}

pub(crate) fn test_quoted(b: &[u8]) -> (r: bool)
    ensures
        r == is_quoted(b@),
{
    b.len() >= 2 && b[0] == '"' as u8 && b[b.len() - 1] == '"' as u8
}

pub(crate) fn unquote<'a>(b: &'a [u8]) -> (r: &'a [u8])
    ensures
        r@ == unquoted(b@),
{
    if test_quoted(b) {
        &b[1..b.len() - 1]
    } else {
        b
    }
}

/// The members of a JSON object as they stand in a line: names with their
/// escapes resolved, and the bytes of the values. A name may repeat.
pub type RawMembers = Seq<(Seq<char>, Seq<u8>)>;

/// The text of the JSON string at the start of a byte string, its escapes
/// resolved, and the number of bytes it takes up.
pub uninterp spec fn first_string(s: Seq<u8>) -> Option<(Seq<char>, nat)>;

/// The number of bytes that the JSON value at the start of a byte string takes
/// up.
pub uninterp spec fn value_length(s: Seq<u8>) -> Option<nat>;

/// `serde_json::StreamDeserializer::next` on strings: the text of the string
/// that comes first, and the number of bytes read (`byte_offset`). The result
/// is a function of the bytes; a string takes up at least one byte, and none
/// behind the end. Fails where something else comes first, where the string is
/// malformed, and where it is no UTF-8.
#[verifier::external_body]
fn read_string(s: &[u8]) -> (r: Option<(String, usize)>)
    ensures
        match r {
            Some((t, n)) => first_string(s@) == Some((t@, n as nat)) && 0 < n <= s@.len(),
            None => first_string(s@) is None,
        },
{
    let mut values = serde_json::Deserializer::from_slice(s).into_iter::<String>();
    let text: String = values.next()?.ok()?;
    Some((text, values.byte_offset()))
}

/// `serde_json::StreamDeserializer::next` on values that are skipped: the
/// number of bytes read (`byte_offset`). The result is a function of the
/// bytes; a value takes up at least one byte, and none behind the end. Fails
/// where no value of JSON comes first, and where a number or a word runs on
/// into other bytes. Strings inside a value need not be UTF-8.
#[verifier::external_body]
fn skip_value(s: &[u8]) -> (r: Option<usize>)
    ensures
        match r {
            Some(n) => value_length(s@) == Some(n as nat) && 0 < n <= s@.len(),
            None => value_length(s@) is None,
        },
{
    let mut values = serde_json::Deserializer::from_slice(s).into_iter::<IgnoredAny>();
    values.next()?.ok()?;
    Some(values.byte_offset())
}

/// Index of the first byte at or after `i` that does not merely part tokens.
pub open spec fn gap_end(s: Seq<u8>, i: int) -> int {
    scan::run_end(s, i, ByteClass::JsonGap)
}

/// The byte `b` stands at `i`.
pub open spec fn has_at(s: Seq<u8>, i: int, b: u8) -> bool {
    0 <= i < s.len() && s[i] == b
}

/// The first and the last index, exclusive, of the value that comes next.
pub open spec fn next_value(s: Seq<u8>, i: int) -> Option<(int, int)> {
    match value_length(s.skip(gap_end(s, i))) {
        Some(n) => Some((gap_end(s, i), gap_end(s, i) + n)),
        None => None,
    }
}

/// The member that comes next, and the index behind it.
pub open spec fn next_member(s: Seq<u8>, i: int) -> Option<((Seq<char>, Seq<u8>), int)> {
    match first_string(s.skip(gap_end(s, i))) {
        None => None,
        Some((name, n)) => {
            let colon = gap_end(s, gap_end(s, i) + n);
            match next_value(s, colon + 1) {
                Some((v, e)) => if has_at(s, colon, ':' as u8) {
                    Some(((name, s.subrange(v, e)), e))
                } else {
                    None
                },
                None => None,
            }
        },
    }
}

/// `rest`, if there is one, behind `first`.
pub open spec fn led_by<A>(first: Seq<A>, rest: Option<Seq<A>>) -> Option<Seq<A>> {
    match rest {
        Some(r) => Some(first + r),
        None => None,
    }
}

/// The members from `i` on, up to one with no comma behind it.
pub open spec fn members_from(s: Seq<u8>, i: int) -> Option<RawMembers>
    decreases s.len() - i,
{
    match next_member(s, i) {
        None => None,
        Some((m, e)) => {
            let t = gap_end(s, e);
            if has_at(s, t, ',' as u8) && i <= t {
                led_by(seq![m], members_from(s, t + 1))
            } else {
                Some(seq![m])
            }
        },
    }
}

/// The values from `i` on, up to one with no comma behind it.
pub open spec fn values_from(s: Seq<u8>, i: int) -> Option<Seq<Seq<u8>>>
    decreases s.len() - i,
{
    match next_value(s, i) {
        None => None,
        Some((v, e)) => {
            let t = gap_end(s, e);
            if has_at(s, t, ',' as u8) && i <= t {
                led_by(seq![s.subrange(v, e)], values_from(s, t + 1))
            } else {
                Some(seq![s.subrange(v, e)])
            }
        },
    }
}

/// The line is one value of JSON that starts with the byte `b`.
pub open spec fn is_one(s: Seq<u8>, b: u8) -> bool {
    match next_value(s, 0) {
        Some((v, e)) => has_at(s, v, b) && gap_end(s, e) == s.len(),
        None => false,
    }
}

/// All members of the JSON object that a line holds, in order; nothing when it
/// is not one object of JSON with readable names.
pub open spec fn raw_members(s: Seq<u8>) -> Option<RawMembers> {
    let i = gap_end(s, 0) + 1;
    if !is_one(s, '{' as u8) {
        None
    } else if has_at(s, gap_end(s, i), '}' as u8) {
        Some(Seq::empty())
    } else {
        members_from(s, i)
    }
}

/// The values of the JSON array that a line holds; nothing when it is not one
/// array of JSON.
pub open spec fn raw_values(s: Seq<u8>) -> Option<Seq<Seq<u8>>> {
    let i = gap_end(s, 0) + 1;
    if !is_one(s, '[' as u8) {
        None
    } else if has_at(s, gap_end(s, i), ']' as u8) {
        Some(Seq::empty())
    } else {
        values_from(s, i)
    }
}

/// Members as plain values.
pub open spec fn raw_members_view(v: Seq<(String, &[u8])>) -> RawMembers {
    Seq::new(v.len(), |i: int| (v[i].0@, v[i].1@))
}

/// Values as plain bytes.
pub open spec fn raw_values_view(v: Seq<&[u8]>) -> Seq<Seq<u8>> {
    Seq::new(v.len(), |i: int| v[i]@)
}

pub open spec fn opt_raw_members(m: Option<Vec<(String, &[u8])>>) -> Option<RawMembers> {
    match m {
        Some(v) => Some(raw_members_view(v@)),
        None => None,
    }
}

pub open spec fn opt_raw_values(m: Option<Vec<&[u8]>>) -> Option<Seq<Seq<u8>>> {
    match m {
        Some(v) => Some(raw_values_view(v@)),
        None => None,
    }
}

fn test_at(s: &[u8], i: usize, b: u8) -> (r: bool)
    ensures
        r == has_at(s@, i as int, b),
{
    i < s.len() && s[i] == b
}

fn find_value(s: &[u8], i: usize) -> (r: Option<(usize, usize)>)
    requires
        i <= s@.len(),
    ensures
        match r {
            Some((v, e)) => next_value(s@, i as int) == Some((v as int, e as int)) && i <= v < e
                <= s@.len(),
            None => next_value(s@, i as int) is None,
        },
{
    let v: usize = scan::skip(s, i, ByteClass::JsonGap);
    let rest: &[u8] = &s[v..s.len()];
    assert(rest@ =~= s@.skip(v as int));
    match skip_value(rest) {
        Some(n) => Some((v, v + n)),
        None => None,
    }
}

fn find_next_member<'a>(s: &'a [u8], i: usize) -> (r: Option<((String, &'a [u8]), usize)>)
    requires
        i <= s@.len(),
    ensures
        match r {
            Some((m, e)) => next_member(s@, i as int) == Some(((m.0@, m.1@), e as int)) && i < e
                <= s@.len(),
            None => next_member(s@, i as int) is None,
        },
{
    let k: usize = scan::skip(s, i, ByteClass::JsonGap);
    let rest: &[u8] = &s[k..s.len()];
    assert(rest@ =~= s@.skip(k as int));
    let (name, n) = match read_string(rest) {
        Some(x) => x,
        None => {
            return None;
        },
    };
    let colon: usize = scan::skip(s, k + n, ByteClass::JsonGap);
    if !test_at(s, colon, ':' as u8) {
        return None;
    }
    match find_value(s, colon + 1) {
        Some((v, e)) => Some(((name, &s[v..e]), e)),
        None => None,
    }
}

fn read_members<'a>(s: &'a [u8], from: usize) -> (r: Option<Vec<(String, &'a [u8])>>)
    requires
        from <= s@.len(),
    ensures
        opt_raw_members(r) == members_from(s@, from as int),
{
    let mut out: Vec<(String, &'a [u8])> = Vec::new();
    let size: usize = s.len();
    let mut i: usize = from;
    assert(led_by(raw_members_view(out@), members_from(s@, from as int)) == members_from(
        s@,
        from as int,
    )) by {
        if let Some(rest) = members_from(s@, from as int) {
            assert(raw_members_view(out@) + rest =~= rest);
        }
    }
    loop
        invariant
            size == s@.len(),
            from <= i <= s@.len(),
            members_from(s@, from as int) == led_by(
                raw_members_view(out@),
                members_from(s@, i as int),
            ),
        decreases s@.len() - i,
    {
        let ghost done = raw_members_view(out@);
        let (m, e) = match find_next_member(s, i) {
            Some(x) => x,
            None => {
                return None;
            },
        };
        let ghost one = (m.0@, m.1@);
        out.push(m);
        assert(raw_members_view(out@) =~= done + seq![one]);
        let t: usize = scan::skip(s, e, ByteClass::JsonGap);
        if !test_at(s, t, ',' as u8) {
            return Some(out);
        }
        proof {
            if let Some(rest) = members_from(s@, t + 1) {
                assert(done + (seq![one] + rest) =~= raw_members_view(out@) + rest);
            }
        }
        i = t + 1;
    }
}

fn read_values<'a>(s: &'a [u8], from: usize) -> (r: Option<Vec<&'a [u8]>>)
    requires
        from <= s@.len(),
    ensures
        opt_raw_values(r) == values_from(s@, from as int),
{
    let mut out: Vec<&'a [u8]> = Vec::new();
    let size: usize = s.len();
    let mut i: usize = from;
    assert(led_by(raw_values_view(out@), values_from(s@, from as int)) == values_from(
        s@,
        from as int,
    )) by {
        if let Some(rest) = values_from(s@, from as int) {
            assert(raw_values_view(out@) + rest =~= rest);
        }
    }
    loop
        invariant
            size == s@.len(),
            from <= i <= s@.len(),
            values_from(s@, from as int) == led_by(
                raw_values_view(out@),
                values_from(s@, i as int),
            ),
        decreases s@.len() - i,
    {
        let ghost done = raw_values_view(out@);
        let (v, e) = match find_value(s, i) {
            Some(x) => x,
            None => {
                return None;
            },
        };
        let value: &'a [u8] = &s[v..e];
        out.push(value);
        assert(raw_values_view(out@) =~= done + seq![value@]);
        let t: usize = scan::skip(s, e, ByteClass::JsonGap);
        if !test_at(s, t, ',' as u8) {
            return Some(out);
        }
        proof {
            if let Some(rest) = values_from(s@, t + 1) {
                assert(done + (seq![value@] + rest) =~= raw_values_view(out@) + rest);
            }
        }
        i = t + 1;
    }
}

fn test_one(s: &[u8], b: u8) -> (r: bool)
    ensures
        r == is_one(s@, b),
        r ==> gap_end(s@, 0) < s@.len(),
{
    match find_value(s, 0) {
        Some((v, e)) => test_at(s, v, b) && scan::skip(s, e, ByteClass::JsonGap) == s.len(),
        None => false,
    }
}

/// Find the members of the JSON object that a line holds.
pub fn find_members<'a>(s: &'a [u8]) -> (r: Option<Vec<(String, &'a [u8])>>)
    ensures
        opt_raw_members(r) == raw_members(s@),
{
    if !test_one(s, '{' as u8) {
        return None;
    }
    let first: usize = scan::skip(s, 0, ByteClass::JsonGap);
    assert(first < s.len());
    let i: usize = first + 1;
    if test_at(s, scan::skip(s, i, ByteClass::JsonGap), '}' as u8) {
        let none: Vec<(String, &'a [u8])> = Vec::new();
        assert(raw_members_view(none@) =~= Seq::empty());
        return Some(none);
    }
    read_members(s, i)
}

/// Find the values of the JSON array that a line holds.
pub fn find_values<'a>(s: &'a [u8]) -> (r: Option<Vec<&'a [u8]>>)
    ensures
        opt_raw_values(r) == raw_values(s@),
{
    if !test_one(s, '[' as u8) {
        return None;
    }
    let first: usize = scan::skip(s, 0, ByteClass::JsonGap);
    assert(first < s.len());
    let i: usize = first + 1;
    if test_at(s, scan::skip(s, i, ByteClass::JsonGap), ']' as u8) {
        let none: Vec<&'a [u8]> = Vec::new();
        assert(raw_values_view(none@) =~= Seq::empty());
        return Some(none);
    }
    read_values(s, i)
}

/// What the members called by one name come to.
pub enum Lookup {
    Missing,
    Once(Seq<u8>),
    Repeated,
}

/// What the members called `name` at or after `i` come to.
pub open spec fn lookup_from(m: RawMembers, name: Seq<char>, i: int) -> Lookup
    decreases m.len() - i,
{
    if !(0 <= i < m.len()) {
        Lookup::Missing
    } else {
        let rest = lookup_from(m, name, i + 1);
        if m[i].0 != name {
            rest
        } else if rest is Missing {
            Lookup::Once(m[i].1)
        } else {
            Lookup::Repeated
        }
    }
}

/// What the members called `name` come to.
pub open spec fn lookup(m: RawMembers, name: Seq<char>) -> Lookup {
    lookup_from(m, name, 0)
}

/// The result of looking up a member that must not repeat.
pub(crate) enum LookupRef<'a> {
    Missing,
    Once(&'a [u8]),
    Repeated,
}

impl<'a> LookupRef<'a> {
    pub(crate) open spec fn lookup(self) -> Lookup {
        match self {
            LookupRef::Missing => Lookup::Missing,
            LookupRef::Once(b) => Lookup::Once(b@),
            LookupRef::Repeated => Lookup::Repeated,
        }
    }
}

/// Look up a member that must not repeat.
pub(crate) fn find_once<'a>(m: &Vec<(String, &'a [u8])>, name: &str) -> (r: LookupRef<'a>)
    ensures
        r.lookup() == lookup(raw_members_view(m@), name@),
{
    let mut found: LookupRef<'a> = LookupRef::Missing;
    let mut i: usize = m.len();
    while i > 0
        invariant
            i <= m@.len(),
            found.lookup() == lookup_from(raw_members_view(m@), name@, i as int),
        decreases i,
    {
        i = i - 1;
        if text::str_eq(m[i].0.as_str(), name) {
            found = match found {
                LookupRef::Missing => LookupRef::Once(m[i].1),
                _ => LookupRef::Repeated,
            };
        }
    }
    found
}

} // verus!
