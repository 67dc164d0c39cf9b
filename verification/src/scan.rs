//! Byte-level scanning shared by every line parser.
//!
//! Positions are plain indices into one line. A scan is described by the
//! [`ByteClass`] it runs over, and its result by [`run_end`].

use vstd::prelude::*;

verus! {

/// A set of bytes that a scan may run over.
#[derive(Clone, Copy)]
pub enum ByteClass {
    /// `0` to `9`.
    Digit,
    /// ASCII letters.
    Alpha,
    /// Exactly this byte.
    Only(u8),
    /// Every byte but this one.
    Except(u8),
    /// Every byte but these two.
    ExceptEither(u8, u8),
    /// Every byte but these three.
    ExceptAny(u8, u8, u8),
    /// Space and horizontal tab.
    Blank,
    /// Space, tab, line feed, form feed and carriage return.
    Whitespace,
    /// Space, tab, line feed and carriage return: what stands between the
    /// tokens of JSON.
    JsonGap,
    /// Letters, digits, `_` and `.`: what a bare logfmt key is made of.
    Word,
    /// EDN separators: space, tab, line feed, carriage return, comma.
    EdnGap,
    /// Every byte that does not end an EDN token.
    EdnToken,
    /// Letters, digits, `_`, `.`, `@` and `-`: what a query's field name is
    /// made of.
    FieldName,
    /// Every byte but white space and `)`: a bare query value.
    BareValue,
}

impl ByteClass {
    pub open spec fn has(self, b: u8) -> bool {
        match self {
            ByteClass::Digit => '0' as u8 <= b <= '9' as u8,
            ByteClass::Alpha => is_alpha(b),
            ByteClass::Only(x) => b == x,
            ByteClass::Except(x) => b != x,
            ByteClass::ExceptEither(x, y) => b != x && b != y,
            ByteClass::ExceptAny(x, y, z) => b != x && b != y && b != z,
            ByteClass::Blank => b == ' ' as u8 || b == '\t' as u8,
            ByteClass::Whitespace => is_ascii_whitespace(b),
            ByteClass::JsonGap => b == ' ' as u8 || b == '\t' as u8 || b == '\n' as u8 || b
                == '\r' as u8,
            ByteClass::Word => is_alpha(b) || '0' as u8 <= b <= '9' as u8 || b == '_' as u8
                || b == '.' as u8,
            ByteClass::EdnGap => is_edn_gap(b),
            ByteClass::EdnToken => !is_edn_gap(b) && !is_edn_bracket(b),
            ByteClass::FieldName => is_alpha(b) || '0' as u8 <= b <= '9' as u8 || b == '_' as u8
                || b == '.' as u8 || b == '@' as u8 || b == '-' as u8,
            ByteClass::BareValue => !is_ascii_whitespace(b) && b != ')' as u8,
        }
    }

    pub fn test(self, b: u8) -> (r: bool)
        ensures
            r == self.has(b),
    {
        match self {
            ByteClass::Digit => '0' as u8 <= b && b <= '9' as u8,
            ByteClass::Alpha => test_alpha(b),
            ByteClass::Only(x) => b == x,
            ByteClass::Except(x) => b != x,
            ByteClass::ExceptEither(x, y) => b != x && b != y,
            ByteClass::ExceptAny(x, y, z) => b != x && b != y && b != z,
            ByteClass::Blank => b == ' ' as u8 || b == '\t' as u8,
            ByteClass::Whitespace => b == ' ' as u8 || b == '\t' as u8 || b == '\n' as u8 || b == 12
                || b == '\r' as u8,
            ByteClass::JsonGap => b == ' ' as u8 || b == '\t' as u8 || b == '\n' as u8 || b
                == '\r' as u8,
            ByteClass::Word => test_alpha(b) || ('0' as u8 <= b && b <= '9' as u8) || b == '_' as u8
                || b == '.' as u8,
            ByteClass::EdnGap => test_edn_gap(b),
            ByteClass::EdnToken => !test_edn_gap(b) && !test_edn_bracket(b),
            ByteClass::FieldName => test_alpha(b) || ('0' as u8 <= b && b <= '9' as u8) || b
                == '_' as u8 || b == '.' as u8 || b == '@' as u8 || b == '-' as u8,
            ByteClass::BareValue => !(b == ' ' as u8 || b == '\t' as u8 || b == '\n' as u8 || b == 12
                || b == '\r' as u8) && b != ')' as u8,
        }
    }
}

pub open spec fn is_alpha(b: u8) -> bool {
    'a' as u8 <= b <= 'z' as u8 || 'A' as u8 <= b <= 'Z' as u8
}

pub open spec fn is_ascii_whitespace(b: u8) -> bool {
    b == ' ' as u8 || b == '\t' as u8 || b == '\n' as u8 || b == 12 || b == '\r' as u8
}

pub open spec fn is_edn_gap(b: u8) -> bool {
    b == ' ' as u8 || b == '\t' as u8 || b == '\n' as u8 || b == '\r' as u8 || b == ',' as u8
}

pub open spec fn is_edn_bracket(b: u8) -> bool {
    b == '{' as u8 || b == '}' as u8 || b == '[' as u8 || b == ']' as u8 || b == '(' as u8 || b
        == ')' as u8
}

pub(crate) fn test_alpha(b: u8) -> (r: bool)
    ensures
        r == is_alpha(b),
{
    ('a' as u8 <= b && b <= 'z' as u8) || ('A' as u8 <= b && b <= 'Z' as u8)
}

fn test_edn_gap(b: u8) -> (r: bool)
    ensures
        r == is_edn_gap(b),
{
    b == ' ' as u8 || b == '\t' as u8 || b == '\n' as u8 || b == '\r' as u8 || b == ',' as u8
}

fn test_edn_bracket(b: u8) -> (r: bool)
    ensures
        r == is_edn_bracket(b),
{
    b == '{' as u8 || b == '}' as u8 || b == '[' as u8 || b == ']' as u8 || b == '(' as u8 || b
        == ')' as u8
}

/// The first index at or after `i` whose byte lies outside `class`, or the
/// length when the run reaches the end.
pub open spec fn run_end(s: Seq<u8>, i: int, class: ByteClass) -> int
    decreases s.len() - i,
{
    if 0 <= i < s.len() && class.has(s[i]) {
        run_end(s, i + 1, class)
    } else {
        i
    }
}

/// A run stays inside the line, covers only its class, and stops at the first
/// byte outside it.
pub proof fn lemma_run_end(s: Seq<u8>, i: int, class: ByteClass)
    requires
        0 <= i <= s.len(),
    ensures
        i <= run_end(s, i, class) <= s.len(),
        forall|k: int| i <= k < run_end(s, i, class) ==> class.has(#[trigger] s[k]),
        run_end(s, i, class) < s.len() ==> !class.has(s[run_end(s, i, class)]),
    decreases s.len() - i,
{
    if i < s.len() && class.has(s[i]) {
        lemma_run_end(s, i + 1, class);
    }
}

/// A run that covers only its class and stops outside it ends there.
pub proof fn lemma_run_end_at(s: Seq<u8>, i: int, j: int, class: ByteClass)
    requires
        0 <= i <= j <= s.len(),
        forall|k: int| i <= k < j ==> class.has(#[trigger] s[k]),
        j < s.len() ==> !class.has(s[j]),
    ensures
        run_end(s, i, class) == j,
    decreases j - i,
{
    if i < j {
        assert(class.has(s[i]));
        lemma_run_end_at(s, i + 1, j, class);
    }
}

/// The bytes of `t` stand in `s` at `p`.
#[verifier::opaque]
pub open spec fn stands(s: Seq<u8>, p: int, t: Seq<u8>) -> bool {
    &&& 0 <= p
    &&& p + t.len() <= s.len()
    &&& forall|k: int| 0 <= k < t.len() ==> s[p + k] == #[trigger] t[k]
}

pub proof fn lemma_whole(s: Seq<u8>)
    ensures
        stands(s, 0, s),
{
    reveal(stands);
}

/// Where two texts stand one behind the other, each stands.
pub proof fn lemma_halves(s: Seq<u8>, p: int, t: Seq<u8>, u: Seq<u8>)
    requires
        stands(s, p, t + u),
    ensures
        stands(s, p, t),
        stands(s, p + t.len(), u),
        0 <= p,
        p + t.len() + u.len() <= s.len(),
{
    reveal(stands);
    let tu = t + u;
    assert forall|k: int| 0 <= k < t.len() implies s[p + k] == #[trigger] t[k] by {
        assert(tu[k] == t[k]);
    }
    assert forall|k: int| 0 <= k < u.len() implies s[p + t.len() + k] == #[trigger] u[k] by {
        assert(tu[t.len() + k] == u[k]);
        assert(s[p + (t.len() + k)] == tu[t.len() + k]);
    }
}

/// One byte of a text that stands.
pub proof fn lemma_stands_byte(s: Seq<u8>, p: int, t: Seq<u8>, k: int)
    requires
        stands(s, p, t),
        0 <= k < t.len(),
    ensures
        0 <= p + k < s.len(),
        s[p + k] == t[k],
{
    reveal(stands);
}

/// The bytes between the ends of a text that stands are the text.
pub proof fn lemma_stands_subrange(s: Seq<u8>, p: int, t: Seq<u8>)
    requires
        stands(s, p, t),
    ensures
        s.subrange(p, p + t.len()) == t,
{
    reveal(stands);
    assert(s.subrange(p, p + t.len()) =~= t) by {
        assert forall|k: int| 0 <= k < t.len() implies s.subrange(p, p + t.len())[k]
            == #[trigger] t[k] by {
            assert(s[p + k] == t[k]);
        }
    }
}

/// A run over a whole text that stands, stopped behind it.
pub proof fn lemma_stands_run(s: Seq<u8>, p: int, t: Seq<u8>, class: ByteClass)
    requires
        stands(s, p, t),
        forall|k: int| 0 <= k < t.len() ==> class.has(#[trigger] t[k]),
        p + t.len() < s.len() ==> !class.has(s[p + t.len()]),
    ensures
        run_end(s, p, class) == p + t.len(),
{
    reveal(stands);
    assert forall|k: int| p <= k < p + t.len() implies class.has(#[trigger] s[k]) by {
        assert(s[p + (k - p)] == t[k - p]);
    }
    lemma_run_end_at(s, p, p + t.len(), class);
}

/// Walk from `i` over `class`.
pub fn skip(s: &[u8], i: usize, class: ByteClass) -> (r: usize)
    requires
        i <= s@.len(),
    ensures
        r == run_end(s@, i as int, class),
        i <= r <= s@.len(),
        r < s@.len() ==> !class.has(s@[r as int]),
{
    let mut j: usize = i;
    while j < s.len() && class.test(s[j])
        invariant
            i <= j <= s@.len(),
            run_end(s@, i as int, class) == run_end(s@, j as int, class),
        decreases s@.len() - j,
    {
        j = j + 1;
    }
    j
}

/// The last end at or before `e` (and not before `lo`) whose preceding byte
/// lies outside `class`.
pub open spec fn run_start(s: Seq<u8>, lo: int, e: int, class: ByteClass) -> int
    decreases e - lo,
{
    if lo < e <= s.len() && class.has(s[e - 1]) {
        run_start(s, lo, e - 1, class)
    } else {
        e
    }
}

/// `s` without leading and trailing ASCII whitespace.
pub open spec fn trimmed(s: Seq<u8>) -> Seq<u8> {
    let lo = run_end(s, 0, ByteClass::Whitespace);
    s.subrange(lo, run_start(s, lo, s.len() as int, ByteClass::Whitespace))
}

/// White space behind a text is trimmed away.
pub proof fn lemma_trimmed_end(s: Seq<u8>, blanks: Seq<u8>)
    requires
        forall|k: int|
            0 <= k < blanks.len() ==> ByteClass::Whitespace.has(#[trigger] blanks[k]),
    ensures
        trimmed(s + blanks) == trimmed(s),
    decreases blanks.len(),
{
    if blanks.len() > 0 {
        let fewer = blanks.drop_last();
        lemma_trimmed_end(s, fewer);
        let t = s + fewer;
        let b = blanks[blanks.len() - 1];
        assert(s + blanks =~= t.push(b));
        lemma_trimmed_push(t, b);
    } else {
        assert(s + blanks =~= s);
    }
}

proof fn lemma_trimmed_push(t: Seq<u8>, b: u8)
    requires
        ByteClass::Whitespace.has(b),
    ensures
        trimmed(t.push(b)) =~= trimmed(t),
{
    let u = t.push(b);
    let class = ByteClass::Whitespace;
    lemma_run_end(t, 0, class);
    let lo = run_end(t, 0, class);
    if lo < t.len() {
        assert forall|k: int| 0 <= k < lo implies class.has(#[trigger] u[k]) by {
            assert(u[k] == t[k]);
        }
        assert(u[lo] == t[lo]);
        lemma_run_end_at(u, 0, lo, class);
        lemma_run_start_prefix(t, u, lo, t.len() as int);
        lemma_run_start_range(t, lo, t.len() as int, class);
        assert(u[u.len() - 1] == b);
    } else {
        assert forall|k: int| 0 <= k < u.len() implies class.has(#[trigger] u[k]) by {
            if k < t.len() {
                assert(u[k] == t[k]);
            }
        }
        lemma_run_end_at(u, 0, u.len() as int, class);
    }
}

pub proof fn lemma_run_start_range(s: Seq<u8>, lo: int, e: int, class: ByteClass)
    requires
        0 <= lo <= e <= s.len(),
    ensures
        lo <= run_start(s, lo, e, class) <= e,
    decreases e - lo,
{
    if lo < e && class.has(s[e - 1]) {
        lemma_run_start_range(s, lo, e - 1, class);
    }
}

proof fn lemma_run_start_prefix(t: Seq<u8>, u: Seq<u8>, lo: int, e: int)
    requires
        0 <= lo <= e <= t.len() <= u.len(),
        forall|k: int| 0 <= k < t.len() ==> #[trigger] t[k] == u[k],
    ensures
        run_start(u, lo, e, ByteClass::Whitespace) == run_start(t, lo, e, ByteClass::Whitespace),
    decreases e - lo,
{
    if lo < e {
        assert(t[e - 1] == u[e - 1]);
        lemma_run_start_prefix(t, u, lo, e - 1);
    }
}

/// Strip leading and trailing ASCII whitespace.
pub fn trim_ascii<'a>(s: &'a [u8]) -> (r: &'a [u8])
    ensures
        r@ == trimmed(s@),
{
    let lo: usize = skip(s, 0, ByteClass::Whitespace);
    let mut e: usize = s.len();
    while lo < e && ByteClass::Whitespace.test(s[e - 1])
        invariant
            lo <= e <= s@.len(),
            run_start(s@, lo as int, s@.len() as int, ByteClass::Whitespace) == run_start(
                s@,
                lo as int,
                e as int,
                ByteClass::Whitespace,
            ),
        decreases e,
    {
        e = e - 1;
    }
    &s[lo..e]
}

/// Byte-wise equality.
pub fn bytes_eq(a: &[u8], b: &[u8]) -> (r: bool)
    ensures
        r == (a@ == b@),
{
    if a.len() != b.len() {
        return false;
    }
    let mut i: usize = 0;
    while i < a.len()
        invariant
            a@.len() == b@.len(),
            i <= a@.len(),
            forall|k: int| 0 <= k < i ==> a@[k] == b@[k],
        decreases a@.len() - i,
    {
        if a[i] != b[i] {
            return false;
        }
        i = i + 1;
    }
    assert(a@ =~= b@);
    true
}

/// Copy a slice.
pub fn copied(s: &[u8]) -> (r: Vec<u8>)
    ensures
        r@ == s@,
{
    let mut out: Vec<u8> = Vec::new();
    let mut i: usize = 0;
    while i < s.len()
        invariant
            i <= s@.len(),
            out@ == s@.subrange(0, i as int),
        decreases s@.len() - i,
    {
        out.push(s[i]);
        i = i + 1;
    }
    assert(s@.subrange(0, s@.len() as int) =~= s@);
    out
}

/// Append a slice.
pub fn append(out: &mut Vec<u8>, s: &[u8])
    ensures
        final(out)@ == old(out)@ + s@,
{
    let mut i: usize = 0;
    while i < s.len()
        invariant
            i <= s@.len(),
            out@ == old(out)@ + s@.subrange(0, i as int),
        decreases s@.len() - i,
    {
        out.push(s[i]);
        i = i + 1;
    }
    assert(s@.subrange(0, s@.len() as int) =~= s@);
}

/// The lower-case form of an ASCII letter; any other byte unchanged.
pub open spec fn lower(b: u8) -> u8 {
    if 'A' as u8 <= b <= 'Z' as u8 {
        (b + 32) as u8
    } else {
        b
    }
}

/// Equality up to ASCII case.
pub open spec fn same_ignoring_case(a: Seq<u8>, b: Seq<u8>) -> bool {
    a.len() == b.len() && forall|i: int| 0 <= i < a.len() ==> lower(#[trigger] a[i]) == lower(b[i])
}

fn lowered(b: u8) -> (r: u8)
    ensures
        r == lower(b),
{
    if 'A' as u8 <= b && b <= 'Z' as u8 {
        b + 32
    } else {
        b
    }
}

pub fn eq_ignore_ascii_case(a: &[u8], b: &[u8]) -> (r: bool)
    ensures
        r == same_ignoring_case(a@, b@),
{
    if a.len() != b.len() {
        return false;
    }
    let mut i: usize = 0;
    while i < a.len()
        invariant
            a@.len() == b@.len(),
            i <= a@.len(),
            forall|k: int| 0 <= k < i ==> lower(#[trigger] a@[k]) == lower(b@[k]),
        decreases a@.len() - i,
    {
        if lowered(a[i]) != lowered(b[i]) {
            return false;
        }
        i = i + 1;
    }
    true
}

/// `needle` occurs in `s` at index `i`.
pub open spec fn occurs_at(s: Seq<u8>, needle: Seq<u8>, i: int) -> bool {
    0 <= i && i + needle.len() <= s.len() && s.subrange(i, i + needle.len()) == needle
}

/// `needle` occurs somewhere in `s`.
pub open spec fn occurs(s: Seq<u8>, needle: Seq<u8>) -> bool {
    exists|i: int| occurs_at(s, needle, i)
}

pub fn contains_subslice(s: &[u8], needle: &[u8]) -> (r: bool)
    ensures
        r == (needle@.len() > 0 && occurs(s@, needle@)),
{
    if needle.len() == 0 || s.len() < needle.len() {
        return false;
    }
    let mut i: usize = 0;
    while i <= s.len() - needle.len()
        invariant
            0 < needle@.len() <= s@.len(),
            i <= s@.len() - needle@.len() + 1,
            forall|k: int| 0 <= k < i ==> !occurs_at(s@, needle@, k),
        decreases s@.len() - i,
    {
        if bytes_eq(&s[i..i + needle.len()], needle) {
            assert(occurs_at(s@, needle@, i as int));
            return true;
        }
        i = i + 1;
    }
    false
}

/// The first index at or after `from` where ` - ` stands.
pub open spec fn dash_at(s: Seq<u8>, from: int) -> Option<int>
    decreases s.len() - from,
{
    if !(0 <= from && from + 2 < s.len()) {
        None
    } else if s[from] == ' ' as u8 && s[from + 1] == '-' as u8 && s[from + 2] == ' ' as u8 {
        Some(from)
    } else {
        dash_at(s, from + 1)
    }
}

/// Find the first ` - ` at or after `from`.
pub fn find_dash(s: &[u8], from: usize) -> (r: Option<usize>)
    ensures
        match r {
            Some(i) => dash_at(s@, from as int) == Some(i as int) && from <= i && i + 3 <= s@.len()
                && i + 3 <= usize::MAX,
            None => dash_at(s@, from as int) is None,
        },
{
    let mut i: usize = from;
    while i < s.len() && s.len() - i > 2
        invariant
            from <= i,
            dash_at(s@, from as int) == dash_at(s@, i as int),
        decreases s@.len() - i,
    {
        if s[i] == ' ' as u8 && s[i + 1] == '-' as u8 && s[i + 2] == ' ' as u8 {
            return Some(i);
        }
        i = i + 1;
    }
    None
}

/// The value of a digit string, most significant digit first.
pub open spec fn decimal(s: Seq<u8>) -> nat
    decreases s.len(),
{
    if s.len() == 0 {
        0
    } else {
        decimal(s.drop_last()) * 10 + (s.last() - '0' as u8) as nat
    }
}

pub open spec fn all_digits(s: Seq<u8>) -> bool {
    forall|i: int| 0 <= i < s.len() ==> ByteClass::Digit.has(#[trigger] s[i])
}

/// A prefix of a digit string has a value no larger than the whole.
pub proof fn lemma_decimal_grows(s: Seq<u8>, n: int)
    requires
        0 <= n <= s.len(),
    ensures
        decimal(s.subrange(0, n)) <= decimal(s),
    decreases s.len(),
{
    if n == s.len() {
        assert(s.subrange(0, n) =~= s);
    } else {
        lemma_decimal_grows(s.drop_last(), n);
        assert(s.drop_last().subrange(0, n) =~= s.subrange(0, n));
    }
}

/// Parse a run of digits as an unsigned number. Empty input is zero; a
/// non-digit, or a value above `max`, gives `None`.
pub fn parse_decimal(s: &[u8], max: u64) -> (r: Option<u64>)
    ensures
        r is Some <==> all_digits(s@) && decimal(s@) <= max,
        r matches Some(v) ==> v == decimal(s@),
{
    let mut acc: u64 = 0;
    let mut i: usize = 0;
    while i < s.len()
        invariant
            i <= s@.len(),
            acc <= max,
            acc == decimal(s@.subrange(0, i as int)),
            forall|k: int| 0 <= k < i ==> ByteClass::Digit.has(#[trigger] s@[k]),
        decreases s@.len() - i,
    {
        if !ByteClass::Digit.test(s[i]) {
            assert(!ByteClass::Digit.has(s@[i as int]));
            return None;
        }
        assert(s@.subrange(0, i + 1).drop_last() =~= s@.subrange(0, i as int));
        let wide: u128 = acc as u128 * 10 + (s[i] - '0' as u8) as u128;
        if wide > max as u128 {
            proof {
                lemma_decimal_grows(s@, i + 1);
            }
            return None;
        }
        acc = wide as u64;
        i = i + 1;
    }
    assert(s@.subrange(0, s@.len() as int) =~= s@);
    Some(acc)
}

/// ` - ` behind a text is the first one there.
pub open spec fn ends_at_dash(t: Seq<u8>) -> bool {
    let u = t + seq![' ' as u8, '-' as u8, ' ' as u8];
    forall|k: int|
        0 <= k < t.len() ==> !(#[trigger] u[k] == ' ' as u8 && u[k + 1] == '-' as u8 && u[k + 2]
            == ' ' as u8)
}

/// The first ` - ` from the start of a text on stands behind it.
pub proof fn lemma_dash_behind(s: Seq<u8>, i: int, t: Seq<u8>)
    requires
        ends_at_dash(t),
        stands(s, i, t + seq![' ' as u8, '-' as u8, ' ' as u8]),
    ensures
        dash_at(s, i) == Some(i + t.len()),
        0 <= i,
        i + t.len() + 3 <= s.len(),
{
    lemma_dash_from(s, i, t, 0);
    reveal(stands);
}

proof fn lemma_dash_from(s: Seq<u8>, i: int, t: Seq<u8>, k: int)
    requires
        ends_at_dash(t),
        stands(s, i, t + seq![' ' as u8, '-' as u8, ' ' as u8]),
        0 <= k <= t.len(),
    ensures
        dash_at(s, i + k) == Some(i + t.len()),
    decreases t.len() - k,
{
    let u = t + seq![' ' as u8, '-' as u8, ' ' as u8];
    lemma_stands_byte(s, i, u, k);
    lemma_stands_byte(s, i, u, k + 1);
    lemma_stands_byte(s, i, u, k + 2);
    if k < t.len() {
        assert(!(u[k] == ' ' as u8 && u[k + 1] == '-' as u8 && u[k + 2] == ' ' as u8));
        lemma_dash_from(s, i, t, k + 1);
    }
}

/// Two bytes are the same up to case when they are equal, or one is an ASCII
/// capital and the other the small letter 32 places behind it.
pub proof fn law_case_is_a_shift_of_letters(a: u8, b: u8)
    ensures
        lower(a) == lower(b) <==> a == b || ('A' as u8 <= a <= 'Z' as u8 && b == a + 32) || ('A' as u8
            <= b <= 'Z' as u8 && a == b + 32),
{
}

} // verus!
