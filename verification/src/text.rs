//! Text helpers over the standard library's UTF-8 functions.

use vstd::prelude::*;
use vstd::utf8;

use crate::number;
use crate::scan;

verus! {

/// The UTF-8 encoding of a text.
pub open spec fn enc(s: Seq<char>) -> Seq<u8> {
    utf8::encode_utf8(s)
}

/// What lossy UTF-8 decoding makes of a byte string.
pub uninterp spec fn utf8_lossy(bytes: Seq<u8>) -> Seq<char>;

/// `String::from_utf8_lossy`, owned. The result is a function of the bytes;
/// on valid UTF-8 it is the text that the bytes encode.
#[verifier::external_body]
pub(crate) fn from_utf8_lossy(b: &[u8]) -> (r: String)
    ensures
        r@ == utf8_lossy(b@),
        utf8::valid_utf8(b@) ==> r@ == utf8::decode_utf8(b@),
{
    String::from_utf8_lossy(b).into_owned()
}

/// `std::str::from_utf8`: the text that the bytes encode, or nothing when they
/// are not valid UTF-8.
#[verifier::external_body]
pub(crate) fn from_utf8(b: &[u8]) -> (r: Option<&str>)
    ensures
        r is Some <==> utf8::valid_utf8(b@),
        r matches Some(s) ==> s@ == utf8::decode_utf8(b@),
{
    std::str::from_utf8(b).ok()
}

/// The text that `b` encodes, if it is valid UTF-8.
pub open spec fn decoded(b: Seq<u8>) -> Option<Seq<char>> {
    if utf8::valid_utf8(b) {
        Some(utf8::decode_utf8(b))
    } else {
        None
    }
}

/// The text that lossy decoding makes of `b`: on valid UTF-8, the text that it
/// encodes.
pub open spec fn lossy(b: Seq<u8>) -> Seq<char> {
    match decoded(b) {
        Some(t) => t,
        None => utf8_lossy(b),
    }
}

/// Decoding an encoded text gives it back.
pub proof fn lemma_lossy_of_text(t: Seq<char>)
    ensures
        utf8::valid_utf8(enc(t)),
        decoded(enc(t)) == Some(t),
        lossy(enc(t)) == t,
{
    utf8::encode_utf8_valid_utf8(t);
    utf8::encode_utf8_decode_utf8(t);
}

/// The encoding of two texts, one behind the other.
pub proof fn lemma_enc_concat(s: Seq<char>, t: Seq<char>)
    ensures
        enc(s + t) == enc(s) + enc(t),
    decreases s.len(),
{
    if s.len() == 0 {
        assert(s + t =~= t);
        assert(enc(s) + enc(t) =~= enc(t));
    } else {
        let rest = s.drop_first();
        assert((s + t).drop_first() =~= rest + t);
        assert((s + t)[0] == s[0]);
        lemma_enc_concat(rest, t);
        let head = utf8::encode_scalar(s[0] as u32);
        assert(head + (enc(rest) + enc(t)) =~= head + enc(rest) + enc(t));
    }
}

/// The view of an optional owned string.
pub open spec fn opt_view(s: Option<String>) -> Option<Seq<char>> {
    match s {
        Some(x) => Some(x@),
        None => None,
    }
}

/// Scalar values with the Unicode property White_Space.
pub open spec fn is_white_scalar(u: u32) -> bool {
    9 <= u <= 13 || u == 0x20 || u == 0x85 || u == 0xa0 || u == 0x1680 || 0x2000 <= u <= 0x200a || u
        == 0x2028 || u == 0x2029 || u == 0x202f || u == 0x205f || u == 0x3000
}

/// Characters with the Unicode property White_Space.
pub open spec fn is_white(c: char) -> bool {
    is_white_scalar(c as u32)
}

fn test_white_scalar(u: u32) -> (r: bool)
    ensures
        r == is_white_scalar(u),
{
    (9 <= u && u <= 13) || u == 0x20 || u == 0x85 || u == 0xa0 || u == 0x1680 || (0x2000 <= u && u
        <= 0x200a) || u == 0x2028 || u == 0x2029 || u == 0x202f || u == 0x205f || u == 0x3000
}

/// The byte string starts with a white space character.
pub open spec fn starts_white(b: Seq<u8>) -> bool {
    utf8::valid_first_scalar(b) && is_white_scalar(utf8::decode_first_scalar(b))
}

/// Index behind the white space characters at `i`, Unicode's included.
pub open spec fn past_white(b: Seq<u8>, i: int) -> int
    decreases b.len() - i,
{
    if 0 <= i < b.len() && starts_white(b.skip(i)) {
        past_white(b, i + utf8::length_of_first_scalar(b.skip(i)))
    } else {
        i
    }
}

/// What the bytes of a character say, without masks.
proof fn lemma_scalar_bits(a: u8, b: u8, c: u8)
    ensures
        a <= 0x7f ==> utf8::codepoint_width_1(a) == a,
        0xc0 <= a <= 0xdf && 0x80 <= b <= 0xbf ==> utf8::codepoint_width_2(a, b) == (a - 0xc0) * 64
            + (b - 0x80),
        0xe0 <= a <= 0xef && 0x80 <= b <= 0xbf && 0x80 <= c <= 0xbf ==> utf8::codepoint_width_3(
            a,
            b,
            c,
        ) == (a - 0xe0) * 4_096 + (b - 0x80) * 64 + (c - 0x80),
{
    assert(a <= 0x7f ==> (a & 0x7f) as u32 == a) by (bit_vector);
    assert(0xc0 <= a <= 0xdf && 0x80 <= b <= 0xbf ==> ((a & 0x1f) as u32) << 6 | ((b & 0x3f) as u32)
        == (a - 0xc0) * 64 + (b - 0x80)) by (bit_vector);
    assert(0xe0 <= a <= 0xef && 0x80 <= b <= 0xbf && 0x80 <= c <= 0xbf ==> ((a & 0x0f) as u32) << 12
        | ((b & 0x3f) as u32) << 6 | ((c & 0x3f) as u32) == (a - 0xe0) * 4_096 + (b - 0x80) * 64 + (
    c - 0x80)) by (bit_vector);
}

/// An ASCII byte is white space by its own value.
pub proof fn lemma_ascii_white(b: Seq<u8>, i: int)
    requires
        0 <= i < b.len(),
        b[i] < 0x80,
    ensures
        starts_white(b.skip(i)) == is_white_scalar(b[i] as u32),
        utf8::length_of_first_scalar(b.skip(i)) == 1,
{
    lemma_scalar_bits(b[i], 0, 0);
}

/// White space ends behind its start, and inside the text.
pub proof fn lemma_past_white(b: Seq<u8>, i: int)
    requires
        0 <= i <= b.len(),
    ensures
        i <= past_white(b, i) <= b.len(),
    decreases b.len() - i,
{
    if i < b.len() && starts_white(b.skip(i)) {
        lemma_past_white(b, i + utf8::length_of_first_scalar(b.skip(i)));
    }
}

/// The bytes that the white space character at `i` takes up; none where
/// something else stands there.
fn white_width(b: &[u8], i: usize) -> (r: usize)
    requires
        i < b@.len(),
    ensures
        starts_white(b@.skip(i as int)) == (r > 0),
        r > 0 ==> r == utf8::length_of_first_scalar(b@.skip(i as int)),
        i + r <= b@.len(),
{
    let ghost s = b@.skip(i as int);
    let x: u8 = b[i];
    proof {
        lemma_scalar_bits(x, if s.len() > 1 { s[1] } else { 0 }, if s.len() > 2 { s[2] } else { 0 });
    }
    let left: usize = b.len() - i;
    if x <= 0x7f {
        if test_white_scalar(x as u32) {
            return 1;
        }
    } else if 0xc0 <= x && x <= 0xdf && left > 1 {
        let y: u8 = b[i + 1];
        if 0x80 <= y && y <= 0xbf {
            let u: u32 = (x - 0xc0) as u32 * 64 + (y - 0x80) as u32;
            if u >= 0x80 && test_white_scalar(u) {
                return 2;
            }
        }
    } else if 0xe0 <= x && x <= 0xef && left > 2 {
        let y: u8 = b[i + 1];
        let z: u8 = b[i + 2];
        if 0x80 <= y && y <= 0xbf && 0x80 <= z && z <= 0xbf {
            let u: u32 = (x - 0xe0) as u32 * 4_096 + (y - 0x80) as u32 * 64 + (z - 0x80) as u32;
            if u >= 0x800 && test_white_scalar(u) {
                return 3;
            }
        }
    }
    0
}

/// Step over the white space characters at `i`, as `str::trim_start` does.
pub(crate) fn skip_white(b: &[u8], i: usize) -> (r: usize)
    requires
        i <= b@.len(),
    ensures
        r == past_white(b@, i as int),
        i <= r <= b@.len(),
{
    let mut j: usize = i;
    while j < b.len()
        invariant
            i <= j <= b@.len(),
            past_white(b@, i as int) == past_white(b@, j as int),
        decreases b@.len() - j,
    {
        let w: usize = white_width(b, j);
        if w == 0 {
            return j;
        }
        j = j + w;
    }
    j
}

/// Index of the first character at or after `i` that is not white space.
pub open spec fn white_end(s: Seq<char>, i: int) -> int
    decreases s.len() - i,
{
    if 0 <= i < s.len() && is_white(s[i]) {
        white_end(s, i + 1)
    } else {
        i
    }
}

/// The last end at or before `e`, not before `lo`, that white space does not
/// precede.
pub open spec fn white_start(s: Seq<char>, lo: int, e: int) -> int
    decreases e - lo,
{
    if lo < e <= s.len() && is_white(s[e - 1]) {
        white_start(s, lo, e - 1)
    } else {
        e
    }
}

/// `s` without leading and trailing white space.
pub open spec fn trimmed(s: Seq<char>) -> Seq<char> {
    let lo = white_end(s, 0);
    s.subrange(lo, white_start(s, lo, s.len() as int))
}

/// `str::trim`: strips leading and trailing characters that have the Unicode
/// property White_Space.
pub assume_specification[ str::trim ](s: &str) -> (r: &str)
    ensures
        r@ == trimmed(s@),
;

/// The texts of a list of strings.
pub open spec fn texts(v: Seq<String>) -> Seq<Seq<char>> {
    Seq::new(v.len(), |i: int| v[i]@)
}

/// Decode as an owned string.
pub(crate) fn decode_owned(b: &[u8]) -> (r: Option<String>)
    ensures
        opt_view(r) == decoded(b@),
{
    match from_utf8(b) {
        Some(s) => Some(s.to_owned()),
        None => None,
    }
}

/// Equal encodings come from equal texts.
pub proof fn lemma_encoding_injective(a: Seq<char>, b: Seq<char>)
    ensures
        enc(a) == enc(b) <==> a == b,
{
    utf8::encode_utf8_decode_utf8(a);
    utf8::encode_utf8_decode_utf8(b);
}

/// Text equality.
pub fn str_eq(a: &str, b: &str) -> (r: bool)
    ensures
        r == (a@ == b@),
{
    proof {
        lemma_encoding_injective(a@, b@);
    }
    scan::bytes_eq(a.as_bytes(), b.as_bytes())
}

/// An ASCII literal encodes to its own characters.
pub proof fn lemma_ascii_literal(s: &str)
    requires
        utf8::is_ascii_chars(s@),
    ensures
        enc(s@) == Seq::new(s@.len(), |i: int| s@[i] as u8),
{
    utf8::is_ascii_chars_encode_utf8(s@);
}

/// An ASCII byte of valid UTF-8 stands between two character boundaries.
pub proof fn lemma_ascii_boundaries(b: Seq<u8>, k: int)
    requires
        utf8::valid_utf8(b),
        0 <= k < b.len(),
        b[k] < 0x80,
    ensures
        utf8::is_char_boundary(b, k),
        utf8::is_char_boundary(b, k + 1),
    decreases b.len(),
{
    let n = utf8::length_of_first_scalar(b);
    utf8::utf8_byte_ranges_bitwise(b[k]);
    utf8::is_char_boundary_iff_not_is_continuation_byte(b, k);
    if k < n {
        if k > 0 {
            reveal_with_fuel(utf8::is_char_boundary, 2);
        }
        assert(k == 0 && n == 1);
        reveal_with_fuel(utf8::is_char_boundary, 3);
    } else {
        lemma_ascii_boundaries(utf8::pop_first_scalar(b), k - n);
    }
}

/// A run of ASCII bytes leads from one character boundary to another.
pub proof fn lemma_run_boundary(b: Seq<u8>, i: int, class: scan::ByteClass)
    requires
        utf8::valid_utf8(b),
        0 <= i <= b.len(),
        utf8::is_char_boundary(b, i),
        forall|c: u8| #[trigger] class.has(c) ==> c < 0x80,
    ensures
        utf8::is_char_boundary(b, scan::run_end(b, i, class)),
    decreases b.len() - i,
{
    if i < b.len() && class.has(b[i]) {
        lemma_ascii_boundaries(b, i);
        lemma_run_boundary(b, i + 1, class);
    }
}

/// The text of the bytes between two character boundaries.
pub open spec fn piece(b: Seq<u8>, i: int, j: int) -> Seq<char> {
    utf8::decode_utf8(b.subrange(i, j))
}

/// Bytes between two character boundaries are valid UTF-8.
pub proof fn lemma_piece_valid(b: Seq<u8>, i: int, j: int)
    requires
        utf8::valid_utf8(b),
        0 <= i <= j <= b.len(),
        utf8::is_char_boundary(b, i),
        utf8::is_char_boundary(b, j),
    ensures
        utf8::valid_utf8(b.subrange(i, j)),
{
    let tail = b.subrange(i, b.len() as int);
    utf8::valid_utf8_split(b, i);
    if j < b.len() {
        utf8::is_char_boundary_iff_not_is_continuation_byte(b, j);
        utf8::is_char_boundary_iff_not_is_continuation_byte(tail, j - i);
    } else {
        utf8::is_char_boundary_start_end_of_seq(tail);
    }
    utf8::valid_utf8_split(tail, j - i);
    assert(tail.subrange(0, j - i) =~= b.subrange(i, j));
}

/// Copy out the text between two character boundaries.
pub(crate) fn take_piece(b: &[u8], i: usize, j: usize) -> (r: String)
    requires
        utf8::valid_utf8(b@),
        i <= j <= b@.len(),
        utf8::is_char_boundary(b@, i as int),
        utf8::is_char_boundary(b@, j as int),
    ensures
        r@ == piece(b@, i as int, j as int),
{
    proof {
        lemma_piece_valid(b@, i as int, j as int);
    }
    match from_utf8(&b[i..j]) {
        Some(s) => s.to_owned(),
        None => String::new(),
    }
}

/// The last character boundary of some UTF-8 at or before `w`.
pub open spec fn cut(b: Seq<u8>, w: int) -> int
    decreases w,
{
    if w <= 0 {
        0
    } else if utf8::is_char_boundary(b, w) {
        w
    } else {
        cut(b, w - 1)
    }
}

/// A text cut to at most `w` bytes, between two characters.
pub open spec fn shortened(s: Seq<char>, w: int) -> Seq<char> {
    if enc(s).len() <= w {
        s
    } else {
        piece(enc(s), 0, cut(enc(s), w))
    }
}

/// Cut a text to at most `w` bytes, between two characters.
pub(crate) fn shorten(s: &str, w: usize) -> (r: String)
    ensures
        r@ == shortened(s@, w as int),
{
    let b: &[u8] = s.as_bytes();
    if b.len() <= w {
        return s.to_owned();
    }
    proof {
        utf8::encode_utf8_valid_utf8(s@);
        utf8::is_char_boundary_start_end_of_seq(b@);
    }
    let mut end: usize = w;
    while end > 0 && !s.is_char_boundary(end)
        invariant
            end <= w,
            b@ == enc(s@),
            cut(b@, end as int) == cut(b@, w as int),
        decreases end,
    {
        end = end - 1;
    }
    take_piece(b, 0, end)
}

/// A text cut or padded with blanks to a width in bytes.
pub open spec fn fitted(s: Seq<char>, w: int) -> Seq<char> {
    if enc(s).len() >= w {
        shortened(s, w)
    } else {
        s + number::repeated(' ', w - enc(s).len())
    }
}

/// Cut or right-pad a text to a width. Cells are taken to be ASCII; other text
/// is never cut inside a character.
pub fn truncate_padded(s: &str, width: usize) -> (r: String)
    ensures
        r@ == fitted(s@, width as int),
{
    let n: usize = s.as_bytes().len();
    if n >= width {
        return shorten(s, width);
    }
    let mut out: String = s.to_owned();
    number::push_repeated(&mut out, ' ', width - n);
    out
}

/// A text that is cut loses only its end, and no more than it has to: what is
/// kept fits, and is the text itself where that fits.
pub proof fn law_shortened_fits(s: Seq<char>, w: int)
    requires
        0 <= w,
    ensures
        enc(shortened(s, w)).len() <= w,
        enc(s).len() <= w ==> shortened(s, w) == s,
        enc(s).len() > w ==> enc(shortened(s, w)) == enc(s).subrange(0, cut(enc(s), w)),
{
    let b = enc(s);
    if b.len() > w {
        utf8::encode_utf8_valid_utf8(s);
        utf8::is_char_boundary_start_end_of_seq(b);
        lemma_cut(b, w);
        lemma_piece_valid(b, 0, cut(b, w));
        utf8::decode_utf8_encode_utf8(b.subrange(0, cut(b, w)));
    }
}

proof fn lemma_cut(b: Seq<u8>, w: int)
    requires
        0 <= w,
        utf8::is_char_boundary(b, 0),
    ensures
        0 <= cut(b, w) <= w,
        utf8::is_char_boundary(b, cut(b, w)),
    decreases w,
{
    if w > 0 && !utf8::is_char_boundary(b, w) {
        lemma_cut(b, w - 1);
    }
}

} // verus!
