//! Numbers and fixed-width cells as text.

use vstd::prelude::*;
use vstd::string::*;

use crate::scan;
use crate::text;

verus! {

/// `String::push`: appends the character.
pub assume_specification[ std::string::String::push ](s: &mut std::string::String, c: char)
    ensures
        final(s)@ == old(s)@.push(c),
;

/// `String::pop`: removes the last character and returns it; nothing of an
/// empty string.
pub assume_specification[ std::string::String::pop ](s: &mut std::string::String) -> (r: Option<char>)
    ensures
        old(s)@.len() == 0 ==> r is None && final(s)@ == old(s)@,
        old(s)@.len() > 0 ==> r == Some(old(s)@.last()) && final(s)@ == old(s)@.drop_last(),
;

/// The digit of a value below ten.
pub open spec fn digit_char(d: int) -> char {
    (48 + d) as char
}

/// The decimal digits of a number.
pub open spec fn digits(n: int) -> Seq<char>
    decreases n,
{
    if n < 10 {
        seq![digit_char(n)]
    } else {
        digits(n / 10).push(digit_char(n % 10))
    }
}

/// A character several times over; none where the count is not positive.
pub open spec fn repeated(c: char, n: int) -> Seq<char> {
    Seq::new(
        if n > 0 {
            n as nat
        } else {
            0
        },
        |i: int| c,
    )
}

/// A number with leading zeros up to a width, its sign included.
pub open spec fn zero_padded(n: int, w: int) -> Seq<char> {
    if n < 0 {
        seq!['-'] + zero_padded_nat(-n, w - 1)
    } else {
        zero_padded_nat(n, w)
    }
}

pub open spec fn zero_padded_nat(n: int, w: int) -> Seq<char> {
    repeated('0', w - digits(n).len()) + digits(n)
}

/// A text with blanks before it up to a width.
pub open spec fn right_aligned(s: Seq<char>, w: int) -> Seq<char> {
    repeated(' ', w - s.len()) + s
}

/// A text with blanks after it up to a width.
pub open spec fn left_aligned(s: Seq<char>, w: int) -> Seq<char> {
    s + repeated(' ', w - s.len())
}

/// Append a character several times over.
pub(crate) fn push_repeated(out: &mut String, c: char, n: usize)
    ensures
        final(out)@ == old(out)@ + repeated(c, n as int),
{
    let mut i: usize = 0;
    assert(out@ =~= old(out)@ + repeated(c, 0));
    while i < n
        invariant
            i <= n,
            out@ == old(out)@ + repeated(c, i as int),
        decreases n - i,
    {
        out.push(c);
        i = i + 1;
        assert(out@ =~= old(out)@ + repeated(c, i as int));
    }
}

/// The decimal digits of a number.
pub fn decimal_text(n: u64) -> (r: String)
    ensures
        r@ == digits(n as int),
        1 <= r@.len() <= 20,
{
    proof {
        reveal_with_fuel(ten_to, 21);
    }
    decimal_upto(n, Ghost(20))
}

fn decimal_upto(n: u64, Ghost(w): Ghost<int>) -> (r: String)
    requires
        1 <= w,
        n < ten_to(w),
    ensures
        r@ == digits(n as int),
        1 <= r@.len() <= w,
    decreases n,
{
    proof {
        reveal_with_fuel(ten_to, 2);
    }
    let mut out: String = if n < 10 {
        String::new()
    } else {
        decimal_upto(n / 10, Ghost(w - 1))
    };
    out.push((48 + (n % 10) as u8) as char);
    assert(out@ =~= digits(n as int));
    out
}

/// The power of ten.
spec fn ten_to(w: int) -> int
    decreases w,
{
    if w <= 0 {
        1
    } else {
        10 * ten_to(w - 1)
    }
}

/// Append a number with leading zeros up to a width.
pub(crate) fn push_padded(out: &mut String, n: u64, w: usize)
    ensures
        final(out)@ == old(out)@ + zero_padded(n as int, w as int),
{
    let text: String = decimal_text(n);
    let len: usize = text.as_str().unicode_len();
    if len < w {
        push_repeated(out, '0', w - len);
    }
    out.append(text.as_str());
    assert(out@ =~= old(out)@ + zero_padded(n as int, w as int));
}

/// Append a year, with leading zeros up to a width of four.
pub(crate) fn push_year(out: &mut String, y: i64)
    requires
        y > i64::MIN,
    ensures
        final(out)@ == old(out)@ + zero_padded(y as int, 4),
{
    if y < 0 {
        out.push('-');
        push_padded(out, (-y) as u64, 3);
    } else {
        push_padded(out, y as u64, 4);
    }
    assert(out@ =~= old(out)@ + zero_padded(y as int, 4));
}

/// A text with blanks before it up to a width.
pub(crate) fn align_right(s: &str, w: usize) -> (r: String)
    ensures
        r@ == right_aligned(s@, w as int),
{
    let mut out: String = String::new();
    let len: usize = s.unicode_len();
    if len < w {
        push_repeated(&mut out, ' ', w - len);
    }
    out.append(s);
    assert(out@ =~= right_aligned(s@, w as int));
    out
}

/// A text with blanks after it up to a width.
pub(crate) fn align_left(s: &str, w: usize) -> (r: String)
    ensures
        r@ == left_aligned(s@, w as int),
{
    let mut out: String = s.to_owned();
    let len: usize = s.unicode_len();
    if len < w {
        push_repeated(&mut out, ' ', w - len);
    }
    assert(out@ =~= left_aligned(s@, w as int));
    out
}

/// The digits of a number write it: read as a decimal they give it back, and
/// only zero starts with a zero.
pub proof fn law_digits_read_back(n: int)
    requires
        n >= 0,
    ensures
        scan::all_digits(text::enc(digits(n))),
        scan::decimal(text::enc(digits(n))) == n,
        n > 0 ==> digits(n)[0] != '0',
        digits(n).len() > 0,
        vstd::utf8::is_ascii_chars(digits(n)),
        text::enc(digits(n)).len() == digits(n).len(),
    decreases n,
{
    let d = digits(n);
    if n < 10 {
        assert(d =~= seq![digit_char(n)]);
        assert(vstd::utf8::is_ascii_chars(d));
        vstd::utf8::is_ascii_chars_encode_utf8(d);
        let b = text::enc(d);
        assert(b.len() == 1 && b[0] == 48 + n);
        assert(b.drop_last() =~= Seq::empty());
        assert(scan::decimal(b.drop_last()) == 0);
    } else {
        law_digits_read_back(n / 10);
        let p = digits(n / 10);
        let c = digit_char(n % 10);
        assert(d == p.push(c));
        assert(vstd::utf8::is_ascii_chars(d)) by {
            assert forall|i: int| 0 <= i < d.len() implies '\0' <= #[trigger] d[i] <= '\u{7f}' by {
                if i < p.len() {
                    assert(d[i] == p[i]);
                }
            }
        }
        vstd::utf8::is_ascii_chars_encode_utf8(d);
        vstd::utf8::is_ascii_chars_encode_utf8(p);
        let b = text::enc(d);
        assert(b.drop_last() =~= text::enc(p));
        assert(b.last() == 48 + n % 10);
        assert forall|i: int| 0 <= i < b.len() implies scan::ByteClass::Digit.has(#[trigger] b[i]) by {
            if i < p.len() {
                assert(b[i] == text::enc(p)[i]);
                assert(scan::ByteClass::Digit.has(text::enc(p)[i]));
            }
        }
        assert(d[0] == p[0]);
    }
}

/// A text is aligned by blanks on the other side, as many as it lacks, and is
/// itself left whole. A number is filled up with zeros behind its sign.
pub proof fn law_alignment_keeps_the_text(s: Seq<char>, w: int, n: int)
    ensures
        right_aligned(s, w).len() == if s.len() < w { w } else { s.len() as int },
        right_aligned(s, w).skip(right_aligned(s, w).len() - s.len()) == s,
        forall|i: int|
            0 <= i < right_aligned(s, w).len() - s.len() ==> #[trigger] right_aligned(s, w)[i] == ' ',
        left_aligned(s, w).len() == right_aligned(s, w).len(),
        left_aligned(s, w).take(s.len() as int) == s,
        forall|i: int|
            s.len() <= i < left_aligned(s, w).len() ==> #[trigger] left_aligned(s, w)[i] == ' ',
        n >= 0 && digits(n).len() <= w ==> zero_padded(n, w).len() == w && zero_padded(n, w).skip(
            w - digits(n).len(),
        ) == digits(n),
        n < 0 ==> zero_padded(n, w) == seq!['-'] + zero_padded(-n, w - 1),
{
    assert(right_aligned(s, w).skip(right_aligned(s, w).len() - s.len()) =~= s);
    assert(left_aligned(s, w).take(s.len() as int) =~= s);
    if n >= 0 && digits(n).len() <= w {
        assert(zero_padded(n, w).skip(w - digits(n).len()) =~= digits(n));
    }
}

} // verus!
