//! Characters and strings: what the lexer asks of a character, and how
//! numbers and strings are written into messages.

use vstd::prelude::*;

verus! {

/// The decimal digits of `n`, most significant first, each in `0..=9`.
pub open spec fn nat_digits(n: nat) -> Seq<u8>
    decreases n,
{
    if n < 10 {
        seq![n as u8]
    } else {
        nat_digits(n / 10).push((n % 10) as u8)
    }
}

/// The character that writes the digit `d`.
pub open spec fn digit_char(d: u8) -> char {
    (d + 48) as char
}

/// `n` written in decimal, as `Display` writes an unsigned integer.
pub open spec fn nat_text(n: nat) -> Seq<char> {
    nat_digits(n).map_values(|d: u8| digit_char(d))
}

/// `i` written in decimal, as `Display` writes a signed integer.
pub open spec fn int_text(i: int) -> Seq<char> {
    if i < 0 {
        seq!['-'] + nat_text((-i) as nat)
    } else {
        nat_text(i as nat)
    }
}

/// Whether `c` is one of the ASCII digits `0` to `9`.
pub open spec fn is_digit_char(c: char) -> bool {
    '0' <= c && c <= '9'
}

/// The number of bytes that UTF-8 takes to encode `c`.
pub open spec fn utf8_width(c: char) -> nat {
    if (c as u32) < 0x80 {
        1
    } else if (c as u32) < 0x800 {
        2
    } else if (c as u32) < 0x10000 {
        3
    } else {
        4
    }
}

/// The number of bytes that UTF-8 takes to encode `s`.
pub open spec fn utf8_length(s: Seq<char>) -> nat
    decreases s.len(),
{
    if s.len() == 0 {
        0
    } else {
        utf8_length(s.drop_last()) + utf8_width(s.last())
    }
}

/// What `{:?}` writes for a string: the string in double quotes with the
/// characters that need it escaped.
pub uninterp spec fn str_debug(s: Seq<char>) -> Seq<char>;

/// What `{:?}` writes for a character: the character in single quotes,
/// escaped where it needs it.
pub uninterp spec fn char_debug(c: char) -> Seq<char>;

/// Whether `c` has Unicode's `White_Space` property, which std's
/// `char::is_whitespace` tests: the controls from tab to carriage return,
/// space, next line, no-break space, ogham space mark, the spaces from en
/// quad to hair space, line and paragraph separator, narrow no-break space,
/// medium mathematical space and ideographic space.
pub open spec fn is_whitespace_char(c: char) -> bool {
    ||| '\t' <= c && c <= '\r'
    ||| c == ' '
    ||| c == '\u{85}'
    ||| c == '\u{a0}'
    ||| c == '\u{1680}'
    ||| '\u{2000}' <= c && c <= '\u{200a}'
    ||| c == '\u{2028}'
    ||| c == '\u{2029}'
    ||| c == '\u{202f}'
    ||| c == '\u{205f}'
    ||| c == '\u{3000}'
}

/// Whether `char::is_alphabetic` holds of `c` (Unicode `Alphabetic`).
pub uninterp spec fn is_alphabetic_char(c: char) -> bool;

/// Whether `char::is_alphanumeric` holds of `c`.
pub uninterp spec fn is_alphanumeric_char(c: char) -> bool;

/// Whether `c` is a letter, as `char::is_alphabetic` says: among ASCII
/// characters the letters `a` to `z` and `A` to `Z`, beyond them Unicode's
/// `Alphabetic` property.
pub open spec fn alphabetic(c: char) -> bool {
    if (c as u32) < 0x80 {
        ('a' <= c && c <= 'z') || ('A' <= c && c <= 'Z')
    } else {
        is_alphabetic_char(c)
    }
}

/// Whether `c` is a letter or a digit, as `char::is_alphanumeric` says:
/// among ASCII characters the letters and the digits `0` to `9`, beyond
/// them what Unicode calls alphabetic or numeric.
pub open spec fn alphanumeric(c: char) -> bool {
    if (c as u32) < 0x80 {
        ('a' <= c && c <= 'z') || ('A' <= c && c <= 'Z') || ('0' <= c && c <= '9')
    } else {
        is_alphanumeric_char(c)
    }
}

/// Appends `c` to `s`: std's `String::push`.
#[verifier::external_body]
pub(crate) fn push_char(s: &mut String, c: char)
    ensures
        final(s)@ == old(s)@.push(c),
{
    s.push(c);
}

/// std's `{:?}` on a string slice. The escaping rules are std's; the
/// contract names the result and claims nothing more of it.
#[verifier::external_body]
pub(crate) fn debug_str(s: &str) -> (r: String)
    ensures
        r@ == str_debug(s@),
{
    format!("{s:?}")
}

/// std's `{:?}` on a character. The escaping rules are std's; the contract
/// names the result and claims nothing more of it.
#[verifier::external_body]
pub(crate) fn debug_char(c: char) -> (r: String)
    ensures
        r@ == char_debug(c),
{
    format!("{c:?}")
}

/// Whether `c` is white space, as [`is_whitespace_char`] says.
pub fn is_white_space(c: char) -> (r: bool)
    ensures
        r == is_whitespace_char(c),
{
    ('\t' <= c && c <= '\r') || c == ' ' || c == '\u{85}' || c == '\u{a0}' || c == '\u{1680}'
        || ('\u{2000}' <= c && c <= '\u{200a}') || c == '\u{2028}' || c == '\u{2029}' || c
        == '\u{202f}' || c == '\u{205f}' || c == '\u{3000}'
}

/// std's `char::is_alphabetic`: Unicode's `Alphabetic` property. The
/// contract names the answer and states it for ASCII, where only the
/// letters have the property.
#[verifier::external_body]
pub(crate) fn char_is_alphabetic(c: char) -> (r: bool)
    ensures
        r == is_alphabetic_char(c),
        (c as u32) < 0x80 ==> (r <==> (('a' <= c && c <= 'z') || ('A' <= c && c <= 'Z'))),
{
    c.is_alphabetic()
}

/// std's `char::is_alphanumeric`: alphabetic or numeric. The contract
/// names the answer and states it for ASCII, where the letters and the
/// digits have it.
#[verifier::external_body]
pub(crate) fn char_is_alphanumeric(c: char) -> (r: bool)
    ensures
        r == is_alphanumeric_char(c),
        (c as u32) < 0x80 ==> (r <==> (('a' <= c && c <= 'z') || ('A' <= c && c <= 'Z') || (
        '0' <= c && c <= '9'))),
{
    c.is_alphanumeric()
}

/// Whether `c` is one of the ASCII digits.
pub fn is_ascii_digit(c: char) -> (r: bool)
    ensures
        r == is_digit_char(c),
{
    '0' <= c && c <= '9'
}

/// The number of bytes that UTF-8 takes to encode `c`.
pub fn utf8_width_of(c: char) -> (r: u8)
    ensures
        r == utf8_width(c),
{
    let code = c as u32;
    if code < 0x80 {
        1
    } else if code < 0x800 {
        2
    } else if code < 0x10000 {
        3
    } else {
        4
    }
}

/// The characters of `s`, in order.
pub fn chars_of(s: &str) -> (r: Vec<char>)
    ensures
        r@ == s@,
{
    let mut out: Vec<char> = Vec::new();
    for c in it: s.chars()
        invariant
            it.seq() == s@,
            out@ == it.seq().take(it.index() as int),
    {
        out.push(c);
    }
    proof {
        assert(out@ =~= s@);
    }
    out
}

/// Appends the characters of `cs` to `s`.
pub fn push_chars(s: &mut String, cs: &Vec<char>)
    ensures
        final(s)@ == old(s)@ + cs@,
{
    let mut i: usize = 0;
    while i < cs.len()
        invariant
            0 <= i <= cs.len(),
            s@ == old(s)@ + cs@.take(i as int),
        decreases cs.len() - i,
    {
        push_char(s, cs[i]);
        proof {
            assert(cs@.take(i + 1) =~= cs@.take(i as int).push(cs@[i as int]));
        }
        i = i + 1;
    }
    proof {
        assert(cs@.take(cs.len() as int) =~= cs@);
    }
}

/// Appends `t` to `s`.
pub fn push_str(s: &mut String, t: &str)
    ensures
        final(s)@ == old(s)@ + t@,
{
    let cs = chars_of(t);
    push_chars(s, &cs);
}

/// A string holding the characters of `cs`.
pub fn string_of(cs: &Vec<char>) -> (r: String)
    ensures
        r@ == cs@,
{
    let mut s = String::new();
    push_chars(&mut s, cs);
    proof {
        assert(s@ =~= cs@);
    }
    s
}

/// The decimal digits of `n`, most significant first.
pub fn digits_of(n: u128) -> (r: Vec<u8>)
    ensures
        r@ == nat_digits(n as nat),
    decreases n,
{
    if n < 10 {
        let mut v: Vec<u8> = Vec::new();
        v.push(n as u8);
        v
    } else {
        let mut v = digits_of(n / 10);
        v.push((n % 10) as u8);
        v
    }
}

/// The digits of `n` are each below ten.
pub proof fn lemma_nat_digits_are_digits(n: nat)
    ensures
        forall|i: int| 0 <= i < nat_digits(n).len() ==> #[trigger] nat_digits(n)[i] < 10,
        nat_digits(n).len() >= 1,
    decreases n,
{
    if n >= 10 {
        lemma_nat_digits_are_digits(n / 10);
    }
}

/// The character that writes the digit `d`.
pub fn digit_to_char(d: u8) -> (r: char)
    requires
        d < 10,
    ensures
        r == digit_char(d),
{
    (d + 48) as char
}

/// Appends `n`, written in decimal, to `s`.
pub fn push_nat(s: &mut String, n: u128)
    ensures
        final(s)@ == old(s)@ + nat_text(n as nat),
{
    let ds = digits_of(n);
    proof {
        lemma_nat_digits_are_digits(n as nat);
    }
    let mut i: usize = 0;
    while i < ds.len()
        invariant
            0 <= i <= ds.len(),
            ds@ == nat_digits(n as nat),
            forall|j: int| 0 <= j < ds@.len() ==> #[trigger] ds@[j] < 10,
            s@ == old(s)@ + nat_text(n as nat).take(i as int),
        decreases ds.len() - i,
    {
        let c = digit_to_char(ds[i]);
        push_char(s, c);
        proof {
            assert(nat_text(n as nat).take(i + 1) =~= nat_text(n as nat).take(i as int).push(c));
        }
        i = i + 1;
    }
    proof {
        assert(nat_text(n as nat).take(ds.len() as int) =~= nat_text(n as nat));
    }
}

/// Appends `n`, written in decimal, to `s`.
pub fn push_int(s: &mut String, n: i64)
    ensures
        final(s)@ == old(s)@ + int_text(n as int),
{
    if n < 0 {
        push_char(s, '-');
        let magnitude: u128 = (0i128 - (n as i128)) as u128;
        push_nat(s, magnitude);
        proof {
            assert(s@ =~= old(s)@ + int_text(n as int));
        }
    } else {
        push_nat(s, n as u128);
    }
}

} // verus!
