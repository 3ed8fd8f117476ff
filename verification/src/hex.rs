//! Hexadecimal text and big-endian bytes as numbers.

use vstd::arithmetic::div_mod::lemma_fundamental_div_mod;
use vstd::arithmetic::power2::{lemma2_to64, lemma_pow2_adds, lemma_pow2_pos, pow2};
use vstd::prelude::*;
use vstd::utf8::is_ascii_chars;

verus! {

/// The number that bytes hold when read most significant byte first.
pub open spec fn be_bytes_value(bytes: Seq<u8>) -> nat
    decreases bytes.len(),
{
    if bytes.len() == 0 {
        0
    } else {
        be_bytes_value(bytes.drop_last()) * 256 + bytes.last() as nat
    }
}

/// The character for a hexadecimal digit, in upper or lower case.
pub open spec fn hex_digit_char(d: nat, upper: bool) -> char {
    if d < 10 {
        (('0' as u8) + d) as u8 as char
    } else if upper {
        (('A' as u8) + d - 10) as u8 as char
    } else {
        (('a' as u8) + d - 10) as u8 as char
    }
}

/// The digit that a character stands for, in either case.
pub open spec fn hex_digit_value(c: char) -> Option<nat> {
    if '0' <= c <= '9' {
        Some((c as u8 - '0' as u8) as nat)
    } else if 'a' <= c <= 'f' {
        Some((c as u8 - 'a' as u8 + 10) as nat)
    } else if 'A' <= c <= 'F' {
        Some((c as u8 - 'A' as u8 + 10) as nat)
    } else {
        None
    }
}

/// Every character is a hexadecimal digit.
pub open spec fn is_hex_text(s: Seq<char>) -> bool {
    forall|i: int| 0 <= i < s.len() ==> hex_digit_value(#[trigger] s[i]) is Some
}

/// The number that hexadecimal digits hold, most significant first.
pub open spec fn hex_value(s: Seq<char>) -> nat
    decreases s.len(),
{
    if s.len() == 0 {
        0
    } else {
        hex_value(s.drop_last()) * 16 + hex_digit_value(s.last()).unwrap()
    }
}

/// The bytes that pairs of hexadecimal digits hold.
pub open spec fn hex_bytes(s: Seq<char>) -> Seq<u8> {
    Seq::new(
        s.len() / 2,
        |i: int|
            (hex_digit_value(s[2 * i]).unwrap() * 16 + hex_digit_value(s[2 * i + 1]).unwrap()) as u8,
    )
}

/// The last `width` hexadecimal digits of `v`, most significant first.
pub open spec fn hex_text(v: nat, width: nat, upper: bool) -> Seq<char>
    decreases width,
{
    if width == 0 {
        Seq::empty()
    } else {
        hex_text(v / 16, (width - 1) as nat, upper).push(hex_digit_char(v % 16, upper))
    }
}

/// A letter of ASCII in lower case; any other character as it is.
pub open spec fn ascii_lower(c: char) -> char {
    if 'A' <= c <= 'Z' {
        ((c as u8) + 32) as u8 as char
    } else {
        c
    }
}

/// A text with its letters of ASCII in lower case.
pub open spec fn ascii_lower_text(s: Seq<char>) -> Seq<char> {
    s.map_values(|c: char| ascii_lower(c))
}

/// `hex::decode`: the bytes that the text holds as pairs of hexadecimal digits
/// of either case, and nothing where its length is odd or a character is no
/// such digit.
#[verifier::external_body]
pub(crate) fn hex_decode(s: &str) -> (r: Option<Vec<u8>>)
    ensures
        match r {
            Some(bytes) => s@.len() % 2 == 0 && is_hex_text(s@) && bytes@ == hex_bytes(s@),
            None => !(s@.len() % 2 == 0 && is_hex_text(s@)),
        },
{
    hex::decode(s).ok()
}

/// `str::to_lowercase` of std on text of ASCII: the letters in lower case,
/// everything else as it is.
#[verifier::external_body]
pub(crate) fn to_lowercase(s: &str) -> (r: String)
    requires
        is_ascii_chars(s@),
    ensures
        r@ == ascii_lower_text(s@),
{
    s.to_lowercase()
}

/// A digit survives being written and read.
pub proof fn lemma_hex_digit(d: nat, upper: bool)
    requires
        d < 16,
    ensures
        hex_digit_value(hex_digit_char(d, upper)) == Some(d),
        ascii_lower(hex_digit_char(d, upper)) == hex_digit_char(d, false),
        '\0' <= hex_digit_char(d, upper) <= '\u{7f}',
{
}

/// What `hex_text` gives: `width` digits of ASCII that hold `v`, where `v`
/// fits; in lower case they are what `hex_text` gives in lower case.
pub proof fn lemma_hex_text(v: nat, width: nat, upper: bool)
    ensures
        hex_text(v, width, upper).len() == width,
        is_hex_text(hex_text(v, width, upper)),
        is_ascii_chars(hex_text(v, width, upper)),
        ascii_lower_text(hex_text(v, width, upper)) == hex_text(v, width, false),
        v < pow2(4 * width) ==> hex_value(hex_text(v, width, upper)) == v,
    decreases width,
{
    let t = hex_text(v, width, upper);
    if width == 0 {
        assert(ascii_lower_text(t) =~= hex_text(v, width, false));
        lemma2_to64();
    } else {
        let w = (width - 1) as nat;
        let rest = hex_text(v / 16, w, upper);
        let c = hex_digit_char(v % 16, upper);
        lemma_hex_text(v / 16, w, upper);
        lemma_hex_digit(v % 16, upper);
        assert(t == rest.push(c));
        assert(t.drop_last() =~= rest);
        assert(t.last() == c);
        assert(ascii_lower_text(t) =~= hex_text(v / 16, w, false).push(
            hex_digit_char(v % 16, false),
        )) by {
            assert(ascii_lower_text(rest) == hex_text(v / 16, w, false));
            assert forall|i: int| 0 <= i < width implies ascii_lower_text(t)[i] == hex_text(
                v / 16,
                w,
                false,
            ).push(hex_digit_char(v % 16, false))[i] by {
                if i < w {
                    assert(ascii_lower_text(rest)[i] == ascii_lower(rest[i]));
                }
            }
        }
        if v < pow2(4 * width) {
            lemma_pow2_adds(4, 4 * w);
            lemma2_to64();
            lemma_pow2_pos(4 * w);
            lemma_fundamental_div_mod(v as int, 16);
            assert(v / 16 < pow2(4 * w)) by (nonlinear_arith)
                requires
                    v < 16 * pow2(4 * w),
                    v == 16 * (v / 16) + v % 16,
                    0 <= v % 16,
            ;
        }
    }
}

/// Reading pairs of digits as bytes and the bytes as a number gives what the
/// digits hold.
pub proof fn lemma_hex_bytes_value(s: Seq<char>)
    requires
        s.len() % 2 == 0,
        is_hex_text(s),
    ensures
        be_bytes_value(hex_bytes(s)) == hex_value(s),
    decreases s.len(),
{
    if s.len() == 0 {
        assert(hex_bytes(s).len() == 0);
    } else {
        let n = s.len() as int;
        let front = s.subrange(0, n - 2);
        assert(is_hex_text(front)) by {
            assert forall|i: int| 0 <= i < front.len() implies hex_digit_value(
                #[trigger] front[i],
            ) is Some by {
                assert(front[i] == s[i]);
            }
        }
        lemma_hex_bytes_value(front);
        let hi = hex_digit_value(s[n - 2]).unwrap();
        let lo = hex_digit_value(s[n - 1]).unwrap();
        assert(hex_digit_value(s[n - 2]) is Some);
        assert(hex_digit_value(s[n - 1]) is Some);
        assert(hi < 16 && lo < 16);
        assert(hex_bytes(s).drop_last() =~= hex_bytes(front));
        assert(hex_bytes(s).last() == (hi * 16 + lo) as u8);
        assert(s.drop_last().drop_last() =~= front);
        assert(s.drop_last().last() == s[n - 2]);
        assert(hex_value(s.drop_last()) == hex_value(front) * 16 + hi);
        assert(hex_value(s) == hex_value(s.drop_last()) * 16 + lo);
    }
}

} // verus!
