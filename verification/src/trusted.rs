//! Calls into `urlencoding`, `lz_str` and std's Unicode functions
//! (`to_lowercase`, `is_alphanumeric`, `String::from_utf16`). Each wrapper
//! here is believed, not proved: its doc comment says what it claims of the
//! function it calls. Where the documentation states the result in a few
//! lines (percent-encoding and -decoding, UTF-16 decoding) the claim is
//! that statement; elsewhere the result is named.
use vstd::prelude::*;

verus! {

/// The value of an ASCII hex digit (either case).
pub open spec fn hex_value(b: u8) -> Option<int> {
    if 48 <= b <= 57 {
        Some(b - 48)
    } else if 65 <= b <= 70 {
        Some(b - 55)
    } else if 97 <= b <= 102 {
        Some(b - 87)
    } else {
        None
    }
}

/// Percent-decoding of bytes: `%` and two hex digits become the byte they
/// spell; every other byte, a `%` without two hex digits after it too, stays.
pub open spec fn percent_decoded(b: Seq<u8>) -> Seq<u8>
    decreases b.len(),
{
    if b.len() == 0 {
        Seq::empty()
    } else if b.len() >= 3 && b[0] == 37 && hex_value(b[1]) is Some && hex_value(b[2]) is Some {
        seq![(hex_value(b[1])->0 * 16 + hex_value(b[2])->0) as u8] + percent_decoded(b.skip(3))
    } else {
        seq![b[0]] + percent_decoded(b.drop_first())
    }
}

/// The UTF-8 encoding of a string.
pub open spec fn utf8_all(s: Seq<char>) -> Seq<u8>
    decreases s.len(),
{
    if s.len() == 0 {
        Seq::empty()
    } else {
        utf8_of(s[0]) + utf8_all(s.drop_first())
    }
}

/// UTF-8 decoding: the string whose encoding the bytes are, or `None`
/// when they are the encoding of no string.
pub open spec fn utf8_decoded(b: Seq<u8>) -> Option<Seq<char>> {
    if exists|t: Seq<char>| #[trigger] utf8_all(t) == b {
        Some(choose|t: Seq<char>| #[trigger] utf8_all(t) == b)
    } else {
        None
    }
}

/// What `urlencoding::decode` gives for a string: its UTF-8 bytes
/// percent-decoded, read back as UTF-8 (`None` when they are not UTF-8).
pub open spec fn url_decoded(s: Seq<char>) -> Option<Seq<char>> {
    utf8_decoded(percent_decoded(utf8_all(s)))
}

/// The UTF-8 encoding of a character.
pub open spec fn utf8_of(c: char) -> Seq<u8> {
    let v = c as int;
    if v < 0x80 {
        seq![v as u8]
    } else if v < 0x800 {
        seq![(0xC0 + v / 64) as u8, (0x80 + v % 64) as u8]
    } else if v < 0x10000 {
        seq![(0xE0 + v / 4096) as u8, (0x80 + (v / 64) % 64) as u8, (0x80 + v % 64) as u8]
    } else {
        seq![
            (0xF0 + v / 262144) as u8,
            (0x80 + (v / 4096) % 64) as u8,
            (0x80 + (v / 64) % 64) as u8,
            (0x80 + v % 64) as u8,
        ]
    }
}

/// A byte that percent-encoding leaves as it is: an ASCII letter or digit, or `-`, `.`, `_`, `~`.
pub open spec fn url_safe_byte(b: u8) -> bool {
    (48 <= b <= 57) || (65 <= b <= 90) || (97 <= b <= 122) || b == 45 || b == 46 || b == 95 || b == 126
}

pub open spec fn hex_upper_digits() -> Seq<char> {
    seq!['0', '1', '2', '3', '4', '5', '6', '7', '8', '9', 'A', 'B', 'C', 'D', 'E', 'F']
}

/// One byte percent-encoded: itself when it is safe, else `%` and two upper-case hex digits.
pub open spec fn encode_byte(b: u8) -> Seq<char> {
    if url_safe_byte(b) {
        seq![b as char]
    } else {
        seq!['%', hex_upper_digits()[b as int / 16], hex_upper_digits()[b as int % 16]]
    }
}

pub open spec fn encode_bytes(bs: Seq<u8>) -> Seq<char>
    decreases bs.len(),
{
    if bs.len() == 0 {
        Seq::empty()
    } else {
        encode_byte(bs[0]) + encode_bytes(bs.drop_first())
    }
}

/// Percent-encoding as `urlencoding::encode` documents it: every byte of the
/// UTF-8 encoding except ASCII letters, digits and `- . _ ~` becomes `%XX`.
pub open spec fn url_encoded(s: Seq<char>) -> Seq<char>
    decreases s.len(),
{
    if s.len() == 0 {
        Seq::empty()
    } else {
        encode_bytes(utf8_of(s[0])) + url_encoded(s.drop_first())
    }
}

/// What `str::to_lowercase` gives for a string.
pub uninterp spec fn lowercase(s: Seq<char>) -> Seq<char>;

/// Whether `char::is_alphanumeric` holds of a character.
pub uninterp spec fn alphanumeric(c: char) -> bool;

/// What `lz_str::decompress_from_base64` gives for a string.
pub uninterp spec fn lz_decompressed_base64(s: Seq<char>) -> Option<Seq<u16>>;

/// The UTF-16 encoding of a character: one unit below U+10000, else a
/// surrogate pair.
pub open spec fn utf16_of(c: char) -> Seq<u16> {
    let v = c as int;
    if v < 0x10000 {
        seq![v as u16]
    } else {
        seq![(0xD800 + (v - 0x10000) / 1024) as u16, (0xDC00 + (v - 0x10000) % 1024) as u16]
    }
}

/// The UTF-16 encoding of a string.
pub open spec fn utf16_all(s: Seq<char>) -> Seq<u16>
    decreases s.len(),
{
    if s.len() == 0 {
        Seq::empty()
    } else {
        utf16_of(s[0]) + utf16_all(s.drop_first())
    }
}

/// UTF-16 decoding: the string whose encoding the units are, or `None`
/// when they are the encoding of no string (an unpaired surrogate).
pub open spec fn utf16_decoded(units: Seq<u16>) -> Option<Seq<char>> {
    if exists|t: Seq<char>| #[trigger] utf16_all(t) == units {
        Some(choose|t: Seq<char>| #[trigger] utf16_all(t) == units)
    } else {
        None
    }
}

/// `urlencoding::decode`, with `Err` mapped to `None`. Claims: the result
/// is `url_decoded(s)` (its `decode_binary` turns `%XX` with two hex digits
/// into the byte and keeps every other byte, then `String::from_utf8`
/// fails on bytes that are not UTF-8); and a string without `%` comes back
/// as it is (the crate returns its input borrowed when it finds no `%`).
#[verifier::external_body]
pub(crate) fn url_decode(s: &str) -> (r: Option<String>)
    ensures
        r is None <==> url_decoded(s@) is None,
        r matches Some(v) ==> url_decoded(s@) == Some(v@),
        !s@.contains('%') ==> r is Some,
        r matches Some(v) ==> (!s@.contains('%') ==> v@ == s@),
{
    urlencoding::decode(s).ok().map(|c| c.into_owned())
}

/// `urlencoding::encode`. Claims: the result is `url_encoded(s)`, the
/// percent-encoding that the crate documents ("percent-encodes every byte
/// except alphanumerics and `-`, `_`, `.`, `~`", over UTF-8, with upper-case
/// hex digits as its `to_hex_digit` writes them).
#[verifier::external_body]
pub(crate) fn url_encode(s: &str) -> (r: String)
    ensures
        r@ == url_encoded(s@),
{
    urlencoding::encode(s).into_owned()
}

/// `str::to_lowercase`. Claims only that the result is the named lowercase of `s`.
#[verifier::external_body]
pub(crate) fn to_lowercase(s: &str) -> (r: String)
    ensures
        r@ == lowercase(s@),
{
    s.to_lowercase()
}

/// `char::is_alphanumeric`. Claims only that the result is the named property of `c`.
#[verifier::external_body]
pub(crate) fn is_alphanumeric(c: char) -> (b: bool)
    ensures
        b == alphanumeric(c),
{
    c.is_alphanumeric()
}

/// `lz_str::decompress_from_base64`. Claims only that the result is the
/// named decompression of `s`. The decoder's code width grows with its
/// dictionary, and a shift overflows (a panic in debug builds) once that
/// passes 2^31 entries, which takes more than 5·10^9 input characters;
/// shorter input is required.
#[verifier::external_body]
pub(crate) fn lz_decompress_base64(s: &str) -> (r: Option<Vec<u16>>)
    requires
        s@.len() < 0x1_0000_0000,
    ensures
        r is None <==> lz_decompressed_base64(s@) is None,
        r matches Some(v) ==> lz_decompressed_base64(s@) == Some(v@),
{
    lz_str::decompress_from_base64(s)
}

/// `String::from_utf16`, with `Err` mapped to `None`. Claims: the result
/// is `utf16_decoded(units)`: `Ok` exactly when the units are the UTF-16
/// encoding of a string, and then that string (the documented behaviour:
/// decode UTF-16, `Err` on invalid data).
#[verifier::external_body]
pub(crate) fn from_utf16(units: &[u16]) -> (r: Option<String>)
    ensures
        r is None <==> utf16_decoded(units@) is None,
        r matches Some(v) ==> utf16_decoded(units@) == Some(v@),
{
    String::from_utf16(units).ok()
}

} // verus!
