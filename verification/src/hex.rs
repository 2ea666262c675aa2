//! Hex helpers: keys and ids are shown and entered as hex everywhere.
use vstd::prelude::*;

use crate::error::{Error, ErrorView};
use crate::text::{chars_of, concat, decimal, decimal_text};

verus! {

/// The digit of a number below sixteen, in lower case.
pub open spec fn hex_char(n: int) -> char {
    if n < 10 {
        ('0' as int + n) as char
    } else {
        ('a' as int + n - 10) as char
    }
}

/// Two digits per byte, the high one first.
pub open spec fn hex_text(bytes: Seq<u8>) -> Seq<char> {
    Seq::new(
        2 * bytes.len(),
        |i: int|
            if i % 2 == 0 {
                hex_char(bytes[i / 2] as int / 16)
            } else {
                hex_char(bytes[i / 2] as int % 16)
            },
    )
}

/// The value of a hex digit, in either case.
pub open spec fn hex_value(c: char) -> Option<int> {
    if '0' <= c <= '9' {
        Some(c as int - '0' as int)
    } else if 'a' <= c <= 'f' {
        Some(c as int - 'a' as int + 10)
    } else if 'A' <= c <= 'F' {
        Some(c as int - 'A' as int + 10)
    } else {
        None
    }
}

/// The byte two hex digits denote.
pub open spec fn pair_value(high: char, low: char) -> Option<int> {
    match (hex_value(high), hex_value(low)) {
        (Some(h), Some(l)) => Some(16 * h + l),
        _ => None,
    }
}

/// A text of 64 characters each pair of which denotes a byte.
pub open spec fn denotes_key(s: Seq<char>) -> bool {
    &&& s.len() == 64
    &&& forall|i: int| 0 <= i < 32 ==> pair_value(#[trigger] s[2 * i], s[2 * i + 1]) is Some
}

/// The bytes such a text denotes.
pub open spec fn key_bytes(s: Seq<char>) -> Seq<u8> {
    Seq::new(32, |i: int| pair_value(s[2 * i], s[2 * i + 1])->0 as u8)
}

/// The 32 bytes a text denotes, if it does.
pub open spec fn key_of_hex(s: Seq<char>) -> Option<Seq<u8>> {
    if denotes_key(s) {
        Some(key_bytes(s))
    } else {
        None
    }
}

/// The array with these bytes.
pub open spec fn array_of(bytes: Seq<u8>) -> [u8; 32] {
    choose|a: [u8; 32]| a@ == bytes
}

pub proof fn lemma_array_of(a: [u8; 32])
    ensures
        array_of(a@) == a,
{
    let b = array_of(a@);
    assert(b@ == a@);
    assert forall|i: int| 0 <= i < 32 implies a[i] == b[i] by {
        assert(a@[i] == b@[i]);
    }
    assert(a =~= b);
}

/// The 32 bytes a text denotes, as an array.
pub open spec fn hex32(s: Seq<char>) -> Option<[u8; 32]> {
    match key_of_hex(s) {
        Some(bytes) => Some(array_of(bytes)),
        None => None,
    }
}

/// Why a text denotes no key: the wrong length (in bytes), or characters that
/// are no hex.
pub open spec fn hex_error(s: Seq<char>) -> ErrorView {
    let bytes = vstd::utf8::encode_utf8(s);
    if bytes.len() != 64 || !vstd::utf8::is_ascii_chars(s) {
        ErrorView::InvalidInput("expected 64 hex chars, got "@ + decimal(bytes.len() as usize as nat))
    } else {
        ErrorView::InvalidInput("invalid hex: invalid digit found in string"@)
    }
}

pub(crate) fn nibble(n: u8) -> (c: char)
    requires
        n < 16,
    ensures
        c == hex_char(n as int),
{
    if n == 0 {
        '0'
    } else if n == 1 {
        '1'
    } else if n == 2 {
        '2'
    } else if n == 3 {
        '3'
    } else if n == 4 {
        '4'
    } else if n == 5 {
        '5'
    } else if n == 6 {
        '6'
    } else if n == 7 {
        '7'
    } else if n == 8 {
        '8'
    } else if n == 9 {
        '9'
    } else if n == 10 {
        'a'
    } else if n == 11 {
        'b'
    } else if n == 12 {
        'c'
    } else if n == 13 {
        'd'
    } else if n == 14 {
        'e'
    } else {
        'f'
    }
}

pub(crate) fn digit_value(c: char) -> (r: Option<u8>)
    ensures
        match r {
            Some(v) => hex_value(c) == Some(v as int) && v < 16,
            None => hex_value(c) is None,
        },
{
    if '0' <= c && c <= '9' {
        Some((c as u32 - '0' as u32) as u8)
    } else if 'a' <= c && c <= 'f' {
        Some((c as u32 - 'a' as u32) as u8 + 10)
    } else if 'A' <= c && c <= 'F' {
        Some((c as u32 - 'A' as u32) as u8 + 10)
    } else {
        None
    }
}

/// Lower-case hex, two digits per byte.
pub fn encode(bytes: &[u8]) -> (r: String)
    ensures
        r@ == hex_text(bytes@),
{
    let mut out: String = String::new();
    let mut i: usize = 0;
    while i < bytes.len()
        invariant
            i <= bytes.len(),
            out@ =~= hex_text(bytes@.take(i as int)),
        decreases bytes.len() - i,
    {
        let b: u8 = bytes[i];
        let ghost before = out@;
        out.push(nibble(b / 16));
        out.push(nibble(b % 16));
        proof {
            let now = hex_text(bytes@.take(i + 1));
            assert(out@ =~= now) by {
                assert forall|j: int| 0 <= j < now.len() implies out@[j] == now[j] by {
                    if j < 2 * i {
                        assert(out@[j] == before[j]);
                        assert(before[j] == hex_text(bytes@.take(i as int))[j]);
                    } else if j == 2 * i {
                        assert(j / 2 == i);
                    } else {
                        assert(j == 2 * i + 1);
                        assert(j / 2 == i);
                    }
                }
            }
        }
        i += 1;
    }
    assert(bytes@.take(bytes.len() as int) =~= bytes@);
    out
}

/// The 32 bytes that 64 hex characters denote.
pub fn parse32(hex: &str) -> (r: Result<[u8; 32], Error>)
    ensures
        match r {
            Ok(bytes) => key_of_hex(hex@) == Some(bytes@) && hex32(hex@) == Some(bytes),
            Err(e) => key_of_hex(hex@) is None && e.deep_view() == hex_error(hex@),
        },
{
    if hex.len() != 64 || !hex.is_ascii() {
        let digits: String = decimal_text(hex.len() as u64);
        proof {
            if denotes_key(hex@) {
                assert forall|i: int| 0 <= i < hex@.len() implies '\0' <= #[trigger] hex@[i] <= '\u{7f}' by {
                    let j = i / 2;
                    assert(pair_value(hex@[2 * j], hex@[2 * j + 1]) is Some);
                    assert(i == 2 * j || i == 2 * j + 1);
                }
                assert(vstd::utf8::is_ascii_chars(hex@));
                vstd::utf8::is_ascii_chars_encode_utf8(hex@);
            }
        }
        return Err(Error::InvalidInput(concat("expected 64 hex chars, got ", digits.as_str())));
    }
    proof {
        vstd::utf8::is_ascii_chars_encode_utf8(hex@);
    }
    let x: Vec<char> = chars_of(hex);
    let mut out: [u8; 32] = [0u8; 32];
    let mut i: usize = 0;
    while i < 32
        invariant
            x@ == hex@,
            x.len() == 64,
            vstd::utf8::encode_utf8(hex@).len() == 64,
            vstd::utf8::is_ascii_chars(hex@),
            i <= 32,
            forall|j: int|
                0 <= j < i ==> pair_value(#[trigger] hex@[2 * j], hex@[2 * j + 1]) == Some(
                    out[j] as int,
                ),
        decreases 32 - i,
    {
        let high: char = x[2 * i];
        let low: char = x[2 * i + 1];
        let value: Option<u8> = match (digit_value(high), digit_value(low)) {
            (Some(h), Some(l)) => Some(16 * h + l),
            _ => None,
        };
        match value {
            Some(v) => {
                out[i] = v;
            },
            None => {
                assert(pair_value(hex@[2 * i], hex@[2 * i + 1]) is None);
                return Err(
                    Error::InvalidInput("invalid hex: invalid digit found in string".to_owned()),
                );
            },
        }
        i += 1;
    }
    assert(key_bytes(hex@) =~= out@);
    proof {
        lemma_array_of(out);
    }
    Ok(out)
}

/// Parsing what `encode` wrote for 32 bytes gives them back.
pub proof fn law_hex_round_trip(bytes: Seq<u8>)
    requires
        bytes.len() == 32,
    ensures
        key_of_hex(hex_text(bytes)) == Some(bytes),
{
    let s = hex_text(bytes);
    assert forall|i: int| 0 <= i < 32 implies pair_value(#[trigger] s[2 * i], s[2 * i + 1]) == Some(
        bytes[i] as int,
    ) by {
        lemma_hex_value(bytes[i] as int / 16);
        lemma_hex_value(bytes[i] as int % 16);
        assert((2 * i) / 2 == i && (2 * i + 1) / 2 == i);
    }
    assert(key_bytes(s) =~= bytes);
}

/// Parsing the hex of an array gives the array back.
pub proof fn law_hex32_round_trip(a: [u8; 32])
    ensures
        hex32(hex_text(a@)) == Some(a),
{
    law_hex_round_trip(a@);
    lemma_array_of(a);
}

pub proof fn lemma_hex_value(n: int)
    requires
        0 <= n < 16,
    ensures
        hex_value(hex_char(n)) == Some(n),
{
}

/// No character of a hex text is white space, a separator or a line feed.
pub proof fn lemma_hex_text_plain(bytes: Seq<u8>, i: int)
    requires
        0 <= i < hex_text(bytes).len(),
    ensures
        hex_value(hex_text(bytes)[i]) is Some,
{
    lemma_hex_value(bytes[i / 2] as int / 16);
    lemma_hex_value(bytes[i / 2] as int % 16);
}

/// A hex text has two digits per byte, in lower case, the high one first; a
/// digit is read in either case.
pub proof fn law_hex_digits(bytes: Seq<u8>, i: int, n: int)
    requires
        0 <= i < bytes.len(),
        0 <= n < 6,
    ensures
        hex_text(bytes).len() == 2 * bytes.len(),
        hex_value(hex_text(bytes)[2 * i]) == Some(bytes[i] as int / 16),
        hex_value(hex_text(bytes)[2 * i + 1]) == Some(bytes[i] as int % 16),
        !('A' <= hex_text(bytes)[2 * i] <= 'Z'),
        !('A' <= hex_text(bytes)[2 * i + 1] <= 'Z'),
        hex_value(('a' as int + n) as char) == Some(10 + n),
        hex_value(('A' as int + n) as char) == Some(10 + n),
{
    lemma_hex_value(bytes[i] as int / 16);
    lemma_hex_value(bytes[i] as int % 16);
}

} // verus!
