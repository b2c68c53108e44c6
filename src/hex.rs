use crate::fields::string_from_utf8;
use vstd::prelude::*;
use vstd::utf8::{encode_utf8, encode_utf8_decode_utf8, encode_utf8_valid_utf8, is_ascii_chars,
    is_ascii_chars_encode_utf8};

verus! {

/// The lowercase hexadecimal digit for `n`, which is below sixteen.
pub open spec fn hex_char(n: u8) -> char {
    if n < 10 {
        (48 + n) as u8 as char
    } else {
        (87 + n) as u8 as char
    }
}

/// Two lowercase hexadecimal digits per byte, high nibble first, no separators.
pub open spec fn hex_of(b: Seq<u8>) -> Seq<char> {
    Seq::new(
        2 * b.len(),
        |i: int|
            if i % 2 == 0 {
                hex_char(b[i / 2] / 16)
            } else {
                hex_char(b[i / 2] % 16)
            },
    )
}

fn hex_digit(n: u8) -> (r: u8)
    requires
        n < 16,
    ensures
        r as char == hex_char(n),
        r < 128,
{
    if n < 10 {
        48 + n
    } else {
        87 + n
    }
}

/// Renders bytes as lowercase hexadecimal text.
pub fn to_hex(bytes: &[u8]) -> (r: String)
    ensures
        r@ == hex_of(bytes@),
{
    let ghost h = hex_of(bytes@);
    let mut v: Vec<u8> = Vec::new();
    let mut i: usize = 0;
    while i < bytes.len()
        invariant
            i <= bytes@.len(),
            h == hex_of(bytes@),
            v@.len() == 2 * i,
            forall|j: int| 0 <= j < 2 * i ==> v@[j] as char == #[trigger] h[j] && v@[j] < 128,
        decreases bytes@.len() - i,
    {
        let byte = bytes[i];
        v.push(hex_digit(byte / 16));
        v.push(hex_digit(byte % 16));
        proof {
            assert(h[2 * i as int] == hex_char(bytes@[i as int] / 16));
            assert(h[2 * i + 1] == hex_char(bytes@[i as int] % 16));
        }
        i += 1;
    }
    proof {
        assert(h.len() == 2 * i);
        assert forall|j: int| 0 <= j < h.len() implies '\0' <= #[trigger] h[j] <= '\u{7f}' by {
            assert(0 <= j < 2 * i);
            assert(v@[j] as char == h[j] && v@[j] < 128);
        }
        assert(is_ascii_chars(h));
        is_ascii_chars_encode_utf8(h);
        assert forall|j: int| 0 <= j < h.len() implies v@[j] == encode_utf8(h)[j] by {
            assert(h[j] as u8 == encode_utf8(h)[j]);
        }
        assert(v@ =~= encode_utf8(h));
        encode_utf8_valid_utf8(h);
        encode_utf8_decode_utf8(h);
    }
    match string_from_utf8(v) {
        Some(s) => s,
        None => String::new(),
    }
}

} // verus!
