//! Account addresses: twenty bytes, and their notation as `0x` and forty hexadecimal digits.

use vstd::prelude::*;
use vstd::slice::slice_subrange;
use vstd::string::StringExecFns;
use vstd::utf8::{encode_utf8, is_ascii_chars};

use crate::text;

verus! {

/// An account address.
pub type Address = [u8; 20];

/// What goes wrong in the `hex` crate; its content is not looked at.
#[verifier::external_type_specification]
#[verifier::external_body]
pub struct ExFromHexError(hex::FromHexError);

/// Each byte taken as the character of that code.
pub open spec fn latin(bytes: Seq<u8>) -> Seq<char> {
    Seq::new(bytes.len(), |i: int| bytes[i] as char)
}

/// The bytes that hexadecimal digits denote, two digits each.
pub open spec fn digit_pairs(s: Seq<char>) -> Seq<u8> {
    Seq::new(
        (s.len() / 2) as nat,
        |i: int|
            (text::digit_value(s[2 * i])->0 * 16 + text::digit_value(s[2 * i + 1])->0) as u8,
    )
}

/// The hexadecimal notation of bytes, two lower case digits each.
pub open spec fn hex_text(bytes: Seq<u8>) -> Seq<char> {
    Seq::new(
        2 * bytes.len(),
        |i: int|
            text::digit_char(
                if i % 2 == 0 {
                    bytes[i / 2] as int / 16
                } else {
                    bytes[i / 2] as int % 16
                },
            ),
    )
}

/// `s` without one leading `0x`.
pub open spec fn strip_prefix(s: Seq<char>) -> Seq<char> {
    if s.len() >= 2 && s[0] == '0' && s[1] == 'x' {
        s.skip(2)
    } else {
        s
    }
}

/// The address that a text denotes, if it denotes one.
pub open spec fn address_value(s: Seq<char>) -> Option<Seq<u8>> {
    let digits = strip_prefix(s);
    if digits.len() == 40 && text::all_hex_digits(digits) {
        Some(digit_pairs(digits))
    } else {
        None
    }
}

/// `0x` and the forty lower case digits of an address.
pub open spec fn address_text(address: Seq<u8>) -> Seq<char> {
    "0x"@ + hex_text(address)
}

/// The byte sequences of addresses.
pub open spec fn bytes_of(addresses: Seq<Address>) -> Seq<Seq<u8>> {
    Seq::new(addresses.len(), |i: int| addresses[i]@)
}

/// Calls `hex::decode_to_slice`: it succeeds exactly on forty hexadecimal digits of either
/// case, and then `out` holds the twenty bytes that they denote. Nothing is said of `out`
/// after a failure, nor of what the error holds.
#[verifier::external_body]
fn decode_to_slice(data: &[u8], out: &mut Address) -> (res: Result<(), hex::FromHexError>)
    ensures
        match res {
            Ok(_) => data@.len() == 40 && text::all_hex_digits(latin(data@)) && final(out)@
                == digit_pairs(latin(data@)),
            Err(_) => !(data@.len() == 40 && text::all_hex_digits(latin(data@))),
        },
{
    hex::decode_to_slice(data, out)
}

/// Calls `hex::encode`: the result holds two lower case hexadecimal digits for each byte.
#[verifier::external_body]
fn encode(data: &[u8]) -> (res: String)
    ensures
        res@ == hex_text(data@),
{
    hex::encode(data)
}

/// A text whose encoding holds no byte above 127 consists of ASCII characters.
proof fn lemma_ascii_bytes(chars: Seq<char>)
    requires
        forall|i: int| 0 <= i < encode_utf8(chars).len() ==> #[trigger] encode_utf8(chars)[i] < 128,
    ensures
        is_ascii_chars(chars),
    decreases chars.len(),
{
    if chars.len() > 0 {
        let rest = chars.drop_first();
        let head = vstd::utf8::encode_scalar(chars[0] as u32);
        let bytes = encode_utf8(chars);
        assert(bytes =~= head + encode_utf8(rest));
        assert(head.len() > 0);
        assert forall|i: int| 0 <= i < encode_utf8(rest).len() implies #[trigger] encode_utf8(
            rest,
        )[i] < 128 by {
            assert(bytes[head.len() + i] == encode_utf8(rest)[i]);
        }
        lemma_ascii_bytes(rest);
        assert(bytes[0] < 128);
        vstd::utf8::encode_utf8_first_scalar(chars);
        let c = chars[0] as u32;
        let b = bytes[0];
        assert(vstd::utf8::is_leading_byte_width_1(b));
        assert(vstd::utf8::decode_first_scalar(bytes) == (b & 0x7f) as u32);
        assert((b & 0x7f) < 128) by (bit_vector);
        assert(c < 128);
        assert forall|i: int| 0 <= i < chars.len() implies '\0' <= #[trigger] chars[i]
            <= '\u{7f}' by {
            if i > 0 {
                assert('\0' <= rest[i - 1] <= '\u{7f}');
            } else {
                vstd::utf8::char_u32_cast(chars[0], c);
            }
        }
    }
}

/// Text and encoding agree on whether they denote an address, and on which.
proof fn lemma_bytes_denote_same(chars: Seq<char>, start: int)
    requires
        start == if encode_utf8(chars).len() >= 2 && encode_utf8(chars)[0] == 48 && encode_utf8(
            chars,
        )[1] == 120 {
            2int
        } else {
            0
        },
    ensures
        address_value(chars) == ({
            let digits = latin(encode_utf8(chars).skip(start));
            if digits.len() == 40 && text::all_hex_digits(digits) {
                Some(digit_pairs(digits))
            } else {
                None
            }
        }),
{
    let bytes = encode_utf8(chars);
    let digits = latin(bytes.skip(start));
    if text::all_hex_digits(digits) {
        assert forall|i: int| 0 <= i < bytes.len() implies #[trigger] bytes[i] < 128 by {
            if i >= start {
                assert(digits[i - start] == bytes[i] as char);
                assert(text::digit_value(digits[i - start]) is Some);
            }
        }
        lemma_ascii_bytes(chars);
    }
    if address_value(chars) is Some {
        let own = strip_prefix(chars);
        assert forall|i: int| 0 <= i < chars.len() implies '\0' <= #[trigger] chars[i]
            <= '\u{7f}' by {
            if own.len() == chars.len() {
                assert(text::digit_value(own[i]) is Some);
            } else if i >= 2 {
                assert(text::digit_value(own[i - 2]) is Some);
            }
        }
    }
    if is_ascii_chars(chars) {
        vstd::utf8::is_ascii_chars_encode_utf8(chars);
        assert(strip_prefix(chars) =~= digits);
    }
}

/// Reads an address: forty hexadecimal digits of either case, after one `0x` or none.
pub fn parse_address_to_bytes(addr_str: &str) -> (res: Option<Address>)
    ensures
        match res {
            Some(bytes) => address_value(addr_str@) == Some(bytes@),
            None => address_value(addr_str@) is None,
        },
{
    let bytes = addr_str.as_bytes();
    let start: usize = if bytes.len() >= 2 && bytes[0] == 48 && bytes[1] == 120 {
        2
    } else {
        0
    };
    proof {
        lemma_bytes_denote_same(addr_str@, start as int);
    }
    let clean = slice_subrange(bytes, start, bytes.len());
    assert(clean@ =~= bytes@.skip(start as int));
    if clean.len() != 40 {
        return None;
    }
    let mut out: Address = [0u8; 20];
    match decode_to_slice(clean, &mut out) {
        Ok(_) => Some(out),
        Err(_) => None,
    }
}

/// The row of an address: `0x` and forty lower case hexadecimal digits.
pub fn address_row(address: &Address) -> (res: String)
    ensures
        res@ == address_text(address@),
{
    let mut out = "0x".to_owned();
    out.append(encode(address.as_slice()).as_str());
    out
}

/// Reading the row of an address gives the address back.
pub proof fn law_row_reads_back(address: Seq<u8>)
    requires
        address.len() == 20,
    ensures
        address_value(address_text(address)) == Some(address),
{
    reveal_strlit("0x");
    let s = address_text(address);
    let digits = hex_text(address);
    assert(s.skip(2) =~= digits);
    assert forall|i: int| 0 <= i < digits.len() implies text::digit_value(
        #[trigger] digits[i],
    ) is Some by {
        let b = address[i / 2] as int;
        assert(0 <= b / 16 < 16 && 0 <= b % 16 < 16);
    }
    assert forall|i: int| 0 <= i < 20 implies #[trigger] digit_pairs(digits)[i] == address[i] by {
        let b = address[i] as int;
        assert((2 * i) % 2 == 0 && (2 * i) / 2 == i);
        assert((2 * i + 1) % 2 == 1 && (2 * i + 1) / 2 == i);
        assert(text::digit_value(digits[2 * i]) == Some(b / 16));
        assert(text::digit_value(digits[2 * i + 1]) == Some(b % 16));
    }
    assert(digit_pairs(digits) =~= address);
}

/// An address is read the same with its prefix and without, and in either case of its letters.
pub proof fn law_notation_is_free(s: Seq<char>, t: Seq<char>)
    requires
        s.len() == t.len() == 40,
        forall|i: int|
            0 <= i < 40 ==> text::digit_value(#[trigger] s[i]) == text::digit_value(t[i]),
    ensures
        address_value(s) == address_value(t),
        address_value("0x"@ + s) == address_value(s),
{
    reveal_strlit("0x");
    assert(("0x"@ + s).skip(2) =~= s);
    assert(text::digit_value('x') is None);
    if text::all_hex_digits(s) {
        assert(text::digit_value(s[1]) is Some);
    }
    assert forall|i: int| 0 <= i < 40 implies text::digit_value(s[i]) == text::digit_value(
        #[trigger] t[i],
    ) by {
        assert(text::digit_value(s[i]) == text::digit_value(t[i]));
    }
    if text::all_hex_digits(t) {
        assert(text::digit_value(t[1]) is Some);
        assert(text::all_hex_digits(s));
    }
    if text::all_hex_digits(s) {
        assert(text::all_hex_digits(t));
        assert forall|i: int| 0 <= i < 20 implies digit_pairs(s)[i] == #[trigger] digit_pairs(
            t,
        )[i] by {
            assert(text::digit_value(s[2 * i]) == text::digit_value(t[2 * i]));
            assert(text::digit_value(s[2 * i + 1]) == text::digit_value(t[2 * i + 1]));
        }
        assert(digit_pairs(s) =~= digit_pairs(t));
    }
}

/// A text denotes an address if and only if it consists of one `0x` or none and forty digits, of
/// which each two denote one of the twenty bytes.
pub proof fn law_address_is_its_digits(s: Seq<char>, a: Seq<u8>)
    ensures
        address_value(s) == Some(a) <==> a.len() == 20 && (s.len() == 40 || s.len() == 42 && s[0]
            == '0' && s[1] == 'x') && (forall|k: int|
            s.len() - 40 <= k < s.len() ==> text::digit_value(#[trigger] s[k]) is Some) && (forall|
            i: int,
        |
            0 <= i < 20 ==> #[trigger] a[i] == 16 * text::digit_value(s[s.len() - 40 + 2 * i])->0
                + text::digit_value(s[s.len() - 40 + 2 * i + 1])->0),
{
    let start = s.len() - 40;
    if address_value(s) =~= Some(a) {
        let digits = strip_prefix(s);
        assert(digits =~= s.skip(start));
        assert forall|k: int| start <= k < s.len() implies text::digit_value(
            #[trigger] s[k],
        ) is Some by {
            assert(digits[k - start] == s[k]);
        }
        assert forall|i: int| 0 <= i < 20 implies #[trigger] a[i] == 16 * text::digit_value(
            s[start + 2 * i],
        )->0 + text::digit_value(s[start + 2 * i + 1])->0 by {
            assert(a[i] == digit_pairs(digits)[i]);
            assert(digits[2 * i] == s[start + 2 * i]);
            assert(digits[2 * i + 1] == s[start + 2 * i + 1]);
            assert(text::digit_value(digits[2 * i]) is Some);
            assert(text::digit_value(digits[2 * i + 1]) is Some);
        }
    }
    if a.len() == 20 && (s.len() == 40 || s.len() == 42 && s[0]
            == '0' && s[1] == 'x') && (forall|k: int|
            start <= k < s.len() ==> text::digit_value(#[trigger] s[k]) is Some) && (forall|
            i: int,
        |
            0 <= i < 20 ==> #[trigger] a[i] == 16 * text::digit_value(s[start + 2 * i])->0
                + text::digit_value(s[start + 2 * i + 1])->0) {
        let digits = s.skip(start);
        assert forall|k: int| 0 <= k < 40 implies text::digit_value(#[trigger] digits[k]) is Some by {
            assert(digits[k] == s[start + k]);
        }
        assert(text::digit_value(digits[1]) is Some);
        assert(text::digit_value('x') is None);
        if s.len() == 40 {
            assert(digits =~= s);
        }
        assert(strip_prefix(s) == digits);
        assert forall|i: int| 0 <= i < 20 implies digit_pairs(digits)[i] == #[trigger] a[i] by {
            assert(digits[2 * i] == s[start + 2 * i]);
            assert(digits[2 * i + 1] == s[start + 2 * i + 1]);
            assert(text::digit_value(digits[2 * i]) is Some);
            assert(text::digit_value(digits[2 * i + 1]) is Some);
        }
        assert(digit_pairs(digits) =~= a);
    }
}

/// The row of an address is `0x` and two lower case digits for each byte.
pub proof fn law_row_notation(address: Seq<u8>, i: int)
    ensures
        address_text(address).len() == 2 + 2 * address.len(),
        address_text(address)[0] == '0',
        address_text(address)[1] == 'x',
        2 <= i < address_text(address).len() ==> "0123456789abcdef"@.contains(
            address_text(address)[i],
        ),
{
    reveal_strlit("0x");
    if 2 <= i < address_text(address).len() {
        let b = address[(i - 2) / 2] as int;
        let d = if (i - 2) % 2 == 0 {
            b / 16
        } else {
            b % 16
        };
        text::law_digits(d, '0');
        reveal_strlit("0123456789abcdef");
        assert(address_text(address)[i] == hex_text(address)[i - 2]);
        assert("0123456789abcdef"@[d] == address_text(address)[i]);
    }
}

/// The byte sequences of addresses are those of each address, in order.
pub proof fn law_bytes_one_by_one(addresses: Seq<Address>, i: int)
    requires
        0 <= i < addresses.len(),
    ensures
        bytes_of(addresses).len() == addresses.len(),
        bytes_of(addresses)[i].len() == 20,
        forall|k: int| 0 <= k < 20 ==> bytes_of(addresses)[i][k] == #[trigger] addresses[i][k],
{
}

} // verus!
