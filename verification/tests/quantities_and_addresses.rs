use address_extractor::address::{address_row, parse_address_to_bytes};
use address_extractor::error::{ExtractError, HexFault};
use address_extractor::quantity::{block_tag, parse_hex_u64};

#[test]
fn quantities() {
    assert_eq!(parse_hex_u64("0x0").unwrap(), 0);
    assert_eq!(parse_hex_u64("0x10").unwrap(), 16);
    assert_eq!(parse_hex_u64("ff").unwrap(), 255);
    assert_eq!(parse_hex_u64("0xDeadBeef").unwrap(), 0xdead_beef);
    assert_eq!(parse_hex_u64("0xffffffffffffffff").unwrap(), u64::MAX);
    assert_eq!(parse_hex_u64("0x0000000000000000000001").unwrap(), 1);
}

#[test]
fn prefixes_are_taken_off_as_often_as_they_stand() {
    assert_eq!(parse_hex_u64("0x0x0x1f").unwrap(), 31);
    assert_eq!(parse_hex_u64("0x+1f").unwrap(), 31);
    assert_eq!(parse_hex_u64("+1f").unwrap(), 31);
}

#[test]
fn faults_of_quantities() {
    let cases = [
        ("", HexFault::Empty),
        ("0x", HexFault::Empty),
        ("0x0x", HexFault::Empty),
        ("+", HexFault::InvalidDigit),
        ("-1", HexFault::InvalidDigit),
        ("++1", HexFault::InvalidDigit),
        ("0X10", HexFault::InvalidDigit),
        ("0x1g", HexFault::InvalidDigit),
        (" 1", HexFault::InvalidDigit),
        ("1_0", HexFault::InvalidDigit),
        ("é", HexFault::InvalidDigit),
        ("0x10000000000000000", HexFault::Overflow),
        ("10000000000000000g", HexFault::Overflow),
        ("fffffffffffffffg", HexFault::InvalidDigit),
        ("ffffffffffffffffg", HexFault::InvalidDigit),
    ];
    for (text, expected) in cases {
        match parse_hex_u64(text) {
            Err(ExtractError::InvalidHex { value, fault }) => {
                assert_eq!(value, text);
                assert_eq!(fault, expected, "{:?}", text);
            }
            other => panic!("{:?} gave {:?}", text, other),
        }
    }
}

#[test]
fn quantities_agree_with_the_standard_library() {
    let pieces = [
        "", "0x", "0", "x", "+", "-", "f", "F", "g", "7", "ffffffff", "0000000000000000", "é", " ",
    ];
    for a in pieces {
        for b in pieces {
            for c in pieces {
                for d in pieces {
                    let text = format!("{}{}{}{}", a, b, c, d);
                    let expected = u64::from_str_radix(text.trim_start_matches("0x"), 16);
                    match (parse_hex_u64(&text), expected) {
                        (Ok(x), Ok(y)) => assert_eq!(x, y, "{:?}", text),
                        (Err(x), Err(y)) => {
                            assert_eq!(x.message(), format!("Invalid hex '{}': {}", text, y))
                        }
                        (x, y) => panic!("{:?} gave {:?}, not {:?}", text, x, y),
                    }
                }
            }
        }
    }
}

#[test]
fn tags_read_back() {
    for n in [0u64, 1, 15, 16, 255, 18_000_000, 0x0123_4567_89ab_cdef, u64::MAX] {
        assert_eq!(block_tag(n), format!("0x{:x}", n));
        assert_eq!(parse_hex_u64(&block_tag(n)).unwrap(), n);
    }
}

const SAMPLE: [u8; 20] = [
    0xde, 0xad, 0xbe, 0xef, 0x00, 0x01, 0x02, 0x03, 0x04, 0x05, 0x10, 0x20, 0x30, 0x40, 0x50, 0x60,
    0x70, 0x80, 0x90, 0xff,
];

#[test]
fn addresses() {
    let digits = "deadbeef000102030405102030405060708090ff";
    assert_eq!(parse_address_to_bytes(digits), Some(SAMPLE));
    assert_eq!(parse_address_to_bytes(&format!("0x{}", digits)), Some(SAMPLE));
    assert_eq!(parse_address_to_bytes(&digits.to_uppercase()), Some(SAMPLE));
    assert_eq!(
        parse_address_to_bytes("0xDeadBeef000102030405102030405060708090fF"),
        Some(SAMPLE)
    );
}

#[test]
fn texts_that_are_no_addresses() {
    let digits = "deadbeef000102030405102030405060708090ff";
    assert_eq!(parse_address_to_bytes(""), None);
    assert_eq!(parse_address_to_bytes("0x"), None);
    assert_eq!(parse_address_to_bytes(&digits[1..]), None);
    assert_eq!(parse_address_to_bytes(&format!("{}0", digits)), None);
    assert_eq!(parse_address_to_bytes(&format!("0x0x{}", digits)), None);
    assert_eq!(parse_address_to_bytes(&format!("0X{}", digits)), None);
    assert_eq!(parse_address_to_bytes(&format!("0x{}", &digits[2..])), None);
    assert_eq!(parse_address_to_bytes(&digits.replace('d', "g")), None);
    assert_eq!(parse_address_to_bytes(&"é".repeat(20)), None);
    assert_eq!(parse_address_to_bytes(&"é".repeat(40)), None);
    assert_eq!(parse_address_to_bytes(&format!("é{}", &digits[2..])), None);
}

#[test]
fn forty_characters_of_which_the_first_two_are_a_prefix() {
    let text = format!("0x{}", "a".repeat(38));
    assert_eq!(text.len(), 40);
    assert_eq!(parse_address_to_bytes(&text), None);
}

#[test]
fn rows_read_back() {
    for address in [[0u8; 20], [255u8; 20], SAMPLE] {
        let row = address_row(&address);
        assert_eq!(row, format!("0x{}", hex::encode(address)));
        assert_eq!(parse_address_to_bytes(&row), Some(address));
    }
    assert_eq!(
        address_row(&SAMPLE),
        "0xdeadbeef000102030405102030405060708090ff"
    );
}
