//! Quantities of the JSON-RPC interface: numbers in hexadecimal notation.

use vstd::prelude::*;
use vstd::string::StringExecFns;

use crate::error::{ExtractError, ExtractErrorView, HexFault};
use crate::text;
use crate::text::{chars_of, hexadecimal};

verus! {

/// `s` without any number of leading `0x`.
pub open spec fn trim_prefixes(s: Seq<char>) -> Seq<char>
    decreases s.len(),
{
    if s.len() >= 2 && s[0] == '0' && s[1] == 'x' {
        trim_prefixes(s.skip(2))
    } else {
        s
    }
}

/// `s` without one leading plus sign.
pub open spec fn trim_sign(s: Seq<char>) -> Seq<char> {
    if s.len() > 0 && s[0] == '+' {
        s.skip(1)
    } else {
        s
    }
}

/// The digits of a quantity: what is left of its prefixes and its sign.
pub open spec fn quantity_digits(s: Seq<char>) -> Seq<char> {
    trim_sign(trim_prefixes(s))
}

/// The text denotes an unsigned 64-bit number.
pub open spec fn is_quantity(s: Seq<char>) -> bool {
    let digits = quantity_digits(s);
    &&& digits.len() > 0
    &&& text::all_hex_digits(digits)
    &&& text::hex_value(digits) <= u64::MAX
}

/// Some leading digits alone denote a number beyond 64 bits.
pub open spec fn overflows_first(digits: Seq<char>) -> bool {
    exists|k: int|
        0 <= k <= digits.len() && text::all_hex_digits(#[trigger] digits.take(k))
            && text::hex_value(digits.take(k)) > u64::MAX
}

/// What is wrong with a text that is no quantity, reading from left to right.
pub open spec fn quantity_fault(s: Seq<char>) -> HexFault {
    if trim_prefixes(s).len() == 0 {
        HexFault::Empty
    } else if overflows_first(quantity_digits(s)) {
        HexFault::Overflow
    } else {
        HexFault::InvalidDigit
    }
}

/// What reading a quantity gives.
pub open spec fn quantity_outcome(s: Seq<char>) -> Result<u64, ExtractErrorView> {
    if is_quantity(s) {
        Ok(text::hex_value(quantity_digits(s)) as u64)
    } else {
        Err(ExtractErrorView::InvalidHex { value: s, fault: quantity_fault(s) })
    }
}

/// The value of a hexadecimal digit of either case.
fn digit_of(c: char) -> (res: Option<u64>)
    ensures
        match res {
            Some(d) => text::digit_value(c) == Some(d as int) && d < 16,
            None => text::digit_value(c) is None,
        },
{
    if '0' <= c && c <= '9' {
        Some(c as u64 - 48)
    } else if 'a' <= c && c <= 'f' {
        Some(c as u64 - 87)
    } else if 'A' <= c && c <= 'F' {
        Some(c as u64 - 55)
    } else {
        None
    }
}

/// More digits never denote a smaller number.
proof fn lemma_value_of_prefix(s: Seq<char>, k: int)
    requires
        0 <= k <= s.len(),
        text::all_hex_digits(s),
    ensures
        0 <= text::hex_value(s.take(k)) <= text::hex_value(s),
    decreases s.len(),
{
    if k == s.len() {
        assert(s.take(k) =~= s);
        lemma_value_nonnegative(s);
    } else {
        let shorter = s.drop_last();
        assert(text::all_hex_digits(shorter)) by {
            assert forall|i: int| 0 <= i < shorter.len() implies text::digit_value(
                #[trigger] shorter[i],
            ) is Some by {
                assert(shorter[i] == s[i]);
            }
        }
        lemma_value_of_prefix(shorter, k);
        assert(shorter.take(k) =~= s.take(k));
        assert(text::digit_value(s[s.len() - 1]) is Some);
    }
}

/// Digits denote a number that is not negative.
proof fn lemma_value_nonnegative(s: Seq<char>)
    requires
        text::all_hex_digits(s),
    ensures
        0 <= text::hex_value(s),
    decreases s.len(),
{
    if s.len() > 0 {
        let shorter = s.drop_last();
        assert forall|i: int| 0 <= i < shorter.len() implies text::digit_value(
            #[trigger] shorter[i],
        ) is Some by {
            assert(shorter[i] == s[i]);
        }
        lemma_value_nonnegative(shorter);
        assert(text::digit_value(s[s.len() - 1]) is Some);
    }
}

/// Reads the digits from `start` on, from left to right.
fn read_digits(chars: &Vec<char>, start: usize) -> (res: Result<u64, HexFault>)
    requires
        start < chars@.len(),
    ensures
        ({
            let digits = chars@.skip(start as int);
            match res {
                Ok(v) => text::all_hex_digits(digits) && v == text::hex_value(digits),
                Err(HexFault::Overflow) => overflows_first(digits) && !(text::all_hex_digits(digits)
                    && text::hex_value(digits) <= u64::MAX),
                Err(HexFault::InvalidDigit) => !overflows_first(digits) && !text::all_hex_digits(
                    digits,
                ),
                Err(HexFault::Empty) => false,
            }
        }),
{
    let ghost digits = chars@.skip(start as int);
    let mut value: u64 = 0;
    let mut i: usize = start;
    assert(digits.take(0) =~= Seq::<char>::empty());
    while i < chars.len()
        invariant
            start <= i <= chars@.len(),
            digits == chars@.skip(start as int),
            text::all_hex_digits(digits.take(i - start)),
            value == text::hex_value(digits.take(i - start)),
        decreases chars@.len() - i,
    {
        let ghost seen = digits.take(i - start);
        let ghost more = digits.take(i - start + 1);
        assert(more.drop_last() =~= seen);
        assert(more.last() == chars@[i as int]);
        match digit_of(chars[i]) {
            None => {
                proof {
                    assert(digits[i - start] == chars@[i as int]);
                    assert forall|k: int|
                        0 <= k <= digits.len() && text::all_hex_digits(
                            #[trigger] digits.take(k),
                        ) implies text::hex_value(digits.take(k)) <= u64::MAX by {
                        if k > i - start {
                            assert(digits.take(k)[i - start] == chars@[i as int]);
                        }
                        assert(seen.take(k) =~= digits.take(k));
                        lemma_value_of_prefix(seen, k);
                    }
                }
                return Err(HexFault::InvalidDigit);
            },
            Some(d) => {
                assert(text::all_hex_digits(more)) by {
                    assert forall|j: int| 0 <= j < more.len() implies text::digit_value(
                        #[trigger] more[j],
                    ) is Some by {
                        if j < seen.len() {
                            assert(more[j] == seen[j]);
                        }
                    }
                }
                if value > (u64::MAX - d) / 16 {
                    proof {
                        assert(text::hex_value(more) > u64::MAX);
                        if text::all_hex_digits(digits) {
                            lemma_value_of_prefix(digits, i - start + 1);
                        }
                    }
                    return Err(HexFault::Overflow);
                }
                value = value * 16 + d;
            },
        }
        i = i + 1;
    }
    assert(digits.take(i - start) =~= digits);
    Ok(value)
}

/// Reads a quantity: any number of `0x`, a plus sign or none, and hexadecimal digits.
pub fn parse_hex_u64(value: &str) -> (res: Result<u64, ExtractError>)
    ensures
        match res {
            Ok(v) => quantity_outcome(value@) == Ok::<u64, ExtractErrorView>(v),
            Err(e) => quantity_outcome(value@) == Err::<u64, ExtractErrorView>(e@),
        },
{
    let chars = chars_of(value);
    let mut start: usize = 0;
    assert(chars@.skip(0) =~= chars@);
    while chars.len() - start >= 2 && chars[start] == '0' && chars[start + 1] == 'x'
        invariant
            start <= chars@.len(),
            chars@ == value@,
            trim_prefixes(value@) == trim_prefixes(chars@.skip(start as int)),
        decreases chars@.len() - start,
    {
        assert(chars@.skip(start as int).skip(2) =~= chars@.skip(start + 2));
        start = start + 2;
    }
    let ghost rest = chars@.skip(start as int);
    assert(trim_prefixes(rest) == rest);
    if start == chars.len() {
        return Err(ExtractError::InvalidHex { value: value.to_owned(), fault: HexFault::Empty });
    }
    assert(rest[0] == chars@[start as int]);
    if chars[start] == '+' {
        assert(rest.skip(1) =~= chars@.skip(start + 1));
        if start + 1 == chars.len() {
            proof {
                let digits = quantity_digits(value@);
                assert forall|k: int| 0 <= k <= digits.len() implies text::hex_value(
                    #[trigger] digits.take(k),
                ) <= u64::MAX by {
                    assert(digits.take(k).len() == 0);
                }
            }
            return Err(
                ExtractError::InvalidHex { value: value.to_owned(), fault: HexFault::InvalidDigit },
            );
        }
        start = start + 1;
    }
    match read_digits(&chars, start) {
        Ok(v) => Ok(v),
        Err(fault) => Err(ExtractError::InvalidHex { value: value.to_owned(), fault }),
    }
}

/// `0x` and the number in lower case hexadecimal notation.
pub open spec fn block_tag_text(number: u64) -> Seq<char> {
    "0x"@ + text::hexadecimal_text(number as nat)
}

/// A block number as the interface wants it: `0x` and lower case hexadecimal digits.
pub fn block_tag(number: u64) -> (res: String)
    ensures
        res@ == block_tag_text(number),
{
    let mut out = "0x".to_owned();
    out.append(hexadecimal(number).as_str());
    out
}

/// The hexadecimal notation of a number consists of hexadecimal digits, starts with no `0x`,
/// and denotes the number.
proof fn lemma_numeral_reads_back(n: nat)
    ensures
        text::hexadecimal_text(n).len() > 0,
        text::all_hex_digits(text::hexadecimal_text(n)),
        text::hex_value(text::hexadecimal_text(n)) == n,
    decreases n,
{
    let s = text::hexadecimal_text(n);
    if n < 16 {
        assert(s =~= seq![text::digit_char(n as int)]);
        assert(text::digit_value(text::digit_char(n as int)) == Some(n as int));
        assert(s.drop_last() =~= Seq::<char>::empty());
        assert(text::hex_value(s.drop_last()) == 0);
    } else {
        let shorter = text::hexadecimal_text(n / 16);
        lemma_numeral_reads_back(n / 16);
        let d = (n % 16) as int;
        assert(text::digit_value(text::digit_char(d)) == Some(d));
        assert(s =~= shorter.push(text::digit_char(d)));
        assert(s.drop_last() =~= shorter);
        assert forall|i: int| 0 <= i < s.len() implies text::digit_value(
            #[trigger] s[i],
        ) is Some by {
            if i < shorter.len() {
                assert(s[i] == shorter[i]);
            }
        }
    }
}

/// Reading the tag of a block gives the block's number back.
pub proof fn law_tag_reads_back(number: u64)
    ensures
        quantity_outcome(block_tag_text(number)) == Ok::<u64, ExtractErrorView>(number),
{
    let tag = block_tag_text(number);
    let digits = text::hexadecimal_text(number as nat);
    reveal_strlit("0x");
    lemma_numeral_reads_back(number as nat);
    assert(tag.skip(2) =~= digits);
    assert(text::digit_value(digits[0]) is Some);
    if digits.len() >= 2 {
        assert(text::digit_value(digits[1]) is Some);
    }
    assert(trim_prefixes(digits) == digits);
    assert(trim_prefixes(tag) == digits);
}

/// The prefix `0x`, that many times.
spec fn zero_x(times: nat) -> Seq<char> {
    Seq::new(
        2 * times,
        |i: int|
            if i % 2 == 0 {
                '0'
            } else {
                'x'
            },
    )
}

/// The text consists of prefixes, a plus sign or none, and `rest`.
spec fn ends_in(s: Seq<char>, times: nat, rest: Seq<char>) -> bool {
    s == zero_x(times) + rest || s == zero_x(times) + seq!['+'] + rest
}

/// What is left behind all prefixes.
proof fn lemma_prefixes(s: Seq<char>) -> (times: nat)
    ensures
        s == zero_x(times) + trim_prefixes(s),
    decreases s.len(),
{
    if s.len() >= 2 && s[0] == '0' && s[1] == 'x' {
        let fewer = lemma_prefixes(s.skip(2));
        let times = fewer + 1;
        assert(s =~= zero_x(times) + trim_prefixes(s)) by {
            let rest = s.skip(2);
            assert forall|i: int| 0 <= i < s.len() implies s[i] == (zero_x(times) + trim_prefixes(
                s,
            ))[i] by {
                if i >= 2 {
                    assert(s[i] == rest[i - 2]);
                    assert(rest[i - 2] == (zero_x(fewer) + trim_prefixes(rest))[i - 2]);
                }
            }
        }
        times
    } else {
        assert(s =~= zero_x(0) + s);
        0
    }
}

/// Prefixes in front of what starts with none are all trimmed.
proof fn lemma_trims_all(times: nat, rest: Seq<char>)
    requires
        trim_prefixes(rest) == rest,
    ensures
        trim_prefixes(zero_x(times) + rest) == rest,
    decreases times,
{
    let s = zero_x(times) + rest;
    if times == 0 {
        assert(s =~= rest);
    } else {
        let fewer = (times - 1) as nat;
        assert(s[0] == '0' && s[1] == 'x');
        assert(s.skip(2) =~= zero_x(fewer) + rest);
        lemma_trims_all(fewer, rest);
    }
}

/// Digits behind prefixes and a sign are found.
proof fn lemma_digits_found(s: Seq<char>, times: nat, digits: Seq<char>)
    requires
        ends_in(s, times, digits),
        digits.len() > 0,
        text::digit_value(digits[0]) is Some,
        digits.len() >= 2 ==> digits[1] != 'x',
    ensures
        quantity_digits(s) == digits,
        trim_prefixes(s).len() > 0,
{
    assert(text::digit_value('+') is None);
    if s == zero_x(times) + digits {
        assert(trim_prefixes(digits) == digits);
        lemma_trims_all(times, digits);
    } else {
        let signed = seq!['+'] + digits;
        assert(s =~= zero_x(times) + signed);
        assert(trim_prefixes(signed) == signed);
        lemma_trims_all(times, signed);
        assert(signed.skip(1) =~= digits);
    }
}

/// What stands in front of `start` is any number of `0x`, with a plus sign behind them if there is
/// an odd number of characters.
proof fn lemma_front(s: Seq<char>, times: nat, rest: Seq<char>) -> (start: int)
    requires
        ends_in(s, times, rest),
    ensures
        0 <= start <= s.len(),
        s.skip(start) == rest,
        forall|i: int|
            0 <= i < start ==> #[trigger] s[i] == (if i == start - 1 && start % 2 == 1 {
                '+'
            } else if i % 2 == 0 {
                '0'
            } else {
                'x'
            }),
{
    let start = s.len() - rest.len();
    assert(s.skip(start) =~= rest);
    start
}

/// The converse.
proof fn lemma_ends_in(s: Seq<char>, start: int)
    requires
        0 <= start <= s.len(),
        forall|i: int|
            0 <= i < start ==> #[trigger] s[i] == (if i == start - 1 && start % 2 == 1 {
                '+'
            } else if i % 2 == 0 {
                '0'
            } else {
                'x'
            }),
    ensures
        ends_in(s, (start / 2) as nat, s.skip(start)),
{
    let times = (start / 2) as nat;
    if start % 2 == 0 {
        assert(s =~= zero_x(times) + s.skip(start));
    } else {
        assert(s =~= zero_x(times) + seq!['+'] + s.skip(start));
    }
}

/// A text reads as a quantity if and only if it consists of any number of `0x`, a plus sign or
/// none, and hexadecimal digits that denote it.
pub proof fn law_quantity_reads_its_digits(s: Seq<char>, v: u64)
    ensures
        quantity_outcome(s) == Ok::<u64, ExtractErrorView>(v) <==> exists|start: int|
            0 <= start < s.len() && text::all_hex_digits(#[trigger] s.skip(start))
                && text::hex_value(s.skip(start)) == v && forall|i: int|
                0 <= i < start ==> #[trigger] s[i] == (if i == start - 1 && start % 2 == 1 {
                    '+'
                } else if i % 2 == 0 {
                    '0'
                } else {
                    'x'
                }),
{
    if quantity_outcome(s) == Ok::<u64, ExtractErrorView>(v) {
        let times = lemma_prefixes(s);
        let digits = quantity_digits(s);
        let rest = trim_prefixes(s);
        lemma_value_nonnegative(digits);
        if digits != rest {
            assert(rest =~= seq!['+'] + digits);
            assert(s =~= zero_x(times) + seq!['+'] + digits);
        }
        let start = lemma_front(s, times, digits);
        assert(text::all_hex_digits(s.skip(start)));
    }
    if exists|start: int|
        0 <= start < s.len() && text::all_hex_digits(#[trigger] s.skip(start)) && text::hex_value(
            s.skip(start),
        ) == v && forall|i: int|
            0 <= i < start ==> #[trigger] s[i] == (if i == start - 1 && start % 2 == 1 {
                '+'
            } else if i % 2 == 0 {
                '0'
            } else {
                'x'
            }) {
        let start = choose|start: int|
            0 <= start < s.len() && text::all_hex_digits(#[trigger] s.skip(start))
                && text::hex_value(s.skip(start)) == v && forall|i: int|
                0 <= i < start ==> #[trigger] s[i] == (if i == start - 1 && start % 2 == 1 {
                    '+'
                } else if i % 2 == 0 {
                    '0'
                } else {
                    'x'
                });
        let digits = s.skip(start);
        lemma_ends_in(s, start);
        assert(text::digit_value(digits[0]) is Some);
        if digits.len() >= 2 {
            assert(text::digit_value(digits[1]) is Some);
        }
        lemma_digits_found(s, (start / 2) as nat, digits);
    }
}

/// A text that is no quantity is refused with the text itself.
pub proof fn law_quantity_fault_tells_the_text(s: Seq<char>)
    ensures
        quantity_outcome(s) matches Err(e) ==> (e matches ExtractErrorView::InvalidHex {
            value,
            ..
        } && value == s),
{
}

/// A text is refused as empty if and only if it holds nothing but prefixes.
pub proof fn law_nothing_but_prefixes_is_empty(s: Seq<char>)
    ensures
        quantity_outcome(s) == Err::<u64, ExtractErrorView>(
            ExtractErrorView::InvalidHex { value: s, fault: HexFault::Empty },
        ) <==> s.len() % 2 == 0 && forall|i: int|
            0 <= i < s.len() ==> #[trigger] s[i] == (if i % 2 == 0 {
                '0'
            } else {
                'x'
            }),
{
    let times = lemma_prefixes(s);
    if trim_prefixes(s).len() == 0 {
        assert(s =~= zero_x(times));
    }
    if s.len() % 2 == 0 && forall|i: int|
        0 <= i < s.len() ==> #[trigger] s[i] == (if i % 2 == 0 {
            '0'
        } else {
            'x'
        }) {
        lemma_ends_in(s, s.len() as int);
        assert(s.skip(s.len() as int) =~= Seq::<char>::empty());
        assert(s =~= zero_x(s.len() / 2) + Seq::<char>::empty());
        lemma_trims_all(s.len() / 2, Seq::<char>::empty());
    }
}

/// A text is refused as too large if and only if the digits behind prefixes and sign, or some
/// leading ones of them, denote more than 64 bits can hold.
pub proof fn law_large_numbers_overflow(s: Seq<char>)
    ensures
        quantity_outcome(s) == Err::<u64, ExtractErrorView>(
            ExtractErrorView::InvalidHex { value: s, fault: HexFault::Overflow },
        ) <==> exists|start: int, end: int|
            0 <= start < end <= s.len() && text::all_hex_digits(#[trigger] s.subrange(start, end))
                && text::hex_value(s.subrange(start, end)) > u64::MAX && forall|i: int|
                0 <= i < start ==> #[trigger] s[i] == (if i == start - 1 && start % 2 == 1 {
                    '+'
                } else if i % 2 == 0 {
                    '0'
                } else {
                    'x'
                }),
{
    let times = lemma_prefixes(s);
    let rest = trim_prefixes(s);
    let own = quantity_digits(s);
    if quantity_outcome(s) == Err::<u64, ExtractErrorView>(
        ExtractErrorView::InvalidHex { value: s, fault: HexFault::Overflow },
    ) {
        let k = choose|k: int|
            0 <= k <= own.len() && text::all_hex_digits(#[trigger] own.take(k))
                && text::hex_value(own.take(k)) > u64::MAX;
        if own != rest {
            assert(rest =~= seq!['+'] + own);
            assert(s =~= zero_x(times) + seq!['+'] + own);
        }
        let start = lemma_front(s, times, own);
        assert(own.take(k) =~= s.subrange(start, start + k));
    }
    if exists|start: int, end: int|
        0 <= start < end <= s.len() && text::all_hex_digits(#[trigger] s.subrange(start, end))
            && text::hex_value(s.subrange(start, end)) > u64::MAX && forall|i: int|
            0 <= i < start ==> #[trigger] s[i] == (if i == start - 1 && start % 2 == 1 {
                '+'
            } else if i % 2 == 0 {
                '0'
            } else {
                'x'
            }) {
        let (start, end) = choose|start: int, end: int|
            0 <= start < end <= s.len() && text::all_hex_digits(#[trigger] s.subrange(start, end))
                && text::hex_value(s.subrange(start, end)) > u64::MAX && forall|i: int|
                0 <= i < start ==> #[trigger] s[i] == (if i == start - 1 && start % 2 == 1 {
                    '+'
                } else if i % 2 == 0 {
                    '0'
                } else {
                    'x'
                });
        let digits = s.subrange(start, end);
        lemma_ends_in(s, start);
        assert(text::digit_value(digits[0]) is Some);
        if digits.len() == 1 {
            assert(digits.drop_last() =~= Seq::<char>::empty());
            assert(text::hex_value(digits.drop_last()) == 0);
        } else {
            assert(text::digit_value(digits[1]) is Some);
        }
        let tail = s.skip(start);
        assert(tail[0] == digits[0]);
        assert(digits.len() >= 2 ==> tail[1] == digits[1]);
        lemma_digits_found(s, (start / 2) as nat, tail);
        assert(own.take(end - start) =~= digits);
        if text::all_hex_digits(own) {
            lemma_value_of_prefix(own, end - start);
        }
    }
}

/// The tag of a block is `0x` and the shortest lower case notation of its number.
pub proof fn law_tag_notation(number: u64, i: int)
    ensures
        block_tag_text(number).len() >= 3,
        block_tag_text(number)[0] == '0',
        block_tag_text(number)[1] == 'x',
        block_tag_text(number).len() > 3 ==> block_tag_text(number)[2] != '0',
        2 <= i < block_tag_text(number).len() ==> "0123456789abcdef"@.contains(
            block_tag_text(number)[i],
        ),
{
    reveal_strlit("0x");
    text::law_notation_is_short(number as nat);
    let digits = text::hexadecimal_text(number as nat);
    assert(block_tag_text(number).skip(2) =~= digits);
    if 2 <= i < block_tag_text(number).len() {
        lemma_lower_case(number as nat, i - 2);
        assert(block_tag_text(number)[i] == digits[i - 2]);
    }
}

/// Hexadecimal notation is in lower case.
proof fn lemma_lower_case(n: nat, i: int)
    requires
        0 <= i < text::hexadecimal_text(n).len(),
    ensures
        "0123456789abcdef"@.contains(text::hexadecimal_text(n)[i]),
    decreases n,
{
    let s = text::hexadecimal_text(n);
    let d = if n < 16 {
        n as int
    } else {
        (n % 16) as int
    };
    text::law_digits(d, '0');
    reveal_strlit("0123456789abcdef");
    if n < 16 {
        assert("0123456789abcdef"@[d] == s[i]);
    } else {
        let shorter = text::hexadecimal_text(n / 16);
        assert(s =~= shorter.push(text::digit_char(d)));
        if i < shorter.len() {
            lemma_lower_case(n / 16, i);
        } else {
            assert("0123456789abcdef"@[d] == s[i]);
        }
    }
}

} // verus!
