//! Numerals as text: digits, decimal and hexadecimal notation.

use vstd::arithmetic::power::{lemma_pow0, pow};
use vstd::prelude::*;
use vstd::string::StringExecFns;

verus! {

/// The texts of strings.
pub open spec fn texts(strings: Seq<String>) -> Seq<Seq<char>> {
    Seq::new(strings.len(), |i: int| strings[i]@)
}

/// The character of digit `d`, for `d` below sixteen; letters are lower case.
pub open spec fn digit_char(d: int) -> char {
    if d < 10 {
        (48 + d) as char
    } else {
        (87 + d) as char
    }
}

/// The value of a hexadecimal digit of either case.
pub open spec fn digit_value(c: char) -> Option<int> {
    if '0' <= c <= '9' {
        Some(c as int - 48)
    } else if 'a' <= c <= 'f' {
        Some(c as int - 87)
    } else if 'A' <= c <= 'F' {
        Some(c as int - 55)
    } else {
        None
    }
}

/// Every character is a hexadecimal digit.
pub open spec fn all_hex_digits(s: Seq<char>) -> bool {
    forall|i: int| 0 <= i < s.len() ==> digit_value(#[trigger] s[i]) is Some
}

/// What a sequence of hexadecimal digits denotes, most significant digit first.
pub open spec fn hex_value(s: Seq<char>) -> int
    decreases s.len(),
{
    if s.len() == 0 {
        0
    } else {
        hex_value(s.drop_last()) * 16 + digit_value(s.last())->0
    }
}

/// `n` in positional notation without leading zeros.
pub open spec fn numeral(n: nat, base: nat) -> Seq<char>
    decreases n,
{
    if base < 2 || n < base {
        seq![digit_char(n as int)]
    } else {
        proof {
            vstd::arithmetic::div_mod::lemma_div_decreases(n as int, base as int);
        }
        numeral(n / base, base).push(digit_char((n % base) as int))
    }
}

/// `n` in decimal notation.
pub open spec fn decimal_text(n: nat) -> Seq<char> {
    numeral(n, 10)
}

/// `n` in lower case hexadecimal notation, without a prefix.
pub open spec fn hexadecimal_text(n: nat) -> Seq<char> {
    numeral(n, 16)
}

/// `n` in decimal notation, filled up with zeros on the left to three digits.
pub open spec fn three_digits_text(n: nat) -> Seq<char> {
    let digits = decimal_text(n);
    if digits.len() == 1 {
        seq!['0', '0'] + digits
    } else if digits.len() == 2 {
        seq!['0'] + digits
    } else {
        digits
    }
}

/// The text of one digit.
fn digit_str(d: u64) -> (res: &'static str)
    requires
        d < 16,
    ensures
        res@ == seq![digit_char(d as int)],
{
    proof {
        reveal_strlit("0");
        reveal_strlit("1");
        reveal_strlit("2");
        reveal_strlit("3");
        reveal_strlit("4");
        reveal_strlit("5");
        reveal_strlit("6");
        reveal_strlit("7");
        reveal_strlit("8");
        reveal_strlit("9");
        reveal_strlit("a");
        reveal_strlit("b");
        reveal_strlit("c");
        reveal_strlit("d");
        reveal_strlit("e");
        reveal_strlit("f");
    }
    match d {
        0 => "0",
        1 => "1",
        2 => "2",
        3 => "3",
        4 => "4",
        5 => "5",
        6 => "6",
        7 => "7",
        8 => "8",
        9 => "9",
        10 => "a",
        11 => "b",
        12 => "c",
        13 => "d",
        14 => "e",
        _ => "f",
    }
}

/// `n` in positional notation without leading zeros.
fn numeral_string(n: u64, base: u64) -> (res: String)
    requires
        2 <= base <= 16,
    ensures
        res@ == numeral(n as nat, base as nat),
    decreases n,
{
    if n < base {
        digit_str(n).to_owned()
    } else {
        assert(n / base < n && n % base < base) by (nonlinear_arith)
            requires
                2 <= base <= n,
        ;
        let mut out = numeral_string(n / base, base);
        out.append(digit_str(n % base));
        assert(out@ =~= numeral(n as nat, base as nat));
        out
    }
}

/// `n` in decimal notation.
pub fn decimal(n: u64) -> (res: String)
    ensures
        res@ == decimal_text(n as nat),
{
    numeral_string(n, 10)
}

/// `n` in lower case hexadecimal notation, without a prefix.
pub fn hexadecimal(n: u64) -> (res: String)
    ensures
        res@ == hexadecimal_text(n as nat),
{
    numeral_string(n, 16)
}

/// `n` in decimal notation, filled up with zeros on the left to three digits.
pub fn three_digits(n: u64) -> (res: String)
    ensures
        res@ == three_digits_text(n as nat),
{
    proof {
        reveal_strlit("0");
        reveal_strlit("00");
        reveal_with_fuel(numeral, 4);
        assert(n >= 100 ==> numeral(n as nat / 10 / 10, 10).len() >= 1);
    }
    if n < 10 {
        let mut out = "00".to_owned();
        out.append(decimal(n).as_str());
        assert(out@ =~= three_digits_text(n as nat));
        out
    } else if n < 100 {
        let mut out = "0".to_owned();
        out.append(decimal(n).as_str());
        assert(out@ =~= three_digits_text(n as nat));
        out
    } else {
        decimal(n)
    }
}

/// The characters of a text, one by one.
pub(crate) fn chars_of(s: &str) -> (res: Vec<char>)
    ensures
        res@ == s@,
{
    let mut out: Vec<char> = Vec::new();
    for c in it: s.chars()
        invariant
            out@ == it.seq().take(it.index()),
            it.seq() == s@,
    {
        out.push(c);
    }
    out
}

/// Every character is a decimal digit.
pub open spec fn all_decimal_digits(s: Seq<char>) -> bool {
    forall|i: int| 0 <= i < s.len() ==> '0' <= #[trigger] s[i] <= '9'
}

/// What decimal digits denote, most significant digit first.
pub open spec fn decimal_value(s: Seq<char>) -> int
    decreases s.len(),
{
    if s.len() == 0 {
        0
    } else {
        decimal_value(s.drop_last()) * 10 + (s.last() as int - 48)
    }
}

/// Decimal notation consists of digits and denotes the number.
pub proof fn law_decimal_reads_back(n: nat)
    ensures
        all_decimal_digits(decimal_text(n)),
        decimal_value(decimal_text(n)) == n,
    decreases n,
{
    let s = decimal_text(n);
    if n < 10 {
        assert(s =~= seq![digit_char(n as int)]);
        assert(s.drop_last() =~= Seq::<char>::empty());
        assert(decimal_value(s.drop_last()) == 0);
    } else {
        let shorter = decimal_text(n / 10);
        law_decimal_reads_back(n / 10);
        assert(s =~= shorter.push(digit_char((n % 10) as int)));
        assert(s.drop_last() =~= shorter);
        assert forall|i: int| 0 <= i < s.len() implies '0' <= #[trigger] s[i] <= '9' by {
            if i < shorter.len() {
                assert(s[i] == shorter[i]);
            }
        }
    }
}

/// A leading zero does not change what digits denote.
proof fn lemma_leading_zero(s: Seq<char>)
    ensures
        decimal_value(seq!['0'] + s) == decimal_value(s),
    decreases s.len(),
{
    let t = seq!['0'] + s;
    if s.len() == 0 {
        assert(t.drop_last() =~= Seq::<char>::empty());
        assert(decimal_value(t.drop_last()) == 0);
    } else {
        lemma_leading_zero(s.drop_last());
        assert(t.drop_last() =~= seq!['0'] + s.drop_last());
    }
}

/// Notation with three digits or more consists of digits and denotes the number.
pub proof fn law_three_digits_reads_back(n: nat)
    ensures
        all_decimal_digits(three_digits_text(n)),
        decimal_value(three_digits_text(n)) == n,
{
    let digits = decimal_text(n);
    law_decimal_reads_back(n);
    lemma_leading_zero(digits);
    lemma_leading_zero(seq!['0'] + digits);
    assert(seq!['0'] + (seq!['0'] + digits) =~= seq!['0', '0'] + digits);
}

/// The digits in their order: what a digit is written as, and what a character denotes.
pub proof fn law_digits(d: int, c: char)
    ensures
        0 <= d < 16 ==> digit_char(d) == "0123456789abcdef"@[d],
        digit_value(c) == Some(d) <==> 0 <= d < 16 && (c == "0123456789abcdef"@[d] || c
            == "0123456789ABCDEF"@[d]),
{
    reveal_strlit("0123456789abcdef");
    reveal_strlit("0123456789ABCDEF");
}

/// Of hexadecimal digits in a row the latter weigh one, the former sixteen times as much for each
/// of the latter; one digit denotes its value.
pub proof fn law_hex_value_is_positional(a: Seq<char>, b: Seq<char>, c: char)
    ensures
        hex_value(a + b) == hex_value(a) * pow(16, b.len()) + hex_value(b),
        digit_value(c) matches Some(d) ==> hex_value(seq![c]) == d,
    decreases b.len(),
{
    assert(seq![c].drop_last() =~= Seq::<char>::empty());
    assert(hex_value(seq![c].drop_last()) == 0);
    if b.len() == 0 {
        assert(a + b =~= a);
        lemma_pow0(16);
    } else {
        let shorter = b.drop_last();
        law_hex_value_is_positional(a, shorter, c);
        assert((a + b).drop_last() =~= a + shorter);
        reveal(pow);
        let p = pow(16, shorter.len());
        let v = hex_value(a);
        assert(pow(16, b.len()) == 16 * p);
        assert((v * p) * 16 == v * (16 * p)) by (nonlinear_arith);
    }
}

/// Of decimal digits in a row the latter weigh one, the former ten times as much for each of the
/// latter; one digit denotes its value.
pub proof fn law_decimal_value_is_positional(a: Seq<char>, b: Seq<char>, d: int)
    ensures
        decimal_value(a + b) == decimal_value(a) * pow(10, b.len()) + decimal_value(b),
        0 <= d < 10 ==> decimal_value(seq!["0123456789"@[d]]) == d,
    decreases b.len(),
{
    reveal_strlit("0123456789");
    let one = seq!["0123456789"@[d]];
    assert(one.drop_last() =~= Seq::<char>::empty());
    assert(decimal_value(one.drop_last()) == 0);
    if b.len() == 0 {
        assert(a + b =~= a);
        lemma_pow0(10);
    } else {
        let shorter = b.drop_last();
        law_decimal_value_is_positional(a, shorter, d);
        assert((a + b).drop_last() =~= a + shorter);
        reveal(pow);
        let p = pow(10, shorter.len());
        let v = decimal_value(a);
        assert(pow(10, b.len()) == 10 * p);
        assert((v * p) * 10 == v * (10 * p)) by (nonlinear_arith);
    }
}

/// A numeral has a digit, and none but that of zero starts with a zero.
proof fn lemma_no_leading_zero(n: nat, base: nat)
    requires
        2 <= base <= 16,
    ensures
        numeral(n, base).len() > 0,
        n > 0 ==> numeral(n, base)[0] != '0',
        n < base ==> numeral(n, base).len() == 1,
    decreases n,
{
    if n >= base {
        vstd::arithmetic::div_mod::lemma_div_decreases(n as int, base as int);
        assert(n / base > 0) by (nonlinear_arith)
            requires
                2 <= base <= n,
        ;
        lemma_no_leading_zero(n / base, base);
        assert(numeral(n, base)[0] == numeral(n / base, base)[0]);
    }
}

/// Decimal and hexadecimal notation have a digit, and no zero in front of another digit;
/// notation with three digits or more is filled up to three digits and no further.
pub proof fn law_notation_is_short(n: nat)
    ensures
        decimal_text(n).len() > 0,
        decimal_text(n).len() > 1 ==> decimal_text(n)[0] != '0',
        hexadecimal_text(n).len() > 0,
        hexadecimal_text(n).len() > 1 ==> hexadecimal_text(n)[0] != '0',
        three_digits_text(n).len() >= 3,
        three_digits_text(n).len() > 3 ==> three_digits_text(n)[0] != '0',
{
    lemma_no_leading_zero(n, 10);
    lemma_no_leading_zero(n, 16);
}

/// The texts of strings are those of each string, in order.
pub proof fn law_texts_one_by_one(strings: Seq<String>, i: int)
    requires
        0 <= i < strings.len(),
    ensures
        texts(strings).len() == strings.len(),
        texts(strings)[i] == strings[i]@,
{
}

} // verus!
