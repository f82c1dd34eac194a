//! Numbers: their decimal text, reading them, and the order of doubles given as bits.
use crate::text::chars_of;
use vstd::prelude::*;

verus! {

/// The character of a decimal digit.
pub open spec fn digit(n: nat) -> char {
    if n == 0 {
        '0'
    } else if n == 1 {
        '1'
    } else if n == 2 {
        '2'
    } else if n == 3 {
        '3'
    } else if n == 4 {
        '4'
    } else if n == 5 {
        '5'
    } else if n == 6 {
        '6'
    } else if n == 7 {
        '7'
    } else if n == 8 {
        '8'
    } else {
        '9'
    }
}

/// A number in decimal notation.
pub open spec fn digits(n: nat) -> Seq<char>
    decreases n,
{
    if n < 10 {
        seq![digit(n)]
    } else {
        digits(n / 10).push(digit(n % 10))
    }
}

/// The character of a decimal digit.
fn digit_char(n: u64) -> (c: char)
    requires
        n < 10,
    ensures
        c == digit(n as nat),
{
    match n {
        0 => '0',
        1 => '1',
        2 => '2',
        3 => '3',
        4 => '4',
        5 => '5',
        6 => '6',
        7 => '7',
        8 => '8',
        _ => '9',
    }
}

/// A number in decimal notation.
pub fn decimal(n: u64) -> (text: String)
    ensures
        text@ == digits(n as nat),
    decreases n,
{
    if n < 10 {
        let mut text = String::new();
        text.push(digit_char(n));
        proof {
            assert(text@ =~= seq![digit(n as nat)]);
        }
        text
    } else {
        let mut text = decimal(n / 10);
        text.push(digit_char(n % 10));
        text
    }
}

/// The value of a decimal digit.
pub open spec fn digit_value(c: char) -> int {
    if '0' <= c <= '9' {
        c as u32 - '0' as u32
    } else {
        -1
    }
}

/// The number that a row of decimal digits denotes.
pub open spec fn value_of(digits: Seq<char>) -> nat
    decreases digits.len(),
{
    if digits.len() == 0 {
        0
    } else {
        (value_of(digits.drop_last()) * 10 + digit_value(digits.last())) as nat
    }
}

/// Whether a text is a row of decimal digits.
pub open spec fn is_number(text: Seq<char>) -> bool {
    text.len() > 0 && forall|i: int| 0 <= i < text.len() ==> '0' <= #[trigger] text[i] <= '9'
}

/// The text of a number without the plus sign that may stand before it.
pub open spec fn unsigned(text: Seq<char>) -> Seq<char> {
    if text.len() > 1 && text[0] == '+' {
        text.skip(1)
    } else {
        text
    }
}

/// The number up to `limit` that a text denotes, if it denotes one.
pub open spec fn parsed(text: Seq<char>, limit: nat) -> Option<nat> {
    if is_number(unsigned(text)) && value_of(unsigned(text)) <= limit {
        Some(value_of(unsigned(text)))
    } else {
        None
    }
}

/// More digits give no smaller number.
proof fn lemma_value_grows(digits: Seq<char>, len: int)
    requires
        is_number(digits),
        0 <= len <= digits.len(),
    ensures
        value_of(digits.take(len)) <= value_of(digits),
    decreases digits.len(),
{
    if len == digits.len() {
        assert(digits.take(len) =~= digits);
    } else if digits.len() > 1 {
        lemma_value_grows(digits.drop_last(), len);
        assert(digits.drop_last().take(len) =~= digits.take(len));
        assert('0' <= digits[digits.len() - 1] <= '9');
    } else {
        assert(digits.take(len) =~= Seq::empty());
    }
}

/// Reads a number as `u64` is read from text: decimal digits, a plus sign before them
/// or not, and nothing else.
pub fn parse_u64(text: &str) -> (number: Option<u64>)
    ensures
        match number {
            Some(n) => parsed(text@, u64::MAX as nat) == Some(n as nat),
            None => parsed(text@, u64::MAX as nat) is None,
        },
{
    let chars = chars_of(text);
    let start: usize = if chars.len() > 1 && chars[0] == '+' {
        1
    } else {
        0
    };
    let ghost row = unsigned(text@);
    proof {
        assert(row =~= chars@.skip(start as int));
        assert(row.take(0) =~= Seq::empty());
    }
    if chars.len() == 0 {
        return None;
    }
    let mut n: u64 = 0;
    let mut i: usize = start;
    while i < chars.len()
        invariant
            start <= i <= chars.len(),
            row == chars@.skip(start as int),
            row == unsigned(text@),
            forall|k: int| 0 <= k < i - start ==> '0' <= #[trigger] row[k] <= '9',
            n == value_of(row.take(i - start)),
        decreases chars.len() - i,
    {
        let c = chars[i];
        proof {
            assert(row[i - start] == c);
        }
        if !('0' <= c && c <= '9') {
            return None;
        }
        let d: u64 = (c as u32 - '0' as u32) as u64;
        proof {
            assert(row.take(i - start + 1).drop_last() =~= row.take(i - start));
            assert(row.take(i - start + 1).last() == c);
            assert(value_of(row.take(i - start + 1)) == n * 10 + d);
        }
        if n > (u64::MAX - d) / 10 {
            proof {
                assert(n * 10 + d > u64::MAX);
                if is_number(row) {
                    lemma_value_grows(row, i - start + 1);
                }
            }
            return None;
        }
        n = n * 10 + d;
        i = i + 1;
    }
    proof {
        assert(row.take(row.len() as int) =~= row);
    }
    Some(n)
}

/// The place of a double, given by its bits, among all doubles: those with the sign
/// bit come first, in reverse.
pub open spec fn double_rank(bits: u64) -> int {
    if bits < 0x8000_0000_0000_0000 {
        bits + 0x8000_0000_0000_0000
    } else {
        u64::MAX - bits
    }
}

/// The place of a double, given by its bits, among all doubles.
pub fn rank_of_double(bits: u64) -> (rank: u64)
    ensures
        rank == double_rank(bits),
{
    if bits < 0x8000_0000_0000_0000 {
        bits + 0x8000_0000_0000_0000
    } else {
        u64::MAX - bits
    }
}

/// Two doubles have the same place only if they have the same bits.
pub proof fn law_double_rank_is_injective(left: u64, right: u64)
    ensures
        double_rank(left) == double_rank(right) ==> left == right,
{
}

/// The digits of a number denote it.
proof fn lemma_digits_denote(n: nat)
    ensures
        value_of(digits(n)) == n,
        is_number(digits(n)),
        digits(n)[0] == '0' ==> n == 0,
    decreases n,
{
    if n < 10 {
        let text = seq![digit(n)];
        assert(text.drop_last() =~= Seq::empty());
        assert(value_of(text.drop_last()) == 0);
        assert(digit_value(digit(n)) == n);
        assert(text.last() == digit(n));
    } else {
        lemma_digits_denote(n / 10);
        let text = digits(n / 10).push(digit(n % 10));
        assert(text.drop_last() =~= digits(n / 10));
        assert(digit_value(digit(n % 10)) == n % 10);
        assert forall|i: int| 0 <= i < text.len() implies '0' <= #[trigger] text[i] <= '9' by {
            if i < digits(n / 10).len() {
                assert(text[i] == digits(n / 10)[i]);
            }
        }
        assert(text[0] == digits(n / 10)[0]);
    }
}

/// What is written as a number is read as that number, with a plus sign before it and
/// without, if it is in the limit.
pub proof fn law_written_numbers_are_read(n: nat, limit: nat)
    ensures
        parsed(digits(n), limit) == (if n <= limit {
            Some(n)
        } else {
            None
        }),
        parsed(seq!['+'] + digits(n), limit) == parsed(digits(n), limit),
        parsed(seq!['-'] + digits(n), limit) is None,
        parsed(Seq::empty(), limit) is None,
{
    lemma_digits_denote(n);
    let plain = digits(n);
    assert(is_number(plain));
    assert('0' <= plain[0] <= '9');
    let plus = seq!['+'] + plain;
    assert(plus.skip(1) =~= plain);
    let minus = seq!['-'] + plain;
    assert(minus[0] == '-');
}

/// A digit behind a number makes it ten times as large and adds the digit.
pub proof fn law_digits_count_in_tens(text: Seq<char>, c: char)
    requires
        is_number(text),
        '0' <= c <= '9',
    ensures
        is_number(text.push(c)),
        value_of(text.push(c)) == 10 * value_of(text) + (c as u32 - '0' as u32),
{
    assert(text.push(c).drop_last() =~= text);
    assert forall|i: int| 0 <= i < text.push(c).len() implies '0' <= #[trigger] text.push(c)[i]
        <= '9' by {
        if i < text.len() {
            assert(text.push(c)[i] == text[i]);
        }
    }
}

/// Doubles are placed as they are ordered: those with the sign bit before those without,
/// and among each kind by their size.
pub proof fn law_double_rank_is_the_order(left: u64, right: u64)
    ensures
        left < right < 0x8000_0000_0000_0000 ==> double_rank(left) < double_rank(right),
        0x8000_0000_0000_0000 <= left < right ==> double_rank(left) > double_rank(right),
        left < 0x8000_0000_0000_0000 <= right ==> double_rank(left) > double_rank(right),
        0 <= double_rank(left) <= u64::MAX,
{
}

} // verus!
