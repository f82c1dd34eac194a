//! Random identifiers and their text.
use vstd::prelude::*;

verus! {

/// Whether a number has the version and the variant of a random UUID.
pub open spec fn is_random_id(id: u128) -> bool {
    (id / 0x1000_0000_0000_0000_0000) % 16 == 4 && (id / 0x4000_0000_0000_0000) % 4 == 2
}

/// `uuid::Uuid::new_v4` gives an identifier at random, here as a number. All that is
/// certain of it is that it is of the fourth version and of the common variant.
#[verifier::external_body]
fn random_uuid() -> (id: u128)
    ensures
        is_random_id(id),
{
    uuid::Uuid::new_v4().as_u128()
}

/// The character of a hexadecimal digit.
pub open spec fn hex_digit(n: nat) -> char {
    if n < 10 {
        crate::number::digit(n)
    } else if n == 10 {
        'a'
    } else if n == 11 {
        'b'
    } else if n == 12 {
        'c'
    } else if n == 13 {
        'd'
    } else if n == 14 {
        'e'
    } else {
        'f'
    }
}

/// The last `width` hexadecimal digits of a number.
pub open spec fn hex(n: nat, width: nat) -> Seq<char>
    decreases width,
{
    if width == 0 {
        Seq::empty()
    } else {
        hex(n / 16, (width - 1) as nat).push(hex_digit(n % 16))
    }
}

/// `uuid::Uuid::simple` gives the text of an identifier: its 32 hexadecimal digits, in
/// lower case and without hyphens.
#[verifier::external_body]
fn simple_text(id: u128) -> (text: String)
    ensures
        text@ == hex(id as nat, 32),
{
    uuid::Uuid::from_u128(id).simple().to_string()
}

/// A new identifier.
pub fn new_id() -> (id: u128)
    ensures
        is_random_id(id),
{
    random_uuid()
}

/// The text of an identifier: its 32 hexadecimal digits.
pub fn id_digits(id: u128) -> (text: String)
    ensures
        text@ == hex(id as nat, 32),
{
    simple_text(id)
}

/// So many digits are so many characters.
pub proof fn lemma_hex_len(n: nat, width: nat)
    ensures
        hex(n, width).len() == width,
    decreases width,
{
    if width > 0 {
        lemma_hex_len(n / 16, (width - 1) as nat);
    }
}

/// Two identifiers with the same text are the same.
pub proof fn law_id_digits_identify(left: u128, right: u128)
    ensures
        hex(left as nat, 32) == hex(right as nat, 32) ==> left == right,
{
    if hex(left as nat, 32) == hex(right as nat, 32) {
        assert(vstd::arithmetic::power::pow(16, 32) == 0x1_0000_0000_0000_0000_0000_0000_0000_0000)
            by {
            reveal_with_fuel(vstd::arithmetic::power::pow, 33);
        }
        lemma_hex_injective(left as nat, right as nat, 32);
    }
}

proof fn lemma_hex_injective(left: nat, right: nat, width: nat)
    requires
        hex(left, width) == hex(right, width),
        left < vstd::arithmetic::power::pow(16, width),
        right < vstd::arithmetic::power::pow(16, width),
    ensures
        left == right,
    decreases width,
{
    reveal(vstd::arithmetic::power::pow);
    if width > 0 {
        let a = hex(left / 16, (width - 1) as nat);
        let b = hex(right / 16, (width - 1) as nat);
        assert(hex(left, width).drop_last() =~= a);
        assert(hex(right, width).drop_last() =~= b);
        assert(hex(left, width).last() == hex_digit(left % 16));
        assert(hex(right, width).last() == hex_digit(right % 16));
        assert(left % 16 == right % 16);
        assert(left / 16 < vstd::arithmetic::power::pow(16, (width - 1) as nat));
        assert(right / 16 < vstd::arithmetic::power::pow(16, (width - 1) as nat));
        lemma_hex_injective(left / 16, right / 16, (width - 1) as nat);
    }
}

/// Hexadecimal digits count from nought to nine and then from small a to f.
pub proof fn law_hex_counts_in_sixteens(n: nat, width: nat)
    requires
        width > 0,
    ensures
        hex(n, width).len() == width,
        hex(n, width).drop_last() == hex(n / 16, (width - 1) as nat),
        n % 16 < 10 ==> hex(n, width).last() as int == '0' as int + n % 16,
        n % 16 >= 10 ==> hex(n, width).last() as int == 'a' as int + n % 16 - 10,
{
    lemma_hex_len(n, width);
    assert(hex(n, width).drop_last() =~= hex(n / 16, (width - 1) as nat));
}

} // verus!
