//! Numbers and bytes as text.
use vstd::prelude::*;

verus! {

/// `String::push` puts a character behind the text and changes nothing else.
pub assume_specification[ String::push ](s: &mut String, c: char)
    ensures
        final(s)@ == old(s)@.push(c),
;

/// The digit for a value below 16, in upper case.
pub open spec fn digit(d: nat) -> char {
    if d < 10 {
        (('0' as int) + d) as char
    } else {
        (('A' as int) + d - 10) as char
    }
}

/// The decimal representation of `n`, without leading zeros.
pub open spec fn decimal_of(n: nat) -> Seq<char>
    decreases n,
{
    if n < 10 {
        seq![digit(n)]
    } else {
        decimal_of(n / 10).push(digit(n % 10))
    }
}

/// Two digits for each byte, the upper half of the byte first.
pub open spec fn hex_of(bytes: Seq<u8>) -> Seq<char> {
    Seq::new(
        2 * bytes.len(),
        |k: int|
            if k % 2 == 0 {
                digit(bytes[k / 2] as nat / 16)
            } else {
                digit(bytes[k / 2] as nat % 16)
            },
    )
}

/// The digit for a value below 16.
pub fn digit_char(d: u8) -> (r: char)
    requires
        d < 16,
    ensures
        r == digit(d as nat),
{
    if d < 10 {
        (48u8 + d) as char
    } else {
        (55u8 + d) as char
    }
}

/// Puts the decimal representation of `n` behind the text.
pub fn push_decimal(text: &mut String, n: u64)
    ensures
        final(text)@ == old(text)@ + decimal_of(n as nat),
    decreases n,
{
    if n >= 10 {
        push_decimal(text, n / 10);
    }
    text.push(digit_char((n % 10) as u8));
    proof {
        assert(text@ =~= old(text)@ + decimal_of(n as nat));
    }
}

/// Puts the given text behind the text.
pub fn push_text(text: &mut String, more: &str)
    ensures
        final(text)@ == old(text)@ + more@,
{
    text.append(more);
}

/// The decimal representation of `n`.
pub fn decimal(n: u64) -> (r: String)
    ensures
        r@ == decimal_of(n as nat),
{
    let mut text = String::new();
    push_decimal(&mut text, n);
    proof {
        assert(text@ =~= decimal_of(n as nat));
    }
    text
}

/// The bytes in hexadecimal, two upper case digits each.
pub fn hex(value: &[u8]) -> (r: String)
    ensures
        r@ == hex_of(value@),
{
    let mut text = String::new();
    let mut k: usize = 0;
    while k < value.len()
        invariant
            k <= value@.len(),
            text@ == hex_of(value@.take(k as int)),
        decreases value@.len() - k,
    {
        text.push(digit_char(value[k] / 16));
        text.push(digit_char(value[k] % 16));
        proof {
            let next = value@.take(k + 1);
            assert forall|x: int| 0 <= x < 2 * k implies hex_of(value@.take(k as int))[x] == hex_of(
                next,
            )[x] by {
                assert(value@.take(k as int)[x / 2] == next[x / 2]);
            }
            assert(text@ =~= hex_of(next));
        }
        k = k + 1;
    }
    proof {
        assert(value@.take(k as int) =~= value@);
    }
    text
}

/// The value of a decimal digit.
pub open spec fn decimal_digit(c: char) -> int {
    c as int - '0' as int
}

/// The number that decimal digits stand for.
pub open spec fn number_of(digits: Seq<char>) -> int
    decreases digits.len(),
{
    if digits.len() == 0 {
        0
    } else {
        10 * number_of(digits.drop_last()) + decimal_digit(digits.last())
    }
}

/// The value of a hexadecimal digit in upper case.
pub open spec fn hexadecimal_digit(c: char) -> int {
    if '0' <= c <= '9' {
        c as int - '0' as int
    } else {
        c as int - 'A' as int + 10
    }
}

/// The decimal representation of a number consists of decimal digits, does not start with 0 unless
/// it is 0, and stands for the number.
pub proof fn law_decimal(n: nat)
    ensures
        number_of(decimal_of(n)) == n,
        decimal_of(n).len() >= 1,
        decimal_of(n).len() > 1 ==> decimal_of(n)[0] != '0',
        forall|k: int| 0 <= k < decimal_of(n).len() ==> '0' <= #[trigger] decimal_of(n)[k] <= '9',
    decreases n,
{
    let digits = decimal_of(n);
    reveal_with_fuel(number_of, 2);
    if n < 10 {
        assert(digits.drop_last() =~= seq![]);
    } else {
        law_decimal(n / 10);
        let high = decimal_of(n / 10);
        assert(digits.drop_last() =~= high);
        assert(digits[0] == high[0]);
        if high.len() == 1 {
            assert(number_of(high.drop_last()) == 0) by {
                assert(high.drop_last() =~= seq![]);
            }
        }
        assert forall|k: int| 0 <= k < digits.len() implies '0' <= #[trigger] digits[k] <= '9' by {
            if k < high.len() {
                assert(digits[k] == high[k]);
            }
        }
    }
}

/// The hexadecimal form of bytes has two digits for each byte, in upper case, of which the first
/// stands for its upper half.
pub proof fn law_hex(bytes: Seq<u8>)
    ensures
        hex_of(bytes).len() == 2 * bytes.len(),
        forall|k: int|
            0 <= k < bytes.len() ==> #[trigger] bytes[k] == 16 * hexadecimal_digit(
                hex_of(bytes)[2 * k],
            ) + hexadecimal_digit(hex_of(bytes)[2 * k + 1]),
        forall|x: int|
            0 <= x < 2 * bytes.len() ==> ('0' <= #[trigger] hex_of(bytes)[x] <= '9') || ('A'
                <= hex_of(bytes)[x] <= 'F'),
{
    assert forall|k: int| 0 <= k < bytes.len() implies #[trigger] bytes[k] == 16
        * hexadecimal_digit(hex_of(bytes)[2 * k]) + hexadecimal_digit(
        hex_of(bytes)[2 * k + 1],
    ) by {
        assert((2 * k) / 2 == k && (2 * k + 1) / 2 == k && (2 * k) % 2 == 0 && (2 * k + 1) % 2
            == 1);
    }
}

} // verus!
