//! Text of values: lower-case hexadecimal for byte strings, decimal for
//! counts.

use vstd::prelude::*;
use vstd::string::StringExecFns;

verus! {

/// The hexadecimal digit of a value below 16.
pub open spec fn spec_hex_char(nibble: u8) -> char {
    "0123456789abcdef"@[nibble as int]
}

/// The hexadecimal text of a byte string: two lower-case digits per byte,
/// high digit first.
pub open spec fn spec_hex(bytes: Seq<u8>) -> Seq<char> {
    Seq::new(
        2 * bytes.len(),
        |at: int|
            if at % 2 == 0 {
                spec_hex_char(bytes[at / 2] / 16)
            } else {
                spec_hex_char(bytes[at / 2] % 16)
            },
    )
}

/// The hexadecimal digit of a value below 16, as text.
fn hex_digit(nibble: u8) -> (digit: &'static str)
    requires
        nibble < 16,
    ensures
        digit@ == seq![spec_hex_char(nibble)],
{
    proof {
        reveal_strlit("0123456789abcdef");
        reveal_strlit("0");
        reveal_strlit("1");
        reveal_strlit("2");
        reveal_strlit("3");
        reveal_strlit("4");
        reveal_strlit("5");
        reveal_strlit("6");
        reveal_strlit("7");
        reveal_strlit("8");
        reveal_strlit("9");
        reveal_strlit("a");
        reveal_strlit("b");
        reveal_strlit("c");
        reveal_strlit("d");
        reveal_strlit("e");
        reveal_strlit("f");
    }
    let digit = match nibble {
        0 => "0",
        1 => "1",
        2 => "2",
        3 => "3",
        4 => "4",
        5 => "5",
        6 => "6",
        7 => "7",
        8 => "8",
        9 => "9",
        10 => "a",
        11 => "b",
        12 => "c",
        13 => "d",
        14 => "e",
        _ => "f",
    };
    assert(digit@ =~= seq![spec_hex_char(nibble)]);
    digit
}

/// Writes a byte string as lower-case hexadecimal text.
pub fn to_hex(bytes: &[u8]) -> (text: String)
    ensures
        text@ == spec_hex(bytes@),
{
    let mut text = String::new();
    let mut next: usize = 0;
    assert(text@ =~= spec_hex(bytes@).take(0));
    while next < bytes.len()
        invariant
            next <= bytes.len(),
            text@ == spec_hex(bytes@).take(2 * next),
        decreases bytes.len() - next,
    {
        let byte = bytes[next];
        text.append(hex_digit(byte / 16));
        text.append(hex_digit(byte % 16));
        assert(text@ =~= spec_hex(bytes@).take(2 * (next + 1)));
        next += 1;
    }
    assert(spec_hex(bytes@).take(2 * next) =~= spec_hex(bytes@));
    text
}

/// The decimal text of a number, without leading zeros.
pub open spec fn spec_decimal(n: nat) -> Seq<char>
    decreases n,
{
    if n < 10 {
        seq![spec_hex_char(n as u8)]
    } else {
        spec_decimal(n / 10).push(spec_hex_char((n % 10) as u8))
    }
}

/// Writes a number as decimal text.
pub fn decimal(n: usize) -> (text: String)
    ensures
        text@ == spec_decimal(n as nat),
    decreases n,
{
    if n < 10 {
        String::from_str(hex_digit(n as u8))
    } else {
        let front = decimal(n / 10);
        let last = hex_digit((n % 10) as u8);
        let text = front.concat(last);
        assert(text@ =~= spec_decimal((n / 10) as nat).push(spec_hex_char((n % 10) as u8)));
        text
    }
}

} // verus!
