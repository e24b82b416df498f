//! Bytes written out as text: hexadecimal and binary digits.

use vstd::prelude::*;
use vstd::string::StringExecFns;

use crate::bits::{bit_of, nat_bit};

verus! {

/// The hexadecimal digit for a number below 16, with letters in upper or
/// lower case.
pub open spec fn hex_char(n: nat, upper: bool) -> char {
    if n == 0 {
        '0'
    } else if n == 1 {
        '1'
    } else if n == 2 {
        '2'
    } else if n == 3 {
        '3'
    } else if n == 4 {
        '4'
    } else if n == 5 {
        '5'
    } else if n == 6 {
        '6'
    } else if n == 7 {
        '7'
    } else if n == 8 {
        '8'
    } else if n == 9 {
        '9'
    } else if n == 10 {
        if upper {
            'A'
        } else {
            'a'
        }
    } else if n == 11 {
        if upper {
            'B'
        } else {
            'b'
        }
    } else if n == 12 {
        if upper {
            'C'
        } else {
            'c'
        }
    } else if n == 13 {
        if upper {
            'D'
        } else {
            'd'
        }
    } else if n == 14 {
        if upper {
            'E'
        } else {
            'e'
        }
    } else {
        if upper {
            'F'
        } else {
            'f'
        }
    }
}

/// Two hexadecimal digits for every byte, the high digit first.
pub open spec fn hex_text(bytes: Seq<u8>, upper: bool) -> Seq<char> {
    Seq::new(
        2 * bytes.len(),
        |k: int|
            hex_char(
                if k % 2 == 0 {
                    (bytes[k / 2] / 16) as nat
                } else {
                    (bytes[k / 2] % 16) as nat
                },
                upper,
            ),
    )
}

/// The number of binary digits that a byte is written with: as many as it
/// takes, and two at least.
pub open spec fn binary_width(byte: u8) -> nat {
    if byte < 4 {
        2
    } else if byte < 8 {
        3
    } else if byte < 16 {
        4
    } else if byte < 32 {
        5
    } else if byte < 64 {
        6
    } else if byte < 128 {
        7
    } else {
        8
    }
}

/// A byte in binary digits, most significant first, without leading zeros
/// but for a second digit.
pub open spec fn binary_digits(byte: u8) -> Seq<char> {
    Seq::new(
        binary_width(byte),
        |k: int|
            if nat_bit(byte as nat, (binary_width(byte) - 1 - k) as nat) {
                '1'
            } else {
                '0'
            },
    )
}

/// The binary digits of every byte, one byte after the other.
pub open spec fn binary_text(bytes: Seq<u8>) -> Seq<char>
    decreases bytes.len(),
{
    if bytes.len() == 0 {
        Seq::empty()
    } else {
        binary_text(bytes.drop_last()) + binary_digits(bytes.last())
    }
}

/// The hexadecimal digit for `n`, as text.
fn hex_digit(n: u8, upper: bool) -> (digit: &'static str)
    requires
        n < 16,
    ensures
        digit@ == seq![hex_char(n as nat, upper)],
{
    proof {
        reveal_strlit("0");
        reveal_strlit("1");
        reveal_strlit("2");
        reveal_strlit("3");
        reveal_strlit("4");
        reveal_strlit("5");
        reveal_strlit("6");
        reveal_strlit("7");
        reveal_strlit("8");
        reveal_strlit("9");
        reveal_strlit("a");
        reveal_strlit("b");
        reveal_strlit("c");
        reveal_strlit("d");
        reveal_strlit("e");
        reveal_strlit("f");
        reveal_strlit("A");
        reveal_strlit("B");
        reveal_strlit("C");
        reveal_strlit("D");
        reveal_strlit("E");
        reveal_strlit("F");
    }
    let digit = if n == 0 {
        "0"
    } else if n == 1 {
        "1"
    } else if n == 2 {
        "2"
    } else if n == 3 {
        "3"
    } else if n == 4 {
        "4"
    } else if n == 5 {
        "5"
    } else if n == 6 {
        "6"
    } else if n == 7 {
        "7"
    } else if n == 8 {
        "8"
    } else if n == 9 {
        "9"
    } else if n == 10 {
        if upper {
            "A"
        } else {
            "a"
        }
    } else if n == 11 {
        if upper {
            "B"
        } else {
            "b"
        }
    } else if n == 12 {
        if upper {
            "C"
        } else {
            "c"
        }
    } else if n == 13 {
        if upper {
            "D"
        } else {
            "d"
        }
    } else if n == 14 {
        if upper {
            "E"
        } else {
            "e"
        }
    } else {
        if upper {
            "F"
        } else {
            "f"
        }
    };
    assert(digit@ =~= seq![hex_char(n as nat, upper)]);
    digit
}

/// Writes bytes in hexadecimal, two digits to the byte.
pub(crate) fn to_hex(bytes: &Vec<u8>, upper: bool) -> (text: String)
    ensures
        text@ == hex_text(bytes@, upper),
{
    let ghost target = hex_text(bytes@, upper);
    let mut text = String::new();
    let mut i: usize = 0;
    while i < bytes.len()
        invariant
            i <= bytes@.len(),
            target == hex_text(bytes@, upper),
            text@ == target.subrange(0, 2 * i),
        decreases bytes@.len() - i,
    {
        let byte = bytes[i];
        text.append(hex_digit(byte / 16, upper));
        text.append(hex_digit(byte % 16, upper));
        assert(text@ =~= target.subrange(0, 2 * (i + 1))) by {
            assert((2 * i) / 2 == i && (2 * i) % 2 == 0);
            assert((2 * i + 1) / 2 == i && (2 * i + 1) % 2 == 1);
        }
        i = i + 1;
    }
    assert(text@ =~= target);
    text
}

/// The number of binary digits that `byte` is written with.
fn width_of(byte: u8) -> (width: u8)
    ensures
        width == binary_width(byte),
        2 <= width <= 8,
{
    if byte < 4 {
        2
    } else if byte < 8 {
        3
    } else if byte < 16 {
        4
    } else if byte < 32 {
        5
    } else if byte < 64 {
        6
    } else if byte < 128 {
        7
    } else {
        8
    }
}

/// Writes bytes in binary, each byte without leading zeros but for a second
/// digit.
pub(crate) fn to_binary(bytes: &Vec<u8>) -> (text: String)
    ensures
        text@ == binary_text(bytes@),
{
    let mut text = String::new();
    let mut i: usize = 0;
    assert(bytes@.subrange(0, 0) =~= Seq::<u8>::empty());
    while i < bytes.len()
        invariant
            i <= bytes@.len(),
            text@ == binary_text(bytes@.subrange(0, i as int)),
        decreases bytes@.len() - i,
    {
        let byte = bytes[i];
        let width = width_of(byte);
        let ghost before = text@;
        let ghost digits = binary_digits(byte);
        let mut k: u8 = 0;
        while k < width
            invariant
                k <= width,
                width == binary_width(byte),
                digits == binary_digits(byte),
                text@ == before + digits.subrange(0, k as int),
            decreases width - k,
        {
            proof {
                reveal_strlit("0");
                reveal_strlit("1");
            }
            let digit = if bit_of(byte as usize, width - 1 - k) {
                "1"
            } else {
                "0"
            };
            text.append(digit);
            assert(text@ =~= before + digits.subrange(0, k + 1));
            k = k + 1;
        }
        assert(digits.subrange(0, width as int) =~= digits);
        assert(bytes@.subrange(0, i + 1).drop_last() =~= bytes@.subrange(0, i as int));
        i = i + 1;
    }
    assert(bytes@.subrange(0, bytes@.len() as int) =~= bytes@);
    text
}

} // verus!
