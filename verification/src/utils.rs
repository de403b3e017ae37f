//! Hex input and output helpers: decoding a hex string (with optional
//! `0x` prefix) to bytes, and encoding bytes as a `0x`-prefixed string.

use crate::error::EvmError;
use vstd::prelude::*;
use vstd::string::{StringExecFns, StringSliceAdditionalSpecFns};

verus! {

/// Is the byte an ASCII hex digit?
pub open spec fn is_hex_digit(c: u8) -> bool {
    (0x30 <= c <= 0x39) || (0x61 <= c <= 0x66) || (0x41 <= c <= 0x46)
}

/// The value of an ASCII hex digit.
pub open spec fn hex_digit_val(c: u8) -> nat {
    if 0x30 <= c <= 0x39 {
        (c - 0x30) as nat
    } else if 0x61 <= c <= 0x66 {
        (c - 0x61 + 10) as nat
    } else {
        (c - 0x41 + 10) as nat
    }
}

/// The input with a leading `0x` removed, if it has one.
pub open spec fn strip_0x(b: Seq<u8>) -> Seq<u8> {
    if b.len() >= 2 && b[0] == 0x30 && b[1] == 0x78 {
        b.subrange(2, b.len() as int)
    } else {
        b
    }
}

/// Is the byte string well-formed hex: even length, all hex digits?
pub open spec fn valid_hex(b: Seq<u8>) -> bool {
    b.len() % 2 == 0 && forall|i: int| 0 <= i < b.len() ==> is_hex_digit(#[trigger] b[i])
}

/// The bytes a well-formed hex string denotes, two digits each.
pub open spec fn hex_bytes(b: Seq<u8>) -> Seq<u8> {
    Seq::new(
        b.len() / 2,
        |i: int| (hex_digit_val(b[2 * i]) * 16 + hex_digit_val(b[2 * i + 1])) as u8,
    )
}

/// The lowercase hex digit for a value below 16.
pub open spec fn hex_char(d: nat) -> char {
    if d == 0 {
        '0'
    } else if d == 1 {
        '1'
    } else if d == 2 {
        '2'
    } else if d == 3 {
        '3'
    } else if d == 4 {
        '4'
    } else if d == 5 {
        '5'
    } else if d == 6 {
        '6'
    } else if d == 7 {
        '7'
    } else if d == 8 {
        '8'
    } else if d == 9 {
        '9'
    } else if d == 10 {
        'a'
    } else if d == 11 {
        'b'
    } else if d == 12 {
        'c'
    } else if d == 13 {
        'd'
    } else if d == 14 {
        'e'
    } else {
        'f'
    }
}

/// The value of one ASCII hex digit, or `None` for any other byte.
fn hex_val(c: u8) -> (r: Option<u8>)
    ensures
        is_hex_digit(c) ==> r == Some((hex_digit_val(c) as u8)),
        !is_hex_digit(c) ==> r is None,
{
    if 0x30 <= c && c <= 0x39 {
        Some(c - 0x30)
    } else if 0x61 <= c && c <= 0x66 {
        Some(c - 0x61 + 10)
    } else if 0x41 <= c && c <= 0x46 {
        Some(c - 0x41 + 10)
    } else {
        None
    }
}

/// Decode a hex string, with an optional `0x` prefix, to bytes.  The
/// decode succeeds exactly when what follows the prefix has even length
/// and holds only hex digits; anything else is `InvalidHex`.
pub fn hex_to_bytes(input: &str) -> (r: Result<Vec<u8>, EvmError>)
    ensures
        valid_hex(strip_0x(input.spec_bytes())) ==> (r matches Ok(v) && v@ == hex_bytes(
            strip_0x(input.spec_bytes()),
        )),
        !valid_hex(strip_0x(input.spec_bytes())) ==> (r matches Err(e) && e matches
            EvmError::InvalidHex(_)),
{
    let bytes = input.as_bytes();
    let len = bytes.len();
    let start: usize = if len >= 2 && bytes[0] == 0x30 && bytes[1] == 0x78 {
        2
    } else {
        0
    };
    let ghost hb = strip_0x(input.spec_bytes());
    proof {
        assert(hb =~= bytes@.subrange(start as int, len as int));
    }
    if (len - start) % 2 != 0 {
        return Err(EvmError::InvalidHex("odd length hex string".to_owned()));
    }
    let mut out: Vec<u8> = Vec::new();
    let mut i: usize = start;
    #[verifier::loop_isolation(false)]
    while i < len
        invariant
            len == bytes@.len(),
            start <= i <= len,
            (i - start) % 2 == 0,
            (len - start) % 2 == 0,
            hb == bytes@.subrange(start as int, len as int),
            out@.len() == (i - start) / 2,
            forall|j: int|
                0 <= j < i - start ==> is_hex_digit(#[trigger] hb[j]),
            forall|j: int|
                0 <= j < out@.len() ==> out@[j] == (hex_digit_val(hb[2 * j]) * 16 + hex_digit_val(
                    hb[2 * j + 1],
                )) as u8,
        decreases len - i,
    {
        let hi = match hex_val(bytes[i]) {
            Some(v) => v,
            None => {
                proof {
                    assert(!is_hex_digit(hb[i - start]));
                }
                return Err(EvmError::InvalidHex("invalid hex character".to_owned()));
            },
        };
        let lo = match hex_val(bytes[i + 1]) {
            Some(v) => v,
            None => {
                proof {
                    assert(!is_hex_digit(hb[i + 1 - start]));
                }
                return Err(EvmError::InvalidHex("invalid hex character".to_owned()));
            },
        };
        out.push(hi * 16 + lo);
        i += 2;
    }
    proof {
        assert(out@ =~= hex_bytes(hb));
    }
    Ok(out)
}

/// Encode bytes as a lowercase hex string with a `0x` prefix.
pub fn bytes_to_hex(bytes: &[u8]) -> (r: String)
    ensures
        r@.len() == 2 + 2 * bytes@.len(),
        r@[0] == '0',
        r@[1] == 'x',
        forall|j: int|
            0 <= j < bytes@.len() ==> r@[2 + 2 * j] == hex_char((#[trigger] bytes@[j] / 16) as nat)
                && r@[2 + 2 * j + 1] == hex_char((bytes@[j] % 16) as nat),
{
    let mut r = String::new();
    proof {
        reveal_strlit("0x");
    }
    r.append("0x");
    let mut i: usize = 0;
    while i < bytes.len()
        invariant
            i <= bytes@.len(),
            r@.len() == 2 + 2 * i,
            r@[0] == '0',
            r@[1] == 'x',
            forall|j: int|
                0 <= j < i ==> r@[2 + 2 * j] == hex_char((#[trigger] bytes@[j] / 16) as nat) && r@[2
                    + 2 * j + 1] == hex_char((bytes@[j] % 16) as nat),
        decreases bytes@.len() - i,
    {
        let b = bytes[i];
        r.append(hex_char_str(b / 16));
        r.append(hex_char_str(b % 16));
        i += 1;
    }
    r
}

/// The one-character string of the lowercase hex digit for a value
/// below 16.
fn hex_char_str(d: u8) -> (r: &'static str)
    requires
        d < 16,
    ensures
        r@.len() == 1,
        r@[0] == hex_char(d as nat),
{
    proof {
        reveal_strlit("0");
        reveal_strlit("1");
        reveal_strlit("2");
        reveal_strlit("3");
        reveal_strlit("4");
        reveal_strlit("5");
        reveal_strlit("6");
        reveal_strlit("7");
        reveal_strlit("8");
        reveal_strlit("9");
        reveal_strlit("a");
        reveal_strlit("b");
        reveal_strlit("c");
        reveal_strlit("d");
        reveal_strlit("e");
        reveal_strlit("f");
    }
    if d == 0 {
        "0"
    } else if d == 1 {
        "1"
    } else if d == 2 {
        "2"
    } else if d == 3 {
        "3"
    } else if d == 4 {
        "4"
    } else if d == 5 {
        "5"
    } else if d == 6 {
        "6"
    } else if d == 7 {
        "7"
    } else if d == 8 {
        "8"
    } else if d == 9 {
        "9"
    } else if d == 10 {
        "a"
    } else if d == 11 {
        "b"
    } else if d == 12 {
        "c"
    } else if d == 13 {
        "d"
    } else if d == 14 {
        "e"
    } else {
        "f"
    }
}

} // verus!
