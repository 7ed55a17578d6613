//! Hexadecimal decoding, read two characters at a time as `u8::from_str_radix(_, 16)` reads them.
use vstd::prelude::*;
use vstd::string::StringSliceAdditionalSpecFns;

verus! {

/// Why a hex string was refused.
#[derive(Debug, Clone, Copy, PartialEq, Eq, Structural)]
pub enum HexError {
    /// The string has an odd number of bytes (the count is given).
    OddLength(usize),
    /// The pair of bytes at this offset is not a hex number.
    InvalidDigit(usize),
}

pub open spec fn is_hex_digit(b: u8) -> bool {
    ||| 48 <= b <= 57
    ||| 65 <= b <= 70
    ||| 97 <= b <= 102
}

pub open spec fn hex_value(b: u8) -> int {
    if 48 <= b <= 57 {
        b - 48
    } else if 65 <= b <= 70 {
        b - 55
    } else {
        b - 87
    }
}

/// What `u8::from_str_radix` reads from two bytes in base 16: two hex digits, or
/// `+` and one hex digit.
pub open spec fn pair_value(b0: u8, b1: u8) -> Option<u8> {
    if is_hex_digit(b0) && is_hex_digit(b1) {
        Some((hex_value(b0) * 16 + hex_value(b1)) as u8)
    } else if b0 == 43 && is_hex_digit(b1) {
        Some(hex_value(b1) as u8)
    } else {
        None
    }
}

pub open spec fn pair_ok(b: Seq<u8>, k: int) -> bool {
    pair_value(b[2 * k], b[2 * k + 1]) is Some
}

/// The bytes that hex text stands for, or the error.
pub open spec fn hex_decode_spec(b: Seq<u8>) -> Result<Seq<u8>, HexError> {
    if b.len() % 2 != 0 {
        Err(HexError::OddLength(b.len() as usize))
    } else if exists|k: int| 0 <= k < b.len() / 2 && !pair_ok(b, k) {
        let k = choose|k: int|
            0 <= k < b.len() / 2 && !pair_ok(b, k) && forall|j: int| 0 <= j < k ==> pair_ok(b, j);
        Err(HexError::InvalidDigit((2 * k) as usize))
    } else {
        Ok(Seq::new((b.len() / 2) as nat, |k: int| pair_value(b[2 * k], b[2 * k + 1])->0))
    }
}

fn hex_digit_value(b: u8) -> (r: Option<u8>)
    ensures
        r is Some <==> is_hex_digit(b),
        r matches Some(v) ==> v == hex_value(b),
{
    if 48 <= b && b <= 57 {
        Some(b - 48)
    } else if 65 <= b && b <= 70 {
        Some(b - 55)
    } else if 97 <= b && b <= 102 {
        Some(b - 87)
    } else {
        None
    }
}

/// Decodes hex text two bytes at a time; the first pair that is not a number is
/// reported by its byte offset (a pair holding part of a non-ASCII character
/// is no number either).
pub fn hex_decode(s: &str) -> (r: Result<Vec<u8>, HexError>)
    ensures
        match (r, hex_decode_spec(s.spec_bytes())) {
            (Ok(v), Ok(w)) => v@ == w,
            (Err(e), Err(f)) => e == f,
            _ => false,
        },
{
    let b = s.as_bytes();
    let n = b.len();
    if n % 2 != 0 {
        return Err(HexError::OddLength(n));
    }
    let mut out: Vec<u8> = Vec::new();
    let mut i: usize = 0;
    while i < n
        invariant
            b@ == s.spec_bytes(),
            n == b@.len(),
            n % 2 == 0,
            i % 2 == 0,
            i <= n,
            out@.len() == i / 2,
            forall|j: int| 0 <= j < i / 2 ==> #[trigger] pair_ok(b@, j),
            forall|j: int|
                0 <= j < i / 2 ==> #[trigger] out@[j] == pair_value(b@[2 * j], b@[2 * j + 1])->0,
        decreases n - i,
    {
        let b0 = b[i];
        let b1 = b[i + 1];
        let v = match (hex_digit_value(b0), hex_digit_value(b1)) {
            (Some(h), Some(l)) => Some(h * 16 + l),
            (None, Some(l)) => if b0 == 43 {
                Some(l)
            } else {
                None
            },
            _ => None,
        };
        assert(v == pair_value(b0, b1));
        match v {
            Some(x) => {
                out.push(x);
            },
            None => {
                proof {
                    let k = (i / 2) as int;
                    assert(2 * k == i);
                    assert(!pair_ok(b@, k));
                    let c = choose|c: int|
                        0 <= c < b@.len() / 2 && !pair_ok(b@, c) && forall|j: int|
                            0 <= j < c ==> pair_ok(b@, j);
                    if c < k {
                        assert(pair_ok(b@, c));
                    }
                    if c > k {
                        assert(pair_ok(b@, k));
                    }
                }
                return Err(HexError::InvalidDigit(i));
            },
        }
        i = i + 2;
    }
    let ghost w = Seq::new((n / 2) as nat, |k: int| pair_value(b@[2 * k], b@[2 * k + 1])->0);
    assert(out@ =~= w);
    Ok(out)
}

} // verus!
