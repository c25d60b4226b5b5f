//! Decoding of `\xHH` byte escapes.

use vstd::prelude::*;

use crate::ascii::{BACKSLASH, DIGIT_0, DIGIT_9, LOWER_A, LOWER_F, LOWER_X, UPPER_A, UPPER_F};

verus! {

/// The byte that starts an escape: a backslash.
pub const HEX_SLASH: u8 = BACKSLASH;

/// The byte that follows the backslash in an escape: a lower-case `x`.
pub const HEX_X: u8 = LOWER_X;

/// The value of a hexadecimal digit, if `byte` is one.
pub open spec fn hex_value(byte: u8) -> Option<u8> {
    if LOWER_A <= byte <= LOWER_F {
        Some((10 + (byte - LOWER_A)) as u8)
    } else if UPPER_A <= byte <= UPPER_F {
        Some((10 + (byte - UPPER_A)) as u8)
    } else if DIGIT_0 <= byte <= DIGIT_9 {
        Some((byte - DIGIT_0) as u8)
    } else {
        None
    }
}

/// The byte written by two hexadecimal digits, high digit first.
pub open spec fn hex_pair(a: u8, b: u8) -> Option<u8> {
    match (hex_value(a), hex_value(b)) {
        (Some(first), Some(second)) => Some((16 * first + second) as u8),
        _ => None,
    }
}

/// The decoding of `s`: every well-formed `\xHH` becomes the byte it writes,
/// everything else is kept as it stands.
///
/// A backslash opens an escape of two bytes (`\` and any byte but `x`) or of
/// four (`\x` and two more bytes). An escape that is cut short by the end of
/// the input, or whose last two bytes are not both hexadecimal digits, is
/// copied literally, and scanning resumes behind it.
pub open spec fn decoded(s: Seq<u8>) -> Seq<u8>
    decreases s.len(),
{
    if s.len() == 0 {
        s
    } else if s[0] != HEX_SLASH {
        seq![s[0]] + decoded(s.skip(1))
    } else if s.len() == 1 {
        s
    } else if s[1] != HEX_X {
        s.take(2) + decoded(s.skip(2))
    } else if s.len() < 4 {
        s
    } else {
        match hex_pair(s[2], s[3]) {
            Some(byte) => seq![byte] + decoded(s.skip(4)),
            None => s.take(4) + decoded(s.skip(4)),
        }
    }
}

/// A sequence without a backslash decodes to itself.
pub proof fn lemma_decoded_without_backslash(s: Seq<u8>)
    requires
        !s.contains(HEX_SLASH),
    ensures
        decoded(s) == s,
    decreases s.len(),
{
    if s.len() > 0 {
        assert(s[0] != HEX_SLASH);
        assert forall|b: u8| s.skip(1).contains(b) implies s.contains(b) by {
            let i = choose|i: int| 0 <= i < s.skip(1).len() && s.skip(1)[i] == b;
            assert(s[i + 1] == b);
        }
        lemma_decoded_without_backslash(s.skip(1));
        assert(seq![s[0]] + s.skip(1) =~= s);
    }
}

/// Decoding never lengthens its input.
pub proof fn lemma_decoded_len(s: Seq<u8>)
    ensures
        decoded(s).len() <= s.len(),
    decreases s.len(),
{
    if s.len() == 0 {
    } else if s[0] != HEX_SLASH {
        lemma_decoded_len(s.skip(1));
    } else if s.len() == 1 {
    } else if s[1] != HEX_X {
        lemma_decoded_len(s.skip(2));
    } else if s.len() < 4 {
    } else {
        lemma_decoded_len(s.skip(4));
    }
}

/// Whether `input` holds a backslash.
fn has_backslash(input: &[u8]) -> (r: bool)
    ensures
        r == input@.contains(HEX_SLASH),
{
    let mut i: usize = 0;
    while i < input.len()
        invariant
            i <= input.len(),
            forall|j: int| 0 <= j < i ==> input@[j] != HEX_SLASH,
        decreases input.len() - i,
    {
        if input[i] == HEX_SLASH {
            return true;
        }
        i += 1;
    }
    false
}

/// A copy of `input`.
pub fn to_owned(input: &[u8]) -> (r: Vec<u8>)
    ensures
        r@ == input@,
{
    let mut r: Vec<u8> = Vec::with_capacity(input.len());
    let mut i: usize = 0;
    while i < input.len()
        invariant
            i <= input.len(),
            r@ == input@.take(i as int),
        decreases input.len() - i,
    {
        r.push(input[i]);
        assert(input@.take(i + 1) =~= input@.take(i as int).push(input@[i as int]));
        i += 1;
    }
    assert(input@.take(input.len() as int) =~= input@);
    r
}

/// Replaces every well-formed `\xHH` in `input_slice` by the byte it writes
/// and copies the rest. The result is always `Some`.
pub fn decode_byte_escapes(input_slice: &[u8]) -> (r: Option<Vec<u8>>)
    ensures
        r matches Some(v) && v@ == decoded(input_slice@),
{
    // Most inputs hold no escape: copy them in one go.
    if !has_backslash(input_slice) {
        proof {
            lemma_decoded_without_backslash(input_slice@);
        }
        return Some(to_owned(input_slice));
    }
    let n: usize = input_slice.len();
    let mut result: Vec<u8> = Vec::with_capacity(n);
    let mut i: usize = 0;
    proof {
        assert(input_slice@.skip(0) =~= input_slice@);
        assert(result@ + decoded(input_slice@) =~= decoded(input_slice@));
    }
    while i < n
        invariant
            n == input_slice.len(),
            i <= n,
            result@ + decoded(input_slice@.skip(i as int)) == decoded(input_slice@),
        decreases n - i,
    {
        let ghost rest = input_slice@.skip(i as int);
        let ghost before = result@;
        let ch: u8 = input_slice[i];
        assert(rest[0] == ch);
        if ch != HEX_SLASH {
            result.push(ch);
            proof {
                assert(rest.skip(1) =~= input_slice@.skip(i + 1));
                assert(result@ + decoded(rest.skip(1)) =~= before + decoded(rest));
            }
            i += 1;
        } else if n - i == 1 {
            result.push(HEX_SLASH);
            proof {
                assert(input_slice@.skip(i + 1) =~= Seq::<u8>::empty());
                assert(result@ + decoded(input_slice@.skip(i + 1)) =~= before + decoded(rest));
            }
            i += 1;
        } else if input_slice[i + 1] != HEX_X {
            assert(rest[1] == input_slice@[i + 1]);
            result.push(HEX_SLASH);
            result.push(input_slice[i + 1]);
            proof {
                assert(rest.skip(2) =~= input_slice@.skip(i + 2));
                assert(result@ + decoded(rest.skip(2)) =~= before + decoded(rest));
            }
            i += 2;
        } else if n - i < 4 {
            assert(rest[1] == input_slice@[i + 1]);
            result.push(HEX_SLASH);
            result.push(HEX_X);
            if n - i == 3 {
                assert(rest[2] == input_slice@[i + 2]);
                result.push(input_slice[i + 2]);
            }
            proof {
                assert(input_slice@.skip(n as int) =~= Seq::<u8>::empty());
                assert(result@ + decoded(input_slice@.skip(n as int)) =~= before + decoded(rest));
            }
            i = n;
        } else {
            assert(rest[1] == input_slice@[i + 1]);
            assert(rest[2] == input_slice@[i + 2]);
            assert(rest[3] == input_slice@[i + 3]);
            let a: u8 = input_slice[i + 2];
            let b: u8 = input_slice[i + 3];
            match parse_hex(&a, &b) {
                Some(hex) => result.push(hex),
                None => {
                    result.push(HEX_SLASH);
                    result.push(HEX_X);
                    result.push(a);
                    result.push(b);
                },
            }
            proof {
                assert(rest.skip(4) =~= input_slice@.skip(i + 4));
                assert(result@ + decoded(rest.skip(4)) =~= before + decoded(rest));
            }
            i += 4;
        }
    }
    proof {
        assert(input_slice@.skip(n as int) =~= Seq::<u8>::empty());
        assert(result@ + Seq::<u8>::empty() =~= result@);
    }
    Some(result)
}

/// The value of the hexadecimal digit `byte`, if it is one.
pub fn byte_to_hex(byte: &u8) -> (r: Option<u8>)
    ensures
        r == hex_value(*byte),
        r matches Some(v) ==> v < 16,
{
    let b: u8 = *byte;
    if LOWER_A <= b && b <= LOWER_F {
        Some(10 + (b - LOWER_A))
    } else if UPPER_A <= b && b <= UPPER_F {
        Some(10 + (b - UPPER_A))
    } else if DIGIT_0 <= b && b <= DIGIT_9 {
        Some(b - DIGIT_0)
    } else {
        None
    }
}

/// The byte that the hexadecimal digits `a` and `b` write, if both are
/// digits.
pub fn parse_hex(a: &u8, b: &u8) -> (r: Option<u8>)
    ensures
        r == hex_pair(*a, *b),
{
    match (byte_to_hex(a), byte_to_hex(b)) {
        (Some(first), Some(second)) => Some(16 * first + second),
        _ => None,
    }
}

} // verus!
