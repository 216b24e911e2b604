use vstd::prelude::*;

verus! {

/// Whether the byte is an ASCII decimal digit.
pub open spec fn is_digit(b: u8) -> bool {
    48 <= b <= 57
}

/// Whether every byte of the string is an ASCII decimal digit.
pub open spec fn all_digits(s: Seq<u8>) -> bool {
    forall|i: int| 0 <= i < s.len() ==> is_digit(#[trigger] s[i])
}

/// The numeric value of one digit byte.
pub open spec fn digit_val(b: u8) -> nat {
    if 48 <= b {
        (b - 48) as nat
    } else {
        0
    }
}

/// The value that a string of decimal digits denotes.
pub open spec fn digits_value(s: Seq<u8>) -> nat
    decreases s.len(),
{
    if s.len() == 0 {
        0
    } else {
        digits_value(s.drop_last()) * 10 + digit_val(s.last())
    }
}

/// The digit part of a numeric token: one leading `+` or `-` is skipped.
pub open spec fn token_digits(s: Seq<u8>) -> Seq<u8> {
    if s.len() >= 1 && (s[0] == 43 || s[0] == 45) {
        s.drop_first()
    } else {
        s
    }
}

/// Whether the token carries a leading minus sign.
pub open spec fn token_negative(s: Seq<u8>) -> bool {
    s.len() >= 1 && s[0] == 45
}

/// A well-formed unsigned token: an optional leading `+`, then at least one
/// digit; a minus sign is not accepted.
pub open spec fn wf_unsigned(s: Seq<u8>) -> bool {
    !token_negative(s) && token_digits(s).len() >= 1 && all_digits(token_digits(s))
}

/// A well-formed signed token: an optional leading `+` or `-`, then at least
/// one digit.
pub open spec fn wf_signed(s: Seq<u8>) -> bool {
    token_digits(s).len() >= 1 && all_digits(token_digits(s))
}

/// The signed value that a token denotes.
pub open spec fn token_value(s: Seq<u8>) -> int {
    if token_negative(s) {
        -(digits_value(token_digits(s)) as int)
    } else {
        digits_value(token_digits(s)) as int
    }
}

/// The 32-bit unsigned value of a decimal token, if the token is well formed
/// and the value is in range.
pub open spec fn parse_u32_spec(s: Seq<u8>) -> Option<u32> {
    if wf_unsigned(s) && digits_value(token_digits(s)) <= u32::MAX {
        Some(digits_value(token_digits(s)) as u32)
    } else {
        None
    }
}

/// The 64-bit unsigned value of a decimal token, if the token is well formed
/// and the value is in range.
pub open spec fn parse_u64_spec(s: Seq<u8>) -> Option<u64> {
    if wf_unsigned(s) && digits_value(token_digits(s)) <= u64::MAX {
        Some(digits_value(token_digits(s)) as u64)
    } else {
        None
    }
}

/// The 32-bit signed value of a decimal token, if the token is well formed
/// and the value is in range.
pub open spec fn parse_i32_spec(s: Seq<u8>) -> Option<i32> {
    if wf_signed(s) && i32::MIN <= token_value(s) <= i32::MAX {
        Some(token_value(s) as i32)
    } else {
        None
    }
}

/// The 64-bit signed value of a decimal token, if the token is well formed
/// and the value is in range.
pub open spec fn parse_i64_spec(s: Seq<u8>) -> Option<i64> {
    if wf_signed(s) && i64::MIN <= token_value(s) <= i64::MAX {
        Some(token_value(s) as i64)
    } else {
        None
    }
}

/// A digit string is worth at least as much as any of its prefixes.
proof fn lemma_digits_value_prefix(d: Seq<u8>, k: int)
    requires
        0 <= k <= d.len(),
    ensures
        digits_value(d.take(k)) <= digits_value(d),
    decreases d.len(),
{
    if k < d.len() {
        lemma_digits_value_prefix(d.drop_last(), k);
        assert(d.drop_last().take(k) =~= d.take(k));
    } else {
        assert(d.take(k) =~= d);
    }
}

/// Parses the digits of `s` from position `from` to the end as an unsigned
/// decimal number; `None` when a byte is not a digit, when there is no digit,
/// or when the value does not fit.
fn parse_digits_u64(s: &[u8], from: usize) -> (r: Option<u64>)
    requires
        from <= s@.len(),
    ensures
        ({
            let d = s@.subrange(from as int, s@.len() as int);
            match r {
                Some(v) => d.len() >= 1 && all_digits(d) && digits_value(d) == v,
                None => !(d.len() >= 1 && all_digits(d) && digits_value(d) <= u64::MAX),
            }
        }),
{
    let ghost d = s@.subrange(from as int, s@.len() as int);
    let n = s.len();
    if from == n {
        return None;
    }
    let mut i: usize = from;
    let mut acc: u64 = 0;
    while i < n
        invariant
            from <= i <= n,
            n == s@.len(),
            from < n,
            d == s@.subrange(from as int, n as int),
            all_digits(s@.subrange(from as int, i as int)),
            acc == digits_value(s@.subrange(from as int, i as int)),
        decreases n - i,
    {
        let b = s[i];
        if b < 48 || 57 < b {
            proof {
                assert(!is_digit(d[i - from]));
            }
            return None;
        }
        let ghost pre = s@.subrange(from as int, i as int);
        let ghost pre1 = s@.subrange(from as int, i + 1 as int);
        proof {
            assert(pre1.drop_last() =~= pre);
            assert(pre1.last() == s@[i as int]);
        }
        let step = match acc.checked_mul(10) {
            Some(m) => m.checked_add((b - 48) as u64),
            None => None,
        };
        match step {
            Some(v) => {
                acc = v;
            },
            None => {
                proof {
                    assert(digits_value(pre1) > u64::MAX);
                    assert(d.take(i + 1 - from) =~= pre1);
                    lemma_digits_value_prefix(d, i + 1 - from);
                }
                return None;
            },
        }
        i = i + 1;
    }
    proof {
        assert(s@.subrange(from as int, i as int) =~= d);
    }
    Some(acc)
}

/// Parses a decimal token as an unsigned 64-bit value, as
/// [`parse_u64_spec`] states.
pub fn parse_u64_token(s: &[u8]) -> (r: Option<u64>)
    ensures
        r == parse_u64_spec(s@),
{
    if s.len() >= 1 && s[0] == 45 {
        return None;
    }
    let from: usize = if s.len() >= 1 && s[0] == 43 {
        1
    } else {
        0
    };
    proof {
        assert(token_digits(s@) =~= s@.subrange(from as int, s@.len() as int));
    }
    parse_digits_u64(s, from)
}

/// Parses a decimal token as an unsigned 32-bit value, as
/// [`parse_u32_spec`] states.
pub fn parse_u32_token(s: &[u8]) -> (r: Option<u32>)
    ensures
        r == parse_u32_spec(s@),
{
    match parse_u64_token(s) {
        Some(v) => {
            if v <= 0xffff_ffffu64 {
                Some(v as u32)
            } else {
                None
            }
        },
        None => None,
    }
}

/// Parses a decimal token as a signed 64-bit value, as
/// [`parse_i64_spec`] states.
pub fn parse_i64_token(s: &[u8]) -> (r: Option<i64>)
    ensures
        r == parse_i64_spec(s@),
{
    let neg = s.len() >= 1 && s[0] == 45;
    let from: usize = if s.len() >= 1 && (s[0] == 43 || s[0] == 45) {
        1
    } else {
        0
    };
    proof {
        assert(token_digits(s@) =~= s@.subrange(from as int, s@.len() as int));
    }
    match parse_digits_u64(s, from) {
        Some(mag) => {
            if neg {
                if mag < 0x8000_0000_0000_0000u64 {
                    Some(-(mag as i64))
                } else if mag == 0x8000_0000_0000_0000u64 {
                    Some(i64::MIN)
                } else {
                    None
                }
            } else {
                if mag <= 0x7fff_ffff_ffff_ffffu64 {
                    Some(mag as i64)
                } else {
                    None
                }
            }
        },
        None => None,
    }
}

/// Parses a decimal token as a signed 32-bit value, as
/// [`parse_i32_spec`] states.
pub fn parse_i32_token(s: &[u8]) -> (r: Option<i32>)
    ensures
        r == parse_i32_spec(s@),
{
    match parse_i64_token(s) {
        Some(v) => {
            if -0x8000_0000i64 <= v && v <= 0x7fff_ffffi64 {
                Some(v as i32)
            } else {
                None
            }
        },
        None => None,
    }
}

} // verus!
