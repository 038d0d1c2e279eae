//! Decimal literals over ASCII bytes: what a run of digits denotes, how a
//! number is written, and the executable readers and writers for both.

use vstd::prelude::*;
use crate::ascii::{MINUS, NINE, ZERO};

verus! {

/// The byte is one of the ASCII digits `0` to `9`.
pub open spec fn is_digit(b: u8) -> bool {
    ZERO <= b <= NINE
}

/// Every byte of `s` is an ASCII digit.
pub open spec fn all_digits(s: Seq<u8>) -> bool {
    forall|i: int| 0 <= i < s.len() ==> is_digit(#[trigger] s[i])
}

/// The number that a run of digits denotes, most significant digit first.
pub open spec fn digits_value(s: Seq<u8>) -> nat
    decreases s.len(),
{
    if s.len() == 0 {
        0
    } else {
        10 * digits_value(s.drop_last()) + (s.last() - ZERO) as nat
    }
}

/// The value of an unsigned decimal literal: one or more digits and nothing
/// else. Leading zeros are allowed; a sign is not.
pub open spec fn unsigned_literal(s: Seq<u8>) -> Option<nat> {
    if s.len() > 0 && all_digits(s) {
        Some(digits_value(s))
    } else {
        None
    }
}

/// The value of a signed decimal literal: an optional `-` followed by an
/// unsigned literal. A leading `+` is not part of the language.
pub open spec fn signed_literal(s: Seq<u8>) -> Option<int> {
    if s.len() > 0 && s[0] == MINUS {
        match unsigned_literal(s.skip(1)) {
            Some(v) => Some(-(v as int)),
            None => None,
        }
    } else {
        match unsigned_literal(s) {
            Some(v) => Some(v as int),
            None => None,
        }
    }
}

/// The value of an unsigned literal, provided it does not exceed `limit`.
pub open spec fn unsigned_within(s: Seq<u8>, limit: nat) -> Option<nat> {
    match unsigned_literal(s) {
        Some(v) => if v <= limit {
            Some(v)
        } else {
            None
        },
        None => None,
    }
}

/// The value of a signed literal, provided it is a 64-bit signed integer.
pub open spec fn signed_i64(s: Seq<u8>) -> Option<i64> {
    match signed_literal(s) {
        Some(v) => if i64::MIN <= v <= i64::MAX {
            Some(v as i64)
        } else {
            None
        },
        None => None,
    }
}

/// A prefix of a run of digits never denotes more than the whole run.
pub proof fn lemma_prefix_value(s: Seq<u8>, n: int)
    requires
        0 <= n <= s.len(),
    ensures
        digits_value(s.take(n)) <= digits_value(s),
    decreases s.len(),
{
    if n == s.len() {
        assert(s.take(n) =~= s);
    } else {
        assert(s.drop_last().take(n) =~= s.take(n));
        lemma_prefix_value(s.drop_last(), n);
    }
}

/// Reads an unsigned decimal literal whose value is at most `limit`.
pub fn read_unsigned(text: &[u8], limit: u64) -> (r: Option<u64>)
    ensures
        r == (match unsigned_within(text@, limit as nat) {
            Some(v) => Some(v as u64),
            None => None,
        }),
{
    if text.len() == 0 {
        return None;
    }
    let mut acc: u64 = 0;
    let mut i: usize = 0;
    while i < text.len()
        invariant
            0 <= i <= text.len(),
            all_digits(text@.take(i as int)),
            acc == digits_value(text@.take(i as int)),
            acc <= limit,
        decreases text.len() - i,
    {
        let b: u8 = text[i];
        if b < ZERO || b > NINE {
            assert(!is_digit(text@[i as int]));
            return None;
        }
        let d: u64 = (b - ZERO) as u64;
        proof {
            let next = text@.take(i + 1);
            assert(next.drop_last() =~= text@.take(i as int));
            assert(next.last() == b);
            assert(digits_value(next) == 10 * acc + d);
            lemma_prefix_value(text@, i + 1);
        }
        if d > limit || acc > (limit - d) / 10 {
            return None;
        }
        acc = acc * 10 + d;
        i = i + 1;
        assert(all_digits(text@.take(i as int))) by {
            assert forall|j: int| 0 <= j < i implies is_digit(
                #[trigger] text@.take(i as int)[j],
            ) by {
                if j < i - 1 {
                    assert(text@.take(i - 1)[j] == text@[j]);
                }
            }
        }
    }
    assert(text@.take(i as int) =~= text@);
    Some(acc)
}

/// Reads a signed decimal literal that fits a 64-bit signed integer.
pub fn read_i64(text: &[u8]) -> (r: Option<i64>)
    ensures
        r == signed_i64(text@),
{
    if text.len() > 0 && text[0] == MINUS {
        let (_, digits) = text.split_at(1);
        assert(digits@ =~= text@.skip(1));
        match read_unsigned(digits, 0x8000_0000_0000_0000) {
            Some(m) => {
                if m == 0x8000_0000_0000_0000 {
                    Some(i64::MIN)
                } else {
                    Some(-(m as i64))
                }
            },
            None => None,
        }
    } else {
        match read_unsigned(text, 0x7fff_ffff_ffff_ffff) {
            Some(m) => Some(m as i64),
            None => None,
        }
    }
}

/// Reads an unsigned decimal literal that fits a `usize`.
pub fn read_usize(text: &[u8]) -> (r: Option<usize>)
    ensures
        r == (match unsigned_within(text@, usize::MAX as nat) {
            Some(v) => Some(v as usize),
            None => None,
        }),
{
    match read_unsigned(text, usize::MAX as u64) {
        Some(m) => Some(m as usize),
        None => None,
    }
}

/// The shortest way to write `n`: most significant digit first, no leading
/// zero but for `0` itself.
pub open spec fn decimal(n: nat) -> Seq<u8>
    decreases n,
{
    if n < 10 {
        seq![(ZERO + n) as u8]
    } else {
        decimal(n / 10).push((ZERO + n % 10) as u8)
    }
}

/// The shortest way to write `v`, with a `-` in front where it is negative.
pub open spec fn signed_decimal(v: int) -> Seq<u8> {
    if v < 0 {
        seq![MINUS] + decimal((-v) as nat)
    } else {
        decimal(v as nat)
    }
}

/// A number as written is an unsigned literal, and denotes that number.
pub proof fn lemma_decimal_reads_back(n: nat)
    ensures
        decimal(n).len() >= 1,
        all_digits(decimal(n)),
        digits_value(decimal(n)) == n,
        unsigned_literal(decimal(n)) == Some(n),
    decreases n,
{
    if n < 10 {
        let s = decimal(n);
        assert(s.drop_last() =~= Seq::<u8>::empty());
        assert(digits_value(s.drop_last()) == 0);
    } else {
        lemma_decimal_reads_back(n / 10);
        let s = decimal(n);
        assert(s.drop_last() =~= decimal(n / 10));
        assert forall|i: int| 0 <= i < s.len() implies is_digit(#[trigger] s[i]) by {
            if i < s.len() - 1 {
                assert(s[i] == decimal(n / 10)[i]);
            }
        }
    }
}

/// A signed number as written is a signed literal, and denotes that number.
pub proof fn lemma_signed_decimal_reads_back(v: int)
    ensures
        signed_decimal(v).len() >= 1,
        signed_literal(signed_decimal(v)) == Some(v),
        forall|i: int|
            0 <= i < signed_decimal(v).len() ==> {
                ||| is_digit(#[trigger] signed_decimal(v)[i])
                ||| signed_decimal(v)[i] == MINUS
            },
{
    if v < 0 {
        let m = (-v) as nat;
        lemma_decimal_reads_back(m);
        assert(signed_decimal(v).skip(1) =~= decimal(m));
    } else {
        lemma_decimal_reads_back(v as nat);
    }
}

} // verus!
