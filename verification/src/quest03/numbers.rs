//! Whole numbers written in decimal.

use vstd::prelude::*;

verus! {

/// The byte is a decimal digit.
pub open spec fn is_digit(b: u8) -> bool {
    48 <= b && b <= 57
}

/// `s` is one decimal digit or more, and nothing else.
pub open spec fn all_digits(s: Seq<u8>) -> bool {
    s.len() > 0 && forall|i: int| 0 <= i < s.len() ==> is_digit(#[trigger] s[i])
}

/// The number that the decimal digits `s` spell.
pub open spec fn value_of(s: Seq<u8>) -> int
    decreases s.len(),
{
    if s.len() == 0 {
        0
    } else {
        value_of(s.drop_last()) * 10 + (s.last() - 48)
    }
}

/// `s` without the sign that it starts with, if it starts with one that is
/// allowed: a plus sign, or a minus sign where `minus` says so.
pub open spec fn unsigned_part(s: Seq<u8>, minus: bool) -> Seq<u8> {
    if s.len() > 0 && (s[0] == 43 || (minus && s[0] == 45)) {
        s.drop_first()
    } else {
        s
    }
}

/// The number without sign that `s` spells: digits, with a plus sign before
/// them or none, whose value a `usize` holds.
pub open spec fn unsigned_of(s: Seq<u8>) -> Option<int> {
    let digits = unsigned_part(s, false);
    if all_digits(digits) && value_of(digits) <= usize::MAX {
        Some(value_of(digits))
    } else {
        None
    }
}

/// The number that `s` spells: digits, with a plus or a minus sign before
/// them or none, whose value an `i64` holds.
pub open spec fn signed_of(s: Seq<u8>) -> Option<int> {
    let digits = unsigned_part(s, true);
    let v = if s.len() > 0 && s[0] == 45 {
        -value_of(digits)
    } else {
        value_of(digits)
    };
    if all_digits(digits) && i64::MIN <= v <= i64::MAX {
        Some(v)
    } else {
        None
    }
}

/// Digits spell no less than the digits that they start with.
pub proof fn lemma_value_grows(s: Seq<u8>, k: int)
    requires
        0 <= k <= s.len(),
        forall|i: int| 0 <= i < s.len() ==> is_digit(#[trigger] s[i]),
    ensures
        0 <= value_of(s.subrange(0, k)) <= value_of(s),
    decreases s.len() - k,
{
    if k == s.len() {
        assert(s.subrange(0, k) =~= s);
        lemma_value_not_negative(s);
    } else {
        let longer = s.subrange(0, k + 1);
        assert(longer.drop_last() =~= s.subrange(0, k));
        assert(is_digit(s[k]));
        lemma_value_grows(s, k + 1);
        lemma_value_not_negative(s.subrange(0, k));
    }
}

/// Digits spell no negative number.
pub proof fn lemma_value_not_negative(s: Seq<u8>)
    requires
        forall|i: int| 0 <= i < s.len() ==> is_digit(#[trigger] s[i]),
    ensures
        0 <= value_of(s),
    decreases s.len(),
{
    if s.len() > 0 {
        assert(is_digit(s[s.len() - 1]));
        lemma_value_not_negative(s.drop_last());
    }
}

/// The number that the digits of `s` from place `from` on spell, if they are
/// digits and spell no more than `limit`.
pub fn parse_digits(s: &[u8], from: usize, limit: u64) -> (r: Option<u64>)
    requires
        from <= s@.len(),
    ensures
        match r {
            Some(v) => all_digits(s@.subrange(from as int, s@.len() as int)) && v == value_of(
                s@.subrange(from as int, s@.len() as int),
            ) && v <= limit,
            None => !all_digits(s@.subrange(from as int, s@.len() as int)) || value_of(
                s@.subrange(from as int, s@.len() as int),
            ) > limit,
        },
{
    let n = s.len();
    let ghost digits = s@.subrange(from as int, n as int);
    if from == n {
        return None;
    }
    let mut acc: u64 = 0;
    let mut k: usize = from;
    proof {
        assert(digits.subrange(0, 0) =~= Seq::<u8>::empty());
    }
    while k < n
        invariant
            from <= k <= n,
            n == s@.len(),
            digits == s@.subrange(from as int, n as int),
            forall|i: int| 0 <= i < k - from ==> is_digit(#[trigger] digits[i]),
            acc == value_of(digits.subrange(0, k - from)),
            acc <= limit,
        decreases n - k,
    {
        let b = s[k];
        proof {
            assert(digits[k - from] == b);
        }
        if b < 48 || b > 57 {
            return None;
        }
        let next: u128 = acc as u128 * 10 + (b - 48) as u128;
        proof {
            let longer = digits.subrange(0, k - from + 1);
            assert(longer.drop_last() =~= digits.subrange(0, k - from));
            assert(longer.last() == b);
            assert(next == value_of(longer));
        }
        if next > limit as u128 {
            proof {
                if all_digits(digits) {
                    lemma_value_grows(digits, k - from + 1);
                }
            }
            return None;
        }
        acc = next as u64;
        k += 1;
    }
    proof {
        assert(digits.subrange(0, n - from) =~= digits);
    }
    Some(acc)
}

/// Reads a number without sign, as `unsigned_of` says.
pub fn parse_unsigned(s: &[u8]) -> (r: Option<usize>)
    ensures
        match r {
            Some(v) => unsigned_of(s@) == Some(v as int),
            None => unsigned_of(s@) is None,
        },
{
    let from: usize = if s.len() > 0 && s[0] == 43 {
        1
    } else {
        0
    };
    proof {
        assert(unsigned_part(s@, false) =~= s@.subrange(from as int, s@.len() as int));
    }
    match parse_digits(s, from, usize::MAX as u64) {
        Some(v) => Some(v as usize),
        None => None,
    }
}

/// Reads a number with or without sign, as `signed_of` says.
pub fn parse_signed(s: &[u8]) -> (r: Option<i64>)
    ensures
        match r {
            Some(v) => signed_of(s@) == Some(v as int),
            None => signed_of(s@) is None,
        },
{
    let minus = s.len() > 0 && s[0] == 45;
    let from: usize = if s.len() > 0 && (s[0] == 43 || s[0] == 45) {
        1
    } else {
        0
    };
    proof {
        assert(unsigned_part(s@, true) =~= s@.subrange(from as int, s@.len() as int));
    }
    let limit: u64 = if minus {
        0x8000_0000_0000_0000
    } else {
        0x7fff_ffff_ffff_ffff
    };
    match parse_digits(s, from, limit) {
        Some(v) => if minus {
            if v == 0x8000_0000_0000_0000 {
                Some(i64::MIN)
            } else {
                Some(-(v as i64))
            }
        } else {
            Some(v as i64)
        },
        None => None,
    }
}

} // verus!
