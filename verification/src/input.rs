//! Validation of numeric user input: decimal parsing for effort values
//! and for one-based menu selections. As with Rust's standard unsigned
//! parsing, one optional leading plus sign is accepted.

use vstd::prelude::*;

verus! {

/// Whether `b` is an ASCII decimal digit.
pub open spec fn is_digit(b: u8) -> bool {
    48 <= b <= 57
}

/// Whether every byte of `s` is an ASCII decimal digit.
pub open spec fn all_digits(s: Seq<u8>) -> bool {
    forall|i: int| 0 <= i < s.len() ==> is_digit(s[i])
}

/// `s` without one leading plus sign, if it carries one.
pub open spec fn strip_plus(s: Seq<u8>) -> Seq<u8> {
    if s.len() > 0 && s[0] == 43 {
        s.skip(1)
    } else {
        s
    }
}

/// The number written by a sequence of decimal digits (most significant
/// first); meaningful only when `all_digits` holds.
pub open spec fn digits_val(s: Seq<u8>) -> int
    decreases s.len(),
{
    if s.len() == 0 {
        0
    } else {
        digits_val(s.drop_last()) * 10 + (s.last() - 48)
    }
}

/// What a numeric field accepts: after an optional plus sign, a
/// non-empty all-digit byte string whose value fits in `u32`.
pub open spec fn parse_u32_spec(s: Seq<u8>) -> Option<u32> {
    let t = strip_plus(s);
    if t.len() > 0 && all_digits(t) && digits_val(t) <= u32::MAX {
        Some(digits_val(t) as u32)
    } else {
        None
    }
}

/// What an effort prompt accepts: a parsed value that is also positive.
pub open spec fn parse_positive_spec(s: Seq<u8>) -> Option<u32> {
    match parse_u32_spec(s) {
        Some(n) => if n > 0 {
            Some(n)
        } else {
            None
        },
        None => None,
    }
}

/// What a one-based selection prompt accepts: a number in `[1, max]`.
pub open spec fn parse_index_spec(s: Seq<u8>, max: usize) -> Option<usize> {
    let t = strip_plus(s);
    if t.len() > 0 && all_digits(t) && 1 <= digits_val(t) <= max {
        Some(digits_val(t) as usize)
    } else {
        None
    }
}

/// Each digit prepended keeps the written value nonnegative, and each
/// digit appended can only grow it: the value of a digit prefix never
/// exceeds the value of the whole.
pub proof fn lemma_digits_val_bounds(s: Seq<u8>, i: int)
    requires
        all_digits(s),
        0 <= i <= s.len(),
    ensures
        0 <= digits_val(s.take(i)) <= digits_val(s),
    decreases s.len(),
{
    if s.len() == 0 {
    } else if i == s.len() {
        lemma_digits_val_bounds(s.drop_last(), i - 1);
        assert(s.take(i) =~= s);
        assert(s.drop_last().take(i - 1) =~= s.drop_last());
    } else {
        lemma_digits_val_bounds(s.drop_last(), i);
        assert(s.drop_last().take(i) =~= s.take(i));
    }
}

/// Parse a `u32` from decimal digits, an optional plus sign allowed.
/// Returns `Some` exactly when the digits are non-empty and the value
/// fits.
pub fn parse_u32(s: &Vec<u8>) -> (r: Option<u32>)
    ensures
        r == parse_u32_spec(s@),
{
    let n = s.len();
    if n == 0 {
        return None;
    }
    let start: usize = if s[0] == 43 {
        1
    } else {
        0
    };
    let ghost t = strip_plus(s@);
    proof {
        assert(t =~= s@.skip(start as int));
    }
    if n == start {
        return None;
    }
    let mut acc: u64 = 0;
    let mut i: usize = start;
    while i < n
        invariant
            n == s@.len(),
            start <= i <= n,
            start < n,
            t == s@.skip(start as int),
            t == strip_plus(s@),
            all_digits(t.take(i - start)),
            acc == digits_val(t.take(i - start)),
            acc <= u32::MAX,
        decreases n - i,
    {
        let b = s[i];
        proof {
            let j = i - start;
            assert(t[j as int] == s@[i as int]);
            assert(t.take(j + 1).drop_last() =~= t.take(j as int));
            assert(t.take(j + 1).last() == t[j as int]);
        }
        if b < 48 || b > 57 {
            return None;
        }
        let next: u64 = acc * 10 + (b - 48) as u64;
        if next > u32::MAX as u64 {
            proof {
                if all_digits(t) {
                    lemma_digits_val_bounds(t, i - start + 1);
                }
            }
            return None;
        }
        acc = next;
        i += 1;
    }
    proof {
        assert(t.take((n - start) as int) =~= t);
    }
    Some(acc as u32)
}

/// Parse a positive `u32`: the validation rule of every effort prompt.
/// Rejects anything that is not a digit string (after an optional plus
/// sign), a value of zero, and values beyond `u32`.
pub fn parse_positive(s: &Vec<u8>) -> (r: Option<u32>)
    ensures
        r == parse_positive_spec(s@),
        r matches Some(n) ==> n > 0,
{
    match parse_u32(s) {
        Some(n) => if n > 0 {
            Some(n)
        } else {
            None
        },
        None => None,
    }
}

/// Parse a one-based selection against an upper bound `max`. Returns
/// `Some` exactly on a digit string (after an optional plus sign)
/// writing a value in `[1, max]`.
pub fn parse_index(s: &Vec<u8>, max: usize) -> (r: Option<usize>)
    ensures
        r == parse_index_spec(s@, max),
        r matches Some(k) ==> 1 <= k <= max,
{
    let n = s.len();
    if n == 0 {
        return None;
    }
    let start: usize = if s[0] == 43 {
        1
    } else {
        0
    };
    let ghost t = strip_plus(s@);
    proof {
        assert(t =~= s@.skip(start as int));
    }
    if n == start {
        return None;
    }
    let mut acc: u64 = 0;
    let mut i: usize = start;
    while i < n
        invariant
            n == s@.len(),
            start <= i <= n,
            start < n,
            t == s@.skip(start as int),
            t == strip_plus(s@),
            all_digits(t.take(i - start)),
            acc == digits_val(t.take(i - start)),
            acc <= max,
        decreases n - i,
    {
        let b = s[i];
        proof {
            let j = i - start;
            assert(t[j as int] == s@[i as int]);
            assert(t.take(j + 1).drop_last() =~= t.take(j as int));
            assert(t.take(j + 1).last() == t[j as int]);
        }
        if b < 48 || b > 57 {
            return None;
        }
        let d = (b - 48) as u64;
        let m = max as u64;
        if acc > m / 10 {
            proof {
                assert(acc * 10 + d > m);
                if all_digits(t) {
                    lemma_digits_val_bounds(t, i - start + 1);
                }
            }
            return None;
        }
        let acc10: u64 = acc * 10;
        if d > m - acc10 {
            proof {
                if all_digits(t) {
                    lemma_digits_val_bounds(t, i - start + 1);
                }
            }
            return None;
        }
        acc = acc10 + d;
        i += 1;
    }
    proof {
        assert(t.take((n - start) as int) =~= t);
    }
    if acc == 0 {
        return None;
    }
    Some(acc as usize)
}

} // verus!
