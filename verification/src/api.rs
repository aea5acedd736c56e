//! Snapshot-cache bookkeeping.
//!
//! Snapshot files are named by their numeric epoch, as in
//! `response_123.json`; the functions here recover that number from a
//! file name and decide whether a wanted epoch is already cached. The
//! directory listing, the network fetch and the file I/O around them
//! live with the caller.

use vstd::prelude::*;
use vstd::string::StrSliceExecFns;

verus! {

/// Why a snapshot file name yields no epoch number.
#[derive(Clone, Copy, Debug, PartialEq, Eq, Structural)]
pub enum SnapshotNameError {
    /// No underscore, no dot, or the dot before the underscore.
    Malformed,
    /// The characters between them are not a `u64` in decimal.
    InvalidNumber,
}

/// The position of the first occurrence of a character.
pub open spec fn spec_find(s: Seq<char>, c: char) -> Option<int>
    decreases s.len(),
{
    if s.len() == 0 {
        None
    } else if s[0] == c {
        Some(0int)
    } else {
        match spec_find(s.drop_first(), c) {
            Some(i) => Some(i + 1),
            None => None,
        }
    }
}

/// A decimal digit.
pub open spec fn is_digit(c: char) -> bool {
    48 <= c as u32 <= 57
}

pub open spec fn all_digits(s: Seq<char>) -> bool {
    forall|k: int| 0 <= k < s.len() ==> is_digit(#[trigger] s[k])
}

/// The number a string of decimal digits denotes.
pub open spec fn digits_value(s: Seq<char>) -> int
    decreases s.len(),
{
    if s.len() == 0 {
        0
    } else {
        digits_value(s.drop_last()) * 10 + (s.last() as u32 - 48)
    }
}

/// The epoch number a snapshot file name denotes: the decimal number
/// between the first underscore and the first dot, or the reason there
/// is none.
pub open spec fn spec_parse_snapshot_name(s: Seq<char>) -> Result<u64, SnapshotNameError> {
    match (spec_find(s, '_'), spec_find(s, '.')) {
        (Some(u), Some(d)) => {
            if u + 1 <= d {
                let digits = s.subrange(u + 1, d);
                if digits.len() > 0 && all_digits(digits) && digits_value(digits) <= u64::MAX {
                    Ok((digits_value(digits) as u64))
                } else {
                    Err(SnapshotNameError::InvalidNumber)
                }
            } else {
                Err(SnapshotNameError::Malformed)
            }
        },
        _ => Err(SnapshotNameError::Malformed),
    }
}

/// `spec_find` names the first occurrence, if any.
proof fn lemma_spec_find(s: Seq<char>, c: char)
    ensures
        match spec_find(s, c) {
            Some(i) => 0 <= i < s.len() && s[i] == c && forall|k: int| 0 <= k < i ==> s[k] != c,
            None => forall|k: int| 0 <= k < s.len() ==> s[k] != c,
        },
    decreases s.len(),
{
    if s.len() > 0 && s[0] != c {
        lemma_spec_find(s.drop_first(), c);
        match spec_find(s.drop_first(), c) {
            Some(i0) => {
                assert(s.drop_first()[i0] == s[i0 + 1]);
                assert forall|k: int| 0 <= k < i0 + 1 implies s[k] != c by {
                    if k > 0 {
                        assert(s.drop_first()[k - 1] == s[k]);
                    }
                }
            },
            None => {
                assert forall|k: int| 0 <= k < s.len() implies s[k] != c by {
                    if k > 0 {
                        assert(s.drop_first()[k - 1] == s[k]);
                    }
                }
            },
        }
    }
}

/// Extending a digit string can only grow its value.
pub proof fn lemma_digits_value_extend(s: Seq<char>, k: int)
    requires
        all_digits(s),
        0 <= k <= s.len(),
    ensures
        digits_value(s.take(k)) <= digits_value(s),
        digits_value(s.take(k)) >= 0,
    decreases s.len() - k,
{
    if k == s.len() {
        assert(s.take(k) =~= s);
        lemma_digits_value_nonneg(s);
    } else {
        lemma_digits_value_extend(s, k + 1);
        assert(s.take(k + 1).drop_last() =~= s.take(k));
        assert(s.take(k + 1).last() == s[k]);
        lemma_digits_value_nonneg(s.take(k));
    }
}

proof fn lemma_digits_value_nonneg(s: Seq<char>)
    requires
        all_digits(s),
    ensures
        digits_value(s) >= 0,
    decreases s.len(),
{
    if s.len() > 0 {
        assert(forall|k: int| 0 <= k < s.drop_last().len() ==> (#[trigger] s.drop_last()[k])
            == s[k]);
        lemma_digits_value_nonneg(s.drop_last());
        assert(is_digit(s[s.len() - 1]));
    }
}

/// The position of the first occurrence of `c`, if any.
pub fn find_char(s: &str, c: char) -> (r: Option<usize>)
    ensures
        match r {
            Some(i) => spec_find(s@, c) == Some(i as int) && i < s@.len(),
            None => spec_find(s@, c) is None,
        },
{
    let n = s.unicode_len();
    let mut i: usize = 0;
    while i < n
        invariant
            i <= n,
            n == s@.len(),
            forall|k: int| 0 <= k < i ==> s@[k] != c,
        decreases n - i,
    {
        if s.get_char(i) == c {
            proof {
                lemma_spec_find(s@, c);
                if spec_find(s@, c) is None {
                    assert(false);
                }
                let j = spec_find(s@, c).unwrap();
                assert(j == i) by {
                    if j < i {
                        assert(s@[j] != c);
                    }
                    if j > i {
                        assert(s@[i as int] != c);
                    }
                }
            }
            return Some(i);
        }
        i += 1;
    }
    proof {
        lemma_spec_find(s@, c);
        if spec_find(s@, c) is Some {
            let j = spec_find(s@, c).unwrap();
            assert(s@[j] == c);
        }
    }
    None
}

/// Recovers the snapshot epoch from a cache file name such as
/// `response_123.json`: the decimal number between the first underscore
/// and the first dot. Returns an error for names without both markers in
/// that order, and for numbers that are empty, non-decimal or too large
/// for a `u64`.
pub fn get_snapshot_number_from_name(snapshot_name: &str) -> (r: Result<u64, SnapshotNameError>)
    ensures
        r == spec_parse_snapshot_name(snapshot_name@),
{
    let underscore_idx = match find_char(snapshot_name, '_') {
        Some(i) => i,
        None => {
            return Err(SnapshotNameError::Malformed);
        },
    };
    let dot_idx = match find_char(snapshot_name, '.') {
        Some(i) => i,
        None => {
            return Err(SnapshotNameError::Malformed);
        },
    };
    if dot_idx <= underscore_idx {
        return Err(SnapshotNameError::Malformed);
    }
    let ghost digits = snapshot_name@.subrange(underscore_idx + 1, dot_idx as int);
    if underscore_idx + 1 == dot_idx {
        proof {
            assert(digits.len() == 0);
        }
        return Err(SnapshotNameError::InvalidNumber);
    }
    let mut value: u64 = 0;
    let mut i: usize = underscore_idx + 1;
    while i < dot_idx
        invariant
            underscore_idx + 1 <= i <= dot_idx,
            dot_idx < snapshot_name@.len(),
            spec_find(snapshot_name@, '_') == Some(underscore_idx as int),
            spec_find(snapshot_name@, '.') == Some(dot_idx as int),
            underscore_idx + 1 < dot_idx,
            digits == snapshot_name@.subrange(underscore_idx + 1, dot_idx as int),
            all_digits(snapshot_name@.subrange(underscore_idx + 1, i as int)),
            value == digits_value(snapshot_name@.subrange(underscore_idx + 1, i as int)),
        decreases dot_idx - i,
    {
        let c = snapshot_name.get_char(i);
        let cu = c as u32;
        proof {
            assert(snapshot_name@.subrange(underscore_idx + 1, i as int + 1).drop_last()
                =~= snapshot_name@.subrange(underscore_idx + 1, i as int));
            assert(snapshot_name@.subrange(underscore_idx + 1, i as int + 1).last()
                == snapshot_name@[i as int]);
        }
        if cu < 48 || cu > 57 {
            proof {
                assert(digits[i - underscore_idx - 1] == snapshot_name@[i as int]);
                assert(!all_digits(digits));
            }
            return Err(SnapshotNameError::InvalidNumber);
        }
        let digit = (cu - 48) as u64;
        if value > (u64::MAX - digit) / 10 {
            proof {
                let m = (u64::MAX - digit) as int;
                vstd::arithmetic::div_mod::lemma_fundamental_div_mod(m, 10);
                vstd::arithmetic::div_mod::lemma_mod_division_less_than_divisor(m, 10);
                let taken = snapshot_name@.subrange(underscore_idx + 1, i as int + 1);
                assert(digits_value(taken) == value * 10 + digit);
                assert(digits_value(taken) > u64::MAX);
                assert(digits.take(i + 1 - underscore_idx - 1) =~= taken);
                if all_digits(digits) {
                    lemma_digits_value_extend(digits, i + 1 - underscore_idx - 1);
                }
            }
            return Err(SnapshotNameError::InvalidNumber);
        }
        value = value * 10 + digit;
        i += 1;
    }
    proof {
        assert(snapshot_name@.subrange(underscore_idx + 1, dot_idx as int) =~= digits);
    }
    Ok(value)
}

/// True iff some cached file name carries exactly the wanted epoch;
/// names that yield no epoch at all never match.
pub fn check_if_snapshot_exists(newest_snapshot: u64, snapshot_names: &Vec<String>) -> (found:
    bool)
    ensures
        found <==> exists|i: int|
            0 <= i < snapshot_names@.len() && spec_parse_snapshot_name(
                #[trigger] snapshot_names@[i]@,
            ) == Ok::<u64, SnapshotNameError>(newest_snapshot),
{
    let n = snapshot_names.len();
    let mut i: usize = 0;
    while i < n
        invariant
            i <= n,
            n == snapshot_names@.len(),
            forall|k: int|
                0 <= k < i ==> spec_parse_snapshot_name(#[trigger] snapshot_names@[k]@)
                    != Ok::<u64, SnapshotNameError>(newest_snapshot),
        decreases n - i,
    {
        if let Ok(number) = get_snapshot_number_from_name(snapshot_names[i].as_str()) {
            if number == newest_snapshot {
                return true;
            }
        }
        i += 1;
    }
    false
}

} // verus!
