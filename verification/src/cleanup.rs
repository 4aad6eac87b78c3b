//! Which output files are old enough to be removed.
//!
//! A composed image whose name was not chosen by the caller is named after
//! the second it was made in: decimal digits, an underscore, and the rest.
//! Cleanup goes by the name alone. A name that does not begin with digits and
//! an underscore, or whose digits are more than 64 bits can count, belongs to
//! something else and is never stale.

use vstd::prelude::*;
use vstd::string::StringSliceAdditionalSpecFns;
use vstd::utf8::encode_utf8;

verus! {

/// The byte of the underscore that ends the digits.
pub const UNDERSCORE: u8 = 0x5f;

/// Whether a byte is one of the digits `0` to `9`.
pub open spec fn is_digit(b: u8) -> bool {
    0x30 <= b <= 0x39
}

/// The number that a string of decimal digits writes.
pub open spec fn digits_value(digits: Seq<u8>) -> nat
    decreases digits.len(),
{
    if digits.len() == 0 {
        0
    } else {
        (10 * digits_value(digits.drop_last()) + (digits.last() - 0x30)) as nat
    }
}

/// Whether `name` begins with `n` digits, one at least, and an underscore.
pub open spec fn splits_at(name: Seq<u8>, n: int) -> bool {
    &&& 0 < n < name.len()
    &&& name[n] == UNDERSCORE
    &&& forall|j: int| 0 <= j < n ==> is_digit(#[trigger] name[j])
}

/// The second that a file's name says it was made in, if the name says so.
pub open spec fn epoch_prefix(name: Seq<u8>) -> Option<u64> {
    if exists|n: int| splits_at(name, n) {
        let n = choose|n: int| splits_at(name, n);
        if digits_value(name.subrange(0, n)) <= u64::MAX {
            Some(digits_value(name.subrange(0, n)) as u64)
        } else {
            None
        }
    } else {
        None
    }
}

/// Whether a file of that name is older than `max_age_secs` at the second
/// `now`: its name gives the second it was made in, and more than
/// `max_age_secs` seconds have passed since.
pub open spec fn stale(name: Seq<u8>, now: u64, max_age_secs: u64) -> bool {
    match epoch_prefix(name) {
        Some(made) => now - made > max_age_secs,
        None => false,
    }
}

/// A name splits in one place at most.
pub proof fn lemma_split_unique(name: Seq<u8>, n: int, m: int)
    requires
        splits_at(name, n),
        splits_at(name, m),
    ensures
        n == m,
{
    if n < m {
        assert(is_digit(name[n]));
    }
    if m < n {
        assert(is_digit(name[m]));
    }
}

/// The second that a file's name begins with: one or more decimal digits
/// followed by an underscore, the digits read as a number. `None` when the
/// name does not begin so, or when the number does not fit 64 bits.
pub fn timestamp_prefix(name: &str) -> (made: Option<u64>)
    ensures
        made == epoch_prefix(name.spec_bytes()),
{
    let bytes = name.as_bytes();
    let ghost all = bytes@;
    let len = bytes.len();
    let mut value: u64 = 0;
    let mut overflow = false;
    let mut i: usize = 0;
    while i < len
        invariant
            all == bytes@,
            all == name.spec_bytes(),
            len == all.len(),
            i <= len,
            forall|j: int| 0 <= j < i ==> is_digit(#[trigger] all[j]),
            !overflow ==> value == digits_value(all.subrange(0, i as int)),
            overflow ==> digits_value(all.subrange(0, i as int)) > u64::MAX,
        decreases len - i,
    {
        let b = bytes[i];
        if b == UNDERSCORE {
            proof {
                if i > 0 {
                    assert(splits_at(all, i as int));
                    let n = choose|n: int| splits_at(all, n);
                    lemma_split_unique(all, n, i as int);
                } else {
                    assert forall|n: int| !splits_at(all, n) by {
                        if splits_at(all, n) {
                            assert(is_digit(all[0]));
                        }
                    }
                }
            }
            return if i > 0 && !overflow {
                Some(value)
            } else {
                None
            };
        }
        if b < 0x30 || b > 0x39 {
            proof {
                assert forall|n: int| !splits_at(all, n) by {
                    if splits_at(all, n) {
                        if n > i {
                            assert(is_digit(all[i as int]));
                        } else if n < i {
                            assert(is_digit(all[n]));
                        }
                    }
                }
            }
            return None;
        }
        let digit: u64 = (b - 0x30) as u64;
        proof {
            let longer = all.subrange(0, i + 1);
            assert(longer.drop_last() =~= all.subrange(0, i as int));
            assert(longer.last() == b);
        }
        if overflow || value > (u64::MAX - digit) / 10 {
            overflow = true;
        } else {
            value = value * 10 + digit;
        }
        i = i + 1;
    }
    proof {
        assert forall|n: int| !splits_at(all, n) by {
            if splits_at(all, n) {
                assert(is_digit(all[n]));
            }
        }
    }
    None
}

/// Whether a file of that name is stale at the second `now`.
pub fn is_stale(name: &str, now: u64, max_age_secs: u64) -> (old: bool)
    ensures
        old == stale(name.spec_bytes(), now, max_age_secs),
{
    match timestamp_prefix(name) {
        Some(made) => now > made && now - made > max_age_secs,
        None => false,
    }
}

/// The positions, among `names`, of the files to remove at the second `now`:
/// those that are stale, in increasing order. Names that say nothing of
/// their age are left alone.
pub fn cleanup_old_files_by_name(names: &Vec<String>, now: u64, max_age_secs: u64) -> (doomed: Vec<
    usize,
>)
    ensures
        forall|a: int, b: int| 0 <= a < b < doomed.len() ==> doomed[a] < doomed[b],
        forall|k: int| 0 <= k < doomed.len() ==> (#[trigger] doomed[k]) < names.len(),
        forall|i: int|
            0 <= i < names.len() ==> (doomed@.contains(i as usize) <==> stale(
                encode_utf8((#[trigger] names[i])@),
                now,
                max_age_secs,
            )),
{
    let mut doomed: Vec<usize> = Vec::new();
    let n = names.len();
    let mut i: usize = 0;
    while i < n
        invariant
            n == names.len(),
            i <= n,
            forall|a: int, b: int| 0 <= a < b < doomed.len() ==> doomed[a] < doomed[b],
            forall|k: int| 0 <= k < doomed.len() ==> (#[trigger] doomed[k]) < i,
            forall|j: int|
                0 <= j < i ==> (doomed@.contains(j as usize) <==> stale(
                    encode_utf8((#[trigger] names[j])@),
                    now,
                    max_age_secs,
                )),
        decreases n - i,
    {
        let ghost before = doomed@;
        let old = is_stale(names[i].as_str(), now, max_age_secs);
        if old {
            doomed.push(i);
        }
        proof {
            assert forall|j: int| 0 <= j < i + 1 implies (doomed@.contains(j as usize) <==> stale(
                encode_utf8((#[trigger] names[j])@),
                now,
                max_age_secs,
            )) by {
                if before.contains(j as usize) {
                    let k = choose|k: int| 0 <= k < before.len() && before[k] == j as usize;
                    assert(doomed@[k] == j as usize);
                }
                if doomed@.contains(j as usize) && !before.contains(j as usize) {
                    let k = choose|k: int| 0 <= k < doomed@.len() && doomed@[k] == j as usize;
                    assert(k == before.len());
                }
                if old && j == i {
                    assert(doomed@[before.len() as int] == i);
                }
            }
        }
        i = i + 1;
    }
    doomed
}

} // verus!
