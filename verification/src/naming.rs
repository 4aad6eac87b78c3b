//! How composed images are named.
//!
//! A request may name its output. One that does not gets a name made of the
//! second of its making, in decimal, and a suffix that tells which of the
//! two canvases it shows. Such a name begins with digits and an underscore,
//! which is what cleanup goes by.

use crate::cleanup::{digits_value, epoch_prefix, is_digit, splits_at};
use crate::model::InputData;
use vstd::prelude::*;
use vstd::string::StringExecFns;
use vstd::utf8::{encode_utf8, is_ascii_chars, is_ascii_chars_encode_utf8};

verus! {

/// The character of a decimal digit.
pub open spec fn digit_char(d: nat) -> char {
    if d == 0 {
        '0'
    } else if d == 1 {
        '1'
    } else if d == 2 {
        '2'
    } else if d == 3 {
        '3'
    } else if d == 4 {
        '4'
    } else if d == 5 {
        '5'
    } else if d == 6 {
        '6'
    } else if d == 7 {
        '7'
    } else if d == 8 {
        '8'
    } else {
        '9'
    }
}

/// A number written in decimal, without leading zeros.
pub open spec fn decimal(n: nat) -> Seq<char>
    decreases n,
{
    if n < 10 {
        seq![digit_char(n)]
    } else {
        decimal(n / 10).push(digit_char(n % 10))
    }
}

/// What follows the digits in the name of an image composed on the upright
/// canvas, or on the transposed one.
pub open spec fn suffix(swap_xy: bool) -> Seq<char> {
    if swap_xy {
        "_composed_vert.webp"@
    } else {
        "_composed_horiz.webp"@
    }
}

/// The name of an image composed in the second `stamp`.
pub open spec fn composed(stamp: u64, swap_xy: bool) -> Seq<char> {
    decimal(stamp as nat) + suffix(swap_xy)
}

fn digit_str(d: u64) -> (s: &'static str)
    requires
        d < 10,
    ensures
        s@ == seq![digit_char(d as nat)],
{
    proof {
        reveal_strlit("0");
        reveal_strlit("1");
        reveal_strlit("2");
        reveal_strlit("3");
        reveal_strlit("4");
        reveal_strlit("5");
        reveal_strlit("6");
        reveal_strlit("7");
        reveal_strlit("8");
        reveal_strlit("9");
    }
    let s = if d == 0 {
        "0"
    } else if d == 1 {
        "1"
    } else if d == 2 {
        "2"
    } else if d == 3 {
        "3"
    } else if d == 4 {
        "4"
    } else if d == 5 {
        "5"
    } else if d == 6 {
        "6"
    } else if d == 7 {
        "7"
    } else if d == 8 {
        "8"
    } else {
        "9"
    };
    assert(s@ =~= seq![digit_char(d as nat)]);
    s
}

/// Writes a number in decimal.
pub fn decimal_string(n: u64) -> (s: String)
    ensures
        s@ == decimal(n as nat),
    decreases n,
{
    if n < 10 {
        String::from_str(digit_str(n))
    } else {
        let s = decimal_string(n / 10).concat(digit_str(n % 10));
        assert(s@ =~= decimal(n as nat));
        s
    }
}

/// The name under which an image composed in the second `stamp` is written
/// when the request names none.
pub fn composed_name(stamp: u64, swap_xy: bool) -> (name: String)
    ensures
        name@ == composed(stamp, swap_xy),
{
    let digits = decimal_string(stamp);
    if swap_xy {
        digits.concat("_composed_vert.webp")
    } else {
        digits.concat("_composed_horiz.webp")
    }
}

/// The name under which a request's image is written: the one that the
/// request gives, or else the one made of the second `stamp`.
pub fn output_name(req: &InputData, stamp: u64, swap_xy: bool) -> (name: String)
    ensures
        name@ == match req.output_name {
            Some(given) => given@,
            None => composed(stamp, swap_xy),
        },
{
    match &req.output_name {
        Some(given) => given.clone(),
        None => composed_name(stamp, swap_xy),
    }
}

/// A number in decimal is made of digits, one at least, and they write the
/// number.
pub proof fn lemma_decimal_reads_back(n: nat)
    ensures
        decimal(n).len() > 0,
        is_ascii_chars(decimal(n)),
        forall|i: int| 0 <= i < decimal(n).len() ==> is_digit(#[trigger] decimal(n)[i] as u8),
        digits_value(decimal(n).map_values(|c: char| c as u8)) == n,
    decreases n,
{
    let bytes = decimal(n).map_values(|c: char| c as u8);
    if n < 10 {
        assert(bytes.drop_last() =~= Seq::<u8>::empty());
        assert(digits_value(bytes.drop_last()) == 0);
    } else {
        lemma_decimal_reads_back(n / 10);
        let shorter = decimal(n / 10).map_values(|c: char| c as u8);
        assert(bytes.drop_last() =~= shorter);
    }
}

/// Cleanup reads from a composed name the second that it was made of.
pub proof fn lemma_composed_name_tells_its_age(stamp: u64, swap_xy: bool)
    ensures
        epoch_prefix(encode_utf8(composed(stamp, swap_xy))) == Some(stamp),
{
    reveal_strlit("_composed_vert.webp");
    reveal_strlit("_composed_horiz.webp");
    let digits = decimal(stamp as nat);
    let name = composed(stamp, swap_xy);
    let bytes = encode_utf8(name);
    let n = digits.len() as int;
    lemma_decimal_reads_back(stamp as nat);
    assert(is_ascii_chars(suffix(swap_xy)));
    assert(is_ascii_chars(name));
    is_ascii_chars_encode_utf8(name);
    assert(name[n] == '_');
    assert forall|j: int| 0 <= j < n implies is_digit(#[trigger] bytes[j]) by {
        assert(name[j] == digits[j]);
    }
    assert(splits_at(bytes, n));
    let m = choose|m: int| splits_at(bytes, m);
    crate::cleanup::lemma_split_unique(bytes, m, n);
    assert(bytes.subrange(0, n) =~= digits.map_values(|c: char| c as u8)) by {
        assert forall|j: int| 0 <= j < n implies bytes.subrange(0, n)[j] == digits[j] as u8 by {
            assert(name[j] == digits[j]);
        }
    }
}

} // verus!
