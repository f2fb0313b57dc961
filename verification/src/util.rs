//! Small helpers shared by the reporters.

use vstd::prelude::*;
use vstd::string::StringSliceAdditionalSpecFns;
use vstd::string::is_ascii;

verus! {

/// The space padding that brings a string of byte length `len` up to `max`
/// bytes: `max - len` spaces, or nothing when the string is already long
/// enough.
pub open spec fn pad_spec(len: nat, max: nat) -> nat {
    if len < max {
        (max - len) as nat
    } else {
        0
    }
}

/// A run of `n` spaces.
pub open spec fn spaces(n: nat) -> Seq<char> {
    Seq::new(n, |i: int| ' ')
}

/// `s` padded on the left with spaces to the field width `max`: the padding,
/// then the string itself.  A string already `max` bytes wide or wider comes
/// back unchanged.  Widths count bytes, as the listings do.
pub fn pad_left(s: &str, max: usize) -> (r: String)
    ensures
        r@ == spaces(pad_spec((s.spec_bytes().len() as usize) as nat, max as nat)) + s@,
        s.is_ascii() ==> r@ == spaces(pad_spec((s@.len() as usize) as nat, max as nat)) + s@,
{
    proof {
        reveal_strlit(" ");
        broadcast use vstd::string::is_ascii_spec_bytes;

        if is_ascii(s) {
            assert(s.spec_bytes().len() == s@.len());
        }
    }
    let mut len = s.len();
    let mut res = String::new();

    while len < max
        invariant
            (s.spec_bytes().len() as usize) <= len,
            res@.len() == len - (s.spec_bytes().len() as usize),
            len <= max || res@.len() == 0,
            forall|i: int| 0 <= i < res@.len() ==> res@[i] == ' ',
            " "@ == seq![' '],
        decreases max - len,
    {
        res.append(" ");
        len += 1;
    }

    res.append(s);
    proof {
        assert(res@ =~= spaces(
            pad_spec((s.spec_bytes().len() as usize) as nat, max as nat),
        ) + s@);
    }
    res
}

/// The character of one decimal digit.
pub open spec fn digit_char(d: nat) -> char {
    if d == 0 {
        '0'
    } else if d == 1 {
        '1'
    } else if d == 2 {
        '2'
    } else if d == 3 {
        '3'
    } else if d == 4 {
        '4'
    } else if d == 5 {
        '5'
    } else if d == 6 {
        '6'
    } else if d == 7 {
        '7'
    } else if d == 8 {
        '8'
    } else {
        '9'
    }
}

/// The decimal text of a number, most significant digit first, no leading
/// zeros but for the number zero itself.
pub open spec fn dec_str(n: nat) -> Seq<char>
    decreases n,
{
    if n < 10 {
        seq![digit_char(n)]
    } else {
        dec_str(n / 10).push(digit_char(n % 10))
    }
}

/// The text of one decimal digit.
fn digit_str(d: u64) -> (r: &'static str)
    requires
        d < 10,
    ensures
        r@ == seq![digit_char(d as nat)],
{
    proof {
        reveal_strlit("0");
        reveal_strlit("1");
        reveal_strlit("2");
        reveal_strlit("3");
        reveal_strlit("4");
        reveal_strlit("5");
        reveal_strlit("6");
        reveal_strlit("7");
        reveal_strlit("8");
        reveal_strlit("9");
    }
    if d == 0 {
        "0"
    } else if d == 1 {
        "1"
    } else if d == 2 {
        "2"
    } else if d == 3 {
        "3"
    } else if d == 4 {
        "4"
    } else if d == 5 {
        "5"
    } else if d == 6 {
        "6"
    } else if d == 7 {
        "7"
    } else if d == 8 {
        "8"
    } else {
        "9"
    }
}

/// The decimal text of `n`.
pub fn u64_to_string(n: u64) -> (s: String)
    ensures
        s@ == dec_str(n as nat),
    decreases n,
{
    if n < 10 {
        String::from_str(digit_str(n))
    } else {
        let mut s = u64_to_string(n / 10);
        s.append(digit_str(n % 10));
        assert(s@ =~= dec_str(n as nat));
        s
    }
}

} // verus!
