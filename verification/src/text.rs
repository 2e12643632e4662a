//! Building `String` values whose contents the contracts pin down exactly:
//! from collected characters, possibly trimmed, and from numbers.

use vstd::prelude::*;

use crate::chars::{is_ws, trim_end, dec_str, digit_char};
use crate::chars;

verus! {

/// Relies on `String::push`: appends exactly the given character at the end.
pub assume_specification[ String::push ](s: &mut String, ch: char)
    ensures
        final(s)@ == old(s)@.push(ch),
;

/// The string holding exactly the given characters.
pub fn string_of(v: &Vec<char>) -> (s: String)
    ensures
        s@ == v@,
{
    let mut s = String::new();
    let mut i: usize = 0;
    while i < v.len()
        invariant
            i <= v.len(),
            s@ == v@.subrange(0, i as int),
        decreases v.len() - i,
    {
        s.push(v[i]);
        proof {
            assert(v@.subrange(0, i + 1 as int) =~= v@.subrange(0, i as int).push(v@[i as int]));
        }
        i = i + 1;
    }
    proof {
        assert(v@.subrange(0, v@.len() as int) =~= v@);
    }
    s
}

/// The string holding the given characters with trailing whitespace removed.
pub fn string_of_trimmed(v: &Vec<char>) -> (s: String)
    ensures
        s@ == trim_end(v@),
{
    let mut k: usize = v.len();
    proof {
        assert(v@.subrange(0, v@.len() as int) =~= v@);
    }
    loop
        invariant
            k <= v.len(),
            trim_end(v@) == trim_end(v@.subrange(0, k as int)),
        ensures
            k <= v.len(),
            trim_end(v@) == trim_end(v@.subrange(0, k as int)),
            k == 0 || !is_ws(v@[k as int - 1]),
        decreases k,
    {
        if k == 0 {
            break;
        }
        let c = v[k - 1];
        if chars::ws(c) {
            proof {
                assert(v@.subrange(0, k as int).drop_last() =~= v@.subrange(0, k as int - 1));
            }
            k = k - 1;
        } else {
            break;
        }
    }
    let mut s = String::new();
    let mut i: usize = 0;
    while i < k
        invariant
            i <= k <= v.len(),
            s@ == v@.subrange(0, i as int),
            trim_end(v@) == trim_end(v@.subrange(0, k as int)),
            k == 0 || !is_ws(v@[k as int - 1]),
        decreases k - i,
    {
        s.push(v[i]);
        proof {
            assert(v@.subrange(0, i + 1 as int) =~= v@.subrange(0, i as int).push(v@[i as int]));
        }
        i = i + 1;
    }
    s
}

pub fn digit_char_of(d: u64) -> (c: char)
    requires
        d < 10,
    ensures
        c == digit_char(d as nat),
{
    if d == 0 {
        '0'
    } else if d == 1 {
        '1'
    } else if d == 2 {
        '2'
    } else if d == 3 {
        '3'
    } else if d == 4 {
        '4'
    } else if d == 5 {
        '5'
    } else if d == 6 {
        '6'
    } else if d == 7 {
        '7'
    } else if d == 8 {
        '8'
    } else {
        '9'
    }
}

/// The decimal rendering of `n`.
pub fn itoa(n: u64) -> (s: String)
    ensures
        s@ == dec_str(n as nat),
    decreases n,
{
    if n < 10 {
        let mut s = String::new();
        s.push(digit_char_of(n));
        proof {
            assert(Seq::<char>::empty().push(digit_char(n as nat)) =~= seq![digit_char(n as nat)]);
        }
        s
    } else {
        let mut s = itoa(n / 10);
        s.push(digit_char_of(n % 10));
        s
    }
}

} // verus!
