//! The battery level in the device's battery report.
use vstd::prelude::*;

use crate::devices::{
    chars_of, digits_to_usize, digits_value, in_class, lemma_run_end_bounds, run_end, scan_run,
    CharClass,
};
use crate::strings::{char_is_space, is_space};

verus! {

/// `level:`
pub open spec fn level_label() -> Seq<char> {
    seq!['l', 'e', 'v', 'e', 'l', ':']
}

/// The level that the report line `s` gives: two white-space characters,
/// `level:`, one white-space character and hexadecimal digits, of which a
/// level is a decimal number that fits in an `i32`.
pub open spec fn battery_line(s: Seq<char>) -> Option<int> {
    let e = run_end(s, 9, CharClass::Hex);
    let digits = s.subrange(9, e);
    if s.len() >= 10 && is_space(s[0]) && is_space(s[1]) && s.subrange(2, 8) == level_label()
        && is_space(s[8]) && in_class(s[9], CharClass::Hex) && run_end(s, 9, CharClass::Digit)
        >= e && digits_value(digits) <= i32::MAX {
        Some(digits_value(digits) as int)
    } else {
        None
    }
}

/// The battery level on the report line `line`, if it is the level line.
pub fn battery_level(line: &str) -> (r: Option<i32>)
    ensures
        match battery_line(line@) {
            Some(v) => r == Some(v as i32),
            None => r is None,
        },
{
    let cs = chars_of(line);
    let n = cs.len();
    if n < 10 || !char_is_space(cs[0]) || !char_is_space(cs[1]) || !char_is_space(cs[8]) {
        return None;
    }
    if !(cs[2] == 'l' && cs[3] == 'e' && cs[4] == 'v' && cs[5] == 'e' && cs[6] == 'l' && cs[7]
        == ':') {
        assert(cs@.subrange(2, 8) != level_label()) by {
            if cs@.subrange(2, 8) == level_label() {
                assert(cs@.subrange(2, 8)[0] == cs@[2]);
                assert(cs@.subrange(2, 8)[1] == cs@[3]);
                assert(cs@.subrange(2, 8)[2] == cs@[4]);
                assert(cs@.subrange(2, 8)[3] == cs@[5]);
                assert(cs@.subrange(2, 8)[4] == cs@[6]);
                assert(cs@.subrange(2, 8)[5] == cs@[7]);
            }
        }
        return None;
    }
    assert(cs@.subrange(2, 8) =~= level_label());
    let e = scan_run(&cs, 9, &CharClass::Hex);
    let d = scan_run(&cs, 9, &CharClass::Digit);
    proof {
        lemma_run_end_bounds(cs@, 9, CharClass::Hex);
        lemma_run_end_bounds(cs@, 9, CharClass::Digit);
    }
    if e == 9 || d < e {
        return None;
    }
    match digits_to_usize(&cs, 9, e) {
        Some(v) => if v <= 2147483647 {
            Some(v as i32)
        } else {
            None
        },
        None => None,
    }
}

} // verus!
