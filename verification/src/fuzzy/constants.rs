use vstd::prelude::*;

verus! {

pub const MATCH_BONUS: i16 = 18;

pub const START_OF_STRING_BONUS: i16 = 16;

pub const CAMEL_CASE_BONUS: i16 = 6;

pub const CONSECUTIVE_BONUS: i16 = 11;

pub const GAP_OPEN: i16 = 6;

pub const GAP_EXTEND: i16 = 4;

pub const TYPO_PENALTY: i16 = 10;

pub const MISMATCH_PENALTY: i16 = 16;

pub const MAX_PAT_LEN: usize = 32;

pub const TYPO_BAND_SLACK: usize = 4;

/// Bonus for a match that follows a separator character (by code point).
pub open spec fn spec_separator_bonus(code: u32) -> i16 {
    if code == 0x20 {
        16
    } else if code == 0x2d {
        10
    } else if code == 0x2e {
        12
    } else if code == 0x2f {
        16
    } else if code == 0x5c {
        16
    } else if code == 0x5f {
        12
    } else {
        0
    }
}

pub fn separator_bonus_of(code: u32) -> (r: i16)
    ensures
        r == spec_separator_bonus(code),
        0 <= r <= 16,
{
    if code == 0x20 {
        16
    } else if code == 0x2d {
        10
    } else if code == 0x2e {
        12
    } else if code == 0x2f {
        16
    } else if code == 0x5c {
        16
    } else if code == 0x5f {
        12
    } else {
        0
    }
}

} // verus!
