//! Weekdays and week masks.
//!
//! Weekday 0 is Monday and weekday 6 is Sunday. Epoch day 0 is a Thursday.

use vstd::prelude::*;

verus! {

/// Weekday index of an epoch day, by Euclidean remainder: always in `0..7`.
pub open spec fn weekday_of(day: int) -> int {
    (day - 4) % 7
}

/// The weekday that follows `w`.
pub open spec fn next_weekday(w: int) -> int {
    if w == 6 {
        0
    } else {
        w + 1
    }
}

/// 1 for `true`, 0 for `false`.
pub open spec fn flag(b: bool) -> int {
    if b {
        1
    } else {
        0
    }
}

/// Number of business days in one week of `mask`.
pub open spec fn business_days_per_week(mask: Seq<bool>) -> int {
    flag(mask[0]) + flag(mask[1]) + flag(mask[2]) + flag(mask[3]) + flag(mask[4]) + flag(mask[5])
        + flag(mask[6])
}

/// Whether `day` falls on a weekday that `mask` marks as a business day.
pub open spec fn is_business_day(day: int, mask: Seq<bool>) -> bool {
    mask[weekday_of(day)]
}

/// Weekday index (0 = Monday .. 6 = Sunday) of an epoch day, negative days included.
pub fn weekday(x: i32) -> (w: usize)
    ensures
        w == weekday_of(x as int),
        w < 7,
{
    // 2147483653 is the least multiple of 7 that lifts every `x - 4` above zero.
    let lifted: u64 = (x as i64 - 4 + 2147483653) as u64;
    (lifted % 7) as usize
}

/// Advances a weekday index by one day, wrapping Sunday to Monday.
pub fn increment_weekday(x: usize) -> (w: usize)
    requires
        x < 7,
    ensures
        w == next_weekday(x as int),
        w < 7,
{
    if x == 6 {
        0
    } else {
        x + 1
    }
}

/// Counts the business days in one week of `week_mask`.
pub fn count_business_days(week_mask: &[bool; 7]) -> (n: i32)
    ensures
        n == business_days_per_week(week_mask@),
        0 <= n <= 7,
{
    let mut n: i32 = 0;
    if week_mask[0] { n += 1; }
    if week_mask[1] { n += 1; }
    if week_mask[2] { n += 1; }
    if week_mask[3] { n += 1; }
    if week_mask[4] { n += 1; }
    if week_mask[5] { n += 1; }
    if week_mask[6] { n += 1; }
    n
}

/// The weekday after the weekday of `day` is the weekday of `day + 1`.
pub proof fn lemma_weekday_step(day: int)
    ensures
        0 <= weekday_of(day) < 7,
        weekday_of(day + 1) == next_weekday(weekday_of(day)),
{
}

} // verus!
