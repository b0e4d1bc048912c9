//! Counting working days between two dates.
//!
//! A working day is a business day of the week mask that is not a holiday.
//! The count over `[lo, hi)` is taken in constant time: whole weeks by
//! multiplication, holidays by two ranked lookups, and at most six days one
//! by one.

use vstd::prelude::*;
use crate::calendar::{
    business_days_per_week,
    flag,
    increment_weekday,
    is_business_day,
    lemma_weekday_step,
    weekday,
    weekday_of,
};
use crate::holidays::{
    holidays_before,
    is_holiday,
    is_holiday_set,
    lemma_rank_step,
    lower_bound,
};

verus! {

/// A business day of `mask` that `holidays` does not name.
pub open spec fn is_working_day(day: int, mask: Seq<bool>, holidays: Seq<i32>) -> bool {
    is_business_day(day, mask) && !is_holiday(day, holidays)
}

/// Number of business days of `mask` in `[lo, hi)`; 0 when `hi <= lo`.
pub open spec fn business_days_between(lo: int, hi: int, mask: Seq<bool>) -> int
    decreases hi - lo,
{
    if hi <= lo {
        0
    } else {
        business_days_between(lo, hi - 1, mask) + flag(is_business_day(hi - 1, mask))
    }
}

/// Number of working days in `[lo, hi)`; 0 when `hi <= lo`.
pub open spec fn working_days_between(lo: int, hi: int, mask: Seq<bool>, holidays: Seq<i32>) -> int
    decreases hi - lo,
{
    if hi <= lo {
        0
    } else {
        working_days_between(lo, hi - 1, mask, holidays) + flag(
            is_working_day(hi - 1, mask, holidays),
        )
    }
}

/// Signed count from `start` to `end`. Forwards it is the number of working
/// days in `[start, end)`. Backwards it is minus the number of working days in
/// `[end + 1, start + 1)`: the interval then excludes `end` and includes `start`.
pub open spec fn signed_working_days(
    start: int,
    end: int,
    mask: Seq<bool>,
    holidays: Seq<i32>,
) -> int {
    if start <= end {
        working_days_between(start, end, mask, holidays)
    } else {
        -working_days_between(end + 1, start + 1, mask, holidays)
    }
}

/// The distance from `start` to `end` fits a signed 32-bit integer, and so
/// does every count between them.
pub open spec fn span_fits(start: int, end: int) -> bool {
    i32::MIN <= end - start <= i32::MAX
}

/// A count over `[lo, hi)` is the count over `[lo, mid)` plus that over `[mid, hi)`.
pub proof fn lemma_business_days_split(lo: int, mid: int, hi: int, mask: Seq<bool>)
    requires
        lo <= mid <= hi,
    ensures
        business_days_between(lo, hi, mask) == business_days_between(lo, mid, mask)
            + business_days_between(mid, hi, mask),
    decreases hi - mid,
{
    if mid < hi {
        lemma_business_days_split(lo, mid, hi - 1, mask);
    }
}

/// Any seven consecutive days hold each weekday once.
pub proof fn lemma_business_days_one_week(lo: int, mask: Seq<bool>)
    ensures
        business_days_between(lo, lo + 7, mask) == business_days_per_week(mask),
{
    reveal_with_fuel(business_days_between, 8);
    let w = weekday_of(lo);
    lemma_weekday_step(lo);
    lemma_weekday_step(lo + 1);
    lemma_weekday_step(lo + 2);
    lemma_weekday_step(lo + 3);
    lemma_weekday_step(lo + 4);
    lemma_weekday_step(lo + 5);
}

/// `weeks` whole weeks from any day hold `weeks` times the business days of one week.
pub proof fn lemma_business_days_whole_weeks(lo: int, weeks: int, mask: Seq<bool>)
    requires
        0 <= weeks,
    ensures
        business_days_between(lo, lo + 7 * weeks, mask) == weeks * business_days_per_week(mask),
    decreases weeks,
{
    if weeks > 0 {
        lemma_business_days_whole_weeks(lo, weeks - 1, mask);
        lemma_business_days_one_week(lo + 7 * (weeks - 1), mask);
        lemma_business_days_split(lo, lo + 7 * (weeks - 1), lo + 7 * weeks, mask);
        assert(weeks * business_days_per_week(mask) == (weeks - 1) * business_days_per_week(mask)
            + business_days_per_week(mask)) by (nonlinear_arith);
    } else {
        assert(weeks * business_days_per_week(mask) == 0) by (nonlinear_arith)
            requires
                weeks == 0,
        ;
    }
}

/// A week-mask count over `[lo, hi)` is never negative and never more than the days in it.
pub proof fn lemma_business_days_bounds(lo: int, hi: int, mask: Seq<bool>)
    requires
        lo <= hi,
    ensures
        0 <= business_days_between(lo, hi, mask) <= hi - lo,
    decreases hi - lo,
{
    if lo < hi {
        lemma_business_days_bounds(lo, hi - 1, mask);
    }
}

/// A count over `[lo, hi)` is never negative and never more than the days in it.
pub proof fn lemma_working_days_bounds(lo: int, hi: int, mask: Seq<bool>, holidays: Seq<i32>)
    requires
        lo <= hi,
    ensures
        0 <= working_days_between(lo, hi, mask, holidays) <= hi - lo,
    decreases hi - lo,
{
    if lo < hi {
        lemma_working_days_bounds(lo, hi - 1, mask, holidays);
    }
}

/// With a normalised holiday list, the working days in `[lo, hi)` are its
/// business days less the holidays ranked between `lo` and `hi`.
pub proof fn lemma_working_days_by_rank(lo: int, hi: int, mask: Seq<bool>, holidays: Seq<i32>)
    requires
        lo <= hi,
        is_holiday_set(holidays, mask),
    ensures
        working_days_between(lo, hi, mask, holidays) == business_days_between(lo, hi, mask) - (
        holidays_before(holidays, hi) - holidays_before(holidays, lo)),
    decreases hi - lo,
{
    if lo < hi {
        lemma_working_days_by_rank(lo, hi - 1, mask, holidays);
        lemma_rank_step(holidays, hi - 1);
        if is_holiday(hi - 1, holidays) {
            let i = choose|i: int| 0 <= i < holidays.len() && #[trigger] holidays[i] == hi - 1;
            assert(is_business_day(holidays[i] as int, mask));
        }
    }
}

/// Signed number of working days from `start_date` to `end_date`, `end_date`
/// excluded, for a normalised holiday list and the mask's weekly count.
pub fn business_day_count_impl(
    start_date: i32,
    end_date: i32,
    week_mask: &[bool; 7],
    n_business_days_in_week_mask: i32,
    holidays: &[i32],
) -> (count: i32)
    requires
        n_business_days_in_week_mask == business_days_per_week(week_mask@),
        is_holiday_set(holidays@, week_mask@),
        span_fits(start_date as int, end_date as int),
    ensures
        count == signed_working_days(start_date as int, end_date as int, week_mask@, holidays@),
        start_date == end_date ==> count == 0,
{
    let swapped = start_date > end_date;
    let first: i32 = if swapped { end_date + 1 } else { start_date };
    let lo: i64 = first as i64;
    let hi: i64 = if swapped { start_date as i64 + 1 } else { end_date as i64 };

    let holidays_begin: usize = lower_bound(holidays, 0, lo);
    let holidays_end: usize = lower_bound(holidays, holidays_begin, hi);
    proof {
        lemma_working_days_by_rank(lo as int, hi as int, week_mask@, holidays@);
        lemma_working_days_bounds(lo as int, hi as int, week_mask@, holidays@);
        lemma_business_days_bounds(lo as int, hi as int, week_mask@);
    }
    let skipped: i64 = (holidays_end - holidays_begin) as i64;

    let mut weekday_now: usize = weekday(first);
    let diff: u64 = (hi - lo) as u64;
    let whole_weeks: i64 = (diff / 7) as i64;
    let per_week: i64 = n_business_days_in_week_mask as i64;
    proof {
        assert(0 <= whole_weeks * per_week <= whole_weeks * 7) by (nonlinear_arith)
            requires
                0 <= whole_weeks,
                0 <= per_week <= 7,
        ;
        lemma_business_days_whole_weeks(lo as int, whole_weeks as int, week_mask@);
        lemma_business_days_split(lo as int, lo + 7 * whole_weeks, hi as int, week_mask@);
    }
    let mut count: i64 = whole_weeks * per_week - skipped;
    let mut day: i64 = lo + whole_weeks * 7;
    while day < hi
        invariant
            lo + 7 * whole_weeks <= day <= hi,
            hi - (lo + 7 * whole_weeks) < 7,
            weekday_now == weekday_of(day as int),
            -0x1_0000_0000 <= whole_weeks * per_week - skipped <= 0x1_0000_0000,
            count == whole_weeks * per_week - skipped + business_days_between(
                lo + 7 * whole_weeks,
                day as int,
                week_mask@,
            ),
            0 <= business_days_between(lo + 7 * whole_weeks, day as int, week_mask@) <= day - (lo
                + 7 * whole_weeks),
        decreases hi - day,
    {
        if week_mask[weekday_now] {
            count += 1;
        }
        proof {
            lemma_weekday_step(day as int);
        }
        day += 1;
        weekday_now = increment_weekday(weekday_now);
    }
    if swapped {
        (-count) as i32
    } else {
        count as i32
    }
}

} // verus!
