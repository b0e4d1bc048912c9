//! Laws of the signed working-day count, stated over the spec functions that
//! the executable contracts use.

use vstd::prelude::*;
use crate::calendar::{business_days_per_week, flag, is_business_day};
use crate::count::{
    business_days_between,
    is_working_day,
    lemma_business_days_whole_weeks,
    signed_working_days,
    working_days_between,
};
use crate::holidays::{is_holiday, lemma_is_holiday_push};

verus! {

/// A count over `[lo, hi)` is the count over `[lo, mid)` plus that over `[mid, hi)`.
pub proof fn lemma_working_days_split(
    lo: int,
    mid: int,
    hi: int,
    mask: Seq<bool>,
    holidays: Seq<i32>,
)
    requires
        lo <= mid <= hi,
    ensures
        working_days_between(lo, hi, mask, holidays) == working_days_between(
            lo,
            mid,
            mask,
            holidays,
        ) + working_days_between(mid, hi, mask, holidays),
    decreases hi - mid,
{
    if mid < hi {
        lemma_working_days_split(lo, mid, hi - 1, mask, holidays);
    }
}

/// Two holiday lists that agree on every business day give the same counts:
/// entries on other days never matter.
pub proof fn lemma_same_business_holidays(
    start: int,
    end: int,
    mask: Seq<bool>,
    first: Seq<i32>,
    second: Seq<i32>,
)
    requires
        forall|day: int|
            is_business_day(day, mask) ==> (is_holiday(day, first) <==> is_holiday(day, second)),
    ensures
        signed_working_days(start, end, mask, first) == signed_working_days(
            start,
            end,
            mask,
            second,
        ),
{
    if start <= end {
        lemma_same_between(start, end, mask, first, second);
    } else {
        lemma_same_between(end + 1, start + 1, mask, first, second);
    }
}

proof fn lemma_same_between(lo: int, hi: int, mask: Seq<bool>, first: Seq<i32>, second: Seq<i32>)
    requires
        forall|day: int|
            is_business_day(day, mask) ==> (is_holiday(day, first) <==> is_holiday(day, second)),
    ensures
        working_days_between(lo, hi, mask, first) == working_days_between(lo, hi, mask, second),
    decreases hi - lo,
{
    if lo < hi {
        lemma_same_between(lo, hi - 1, mask, first, second);
    }
}

/// Without holidays every business day is a working day.
proof fn lemma_no_holidays(lo: int, hi: int, mask: Seq<bool>)
    ensures
        working_days_between(lo, hi, mask, Seq::<i32>::empty()) == business_days_between(
            lo,
            hi,
            mask,
        ),
    decreases hi - lo,
{
    if lo < hi {
        lemma_no_holidays(lo, hi - 1, mask);
        assert(!is_holiday(hi - 1, Seq::<i32>::empty()));
    }
}

/// One more holiday `extra` takes one day off a count over `[lo, hi)` when it
/// is a working day inside the interval, and nothing otherwise.
proof fn lemma_extra_holiday_between(
    lo: int,
    hi: int,
    mask: Seq<bool>,
    holidays: Seq<i32>,
    extra: i32,
)
    ensures
        working_days_between(lo, hi, mask, holidays.push(extra)) == working_days_between(
            lo,
            hi,
            mask,
            holidays,
        ) - flag(lo <= extra < hi && is_working_day(extra as int, mask, holidays)),
    decreases hi - lo,
{
    if lo < hi {
        lemma_extra_holiday_between(lo, hi - 1, mask, holidays, extra);
        lemma_is_holiday_push(holidays, extra, hi - 1);
    }
}

/// From a date to itself the count is zero.
pub proof fn law_empty_interval(day: int, mask: Seq<bool>, holidays: Seq<i32>)
    ensures
        signed_working_days(day, day, mask, holidays) == 0,
{
}

/// Swapping the two dates negates the count whenever both dates are working
/// days or neither is. The backward count leaves out the earlier date and
/// takes in the later one, so where exactly one of the two is a working day
/// the two counts differ in size by one.
pub proof fn law_antisymmetry(a: int, b: int, mask: Seq<bool>, holidays: Seq<i32>)
    requires
        is_working_day(a, mask, holidays) == is_working_day(b, mask, holidays),
    ensures
        signed_working_days(a, b, mask, holidays) == -signed_working_days(b, a, mask, holidays),
{
    lemma_swap_difference(a, b, mask, holidays);
}

/// The size of the backward count is that of the forward count, less the
/// earlier date if it is a working day, plus the later one if it is.
pub proof fn lemma_swap_difference(a: int, b: int, mask: Seq<bool>, holidays: Seq<i32>)
    ensures
        a <= b ==> signed_working_days(a, b, mask, holidays) + signed_working_days(
            b,
            a,
            mask,
            holidays,
        ) == flag(is_working_day(a, mask, holidays)) - flag(is_working_day(b, mask, holidays)),
        b <= a ==> signed_working_days(a, b, mask, holidays) + signed_working_days(
            b,
            a,
            mask,
            holidays,
        ) == flag(is_working_day(b, mask, holidays)) - flag(is_working_day(a, mask, holidays)),
{
    let lo = if a <= b { a } else { b };
    let hi = if a <= b { b } else { a };
    if lo < hi {
        reveal_with_fuel(working_days_between, 2);
        lemma_working_days_split(lo, lo + 1, hi + 1, mask, holidays);
        assert(working_days_between(lo, lo + 1, mask, holidays) == flag(
            is_working_day(lo, mask, holidays),
        ));
    }
}

/// Without holidays, `weeks` whole weeks from any date hold `weeks` times the
/// business days of one week.
pub proof fn law_whole_weeks(start: int, weeks: int, mask: Seq<bool>)
    requires
        0 <= weeks,
    ensures
        signed_working_days(start, start + 7 * weeks, mask, Seq::<i32>::empty())
            == business_days_per_week(mask) * weeks,
{
    lemma_no_holidays(start, start + 7 * weeks, mask);
    lemma_business_days_whole_weeks(start, weeks, mask);
    assert(business_days_per_week(mask) * weeks == weeks * business_days_per_week(mask))
        by (nonlinear_arith);
}

/// A further holiday on a working day inside `[start, end)` lowers the count
/// by exactly one.
pub proof fn law_holiday_subtracts_one(
    start: int,
    end: int,
    mask: Seq<bool>,
    holidays: Seq<i32>,
    extra: i32,
)
    requires
        start <= extra < end,
        is_business_day(extra as int, mask),
        !is_holiday(extra as int, holidays),
    ensures
        signed_working_days(start, end, mask, holidays.push(extra)) == signed_working_days(
            start,
            end,
            mask,
            holidays,
        ) - 1,
{
    lemma_extra_holiday_between(start, end, mask, holidays, extra);
}

/// A further holiday on a day that is no business day changes no count.
pub proof fn law_holiday_off_mask_is_ignored(
    start: int,
    end: int,
    mask: Seq<bool>,
    holidays: Seq<i32>,
    extra: i32,
)
    requires
        !is_business_day(extra as int, mask),
    ensures
        signed_working_days(start, end, mask, holidays.push(extra)) == signed_working_days(
            start,
            end,
            mask,
            holidays,
        ),
{
    lemma_extra_holiday_between(start, end, mask, holidays, extra);
    lemma_extra_holiday_between(end + 1, start + 1, mask, holidays, extra);
}

} // verus!
