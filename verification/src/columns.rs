//! Element-wise counts over nullable date columns, with scalar broadcasting.
//!
//! A column is a slice of `Option<i32>`: an epoch day, or `None` for a null.
//! A column of length one stands for that value at every position.

use vstd::prelude::*;
use crate::calendar::{business_days_per_week, count_business_days};
use crate::count::{business_day_count_impl, signed_working_days, span_fits};
use crate::holidays::{is_holiday_set, normalise_holidays};
use crate::laws::lemma_same_business_holidays;

verus! {

/// Why a count over columns was refused.
#[derive(Debug, Clone, Copy, PartialEq, Eq)]
pub enum BusinessDayError {
    /// The week mask marks no weekday as a business day.
    NoBusinessDays,
}

impl BusinessDayError {
    /// The text that describes the error to a user.
    pub fn message(&self) -> (text: &'static str)
        ensures
            text@ == "`week_mask` must have at least one business day"@,
    {
        "`week_mask` must have at least one business day"
    }
}

/// The mask marks no weekday as a business day.
pub open spec fn no_business_days(mask: Seq<bool>) -> bool {
    forall|w: int| 0 <= w < 7 ==> !#[trigger] mask[w]
}

/// The two lengths can be combined: they are equal, or one of them is 1.
pub open spec fn lengths_agree(start_len: nat, end_len: nat) -> bool {
    start_len == end_len || start_len == 1 || end_len == 1
}

/// Length of the result: that of the start column when the end column is a
/// scalar, else that of the end column when the start column is a scalar, else
/// the common length.
pub open spec fn broadcast_len(start_len: nat, end_len: nat) -> nat {
    if end_len == 1 {
        start_len
    } else if start_len == 1 {
        end_len
    } else {
        start_len
    }
}

/// The value that `column` contributes at position `i`: its only value when
/// it is a scalar, else its `i`-th.
pub open spec fn operand_at(column: Seq<Option<i32>>, i: int) -> Option<i32> {
    if column.len() == 1 {
        column[0]
    } else {
        column[i]
    }
}

/// The count for one pair of operands: null as soon as one of them is null.
pub open spec fn pair_count(
    start: Option<i32>,
    end: Option<i32>,
    mask: Seq<bool>,
    holidays: Seq<i32>,
) -> Option<int> {
    match (start, end) {
        (Some(a), Some(b)) => Some(signed_working_days(a as int, b as int, mask, holidays)),
        _ => None,
    }
}

/// A result element read as a mathematical integer.
pub open spec fn widened(element: Option<i32>) -> Option<int> {
    match element {
        Some(c) => Some(c as int),
        None => None,
    }
}

/// Two operands are far enough from overflow: one is null, or their distance
/// fits a signed 32-bit integer.
pub open spec fn pair_fits(start: Option<i32>, end: Option<i32>) -> bool {
    match (start, end) {
        (Some(a), Some(b)) => span_fits(a as int, b as int),
        _ => true,
    }
}

/// The pair of operands that the two columns combine at position `i` fits.
pub open spec fn fits_at(start: Seq<Option<i32>>, end: Seq<Option<i32>>, i: int) -> bool {
    pair_fits(operand_at(start, i), operand_at(end, i))
}

/// Every pair of operands that the two columns combine fits.
pub open spec fn spans_fit(start: Seq<Option<i32>>, end: Seq<Option<i32>>) -> bool {
    forall|i: int| 0 <= i < broadcast_len(start.len(), end.len()) ==> #[trigger] fits_at(start, end, i)
}

/// Whether the week mask marks at least one business day.
pub fn has_business_day(week_mask: &[bool; 7]) -> (found: bool)
    ensures
        found == !no_business_days(week_mask@),
{
    let n = count_business_days(week_mask);
    proof {
        if n == 0 {
            assert(no_business_days(week_mask@));
        } else {
            let mask = week_mask@;
            assert(mask[0] || mask[1] || mask[2] || mask[3] || mask[4] || mask[5] || mask[6]);
        }
    }
    n != 0
}

/// Whether the distance from `start` to `end` fits a signed 32-bit integer.
pub fn fits_span(start: i32, end: i32) -> (fits: bool)
    ensures
        fits == span_fits(start as int, end as int),
{
    let distance: i64 = end as i64 - start as i64;
    -2147483648 <= distance && distance <= 2147483647
}

/// Whether two columns can be handed to [`business_day_count`]: their lengths
/// agree and every pair of operands fits.
pub fn operands_fit(start: &[Option<i32>], end: &[Option<i32>]) -> (ok: bool)
    ensures
        ok == (lengths_agree(start@.len(), end@.len()) && spans_fit(start@, end@)),
{
    let start_len = start.len();
    let end_len = end.len();
    if !(start_len == end_len || start_len == 1 || end_len == 1) {
        return false;
    }
    let len: usize = if end_len == 1 { start_len } else if start_len == 1 { end_len } else { start_len };
    let mut i: usize = 0;
    while i < len
        invariant
            0 <= i <= len,
            len == broadcast_len(start@.len(), end@.len()),
            lengths_agree(start@.len(), end@.len()),
            start_len == start@.len(),
            end_len == end@.len(),
            forall|j: int| 0 <= j < i ==> #[trigger] fits_at(start@, end@, j),
        decreases len - i,
    {
        let s = if start_len == 1 { start[0] } else { start[i] };
        let e = if end_len == 1 { end[0] } else { end[i] };
        let fits = match (s, e) {
            (Some(a), Some(b)) => fits_span(a, b),
            _ => true,
        };
        if !fits {
            proof {
                assert(!fits_at(start@, end@, i as int));
            }
            return false;
        }
        i += 1;
    }
    true
}

/// A column of `len` nulls.
fn all_null(len: usize) -> (out: Vec<Option<i32>>)
    ensures
        out.len() == len,
        forall|i: int| 0 <= i < len ==> #[trigger] out[i] is None,
{
    let mut out: Vec<Option<i32>> = Vec::new();
    let mut i: usize = 0;
    while i < len
        invariant
            0 <= i <= len,
            out.len() == i,
            forall|j: int| 0 <= j < i ==> #[trigger] out[j] is None,
        decreases len - i,
    {
        out.push(None);
        i += 1;
    }
    out
}

/// Counts from each start date to one end date; null starts stay null.
fn count_to_end(
    start: &[Option<i32>],
    end_date: i32,
    week_mask: &[bool; 7],
    per_week: i32,
    holidays: &[i32],
) -> (out: Vec<Option<i32>>)
    requires
        per_week == business_days_per_week(week_mask@),
        is_holiday_set(holidays@, week_mask@),
        forall|i: int| 0 <= i < start.len() ==> pair_fits(#[trigger] start[i], Some(end_date)),
    ensures
        out.len() == start.len(),
        forall|i: int|
            0 <= i < start.len() ==> widened(#[trigger] out[i]) == pair_count(
                start[i],
                Some(end_date),
                week_mask@,
                holidays@,
            ),
{
    let mut out: Vec<Option<i32>> = Vec::new();
    let mut i: usize = 0;
    while i < start.len()
        invariant
            0 <= i <= start.len(),
            out.len() == i,
            per_week == business_days_per_week(week_mask@),
            is_holiday_set(holidays@, week_mask@),
            forall|j: int| 0 <= j < start.len() ==> pair_fits(#[trigger] start[j], Some(end_date)),
            forall|j: int|
                0 <= j < i ==> widened(#[trigger] out[j]) == pair_count(
                    start[j],
                    Some(end_date),
                    week_mask@,
                    holidays@,
                ),
        decreases start.len() - i,
    {
        let element = match start[i] {
            Some(start_date) => {
                assert(pair_fits(start[i as int], Some(end_date)));
                Some(business_day_count_impl(start_date, end_date, week_mask, per_week, holidays))
            },
            None => None,
        };
        out.push(element);
        i += 1;
    }
    out
}

/// Counts from one start date to each end date; null ends stay null.
fn count_from_start(
    start_date: i32,
    end: &[Option<i32>],
    week_mask: &[bool; 7],
    per_week: i32,
    holidays: &[i32],
) -> (out: Vec<Option<i32>>)
    requires
        per_week == business_days_per_week(week_mask@),
        is_holiday_set(holidays@, week_mask@),
        forall|i: int| 0 <= i < end.len() ==> pair_fits(Some(start_date), #[trigger] end[i]),
    ensures
        out.len() == end.len(),
        forall|i: int|
            0 <= i < end.len() ==> widened(#[trigger] out[i]) == pair_count(
                Some(start_date),
                end[i],
                week_mask@,
                holidays@,
            ),
{
    let mut out: Vec<Option<i32>> = Vec::new();
    let mut i: usize = 0;
    while i < end.len()
        invariant
            0 <= i <= end.len(),
            out.len() == i,
            per_week == business_days_per_week(week_mask@),
            is_holiday_set(holidays@, week_mask@),
            forall|j: int| 0 <= j < end.len() ==> pair_fits(Some(start_date), #[trigger] end[j]),
            forall|j: int|
                0 <= j < i ==> widened(#[trigger] out[j]) == pair_count(
                    Some(start_date),
                    end[j],
                    week_mask@,
                    holidays@,
                ),
        decreases end.len() - i,
    {
        let element = match end[i] {
            Some(end_date) => {
                assert(pair_fits(Some(start_date), end[i as int]));
                Some(business_day_count_impl(start_date, end_date, week_mask, per_week, holidays))
            },
            None => None,
        };
        out.push(element);
        i += 1;
    }
    out
}

/// Counts position by position over two columns of one length; a null on
/// either side gives a null.
fn count_pairwise(
    start: &[Option<i32>],
    end: &[Option<i32>],
    week_mask: &[bool; 7],
    per_week: i32,
    holidays: &[i32],
) -> (out: Vec<Option<i32>>)
    requires
        start.len() == end.len(),
        per_week == business_days_per_week(week_mask@),
        is_holiday_set(holidays@, week_mask@),
        forall|i: int| 0 <= i < start.len() ==> pair_fits(#[trigger] start[i], end[i]),
    ensures
        out.len() == start.len(),
        forall|i: int|
            0 <= i < start.len() ==> widened(#[trigger] out[i]) == pair_count(
                start[i],
                end[i],
                week_mask@,
                holidays@,
            ),
{
    let mut out: Vec<Option<i32>> = Vec::new();
    let mut i: usize = 0;
    while i < start.len()
        invariant
            0 <= i <= start.len(),
            start.len() == end.len(),
            out.len() == i,
            per_week == business_days_per_week(week_mask@),
            is_holiday_set(holidays@, week_mask@),
            forall|j: int| 0 <= j < start.len() ==> pair_fits(#[trigger] start[j], end[j]),
            forall|j: int|
                0 <= j < i ==> widened(#[trigger] out[j]) == pair_count(
                    start[j],
                    end[j],
                    week_mask@,
                    holidays@,
                ),
        decreases start.len() - i,
    {
        let element = match (start[i], end[i]) {
            (Some(start_date), Some(end_date)) => {
                assert(pair_fits(start[i as int], end[i as int]));
                Some(business_day_count_impl(start_date, end_date, week_mask, per_week, holidays))
            },
            _ => None,
        };
        out.push(element);
        i += 1;
    }
    out
}

/// Counts the working days between the dates of two columns, position by
/// position, `end` excluded. A working day is a business day of `week_mask`
/// that `holidays` does not name; `holidays` may come unsorted, with repeats
/// and with days that are no business days. A column of length one is
/// combined with every position of the other. A mask without a business day
/// is refused; otherwise every position gets its count, or a null where an
/// operand is null.
pub fn business_day_count(
    start: &[Option<i32>],
    end: &[Option<i32>],
    week_mask: [bool; 7],
    holidays: &[i32],
) -> (res: Result<Vec<Option<i32>>, BusinessDayError>)
    requires
        lengths_agree(start@.len(), end@.len()),
        spans_fit(start@, end@),
    ensures
        no_business_days(week_mask@) <==> res is Err,
        res is Err ==> res == Err::<Vec<Option<i32>>, BusinessDayError>(
            BusinessDayError::NoBusinessDays,
        ),
        res matches Ok(out) ==> {
            &&& out@.len() == broadcast_len(start@.len(), end@.len())
            &&& forall|i: int|
                0 <= i < out@.len() ==> widened(#[trigger] out@[i]) == pair_count(
                    operand_at(start@, i),
                    operand_at(end@, i),
                    week_mask@,
                    holidays@,
                )
            &&& forall|i: int|
                0 <= i < out@.len() ==> (#[trigger] out@[i] is None <==> (operand_at(start@, i)
                    is None || operand_at(end@, i) is None))
        },
{
    if !has_business_day(&week_mask) {
        return Err(BusinessDayError::NoBusinessDays);
    }
    let normalised = normalise_holidays(holidays, &week_mask);
    let per_week = count_business_days(&week_mask);
    let out = if end.len() == 1 {
        match end[0] {
            Some(end_date) => {
                assert forall|i: int| 0 <= i < start.len() implies pair_fits(
                    #[trigger] start[i],
                    Some(end_date),
                ) by {
                    assert(fits_at(start@, end@, i));
                }
                count_to_end(start, end_date, &week_mask, per_week, &normalised)
            },
            None => all_null(start.len()),
        }
    } else if start.len() == 1 {
        match start[0] {
            Some(start_date) => {
                assert forall|i: int| 0 <= i < end.len() implies pair_fits(
                    Some(start_date),
                    #[trigger] end[i],
                ) by {
                    assert(fits_at(start@, end@, i));
                }
                count_from_start(start_date, end, &week_mask, per_week, &normalised)
            },
            None => all_null(end.len()),
        }
    } else {
        assert forall|i: int| 0 <= i < start.len() implies pair_fits(#[trigger] start[i], end[i]) by {
            assert(fits_at(start@, end@, i));
        }
        count_pairwise(start, end, &week_mask, per_week, &normalised)
    };
    proof {
        assert forall|i: int| 0 <= i < out@.len() implies widened(#[trigger] out@[i])
            == pair_count(operand_at(start@, i), operand_at(end@, i), week_mask@, holidays@) by {
            let s = operand_at(start@, i);
            let e = operand_at(end@, i);
            if s is Some && e is Some {
                lemma_same_business_holidays(
                    s->0 as int,
                    e->0 as int,
                    week_mask@,
                    normalised@,
                    holidays@,
                );
            }
        }
    }
    Ok(out)
}

} // verus!
