//! Holiday lists: membership, normalisation and ranked lookup.

use vstd::prelude::*;
use vstd::slice::slice_to_vec;
use crate::calendar::{flag, is_business_day, weekday};

verus! {

/// Whether `day` occurs in `holidays`.
pub open spec fn is_holiday(day: int, holidays: Seq<i32>) -> bool {
    exists|i: int| 0 <= i < holidays.len() && #[trigger] holidays[i] == day
}

/// Ascending order, equal neighbours allowed.
pub open spec fn is_sorted(days: Seq<i32>) -> bool {
    forall|i: int, j: int| 0 <= i < j < days.len() ==> days[i] <= days[j]
}

/// Ascending order without repeats.
pub open spec fn is_strictly_sorted(days: Seq<i32>) -> bool {
    forall|i: int, j: int| 0 <= i < j < days.len() ==> days[i] < days[j]
}

/// A normalised holiday list: strictly ascending, every entry on a business day of `mask`.
pub open spec fn is_holiday_set(holidays: Seq<i32>, mask: Seq<bool>) -> bool {
    &&& is_strictly_sorted(holidays)
    &&& forall|i: int| 0 <= i < holidays.len() ==> is_business_day(#[trigger] holidays[i] as int, mask)
}

/// Number of entries of `holidays` that lie before `day`.
pub open spec fn holidays_before(holidays: Seq<i32>, day: int) -> int
    decreases holidays.len(),
{
    if holidays.len() == 0 {
        0
    } else {
        holidays_before(holidays.drop_last(), day) + flag(holidays.last() < day)
    }
}

/// Appending `x` makes `x` a holiday and changes the status of no other day.
pub proof fn lemma_is_holiday_push(holidays: Seq<i32>, x: i32, day: int)
    ensures
        is_holiday(day, holidays.push(x)) <==> (is_holiday(day, holidays) || day == x),
{
    let longer = holidays.push(x);
    if is_holiday(day, holidays) {
        let i = choose|i: int| 0 <= i < holidays.len() && #[trigger] holidays[i] == day;
        assert(longer[i] == day);
    }
    if day == x {
        assert(longer[holidays.len() as int] == day);
    }
    if is_holiday(day, longer) {
        let i = choose|i: int| 0 <= i < longer.len() && #[trigger] longer[i] == day;
        if i < holidays.len() {
            assert(holidays[i] == day);
        }
    }
}

/// Two lists with the same entries, in whatever order, name the same holidays.
pub proof fn lemma_is_holiday_permutation(a: Seq<i32>, b: Seq<i32>, day: int)
    requires
        a.to_multiset() == b.to_multiset(),
    ensures
        is_holiday(day, a) == is_holiday(day, b),
{
    if is_holiday(day, a) {
        let i = choose|i: int| 0 <= i < a.len() && #[trigger] a[i] == day;
        assert(a.contains(a[i]));
        vstd::seq_lib::to_multiset_contains(a, a[i]);
        vstd::seq_lib::to_multiset_contains(b, a[i]);
        let j = choose|j: int| 0 <= j < b.len() && b[j] == a[i];
        assert(b[j] == day);
    }
    if is_holiday(day, b) {
        let i = choose|i: int| 0 <= i < b.len() && #[trigger] b[i] == day;
        assert(b.contains(b[i]));
        vstd::seq_lib::to_multiset_contains(b, b[i]);
        vstd::seq_lib::to_multiset_contains(a, b[i]);
        let j = choose|j: int| 0 <= j < a.len() && a[j] == b[i];
        assert(a[j] == day);
    }
}

/// An index that splits `holidays` into the entries before `day` and the rest
/// is the number of entries before `day`.
pub proof fn lemma_split_index_is_rank(holidays: Seq<i32>, day: int, idx: int)
    requires
        0 <= idx <= holidays.len(),
        forall|i: int| 0 <= i < idx ==> #[trigger] holidays[i] < day,
        forall|i: int| idx <= i < holidays.len() ==> #[trigger] holidays[i] >= day,
    ensures
        holidays_before(holidays, day) == idx,
    decreases holidays.len(),
{
    if holidays.len() > 0 {
        let shorter = holidays.drop_last();
        if idx == holidays.len() {
            assert(holidays[idx - 1] < day);
            lemma_split_index_is_rank(shorter, day, idx - 1);
        } else {
            assert(holidays[holidays.len() - 1] >= day);
            lemma_split_index_is_rank(shorter, day, idx);
        }
    }
}

/// In a list without repeats, moving the bound one day on counts that day if
/// and only if it is a holiday.
pub proof fn lemma_rank_step(holidays: Seq<i32>, day: int)
    requires
        is_strictly_sorted(holidays),
    ensures
        holidays_before(holidays, day + 1) == holidays_before(holidays, day) + flag(
            is_holiday(day, holidays),
        ),
    decreases holidays.len(),
{
    if holidays.len() > 0 {
        let shorter = holidays.drop_last();
        let last = holidays.last();
        assert(is_strictly_sorted(shorter));
        lemma_rank_step(shorter, day);
        assert(holidays =~= shorter.push(last));
        lemma_is_holiday_push(shorter, last, day);
        if is_holiday(day, shorter) {
            let i = choose|i: int| 0 <= i < shorter.len() && #[trigger] shorter[i] == day;
            assert(holidays[i] < holidays[holidays.len() - 1]);
        }
    } else {
        assert(!is_holiday(day, holidays));
    }
}

/// `<[i32]>::sort_unstable`: afterwards the vector holds the entries it held
/// before, each as often as before, in ascending order.
#[verifier::external_body]
fn sort_days(days: &mut Vec<i32>)
    ensures
        is_sorted(final(days)@),
        final(days)@.to_multiset() == old(days)@.to_multiset(),
{
    days.sort_unstable();
}

/// Sorts `holidays`, drops repeats and drops every day that `week_mask` does
/// not mark as a business day.
pub fn normalise_holidays(holidays: &[i32], week_mask: &[bool; 7]) -> (out: Vec<i32>)
    ensures
        is_holiday_set(out@, week_mask@),
        forall|day: int|
            is_holiday(day, out@) <==> (is_holiday(day, holidays@) && is_business_day(
                day,
                week_mask@,
            )),
{
    let mut sorted: Vec<i32> = slice_to_vec(holidays);
    sort_days(&mut sorted);
    let mut out: Vec<i32> = Vec::new();
    let mut i: usize = 0;
    while i < sorted.len()
        invariant
            0 <= i <= sorted.len(),
            is_sorted(sorted@),
            is_holiday_set(out@, week_mask@),
            forall|j: int|
                0 <= j < out.len() ==> exists|k: int| 0 <= k < i && sorted[k] == #[trigger] out[j],
            forall|k: int|
                0 <= k < i && is_business_day(#[trigger] sorted[k] as int, week_mask@)
                    ==> is_holiday(sorted[k] as int, out@),
        decreases sorted.len() - i,
    {
        let x = sorted[i];
        let repeated = out.len() > 0 && out[out.len() - 1] == x;
        if !repeated && week_mask[weekday(x)] {
            proof {
                let kept = out@;
                let grown = kept.push(x);
                assert forall|a: int, b: int| 0 <= a < b < grown.len() implies grown[a] < grown[b] by {
                    if b == kept.len() {
                        let k = choose|k: int| 0 <= k < i && sorted[k] == kept[kept.len() - 1];
                        assert(sorted[k] <= sorted[i as int]);
                        assert(kept[a] <= kept[kept.len() - 1]);
                    }
                }
                assert forall|k: int|
                    0 <= k < i + 1 && is_business_day(
                        #[trigger] sorted[k] as int,
                        week_mask@,
                    ) implies is_holiday(sorted[k] as int, grown) by {
                    lemma_is_holiday_push(kept, x, sorted[k] as int);
                }
            }
            out.push(x);
        } else {
            proof {
                if repeated {
                    assert(out@[out.len() - 1] == x);
                }
            }
        }
        i += 1;
    }
    proof {
        assert forall|day: int|
            is_holiday(day, out@) <==> (is_holiday(day, holidays@) && is_business_day(
                day,
                week_mask@,
            )) by {
            lemma_is_holiday_permutation(sorted@, holidays@, day);
            if is_holiday(day, out@) {
                let j = choose|j: int| 0 <= j < out.len() && #[trigger] out[j] == day;
                let k = choose|k: int| 0 <= k < i && sorted[k] == out[j];
                assert(sorted@[k] == day);
            }
            if is_holiday(day, sorted@) && is_business_day(day, week_mask@) {
                let k = choose|k: int| 0 <= k < sorted.len() && #[trigger] sorted[k] == day;
                assert(is_business_day(sorted[k] as int, week_mask@));
            }
        }
    }
    out
}

/// Least index `idx >= from` with `days[idx] >= target`, or `days.len()` when
/// there is none, found by bisection.
pub fn lower_bound(days: &[i32], from: usize, target: i64) -> (idx: usize)
    requires
        is_sorted(days@),
        from <= days.len(),
        forall|i: int| 0 <= i < from ==> #[trigger] days[i] < target,
    ensures
        from <= idx <= days.len(),
        forall|i: int| 0 <= i < idx ==> #[trigger] days[i] < target,
        forall|i: int| idx <= i < days.len() ==> #[trigger] days[i] >= target,
        idx == holidays_before(days@, target as int),
{
    let mut lo: usize = from;
    let mut hi: usize = days.len();
    while lo < hi
        invariant
            from <= lo <= hi <= days.len(),
            is_sorted(days@),
            forall|i: int| 0 <= i < lo ==> #[trigger] days[i] < target,
            forall|i: int| hi <= i < days.len() ==> #[trigger] days[i] >= target,
        decreases hi - lo,
    {
        let mid: usize = lo + (hi - lo) / 2;
        if (days[mid] as i64) < target {
            lo = mid + 1;
        } else {
            hi = mid;
        }
    }
    proof {
        lemma_split_index_is_rank(days@, target as int, lo as int);
    }
    lo
}

} // verus!
