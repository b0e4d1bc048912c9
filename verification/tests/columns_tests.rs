use business_days::columns::{
    business_day_count, fits_span, has_business_day, operands_fit, BusinessDayError,
};

const MON_TO_FRI: [bool; 7] = [true, true, true, true, true, false, false];
const NO_DAY: [bool; 7] = [false; 7];

// Epoch day 4 is the first Monday.
const MONDAY: i32 = 4;

#[test]
fn column_against_column() {
    let start = [Some(MONDAY), Some(MONDAY), Some(MONDAY + 4)];
    let end = [Some(MONDAY + 7), Some(MONDAY + 4), Some(MONDAY)];
    assert_eq!(
        business_day_count(&start, &end, MON_TO_FRI, &[]),
        Ok(vec![Some(5), Some(4), Some(-4)])
    );
}

#[test]
fn null_on_either_side_gives_null() {
    let start = [Some(MONDAY), None, Some(MONDAY), None];
    let end = [Some(MONDAY + 7), Some(MONDAY + 7), None, None];
    assert_eq!(
        business_day_count(&start, &end, MON_TO_FRI, &[]),
        Ok(vec![Some(5), None, None, None])
    );
}

#[test]
fn scalar_end_is_broadcast() {
    let start = [Some(MONDAY), None, Some(MONDAY + 2), Some(MONDAY + 9)];
    let end = [Some(MONDAY + 7)];
    assert_eq!(
        business_day_count(&start, &end, MON_TO_FRI, &[]),
        Ok(vec![Some(5), None, Some(3), Some(-2)])
    );
}

#[test]
fn scalar_start_is_broadcast() {
    let start = [Some(MONDAY)];
    let end = [Some(MONDAY + 7), None, Some(MONDAY + 2), Some(MONDAY - 3)];
    assert_eq!(
        business_day_count(&start, &end, MON_TO_FRI, &[]),
        Ok(vec![Some(5), None, Some(2), Some(-1)])
    );
}

#[test]
fn null_scalar_end_gives_all_null() {
    let start = [Some(MONDAY), None, Some(MONDAY + 2)];
    assert_eq!(
        business_day_count(&start, &[None], MON_TO_FRI, &[]),
        Ok(vec![None, None, None])
    );
}

#[test]
fn null_scalar_start_gives_all_null() {
    let end = [Some(MONDAY), Some(MONDAY + 2)];
    assert_eq!(
        business_day_count(&[None], &end, MON_TO_FRI, &[]),
        Ok(vec![None, None])
    );
}

#[test]
fn two_scalars_give_one_element() {
    assert_eq!(
        business_day_count(&[Some(MONDAY)], &[Some(MONDAY + 4)], MON_TO_FRI, &[]),
        Ok(vec![Some(4)])
    );
    assert_eq!(
        business_day_count(&[None], &[Some(MONDAY + 4)], MON_TO_FRI, &[]),
        Ok(vec![None])
    );
    assert_eq!(
        business_day_count(&[Some(MONDAY)], &[None], MON_TO_FRI, &[]),
        Ok(vec![None])
    );
}

#[test]
fn empty_columns_give_an_empty_result() {
    assert_eq!(business_day_count(&[], &[], MON_TO_FRI, &[]), Ok(vec![]));
    assert_eq!(
        business_day_count(&[], &[Some(3)], MON_TO_FRI, &[]),
        Ok(vec![])
    );
    assert_eq!(
        business_day_count(&[Some(3)], &[], MON_TO_FRI, &[]),
        Ok(vec![])
    );
}

#[test]
fn raw_holidays_are_normalised_once_for_all_pairs() {
    // Unsorted, repeated, and with a Saturday among them.
    let holidays = [MONDAY + 8, MONDAY + 1, MONDAY + 5, MONDAY + 1];
    let start = [Some(MONDAY), Some(MONDAY), Some(MONDAY + 14)];
    let end = [Some(MONDAY + 7), Some(MONDAY + 14), Some(MONDAY)];
    assert_eq!(
        business_day_count(&start, &end, MON_TO_FRI, &holidays),
        Ok(vec![Some(4), Some(8), Some(-8)])
    );
}

#[test]
fn one_more_holiday_takes_one_off() {
    let start = [Some(MONDAY)];
    let end = [Some(MONDAY + 12)];
    let before = business_day_count(&start, &end, MON_TO_FRI, &[MONDAY + 1]);
    let after = business_day_count(&start, &end, MON_TO_FRI, &[MONDAY + 1, MONDAY + 9]);
    let weekend = business_day_count(&start, &end, MON_TO_FRI, &[MONDAY + 1, MONDAY + 6]);
    assert_eq!(before, Ok(vec![Some(9)]));
    assert_eq!(after, Ok(vec![Some(8)]));
    assert_eq!(weekend, before);
}

#[test]
fn mask_without_business_day_is_refused() {
    let start = [Some(MONDAY)];
    let end = [Some(MONDAY + 7)];
    assert_eq!(
        business_day_count(&start, &end, NO_DAY, &[]),
        Err(BusinessDayError::NoBusinessDays)
    );
    assert_eq!(
        business_day_count(&[], &[], NO_DAY, &[1, 2, 3]),
        Err(BusinessDayError::NoBusinessDays)
    );
    assert_eq!(
        business_day_count(&[None], &[None], NO_DAY, &[]),
        Err(BusinessDayError::NoBusinessDays)
    );
}

#[test]
fn error_message_names_the_mask() {
    assert_eq!(
        BusinessDayError::NoBusinessDays.message(),
        "`week_mask` must have at least one business day"
    );
}

#[test]
fn mask_with_a_single_business_day_is_accepted() {
    // Only Sundays count; day 3 is the first Sunday.
    let sundays = [false, false, false, false, false, false, true];
    assert_eq!(
        business_day_count(&[Some(0)], &[Some(28)], sundays, &[10]),
        Ok(vec![Some(3)])
    );
}

#[test]
fn has_business_day_looks_at_every_weekday() {
    assert!(has_business_day(&MON_TO_FRI));
    assert!(!has_business_day(&NO_DAY));
    for w in 0..7 {
        let mut mask = NO_DAY;
        mask[w] = true;
        assert!(has_business_day(&mask));
    }
}

#[test]
fn fits_span_at_the_limits() {
    assert!(fits_span(0, 0));
    assert!(fits_span(0, i32::MAX));
    assert!(fits_span(i32::MIN, -1));
    assert!(fits_span(i32::MAX, -1));
    assert!(fits_span(0, i32::MIN));
    assert!(!fits_span(-1, i32::MAX));
    assert!(!fits_span(i32::MIN, 0));
    assert!(!fits_span(i32::MAX, -2));
    assert!(!fits_span(i32::MIN, i32::MAX));
    assert!(!fits_span(i32::MAX, i32::MIN));
}

#[test]
fn operands_fit_looks_at_the_lengths() {
    let three = [Some(1), Some(2), Some(3)];
    let two = [Some(1), Some(2)];
    let one = [Some(1)];
    assert!(operands_fit(&three, &three));
    assert!(operands_fit(&three, &one));
    assert!(operands_fit(&one, &two));
    assert!(operands_fit(&[], &[]));
    assert!(operands_fit(&[], &one));
    assert!(!operands_fit(&three, &two));
    assert!(!operands_fit(&two, &[]));
}

#[test]
fn operands_fit_looks_at_every_pair() {
    let start = [Some(0), Some(-1), None];
    assert!(operands_fit(&start, &[Some(5), Some(6), Some(i32::MAX)]));
    assert!(!operands_fit(&start, &[Some(5), Some(i32::MAX), Some(7)]));
    assert!(!operands_fit(&start, &[Some(i32::MAX)]));
    assert!(operands_fit(&start, &[None]));
    assert!(!operands_fit(&[Some(i32::MIN)], &[None, Some(0)]));
    assert!(operands_fit(&[Some(i32::MIN)], &[None, Some(-1)]));
}

#[test]
fn widest_spans_through_columns() {
    let every_day = [true; 7];
    assert_eq!(
        business_day_count(&[Some(0), Some(i32::MAX)], &[Some(i32::MAX), Some(-1)], every_day, &[]),
        Ok(vec![Some(i32::MAX), Some(i32::MIN)])
    );
}
