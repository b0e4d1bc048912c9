//! Business-day arithmetic on epoch-day dates.
//!
//! A date is a whole number of days since 1970-01-01, a week mask says which
//! weekdays are business days, and a holiday list names further days off. The
//! crate counts the working days between two dates in constant time per pair,
//! and does so element-wise over nullable columns with scalar broadcasting.

pub mod calendar;
pub mod holidays;
pub mod count;
pub mod laws;
pub mod columns;
