//! A day-indexed ledger of elapsed seconds, keyed by dates in the fixed
//! ten-month, twenty-four-day Huskitopian calendar.
//!
//! The crate is organised bottom up: `hashday` holds the two-limb linear day
//! counter and its wrap-around arithmetic, `calendar` the civil-date codec,
//! `text` the human-readable date-string form, and `ledger` the day-to-seconds
//! store with its merge-import and bounded range query.

pub mod calendar;
pub mod text;
pub mod hashday;
pub mod ledger;
