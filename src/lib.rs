//! A personal activity log: records of hours spent, bucketed by local
//! calendar day and month for a dashboard of streaks, totals and charts.
//!
//! Hours are held as hundredths of an hour, instants as seconds since the
//! Unix epoch and calendar days as day numbers counted from 1970-01-01.

pub mod calendar;
pub mod tally;
pub mod dashboard;
pub mod tracker;
