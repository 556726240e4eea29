//! Turns an activity-tracking log into a per-day step report.
//!
//! The log is free text with embedded, JSON-like record fragments. The
//! library finds the fragments, extracts their fields, removes exact
//! repeats, merges the records of each day and renders a report.
pub mod aggregate;
pub mod extract;
pub mod pipeline;
pub mod record;
pub mod report;
pub mod text;

pub use aggregate::sort_by_days;
pub use extract::{check_for_duplicates, collect_records, parse_data_line, scan_line};
pub use pipeline::analyze;
pub use record::{ActivityRecord, DayRecord};
pub use report::{
    clock_of, day_line, render_report, render_report_with, signed_decimal, summary_line,
    parse_clock, weekday_name_of,
};
pub use text::{find_from, parse_field};
