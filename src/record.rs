//! Activity records, raw and merged per day.
use vstd::prelude::*;

verus! {

/// One record as found in the log: a day, the interval in which activity
/// was observed, and the step count. A field that could not be read
/// holds -1.
#[derive(Clone, Copy, Debug, PartialEq, Eq, Structural)]
pub struct ActivityRecord {
    pub date: i32,
    pub interval_start: i32,
    pub interval_end: i32,
    pub count: i32,
}

/// All records of one day merged: the widest interval and the summed count.
#[derive(Clone, Copy, Debug, PartialEq, Eq, Structural)]
pub struct DayRecord {
    pub date: i32,
    pub interval_start: i32,
    pub interval_end: i32,
    pub count: i64,
}

} // verus!
