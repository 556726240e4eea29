//! The whole analysis: from log text to report text.
use vstd::prelude::*;
use vstd::string::StringSliceAdditionalSpecFns;
use crate::aggregate::{has_day, is_day_summary, sort_by_days};
use crate::extract::{collect_records, scan_from};
use crate::record::{ActivityRecord, DayRecord};
use crate::report::{render_report, report_text, summary_text};

verus! {

/// The report for a whole log text: its distinct records, merged per day
/// and rendered, dates in the local time zone. `None` only where the text
/// holds more than `u32::MAX` distinct records, too many to merge.
pub fn analyze(text: &str) -> (r: Option<String>)
    ensures
        r is None <==> scan_from(Seq::empty(), text.spec_bytes(), 0).len() > u32::MAX,
        r matches Some(s) ==> exists|days: Seq<DayRecord>, offsets: Seq<i32>|
            is_day_summary(scan_from(Seq::empty(), text.spec_bytes(), 0), days)
                && offsets.len() == days.len() && (forall|i: int|
                0 <= i < offsets.len() ==> -86400 < #[trigger] offsets[i] < 86400) && s@
                == report_text(days, offsets),
{
    let recs = collect_records(text);
    if recs.len() > 4294967295 {
        return None;
    }
    let days = sort_by_days(&recs);
    let out = render_report(&days);
    Some(out)
}

/// With no records there are no days, and the report is the notice that
/// no data was found; nothing is divided.
pub proof fn lemma_no_records(days: Seq<DayRecord>, offsets: Seq<i32>)
    requires
        is_day_summary(Seq::<ActivityRecord>::empty(), days),
    ensures
        days.len() == 0,
        report_text(days, offsets) == "Keine Schrittdaten gefunden"@,
{
    if days.len() > 0 {
        let d = days[0].date;
        assert(!has_day(Seq::<ActivityRecord>::empty(), d));
    }
    assert(report_text(days, offsets) =~= summary_text(0, 0));
}

} // verus!
