use stepfit::{
    analyze, check_for_duplicates, clock_of, collect_records, day_line, find_from,
    parse_clock, parse_data_line, parse_field, render_report, render_report_with, scan_line,
    signed_decimal, sort_by_days, summary_line, weekday_name_of, ActivityRecord, DayRecord,
};

const MAY_FIRST: i32 = 1682899200; // 2023-05-01 00:00 UTC

fn rec(date: i32, interval_start: i32, interval_end: i32, count: i32) -> ActivityRecord {
    ActivityRecord { date, interval_start, interval_end, count }
}

fn fragment(date: i32, start: i32, end: i32, steps: &str) -> String {
    format!(
        "{{\"date\":{},\"startTime\":{},\"endTime\":{},\"steps\":{}}}",
        date, start, end, steps
    )
}

fn log_line(fragments: &[String]) -> String {
    format!("2023-05-02 sync ok \"items\":[{}]}}", fragments.join(","))
}

#[test]
fn find_from_first_occurrence() {
    let hay = b"ab\"date\":xx\"date\":";
    assert_eq!(find_from(hay, 0, b"\"date\":"), Some(2));
    assert_eq!(find_from(hay, 3, b"\"date\":"), Some(11));
    assert_eq!(find_from(hay, 12, b"\"date\":"), None);
    assert_eq!(find_from(hay, 100, b"x"), None);
}

#[test]
fn parse_field_values() {
    assert_eq!(parse_field(b"1682899200", 0, 10), 1682899200);
    assert_eq!(parse_field(b"x-42y", 1, 4), -42);
    assert_eq!(parse_field(b"+7", 0, 2), 7);
    assert_eq!(parse_field(b"2147483647", 0, 10), 2147483647);
    assert_eq!(parse_field(b"-2147483648", 0, 11), -2147483648);
}

#[test]
fn parse_field_malformed_is_sentinel() {
    assert_eq!(parse_field(b"12a4", 0, 4), -1);
    assert_eq!(parse_field(b"", 0, 0), -1);
    assert_eq!(parse_field(b"-", 0, 1), -1);
    assert_eq!(parse_field(b"2147483648", 0, 10), -1);
    assert_eq!(parse_field(b"99999999999999999999", 0, 20), -1);
}

#[test]
fn extracts_distinct_records() {
    let line = log_line(&[
        fragment(MAY_FIRST, 1682928000, 1682929800, "1500"),
        fragment(MAY_FIRST, 1682960400, 1682961300, "2300"),
        fragment(MAY_FIRST + 86400, 1683014400, 1683015000, "7"),
    ]);
    let mut recs = Vec::new();
    parse_data_line(line.as_bytes(), &mut recs);
    assert_eq!(
        recs,
        vec![
            rec(MAY_FIRST, 1682928000, 1682929800, 1500),
            rec(MAY_FIRST, 1682960400, 1682961300, 2300),
            rec(MAY_FIRST + 86400, 1683014400, 1683015000, 7),
        ]
    );
}

#[test]
fn exact_repeats_are_dropped() {
    let a = fragment(MAY_FIRST, 1682928000, 1682929800, "1500");
    let b = fragment(MAY_FIRST, 1682928000, 1682929800, "1501");
    let line = log_line(&[a.clone(), b.clone(), a.clone(), b]);
    let mut recs = Vec::new();
    parse_data_line(line.as_bytes(), &mut recs);
    assert_eq!(recs.len(), 2);
    assert_eq!(recs[1].count, 1501);
    // a repeat in a later call is dropped too
    parse_data_line(log_line(&[a]).as_bytes(), &mut recs);
    assert_eq!(recs.len(), 2);
}

#[test]
fn malformed_field_gives_sentinel_record() {
    let line = log_line(&[
        fragment(MAY_FIRST, 1682928000, 1682929800, "lots"),
        fragment(MAY_FIRST, 1682928000, 1682929800, "lots"),
        fragment(MAY_FIRST, 1682960400, 1682961300, "10"),
    ]);
    let mut recs = Vec::new();
    parse_data_line(line.as_bytes(), &mut recs);
    assert_eq!(recs, vec![rec(MAY_FIRST, 1682928000, 1682929800, -1), rec(MAY_FIRST, 1682960400, 1682961300, 10)]);
    let days = sort_by_days(&recs);
    assert_eq!(days, vec![DayRecord { date: MAY_FIRST, interval_start: 1682928000, interval_end: 1682961300, count: 9 }]);
}

#[test]
fn short_date_window_gives_sentinel() {
    let mut recs = Vec::new();
    parse_data_line(b"\"date\":12ab567890,\"startTime\":1,\"steps\":5}", &mut recs);
    assert_eq!(recs, vec![rec(-1, -1, -1, 5)]);
}

#[test]
fn check_for_duplicates_flags() {
    let recs = vec![rec(1, 2, 3, 4)];
    assert_eq!(check_for_duplicates(1, 2, 3, 4, &recs), 0);
    assert_eq!(check_for_duplicates(1, 2, 3, 5, &recs), 1);
    assert_eq!(check_for_duplicates(1, 2, 3, 4, &Vec::new()), 1);
}

#[test]
fn scan_line_needs_items_marker() {
    let mut recs = Vec::new();
    scan_line(fragment(MAY_FIRST, 1, 2, "3").as_bytes(), &mut recs);
    assert!(recs.is_empty());
    scan_line(log_line(&[fragment(MAY_FIRST, 1682928000, 1682929800, "3")]).as_bytes(), &mut recs);
    assert_eq!(recs, vec![rec(MAY_FIRST, 1682928000, 1682929800, 3)]);
}

#[test]
fn collect_records_over_lines() {
    let text = format!(
        "header\n{}\nnoise\n{}\n",
        log_line(&[fragment(MAY_FIRST, 1682928000, 1682929800, "1")]),
        log_line(&[
            fragment(MAY_FIRST, 1682928000, 1682929800, "1"),
            fragment(MAY_FIRST, 1682960400, 1682961300, "2"),
        ])
    );
    let recs = collect_records(&text);
    assert_eq!(recs, vec![rec(MAY_FIRST, 1682928000, 1682929800, 1), rec(MAY_FIRST, 1682960400, 1682961300, 2)]);
    assert!(collect_records("").is_empty());
}

#[test]
fn same_day_merges_widest_interval() {
    let days = sort_by_days(&vec![rec(MAY_FIRST, 100, 200, 10), rec(MAY_FIRST, 50, 150, 5)]);
    assert_eq!(days, vec![DayRecord { date: MAY_FIRST, interval_start: 50, interval_end: 200, count: 15 }]);
}

#[test]
fn aggregated_days_are_sorted() {
    let days = sort_by_days(&vec![
        rec(300, 1, 2, 1),
        rec(100, 1, 2, 1),
        rec(200, 1, 2, 1),
        rec(100, 0, 3, 1),
    ]);
    let dates: Vec<i32> = days.iter().map(|d| d.date).collect();
    assert_eq!(dates, vec![100, 200, 300]);
    assert_eq!(days[0].count, 2);
}

#[test]
fn aggregation_ignores_input_order() {
    let a = vec![rec(5, 10, 20, 1), rec(3, 1, 2, 2), rec(5, 0, 9, 4), rec(-1, -1, -1, -1)];
    let b = vec![rec(-1, -1, -1, -1), rec(5, 0, 9, 4), rec(5, 10, 20, 1), rec(3, 1, 2, 2)];
    assert_eq!(sort_by_days(&a), sort_by_days(&b));
}

#[test]
fn counts_sum_beyond_i32() {
    let days = sort_by_days(&vec![rec(1, 0, 0, i32::MAX), rec(1, 0, 0, i32::MAX)]);
    assert_eq!(days[0].count, 2 * i32::MAX as i64);
}

#[test]
fn no_records_no_days() {
    let days = sort_by_days(&Vec::new());
    assert!(days.is_empty());
    assert_eq!(render_report(&days), "Keine Schrittdaten gefunden");
    assert_eq!(summary_line(0, 0), "Keine Schrittdaten gefunden");
    assert_eq!(analyze("nothing here\n").unwrap(), "Keine Schrittdaten gefunden");
}

#[test]
fn clock_round_trip() {
    let t = 1682961300 + 59; // 17:15:59 UTC
    let text = clock_of(t);
    assert_eq!(text, "17:15");
    assert_eq!(parse_clock(&text), Some((17, 15)));
    assert_eq!(clock_of(-1), "23:59");
    assert_eq!(parse_clock(&clock_of(0)), Some((0, 0)));
    assert_eq!(parse_clock("7:15"), None);
    assert_eq!(parse_clock("07-15"), None);
}

#[test]
fn decimal_text() {
    assert_eq!(signed_decimal(0), "0");
    assert_eq!(signed_decimal(3800), "3800");
    assert_eq!(signed_decimal(-1), "-1");
    assert_eq!(signed_decimal(i128::MIN), i128::MIN.to_string());
}

#[test]
fn weekday_names() {
    assert_eq!(weekday_name_of(0), "Montag");
    assert_eq!(weekday_name_of(3), "Donnerstag");
    assert_eq!(weekday_name_of(6), "Sonntag");
}

#[test]
fn line_layout() {
    assert_eq!(
        day_line(0, "01-05-2023", "08:00", "17:15", 3800),
        "Du bist am Montag     den 01-05-2023 zwischen 08:00 Uhr und 17:15 Uhr  3800 Schritte gegangen"
    );
    assert_eq!(
        day_line(3, "d", "s", "e", 123456),
        "Du bist am Donnerstag den d zwischen s Uhr und e Uhr 123456 Schritte gegangen"
    );
}

#[test]
fn summary_average_rounds_down() {
    assert_eq!(summary_line(10, 3), "Das sind 10 Schritte in 3 Tagen, also im Schnitt 3 Schritte pro Tag");
    assert_eq!(summary_line(-1, 2), "Das sind -1 Schritte in 2 Tagen, also im Schnitt -1 Schritte pro Tag");
}

#[test]
fn two_fragments_same_day_end_to_end() {
    let text = format!(
        "started\n{}\ndone\n",
        log_line(&[
            fragment(MAY_FIRST, 1682928000, 1682929800, "1500"),
            fragment(MAY_FIRST, 1682960400, 1682961300, "2300"),
        ])
    );
    let days = sort_by_days(&collect_records(&text));
    assert_eq!(days.len(), 1);
    let report = render_report_with(&days, &vec![0]);
    assert_eq!(
        report,
        "Du bist am Montag     den 01-05-2023 zwischen 08:00 Uhr und 17:15 Uhr  3800 Schritte gegangen\n\
         Das sind 3800 Schritte in 1 Tagen, also im Schnitt 3800 Schritte pro Tag"
    );
    let local = analyze(&text).unwrap();
    assert!(local.contains("zwischen 08:00 Uhr und 17:15 Uhr  3800 Schritte"));
    assert!(local.ends_with("Das sind 3800 Schritte in 1 Tagen, also im Schnitt 3800 Schritte pro Tag"));
}

#[test]
fn local_offset_shifts_date_only() {
    let days = vec![DayRecord { date: MAY_FIRST, interval_start: 1682928000, interval_end: 1682929800, count: 1 }];
    let report = render_report_with(&days, &vec![-3600]);
    assert!(report.starts_with("Du bist am Montag     den 30-04-2023 zwischen 08:00 Uhr und 08:30 Uhr"));
}
