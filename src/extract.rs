//! Finding record fragments in log text, reading their fields, and
//! collecting them without exact repeats.
use vstd::prelude::*;
use crate::record::ActivityRecord;
use vstd::string::StringSliceAdditionalSpecFns;
use crate::text::{field_value, find_from, first_from, occurs_at, parse_field};

verus! {

/// `"items":[`, which opens the block of records on a log line.
pub open spec fn items_marker() -> Seq<u8> {
    seq![34u8, 105, 116, 101, 109, 115, 34, 58, 91]
}

/// `"date":`
pub open spec fn date_marker() -> Seq<u8> {
    seq![34u8, 100, 97, 116, 101, 34, 58]
}

/// `"startTime":`
pub open spec fn start_marker() -> Seq<u8> {
    seq![34u8, 115, 116, 97, 114, 116, 84, 105, 109, 101, 34, 58]
}

/// `"endTime":`
pub open spec fn end_marker() -> Seq<u8> {
    seq![34u8, 101, 110, 100, 84, 105, 109, 101, 34, 58]
}

/// `"steps":`
pub open spec fn steps_marker() -> Seq<u8> {
    seq![34u8, 115, 116, 101, 112, 115, 34, 58]
}

/// `}`, which closes a record.
pub open spec fn close_byte() -> Seq<u8> {
    seq![125u8]
}

/// Width of the date, start and end values: ten decimal digits.
pub const STAMP_WIDTH: usize = 10;

/// The field that the `STAMP_WIDTH` bytes following a marker found at `p`
/// (of length `skip`) spell; -1 where there is no marker or the window runs
/// past the end of the text.
pub open spec fn stamp_after(t: Seq<u8>, p: Option<int>, skip: int) -> i32 {
    match p {
        Some(q) => if q + skip + 10 <= t.len() {
            field_value(t.subrange(q + skip, q + skip + 10))
        } else {
            -1i32
        },
        None => -1i32,
    }
}

/// The count of the record whose `"steps":` marker is at `q`: the bytes
/// from after the marker up to the next `}`; -1 where there is none.
pub open spec fn count_after(t: Seq<u8>, q: Option<int>) -> i32 {
    match q {
        Some(q) => match first_from(t, q + 1, close_byte()) {
            Some(c) => if q + 8 <= c {
                field_value(t.subrange(q + 8, c))
            } else {
                -1i32
            },
            None => -1i32,
        },
        None => -1i32,
    }
}

/// The record whose `"date":` marker stands at `p`. The other markers
/// are looked for from `p` on.
pub open spec fn record_at(t: Seq<u8>, p: int) -> ActivityRecord {
    ActivityRecord {
        date: stamp_after(t, Some(p), 7),
        interval_start: stamp_after(t, first_from(t, p, start_marker()), 12),
        interval_end: stamp_after(t, first_from(t, p, end_marker()), 10),
        count: count_after(t, first_from(t, p, steps_marker())),
    }
}

/// Where the search for the next record resumes after the record at `p`:
/// just past the start of its `"steps":` marker, or past `p` without one.
pub open spec fn resume_after(t: Seq<u8>, p: int) -> int {
    match first_from(t, p, steps_marker()) {
        Some(q) => q + 1,
        None => p + 1,
    }
}

pub proof fn lemma_first_from_bounds(t: Seq<u8>, from: int, n: Seq<u8>)
    ensures
        first_from(t, from, n) matches Some(p) ==> from <= p && p + n.len() <= t.len()
            && occurs_at(t, p, n),
    decreases t.len() + 1 - from,
{
    if !(from < 0 || from + n.len() > t.len()) && !occurs_at(t, from, n) {
        lemma_first_from_bounds(t, from + 1, n);
    }
}

/// Every record of `t` from `cursor` on, in order of appearance, repeats
/// included. (The search always moves forward: the guard on `next` only
/// spells that out.)
pub open spec fn raw_records(t: Seq<u8>, cursor: int) -> Seq<ActivityRecord>
    decreases t.len() + 1 - cursor,
{
    match first_from(t, cursor, date_marker()) {
        Some(p) => {
            let next = resume_after(t, p);
            if cursor < next <= t.len() + 1 {
                seq![record_at(t, p)] + raw_records(t, next)
            } else {
                Seq::empty()
            }
        },
        None => Seq::empty(),
    }
}

/// `acc` with `r` added at the end, unless `acc` already holds it.
pub open spec fn add_unique(acc: Seq<ActivityRecord>, r: ActivityRecord) -> Seq<ActivityRecord> {
    if acc.contains(r) {
        acc
    } else {
        acc.push(r)
    }
}

/// `acc` with the records of `rs` added in order, each unless it is
/// already there.
pub open spec fn dedup_into(acc: Seq<ActivityRecord>, rs: Seq<ActivityRecord>) -> Seq<
    ActivityRecord,
>
    decreases rs.len(),
{
    if rs.len() == 0 {
        acc
    } else {
        dedup_into(add_unique(acc, rs[0]), rs.drop_first())
    }
}

fn marker(which: u8) -> (r: Vec<u8>)
    ensures
        which == 0 ==> r@ == items_marker(),
        which == 1 ==> r@ == date_marker(),
        which == 2 ==> r@ == start_marker(),
        which == 3 ==> r@ == end_marker(),
        which == 4 ==> r@ == steps_marker(),
        which > 4 ==> r@ == close_byte(),
{
    let r = if which == 0 {
        vec![34u8, 105, 116, 101, 109, 115, 34, 58, 91]
    } else if which == 1 {
        vec![34u8, 100, 97, 116, 101, 34, 58]
    } else if which == 2 {
        vec![34u8, 115, 116, 97, 114, 116, 84, 105, 109, 101, 34, 58]
    } else if which == 3 {
        vec![34u8, 101, 110, 100, 84, 105, 109, 101, 34, 58]
    } else if which == 4 {
        vec![34u8, 115, 116, 101, 112, 115, 34, 58]
    } else {
        vec![125u8]
    };
    assert(r@ =~= items_marker() || which != 0);
    assert(r@ =~= date_marker() || which != 1);
    assert(r@ =~= start_marker() || which != 2);
    assert(r@ =~= end_marker() || which != 3);
    assert(r@ =~= steps_marker() || which != 4);
    assert(r@ =~= close_byte() || which <= 4);
    r
}

fn stamp_field(t: &[u8], p: Option<usize>, skip: usize) -> (r: i32)
    requires
        skip <= 12,
        p matches Some(q) ==> q <= t@.len(),
    ensures
        r == stamp_after(
            t@,
            match p {
                Some(q) => Some(q as int),
                None => None,
            },
            skip as int,
        ),
{
    match p {
        Some(q) => {
            if skip + STAMP_WIDTH <= t.len() - q {
                parse_field(t, q + skip, q + skip + STAMP_WIDTH)
            } else {
                -1
            }
        },
        None => -1,
    }
}

/// Reads the record whose `"date":` marker stands at `p`, and where the
/// search for the next one resumes.
fn read_record(t: &[u8], p: usize) -> (r: (ActivityRecord, usize))
    requires
        occurs_at(t@, p as int, date_marker()),
    ensures
        r.0 == record_at(t@, p as int),
        r.1 == resume_after(t@, p as int),
{
    let n: usize = t.len();
    let start_m = marker(2);
    let end_m = marker(3);
    let steps_m = marker(4);
    let close_m = marker(5);
    let date = stamp_field(t, Some(p), 7);
    let ps = find_from(t, p, start_m.as_slice());
    let pe = find_from(t, p, end_m.as_slice());
    let pc = find_from(t, p, steps_m.as_slice());
    proof {
        lemma_first_from_bounds(t@, p as int, start_marker());
        lemma_first_from_bounds(t@, p as int, end_marker());
        lemma_first_from_bounds(t@, p as int, steps_marker());
    }
    let interval_start = stamp_field(t, ps, 12);
    let interval_end = stamp_field(t, pe, 10);
    let (count, resume) = match pc {
        Some(q) => {
            let c = find_from(t, q + 1, close_m.as_slice());
            proof {
                lemma_first_from_bounds(t@, q + 1, close_byte());
            }
            let count = match c {
                Some(c) => if q + 8 <= c {
                    parse_field(t, q + 8, c)
                } else {
                    -1
                },
                None => -1,
            };
            (count, q + 1)
        },
        None => (-1, p + 1),
    };
    (ActivityRecord { date, interval_start, interval_end, count }, resume)
}

/// 1 where `recs` holds no record equal to the one given field by field,
/// 0 where it does.
pub fn check_for_duplicates(
    date: i32,
    interval_start: i32,
    interval_end: i32,
    count: i32,
    recs: &Vec<ActivityRecord>,
) -> (r: i32)
    ensures
        r == 0 <==> recs@.contains(ActivityRecord { date, interval_start, interval_end, count }),
        r == 0 || r == 1,
{
    let ghost wanted = ActivityRecord { date, interval_start, interval_end, count };
    let mut i: usize = 0;
    while i < recs.len()
        invariant
            i <= recs@.len(),
            wanted == (ActivityRecord { date, interval_start, interval_end, count }),
            forall|k: int| 0 <= k < i ==> recs@[k] != wanted,
        decreases recs@.len() - i,
    {
        let x: ActivityRecord = recs[i];
        assert(x == recs@[i as int]);
        if x.date == date && x.interval_start == interval_start && x.interval_end == interval_end
            && x.count == count {
            assert(recs@[i as int] == wanted);
            return 0;
        }
        i = i + 1;
    }
    1
}

/// Extracts every record of `t` and appends to `recs` each one that it does
/// not hold yet.
pub fn parse_data_line(t: &[u8], recs: &mut Vec<ActivityRecord>)
    ensures
        final(recs)@ == dedup_into(old(recs)@, raw_records(t@, 0)),
{
    let date_m = marker(1);
    let mut cursor: usize = 0;
    while cursor <= t.len()
        invariant
            date_m@ == date_marker(),
            dedup_into(recs@, raw_records(t@, cursor as int)) == dedup_into(
                old(recs)@,
                raw_records(t@, 0),
            ),
        decreases t@.len() + 1 - cursor,
    {
        let next = find_from(t, cursor, date_m.as_slice());
        proof {
            lemma_first_from_bounds(t@, cursor as int, date_marker());
        }
        match next {
            None => {
                assert(raw_records(t@, cursor as int) =~= Seq::<ActivityRecord>::empty());
                return;
            },
            Some(p) => {
                let (rec, resume) = read_record(t, p);
                proof {
                    lemma_first_from_bounds(t@, p as int, steps_marker());
                    let rest = raw_records(t@, resume as int);
                    assert((seq![rec] + rest).drop_first() =~= rest);
                }
                if check_for_duplicates(
                    rec.date,
                    rec.interval_start,
                    rec.interval_end,
                    rec.count,
                    recs,
                ) == 1 {
                    recs.push(rec);
                }
                cursor = resume;
            },
        }
    }
    assert(raw_records(t@, cursor as int) =~= Seq::<ActivityRecord>::empty());
}

/// What one log line adds to `acc`: nothing where it holds no `"items":[`
/// marker; else the records from the marker on, each unless already held.
pub open spec fn scan_step(acc: Seq<ActivityRecord>, line: Seq<u8>) -> Seq<ActivityRecord> {
    match first_from(line, 0, items_marker()) {
        Some(p) => dedup_into(acc, raw_records(line.subrange(p, line.len() as int), 0)),
        None => acc,
    }
}

/// `acc` after scanning, one by one, the newline-separated lines of `b`
/// from byte `start` on.
pub open spec fn scan_from(acc: Seq<ActivityRecord>, b: Seq<u8>, start: int) -> Seq<
    ActivityRecord,
>
    decreases b.len() - start,
{
    if start < 0 || start > b.len() {
        acc
    } else {
        match first_from(b, start, seq![10u8]) {
            Some(k) => if start <= k < b.len() {
                scan_from(scan_step(acc, b.subrange(start, k)), b, k + 1)
            } else {
                acc
            },
            None => scan_step(acc, b.subrange(start, b.len() as int)),
        }
    }
}

/// Scans one log line: where it holds the `"items":[` marker, the records
/// from the marker on are extracted and each added to `recs` unless it is
/// already there. Other lines leave `recs` as it was.
pub fn scan_line(line: &[u8], recs: &mut Vec<ActivityRecord>)
    ensures
        final(recs)@ == scan_step(old(recs)@, line@),
{
    let items_m = marker(0);
    let found = find_from(line, 0, items_m.as_slice());
    proof {
        lemma_first_from_bounds(line@, 0, items_marker());
    }
    if let Some(p) = found {
        let rest = &line[p..line.len()];
        parse_data_line(rest, recs);
    }
}

/// All distinct records of a whole log text, in order of first appearance.
pub fn collect_records(text: &str) -> (r: Vec<ActivityRecord>)
    ensures
        r@ == scan_from(Seq::empty(), text.spec_bytes(), 0),
{
    let b = text.as_bytes();
    let n: usize = b.len();
    let newline: Vec<u8> = vec![10u8];
    let mut recs: Vec<ActivityRecord> = Vec::new();
    let mut start: usize = 0;
    loop
        invariant
            start <= b@.len(),
            n == b@.len(),
            b@ == text.spec_bytes(),
            newline@ == seq![10u8],
            scan_from(recs@, b@, start as int) == scan_from(Seq::empty(), b@, 0),
        decreases b@.len() - start,
    {
        let k = find_from(b, start, newline.as_slice());
        proof {
            lemma_first_from_bounds(b@, start as int, seq![10u8]);
        }
        match k {
            Some(k) => {
                scan_line(&b[start..k], &mut recs);
                start = k + 1;
            },
            None => {
                let ghost before = recs@;
                assert(scan_from(before, b@, start as int) == scan_step(
                    before,
                    b@.subrange(start as int, b@.len() as int),
                ));
                let line = &b[start..n];
                assert(line@ == b@.subrange(start as int, n as int));
                scan_line(line, &mut recs);
                return recs;
            },
        }
    }
}

/// No record occurs twice in `s`.
pub open spec fn all_distinct(s: Seq<ActivityRecord>) -> bool {
    forall|i: int, j: int| 0 <= i < j < s.len() ==> s[i] != s[j]
}

proof fn lemma_dedup_len(acc: Seq<ActivityRecord>, rs: Seq<ActivityRecord>)
    ensures
        dedup_into(acc, rs).len() <= acc.len() + rs.len(),
    decreases rs.len(),
{
    if rs.len() > 0 {
        lemma_dedup_len(add_unique(acc, rs[0]), rs.drop_first());
    }
}

proof fn lemma_dedup_held(acc: Seq<ActivityRecord>, rs: Seq<ActivityRecord>, x: ActivityRecord)
    requires
        acc.contains(x),
        rs.contains(x),
    ensures
        dedup_into(acc, rs).len() < acc.len() + rs.len(),
    decreases rs.len(),
{
    let next = add_unique(acc, rs[0]);
    if rs[0] == x {
        lemma_dedup_len(next, rs.drop_first());
    } else {
        let j = choose|j: int| 0 <= j < rs.len() && rs[j] == x;
        assert(rs.drop_first()[j - 1] == x);
        let k = choose|k: int| 0 <= k < acc.len() && acc[k] == x;
        assert(next[k] == x);
        lemma_dedup_held(next, rs.drop_first(), x);
    }
}

proof fn lemma_dedup_repeat(acc: Seq<ActivityRecord>, rs: Seq<ActivityRecord>, i: int, j: int)
    requires
        0 <= i < j < rs.len(),
        rs[i] == rs[j],
    ensures
        dedup_into(acc, rs).len() < acc.len() + rs.len(),
    decreases rs.len(),
{
    let next = add_unique(acc, rs[0]);
    if i == 0 {
        assert(next.contains(rs[0])) by {
            if !acc.contains(rs[0]) {
                assert(next[acc.len() as int] == rs[0]);
            }
        }
        assert(rs.drop_first()[j - 1] == rs[0]);
        lemma_dedup_held(next, rs.drop_first(), rs[0]);
    } else {
        assert(rs.drop_first()[i - 1] == rs.drop_first()[j - 1]);
        lemma_dedup_repeat(next, rs.drop_first(), i - 1, j - 1);
    }
}

proof fn lemma_dedup_fresh(acc: Seq<ActivityRecord>, rs: Seq<ActivityRecord>)
    requires
        all_distinct(acc + rs),
    ensures
        dedup_into(acc, rs) == acc + rs,
    decreases rs.len(),
{
    if rs.len() > 0 {
        let whole = acc + rs;
        assert(!acc.contains(rs[0])) by {
            if acc.contains(rs[0]) {
                let k = choose|k: int| 0 <= k < acc.len() && acc[k] == rs[0];
                assert(whole[k] == whole[acc.len() as int]);
            }
        }
        assert(acc.push(rs[0]) + rs.drop_first() =~= whole);
        lemma_dedup_fresh(acc.push(rs[0]), rs.drop_first());
    }
}

/// Collecting the records of a fragment keeps all N of them when no two
/// are equal field by field, and keeps fewer than N when two are.
pub proof fn lemma_collect_distinct(t: Seq<u8>)
    ensures
        all_distinct(raw_records(t, 0)) ==> dedup_into(Seq::empty(), raw_records(t, 0))
            == raw_records(t, 0),
        !all_distinct(raw_records(t, 0)) ==> dedup_into(Seq::empty(), raw_records(t, 0)).len()
            < raw_records(t, 0).len(),
{
    let rs = raw_records(t, 0);
    let e = Seq::<ActivityRecord>::empty();
    if all_distinct(rs) {
        assert(e + rs =~= rs);
        lemma_dedup_fresh(e, rs);
    } else {
        let (i, j) = choose|i: int, j: int| 0 <= i < j < rs.len() && rs[i] == rs[j];
        lemma_dedup_repeat(e, rs, i, j);
    }
}

} // verus!
