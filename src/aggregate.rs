//! Merging the records of each day into one, sorted by day.
use vstd::prelude::*;
use crate::record::{ActivityRecord, DayRecord};

verus! {

/// Some record of `s` is of day `d`.
pub open spec fn has_day(s: Seq<ActivityRecord>, d: i32) -> bool {
    exists|i: int| 0 <= i < s.len() && s[i].date == d
}

/// The sum of the counts of the records of day `d`.
pub open spec fn day_count(s: Seq<ActivityRecord>, d: i32) -> int
    decreases s.len(),
{
    if s.len() == 0 {
        0
    } else {
        day_count(s.drop_last(), d) + if s.last().date == d {
            s.last().count as int
        } else {
            0
        }
    }
}

/// The earliest interval start among the records of day `d`
/// (`i32::MAX` where there is none).
pub open spec fn day_start(s: Seq<ActivityRecord>, d: i32) -> i32
    decreases s.len(),
{
    if s.len() == 0 {
        i32::MAX
    } else {
        let r = day_start(s.drop_last(), d);
        if s.last().date == d && s.last().interval_start < r {
            s.last().interval_start
        } else {
            r
        }
    }
}

/// The latest interval end among the records of day `d`
/// (`i32::MIN` where there is none).
pub open spec fn day_end(s: Seq<ActivityRecord>, d: i32) -> i32
    decreases s.len(),
{
    if s.len() == 0 {
        i32::MIN
    } else {
        let r = day_end(s.drop_last(), d);
        if s.last().date == d && s.last().interval_end > r {
            s.last().interval_end
        } else {
            r
        }
    }
}

/// The merged record of day `d`.
pub open spec fn day_of(s: Seq<ActivityRecord>, d: i32) -> DayRecord {
    DayRecord {
        date: d,
        interval_start: day_start(s, d),
        interval_end: day_end(s, d),
        count: day_count(s, d) as i64,
    }
}

/// Some record of `o` is of day `d`.
pub open spec fn lists_day(o: Seq<DayRecord>, d: i32) -> bool {
    exists|i: int| 0 <= i < o.len() && o[i].date == d
}

/// `out` holds, in strictly ascending order of day, exactly one merged
/// record for each day that occurs in `s`.
pub open spec fn is_day_summary(s: Seq<ActivityRecord>, out: Seq<DayRecord>) -> bool {
    &&& forall|i: int, j: int| 0 <= i < j < out.len() ==> out[i].date < out[j].date
    &&& forall|i: int| 0 <= i < out.len() ==> out[i] == day_of(s, out[i].date)
    &&& forall|d: i32| has_day(s, d) <==> exists|i: int| 0 <= i < out.len() && out[i].date == d
}

pub proof fn lemma_day_count_bound(s: Seq<ActivityRecord>, d: i32)
    ensures
        -(s.len() * 2147483648) <= day_count(s, d) <= s.len() * 2147483648,
    decreases s.len(),
{
    if s.len() > 0 {
        lemma_day_count_bound(s.drop_last(), d);
        assert(s.len() * 2147483648 == (s.len() - 1) * 2147483648 + 2147483648) by (nonlinear_arith);
    }
}

proof fn lemma_absent_day(s: Seq<ActivityRecord>, d: i32)
    requires
        !has_day(s, d),
    ensures
        day_count(s, d) == 0,
        day_start(s, d) == i32::MAX,
        day_end(s, d) == i32::MIN,
    decreases s.len(),
{
    if s.len() > 0 {
        let t = s.drop_last();
        assert(!has_day(t, d)) by {
            if has_day(t, d) {
                let i = choose|i: int| 0 <= i < t.len() && t[i].date == d;
                assert(s[i].date == d);
            }
        }
        assert(s.last().date != d) by {
            assert(s[s.len() - 1].date == s.last().date);
        }
        lemma_absent_day(t, d);
    }
}

proof fn lemma_push_has_day(s: Seq<ActivityRecord>, r: ActivityRecord, e: i32)
    ensures
        has_day(s.push(r), e) <==> (has_day(s, e) || r.date == e),
{
    let t = s.push(r);
    if has_day(s, e) {
        let i = choose|i: int| 0 <= i < s.len() && s[i].date == e;
        assert(t[i].date == e);
    }
    if r.date == e {
        assert(t[s.len() as int].date == e);
    }
    if has_day(t, e) {
        let i = choose|i: int| 0 <= i < t.len() && t[i].date == e;
        if i < s.len() {
            assert(s[i].date == e);
        }
    }
}

/// Merges the records of each day: the counts are summed, the interval
/// widened to the earliest start and the latest end. The result holds one
/// record per day that occurs, in ascending order of day.
pub fn sort_by_days(recs: &Vec<ActivityRecord>) -> (r: Vec<DayRecord>)
    requires
        recs@.len() <= u32::MAX,
    ensures
        is_day_summary(recs@, r@),
{
    let mut days: Vec<DayRecord> = Vec::new();
    let mut i: usize = 0;
    while i < recs.len()
        invariant
            i <= recs@.len() <= u32::MAX,
            is_day_summary(recs@.take(i as int), days@),
        decreases recs@.len() - i,
    {
        let r: ActivityRecord = recs[i];
        let ghost prev = recs@.take(i as int);
        let ghost next = recs@.take(i + 1);
        assert(next =~= prev.push(r));
        assert(next.drop_last() =~= prev);
        proof {
            lemma_push_has_day(prev, r, r.date);
            assert forall|e: i32| e != r.date implies #[trigger] day_of(next, e) == day_of(prev, e)
                && (has_day(next, e) <==> has_day(prev, e)) by {
                lemma_push_has_day(prev, r, e);
            }
            lemma_day_count_bound(prev, r.date);
        }
        let mut k: usize = 0;
        while k < days.len() && days[k].date < r.date
            invariant
                k <= days@.len(),
                forall|j: int| 0 <= j < k ==> days@[j].date < r.date,
            decreases days@.len() - k,
        {
            k = k + 1;
        }
        if k < days.len() && days[k].date == r.date {
            let cur = days[k];
            assert(cur == day_of(prev, r.date));
            assert(i * 2147483648 <= 4294967295 * 2147483648) by (nonlinear_arith)
                requires i <= 4294967295;
            let start = if r.interval_start < cur.interval_start {
                r.interval_start
            } else {
                cur.interval_start
            };
            let end = if r.interval_end > cur.interval_end {
                r.interval_end
            } else {
                cur.interval_end
            };
            let merged = DayRecord {
                date: r.date,
                interval_start: start,
                interval_end: end,
                count: cur.count + r.count as i64,
            };
            let ghost old_days = days@;
            days[k] = merged;
            assert(merged == day_of(next, r.date));
            assert(days@ == old_days.update(k as int, merged));
            assert forall|e: i32| has_day(next, e) <==> exists|j: int|
                0 <= j < days@.len() && days@[j].date == e by {
                lemma_push_has_day(prev, r, e);
                if has_day(next, e) && e != r.date {
                    let j = choose|j: int| 0 <= j < old_days.len() && old_days[j].date == e;
                    assert(days@[j].date == e);
                }
                if e == r.date {
                    assert(days@[k as int].date == e);
                }
                if exists|j: int| 0 <= j < days@.len() && days@[j].date == e {
                    let j = choose|j: int| 0 <= j < days@.len() && days@[j].date == e;
                    if j != k {
                        assert(old_days[j].date == e);
                    }
                }
            }
        } else {
            assert(!has_day(prev, r.date)) by {
                if has_day(prev, r.date) {
                    let j = choose|j: int| 0 <= j < days@.len() && days@[j].date == r.date;
                    if j >= k {
                        assert(days@[k as int].date <= days@[j].date);
                    }
                }
            }
            proof {
                lemma_absent_day(prev, r.date);
            }
            let fresh = DayRecord {
                date: r.date,
                interval_start: r.interval_start,
                interval_end: r.interval_end,
                count: r.count as i64,
            };
            assert(fresh == day_of(next, r.date));
            let ghost old_days = days@;
            days.insert(k, fresh);
            assert(days@ == old_days.insert(k as int, fresh));
            assert forall|j: int| 0 <= j < days@.len() implies #[trigger] days@[j] == day_of(
                next,
                days@[j].date,
            ) by {
                if j < k {
                    assert(days@[j] == old_days[j]);
                } else if j > k {
                    assert(days@[j] == old_days[j - 1]);
                }
            }
            assert forall|e: i32| has_day(next, e) <==> exists|j: int|
                0 <= j < days@.len() && days@[j].date == e by {
                lemma_push_has_day(prev, r, e);
                if has_day(next, e) && e != r.date {
                    let j = choose|j: int| 0 <= j < old_days.len() && old_days[j].date == e;
                    if j < k {
                        assert(days@[j].date == e);
                    } else {
                        assert(days@[j + 1].date == e);
                    }
                }
                if e == r.date {
                    assert(days@[k as int].date == e);
                }
                if exists|j: int| 0 <= j < days@.len() && days@[j].date == e {
                    let j = choose|j: int| 0 <= j < days@.len() && days@[j].date == e;
                    if j < k {
                        assert(old_days[j].date == e);
                    } else if j > k {
                        assert(old_days[j - 1].date == e);
                    }
                }
            }
        }
        i = i + 1;
    }
    assert(recs@.take(i as int) =~= recs@);
    days
}

proof fn lemma_remove_has_day(s: Seq<ActivityRecord>, j: int, d: i32)
    requires
        0 <= j < s.len(),
    ensures
        has_day(s, d) <==> (has_day(s.remove(j), d) || s[j].date == d),
{
    let t = s.remove(j);
    if has_day(s, d) && s[j].date != d {
        let i = choose|i: int| 0 <= i < s.len() && s[i].date == d;
        if i < j {
            assert(t[i].date == d);
        } else {
            assert(t[i - 1].date == d);
        }
    }
    if has_day(t, d) {
        let i = choose|i: int| 0 <= i < t.len() && t[i].date == d;
        if i < j {
            assert(s[i].date == d);
        } else {
            assert(s[i + 1].date == d);
        }
    }
}

proof fn lemma_remove_day_of(s: Seq<ActivityRecord>, j: int, d: i32)
    requires
        0 <= j < s.len(),
    ensures
        day_count(s, d) == day_count(s.remove(j), d) + if s[j].date == d {
            s[j].count as int
        } else {
            0
        },
        day_start(s, d) == if s[j].date == d && s[j].interval_start < day_start(s.remove(j), d) {
            s[j].interval_start
        } else {
            day_start(s.remove(j), d)
        },
        day_end(s, d) == if s[j].date == d && s[j].interval_end > day_end(s.remove(j), d) {
            s[j].interval_end
        } else {
            day_end(s.remove(j), d)
        },
    decreases s.len(),
{
    if j == s.len() - 1 {
        assert(s.remove(j) =~= s.drop_last());
    } else {
        let t = s.drop_last();
        assert(t.remove(j) =~= s.remove(j).drop_last());
        assert(s.remove(j).last() == s.last());
        assert(t[j] == s[j]);
        lemma_remove_day_of(t, j, d);
    }
}

proof fn lemma_permuted_day(s1: Seq<ActivityRecord>, s2: Seq<ActivityRecord>, d: i32)
    requires
        s1.to_multiset() == s2.to_multiset(),
    ensures
        day_count(s1, d) == day_count(s2, d),
        day_start(s1, d) == day_start(s2, d),
        day_end(s1, d) == day_end(s2, d),
        day_of(s1, d) == day_of(s2, d),
        has_day(s1, d) <==> has_day(s2, d),
    decreases s1.len(),
{
    broadcast use vstd::seq_lib::group_to_multiset_ensures;
    broadcast use vstd::multiset::group_multiset_axioms;

    s1.to_multiset_ensures();
    s2.to_multiset_ensures();
    if s1.len() == 0 {
        assert(s2.len() == 0);
        assert(s1 =~= s2);
    } else {
        let x = s1.last();
        let r1 = s1.drop_last();
        assert(r1.push(x) =~= s1);
        assert(s2.to_multiset().count(x) > 0);
        assert(s2.contains(x));
        let j = choose|j: int| 0 <= j < s2.len() && s2[j] == x;
        let r2 = s2.remove(j);
        r1.to_multiset_ensures();
        assert(r2.to_multiset() =~= r1.to_multiset());
        lemma_permuted_day(r1, r2, d);
        lemma_remove_day_of(s2, j, d);
        lemma_remove_has_day(s2, j, d);
        lemma_push_has_day(r1, x, d);
    }
}

proof fn lemma_same_dates(o1: Seq<DayRecord>, o2: Seq<DayRecord>)
    requires
        forall|i: int, j: int| 0 <= i < j < o1.len() ==> o1[i].date < o1[j].date,
        forall|i: int, j: int| 0 <= i < j < o2.len() ==> o2[i].date < o2[j].date,
        forall|d: i32|
            lists_day(o1, d) <==> lists_day(o2, d),
    ensures
        o1.len() == o2.len(),
        forall|i: int| 0 <= i < o1.len() ==> o1[i].date == o2[i].date,
    decreases o1.len() + o2.len(),
{
    if o1.len() == 0 || o2.len() == 0 {
        if o1.len() > 0 {
            let d = o1[0].date;
            assert(o1[0].date == d && lists_day(o1, d));
        }
        if o2.len() > 0 {
            let d = o2[0].date;
            assert(o2[0].date == d && lists_day(o2, d));
        }
    } else {
        let (a, b) = (o1[0].date, o2[0].date);
        assert(lists_day(o1, a));
        assert(lists_day(o2, b));
        let k2 = choose|i: int| 0 <= i < o2.len() && o2[i].date == a;
        let k1 = choose|i: int| 0 <= i < o1.len() && o1[i].date == b;
        assert(a == b) by {
            if k2 > 0 {
                assert(b < a);
            }
            if k1 > 0 {
                assert(a < b);
            }
        }
        let (rest1, rest2) = (o1.drop_first(), o2.drop_first());
        assert forall|d: i32|
            lists_day(rest1, d) <==> lists_day(rest2, d) by {
            if lists_day(rest1, d) {
                let i = choose|i: int| 0 <= i < rest1.len() && rest1[i].date == d;
                assert(o1[i + 1].date == d);
                assert(lists_day(o1, d));
                assert(lists_day(o2, d));
                let k = choose|k: int| 0 <= k < o2.len() && o2[k].date == d;
                assert(k > 0);
                assert(rest2[k - 1].date == d);
            }
            if lists_day(rest2, d) {
                let i = choose|i: int| 0 <= i < rest2.len() && rest2[i].date == d;
                assert(o2[i + 1].date == d);
                assert(lists_day(o2, d));
                assert(lists_day(o1, d));
                let k = choose|k: int| 0 <= k < o1.len() && o1[k].date == d;
                assert(k > 0);
                assert(rest1[k - 1].date == d);
            }
        }
        lemma_same_dates(rest1, rest2);
        assert forall|i: int| 0 <= i < o1.len() implies o1[i].date == o2[i].date by {
            if i > 0 {
                assert(rest1[i - 1].date == rest2[i - 1].date);
            }
        }
    }
}

/// Merging per day does not depend on the order of the records: two
/// collections that are permutations of each other have the same day
/// summary (and a collection has only one).
pub proof fn lemma_order_independent(
    s1: Seq<ActivityRecord>,
    s2: Seq<ActivityRecord>,
    o1: Seq<DayRecord>,
    o2: Seq<DayRecord>,
)
    requires
        s1.to_multiset() == s2.to_multiset(),
        is_day_summary(s1, o1),
        is_day_summary(s2, o2),
    ensures
        o1 == o2,
{
    assert forall|d: i32|
        lists_day(o1, d) <==> lists_day(o2, d) by {
        lemma_permuted_day(s1, s2, d);
    }
    lemma_same_dates(o1, o2);
    assert forall|i: int| 0 <= i < o1.len() implies o1[i] == o2[i] by {
        lemma_permuted_day(s1, s2, o1[i].date);
    }
    assert(o1 =~= o2);
}

} // verus!
