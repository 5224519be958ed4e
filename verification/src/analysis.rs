//! Per-day aggregation of log rows, as the companion client charts them:
//! for one calendar day, one aggregate row per application, scanning the
//! log from its newest row to its oldest.

use crate::rows::{row_models, Row, RowModel};
use vstd::prelude::*;

verus! {

/// The per-application part of one aggregate: the timestamp under which the
/// application was first seen by the scan, and its summed duration.
#[derive(Debug, Clone, Copy, PartialEq, Eq, Structural)]
pub struct RowDetails {
    pub timestamp: u64,
    pub duration: u64,
}

/// The per-application part of one aggregated row.
pub fn row_details(r: &Row) -> (d: RowDetails)
    ensures
        d.timestamp == r.timestamp,
        d.duration == r.duration,
{
    RowDetails { timestamp: r.timestamp, duration: r.duration }
}

/// Whether `ts` falls on the day starting at `start` (both bounds
/// inclusive, as the log's reporting has always counted them).
pub open spec fn in_day(start: u64, ts: u64) -> bool {
    start <= ts && ts <= start + 86400
}

/// Duration sums stop at the largest representable value.
pub open spec fn sat_add(a: u64, b: u64) -> u64 {
    if a + b <= u64::MAX {
        (a + b) as u64
    } else {
        u64::MAX
    }
}

/// One step of the aggregation: a row on the requested day adds its
/// duration to its application's aggregate, which keeps the timestamp it
/// was created with; a first sighting creates the aggregate; rows outside
/// the day are skipped.
pub open spec fn spec_day_add(acc: Seq<RowModel>, r: RowModel, start: u64) -> Seq<RowModel>
    decreases acc.len(),
{
    if !in_day(start, r.timestamp) {
        acc
    } else if acc.len() == 0 {
        seq![r]
    } else if acc[0].application == r.application {
        seq![
            RowModel {
                timestamp: acc[0].timestamp,
                application: acc[0].application,
                duration: sat_add(acc[0].duration, r.duration),
            },
        ] + acc.drop_first()
    } else {
        seq![acc[0]] + spec_day_add(acc.drop_first(), r, start)
    }
}

/// The scan runs from the newest row to the oldest.
pub open spec fn spec_day_scan(acc: Seq<RowModel>, rs: Seq<RowModel>, start: u64) -> Seq<RowModel>
    decreases rs.len(),
{
    if rs.len() == 0 {
        acc
    } else {
        spec_day_scan(spec_day_add(acc, rs.last(), start), rs.drop_last(), start)
    }
}

/// The aggregated rows of one day.
pub open spec fn spec_date_rows(rs: Seq<RowModel>, start: u64) -> Seq<RowModel> {
    spec_day_scan(Seq::<RowModel>::empty(), rs, start)
}

/// Peeling the scan at its oldest (last-processed) row.
proof fn lemma_scan_step(acc: Seq<RowModel>, rs: Seq<RowModel>, start: u64)
    requires
        rs.len() > 0,
    ensures
        spec_day_scan(acc, rs, start) == spec_day_add(
            spec_day_scan(acc, rs.drop_first(), start),
            rs[0],
            start,
        ),
    decreases rs.len(),
{
    if rs.len() == 1 {
        assert(rs.last() == rs[0]);
        assert(rs.drop_last() =~= Seq::<RowModel>::empty());
        assert(rs.drop_first() =~= Seq::<RowModel>::empty());
        assert(spec_day_scan(acc, rs, start) == spec_day_scan(
            spec_day_add(acc, rs.last(), start),
            rs.drop_last(),
            start,
        ));
        assert(spec_day_scan(spec_day_add(acc, rs.last(), start), rs.drop_last(), start)
            == spec_day_add(acc, rs.last(), start));
        assert(spec_day_scan(acc, rs.drop_first(), start) == acc);
    } else {
        let acc2 = spec_day_add(acc, rs.last(), start);
        lemma_scan_step(acc2, rs.drop_last(), start);
        assert(rs.drop_last()[0] == rs[0]);
        assert(rs.drop_last().drop_first() =~= rs.drop_first().drop_last());
        assert(rs.drop_first().last() == rs.last());
        assert(spec_day_scan(acc, rs, start) == spec_day_scan(acc2, rs.drop_last(), start));
        assert(spec_day_scan(acc2, rs.drop_last(), start) == spec_day_add(
            spec_day_scan(acc2, rs.drop_last().drop_first(), start),
            rs.drop_last()[0],
            start,
        ));
        assert(rs.drop_first().len() > 0);
        assert(spec_day_scan(acc, rs.drop_first(), start) == spec_day_scan(
            acc2,
            rs.drop_first().drop_last(),
            start,
        ));
    }
}

/// Splits `spec_day_add` at the first aggregate whose application matches
/// (or at the end, when none does).
proof fn lemma_day_add_at(acc: Seq<RowModel>, r: RowModel, start: u64, i: int)
    requires
        in_day(start, r.timestamp),
        0 <= i <= acc.len(),
        forall|j: int| 0 <= j < i ==> (#[trigger] acc[j]).application != r.application,
    ensures
        spec_day_add(acc, r, start) == acc.take(i) + spec_day_add(acc.skip(i), r, start),
    decreases i,
{
    if i == 0 {
        assert(acc.take(0) =~= Seq::<RowModel>::empty());
        assert(acc.skip(0) =~= acc);
        assert(acc.take(0) + spec_day_add(acc, r, start) =~= spec_day_add(acc, r, start));
    } else {
        assert(acc[0].application != r.application);
        lemma_day_add_at(acc.drop_first(), r, start, i - 1);
        assert(acc.drop_first().take(i - 1) =~= acc.take(i).drop_first());
        assert(acc.drop_first().skip(i - 1) =~= acc.skip(i));
        assert(seq![acc[0]] + (acc.drop_first().take(i - 1) + spec_day_add(
            acc.skip(i),
            r,
            start,
        )) =~= acc.take(i) + spec_day_add(acc.skip(i), r, start));
    }
}

/// Folds one row into the day's aggregates.
fn day_add(day: &mut Vec<Row>, r: &Row, start_of_date: u64, end_of_date: u64)
    requires
        end_of_date == start_of_date + 86400,
    ensures
        row_models(final(day)@) == spec_day_add(row_models(old(day)@), r@, start_of_date),
{
    if !(start_of_date <= r.timestamp && r.timestamp <= end_of_date) {
        return ;
    }
    let ghost acc = row_models(day@);
    let mut i: usize = 0;
    while i < day.len()
        invariant
            day == old(day),
            acc == row_models(day@),
            in_day(start_of_date, r@.timestamp),
            0 <= i <= acc.len(),
            acc.len() == day@.len(),
            forall|j: int| 0 <= j < i ==> (#[trigger] acc[j]).application != r@.application,
        decreases day.len() - i,
    {
        proof {
            assert(acc[i as int] == day@[i as int]@);
        }
        if day[i].application == r.application {
            let cur = day[i].timestamp;
            let dur = day[i].duration;
            let summed: u64 = if dur <= u64::MAX - r.duration {
                dur + r.duration
            } else {
                u64::MAX
            };
            let name = day[i].application.clone();
            day[i] = Row { timestamp: cur, application: name, duration: summed };
            proof {
                lemma_day_add_at(acc, r@, start_of_date, i as int);
                assert(summed == sat_add(acc[i as int].duration, r@.duration));
                assert(row_models(day@) =~= acc.take(i as int) + (seq![
                    RowModel {
                        timestamp: acc[i as int].timestamp,
                        application: acc[i as int].application,
                        duration: summed,
                    },
                ] + acc.skip(i as int).drop_first()));
            }
            return ;
        }
        i = i + 1;
    }
    day.push(Row { timestamp: r.timestamp, application: r.application.clone(), duration: r.duration });
    proof {
        lemma_day_add_at(acc, r@, start_of_date, acc.len() as int);
        assert(acc.skip(acc.len() as int) =~= Seq::<RowModel>::empty());
        assert(row_models(day@) =~= acc.take(acc.len() as int) + spec_day_add(
            acc.skip(acc.len() as int),
            r@,
            start_of_date,
        ));
    }
}

/// The aggregated screen time of one day: scanning from the newest row to
/// the oldest, one aggregate per application active on the day starting at
/// `start_of_date`, carrying that application's summed duration and the
/// timestamp of its newest row on the day.
pub fn date_screen_time(rows: &Vec<Row>, start_of_date: u64) -> (day: Vec<Row>)
    requires
        start_of_date <= u64::MAX - 86400,
    ensures
        row_models(day@) == spec_date_rows(row_models(rows@), start_of_date),
{
    let ghost rs = row_models(rows@);
    let end_of_date = start_of_date + 86400;
    let mut day: Vec<Row> = Vec::new();
    let mut i: usize = rows.len();
    proof {
        assert(rs.skip(rs.len() as int) =~= Seq::<RowModel>::empty());
        assert(row_models(day@) =~= Seq::<RowModel>::empty());
    }
    while i > 0
        invariant
            0 <= i <= rows@.len(),
            rs == row_models(rows@),
            end_of_date == start_of_date + 86400,
            row_models(day@) == spec_day_scan(
                Seq::<RowModel>::empty(),
                rs.skip(i as int),
                start_of_date,
            ),
        decreases i,
    {
        i = i - 1;
        day_add(&mut day, &rows[i], start_of_date, end_of_date);
        proof {
            lemma_scan_step(Seq::<RowModel>::empty(), rs.skip(i as int), start_of_date);
            assert(rs.skip(i as int)[0] == rs[i as int]);
            assert(rs.skip(i as int).drop_first() =~= rs.skip(i + 1));
            assert(rs[i as int] == rows@[i as int]@);
        }
    }
    proof {
        assert(rs.skip(0) =~= rs);
    }
    day
}

/// The aggregated screen time of each day of one week, oldest day first.
pub fn week_screen_time(rows: &Vec<Row>, start_of_week: u64) -> (week: Vec<Vec<Row>>)
    requires
        start_of_week <= u64::MAX - 604800,
    ensures
        week@.len() == 7,
        forall|d: int|
            0 <= d < 7 ==> row_models((#[trigger] week@[d])@) == spec_date_rows(
                row_models(rows@),
                (start_of_week + d * 86400) as u64,
            ),
{
    let mut week: Vec<Vec<Row>> = Vec::new();
    let mut d: usize = 0;
    while d < 7
        invariant
            0 <= d <= 7,
            week@.len() == d,
            start_of_week <= u64::MAX - 604800,
            forall|x: int|
                0 <= x < d ==> row_models((#[trigger] week@[x])@) == spec_date_rows(
                    row_models(rows@),
                    (start_of_week + x * 86400) as u64,
                ),
        decreases 7 - d,
    {
        let day_start = start_of_week + (d as u64) * 86400;
        let day = date_screen_time(rows, day_start);
        week.push(day);
        d = d + 1;
    }
    week
}

} // verus!
