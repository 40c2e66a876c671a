//! The dashboard: grouped trend points and the summary figures, the one data
//! source that both front ends show.

use vstd::prelude::*;
use std::borrow::ToOwned;

use crate::calendar::{date_before, iso_date_format, is_date_before, parse_iso_date, parsed_date};
use crate::db::{
    all_fit, count_days_in_range, first_date_or, fits_i64, group_from_code, group_runs,
    last_date_or,
    group_step, grouped_totals, narrow_totals, query_date_range, query_grouped,
    query_total_words, rows_in_range, sum_counts, DailyWords, GroupBy,
};
use crate::text::{is_blank, is_blank_str, is_white_space, lemma_blank_iff_all_white};

verus! {

/// One point of the trend: a group label and its total.
#[derive(Clone, Debug, PartialEq, Eq)]
pub struct Point {
    /// `2026-07-29`, `2026-07` or `2026`.
    pub label: String,
    /// The words of the group.
    pub count: i64,
}

/// The summary figures.
#[derive(Clone, Copy, Debug, PartialEq, Eq, Structural)]
pub struct Summary {
    /// All words in the table, whatever the range.
    pub total_all: i64,
    /// Words within the range.
    pub total_range: i64,
    /// Days with a row within the range.
    pub days: usize,
    /// Points of the trend (depends on the granularity).
    pub buckets: usize,
    /// Words per day with a row, in tenths of a word, rounded half away
    /// from zero (0 without days): `2500` stands for 250.0.
    pub average_tenths: i128,
    /// The largest point, 0 without points.
    pub max: i64,
    /// The smallest point, 0 without points.
    pub min: i64,
}

/// Everything a front end needs to draw one view.
#[derive(Clone, Debug)]
pub struct Dashboard {
    /// The trend, in ascending label order.
    pub points: Vec<Point>,
    /// The summary figures.
    pub summary: Summary,
    /// The earliest date of the table (today where it is empty).
    pub data_start: String,
    /// The latest date of the table (today where it is empty).
    pub data_end: String,
    /// The start of the range asked for.
    pub range_start: String,
    /// The end of the range asked for.
    pub range_end: String,
    /// The granularity asked for.
    pub group_by: GroupBy,
}

/// Why no dashboard could be computed.
#[derive(Clone, Copy, Debug, PartialEq, Eq, Structural)]
pub enum StatsError {
    /// The start is not a `YYYY-MM-DD` date.
    InvalidStartDate,
    /// The end is not a `YYYY-MM-DD` date.
    InvalidEndDate,
    /// The start is a later date than the end.
    ReversedRange,
    /// A total leaves the range of `i64`.
    CountOverflow,
}

pub open spec fn points_view(v: Seq<Point>) -> Seq<(Seq<char>, i64)> {
    v.map_values(|p: Point| (p.label@, p.count))
}

/// The largest count, 0 for no entries.
pub open spec fn max_count(s: Seq<(Seq<char>, i64)>) -> int
    decreases s.len(),
{
    if s.len() == 0 {
        0
    } else if s.len() == 1 || s.last().1 >= max_count(s.drop_last()) {
        s.last().1 as int
    } else {
        max_count(s.drop_last())
    }
}

/// The smallest count, 0 for no entries.
pub open spec fn min_count(s: Seq<(Seq<char>, i64)>) -> int
    decreases s.len(),
{
    if s.len() == 0 {
        0
    } else if s.len() == 1 || s.last().1 <= min_count(s.drop_last()) {
        s.last().1 as int
    } else {
        min_count(s.drop_last())
    }
}

/// `10 * total / days` rounded to the nearest integer, halves away from
/// zero; 0 where `days` is 0.
pub open spec fn rounded_tenths(total: int, days: int) -> int {
    if days <= 0 {
        0
    } else if total >= 0 {
        (20 * total + days) / (2 * days)
    } else {
        -((-20 * total + days) / (2 * days))
    }
}

/// The average words per day, in tenths of a word.
pub fn average_tenths(total: i64, days: usize) -> (r: i128)
    ensures
        r == rounded_tenths(total as int, days as int),
{
    if days == 0 {
        return 0;
    }
    let d = days as i128;
    let t = total as i128;
    proof {
        lemma_tenths_bound(total as int, days as int);
    }
    let q: i128 = if t >= 0 {
        (20 * t + d) / (2 * d)
    } else {
        -((-20 * t + d) / (2 * d))
    };
    q
}

proof fn lemma_tenths_bound(total: int, days: int)
    requires
        days >= 1,
        i64::MIN <= total <= i64::MAX,
    ensures
        total >= 0 ==> 0 <= (20 * total + days) / (2 * days) <= 10 * total + 1,
        total < 0 ==> 0 <= (-20 * total + days) / (2 * days) <= -10 * total + 1,
{
    if total >= 0 {
        assert(0 <= (20 * total + days) / (2 * days) <= 10 * total + 1) by (nonlinear_arith)
            requires
                days >= 1,
                total >= 0,
        ;
    } else {
        assert(0 <= (-20 * total + days) / (2 * days) <= -10 * total + 1) by (nonlinear_arith)
            requires
                days >= 1,
                total < 0,
        ;
    }
}

/// The sum of group totals.
pub open spec fn sum_totals(gs: Seq<(Seq<char>, int)>) -> int
    decreases gs.len(),
{
    if gs.len() == 0 {
        0
    } else {
        sum_totals(gs.drop_last()) + gs.last().1
    }
}

/// Every figure of the dashboard fits in `i64`.
pub open spec fn dashboard_fits(
    s: Seq<(Seq<char>, i64)>,
    start: Seq<char>,
    end: Seq<char>,
    g: GroupBy,
) -> bool {
    &&& all_fit(grouped_totals(s, start, end, g))
    &&& fits_i64(sum_counts(rows_in_range(s, start, end)))
    &&& fits_i64(sum_counts(s))
}

/// The dashboard shows the table `s` over `[start, end]` grouped by `g`.
pub open spec fn dashboard_matches(
    d: Dashboard,
    s: Seq<(Seq<char>, i64)>,
    start: Seq<char>,
    end: Seq<char>,
    g: GroupBy,
) -> bool {
    let points = narrow_totals(grouped_totals(s, start, end, g));
    &&& points_view(d.points@) == points
    &&& d.summary.total_range == sum_counts(rows_in_range(s, start, end))
    &&& d.summary.total_all == sum_counts(s)
    &&& d.summary.days == rows_in_range(s, start, end).len()
    &&& d.summary.buckets == points.len()
    &&& d.summary.average_tenths == rounded_tenths(
        sum_counts(rows_in_range(s, start, end)),
        rows_in_range(s, start, end).len() as int,
    )
    &&& d.summary.max == max_count(points)
    &&& d.summary.min == min_count(points)
    &&& d.range_start@ == start
    &&& d.range_end@ == end
    &&& d.group_by == g
    &&& s.len() > 0 ==> d.data_start@ == s[0].0 && d.data_end@ == s.last().0
}

/// The outcome of asking for the dashboard of `s` over `[start, end]`
/// grouped by `g`, where the two bounds read as the dates `sd` and `ed`.
pub open spec fn dashboard_outcome(
    r: Result<Dashboard, StatsError>,
    s: Seq<(Seq<char>, i64)>,
    start: Seq<char>,
    end: Seq<char>,
    g: GroupBy,
    sd: Option<(i32, u32, u32)>,
    ed: Option<(i32, u32, u32)>,
) -> bool {
    match sd {
        None => r == Err::<Dashboard, StatsError>(StatsError::InvalidStartDate),
        Some(a) => match ed {
            None => r == Err::<Dashboard, StatsError>(StatsError::InvalidEndDate),
            Some(b) => if date_before(b, a) {
                r == Err::<Dashboard, StatsError>(StatsError::ReversedRange)
            } else if !dashboard_fits(s, start, end, g) {
                r == Err::<Dashboard, StatsError>(StatsError::CountOverflow)
            } else {
                r matches Ok(d) && dashboard_matches(d, s, start, end, g)
            },
        },
    }
}

/// Grouping neither adds nor loses words.
pub proof fn lemma_group_runs_sum(s: Seq<(Seq<char>, i64)>, g: GroupBy)
    ensures
        sum_totals(group_runs(s, g)) == sum_counts(s),
    decreases s.len(),
{
    if s.len() > 0 {
        lemma_group_runs_sum(s.drop_last(), g);
        let e = group_runs(s.drop_last(), g);
        let k = crate::db::group_key(s.last().0, g);
        if e.len() > 0 && e.last().0 == k {
            let u = group_step(e, k, s.last().1 as int);
            assert(u.drop_last() =~= e.drop_last());
        } else {
            assert(group_step(e, k, s.last().1 as int).drop_last() =~= e);
        }
    }
}

/// Converts labelled totals into points.
fn to_points(rows: Vec<(String, i64)>) -> (r: Vec<Point>)
    ensures
        points_view(r@) == crate::db::rows_view(rows@),
{
    let mut out: Vec<Point> = Vec::new();
    let n = rows.len();
    let mut i: usize = 0;
    while i < n
        invariant
            i <= n,
            n == rows@.len(),
            points_view(out@) =~= crate::db::rows_view(rows@).take(i as int),
        decreases n - i,
    {
        let ghost before = out@;
        out.push(Point { label: rows[i].0.clone(), count: rows[i].1 });
        assert(points_view(out@) =~= points_view(before).push(crate::db::rows_view(rows@)[i as int]));
        assert(crate::db::rows_view(rows@).take(i + 1) =~= crate::db::rows_view(rows@).take(i as int).push(crate::db::rows_view(rows@)[i as int]));
        i = i + 1;
    }
    assert(crate::db::rows_view(rows@).take(n as int) =~= crate::db::rows_view(rows@));
    out
}

/// The sum, largest and smallest count of the points; `None` where the sum
/// leaves the range of `i64`.
fn point_figures(points: &Vec<Point>) -> (r: Option<(i64, i64, i64)>)
    ensures
        r is Some <==> fits_i64(sum_counts(points_view(points@))),
        r matches Some((total, max, min)) ==> total == sum_counts(points_view(points@)) && max
            == max_count(points_view(points@)) && min == min_count(points_view(points@)),
{
    let ghost p = points_view(points@);
    let n = points.len();
    let mut total: i128 = 0;
    let mut max: i64 = 0;
    let mut min: i64 = 0;
    let mut i: usize = 0;
    assert(p.take(0) =~= Seq::<(Seq<char>, i64)>::empty());
    while i < n
        invariant
            i <= n,
            n == points@.len(),
            p == points_view(points@),
            p.len() == n,
            total == sum_counts(p.take(i as int)),
            max == max_count(p.take(i as int)),
            min == min_count(p.take(i as int)),
            -(i as int) * 0x8000_0000_0000_0000 <= total <= (i as int) * 0x8000_0000_0000_0000,
        decreases n - i,
    {
        let c = points[i].count;
        assert(p.take(i + 1).drop_last() =~= p.take(i as int));
        assert(p.take(i + 1).last() == p[i as int]);
        assert(p[i as int].1 == c);
        total = total + (c as i128);
        if i == 0 || c >= max {
            max = c;
        }
        if i == 0 || c <= min {
            min = c;
        }
        i = i + 1;
    }
    assert(p.take(n as int) =~= p);
    if total < i64::MIN as i128 || total > i64::MAX as i128 {
        None
    } else {
        Some((total as i64, max, min))
    }
}

/// The dashboard of `db` over `[start, end]` grouped by `group_by`, given
/// what the two bounds read as (`start_ymd`, `end_ymd`) and today's date for
/// an empty table.
pub fn dashboard_for(
    db: &DailyWords,
    start: &str,
    end: &str,
    group_by: GroupBy,
    start_ymd: Option<(i32, u32, u32)>,
    end_ymd: Option<(i32, u32, u32)>,
    today: &str,
) -> (r: Result<Dashboard, StatsError>)
    ensures
        dashboard_outcome(r, db@, start@, end@, group_by, start_ymd, end_ymd),
        r matches Ok(d) ==> d.data_start@ == first_date_or(db@, today@) && d.data_end@
            == last_date_or(db@, today@),
{
    let a = match start_ymd {
        None => {
            return Err(StatsError::InvalidStartDate);
        },
        Some(a) => a,
    };
    let b = match end_ymd {
        None => {
            return Err(StatsError::InvalidEndDate);
        },
        Some(b) => b,
    };
    if is_date_before(b, a) {
        return Err(StatsError::ReversedRange);
    }
    let ghost s = db@;
    let ghost gt = grouped_totals(s, start@, end@, group_by);
    let rows = match query_grouped(db, start, end, group_by) {
        Ok(rows) => rows,
        Err(_) => {
            return Err(StatsError::CountOverflow);
        },
    };
    let points = to_points(rows);
    proof {
        lemma_group_runs_sum(rows_in_range(s, start@, end@), group_by);
        lemma_narrow_sum(gt);
    }
    let (total_range, max, min) = match point_figures(&points) {
        Some(f) => f,
        None => {
            return Err(StatsError::CountOverflow);
        },
    };
    let days = count_days_in_range(db, start, end);
    let total_all = match query_total_words(db) {
        Ok(t) => t,
        Err(_) => {
            return Err(StatsError::CountOverflow);
        },
    };
    let (data_start, data_end) = query_date_range(db, today);
    let buckets = points.len();
    let average = average_tenths(total_range, days);
    Ok(Dashboard {
        points,
        summary: Summary {
            total_all,
            total_range,
            days,
            buckets,
            average_tenths: average,
            max,
            min,
        },
        data_start,
        data_end,
        range_start: start.to_owned(),
        range_end: end.to_owned(),
        group_by,
    })
}

/// Narrowing totals that fit keeps their sum.
proof fn lemma_narrow_sum(gs: Seq<(Seq<char>, int)>)
    requires
        all_fit(gs),
    ensures
        sum_counts(narrow_totals(gs)) == sum_totals(gs),
    decreases gs.len(),
{
    if gs.len() > 0 {
        assert(narrow_totals(gs).drop_last() =~= narrow_totals(gs.drop_last()));
        assert(fits_i64(gs[gs.len() - 1].1));
        lemma_narrow_sum(gs.drop_last());
    }
}

/// Computes the dashboard of `db` over `[start, end]` (both `YYYY-MM-DD`,
/// both ends included) grouped by `group_by`. `today` is the date the
/// caller reads from its clock; it stands for the data range of an empty
/// table.
///
/// A bound that is not a date, or a start later than the end, is an error,
/// so that a half-typed range is told apart from a range without data.
pub fn compute_dashboard(
    db: &DailyWords,
    start: &str,
    end: &str,
    group_by: GroupBy,
    today: &str,
) -> (r: Result<Dashboard, StatsError>)
    ensures
        dashboard_outcome(
            r,
            db@,
            start@,
            end@,
            group_by,
            parsed_date(start@, iso_date_format()),
            parsed_date(end@, iso_date_format()),
        ),
        r matches Ok(d) ==> d.data_start@ == first_date_or(db@, today@) && d.data_end@
            == last_date_or(db@, today@),
{
    let start_ymd = parse_iso_date(start);
    let end_ymd = parse_iso_date(end);
    dashboard_for(db, start, end, group_by, start_ymd, end_ymd, today)
}

// ---------------------------------------------------------------------
// Queries from the desktop front end
// ---------------------------------------------------------------------

/// A dashboard request: a missing or blank bound means the table's own
/// first or last date; the granularity is `day`, `month` or `year`, and
/// anything else (or nothing) means `day`.
#[derive(Clone, Debug, Default)]
pub struct DashboardQuery {
    pub start: Option<String>,
    pub end: Option<String>,
    pub group_by: Option<String>,
}

/// A requested bound, or the fallback where it is missing or blank.
pub open spec fn resolved_bound(q: Option<String>, fallback: Seq<char>) -> Seq<char> {
    match q {
        Some(v) => if is_blank(v@) {
            fallback
        } else {
            v@
        },
        None => fallback,
    }
}

/// The requested granularity.
pub open spec fn resolved_group(q: Option<String>) -> GroupBy {
    match q {
        Some(v) => group_from_code(v@),
        None => GroupBy::Day,
    }
}

fn resolve_bound(q: &Option<String>, fallback: &str) -> (r: String)
    ensures
        r@ == resolved_bound(*q, fallback@),
{
    match q {
        Some(v) => if is_blank_str(v.as_str()) {
            fallback.to_owned()
        } else {
            v.clone()
        },
        None => fallback.to_owned(),
    }
}

/// The range and granularity a request asks for, given the table's first
/// and last date.
pub fn resolve_query(query: &DashboardQuery, data_start: &str, data_end: &str) -> (r: (
    String,
    String,
    GroupBy,
))
    ensures
        r.0@ == resolved_bound(query.start, data_start@),
        r.1@ == resolved_bound(query.end, data_end@),
        r.2 == resolved_group(query.group_by),
{
    let start = resolve_bound(&query.start, data_start);
    let end = resolve_bound(&query.end, data_end);
    let group_by = match &query.group_by {
        Some(code) => GroupBy::from_code(code.as_str()),
        None => GroupBy::Day,
    };
    (start, end, group_by)
}

/// Answers a dashboard request: missing bounds are filled in from the
/// table's date range (`today`, the date the caller reads from its clock,
/// where the table is empty).
pub fn build_dashboard(db: &DailyWords, query: &DashboardQuery, today: &str) -> (r: Result<
    Dashboard,
    StatsError,
>)
    ensures
        ({
            let ds = first_date_or(db@, today@);
            let de = last_date_or(db@, today@);
            let start = resolved_bound(query.start, ds);
            let end = resolved_bound(query.end, de);
            &&& dashboard_outcome(
                r,
                db@,
                start,
                end,
                resolved_group(query.group_by),
                parsed_date(start, iso_date_format()),
                parsed_date(end, iso_date_format()),
            )
            &&& r matches Ok(d) ==> d.data_start@ == ds && d.data_end@ == de
        }),
{
    let (data_start, data_end) = query_date_range(db, today);
    let (start, end, group_by) = resolve_query(query, data_start.as_str(), data_end.as_str());
    compute_dashboard(db, start.as_str(), end.as_str(), group_by, today)
}

// ---------------------------------------------------------------------
// Laws of the figures
// ---------------------------------------------------------------------

/// Grouping by day, month or year neither adds nor loses words: the points
/// of any granularity sum to the words within the range.
pub proof fn law_grouping_keeps_total(
    s: Seq<(Seq<char>, i64)>,
    start: Seq<char>,
    end: Seq<char>,
    g: GroupBy,
)
    ensures
        sum_totals(grouped_totals(s, start, end, g)) == sum_counts(rows_in_range(s, start, end)),
{
    lemma_group_runs_sum(rows_in_range(s, start, end), g);
}

/// Grouped by day, there is one point per day with a row: the number of
/// points equals the number of days.
pub proof fn law_day_points_are_days(s: Seq<(Seq<char>, i64)>, start: Seq<char>, end: Seq<char>)
    requires
        crate::db::rows_sorted(s),
    ensures
        grouped_totals(s, start, end, GroupBy::Day).len() == rows_in_range(s, start, end).len(),
{
    crate::db::law_day_groups_are_rows(s, start, end);
}

/// The largest and the smallest count bound every count, and both occur
/// among the counts unless there are none.
pub proof fn law_max_min_bound(p: Seq<(Seq<char>, i64)>)
    ensures
        forall|i: int| 0 <= i < p.len() ==> min_count(p) <= #[trigger] p[i].1 <= max_count(p),
        p.len() > 0 ==> exists|i: int| 0 <= i < p.len() && #[trigger] p[i].1 == max_count(p),
        p.len() > 0 ==> exists|i: int| 0 <= i < p.len() && #[trigger] p[i].1 == min_count(p),
    decreases p.len(),
{
    if p.len() > 0 {
        let t = p.drop_last();
        law_max_min_bound(t);
        assert forall|i: int| 0 <= i < p.len() implies min_count(p) <= #[trigger] p[i].1
            <= max_count(p) by {
            if i < t.len() {
                assert(t[i] == p[i]);
            }
        }
        if p.len() == 1 || p.last().1 >= max_count(t) {
            assert(p[p.len() - 1].1 == max_count(p));
        } else {
            let i = choose|i: int| 0 <= i < t.len() && #[trigger] t[i].1 == max_count(t);
            assert(p[i] == t[i]);
        }
        if p.len() == 1 || p.last().1 <= min_count(t) {
            assert(p[p.len() - 1].1 == min_count(p));
        } else {
            let i = choose|i: int| 0 <= i < t.len() && #[trigger] t[i].1 == min_count(t);
            assert(p[i] == t[i]);
        }
    }
}

/// A range is refused as reversed exactly when its start is a later
/// calendar date than its end. A start in an earlier year is never refused,
/// whatever its month and day; a start in a later year always is. Within one
/// year the month decides, within one month the day; a one-day range is
/// never refused.
pub proof fn law_reversed_only_when_start_is_later(
    r: Result<Dashboard, StatsError>,
    s: Seq<(Seq<char>, i64)>,
    start: Seq<char>,
    end: Seq<char>,
    g: GroupBy,
    a: (i32, u32, u32),
    b: (i32, u32, u32),
)
    requires
        dashboard_outcome(r, s, start, end, g, Some(a), Some(b)),
    ensures
        a.0 < b.0 ==> r != Err::<Dashboard, StatsError>(StatsError::ReversedRange),
        a.0 > b.0 ==> r == Err::<Dashboard, StatsError>(StatsError::ReversedRange),
        a.0 == b.0 && a.1 < b.1 ==> r != Err::<Dashboard, StatsError>(StatsError::ReversedRange),
        a.0 == b.0 && a.1 > b.1 ==> r == Err::<Dashboard, StatsError>(StatsError::ReversedRange),
        a.0 == b.0 && a.1 == b.1 && a.2 <= b.2 ==> r != Err::<Dashboard, StatsError>(
            StatsError::ReversedRange,
        ),
        a.0 == b.0 && a.1 == b.1 && a.2 > b.2 ==> r == Err::<Dashboard, StatsError>(
            StatsError::ReversedRange,
        ),
{
}

/// A bound sent as an empty or white-space-only text falls back to the
/// table's date exactly as a missing bound does; a bound with any other
/// character is taken as it was sent.
pub proof fn law_blank_bound_falls_back(v: String, fallback: Seq<char>)
    ensures
        resolved_bound(None::<String>, fallback) == fallback,
        (forall|i: int| 0 <= i < v@.len() ==> is_white_space(#[trigger] v@[i])) ==> resolved_bound(
            Some(v),
            fallback,
        ) == fallback,
        (exists|i: int| 0 <= i < v@.len() && !is_white_space(#[trigger] v@[i])) ==> resolved_bound(
            Some(v),
            fallback,
        ) == v@,
{
    lemma_blank_iff_all_white(v@);
}

} // verus!
