use rime_word_counter::db::{upsert_word_count, DailyWords};
use rime_word_counter::stats::{
    average_tenths, build_dashboard, dashboard_for, resolve_query, DashboardQuery, StatsError,
};
use rime_word_counter::{compute_dashboard, GroupBy, Point};

fn setup() -> DailyWords {
    let mut conn = DailyWords::new();
    for (date, count) in [
        ("2026-01-15", 100),
        ("2026-01-20", 200),
        ("2026-02-10", 300),
        ("2026-02-15", 400),
        ("2027-03-01", 500),
    ] {
        upsert_word_count(&mut conn, date, count).unwrap();
    }
    conn
}

#[test]
fn test_dashboard_by_day() {
    let conn = setup();
    let d = compute_dashboard(&conn, "2026-01-01", "2026-12-31", GroupBy::Day, "2030-06-01").unwrap();

    assert_eq!(d.points.len(), 4);
    assert_eq!(
        d.points[0],
        Point {
            label: "2026-01-15".into(),
            count: 100
        }
    );
    assert_eq!(d.summary.total_range, 1000);
    assert_eq!(d.summary.total_all, 1500);
    assert_eq!(d.summary.days, 4);
    assert_eq!(d.summary.buckets, 4);
    assert_eq!(d.summary.average_tenths as f64 / 10.0, 250.0);
    assert_eq!(d.summary.max, 400);
    assert_eq!(d.summary.min, 100);
    assert_eq!(d.data_start, "2026-01-15");
    assert_eq!(d.data_end, "2027-03-01");
}

#[test]
fn test_dashboard_by_month_aggregates_and_averages_per_day() {
    let conn = setup();
    let d = compute_dashboard(&conn, "2026-01-01", "2026-12-31", GroupBy::Month, "2030-06-01").unwrap();

    assert_eq!(d.points.len(), 2);
    assert_eq!(
        d.points[0],
        Point {
            label: "2026-01".into(),
            count: 300
        }
    );
    assert_eq!(
        d.points[1],
        Point {
            label: "2026-02".into(),
            count: 700
        }
    );
    // the daily average goes by days with a row, not by groups
    assert_eq!(d.summary.days, 4);
    assert_eq!(d.summary.buckets, 2);
    assert_eq!(d.summary.average_tenths as f64 / 10.0, 250.0);
    assert_eq!(d.summary.max, 700);
    assert_eq!(d.summary.min, 300);
}

#[test]
fn test_dashboard_by_year() {
    let conn = setup();
    let d = compute_dashboard(&conn, "2026-01-01", "2027-12-31", GroupBy::Year, "2030-06-01").unwrap();
    assert_eq!(d.points.len(), 2);
    assert_eq!(
        d.points[0],
        Point {
            label: "2026".into(),
            count: 1000
        }
    );
    assert_eq!(
        d.points[1],
        Point {
            label: "2027".into(),
            count: 500
        }
    );
    assert_eq!(d.summary.total_range, 1500);
}

#[test]
fn test_dashboard_empty_range_is_zeroed_not_error() {
    let conn = setup();
    let d = compute_dashboard(&conn, "2025-01-01", "2025-12-31", GroupBy::Day, "2030-06-01").unwrap();
    assert!(d.points.is_empty());
    assert_eq!(d.summary.total_range, 0);
    assert_eq!(d.summary.days, 0);
    assert_eq!(d.summary.average_tenths as f64 / 10.0, 0.0);
    assert_eq!(d.summary.max, 0);
    assert_eq!(d.summary.min, 0);
    // the whole table stays readable, for the "all" shortcut
    assert_eq!(d.summary.total_all, 1500);
}

#[test]
fn test_dashboard_invalid_date_errors() {
    let conn = setup();
    assert!(compute_dashboard(&conn, "2026-13-01", "2026-12-31", GroupBy::Day, "2030-06-01").is_err());
    assert!(compute_dashboard(&conn, "2026-01-01", "not-a-date", GroupBy::Day, "2030-06-01").is_err());
}

#[test]
fn test_dashboard_reversed_range_errors() {
    let conn = setup();
    assert!(compute_dashboard(&conn, "2026-12-31", "2026-01-01", GroupBy::Day, "2030-06-01").is_err());
}

#[test]
fn dashboard_errors_name_their_cause() {
    let conn = setup();
    assert_eq!(
        compute_dashboard(&conn, "2026-13-01", "nope", GroupBy::Day, "2030-06-01").unwrap_err(),
        StatsError::InvalidStartDate
    );
    assert_eq!(
        compute_dashboard(&conn, "2026-01-01", "not-a-date", GroupBy::Day, "2030-06-01").unwrap_err(),
        StatsError::InvalidEndDate
    );
    assert_eq!(
        compute_dashboard(&conn, "2026-12-31", "2026-01-01", GroupBy::Day, "2030-06-01").unwrap_err(),
        StatsError::ReversedRange
    );
    let mut big = DailyWords::new();
    upsert_word_count(&mut big, "2026-01-01", i64::MAX).unwrap();
    upsert_word_count(&mut big, "2026-01-02", i64::MAX).unwrap();
    assert_eq!(
        compute_dashboard(&big, "2026-01-01", "2026-01-31", GroupBy::Day, "2030-06-01").unwrap_err(),
        StatsError::CountOverflow
    );
}

#[test]
fn average_is_rounded_to_tenths() {
    assert_eq!(average_tenths(1000, 4), 2500);
    assert_eq!(average_tenths(10, 3), 33);
    assert_eq!(average_tenths(20, 3), 67);
    assert_eq!(average_tenths(1, 4), 3);
    assert_eq!(average_tenths(-1, 4), -3);
    assert_eq!(average_tenths(5, 0), 0);
}

#[test]
fn empty_table_dashboard_uses_today() {
    let conn = DailyWords::new();
    let d = dashboard_for(
        &conn,
        "2026-01-01",
        "2026-01-31",
        GroupBy::Month,
        Some((2026, 1, 1)),
        Some((2026, 1, 31)),
        "2026-05-04",
    )
    .unwrap();
    assert_eq!(d.data_start, "2026-05-04");
    assert_eq!(d.data_end, "2026-05-04");
    assert_eq!(d.summary.total_all, 0);
    assert_eq!(d.range_start, "2026-01-01");
    assert_eq!(d.group_by, GroupBy::Month);
}

#[test]
fn query_falls_back_to_the_table_range() {
    let q = DashboardQuery {
        start: Some("  ".to_string()),
        end: None,
        group_by: Some("year".to_string()),
    };
    let (s, e, g) = resolve_query(&q, "2026-01-15", "2027-03-01");
    assert_eq!((s.as_str(), e.as_str(), g), ("2026-01-15", "2027-03-01", GroupBy::Year));

    let conn = setup();
    let d = build_dashboard(&conn, &q, "2030-06-01").unwrap();
    assert_eq!(d.summary.total_range, 1500);
    assert_eq!(d.points.len(), 2);

    let q2 = DashboardQuery {
        start: Some("2026-02-01".to_string()),
        end: Some("2026-02-28".to_string()),
        group_by: Some("fortnight".to_string()),
    };
    let d2 = build_dashboard(&conn, &q2, "2030-06-01").unwrap();
    assert_eq!(d2.group_by, GroupBy::Day);
    assert_eq!(d2.summary.total_range, 700);
}

#[test]
fn dashboard_range_is_the_table_range_whatever_today_is() {
    let conn = setup();
    let d = compute_dashboard(&conn, "2026-01-01", "2026-12-31", GroupBy::Day, "1999-01-01").unwrap();
    assert_eq!(d.data_start, "2026-01-15");
    assert_eq!(d.data_end, "2027-03-01");
}

#[test]
fn empty_table_request_covers_today() {
    let conn = DailyWords::new();
    let q = DashboardQuery { start: None, end: None, group_by: None };
    let d = build_dashboard(&conn, &q, "2026-05-04").unwrap();
    assert_eq!(d.data_start, "2026-05-04");
    assert_eq!(d.data_end, "2026-05-04");
    assert_eq!(d.range_start, "2026-05-04");
    assert_eq!(d.range_end, "2026-05-04");
    assert_eq!(d.summary.days, 0);
    assert!(d.points.is_empty());
    let d2 = compute_dashboard(&conn, "2026-01-01", "2026-01-31", GroupBy::Day, "2026-05-04").unwrap();
    assert_eq!((d2.data_start.as_str(), d2.data_end.as_str()), ("2026-05-04", "2026-05-04"));
}
