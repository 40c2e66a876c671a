use rime_word_counter::db::{
    count_days_in_range, query_all, query_date_range, query_grouped,
    query_total_words, upsert_word_count, word_count_on, DailyWords, DbError,
};
use rime_word_counter::GroupBy;

fn setup_test_db() -> DailyWords {
    DailyWords::new()
}

fn seed_test_data(conn: &mut DailyWords) {
    let data = vec![
        ("2026-01-15", 100),
        ("2026-01-20", 200),
        ("2026-02-10", 300),
        ("2026-02-15", 400),
        ("2027-03-01", 500),
    ];
    for (date, count) in data {
        upsert_word_count(conn, date, count).unwrap();
    }
}

#[test]
fn test_upsert_new_record() {
    let mut conn = setup_test_db();
    upsert_word_count(&mut conn, "2026-07-29", 100).unwrap();
    let data = query_all(&conn);
    assert_eq!(data.len(), 1);
    assert_eq!(data[0], ("2026-07-29".to_string(), 100));
}

#[test]
fn test_upsert_accumulate() {
    let mut conn = setup_test_db();
    upsert_word_count(&mut conn, "2026-07-29", 100).unwrap();
    upsert_word_count(&mut conn, "2026-07-29", 50).unwrap();
    let data = query_all(&conn);
    assert_eq!(data.len(), 1);
    assert_eq!(data[0], ("2026-07-29".to_string(), 150));
}

#[test]
fn test_query_all_ordered() {
    let mut conn = setup_test_db();
    upsert_word_count(&mut conn, "2026-07-30", 300).unwrap();
    upsert_word_count(&mut conn, "2026-07-28", 200).unwrap();
    upsert_word_count(&mut conn, "2026-07-29", 100).unwrap();
    let data = query_all(&conn);
    assert_eq!(data.len(), 3);
    assert_eq!(data[0].0, "2026-07-28");
    assert_eq!(data[1].0, "2026-07-29");
    assert_eq!(data[2].0, "2026-07-30");
}

#[test]
fn test_query_grouped_by_day() {
    let mut conn = setup_test_db();
    seed_test_data(&mut conn);
    let data = query_grouped(&conn, "2026-01-01", "2026-12-31", GroupBy::Day).unwrap();
    // Should return all 2026 entries in day granularity
    assert_eq!(data.len(), 4);
    assert_eq!(data[0], ("2026-01-15".to_string(), 100));
    assert_eq!(data[3], ("2026-02-15".to_string(), 400));
}

#[test]
fn test_query_grouped_by_month() {
    let mut conn = setup_test_db();
    seed_test_data(&mut conn);
    let data = query_grouped(&conn, "2026-01-01", "2026-12-31", GroupBy::Month).unwrap();
    assert_eq!(data.len(), 2);
    assert_eq!(data[0], ("2026-01".to_string(), 300)); // 100 + 200
    assert_eq!(data[1], ("2026-02".to_string(), 700)); // 300 + 400
}

#[test]
fn test_query_grouped_by_year() {
    let mut conn = setup_test_db();
    seed_test_data(&mut conn);
    let data = query_grouped(&conn, "2026-01-01", "2027-12-31", GroupBy::Year).unwrap();
    assert_eq!(data.len(), 2);
    assert_eq!(data[0], ("2026".to_string(), 1000));
    assert_eq!(data[1], ("2027".to_string(), 500));
}

#[test]
fn test_query_total_words() {
    let mut conn = setup_test_db();
    seed_test_data(&mut conn);
    let total = query_total_words(&conn).unwrap();
    assert_eq!(total, 1500);
}

#[test]
fn test_query_date_range() {
    let mut conn = setup_test_db();
    seed_test_data(&mut conn);
    let (start, end) = query_date_range(&conn, "2030-06-01");
    assert_eq!(start, "2026-01-15");
    assert_eq!(end, "2027-03-01");
}

#[test]
fn upsert_overflow_is_refused_and_leaves_the_row() {
    let mut conn = setup_test_db();
    upsert_word_count(&mut conn, "2026-07-29", i64::MAX).unwrap();
    assert_eq!(upsert_word_count(&mut conn, "2026-07-29", 1), Err(DbError::CountOverflow));
    assert_eq!(query_all(&conn), vec![("2026-07-29".to_string(), i64::MAX)]);
    upsert_word_count(&mut conn, "2026-07-29", -5).unwrap();
    assert_eq!(word_count_on(&conn, "2026-07-29"), Some(i64::MAX - 5));
}

#[test]
fn grouped_range_bounds_are_inclusive() {
    let mut conn = setup_test_db();
    seed_test_data(&mut conn);
    let data = query_grouped(&conn, "2026-01-20", "2026-02-10", GroupBy::Day).unwrap();
    assert_eq!(
        data,
        vec![("2026-01-20".to_string(), 200), ("2026-02-10".to_string(), 300)]
    );
    assert_eq!(count_days_in_range(&conn, "2026-01-20", "2026-02-10"), 2);
    assert_eq!(count_days_in_range(&conn, "2025-01-01", "2025-12-31"), 0);
}

#[test]
fn grouped_total_overflow_is_an_error() {
    let mut conn = setup_test_db();
    upsert_word_count(&mut conn, "2026-01-01", i64::MAX).unwrap();
    upsert_word_count(&mut conn, "2026-01-02", 1).unwrap();
    assert!(query_grouped(&conn, "2026-01-01", "2026-12-31", GroupBy::Day).is_ok());
    assert_eq!(
        query_grouped(&conn, "2026-01-01", "2026-12-31", GroupBy::Month),
        Err(DbError::CountOverflow)
    );
    assert_eq!(query_total_words(&conn), Err(DbError::CountOverflow));
    // a negative count brings the sum back into range
    upsert_word_count(&mut conn, "2026-01-03", -10).unwrap();
    assert_eq!(
        query_grouped(&conn, "2026-01-01", "2026-12-31", GroupBy::Year).unwrap(),
        vec![("2026".to_string(), i64::MAX - 9)]
    );
}

#[test]
fn empty_table_range_falls_back_to_today() {
    let conn = setup_test_db();
    let (start, end) = query_date_range(&conn, "2026-05-01");
    assert_eq!((start.as_str(), end.as_str()), ("2026-05-01", "2026-05-01"));
    assert_eq!(query_total_words(&conn), Ok(0));
    assert!(query_all(&conn).is_empty());
    assert!(conn.is_empty());
}

#[test]
fn group_codes_round_trip() {
    for g in [GroupBy::Day, GroupBy::Month, GroupBy::Year] {
        assert_eq!(GroupBy::from_code(g.code()), g);
    }
    assert_eq!(GroupBy::from_code("week"), GroupBy::Day);
    assert_eq!(GroupBy::from_code("Month"), GroupBy::Day);
}

#[test]
fn table_from_rows_requires_strict_date_order() {
    let ok = DailyWords::from_rows(vec![
        ("2026-01-01".to_string(), 1),
        ("2026-01-02".to_string(), 2),
    ])
    .unwrap();
    assert_eq!(query_all(&ok).len(), 2);
    assert!(DailyWords::from_rows(vec![
        ("2026-01-02".to_string(), 1),
        ("2026-01-01".to_string(), 2),
    ])
    .is_none());
    assert!(DailyWords::from_rows(vec![
        ("2026-01-01".to_string(), 1),
        ("2026-01-01".to_string(), 2),
    ])
    .is_none());
    assert!(DailyWords::from_rows(Vec::new()).is_some());
}
