use rime_word_counter::db::{query_all, upsert_word_count, DailyWords};
use rime_word_counter::log_processor::{
    aggregate_log_lines, apply_daily_totals, parse_log_line, process_lines, split_log_line,
    LogLineError, ProcessError, ProcessReport,
};

fn lines(v: &[&str]) -> Vec<String> {
    v.iter().map(|s| s.to_string()).collect()
}

#[test]
fn test_parse_valid_line() {
    let (date, count) = parse_log_line("2026-07-29,5").unwrap();
    assert_eq!(date, "2026-07-29");
    assert_eq!(count, 5);
}

#[test]
fn test_parse_line_with_spaces() {
    let (date, count) = parse_log_line("  2026-07-29  ,  42  ").unwrap();
    assert_eq!(date, "2026-07-29");
    assert_eq!(count, 42);
}

#[test]
fn test_parse_invalid_date() {
    assert!(parse_log_line("2026-13-01,5").is_err());
}

#[test]
fn test_parse_missing_comma() {
    assert!(parse_log_line("20260729").is_err());
}

#[test]
fn test_parse_non_numeric_count() {
    assert!(parse_log_line("2026-07-29,abc").is_err());
}

#[test]
fn parse_errors_name_their_cause() {
    assert_eq!(parse_log_line("20260729"), Err(LogLineError::MissingComma));
    assert_eq!(parse_log_line("2026-13-01,5"), Err(LogLineError::InvalidDate));
    assert_eq!(parse_log_line("2026-07-29,abc"), Err(LogLineError::InvalidCount));
    assert_eq!(parse_log_line("2026-07-29,"), Err(LogLineError::InvalidCount));
    assert_eq!(parse_log_line("2026-07-29,99999999999999999999"), Err(LogLineError::InvalidCount));
    assert_eq!(parse_log_line("2026-07-29,-3"), Ok(("2026-07-29".to_string(), -3)));
    assert_eq!(parse_log_line("2026-07-29,+3"), Ok(("2026-07-29".to_string(), 3)));
}

#[test]
fn split_uses_the_last_comma() {
    assert_eq!(
        split_log_line(" a,b , 7 "),
        Some(("a,b".to_string(), "7".to_string()))
    );
    assert_eq!(parse_log_line("2026-07-29,1,2"), Err(LogLineError::InvalidDate));
    assert_eq!(split_log_line("no comma"), None);
}

#[test]
fn process_lines_sums_per_date_and_reports() {
    // one date on its own, one date written twice
    let mut db = DailyWords::new();
    let report =
        process_lines(&mut db, &lines(&["2026-07-28,100", "2026-07-29,200", "2026-07-29,50"]))
            .unwrap();
    assert_eq!(report.lines_read, 3);
    assert_eq!(report.parse_errors, 0);
    assert_eq!(report.dates_updated, 2);
    assert!(!report.is_empty());
    let data = query_all(&db);
    assert_eq!(data.len(), 2);
    assert_eq!(data[0], ("2026-07-28".to_string(), 100));
    assert_eq!(data[1], ("2026-07-29".to_string(), 250));
}

#[test]
fn process_lines_counts_parse_errors() {
    let mut db = DailyWords::new();
    let report = process_lines(
        &mut db,
        &lines(&["2026-07-28,100", "garbage-line", "2026-07-29,not-a-number"]),
    )
    .unwrap();
    assert_eq!(report.lines_read, 3);
    assert_eq!(report.parse_errors, 2);
    assert_eq!(report.dates_updated, 1);
}

#[test]
fn process_lines_without_content_is_a_noop() {
    let mut db = DailyWords::new();
    upsert_word_count(&mut db, "2026-01-01", 7).unwrap();
    let report = process_lines(&mut db, &lines(&["", "   ", "\t"])).unwrap();
    assert!(report.is_empty());
    assert_eq!(report, ProcessReport::default());
    assert_eq!(query_all(&db), vec![("2026-01-01".to_string(), 7)]);
}

#[test]
fn repeated_imports_accumulate() {
    let mut db = DailyWords::new();
    process_lines(&mut db, &lines(&["2026-07-29,10"])).unwrap();
    process_lines(&mut db, &lines(&["2026-07-29,5", "2026-07-30,1"])).unwrap();
    assert_eq!(
        query_all(&db),
        vec![("2026-07-29".to_string(), 15), ("2026-07-30".to_string(), 1)]
    );
}

#[test]
fn overflow_in_the_log_is_reported() {
    let max = i64::MAX.to_string();
    let l1 = format!("2026-07-29,{max}");
    let batch = aggregate_log_lines(&lines(&[l1.as_str(), "2026-07-29,1"]));
    assert!(matches!(batch, Err(ProcessError::LogCountOverflow)));
    let mut db = DailyWords::new();
    let r = process_lines(&mut db, &lines(&[l1.as_str(), "2026-07-29,1"]));
    assert_eq!(r, Err(ProcessError::LogCountOverflow));
    assert!(query_all(&db).is_empty());
}

#[test]
fn overflow_in_the_table_leaves_it_unchanged() {
    let mut db = DailyWords::new();
    upsert_word_count(&mut db, "2026-07-30", i64::MAX).unwrap();
    let before = query_all(&db);
    let r = process_lines(&mut db, &lines(&["2026-07-29,3", "2026-07-30,1"]));
    assert_eq!(r, Err(ProcessError::TableCountOverflow));
    assert_eq!(query_all(&db), before);
}

#[test]
fn batch_then_apply_matches_the_log() {
    let batch =
        aggregate_log_lines(&lines(&["2026-07-30,3", "", "2026-07-29,4", "x", "2026-07-30,2"]))
            .unwrap();
    assert_eq!(batch.lines_read, 4);
    assert_eq!(batch.parse_errors, 1);
    assert_eq!(
        query_all(&batch.totals),
        vec![("2026-07-29".to_string(), 4), ("2026-07-30".to_string(), 5)]
    );
    let mut db = DailyWords::new();
    upsert_word_count(&mut db, "2026-07-29", 10).unwrap();
    assert_eq!(apply_daily_totals(&mut db, &batch.totals), Ok(2));
    assert_eq!(
        query_all(&db),
        vec![("2026-07-29".to_string(), 14), ("2026-07-30".to_string(), 5)]
    );
}
