//! The CSV log that the Rime script appends to (`YYYY-MM-DD,count` per line):
//! reading its lines, summing them per date, and adding the sums to the
//! daily table.

use vstd::prelude::*;
use std::borrow::ToOwned;

use crate::calendar::{iso_date_format, parse_iso_date, parsed_date};
use crate::db::{
    count_on, fits_i64, query_all, rows_view, upsert_rows, upsert_word_count, DailyWords,
};
use crate::number::{parse_i64, parse_i64_spec};
use crate::text::{is_blank, is_blank_str, trim, trim_str};

verus! {

/// The outcome of one pass over the log.
#[derive(Clone, Copy, Debug, PartialEq, Eq, Structural)]
pub struct ProcessReport {
    /// Non-blank lines read.
    pub lines_read: usize,
    /// Lines that could not be parsed and were skipped.
    pub parse_errors: usize,
    /// Dates whose count was written or increased.
    pub dates_updated: usize,
}

impl ProcessReport {
    /// Whether the pass read nothing at all.
    pub fn is_empty(&self) -> (r: bool)
        ensures
            r == (self.lines_read == 0),
    {
        self.lines_read == 0
    }
}

impl Default for ProcessReport {
    fn default() -> (r: Self)
        ensures
            r == (ProcessReport { lines_read: 0, parse_errors: 0, dates_updated: 0 }),
    {
        ProcessReport { lines_read: 0, parse_errors: 0, dates_updated: 0 }
    }
}

/// Why a log line was rejected.
#[derive(Clone, Copy, Debug, PartialEq, Eq, Structural)]
pub enum LogLineError {
    /// The line has no `,` between date and count.
    MissingComma,
    /// The text before the last `,` is not a `YYYY-MM-DD` date.
    InvalidDate,
    /// The text after the last `,` is not an `i64`.
    InvalidCount,
}

/// Why a pass over the log failed.
#[derive(Clone, Copy, Debug, PartialEq, Eq, Structural)]
pub enum ProcessError {
    /// The counts of one date in the log sum beyond the range of `i64`.
    LogCountOverflow,
    /// A date's stored count plus its new words leaves the range of `i64`.
    TableCountOverflow,
}

/// The index of the last `,` in `s`, or -1.
pub open spec fn last_comma(s: Seq<char>) -> int
    decreases s.len(),
{
    if s.len() == 0 {
        -1
    } else if s.last() == ',' {
        s.len() - 1
    } else {
        last_comma(s.drop_last())
    }
}

/// The trimmed date text and count text of a line, split at its last `,`.
pub open spec fn log_fields(line: Seq<char>) -> Option<(Seq<char>, Seq<char>)> {
    let t = trim(line);
    let p = last_comma(t);
    if p < 0 {
        None
    } else {
        Some((trim(t.subrange(0, p)), trim(t.subrange(p + 1, t.len() as int))))
    }
}

/// A line's fields once it is known whether its date text is a date.
pub open spec fn finish_fields_spec(date: Seq<char>, count: Seq<char>, date_ok: bool) -> Result<
    (Seq<char>, i64),
    LogLineError,
> {
    if !date_ok {
        Err(LogLineError::InvalidDate)
    } else {
        match parse_i64_spec(count) {
            None => Err(LogLineError::InvalidCount),
            Some(v) => Ok((date, v)),
        }
    }
}

/// What a log line reads as: its date and its count, or why it is rejected.
pub open spec fn parse_log_line_spec(line: Seq<char>) -> Result<(Seq<char>, i64), LogLineError> {
    match log_fields(line) {
        None => Err(LogLineError::MissingComma),
        Some((d, c)) => finish_fields_spec(d, c, parsed_date(d, iso_date_format()) is Some),
    }
}

pub open spec fn line_result_view(r: Result<(String, i64), LogLineError>) -> Result<
    (Seq<char>, i64),
    LogLineError,
> {
    match r {
        Ok((d, v)) => Ok((d@, v)),
        Err(e) => Err(e),
    }
}

/// Splits a line at its last `,` into trimmed date text and count text.
pub fn split_log_line(line: &str) -> (r: Option<(String, String)>)
    ensures
        r is Some <==> log_fields(line@) is Some,
        r matches Some((d, c)) ==> log_fields(line@) == Some((d@, c@)),
{
    let t = trim_str(line);
    let n = t.unicode_len();
    let mut j: usize = n;
    assert(t@.subrange(0, n as int) =~= t@);
    while j > 0 && t.get_char(j - 1) != ','
        invariant
            j <= n,
            n == t@.len(),
            last_comma(t@) == last_comma(t@.subrange(0, j as int)),
        decreases j,
    {
        assert(t@.subrange(0, j as int).drop_last() =~= t@.subrange(0, j - 1));
        j = j - 1;
    }
    if j == 0 {
        assert(t@.subrange(0, 0).len() == 0);
        return None;
    }
    let p = j - 1;
    assert(t@.subrange(0, j as int).last() == ',');
    assert(last_comma(t@) == p);
    let date = trim_str(t.substring_char(0, p)).to_owned();
    let count = trim_str(t.substring_char(p + 1, n)).to_owned();
    Some((date, count))
}

/// Finishes a line whose date text has been checked: reads the count.
pub fn finish_log_fields(date: String, count: &str, date_ok: bool) -> (r: Result<
    (String, i64),
    LogLineError,
>)
    ensures
        line_result_view(r) == finish_fields_spec(date@, count@, date_ok),
{
    if !date_ok {
        return Err(LogLineError::InvalidDate);
    }
    match parse_i64(count) {
        None => Err(LogLineError::InvalidCount),
        Some(v) => Ok((date, v)),
    }
}

/// Parses one log line, `YYYY-MM-DD,count` with white space allowed around
/// either field, into its date text and count.
pub fn parse_log_line(line: &str) -> (r: Result<(String, i64), LogLineError>)
    ensures
        line_result_view(r) == parse_log_line_spec(line@),
{
    match split_log_line(line) {
        None => Err(LogLineError::MissingComma),
        Some((date, count)) => {
            let date_ok = parse_iso_date(date.as_str()).is_some();
            finish_log_fields(date, count.as_str(), date_ok)
        },
    }
}

// ---------------------------------------------------------------------
// Summing the log per date
// ---------------------------------------------------------------------

/// The view of some lines as texts.
pub open spec fn lines_view(lines: Seq<String>) -> Seq<Seq<char>> {
    lines.map_values(|l: String| l@)
}

/// The number of non-blank lines.
pub open spec fn count_nonblank(lines: Seq<Seq<char>>) -> nat
    decreases lines.len(),
{
    if lines.len() == 0 {
        0
    } else {
        count_nonblank(lines.drop_last()) + if is_blank(lines.last()) {
            0nat
        } else {
            1nat
        }
    }
}

/// Reading the lines in order: blank lines are ignored, lines that do not
/// parse are counted as errors, and each parsed count is added to its date.
/// The result is the number of errors and the per-date sums, or `None` where
/// some date's sum leaves the range of `i64` on the way.
pub open spec fn sum_log_lines(lines: Seq<Seq<char>>) -> Option<(nat, Seq<(Seq<char>, i64)>)>
    decreases lines.len(),
{
    if lines.len() == 0 {
        Some((0, Seq::empty()))
    } else {
        match sum_log_lines(lines.drop_last()) {
            None => None,
            Some((errors, table)) => {
                let l = lines.last();
                if is_blank(l) {
                    Some((errors, table))
                } else {
                    match parse_log_line_spec(l) {
                        Err(_) => Some((errors + 1, table)),
                        Ok((d, c)) => if fits_i64(count_on(table, d) + c) {
                            Some((errors, upsert_rows(table, d, c as int)))
                        } else {
                            None
                        },
                    }
                }
            },
        }
    }
}

/// The lines of a log summed per date.
pub struct LogBatch {
    /// Non-blank lines read.
    pub lines_read: usize,
    /// Non-blank lines that could not be parsed.
    pub parse_errors: usize,
    /// The sum of the counts of each date, one row per date in date order.
    pub totals: DailyWords,
}

/// Sums the counts of the log's lines per date.
///
/// Fails with `LogCountOverflow` exactly where some date's running sum
/// leaves the range of `i64`.
pub fn aggregate_log_lines(lines: &Vec<String>) -> (r: Result<LogBatch, ProcessError>)
    ensures
        r is Ok <==> sum_log_lines(lines_view(lines@)) is Some,
        r is Err ==> r == Err::<LogBatch, ProcessError>(ProcessError::LogCountOverflow),
        r matches Ok(b) ==> {
            &&& b.totals.well_formed()
            &&& b.lines_read == count_nonblank(lines_view(lines@))
            &&& sum_log_lines(lines_view(lines@)) == Some((b.parse_errors as nat, b.totals@))
        },
{
    let ghost ls = lines_view(lines@);
    let n = lines.len();
    let mut totals = DailyWords::new();
    let mut lines_read: usize = 0;
    let mut parse_errors: usize = 0;
    let mut i: usize = 0;
    assert(ls.take(0) =~= Seq::<Seq<char>>::empty());
    while i < n
        invariant
            i <= n,
            n == lines@.len(),
            ls == lines_view(lines@),
            ls.len() == n,
            totals.well_formed(),
            lines_read <= i,
            parse_errors <= i,
            lines_read == count_nonblank(ls.take(i as int)),
            sum_log_lines(ls.take(i as int)) == Some((parse_errors as nat, totals@)),
        decreases n - i,
    {
        let ghost prefix = ls.take(i as int);
        assert(ls.take(i + 1).drop_last() =~= prefix);
        assert(ls.take(i + 1).last() == lines@[i as int]@);
        let line = lines[i].as_str();
        if !is_blank_str(line) {
            lines_read = lines_read + 1;
            match parse_log_line(line) {
                Err(_) => {
                    parse_errors = parse_errors + 1;
                },
                Ok((date, count)) => {
                    match upsert_word_count(&mut totals, date.as_str(), count) {
                        Ok(()) => {},
                        Err(_) => {
                            proof {
                                lemma_sum_log_none_stays(ls, i as int + 1);
                                assert(ls.take(n as int) =~= ls);
                            }
                            return Err(ProcessError::LogCountOverflow);
                        },
                    }
                },
            }
        }
        i = i + 1;
    }
    assert(ls.take(n as int) =~= ls);
    Ok(LogBatch { lines_read, parse_errors, totals })
}

/// Once some prefix of the log overflows, the whole log does.
proof fn lemma_sum_log_none_stays(ls: Seq<Seq<char>>, m: int)
    requires
        0 <= m <= ls.len(),
        sum_log_lines(ls.take(m)) is None,
    ensures
        sum_log_lines(ls) is None,
    decreases ls.len() - m,
{
    if m == ls.len() {
        assert(ls.take(m) =~= ls);
    } else {
        assert(ls.take(m + 1).drop_last() =~= ls.take(m));
        lemma_sum_log_none_stays(ls, m + 1);
    }
}

// ---------------------------------------------------------------------
// Adding the sums to the table
// ---------------------------------------------------------------------

/// The table once each (date, sum) of `totals` is added in turn, or `None`
/// where some date's count would leave the range of `i64`.
pub open spec fn apply_totals_spec(s: Seq<(Seq<char>, i64)>, totals: Seq<(Seq<char>, i64)>) -> Option<
    Seq<(Seq<char>, i64)>,
>
    decreases totals.len(),
{
    if totals.len() == 0 {
        Some(s)
    } else {
        match apply_totals_spec(s, totals.drop_last()) {
            None => None,
            Some(s2) => {
                let d = totals.last().0;
                let c = totals.last().1;
                if fits_i64(count_on(s2, d) + c) {
                    Some(upsert_rows(s2, d, c as int))
                } else {
                    None
                }
            },
        }
    }
}

proof fn lemma_apply_none_stays(s: Seq<(Seq<char>, i64)>, t: Seq<(Seq<char>, i64)>, m: int)
    requires
        0 <= m <= t.len(),
        apply_totals_spec(s, t.take(m)) is None,
    ensures
        apply_totals_spec(s, t) is None,
    decreases t.len() - m,
{
    if m == t.len() {
        assert(t.take(m) =~= t);
    } else {
        assert(t.take(m + 1).drop_last() =~= t.take(m));
        lemma_apply_none_stays(s, t, m + 1);
    }
}

/// Adds each date's sum to the table, all or nothing: where some count would
/// leave the range of `i64`, it fails with `TableCountOverflow` and the
/// table stays as it was. On success it returns the number of dates.
pub fn apply_daily_totals(db: &mut DailyWords, totals: &DailyWords) -> (r: Result<
    usize,
    ProcessError,
>)
    ensures
        final(db).well_formed(),
        r is Ok <==> apply_totals_spec(old(db)@, totals@) is Some,
        r matches Ok(k) ==> k == totals@.len() && Some(final(db)@) == apply_totals_spec(
            old(db)@,
            totals@,
        ),
        r is Err ==> r == Err::<usize, ProcessError>(ProcessError::TableCountOverflow),
        r is Err ==> final(db)@ == old(db)@,
{
    proof {
        use_type_invariant(&*db);
    }
    let ghost t = totals@;
    let ghost s = db@;
    assert(s == old(db)@);
    let entries = query_all(totals);
    let mut work = db.snapshot();
    let n = entries.len();
    let mut i: usize = 0;
    assert(t.take(0) =~= Seq::<(Seq<char>, i64)>::empty());
    while i < n
        invariant
            i <= n,
            n == entries@.len(),
            rows_view(entries@) == t,
            t.len() == n,
            t == totals@,
            s == db@,
            db.well_formed(),
            work.well_formed(),
            apply_totals_spec(s, t.take(i as int)) == Some(work@),
        decreases n - i,
    {
        assert(t.take(i + 1).drop_last() =~= t.take(i as int));
        assert(t.take(i + 1).last() == t[i as int]);
        assert(t[i as int] == (entries@[i as int].0@, entries@[i as int].1));
        match upsert_word_count(&mut work, entries[i].0.as_str(), entries[i].1) {
            Ok(()) => {},
            Err(_) => {
                proof {
                    lemma_apply_none_stays(s, t, i + 1);
                }
                return Err(ProcessError::TableCountOverflow);
            },
        }
        i = i + 1;
    }
    assert(t.take(n as int) =~= t);
    *db = work;
    Ok(n)
}

/// The whole pass over the log's lines: sums them per date and adds the
/// sums to the table. Where the log has no non-blank line, the table is not
/// touched and the report is empty. On any failure the table stays as it
/// was.
pub fn process_lines(db: &mut DailyWords, lines: &Vec<String>) -> (r: Result<
    ProcessReport,
    ProcessError,
>)
    ensures
        final(db).well_formed(),
        r is Err ==> final(db)@ == old(db)@,
        match sum_log_lines(lines_view(lines@)) {
            None => r == Err::<ProcessReport, ProcessError>(ProcessError::LogCountOverflow),
            Some((errors, sums)) => if count_nonblank(lines_view(lines@)) == 0 {
                r == Ok::<ProcessReport, ProcessError>(
                    ProcessReport { lines_read: 0, parse_errors: 0, dates_updated: 0 },
                ) && final(db)@ == old(db)@
            } else {
                match apply_totals_spec(old(db)@, sums) {
                    None => r == Err::<ProcessReport, ProcessError>(
                        ProcessError::TableCountOverflow,
                    ),
                    Some(s2) => final(db)@ == s2 && r == Ok::<ProcessReport, ProcessError>(
                        ProcessReport {
                            lines_read: count_nonblank(lines_view(lines@)) as usize,
                            parse_errors: errors as usize,
                            dates_updated: sums.len() as usize,
                        },
                    ),
                }
            },
        },
{
    proof {
        use_type_invariant(&*db);
    }
    let batch = match aggregate_log_lines(lines) {
        Ok(b) => b,
        Err(e) => {
            return Err(e);
        },
    };
    if batch.lines_read == 0 {
        return Ok(ProcessReport::default());
    }
    let updated = match apply_daily_totals(db, &batch.totals) {
        Ok(k) => k,
        Err(e) => {
            return Err(e);
        },
    };
    Ok(ProcessReport {
        lines_read: batch.lines_read,
        parse_errors: batch.parse_errors,
        dates_updated: updated,
    })
}

// ---------------------------------------------------------------------
// Laws of a pass over the log
// ---------------------------------------------------------------------

/// The words the log's lines give date `d`: the counts of the non-blank lines
/// that parse and carry date `d`.
pub open spec fn log_date_total(lines: Seq<Seq<char>>, d: Seq<char>) -> int
    decreases lines.len(),
{
    if lines.len() == 0 {
        0
    } else {
        log_date_total(lines.drop_last(), d) + {
            let l = lines.last();
            if is_blank(l) {
                0
            } else {
                match parse_log_line_spec(l) {
                    Ok((ld, c)) => if ld == d {
                        c as int
                    } else {
                        0
                    },
                    Err(_) => 0,
                }
            }
        }
    }
}

/// The non-blank lines that do not parse.
pub open spec fn log_error_count(lines: Seq<Seq<char>>) -> nat
    decreases lines.len(),
{
    if lines.len() == 0 {
        0
    } else {
        log_error_count(lines.drop_last()) + if !is_blank(lines.last())
            && parse_log_line_spec(lines.last()) is Err {
            1nat
        } else {
            0nat
        }
    }
}

/// Summing the log gives, per date, the words of that date's lines, and
/// counts each non-blank line that does not parse as one error.
pub proof fn law_log_sums_per_date(lines: Seq<Seq<char>>, errors: nat, sums: Seq<(Seq<char>, i64)>)
    requires
        sum_log_lines(lines) == Some((errors, sums)),
    ensures
        crate::db::rows_sorted(sums),
        errors == log_error_count(lines),
        forall|d: Seq<char>| #[trigger] count_on(sums, d) == log_date_total(lines, d),
    decreases lines.len(),
{
    if lines.len() == 0 {
        assert forall|d: Seq<char>| #[trigger] count_on(sums, d) == log_date_total(lines, d) by {
            crate::db::lemma_count_on_absent(sums, d);
        }
    } else {
        let t = lines.drop_last();
        let (e0, s0) = sum_log_lines(t).unwrap();
        law_log_sums_per_date(t, e0, s0);
        let l = lines.last();
        if !is_blank(l) {
            if let Ok((ld, c)) = parse_log_line_spec(l) {
                assert forall|d: Seq<char>| #[trigger] count_on(sums, d) == log_date_total(
                    lines,
                    d,
                ) by {
                    crate::db::law_upsert_accumulates(s0, ld, c as int, d);
                }
                crate::db::law_upsert_accumulates(s0, ld, c as int, ld);
            }
        }
    }
}

/// The count of a date in a sorted table, split off at its last row.
proof fn lemma_count_on_drop_last(t: Seq<(Seq<char>, i64)>, d: Seq<char>)
    requires
        crate::db::rows_sorted(t),
        t.len() > 0,
    ensures
        count_on(t, d) == count_on(t.drop_last(), d) + if d == t.last().0 {
            t.last().1 as int
        } else {
            0
        },
{
    let u = t.drop_last();
    let last = t.len() - 1;
    assert(crate::db::rows_sorted(u)) by {
        assert forall|i: int, j: int| 0 <= i < j < u.len() implies crate::text::lex_lt(
            #[trigger] u[i].0,
            #[trigger] u[j].0,
        ) by {
            assert(u[i] == t[i] && u[j] == t[j]);
        }
    }
    if crate::db::has_row(t, d) {
        let i = choose|i: int| 0 <= i < t.len() && #[trigger] t[i].0 == d;
        crate::db::lemma_count_on_row(t, i);
        if i < last {
            assert(u[i] == t[i]);
            crate::db::lemma_count_on_row(u, i);
            assert(crate::text::lex_lt(t[i].0, t[last].0));
            crate::text::lemma_lex_irreflexive(d);
        } else {
            assert(!crate::db::has_row(u, d)) by {
                if crate::db::has_row(u, d) {
                    let j = choose|j: int| 0 <= j < u.len() && #[trigger] u[j].0 == d;
                    assert(u[j] == t[j]);
                    assert(crate::text::lex_lt(t[j].0, t[last].0));
                    crate::text::lemma_lex_irreflexive(d);
                }
            }
            crate::db::lemma_count_on_absent(u, d);
        }
    } else {
        crate::db::lemma_count_on_absent(t, d);
        assert(!crate::db::has_row(u, d)) by {
            if crate::db::has_row(u, d) {
                let j = choose|j: int| 0 <= j < u.len() && #[trigger] u[j].0 == d;
                assert(u[j] == t[j]);
            }
        }
        crate::db::lemma_count_on_absent(u, d);
        assert(t[last].0 != d);
    }
}

/// Adding a table of sums to a table adds, per date, the date's sum.
pub proof fn law_apply_adds_sums(
    s: Seq<(Seq<char>, i64)>,
    sums: Seq<(Seq<char>, i64)>,
    s2: Seq<(Seq<char>, i64)>,
)
    requires
        crate::db::rows_sorted(s),
        crate::db::rows_sorted(sums),
        apply_totals_spec(s, sums) == Some(s2),
    ensures
        crate::db::rows_sorted(s2),
        forall|d: Seq<char>| #[trigger] count_on(s2, d) == count_on(s, d) + count_on(sums, d),
    decreases sums.len(),
{
    if sums.len() == 0 {
        assert forall|d: Seq<char>| #[trigger] count_on(s2, d) == count_on(s, d) + count_on(
            sums,
            d,
        ) by {
            crate::db::lemma_count_on_absent(sums, d);
        }
    } else {
        let u = sums.drop_last();
        assert(crate::db::rows_sorted(u)) by {
            assert forall|i: int, j: int| 0 <= i < j < u.len() implies crate::text::lex_lt(
                #[trigger] u[i].0,
                #[trigger] u[j].0,
            ) by {
                assert(u[i] == sums[i] && u[j] == sums[j]);
            }
        }
        let s1 = apply_totals_spec(s, u).unwrap();
        law_apply_adds_sums(s, u, s1);
        let x = sums.last();
        assert forall|d: Seq<char>| #[trigger] count_on(s2, d) == count_on(s, d) + count_on(
            sums,
            d,
        ) by {
            crate::db::law_upsert_accumulates(s1, x.0, x.1 as int, d);
            lemma_count_on_drop_last(sums, d);
        }
        crate::db::law_upsert_accumulates(s1, x.0, x.1 as int, x.0);
    }
}

/// A pass over the log adds to each date exactly the words of that date's
/// lines: imports accumulate and never overwrite.
pub proof fn law_process_adds_log_totals(
    s: Seq<(Seq<char>, i64)>,
    lines: Seq<Seq<char>>,
    errors: nat,
    sums: Seq<(Seq<char>, i64)>,
    s2: Seq<(Seq<char>, i64)>,
)
    requires
        crate::db::rows_sorted(s),
        sum_log_lines(lines) == Some((errors, sums)),
        apply_totals_spec(s, sums) == Some(s2),
    ensures
        forall|d: Seq<char>| #[trigger] count_on(s2, d) == count_on(s, d) + log_date_total(lines, d),
{
    law_log_sums_per_date(lines, errors, sums);
    law_apply_adds_sums(s, sums, s2);
}

} // verus!
