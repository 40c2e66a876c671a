//! The `daily_words` table: one word count per date, kept in date order.
//!
//! The table is held as plain rows (`date`, `word_count`); persisting it is
//! the job of the program around the library. Dates compare as SQLite
//! compares `TEXT`: code point by code point.

use vstd::prelude::*;
use std::borrow::ToOwned;

use crate::text::{
    compare_text, lemma_lex_asymmetric, lemma_lex_irreflexive, lemma_lex_total,
    lemma_lex_transitive, lemma_prefix_keeps_order, lex_le, lex_lt, prefix_of_len, LexOrder,
};

verus! {

/// Grouping granularity of a query.
#[derive(Clone, Copy, PartialEq, Eq, Debug, Structural)]
pub enum GroupBy {
    /// One group per day (`YYYY-MM-DD`).
    Day,
    /// One group per month (`YYYY-MM`).
    Month,
    /// One group per year (`YYYY`).
    Year,
}

/// The code of a granularity in queries from the front end.
pub open spec fn group_code(g: GroupBy) -> Seq<char> {
    match g {
        GroupBy::Day => seq!['d', 'a', 'y'],
        GroupBy::Month => seq!['m', 'o', 'n', 't', 'h'],
        GroupBy::Year => seq!['y', 'e', 'a', 'r'],
    }
}

/// Reads a granularity code; anything unknown means `Day`.
pub open spec fn group_from_code(c: Seq<char>) -> GroupBy {
    if c == group_code(GroupBy::Month) {
        GroupBy::Month
    } else if c == group_code(GroupBy::Year) {
        GroupBy::Year
    } else {
        GroupBy::Day
    }
}

impl GroupBy {
    /// `day`, `month` or `year`.
    pub fn code(self) -> (r: &'static str)
        ensures
            r@ == group_code(self),
    {
        match self {
            GroupBy::Day => {
                proof {
                    reveal_strlit("day");
                }
                "day"
            },
            GroupBy::Month => {
                proof {
                    reveal_strlit("month");
                }
                "month"
            },
            GroupBy::Year => {
                proof {
                    reveal_strlit("year");
                }
                "year"
            },
        }
    }

    /// The granularity named by `code`; unknown codes fall back to `Day`.
    pub fn from_code(code: &str) -> (r: GroupBy)
        ensures
            r == group_from_code(code@),
    {
        let month = "month";
        let year = "year";
        proof {
            reveal_strlit("month");
            reveal_strlit("year");
        }
        assert(month@ =~= group_code(GroupBy::Month));
        assert(year@ =~= group_code(GroupBy::Year));
        if compare_text(code, month) == LexOrder::Same {
            GroupBy::Month
        } else if compare_text(code, year) == LexOrder::Same {
            GroupBy::Year
        } else {
            GroupBy::Day
        }
    }
}

/// Reading back the code of a granularity gives the same granularity.
pub proof fn law_group_code_round_trip(g: GroupBy)
    ensures
        group_from_code(group_code(g)) == g,
{
    assert(group_code(GroupBy::Day) != group_code(GroupBy::Month));
    assert(group_code(GroupBy::Day) != group_code(GroupBy::Year));
    assert(group_code(GroupBy::Year) != group_code(GroupBy::Month));
}

/// The label of the group a date falls in (SQLite's `substr(date, 1, n)`).
pub open spec fn group_key(date: Seq<char>, g: GroupBy) -> Seq<char> {
    match g {
        GroupBy::Day => date,
        GroupBy::Month => prefix_of_len(date, 7),
        GroupBy::Year => prefix_of_len(date, 4),
    }
}

/// Rows strictly increasing by date: no date occurs twice.
pub open spec fn rows_sorted(s: Seq<(Seq<char>, i64)>) -> bool {
    forall|i: int, j: int| 0 <= i < j < s.len() ==> lex_lt(#[trigger] s[i].0, #[trigger] s[j].0)
}

pub open spec fn rows_view(v: Seq<(String, i64)>) -> Seq<(Seq<char>, i64)> {
    v.map_values(|r: (String, i64)| (r.0@, r.1))
}

/// Why a table operation failed.
#[derive(Clone, Copy, PartialEq, Eq, Debug, Structural)]
pub enum DbError {
    /// A word count or a sum of word counts left the range of `i64`.
    CountOverflow,
}

pub open spec fn fits_i64(v: int) -> bool {
    i64::MIN <= v <= i64::MAX
}

/// The daily word counts: rows of (`date`, `word_count`), one per date, in
/// ascending date order.
pub struct DailyWords {
    rows: Vec<(String, i64)>,
}

impl View for DailyWords {
    type V = Seq<(Seq<char>, i64)>;

    closed spec fn view(&self) -> Seq<(Seq<char>, i64)> {
        rows_view(self.rows@)
    }
}

// ---------------------------------------------------------------------
// Where a date goes
// ---------------------------------------------------------------------

/// `p` splits the rows into those dated before `d` and the rest.
pub open spec fn is_insert_pos(s: Seq<(Seq<char>, i64)>, d: Seq<char>, p: int) -> bool {
    &&& 0 <= p <= s.len()
    &&& forall|i: int| 0 <= i < p ==> lex_lt(#[trigger] s[i].0, d)
    &&& forall|i: int| p <= i < s.len() ==> !lex_lt(#[trigger] s[i].0, d)
}

/// The index at which the row of `d` stands or would stand.
pub open spec fn insert_pos(s: Seq<(Seq<char>, i64)>, d: Seq<char>) -> int {
    choose|p: int| is_insert_pos(s, d, p)
}

/// The count the table holds for `d` (0 where it has no row for `d`).
pub open spec fn count_on(s: Seq<(Seq<char>, i64)>, d: Seq<char>) -> int {
    let p = insert_pos(s, d);
    if 0 <= p < s.len() && s[p].0 == d {
        s[p].1 as int
    } else {
        0
    }
}

/// The rows once `c` words are added to date `d`: the row of `d` is
/// increased, or a new row is put in its place in date order.
pub open spec fn upsert_rows(s: Seq<(Seq<char>, i64)>, d: Seq<char>, c: int) -> Seq<
    (Seq<char>, i64),
> {
    let p = insert_pos(s, d);
    if 0 <= p < s.len() && s[p].0 == d {
        s.update(p, (d, (s[p].1 + c) as i64))
    } else {
        s.insert(p, (d, c as i64))
    }
}

pub proof fn lemma_insert_pos_unique(s: Seq<(Seq<char>, i64)>, d: Seq<char>, p: int, q: int)
    requires
        is_insert_pos(s, d, p),
        is_insert_pos(s, d, q),
    ensures
        p == q,
{
    if p < q {
        assert(lex_lt(s[p].0, d));
    } else if q < p {
        assert(lex_lt(s[q].0, d));
    }
}

/// In sorted rows the split point exists and is `insert_pos`.
pub proof fn lemma_insert_pos_is(s: Seq<(Seq<char>, i64)>, d: Seq<char>, p: int)
    requires
        is_insert_pos(s, d, p),
    ensures
        insert_pos(s, d) == p,
{
    let q = insert_pos(s, d);
    lemma_insert_pos_unique(s, d, p, q);
}

impl DailyWords {
    /// The table is well formed: rows strictly increasing by date. Every
    /// table is, so this is the type's invariant.
    #[verifier::type_invariant]
    pub open spec fn well_formed(&self) -> bool {
        rows_sorted(self@)
    }

    /// An empty table.
    pub fn new() -> (r: Self)
        ensures
            r@ == Seq::<(Seq<char>, i64)>::empty(),
            r.well_formed(),
    {
        let r = DailyWords { rows: Vec::new() };
        assert(r@ =~= Seq::<(Seq<char>, i64)>::empty());
        r
    }

    /// The table has no row.
    pub fn is_empty(&self) -> (r: bool)
        ensures
            r == (self@.len() == 0),
    {
        self.rows.len() == 0
    }

    /// The table holding `rows`, where they are strictly increasing by date
    /// (as `SELECT date, word_count FROM daily_words ORDER BY date` gives
    /// them); `None` where they are not.
    pub fn from_rows(rows: Vec<(String, i64)>) -> (r: Option<Self>)
        ensures
            r is Some <==> rows_sorted(rows_view(rows@)),
            r matches Some(t) ==> t@ == rows_view(rows@) && t.well_formed(),
    {
        let ghost v = rows_view(rows@);
        let n = rows.len();
        let mut i: usize = 1;
        if n == 0 {
            assert(rows_sorted(rows_view(rows@)));
            return Some(DailyWords { rows });
        }
        while i < n
            invariant
                1 <= i <= n,
                n == rows@.len(),
                v == rows_view(rows@),
                forall|a: int, b: int| 0 <= a < b < i ==> lex_lt(#[trigger] v[a].0, #[trigger] v[b].0),
            decreases n - i,
        {
            if compare_text(rows[i - 1].0.as_str(), rows[i].0.as_str()) != LexOrder::Before {
                assert(!lex_lt(v[i - 1].0, v[i as int].0));
                return None;
            }
            assert forall|a: int, b: int| 0 <= a < b < i + 1 implies lex_lt(
                #[trigger] v[a].0,
                #[trigger] v[b].0,
            ) by {
                if b == i && a < i - 1 {
                    lemma_lex_transitive(v[a].0, v[i - 1].0, v[b].0);
                }
            }
            i = i + 1;
        }
        Some(DailyWords { rows })
    }

    /// A copy of the table.
    pub fn snapshot(&self) -> (r: Self)
        ensures
            r@ == self@,
    {
        proof {
            use_type_invariant(self);
        }
        let rows = query_all(self);
        DailyWords { rows }
    }

    /// Finds where the row of `date` stands or would stand.
    fn find_pos(&self, date: &str) -> (p: usize)
        requires
            self.well_formed(),
        ensures
            is_insert_pos(self@, date@, p as int),
            p == insert_pos(self@, date@),
    {
        let n = self.rows.len();
        let mut p: usize = 0;
        while p < n && compare_text(self.rows[p].0.as_str(), date) == LexOrder::Before
            invariant
                p <= n,
                n == self.rows@.len(),
                self@.len() == n,
                forall|i: int| 0 <= i < self@.len() ==> #[trigger] self@[i] == (
                    self.rows@[i].0@,
                    self.rows@[i].1,
                ),
                forall|i: int| 0 <= i < p ==> lex_lt(#[trigger] self@[i].0, date@),
            decreases n - p,
        {
            p = p + 1;
        }
        let ghost s = self@;
        assert forall|i: int| p <= i < s.len() implies !lex_lt(#[trigger] s[i].0, date@) by {
            assert(!lex_lt(s[p as int].0, date@));
            if i > p && lex_lt(s[i].0, date@) {
                lemma_lex_transitive(s[p as int].0, s[i].0, date@);
            }
        }
        proof {
            lemma_insert_pos_is(s, date@, p as int);
        }
        p
    }
}

/// Adds `count` words to `date`: a new date gets a row, an existing one is
/// increased, so that imports of the same day accumulate.
///
/// Fails with `CountOverflow`, leaving the table as it was, where the new
/// count would leave the range of `i64`.
pub fn upsert_word_count(db: &mut DailyWords, date: &str, count: i64) -> (r: Result<(), DbError>)
    ensures
        final(db).well_formed(),
        r is Ok <==> fits_i64(count_on(old(db)@, date@) + count),
        r is Ok ==> final(db)@ == upsert_rows(old(db)@, date@, count as int),
        r is Err ==> r == Err::<(), DbError>(DbError::CountOverflow) && final(db)@ == old(db)@,
{
    proof {
        use_type_invariant(&*db);
    }
    let p = db.find_pos(date);
    let ghost s = db@;
    proof {
        lemma_upsert_sorted(s, date@, count as int);
    }
    let n = db.rows.len();
    if p < n && compare_text(db.rows[p].0.as_str(), date) == LexOrder::Same {
        let current = db.rows[p].1;
        match current.checked_add(count) {
            Some(v) => {
                let key = db.rows[p].0.clone();
                let mut rows: Vec<(String, i64)> = Vec::new();
                std::mem::swap(&mut rows, &mut db.rows);
                rows.set(p, (key, v));
                assert(rows_view(rows@) =~= s.update(p as int, (date@, v)));
                db.rows = rows;
                Ok(())
            },
            None => Err(DbError::CountOverflow),
        }
    } else {
        assert(p < n ==> s[p as int].0 != date@);
        let mut rows: Vec<(String, i64)> = Vec::new();
        std::mem::swap(&mut rows, &mut db.rows);
        rows.insert(p, (date.to_owned(), count));
        assert(rows_view(rows@) =~= s.insert(p as int, (date@, count)));
        db.rows = rows;
        Ok(())
    }
}

/// All rows, in ascending date order.
pub fn query_all(db: &DailyWords) -> (r: Vec<(String, i64)>)
    ensures
        rows_view(r@) == db@,
{
    let n = db.rows.len();
    let mut out: Vec<(String, i64)> = Vec::new();
    let mut i: usize = 0;
    while i < n
        invariant
            i <= n,
            n == db.rows@.len(),
            rows_view(out@) =~= db@.take(i as int),
        decreases n - i,
    {
        let key = db.rows[i].0.clone();
        let ghost before = out@;
        out.push((key, db.rows[i].1));
        assert(rows_view(out@) =~= rows_view(before).push(db@[i as int]));
        assert(db@.take(i + 1) =~= db@.take(i as int).push(db@[i as int]));
        i = i + 1;
    }
    assert(db@.take(n as int) =~= db@);
    out
}

// ---------------------------------------------------------------------
// Queries over a date range
// ---------------------------------------------------------------------

/// `start <= d <= end` in date order, both ends included.
pub open spec fn in_date_range(d: Seq<char>, start: Seq<char>, end: Seq<char>) -> bool {
    lex_le(start, d) && lex_le(d, end)
}

/// The rows dated within `[start, end]`, in their order.
pub open spec fn rows_in_range(s: Seq<(Seq<char>, i64)>, start: Seq<char>, end: Seq<char>) -> Seq<
    (Seq<char>, i64),
>
    decreases s.len(),
{
    if s.len() == 0 {
        s
    } else {
        let earlier = rows_in_range(s.drop_last(), start, end);
        if in_date_range(s.last().0, start, end) {
            earlier.push(s.last())
        } else {
            earlier
        }
    }
}

/// The sum of the word counts of some rows.
pub open spec fn sum_counts(s: Seq<(Seq<char>, i64)>) -> int
    decreases s.len(),
{
    if s.len() == 0 {
        0
    } else {
        sum_counts(s.drop_last()) + s.last().1
    }
}

/// One more row, labelled `k` with `c` words, added to grouped totals: it
/// joins the last group where that group has the same label, else it starts
/// a new group.
pub open spec fn group_step(gs: Seq<(Seq<char>, int)>, k: Seq<char>, c: int) -> Seq<
    (Seq<char>, int),
> {
    if gs.len() > 0 && gs.last().0 == k {
        gs.update(gs.len() - 1, (k, gs.last().1 + c))
    } else {
        gs.push((k, c))
    }
}

/// Rows summed into groups: consecutive rows whose dates share a label
/// (`group_key`) make one (label, total) entry.
pub open spec fn group_runs(s: Seq<(Seq<char>, i64)>, g: GroupBy) -> Seq<(Seq<char>, int)>
    decreases s.len(),
{
    if s.len() == 0 {
        Seq::empty()
    } else {
        group_step(group_runs(s.drop_last(), g), group_key(s.last().0, g), s.last().1 as int)
    }
}

/// The grouped totals of the rows dated within `[start, end]`.
pub open spec fn grouped_totals(
    s: Seq<(Seq<char>, i64)>,
    start: Seq<char>,
    end: Seq<char>,
    g: GroupBy,
) -> Seq<(Seq<char>, int)> {
    group_runs(rows_in_range(s, start, end), g)
}

/// Every total fits in `i64`.
pub open spec fn all_fit(gs: Seq<(Seq<char>, int)>) -> bool {
    forall|j: int| 0 <= j < gs.len() ==> fits_i64(#[trigger] gs[j].1)
}

/// The totals as `i64`.
pub open spec fn narrow_totals(gs: Seq<(Seq<char>, int)>) -> Seq<(Seq<char>, i64)> {
    gs.map_values(|e: (Seq<char>, int)| (e.0, e.1 as i64))
}

proof fn lemma_take_step(s: Seq<(Seq<char>, i64)>, i: int)
    requires
        0 <= i < s.len(),
    ensures
        s.take(i + 1).drop_last() == s.take(i),
        s.take(i + 1).last() == s[i],
{
    assert(s.take(i + 1).drop_last() =~= s.take(i));
}

/// Groups of a prefix other than its last one are final: reading more rows
/// only changes the last group or adds groups after it.
proof fn lemma_groups_stable(s: Seq<(Seq<char>, i64)>, g: GroupBy, m: int)
    requires
        0 <= m <= s.len(),
    ensures
        group_runs(s.take(m), g).len() <= group_runs(s, g).len(),
        forall|j: int|
            0 <= j < group_runs(s.take(m), g).len() - 1 ==> #[trigger] group_runs(s, g)[j]
                == group_runs(s.take(m), g)[j],
        group_runs(s.take(m), g).len() > 0 ==> group_runs(s, g).len() > 0,
    decreases s.len() - m,
{
    if m == s.len() {
        assert(s.take(m) =~= s);
    } else {
        lemma_groups_stable(s, g, m + 1);
        lemma_take_step(s, m);
    }
}

proof fn lemma_range_stable(s: Seq<(Seq<char>, i64)>, start: Seq<char>, end: Seq<char>, m: int)
    requires
        0 <= m <= s.len(),
    ensures
        rows_in_range(s, start, end).take(rows_in_range(s.take(m), start, end).len() as int)
            == rows_in_range(s.take(m), start, end),
        rows_in_range(s.take(m), start, end).len() <= rows_in_range(s, start, end).len(),
    decreases s.len() - m,
{
    if m == s.len() {
        assert(s.take(m) =~= s);
        let r = rows_in_range(s, start, end);
        assert(r.take(r.len() as int) =~= r);
    } else {
        lemma_range_stable(s, start, end, m + 1);
        lemma_take_step(s, m);
        let a = rows_in_range(s.take(m), start, end);
        let b = rows_in_range(s.take(m + 1), start, end);
        let r = rows_in_range(s, start, end);
        assert(b.take(a.len() as int) =~= a);
        assert(r.take(a.len() as int) =~= r.take(b.len() as int).take(a.len() as int));
    }
}

/// Groups of the rows read so far that are not the last one are groups of
/// the final result too.
proof fn lemma_range_groups_stable(
    s: Seq<(Seq<char>, i64)>,
    start: Seq<char>,
    end: Seq<char>,
    g: GroupBy,
    m: int,
)
    requires
        0 <= m <= s.len(),
    ensures
        grouped_totals(s.take(m), start, end, g).len() <= grouped_totals(s, start, end, g).len(),
        forall|j: int|
            0 <= j < grouped_totals(s.take(m), start, end, g).len() - 1
                ==> #[trigger] grouped_totals(s, start, end, g)[j] == grouped_totals(
                s.take(m),
                start,
                end,
                g,
            )[j],
{
    lemma_range_stable(s, start, end, m);
    let f = rows_in_range(s, start, end);
    let k = rows_in_range(s.take(m), start, end).len() as int;
    lemma_groups_stable(f, g, k);
}

/// What reading one more row does to the grouped totals.
proof fn lemma_grouped_step(
    s: Seq<(Seq<char>, i64)>,
    start: Seq<char>,
    end: Seq<char>,
    g: GroupBy,
    i: int,
)
    requires
        0 <= i < s.len(),
    ensures
        grouped_totals(s.take(i + 1), start, end, g) == if in_date_range(s[i].0, start, end) {
            group_step(grouped_totals(s.take(i), start, end, g), group_key(s[i].0, g), s[i].1 as int)
        } else {
            grouped_totals(s.take(i), start, end, g)
        },
{
    lemma_take_step(s, i);
    let r = rows_in_range(s.take(i), start, end);
    if in_date_range(s[i].0, start, end) {
        assert(rows_in_range(s.take(i + 1), start, end) == r.push(s[i]));
        assert(r.push(s[i]).drop_last() =~= r);
    } else {
        assert(rows_in_range(s.take(i + 1), start, end) == r);
    }
}

/// The label of `date` under granularity `g`.
pub fn group_label(date: &str, g: GroupBy) -> (r: String)
    ensures
        r@ == group_key(date@, g),
{
    let n = date.unicode_len();
    match g {
        GroupBy::Day => date.to_owned(),
        GroupBy::Month => {
            if n <= 7 {
                date.to_owned()
            } else {
                date.substring_char(0, 7).to_owned()
            }
        },
        GroupBy::Year => {
            if n <= 4 {
                date.to_owned()
            } else {
                date.substring_char(0, 4).to_owned()
            }
        },
    }
}

/// Whether `date` lies within `[start, end]`.
pub fn date_in_range(date: &str, start: &str, end: &str) -> (r: bool)
    ensures
        r == in_date_range(date@, start@, end@),
{
    compare_text(start, date) != LexOrder::After && compare_text(date, end) != LexOrder::After
}

/// Grouped totals under construction: the groups already closed, and the
/// open one with its label and running total.
struct GroupAcc {
    closed: Vec<(String, i64)>,
    key: String,
    total: i128,
    open: bool,
}

spec fn acc_holds(a: GroupAcc, gs: Seq<(Seq<char>, int)>, rows_read: int) -> bool {
    &&& a.open <==> gs.len() > 0
    &&& a.open ==> gs.len() == a.closed@.len() + 1 && gs.last() == (a.key@, a.total as int)
    &&& !a.open ==> a.closed@.len() == 0
    &&& forall|j: int|
        0 <= j < a.closed@.len() ==> #[trigger] gs[j] == (
            rows_view(a.closed@)[j].0,
            rows_view(a.closed@)[j].1 as int,
        )
    &&& -rows_read * 0x8000_0000_0000_0000 <= a.total <= rows_read * 0x8000_0000_0000_0000
}

/// Adds one row to the groups; fails where the group it closes does not fit
/// in `i64`.
fn acc_feed(
    a: &mut GroupAcc,
    key: String,
    c: i64,
    Ghost(gs): Ghost<Seq<(Seq<char>, int)>>,
    Ghost(rows_read): Ghost<int>,
) -> (ok: bool)
    requires
        acc_holds(*old(a), gs, rows_read),
        0 <= rows_read < usize::MAX,
    ensures
        ok ==> acc_holds(*final(a), group_step(gs, key@, c as int), rows_read + 1),
        !ok ==> gs.len() > 0 && gs.last().0 != key@ && !fits_i64(gs.last().1),
{
    if a.open && compare_text(key.as_str(), a.key.as_str()) == LexOrder::Same {
        a.total = a.total + (c as i128);
        true
    } else {
        if a.open {
            if a.total < i64::MIN as i128 || a.total > i64::MAX as i128 {
                return false;
            }
            let ghost prev = a.closed@;
            let mut k = String::new();
        std::mem::swap(&mut k, &mut a.key);
            a.closed.push((k, a.total as i64));
            assert(rows_view(a.closed@) =~= rows_view(prev).push((gs.last().0, gs.last().1 as i64)));
        }
        a.key = key;
        a.total = c as i128;
        a.open = true;
        true
    }
}

/// Word counts within `[start, end]` (both ends included), summed per day,
/// month or year, labelled `YYYY-MM-DD`, `YYYY-MM` or `YYYY`, in ascending
/// label order.
///
/// Fails with `CountOverflow` exactly where some group's total leaves the
/// range of `i64`.
pub fn query_grouped(db: &DailyWords, start_date: &str, end_date: &str, group_by: GroupBy) -> (r:
    Result<Vec<(String, i64)>, DbError>)
    ensures
        r is Ok <==> all_fit(grouped_totals(db@, start_date@, end_date@, group_by)),
        r matches Ok(v) ==> rows_view(v@) == narrow_totals(
            grouped_totals(db@, start_date@, end_date@, group_by),
        ),
        r is Err ==> r == Err::<Vec<(String, i64)>, DbError>(DbError::CountOverflow),
{
    let ghost s = db@;
    let ghost st = start_date@;
    let ghost en = end_date@;
    let n = db.rows.len();
    let mut a = GroupAcc { closed: Vec::new(), key: String::new(), total: 0, open: false };
    let mut i: usize = 0;
    assert(s.take(0) =~= Seq::<(Seq<char>, i64)>::empty());
    while i < n
        invariant
            i <= n,
            n == db.rows@.len(),
            s == db@,
            st == start_date@,
            en == end_date@,
            s.len() == n,
            forall|k: int| 0 <= k < n ==> #[trigger] s[k] == (db.rows@[k].0@, db.rows@[k].1),
            acc_holds(a, grouped_totals(s.take(i as int), st, en, group_by), i as int),
        decreases n - i,
    {
        let ghost before = grouped_totals(s.take(i as int), st, en, group_by);
        proof {
            lemma_grouped_step(s, st, en, group_by, i as int);
        }
        let date = db.rows[i].0.as_str();
        let c = db.rows[i].1;
        assert(s[i as int] == (date@, c));
        if date_in_range(date, start_date, end_date) {
            let key = group_label(date, group_by);
            let ghost k = key@;
            assert(in_date_range(s[i as int].0, st, en));
            assert(k == group_key(s[i as int].0, group_by));
            assert(grouped_totals(s.take(i + 1), st, en, group_by) == group_step(before, k, c as int));
            let ok = acc_feed(&mut a, key, c, Ghost(before), Ghost(i as int));
            if !ok {
                proof {
                    let after = grouped_totals(s.take(i + 1), st, en, group_by);
                    assert(after == before.push((k, c as int)));
                    let j = before.len() - 1;
                    assert(after[j] == before[j]);
                    lemma_range_groups_stable(s, st, en, group_by, i + 1);
                    assert(s.take(n as int) =~= s);
                    let fin = grouped_totals(s, st, en, group_by);
                    assert(fin[j] == before[j]);
                    assert(!fits_i64(fin[j].1));
                }
                return Err(DbError::CountOverflow);
            }
            assert(grouped_totals(s.take(i + 1), st, en, group_by) == group_step(before, k, c as int));
        } else {
            assert(grouped_totals(s.take(i + 1), st, en, group_by) == before);
        }
        i = i + 1;
    }
    assert(s.take(n as int) =~= s);
    let ghost fin = grouped_totals(s, st, en, group_by);
    if a.open {
        if a.total < i64::MIN as i128 || a.total > i64::MAX as i128 {
            assert(!fits_i64(fin[fin.len() - 1].1));
            return Err(DbError::CountOverflow);
        }
        let ghost prev = a.closed@;
        let mut k = String::new();
        std::mem::swap(&mut k, &mut a.key);
        a.closed.push((k, a.total as i64));
        assert(rows_view(a.closed@) =~= rows_view(prev).push((fin.last().0, fin.last().1 as i64)));
    }
    let out = a.closed;
    assert(rows_view(out@) =~= narrow_totals(fin));
    assert(all_fit(fin)) by {
        assert forall|j: int| 0 <= j < fin.len() implies fits_i64(#[trigger] fin[j].1) by {
            assert(fin[j] == (rows_view(out@)[j].0, rows_view(out@)[j].1 as int));
        }
    }
    Ok(out)
}

/// The sum of all word counts.
///
/// Fails with `CountOverflow` exactly where that sum leaves the range of
/// `i64`.
pub fn query_total_words(db: &DailyWords) -> (r: Result<i64, DbError>)
    ensures
        r is Ok <==> fits_i64(sum_counts(db@)),
        r matches Ok(v) ==> v == sum_counts(db@),
        r is Err ==> r == Err::<i64, DbError>(DbError::CountOverflow),
{
    let ghost s = db@;
    let n = db.rows.len();
    let mut total: i128 = 0;
    let mut i: usize = 0;
    assert(s.take(0) =~= Seq::<(Seq<char>, i64)>::empty());
    while i < n
        invariant
            i <= n,
            n == db.rows@.len(),
            s == db@,
            s.len() == n,
            forall|k: int| 0 <= k < n ==> #[trigger] s[k] == (db.rows@[k].0@, db.rows@[k].1),
            total == sum_counts(s.take(i as int)),
            -(i as int) * 0x8000_0000_0000_0000 <= total <= (i as int) * 0x8000_0000_0000_0000,
        decreases n - i,
    {
        proof {
            lemma_take_step(s, i as int);
        }
        total = total + (db.rows[i].1 as i128);
        i = i + 1;
    }
    assert(s.take(n as int) =~= s);
    if total < i64::MIN as i128 || total > i64::MAX as i128 {
        Err(DbError::CountOverflow)
    } else {
        Ok(total as i64)
    }
}

/// The number of days with a row within `[start, end]`.
pub fn count_days_in_range(db: &DailyWords, start_date: &str, end_date: &str) -> (r: usize)
    ensures
        r == rows_in_range(db@, start_date@, end_date@).len(),
{
    let ghost s = db@;
    let n = db.rows.len();
    let mut count: usize = 0;
    let mut i: usize = 0;
    assert(s.take(0) =~= Seq::<(Seq<char>, i64)>::empty());
    while i < n
        invariant
            i <= n,
            count <= i,
            n == db.rows@.len(),
            s == db@,
            s.len() == n,
            forall|k: int| 0 <= k < n ==> #[trigger] s[k] == (db.rows@[k].0@, db.rows@[k].1),
            count == rows_in_range(s.take(i as int), start_date@, end_date@).len(),
        decreases n - i,
    {
        proof {
            lemma_take_step(s, i as int);
        }
        if date_in_range(db.rows[i].0.as_str(), start_date, end_date) {
            count = count + 1;
        }
        i = i + 1;
    }
    assert(s.take(n as int) =~= s);
    count
}

/// The first date of the table, or `fallback` where the table is empty.
pub open spec fn first_date_or(s: Seq<(Seq<char>, i64)>, fallback: Seq<char>) -> Seq<char> {
    if s.len() == 0 {
        fallback
    } else {
        s[0].0
    }
}

/// The last date of the table, or `fallback` where the table is empty.
pub open spec fn last_date_or(s: Seq<(Seq<char>, i64)>, fallback: Seq<char>) -> Seq<char> {
    if s.len() == 0 {
        fallback
    } else {
        s.last().0
    }
}

/// The earliest and the latest date of the table. Where the table is empty,
/// both are `today`, the date the caller reads from its clock.
pub fn query_date_range(db: &DailyWords, today: &str) -> (r: (String, String))
    ensures
        r.0@ == first_date_or(db@, today@),
        r.1@ == last_date_or(db@, today@),
{
    let n = db.rows.len();
    if n == 0 {
        (today.to_owned(), today.to_owned())
    } else {
        (db.rows[0].0.clone(), db.rows[n - 1].0.clone())
    }
}

/// The word count stored for `date`, if the table has a row for it.
pub fn word_count_on(db: &DailyWords, date: &str) -> (r: Option<i64>)
    ensures
        r is Some <==> (exists|i: int| 0 <= i < db@.len() && #[trigger] db@[i].0 == date@),
        r matches Some(v) ==> v == count_on(db@, date@),
{
    proof {
        use_type_invariant(db);
    }
    let p = db.find_pos(date);
    let n = db.rows.len();
    if p < n && compare_text(db.rows[p].0.as_str(), date) == LexOrder::Same {
        assert(db@[p as int].0 == date@);
        Some(db.rows[p].1)
    } else {
        assert forall|i: int| 0 <= i < db@.len() implies #[trigger] db@[i].0 != date@ by {
            if db@[i].0 == date@ {
                lemma_lex_irreflexive(date@);
                if i > p {
                    assert(lex_lt(db@[p as int].0, db@[i].0));
                    lemma_lex_total(db@[p as int].0, date@);
                }
            }
        }
        None
    }
}

// ---------------------------------------------------------------------
// Laws of the table
// ---------------------------------------------------------------------

/// The table has a row for `d`.
pub open spec fn has_row(s: Seq<(Seq<char>, i64)>, d: Seq<char>) -> bool {
    exists|i: int| 0 <= i < s.len() && #[trigger] s[i].0 == d
}

/// Sorted rows always have a split point for any date.
pub proof fn lemma_insert_pos_exists(s: Seq<(Seq<char>, i64)>, d: Seq<char>) -> (p: int)
    requires
        rows_sorted(s),
    ensures
        is_insert_pos(s, d, p),
        insert_pos(s, d) == p,
    decreases s.len(),
{
    if s.len() == 0 {
        lemma_insert_pos_is(s, d, 0);
        0
    } else {
        let t = s.drop_last();
        assert(rows_sorted(t)) by {
            assert forall|i: int, j: int| 0 <= i < j < t.len() implies lex_lt(
                #[trigger] t[i].0,
                #[trigger] t[j].0,
            ) by {
                assert(t[i] == s[i] && t[j] == s[j]);
            }
        }
        let q = lemma_insert_pos_exists(t, d);
        let last = s.len() - 1;
        if lex_lt(s[last].0, d) {
            assert forall|i: int| 0 <= i < s.len() implies lex_lt(#[trigger] s[i].0, d) by {
                if i < last {
                    lemma_lex_transitive(s[i].0, s[last].0, d);
                }
            }
            lemma_insert_pos_is(s, d, s.len() as int);
            s.len() as int
        } else {
            assert forall|i: int| 0 <= i < q implies lex_lt(#[trigger] s[i].0, d) by {
                assert(t[i] == s[i]);
            }
            assert forall|i: int| q <= i < s.len() implies !lex_lt(#[trigger] s[i].0, d) by {
                if i < last {
                    assert(t[i] == s[i]);
                }
            }
            lemma_insert_pos_is(s, d, q);
            q
        }
    }
}

/// In sorted rows, the count of a stored date is its row's count.
pub proof fn lemma_count_on_row(s: Seq<(Seq<char>, i64)>, i: int)
    requires
        rows_sorted(s),
        0 <= i < s.len(),
    ensures
        count_on(s, s[i].0) == s[i].1,
{
    let d = s[i].0;
    assert forall|j: int| 0 <= j < i implies lex_lt(#[trigger] s[j].0, d) by {}
    assert forall|j: int| i <= j < s.len() implies !lex_lt(#[trigger] s[j].0, d) by {
        if j == i {
            lemma_lex_irreflexive(d);
        } else {
            lemma_lex_asymmetric(d, s[j].0);
        }
    }
    lemma_insert_pos_is(s, d, i);
}

/// A date without a row counts 0.
pub proof fn lemma_count_on_absent(s: Seq<(Seq<char>, i64)>, d: Seq<char>)
    requires
        !has_row(s, d),
    ensures
        count_on(s, d) == 0,
{
    let p = insert_pos(s, d);
    if 0 <= p < s.len() {
        assert(s[p].0 != d);
    }
}

/// Adding words to a date keeps the rows sorted.
pub proof fn lemma_upsert_sorted(s: Seq<(Seq<char>, i64)>, d: Seq<char>, c: int)
    requires
        rows_sorted(s),
    ensures
        rows_sorted(upsert_rows(s, d, c)),
        forall|e: Seq<char>| has_row(upsert_rows(s, d, c), e) <==> (has_row(s, e) || e == d),
{
    let p = lemma_insert_pos_exists(s, d);
    let t = upsert_rows(s, d, c);
    if p < s.len() && s[p].0 == d {
        assert forall|i: int, j: int| 0 <= i < j < t.len() implies lex_lt(
            #[trigger] t[i].0,
            #[trigger] t[j].0,
        ) by {
            assert(t[i].0 == s[i].0 && t[j].0 == s[j].0);
        }
        assert forall|e: Seq<char>| has_row(t, e) <==> (has_row(s, e) || e == d) by {
            if has_row(t, e) {
                let i = choose|i: int| 0 <= i < t.len() && #[trigger] t[i].0 == e;
                assert(s[i].0 == e);
            }
            if has_row(s, e) {
                let i = choose|i: int| 0 <= i < s.len() && #[trigger] s[i].0 == e;
                assert(t[i].0 == e);
            }
            if e == d {
                assert(t[p].0 == e);
            }
        }
    } else {
        assert forall|i: int, j: int| 0 <= i < j < t.len() implies lex_lt(
            #[trigger] t[i].0,
            #[trigger] t[j].0,
        ) by {
            if j < p {
                assert(t[i] == s[i] && t[j] == s[j]);
            } else if j == p {
                assert(t[i] == s[i]);
            } else if i < p {
                assert(t[i] == s[i] && t[j] == s[j - 1]);
                assert(i < j - 1);
            } else if i == p {
                assert(t[j] == s[j - 1]);
                let k = j - 1;
                assert(!lex_lt(s[k].0, d));
                lemma_lex_total(s[k].0, d);
                if s[k].0 == d {
                    assert(k > p);
                    assert(lex_lt(s[p].0, s[k].0));
                }
            } else {
                assert(t[i] == s[i - 1] && t[j] == s[j - 1]);
            }
        }
        assert forall|e: Seq<char>| has_row(t, e) <==> (has_row(s, e) || e == d) by {
            if has_row(t, e) {
                let i = choose|i: int| 0 <= i < t.len() && #[trigger] t[i].0 == e;
                if i < p {
                    assert(s[i].0 == e);
                } else if i > p {
                    assert(s[i - 1].0 == e);
                }
            }
            if has_row(s, e) {
                let i = choose|i: int| 0 <= i < s.len() && #[trigger] s[i].0 == e;
                if i < p {
                    assert(t[i].0 == e);
                } else {
                    assert(t[i + 1].0 == e);
                }
            }
            if e == d {
                assert(t[p].0 == e);
            }
        }
    }
}

/// Adding `c` words to date `d` raises the count of `d` by `c` and leaves
/// every other date as it was: imports of the same day accumulate, they
/// never overwrite.
pub proof fn law_upsert_accumulates(s: Seq<(Seq<char>, i64)>, d: Seq<char>, c: int, e: Seq<char>)
    requires
        rows_sorted(s),
        fits_i64(count_on(s, d) + c),
    ensures
        rows_sorted(upsert_rows(s, d, c)),
        count_on(upsert_rows(s, d, c), d) == count_on(s, d) + c,
        e != d ==> count_on(upsert_rows(s, d, c), e) == count_on(s, e),
        has_row(upsert_rows(s, d, c), e) <==> (has_row(s, e) || e == d),
{
    lemma_upsert_sorted(s, d, c);
    let p = lemma_insert_pos_exists(s, d);
    let t = upsert_rows(s, d, c);
    if p < s.len() && s[p].0 == d {
        lemma_count_on_row(t, p);
        if e != d {
            if has_row(s, e) {
                let i = choose|i: int| 0 <= i < s.len() && #[trigger] s[i].0 == e;
                lemma_count_on_row(s, i);
                assert(t[i] == s[i]);
                lemma_count_on_row(t, i);
            } else {
                lemma_count_on_absent(s, e);
                lemma_count_on_absent(t, e);
            }
        }
    } else {
        assert(t[p] == (d, c as i64));
        lemma_count_on_row(t, p);
        assert(!has_row(s, d)) by {
            if has_row(s, d) {
                let i = choose|i: int| 0 <= i < s.len() && #[trigger] s[i].0 == d;
                if i < p {
                    lemma_lex_irreflexive(d);
                } else if i > p {
                    assert(lex_lt(s[p].0, s[i].0));
                }
            }
        }
        lemma_count_on_absent(s, d);
        if e != d {
            if has_row(s, e) {
                let i = choose|i: int| 0 <= i < s.len() && #[trigger] s[i].0 == e;
                lemma_count_on_row(s, i);
                if i < p {
                    assert(t[i] == s[i]);
                    lemma_count_on_row(t, i);
                } else {
                    assert(t[i + 1] == s[i]);
                    lemma_count_on_row(t, i + 1);
                }
            } else {
                lemma_count_on_absent(s, e);
                lemma_count_on_absent(t, e);
            }
        }
    }
}

/// The earliest and the latest date bound every date of a sorted table.
pub proof fn law_date_range_bounds(s: Seq<(Seq<char>, i64)>, i: int)
    requires
        rows_sorted(s),
        0 <= i < s.len(),
    ensures
        lex_le(s[0].0, s[i].0),
        lex_le(s[i].0, s.last().0),
{
}

/// Both ends of a range are included: a date lies in `[start, end]` when it
/// is one of the two ends of a well-ordered range, and in the one-day range
/// `[d, d]` of its own; a date earlier than the start or later than the end
/// never does.
pub proof fn law_range_ends_included(d: Seq<char>, start: Seq<char>, end: Seq<char>)
    ensures
        in_date_range(d, d, d),
        lex_le(start, end) ==> in_date_range(start, start, end) && in_date_range(end, start, end),
        lex_lt(d, start) ==> !in_date_range(d, start, end),
        lex_lt(end, d) ==> !in_date_range(d, start, end),
{
    lemma_lex_irreflexive(d);
    lemma_lex_asymmetric(d, start);
    lemma_lex_asymmetric(d, end);
}

/// No row of a table dated before `start` lies in a range that begins there.
proof fn lemma_rows_before_start(s: Seq<(Seq<char>, i64)>, start: Seq<char>, end: Seq<char>)
    requires
        forall|j: int| 0 <= j < s.len() ==> lex_lt(#[trigger] s[j].0, start),
    ensures
        rows_in_range(s, start, end).len() == 0,
    decreases s.len(),
{
    if s.len() > 0 {
        law_range_ends_included(s.last().0, start, end);
        lemma_rows_before_start(s.drop_last(), start, end);
    }
}

/// The one-day range `[d, d]` of a date `d` that has a row in the table
/// gives exactly that row.
pub proof fn law_one_day_range(s: Seq<(Seq<char>, i64)>, i: int)
    requires
        rows_sorted(s),
        0 <= i < s.len(),
    ensures
        rows_in_range(s, s[i].0, s[i].0) == seq![s[i]],
    decreases s.len(),
{
    let d = s[i].0;
    let p = s.drop_last();
    assert forall|a: int, b: int| 0 <= a < b < p.len() implies lex_lt(
        #[trigger] p[a].0,
        #[trigger] p[b].0,
    ) by {
        assert(p[a] == s[a] && p[b] == s[b]);
    }
    if i == s.len() - 1 {
        assert forall|j: int| 0 <= j < p.len() implies lex_lt(#[trigger] p[j].0, d) by {
            assert(p[j] == s[j]);
        }
        lemma_rows_before_start(p, d, d);
        law_range_ends_included(d, d, d);
        assert(rows_in_range(p, d, d) =~= Seq::<(Seq<char>, i64)>::empty());
        assert(rows_in_range(s, d, d) =~= seq![s[i]]);
    } else {
        assert(lex_lt(s[i].0, s[s.len() - 1].0));
        law_range_ends_included(s.last().0, d, d);
        assert(p[i] == s[i]);
        law_one_day_range(p, i);
    }
}

/// The words of the rows whose date falls in group `k`.
pub open spec fn label_total(f: Seq<(Seq<char>, i64)>, k: Seq<char>, g: GroupBy) -> int
    decreases f.len(),
{
    if f.len() == 0 {
        0
    } else {
        label_total(f.drop_last(), k, g) + if group_key(f.last().0, g) == k {
            f.last().1 as int
        } else {
            0
        }
    }
}

proof fn lemma_key_monotone(a: Seq<char>, b: Seq<char>, g: GroupBy)
    requires
        lex_le(a, b),
    ensures
        lex_le(group_key(a, g), group_key(b, g)),
{
    match g {
        GroupBy::Day => {},
        GroupBy::Month => lemma_prefix_keeps_order(a, b, 7),
        GroupBy::Year => lemma_prefix_keeps_order(a, b, 4),
    }
}

proof fn lemma_label_total_absent(f: Seq<(Seq<char>, i64)>, k: Seq<char>, g: GroupBy)
    requires
        forall|i: int| 0 <= i < f.len() ==> group_key(#[trigger] f[i].0, g) != k,
    ensures
        label_total(f, k, g) == 0,
    decreases f.len(),
{
    if f.len() > 0 {
        let t = f.drop_last();
        assert forall|i: int| 0 <= i < t.len() implies group_key(#[trigger] t[i].0, g) != k by {
            assert(t[i] == f[i]);
        }
        lemma_label_total_absent(t, k, g);
        assert(group_key(f[f.len() - 1].0, g) != k);
    }
}

proof fn lemma_sorted_drop_last(f: Seq<(Seq<char>, i64)>)
    requires
        rows_sorted(f),
        f.len() > 0,
    ensures
        rows_sorted(f.drop_last()),
{
    let t = f.drop_last();
    assert forall|i: int, j: int| 0 <= i < j < t.len() implies lex_lt(
        #[trigger] t[i].0,
        #[trigger] t[j].0,
    ) by {
        assert(t[i] == f[i] && t[j] == f[j]);
    }
}

/// Grouping sorted rows gives strictly ascending labels, the last one that
/// of the last row.
proof fn lemma_runs_ascending(f: Seq<(Seq<char>, i64)>, g: GroupBy)
    requires
        rows_sorted(f),
    ensures
        forall|i: int, j: int|
            0 <= i < j < group_runs(f, g).len() ==> lex_lt(
                #[trigger] group_runs(f, g)[i].0,
                #[trigger] group_runs(f, g)[j].0,
            ),
        f.len() > 0 ==> group_runs(f, g).len() > 0 && group_runs(f, g).last().0 == group_key(
            f.last().0,
            g,
        ),
        f.len() == 0 ==> group_runs(f, g).len() == 0,
    decreases f.len(),
{
    if f.len() > 0 {
        let t = f.drop_last();
        lemma_sorted_drop_last(f);
        lemma_runs_ascending(t, g);
        let e = group_runs(t, g);
        let x = f.last();
        let k = group_key(x.0, g);
        let gs = group_runs(f, g);
        assert(gs == group_step(e, k, x.1 as int));
        if e.len() > 0 && e.last().0 == k {
            assert forall|i: int, j: int| 0 <= i < j < gs.len() implies lex_lt(
                #[trigger] gs[i].0,
                #[trigger] gs[j].0,
            ) by {
                assert(gs[i].0 == e[i].0 && gs[j].0 == e[j].0);
            }
        } else {
            if e.len() > 0 {
                assert(t.last() == f[f.len() - 2]);
                assert(lex_lt(f[f.len() - 2].0, f[f.len() - 1].0));
                lemma_key_monotone(t.last().0, x.0, g);
            }
            assert forall|i: int, j: int| 0 <= i < j < gs.len() implies lex_lt(
                #[trigger] gs[i].0,
                #[trigger] gs[j].0,
            ) by {
                if j < e.len() {
                    assert(gs[i] == e[i] && gs[j] == e[j]);
                } else {
                    assert(gs[i] == e[i]);
                    let last = e.len() - 1;
                    if i < last {
                        assert(lex_lt(e[i].0, e[last].0));
                        lemma_lex_transitive(e[i].0, e[last].0, k);
                    }
                }
            }
        }
    }
}

/// Some group carries label `k`.
#[verifier::opaque]
pub open spec fn label_present(gs: Seq<(Seq<char>, int)>, k: Seq<char>) -> bool {
    exists|j: int| 0 <= j < gs.len() && #[trigger] gs[j].0 == k
}

/// Some row's date falls in group `k`.
#[verifier::opaque]
pub open spec fn row_in_group(f: Seq<(Seq<char>, i64)>, k: Seq<char>, g: GroupBy) -> bool {
    exists|i: int| 0 <= i < f.len() && group_key(#[trigger] f[i].0, g) == k
}

proof fn lemma_step_labels(gs: Seq<(Seq<char>, int)>, k: Seq<char>, c: int, k2: Seq<char>)
    ensures
        label_present(group_step(gs, k, c), k),
        label_present(gs, k2) ==> label_present(group_step(gs, k, c), k2),
        label_present(group_step(gs, k, c), k2) ==> label_present(gs, k2) || k2 == k,
{
    reveal(label_present);
    let t = group_step(gs, k, c);
    let merged = gs.len() > 0 && gs.last().0 == k;
    let kj: int = if merged {
        gs.len() - 1
    } else {
        gs.len() as int
    };
    assert(t[kj].0 == k);
    if label_present(gs, k2) {
        let j = choose|j: int| 0 <= j < gs.len() && #[trigger] gs[j].0 == k2;
        assert(t[j].0 == gs[j].0);
    }
    if label_present(t, k2) {
        let j = choose|j: int| 0 <= j < t.len() && #[trigger] t[j].0 == k2;
        if j < gs.len() && !(merged && j == gs.len() - 1) {
            assert(t[j].0 == gs[j].0);
        }
    }
}

/// Every row's group is among the labels.
proof fn lemma_labels_cover_rows(f: Seq<(Seq<char>, i64)>, g: GroupBy)
    ensures
        forall|i: int|
            0 <= i < f.len() ==> label_present(group_runs(f, g), group_key(#[trigger] f[i].0, g)),
    decreases f.len(),
{
    if f.len() > 0 {
        let t = f.drop_last();
        lemma_labels_cover_rows(t, g);
        let e = group_runs(t, g);
        let x = f.last();
        let k = group_key(x.0, g);
        assert(group_runs(f, g) == group_step(e, k, x.1 as int));
        assert forall|i: int| 0 <= i < f.len() implies label_present(
            group_runs(f, g),
            group_key(#[trigger] f[i].0, g),
        ) by {
            lemma_step_labels(e, k, x.1 as int, group_key(f[i].0, g));
            if i < t.len() {
                assert(t[i] == f[i]);
            }
        }
    }
}

proof fn lemma_row_in_group_extends(f: Seq<(Seq<char>, i64)>, k: Seq<char>, g: GroupBy)
    requires
        f.len() > 0,
    ensures
        row_in_group(f.drop_last(), k, g) ==> row_in_group(f, k, g),
        row_in_group(f, group_key(f.last().0, g), g),
{
    reveal(row_in_group);
    let t = f.drop_last();
    if row_in_group(t, k, g) {
        let i = choose|i: int| 0 <= i < t.len() && group_key(#[trigger] t[i].0, g) == k;
        assert(t[i] == f[i]);
    }
    assert(f[f.len() - 1] == f.last());
}

/// Every label is some row's group.
proof fn lemma_rows_cover_labels(f: Seq<(Seq<char>, i64)>, g: GroupBy)
    ensures
        forall|k: Seq<char>| label_present(group_runs(f, g), k) ==> row_in_group(f, k, g),
    decreases f.len(),
{
    if f.len() == 0 {
        reveal(label_present);
    } else {
        let t = f.drop_last();
        lemma_rows_cover_labels(t, g);
        let e = group_runs(t, g);
        let x = f.last();
        let kx = group_key(x.0, g);
        assert(group_runs(f, g) == group_step(e, kx, x.1 as int));
        assert forall|k: Seq<char>| label_present(group_runs(f, g), k) implies row_in_group(
            f,
            k,
            g,
        ) by {
            lemma_step_labels(e, kx, x.1 as int, k);
            lemma_row_in_group_extends(f, k, g);
        }
    }
}

/// Each group's total is the sum of its rows.
#[verifier::rlimit(30)]
proof fn lemma_runs_totals(f: Seq<(Seq<char>, i64)>, g: GroupBy)
    requires
        rows_sorted(f),
    ensures
        forall|j: int|
            0 <= j < group_runs(f, g).len() ==> #[trigger] group_runs(f, g)[j].1 == label_total(
                f,
                group_runs(f, g)[j].0,
                g,
            ),
    decreases f.len(),
{
    if f.len() > 0 {
        let t = f.drop_last();
        lemma_sorted_drop_last(f);
        lemma_runs_totals(t, g);
        lemma_runs_ascending(t, g);
        let e = group_runs(t, g);
        let x = f.last();
        let k = group_key(x.0, g);
        let gs = group_runs(f, g);
        assert(gs == group_step(e, k, x.1 as int));
        if e.len() > 0 && e.last().0 == k {
            let last = e.len() - 1;
            assert forall|j: int| 0 <= j < gs.len() implies #[trigger] gs[j].1 == label_total(
                f,
                gs[j].0,
                g,
            ) by {
                if j < last {
                    assert(gs[j] == e[j]);
                    assert(lex_lt(e[j].0, e[last].0));
                    lemma_lex_irreflexive(k);
                }
            }
        } else {
            lemma_new_group_fresh(f, g);
            lemma_label_total_absent(t, k, g);
            assert forall|j: int| 0 <= j < gs.len() implies #[trigger] gs[j].1 == label_total(
                f,
                gs[j].0,
                g,
            ) by {
                if j < e.len() {
                    assert(gs[j] == e[j]);
                }
            }
        }
    }
}

/// Where the last row starts a new group, no earlier row and no earlier
/// group has its label.
proof fn lemma_new_group_fresh(f: Seq<(Seq<char>, i64)>, g: GroupBy)
    requires
        rows_sorted(f),
        f.len() > 0,
        !(group_runs(f.drop_last(), g).len() > 0 && group_runs(f.drop_last(), g).last().0
            == group_key(f.last().0, g)),
    ensures
        forall|i: int|
            0 <= i < f.len() - 1 ==> group_key(#[trigger] f[i].0, g) != group_key(f.last().0, g),
        forall|j: int|
            0 <= j < group_runs(f.drop_last(), g).len() ==> #[trigger] group_runs(
                f.drop_last(),
                g,
            )[j].0 != group_key(f.last().0, g),
{
    let t = f.drop_last();
    lemma_sorted_drop_last(f);
    lemma_runs_ascending(t, g);
    lemma_labels_cover_rows(t, g);
    let e = group_runs(t, g);
    let k = group_key(f.last().0, g);
    if e.len() > 0 {
        assert(t.last() == f[f.len() - 2]);
        assert(lex_lt(f[f.len() - 2].0, f[f.len() - 1].0));
        lemma_key_monotone(t.last().0, f.last().0, g);
        assert(lex_lt(e.last().0, k));
    }
    assert forall|j: int| 0 <= j < e.len() implies #[trigger] e[j].0 != k by {
        let last = e.len() - 1;
        if j < last {
            assert(lex_lt(e[j].0, e[last].0));
            lemma_lex_transitive(e[j].0, e[last].0, k);
        }
        lemma_lex_irreflexive(k);
    }
    assert forall|i: int| 0 <= i < f.len() - 1 implies group_key(#[trigger] f[i].0, g) != k by {
        assert(t[i] == f[i]);
        assert(label_present(e, group_key(t[i].0, g)));
        reveal(label_present);
        let j = choose|j: int| 0 <= j < e.len() && #[trigger] e[j].0 == group_key(t[i].0, g);
        assert(e[j].0 != k);
    }
}

proof fn lemma_range_rows_from_table(s: Seq<(Seq<char>, i64)>, start: Seq<char>, end: Seq<char>)
    ensures
        forall|i: int|
            0 <= i < rows_in_range(s, start, end).len() ==> exists|j: int|
                0 <= j < s.len() && #[trigger] s[j] == #[trigger] rows_in_range(s, start, end)[i],
        rows_in_range(s, start, end).len() <= s.len(),
    decreases s.len(),
{
    if s.len() > 0 {
        let t = s.drop_last();
        lemma_range_rows_from_table(t, start, end);
        let r = rows_in_range(s, start, end);
        let rt = rows_in_range(t, start, end);
        assert forall|i: int| 0 <= i < r.len() implies exists|j: int|
            0 <= j < s.len() && #[trigger] s[j] == #[trigger] r[i] by {
            if i < rt.len() {
                assert(r[i] == rt[i]);
                let j = choose|j: int| 0 <= j < t.len() && #[trigger] t[j] == #[trigger] rt[i];
                assert(s[j] == t[j]);
            } else {
                assert(s[s.len() - 1] == r[i]);
            }
        }
    }
}

/// The rows within a range of a sorted table are sorted, and keep their
/// order.
proof fn lemma_range_rows_sorted(s: Seq<(Seq<char>, i64)>, start: Seq<char>, end: Seq<char>)
    requires
        rows_sorted(s),
    ensures
        rows_sorted(rows_in_range(s, start, end)),
    decreases s.len(),
{
    if s.len() > 0 {
        let t = s.drop_last();
        lemma_sorted_drop_last(s);
        lemma_range_rows_sorted(t, start, end);
        lemma_range_rows_from_table(t, start, end);
        let r = rows_in_range(s, start, end);
        let rt = rows_in_range(t, start, end);
        if in_date_range(s.last().0, start, end) {
            assert forall|i: int, j: int| 0 <= i < j < r.len() implies lex_lt(
                #[trigger] r[i].0,
                #[trigger] r[j].0,
            ) by {
                assert(r[i] == rt[i]);
                if j < rt.len() {
                    assert(r[j] == rt[j]);
                } else {
                    let k = choose|k: int| 0 <= k < t.len() && #[trigger] t[k] == #[trigger] rt[i];
                    assert(s[k] == t[k]);
                    assert(lex_lt(s[k].0, s[s.len() - 1].0));
                }
            }
        }
    }
}

/// Grouped totals are what `GROUP BY label ORDER BY label` gives: labels
/// strictly ascending, each label's total the sum of the words of the rows
/// within the range whose date falls in that group, every such row's group
/// present, and every label the group of some such row.
pub proof fn law_grouped_totals_group_by(
    s: Seq<(Seq<char>, i64)>,
    start: Seq<char>,
    end: Seq<char>,
    g: GroupBy,
)
    requires
        rows_sorted(s),
    ensures
        forall|i: int, j: int|
            0 <= i < j < grouped_totals(s, start, end, g).len() ==> lex_lt(
                #[trigger] grouped_totals(s, start, end, g)[i].0,
                #[trigger] grouped_totals(s, start, end, g)[j].0,
            ),
        forall|j: int|
            0 <= j < grouped_totals(s, start, end, g).len() ==> #[trigger] grouped_totals(
                s,
                start,
                end,
                g,
            )[j].1 == label_total(
                rows_in_range(s, start, end),
                grouped_totals(s, start, end, g)[j].0,
                g,
            ),
        forall|i: int|
            0 <= i < rows_in_range(s, start, end).len() ==> label_present(
                grouped_totals(s, start, end, g),
                group_key(#[trigger] rows_in_range(s, start, end)[i].0, g),
            ),
        forall|k: Seq<char>|
            label_present(grouped_totals(s, start, end, g), k) ==> row_in_group(
                rows_in_range(s, start, end),
                k,
                g,
            ),
{
    let f = rows_in_range(s, start, end);
    lemma_range_rows_sorted(s, start, end);
    lemma_runs_ascending(f, g);
    lemma_labels_cover_rows(f, g);
    lemma_rows_cover_labels(f, g);
    lemma_runs_totals(f, g);
}

/// Grouped by day, every row within the range is a point of its own.
pub proof fn law_day_groups_are_rows(s: Seq<(Seq<char>, i64)>, start: Seq<char>, end: Seq<char>)
    requires
        rows_sorted(s),
    ensures
        grouped_totals(s, start, end, GroupBy::Day) == rows_in_range(s, start, end).map_values(
            |r: (Seq<char>, i64)| (r.0, r.1 as int),
        ),
{
    lemma_range_rows_sorted(s, start, end);
    lemma_day_runs(rows_in_range(s, start, end));
}

proof fn lemma_day_runs(f: Seq<(Seq<char>, i64)>)
    requires
        rows_sorted(f),
    ensures
        group_runs(f, GroupBy::Day) == f.map_values(|r: (Seq<char>, i64)| (r.0, r.1 as int)),
    decreases f.len(),
{
    if f.len() > 0 {
        let t = f.drop_last();
        lemma_sorted_drop_last(f);
        lemma_day_runs(t);
        let e = group_runs(t, GroupBy::Day);
        if e.len() > 0 {
            assert(e.last() == (t.last().0, t.last().1 as int));
            assert(t.last() == f[f.len() - 2]);
            assert(lex_lt(f[f.len() - 2].0, f[f.len() - 1].0));
            lemma_lex_irreflexive(f.last().0);
        }
        assert(group_runs(f, GroupBy::Day) =~= f.map_values(
            |r: (Seq<char>, i64)| (r.0, r.1 as int),
        ));
    } else {
        assert(group_runs(f, GroupBy::Day) =~= f.map_values(
            |r: (Seq<char>, i64)| (r.0, r.1 as int),
        ));
    }
}

} // verus!
