//! Character-level helpers shared by the parsers: white space, trimming,
//! the byte-wise (code point) order that SQLite uses for `TEXT` keys, and
//! building strings one character at a time.

use vstd::prelude::*;

verus! {

/// `String::push` appends one character to the end of the string.
pub assume_specification[ String::push ](s: &mut String, ch: char)
    ensures
        final(s)@ == old(s)@.push(ch),
;

/// The Unicode `White_Space` property, which is what `char::is_whitespace`
/// and `str::trim` go by.
pub open spec fn is_white_space(c: char) -> bool {
    let u = c as u32;
    ||| 0x9 <= u <= 0xd
    ||| u == 0x20
    ||| u == 0x85
    ||| u == 0xa0
    ||| u == 0x1680
    ||| 0x2000 <= u <= 0x200a
    ||| u == 0x2028
    ||| u == 0x2029
    ||| u == 0x202f
    ||| u == 0x205f
    ||| u == 0x3000
}

pub fn is_white_space_char(c: char) -> (r: bool)
    ensures
        r == is_white_space(c),
{
    let u = c as u32;
    (0x9 <= u && u <= 0xd) || u == 0x20 || u == 0x85 || u == 0xa0 || u == 0x1680 || (0x2000 <= u
        && u <= 0x200a) || u == 0x2028 || u == 0x2029 || u == 0x202f || u == 0x205f || u == 0x3000
}

/// The text without its leading white space.
pub open spec fn trim_start(s: Seq<char>) -> Seq<char>
    decreases s.len(),
{
    if s.len() > 0 && is_white_space(s[0]) {
        trim_start(s.drop_first())
    } else {
        s
    }
}

/// The text without its trailing white space.
pub open spec fn trim_end(s: Seq<char>) -> Seq<char>
    decreases s.len(),
{
    if s.len() > 0 && is_white_space(s.last()) {
        trim_end(s.drop_last())
    } else {
        s
    }
}

/// The text without leading and trailing white space, as `str::trim` gives it.
pub open spec fn trim(s: Seq<char>) -> Seq<char> {
    trim_end(trim_start(s))
}

/// Whether the text is empty once trimmed.
pub open spec fn is_blank(s: Seq<char>) -> bool {
    trim(s).len() == 0
}

/// Trims white space from both ends of `s`.
pub fn trim_str(s: &str) -> (r: &str)
    ensures
        r@ == trim(s@),
{
    let n = s.unicode_len();
    let mut i: usize = 0;
    assert(s@.subrange(0, n as int) =~= s@);
    while i < n && is_white_space_char(s.get_char(i))
        invariant
            0 <= i <= n,
            n == s@.len(),
            trim_start(s@) == trim_start(s@.subrange(i as int, n as int)),
        decreases n - i,
    {
        assert(s@.subrange(i as int, n as int).drop_first() =~= s@.subrange(
            i + 1,
            n as int,
        ));
        i = i + 1;
    }
    assert(trim_start(s@) == s@.subrange(i as int, n as int));
    let mut j: usize = n;
    while j > i && is_white_space_char(s.get_char(j - 1))
        invariant
            i <= j <= n,
            n == s@.len(),
            trim_start(s@) == s@.subrange(i as int, n as int),
            trim(s@) == trim_end(s@.subrange(i as int, j as int)),
        decreases j - i,
    {
        assert(s@.subrange(i as int, j as int).drop_last() =~= s@.subrange(
            i as int,
            j - 1,
        ));
        j = j - 1;
    }
    s.substring_char(i, j)
}

/// Whether a text is empty or white space only.
pub fn is_blank_str(s: &str) -> (r: bool)
    ensures
        r == is_blank(s@),
{
    let t = trim_str(s);
    t.unicode_len() == 0
}

// ---------------------------------------------------------------------
// Code point order (SQLite's BINARY collation on UTF-8 text)
// ---------------------------------------------------------------------

/// `a` sorts strictly before `b`, comparing code points from the left; a
/// proper prefix sorts first.
pub open spec fn lex_lt(a: Seq<char>, b: Seq<char>) -> bool
    decreases a.len(),
{
    if a.len() == 0 {
        b.len() > 0
    } else if b.len() == 0 {
        false
    } else if (a[0] as u32) < (b[0] as u32) {
        true
    } else if a[0] == b[0] {
        lex_lt(a.drop_first(), b.drop_first())
    } else {
        false
    }
}

/// `a` sorts before `b` or equals it.
pub open spec fn lex_le(a: Seq<char>, b: Seq<char>) -> bool {
    lex_lt(a, b) || a == b
}

pub proof fn lemma_lex_irreflexive(a: Seq<char>)
    ensures
        !lex_lt(a, a),
    decreases a.len(),
{
    if a.len() > 0 {
        lemma_lex_irreflexive(a.drop_first());
    }
}

pub proof fn lemma_lex_asymmetric(a: Seq<char>, b: Seq<char>)
    ensures
        !(lex_lt(a, b) && lex_lt(b, a)),
    decreases a.len(),
{
    if a.len() > 0 && b.len() > 0 && a[0] == b[0] {
        lemma_lex_asymmetric(a.drop_first(), b.drop_first());
    }
}

pub proof fn lemma_lex_transitive(a: Seq<char>, b: Seq<char>, c: Seq<char>)
    requires
        lex_lt(a, b),
        lex_lt(b, c),
    ensures
        lex_lt(a, c),
    decreases a.len(),
{
    if a.len() > 0 && b.len() > 0 && c.len() > 0 && a[0] == b[0] && b[0] == c[0] {
        lemma_lex_transitive(a.drop_first(), b.drop_first(), c.drop_first());
    }
}

proof fn lemma_seq_eq_by_head_tail(a: Seq<char>, b: Seq<char>)
    requires
        a.len() > 0,
        b.len() > 0,
        a[0] == b[0],
        a.drop_first() == b.drop_first(),
    ensures
        a == b,
{
    assert(a.drop_first().len() == a.len() - 1);
    assert(b.drop_first().len() == b.len() - 1);
    assert(a.len() == b.len());
    assert forall|k: int| 0 <= k < a.len() implies a[k] == b[k] by {
        if k > 0 {
            assert(a[k] == a.drop_first()[k - 1]);
            assert(b[k] == b.drop_first()[k - 1]);
        }
    }
    assert(a =~= b);
}

/// Distinct characters have distinct code points.
pub proof fn lemma_char_code_injective(x: char, y: char)
    ensures
        (x as u32) == (y as u32) ==> x == y,
{
    vstd::utf8::char_u32_cast(x, x as u32);
    vstd::utf8::char_u32_cast(y, y as u32);
}

pub proof fn lemma_lex_total(a: Seq<char>, b: Seq<char>)
    ensures
        lex_lt(a, b) || lex_lt(b, a) || a == b,
    decreases a.len(),
{
    if a.len() == 0 && b.len() == 0 {
        assert(a =~= b);
    } else if a.len() > 0 && b.len() > 0 && a[0] == b[0] {
        lemma_lex_total(a.drop_first(), b.drop_first());
        if a.drop_first() == b.drop_first() {
            lemma_seq_eq_by_head_tail(a, b);
        }
    } else if a.len() > 0 && b.len() > 0 {
        lemma_char_code_injective(a[0], b[0]);
    }
}

/// The first `n` characters of a text, or the whole text where it is shorter
/// (SQLite's `substr(text, 1, n)`).
pub open spec fn prefix_of_len(s: Seq<char>, n: nat) -> Seq<char> {
    if s.len() <= n {
        s
    } else {
        s.take(n as int)
    }
}

/// Cutting two ordered texts to the same length keeps them in order.
pub proof fn lemma_prefix_keeps_order(a: Seq<char>, b: Seq<char>, n: nat)
    requires
        lex_le(a, b),
    ensures
        lex_le(prefix_of_len(a, n), prefix_of_len(b, n)),
    decreases a.len(), n,
{
    if a == b {
    } else if a.len() == 0 {
        if prefix_of_len(b, n).len() == 0 {
            assert(prefix_of_len(a, n) =~= prefix_of_len(b, n));
        }
    } else if n == 0 {
        assert(prefix_of_len(a, n) =~= prefix_of_len(b, n));
    } else {
        let pa = prefix_of_len(a, n);
        let pb = prefix_of_len(b, n);
        assert(b.len() > 0);
        assert(pa.len() > 0 && pb.len() > 0);
        assert(pa[0] == a[0] && pb[0] == b[0]);
        if a[0] == b[0] {
            lemma_prefix_keeps_order(a.drop_first(), b.drop_first(), (n - 1) as nat);
            assert(pa.drop_first() =~= prefix_of_len(a.drop_first(), (n - 1) as nat));
            assert(pb.drop_first() =~= prefix_of_len(b.drop_first(), (n - 1) as nat));
            if pa.drop_first() == pb.drop_first() {
                lemma_seq_eq_by_head_tail(pa, pb);
            }
        }
    }
}

/// The result of comparing two texts in code point order.
#[derive(Clone, Copy, Debug, PartialEq, Eq, Structural)]
pub enum LexOrder {
    Before,
    Same,
    After,
}

/// Compares two texts in code point order.
pub fn compare_text(a: &str, b: &str) -> (r: LexOrder)
    ensures
        (r == LexOrder::Before) == lex_lt(a@, b@),
        (r == LexOrder::Same) == (a@ == b@),
        (r == LexOrder::After) == lex_lt(b@, a@),
{
    proof {
        lemma_lex_asymmetric(a@, b@);
        lemma_lex_total(a@, b@);
        lemma_lex_irreflexive(a@);
    }
    let na = a.unicode_len();
    let nb = b.unicode_len();
    let mut i: usize = 0;
    assert(a@.skip(0) =~= a@);
    assert(b@.skip(0) =~= b@);
    while i < na && i < nb
        invariant
            i <= na,
            i <= nb,
            na == a@.len(),
            nb == b@.len(),
            lex_lt(a@, b@) == lex_lt(a@.skip(i as int), b@.skip(i as int)),
            lex_lt(b@, a@) == lex_lt(b@.skip(i as int), a@.skip(i as int)),
            (a@ == b@) == (a@.skip(i as int) == b@.skip(i as int)),
        decreases na - i,
    {
        let ca = a.get_char(i);
        let cb = b.get_char(i);
        let ghost xa = a@.skip(i as int);
        let ghost xb = b@.skip(i as int);
        assert(xa[0] == ca && xb[0] == cb);
        if (ca as u32) < (cb as u32) {
            assert(xa != xb);
            return LexOrder::Before;
        } else if (cb as u32) < (ca as u32) {
            assert(xa != xb);
            return LexOrder::After;
        }
        assert(ca == cb);
        assert(xa.drop_first() =~= a@.skip(i + 1));
        assert(xb.drop_first() =~= b@.skip(i + 1));
        proof {
            if xa.drop_first() == xb.drop_first() {
                lemma_seq_eq_by_head_tail(xa, xb);
            }
        }
        i = i + 1;
    }
    let ghost xa = a@.skip(i as int);
    let ghost xb = b@.skip(i as int);
    if na == nb {
        assert(xa =~= xb);
        LexOrder::Same
    } else if na < nb {
        assert(xa.len() == 0 && xb.len() > 0);
        LexOrder::Before
    } else {
        assert(xb.len() == 0 && xa.len() > 0);
        LexOrder::After
    }
}

/// A text is blank exactly when every character of it is white space (the
/// empty text included).
pub proof fn lemma_blank_iff_all_white(s: Seq<char>)
    ensures
        is_blank(s) <==> (forall|i: int| 0 <= i < s.len() ==> is_white_space(#[trigger] s[i])),
{
    if forall|i: int| 0 <= i < s.len() ==> is_white_space(#[trigger] s[i]) {
        lemma_trim_start_all_white(s);
    } else {
        let k = choose|k: int| 0 <= k < s.len() && !is_white_space(#[trigger] s[k]);
        lemma_trim_start_stops(s, k);
        lemma_trim_end_keeps_first(trim_start(s));
    }
}

proof fn lemma_trim_start_all_white(s: Seq<char>)
    requires
        forall|i: int| 0 <= i < s.len() ==> is_white_space(#[trigger] s[i]),
    ensures
        trim_start(s).len() == 0,
    decreases s.len(),
{
    if s.len() > 0 {
        assert(is_white_space(s[0]));
        assert forall|i: int| 0 <= i < s.drop_first().len() implies is_white_space(
            #[trigger] s.drop_first()[i],
        ) by {
            assert(s.drop_first()[i] == s[i + 1]);
        }
        lemma_trim_start_all_white(s.drop_first());
    }
}

proof fn lemma_trim_start_stops(s: Seq<char>, k: int)
    requires
        0 <= k < s.len(),
        !is_white_space(s[k]),
    ensures
        trim_start(s).len() > 0,
        !is_white_space(trim_start(s)[0]),
    decreases s.len(),
{
    if s.len() > 0 && is_white_space(s[0]) {
        assert(k > 0);
        assert(s.drop_first()[k - 1] == s[k]);
        lemma_trim_start_stops(s.drop_first(), k - 1);
    }
}

proof fn lemma_trim_end_keeps_first(t: Seq<char>)
    requires
        t.len() > 0,
        !is_white_space(t[0]),
    ensures
        trim_end(t).len() > 0,
    decreases t.len(),
{
    if is_white_space(t.last()) {
        assert(t.len() > 1);
        assert(t.drop_last()[0] == t[0]);
        lemma_trim_end_keeps_first(t.drop_last());
    }
}

} // verus!
