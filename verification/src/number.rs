//! Decimal integers: reading a signed count as `i64::from_str` does, and
//! writing a count with thousands separators for the terminal summary.

use vstd::prelude::*;

verus! {

pub open spec fn is_ascii_digit(c: char) -> bool {
    48 <= (c as u32) <= 57
}

pub open spec fn digit_value(c: char) -> nat {
    ((c as u32) - 48) as nat
}

pub open spec fn all_digits(s: Seq<char>) -> bool {
    forall|i: int| 0 <= i < s.len() ==> #[trigger] is_ascii_digit(s[i])
}

/// The value of a run of decimal digits, most significant first.
pub open spec fn digits_value(s: Seq<char>) -> nat
    decreases s.len(),
{
    if s.len() == 0 {
        0
    } else {
        digits_value(s.drop_last()) * 10 + digit_value(s.last())
    }
}

/// What `str::parse::<i64>` gives: an optional `+` or `-`, then one or more
/// ASCII digits, whose value must fit in `i64`.
pub open spec fn parse_i64_spec(s: Seq<char>) -> Option<i64> {
    let signed = s.len() > 0 && (s[0] == '-' || s[0] == '+');
    let negative = s.len() > 0 && s[0] == '-';
    let digits = if signed {
        s.drop_first()
    } else {
        s
    };
    if digits.len() == 0 || !all_digits(digits) {
        None
    } else {
        let v: int = if negative {
            -(digits_value(digits) as int)
        } else {
            digits_value(digits) as int
        };
        if i64::MIN <= v <= i64::MAX {
            Some(v as i64)
        } else {
            None
        }
    }
}

/// A prefix of a run of digits is worth no more than the whole run.
pub proof fn lemma_digits_prefix_le(s: Seq<char>, k: int)
    requires
        0 <= k <= s.len(),
    ensures
        digits_value(s.subrange(0, k)) <= digits_value(s),
    decreases s.len(),
{
    if k < s.len() {
        let t = s.drop_last();
        assert(t.subrange(0, k) =~= s.subrange(0, k));
        lemma_digits_prefix_le(t, k);
    } else {
        assert(s.subrange(0, k) =~= s);
    }
}

/// Reads a signed decimal integer.
pub fn parse_i64(s: &str) -> (r: Option<i64>)
    ensures
        r == parse_i64_spec(s@),
{
    let n = s.unicode_len();
    if n == 0 {
        return None;
    }
    let c0 = s.get_char(0);
    let start: usize = if c0 == '-' || c0 == '+' {
        1
    } else {
        0
    };
    let negative = c0 == '-';
    let ghost digits = s@.subrange(start as int, n as int);
    assert(s@.drop_first() =~= s@.subrange(1, n as int));
    assert(s@ =~= s@.subrange(0, n as int));
    assert(digits == (if s@.len() > 0 && (s@[0] == '-' || s@[0] == '+') {
        s@.drop_first()
    } else {
        s@
    }));
    if start == n {
        return None;
    }
    let mut acc: u128 = 0;
    let mut i: usize = start;
    assert(digits.subrange(0, 0) =~= Seq::<char>::empty());
    while i < n
        invariant
            start <= i <= n,
            n == s@.len(),
            digits == s@.subrange(start as int, n as int),
            digits == (if s@.len() > 0 && (s@[0] == '-' || s@[0] == '+') {
                s@.drop_first()
            } else {
                s@
            }),
            acc == digits_value(digits.subrange(0, i - start)),
            acc <= 0x8000_0000_0000_0000,
            all_digits(digits.subrange(0, i - start)),
        decreases n - i,
    {
        let c = s.get_char(i);
        let u = c as u32;
        if u < 48 || u > 57 {
            assert(digits[i - start] == c);
            assert(!is_ascii_digit(digits[i - start]));
            assert(!all_digits(digits));
            return None;
        }
        let ghost before = digits.subrange(0, i - start);
        let ghost after = digits.subrange(0, i - start + 1);
        assert(after.drop_last() =~= before);
        assert(after.last() == c);
        acc = acc * 10 + ((u - 48) as u128);
        i = i + 1;
        assert(all_digits(after)) by {
            assert forall|k: int| 0 <= k < after.len() implies is_ascii_digit(after[k]) by {
                if k < before.len() {
                    assert(after[k] == before[k]);
                }
            }
        }
        if acc > 0x8000_0000_0000_0000 {
            proof {
                if all_digits(digits) {
                    lemma_digits_prefix_le(digits, i - start);
                    assert(digits_value(digits) > 0x8000_0000_0000_0000);
                }
            }
            return None;
        }
    }
    assert(digits.subrange(0, n - start) =~= digits);
    if negative {
        let v: i128 = -(acc as i128);
        Some(v as i64)
    } else if acc <= 0x7fff_ffff_ffff_ffff {
        Some(acc as i64)
    } else {
        None
    }
}

// ---------------------------------------------------------------------
// Writing counts
// ---------------------------------------------------------------------

pub open spec fn digit_char(d: nat) -> char {
    ((d + 48) as u32) as char
}

/// The decimal digits of `n`, most significant first, without leading zeros.
pub open spec fn decimal_digits(n: nat) -> Seq<char>
    decreases n,
{
    if n < 10 {
        seq![digit_char(n)]
    } else {
        decimal_digits(n / 10).push(digit_char(n % 10))
    }
}

/// Digits with a comma before every group of three counted from the right.
pub open spec fn group_thousands(d: Seq<char>) -> Seq<char>
    decreases d.len(),
{
    if d.len() <= 3 {
        d
    } else {
        group_thousands(d.subrange(0, d.len() - 3)) + seq![','] + d.subrange(
            d.len() - 3,
            d.len() as int,
        )
    }
}

/// A count as the terminal summary prints it, e.g. `12,345` or `-1,000`.
pub open spec fn format_count_spec(n: int) -> Seq<char> {
    if n < 0 {
        seq!['-'] + group_thousands(decimal_digits((-n) as nat))
    } else {
        group_thousands(decimal_digits(n as nat))
    }
}

fn push_decimal(m: u64, out: &mut Vec<char>)
    ensures
        final(out)@ == old(out)@ + decimal_digits(m as nat),
    decreases m,
{
    if m < 10 {
        let c = ((m as u8) + 48) as char;
        assert(c == digit_char(m as nat));
        out.push(c);
        assert(final(out)@ =~= old(out)@ + decimal_digits(m as nat));
    } else {
        push_decimal(m / 10, out);
        let c = (((m % 10) as u8) + 48) as char;
        assert(c == digit_char((m % 10) as nat));
        let ghost mid = out@;
        out.push(c);
        assert(out@ =~= old(out)@ + decimal_digits(m as nat));
    }
}

fn push_grouped(d: &Vec<char>, end: usize, out: &mut String)
    requires
        end <= d@.len(),
    ensures
        final(out)@ == old(out)@ + group_thousands(d@.subrange(0, end as int)),
    decreases end,
{
    let ghost s = d@.subrange(0, end as int);
    if end <= 3 {
        let mut k: usize = 0;
        while k < end
            invariant
                k <= end,
                end <= d@.len(),
                out@ == old(out)@ + d@.subrange(0, k as int),
            decreases end - k,
        {
            out.push(d[k]);
            assert(d@.subrange(0, k + 1) =~= d@.subrange(0, k as int).push(d@[k as int]));
            k = k + 1;
        }
    } else {
        push_grouped(d, end - 3, out);
        assert(s.subrange(0, s.len() - 3) =~= d@.subrange(0, end - 3));
        out.push(',');
        out.push(d[end - 3]);
        out.push(d[end - 2]);
        out.push(d[end - 1]);
        assert(s.subrange(s.len() - 3, s.len() as int) =~= seq![
            d@[end - 3],
            d@[end - 2],
            d@[end - 1],
        ]);
        assert(out@ =~= old(out)@ + group_thousands(s));
    }
}

/// Formats a count with thousands separators (`12345` gives `12,345`).
pub fn format_count(n: i64) -> (r: String)
    requires
        n != i64::MIN,
    ensures
        r@ == format_count_spec(n as int),
{
    let negative = n < 0;
    let magnitude: u64 = if negative {
        (-n) as u64
    } else {
        n as u64
    };
    let mut digits: Vec<char> = Vec::new();
    push_decimal(magnitude, &mut digits);
    assert(digits@ =~= decimal_digits(magnitude as nat));
    let mut out = String::new();
    if negative {
        out.push('-');
    }
    assert(digits@.subrange(0, digits@.len() as int) =~= digits@);
    push_grouped(&digits, digits.len(), &mut out);
    if negative {
        assert(out@ =~= seq!['-'] + group_thousands(decimal_digits((-n) as nat)));
    } else {
        assert(out@ =~= group_thousands(decimal_digits(n as nat)));
    }
    out
}

// ---------------------------------------------------------------------
// Reading a formatted count back
// ---------------------------------------------------------------------

/// The text without its commas.
pub open spec fn strip_commas(s: Seq<char>) -> Seq<char>
    decreases s.len(),
{
    if s.len() == 0 {
        s
    } else if s.last() == ',' {
        strip_commas(s.drop_last())
    } else {
        strip_commas(s.drop_last()).push(s.last())
    }
}

proof fn lemma_strip_concat(a: Seq<char>, b: Seq<char>)
    ensures
        strip_commas(a + b) == strip_commas(a) + strip_commas(b),
    decreases b.len(),
{
    if b.len() == 0 {
        assert(a + b =~= a);
        assert(strip_commas(a) + strip_commas(b) =~= strip_commas(a));
    } else {
        lemma_strip_concat(a, b.drop_last());
        assert((a + b).drop_last() =~= a + b.drop_last());
        assert((a + b).last() == b.last());
        if b.last() != ',' {
            assert(strip_commas(a) + strip_commas(b) =~= (strip_commas(a) + strip_commas(
                b.drop_last(),
            )).push(b.last()));
        }
    }
}

proof fn lemma_strip_no_commas(s: Seq<char>)
    requires
        all_digits(s),
    ensures
        strip_commas(s) == s,
    decreases s.len(),
{
    if s.len() > 0 {
        let t = s.drop_last();
        assert(all_digits(t)) by {
            assert forall|i: int| 0 <= i < t.len() implies #[trigger] is_ascii_digit(t[i]) by {
                assert(t[i] == s[i]);
            }
        }
        lemma_strip_no_commas(t);
        assert(is_ascii_digit(s[s.len() - 1]));
        assert(t.push(s.last()) =~= s);
    }
}

proof fn lemma_strip_grouped(d: Seq<char>)
    requires
        all_digits(d),
    ensures
        strip_commas(group_thousands(d)) == d,
    decreases d.len(),
{
    if d.len() <= 3 {
        lemma_strip_no_commas(d);
    } else {
        let a = d.subrange(0, d.len() - 3);
        let b = d.subrange(d.len() - 3, d.len() as int);
        assert(all_digits(a)) by {
            assert forall|i: int| 0 <= i < a.len() implies #[trigger] is_ascii_digit(a[i]) by {
                assert(a[i] == d[i]);
            }
        }
        assert(all_digits(b)) by {
            assert forall|i: int| 0 <= i < b.len() implies #[trigger] is_ascii_digit(b[i]) by {
                assert(b[i] == d[d.len() - 3 + i]);
            }
        }
        lemma_strip_grouped(a);
        lemma_strip_no_commas(b);
        lemma_strip_concat(group_thousands(a) + seq![','], b);
        lemma_strip_concat(group_thousands(a), seq![',']);
        let comma = seq![','];
        assert(comma.last() == ',');
        assert(comma.drop_last() =~= Seq::<char>::empty());
        assert(strip_commas(comma.drop_last()) =~= Seq::<char>::empty());
        assert(strip_commas(comma) =~= Seq::<char>::empty());
        assert(a + b =~= d);
    }
}

proof fn lemma_digit_char(d: nat)
    requires
        d < 10,
    ensures
        is_ascii_digit(digit_char(d)),
        digit_value(digit_char(d)) == d,
{
    let u = (d + 48) as u32;
    assert(u == d + 48);
    assert((u as char) as u32 == u);
}

proof fn lemma_decimal_digits(n: nat)
    ensures
        all_digits(decimal_digits(n)),
        decimal_digits(n).len() > 0,
        digits_value(decimal_digits(n)) == n,
    decreases n,
{
    if n < 10 {
        lemma_digit_char(n);
        assert(decimal_digits(n).drop_last() =~= Seq::<char>::empty());
        assert(digits_value(Seq::<char>::empty()) == 0);
        assert(digits_value(decimal_digits(n)) == digits_value(decimal_digits(n).drop_last()) * 10
            + digit_value(decimal_digits(n).last()));
    } else {
        lemma_decimal_digits(n / 10);
        lemma_digit_char(n % 10);
        let p = decimal_digits(n / 10);
        let q = decimal_digits(n);
        assert(q.drop_last() =~= p);
        assert(q.last() == digit_char(n % 10));
        assert((n / 10) * 10 + n % 10 == n);
        assert(digits_value(q) == digits_value(q.drop_last()) * 10 + digit_value(q.last()));
        assert forall|i: int| 0 <= i < q.len() implies #[trigger] is_ascii_digit(q[i]) by {
            if i < p.len() {
                assert(q[i] == p[i]);
            }
        }
    }
}

/// A count printed with thousands separators reads back as the same count
/// once the separators are taken out.
pub proof fn law_format_count_reads_back(n: i64)
    requires
        n != i64::MIN,
    ensures
        parse_i64_spec(strip_commas(format_count_spec(n as int))) == Some(n),
{
    let m: nat = if n < 0 {
        (-n) as nat
    } else {
        n as nat
    };
    let d = decimal_digits(m);
    lemma_decimal_digits(m);
    lemma_strip_grouped(d);
    let f = format_count_spec(n as int);
    if n < 0 {
        lemma_strip_concat(seq!['-'], group_thousands(d));
        let minus = seq!['-'];
        assert(minus.last() == '-');
        assert(minus.drop_last() =~= Seq::<char>::empty());
        assert(strip_commas(minus.drop_last()) =~= Seq::<char>::empty());
        assert(strip_commas(minus) =~= minus);
        let t = strip_commas(f);
        assert(t =~= seq!['-'] + d);
        assert(t.drop_first() =~= d);
        assert(t[0] == '-');
    } else {
        let t = strip_commas(f);
        assert(t == d);
        assert(is_ascii_digit(t[0]));
    }
}

} // verus!
