//! Which interface language to start in. The texts themselves live in the
//! front end; this side only classifies the system locale.

use vstd::prelude::*;

use crate::text::{is_blank, is_blank_str};

verus! {

/// The supported languages.
#[derive(Clone, Copy, PartialEq, Eq, Debug, Structural)]
pub enum Language {
    /// Simplified Chinese.
    ZhCN,
    /// Traditional Chinese.
    ZhTW,
    /// English.
    En,
}

/// The BCP-47 code of a language, the key the front end uses.
pub open spec fn language_code(l: Language) -> Seq<char> {
    match l {
        Language::ZhCN => seq!['z', 'h', '-', 'C', 'N'],
        Language::ZhTW => seq!['z', 'h', '-', 'T', 'W'],
        Language::En => seq!['e', 'n'],
    }
}

impl Language {
    /// `zh-CN`, `zh-TW` or `en`.
    pub fn code(self) -> (r: &'static str)
        ensures
            r@ == language_code(self),
    {
        match self {
            Language::ZhCN => {
                let c = "zh-CN";
                proof {
                    reveal_strlit("zh-CN");
                }
                assert(c@ =~= language_code(self));
                c
            },
            Language::ZhTW => {
                let c = "zh-TW";
                proof {
                    reveal_strlit("zh-TW");
                }
                assert(c@ =~= language_code(self));
                c
            },
            Language::En => {
                let c = "en";
                proof {
                    reveal_strlit("en");
                }
                assert(c@ =~= language_code(self));
                c
            },
        }
    }
}

/// Lower-cases ASCII letters and turns `_` into `-`.
pub open spec fn normalize_char(c: char) -> char {
    if c == '_' {
        '-'
    } else if 65 <= (c as u32) <= 90 {
        ((c as u32) + 32) as char
    } else {
        c
    }
}

pub open spec fn normalize_locale(s: Seq<char>) -> Seq<char> {
    s.map_values(|c: char| normalize_char(c))
}

pub open spec fn starts_with_text(h: Seq<char>, n: Seq<char>) -> bool {
    h.len() >= n.len() && h.subrange(0, n.len() as int) == n
}

pub open spec fn contains_text(h: Seq<char>, n: Seq<char>) -> bool {
    exists|i: int| 0 <= i <= h.len() - n.len() && #[trigger] h.subrange(i, i + n.len()) == n
}

/// The language of a locale such as `zh_CN.UTF-8`, `zh-Hant-TW` or `en_US`:
/// Chinese locales are traditional where they name `Hant`, `TW`, `HK` or
/// `MO` and simplified otherwise; all else is English.
pub open spec fn classify_spec(locale: Seq<char>) -> Language {
    let t = normalize_locale(locale);
    if starts_with_text(t, seq!['z', 'h']) {
        if contains_text(t, seq!['h', 'a', 'n', 't']) || contains_text(t, seq!['t', 'w'])
            || contains_text(t, seq!['h', 'k']) || contains_text(t, seq!['m', 'o']) {
            Language::ZhTW
        } else {
            Language::ZhCN
        }
    } else {
        Language::En
    }
}

fn normalize(locale: &str) -> (r: Vec<char>)
    ensures
        r@ == normalize_locale(locale@),
{
    let n = locale.unicode_len();
    let mut out: Vec<char> = Vec::new();
    let mut i: usize = 0;
    while i < n
        invariant
            i <= n,
            n == locale@.len(),
            out@ =~= normalize_locale(locale@).take(i as int),
        decreases n - i,
    {
        let c = locale.get_char(i);
        let u = c as u32;
        let d = if c == '_' {
            '-'
        } else if 65 <= u && u <= 90 {
            ((u + 32) as u8) as char
        } else {
            c
        };
        assert(d == normalize_char(c));
        out.push(d);
        i = i + 1;
    }
    out
}

fn matches_at(h: &Vec<char>, n: &Vec<char>, i: usize) -> (r: bool)
    requires
        i + n@.len() <= h@.len(),
    ensures
        r == (h@.subrange(i as int, i + n@.len()) == n@),
{
    let m = n.len();
    let hl = h.len();
    let mut k: usize = 0;
    while k < m
        invariant
            k <= m,
            m == n@.len(),
            i + m <= h@.len(),
            hl == h@.len(),
            h@.subrange(i as int, i + k) == n@.take(k as int),
        decreases m - k,
    {
        if h[i + k] != n[k] {
            assert(h@.subrange(i as int, i + m)[k as int] != n@[k as int]);
            return false;
        }
        assert(h@.subrange(i as int, i + k + 1) =~= h@.subrange(i as int, i + k).push(h@[i + k]));
        assert(n@.take(k + 1) =~= n@.take(k as int).push(n@[k as int]));
        k = k + 1;
    }
    assert(n@.take(m as int) =~= n@);
    true
}

fn contains(h: &Vec<char>, n: &Vec<char>) -> (r: bool)
    ensures
        r == contains_text(h@, n@),
{
    if n.len() == 0 {
        assert(h@.subrange(0, 0 + n@.len() as int) =~= n@);
        return true;
    }
    if n.len() > h.len() {
        return false;
    }
    let hl = h.len();
    let mut i: usize = 0;
    while i < hl
        invariant
            hl == h@.len(),
            1 <= n@.len() <= hl,
            i <= hl,
            forall|j: int|
                0 <= j < i && j <= h@.len() - n@.len() ==> #[trigger] h@.subrange(
                    j,
                    j + n@.len(),
                ) != n@,
        decreases hl - i,
    {
        if i <= hl - n.len() && matches_at(h, n, i) {
            return true;
        }
        i = i + 1;
    }
    false
}

/// Classifies a locale string.
pub fn classify(locale: &str) -> (r: Language)
    ensures
        r == classify_spec(locale@),
{
    let t = normalize(locale);
    let zh = vec!['z', 'h'];
    let starts = t.len() >= 2 && matches_at(&t, &zh, 0);
    if starts {
        if contains(&t, &vec!['h', 'a', 'n', 't']) || contains(&t, &vec!['t', 'w']) || contains(
            &t,
            &vec!['h', 'k'],
        ) || contains(&t, &vec!['m', 'o']) {
            Language::ZhTW
        } else {
            Language::ZhCN
        }
    } else {
        Language::En
    }
}

/// The first locale value that is set and not blank.
pub open spec fn first_locale(values: Seq<Option<String>>) -> Option<Seq<char>>
    decreases values.len(),
{
    if values.len() == 0 {
        None
    } else {
        match values[0] {
            Some(v) => if is_blank(v@) {
                first_locale(values.drop_first())
            } else {
                Some(v@)
            },
            None => first_locale(values.drop_first()),
        }
    }
}

/// The language for the values of `LC_ALL`, `LC_MESSAGES`, `LANG` and
/// `LANGUAGE`, in that order: the first one that is set and not blank
/// decides; without one, English.
pub fn detect_language_from(values: &Vec<Option<String>>) -> (r: Language)
    ensures
        r == match first_locale(values@) {
            Some(l) => classify_spec(l),
            None => Language::En,
        },
{
    let n = values.len();
    let mut i: usize = 0;
    assert(values@.skip(0) =~= values@);
    while i < n
        invariant
            i <= n,
            n == values@.len(),
            first_locale(values@) == first_locale(values@.skip(i as int)),
        decreases n - i,
    {
        assert(values@.skip(i as int)[0] == values@[i as int]);
        assert(values@.skip(i as int).drop_first() =~= values@.skip(i + 1));
        match &values[i] {
            Some(v) => {
                if !is_blank_str(v.as_str()) {
                    return classify(v.as_str());
                }
            },
            None => {},
        }
        i = i + 1;
    }
    assert(values@.skip(n as int).len() == 0);
    Language::En
}

/// A Chinese locale (one that starts with `zh`, in either case) that names
/// `Hant`, `TW`, `HK` or `MO` anywhere, in any case and with `_` or `-`, is
/// Traditional Chinese.
pub proof fn law_traditional_markers(locale: Seq<char>, marker: Seq<char>)
    requires
        starts_with_text(normalize_locale(locale), seq!['z', 'h']),
        marker == seq!['h', 'a', 'n', 't'] || marker == seq!['t', 'w'] || marker == seq!['h', 'k']
            || marker == seq!['m', 'o'],
        contains_text(normalize_locale(locale), marker),
    ensures
        classify_spec(locale) == Language::ZhTW,
{
}

/// A Chinese locale that names none of the traditional markers is
/// Simplified Chinese, and a locale that does not start with `zh` is English.
pub proof fn law_simplified_and_english(locale: Seq<char>)
    ensures
        starts_with_text(normalize_locale(locale), seq!['z', 'h']) && !contains_text(
            normalize_locale(locale),
            seq!['h', 'a', 'n', 't'],
        ) && !contains_text(normalize_locale(locale), seq!['t', 'w']) && !contains_text(
            normalize_locale(locale),
            seq!['h', 'k'],
        ) && !contains_text(normalize_locale(locale), seq!['m', 'o']) ==> classify_spec(locale)
            == Language::ZhCN,
        !starts_with_text(normalize_locale(locale), seq!['z', 'h']) ==> classify_spec(locale)
            == Language::En,
{
}

/// The first value that is set and not blank decides, whatever language it
/// names; the values after it are never consulted. Where no value is set and
/// non-blank, there is no locale (and the language is English).
pub proof fn law_first_set_value_decides(values: Seq<Option<String>>, i: int)
    requires
        0 <= i < values.len(),
        values[i] is Some,
        !is_blank(values[i]->0@),
        forall|j: int| 0 <= j < i ==> (#[trigger] values[j] is None || is_blank(values[j]->0@)),
    ensures
        first_locale(values) == Some(values[i]->0@),
    decreases i,
{
    if i > 0 {
        let rest = values.drop_first();
        assert forall|j: int| 0 <= j < i - 1 implies (#[trigger] rest[j] is None || is_blank(
            rest[j]->0@,
        )) by {
            assert(rest[j] == values[j + 1]);
        }
        assert(rest[i - 1] == values[i]);
        assert(values[0] is None || is_blank(values[0]->0@));
        law_first_set_value_decides(rest, i - 1);
    }
}

/// Without a value that is set and not blank there is no locale.
pub proof fn law_no_set_value(values: Seq<Option<String>>)
    requires
        forall|j: int| 0 <= j < values.len() ==> (#[trigger] values[j] is None || is_blank(
            values[j]->0@,
        )),
    ensures
        first_locale(values) is None,
    decreases values.len(),
{
    if values.len() > 0 {
        let rest = values.drop_first();
        assert forall|j: int| 0 <= j < rest.len() implies (#[trigger] rest[j] is None || is_blank(
            rest[j]->0@,
        )) by {
            assert(rest[j] == values[j + 1]);
        }
        assert(values[0] is None || is_blank(values[0]->0@));
        law_no_set_value(rest);
    }
}

} // verus!
