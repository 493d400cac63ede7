//! Fuzzy matching of names: case-folded, separator-blind, prefix and substring
//! comparison, scored.
use vstd::prelude::*;
use crate::text::matches_at;

verus! {

/// `str::to_lowercase`: the lowercase mapping of a string (Unicode
/// `Lowercase_Mapping`, with the final-sigma rule).
pub uninterp spec fn lowercase(s: Seq<char>) -> Seq<char>;

/// `str::to_lowercase` on the string that `v` spells.
#[verifier::external_body]
pub(crate) fn lowercase_chars(v: &Vec<char>) -> (r: Vec<char>)
    ensures
        r@ == lowercase(v@),
{
    let s: String = v.iter().collect();
    s.to_lowercase().chars().collect()
}

/// `-`, `_` or a space: what fuzzy matching ignores.
pub open spec fn is_separator(c: char) -> bool {
    c == '-' || c == '_' || c == ' '
}

/// `s.replace(['-', '_', ' '], "")`.
pub open spec fn without_separators(s: Seq<char>) -> Seq<char>
    decreases s.len(),
{
    if s.len() == 0 {
        seq![]
    } else {
        without_separators(s.drop_last()) + if is_separator(s.last()) {
            seq![]
        } else {
            seq![s.last()]
        }
    }
}

/// `s.starts_with(p)`.
pub open spec fn is_prefix(p: Seq<char>, s: Seq<char>) -> bool {
    p.len() <= s.len() && s.take(p.len() as int) == p
}

/// `s.contains(p)`.
pub open spec fn contains_seq(s: Seq<char>, p: Seq<char>) -> bool {
    exists|i: int| 0 <= i && i + p.len() <= s.len() && #[trigger] s.subrange(i, i + p.len()) == p
}

/// How well a candidate name matches a target given lowercased (`tl`) and
/// lowercased without separators (`tn`): 100 for equal up to case, 90 for equal
/// up to case and separators, 60 when one starts with the other, 40 when one
/// contains the other, 0 otherwise.
pub open spec fn score_spec(candidate: Seq<char>, tl: Seq<char>, tn: Seq<char>) -> int {
    let cl = lowercase(candidate);
    let cn = without_separators(cl);
    if cl == tl {
        100
    } else if cn == tn {
        90
    } else if is_prefix(tl, cl) || is_prefix(cl, tl) {
        60
    } else if contains_seq(cl, tl) || contains_seq(tl, cl) {
        40
    } else {
        0
    }
}

/// The number of bytes that UTF-8 takes for `c`.
pub open spec fn utf8_width(c: char) -> nat {
    if (c as u32) < 0x80 {
        1
    } else if (c as u32) < 0x800 {
        2
    } else if (c as u32) < 0x10000 {
        3
    } else {
        4
    }
}

/// `str::len`: the number of bytes that UTF-8 takes for `s`.
pub open spec fn utf8_len(s: Seq<char>) -> nat
    decreases s.len(),
{
    if s.len() == 0 {
        0
    } else {
        utf8_len(s.drop_last()) + utf8_width(s.last())
    }
}

pub proof fn lemma_utf8_len_bound(s: Seq<char>)
    ensures
        utf8_len(s) <= 4 * s.len(),
    decreases s.len(),
{
    if s.len() > 0 {
        lemma_utf8_len_bound(s.drop_last());
    }
}

pub fn utf8_length(v: &Vec<char>) -> (r: u128)
    ensures
        r == utf8_len(v@),
{
    let mut total: u128 = 0;
    let mut i: usize = 0;
    while i < v.len()
        invariant
            i <= v@.len(),
            total == utf8_len(v@.take(i as int)),
        decreases v.len() - i,
    {
        proof {
            lemma_utf8_len_bound(v@.take(i as int));
            assert(v@.take(i + 1).drop_last() =~= v@.take(i as int));
        }
        let c = v[i] as u32;
        let w: u128 = if c < 0x80 {
            1
        } else if c < 0x800 {
            2
        } else if c < 0x10000 {
            3
        } else {
            4
        };
        total = total + w;
        i += 1;
    }
    assert(v@.take(v@.len() as int) =~= v@);
    total
}

pub fn strip_separators(v: &Vec<char>) -> (r: Vec<char>)
    ensures
        r@ == without_separators(v@),
{
    let mut out: Vec<char> = Vec::new();
    let mut i: usize = 0;
    while i < v.len()
        invariant
            i <= v@.len(),
            out@ == without_separators(v@.take(i as int)),
        decreases v.len() - i,
    {
        assert(v@.take(i + 1).drop_last() =~= v@.take(i as int));
        let c = v[i];
        if !(c == '-' || c == '_' || c == ' ') {
            out.push(c);
        }
        i += 1;
    }
    assert(v@.take(v@.len() as int) =~= v@);
    out
}

pub fn starts_with(s: &Vec<char>, p: &Vec<char>) -> (r: bool)
    ensures
        r == is_prefix(p@, s@),
{
    if p.len() > s.len() {
        return false;
    }
    let r = matches_at(s, p, 0);
    assert(s@.subrange(0, p@.len() as int) == s@.take(p@.len() as int));
    r
}

pub fn contains(s: &Vec<char>, p: &Vec<char>) -> (r: bool)
    ensures
        r == contains_seq(s@, p@),
{
    if p.len() > s.len() {
        return false;
    }
    let last = s.len() - p.len();
    let mut i: usize = 0;
    loop
        invariant
            last + p@.len() == s@.len(),
            i <= last,
            forall|j: int| 0 <= j < i ==> #[trigger] s@.subrange(j, j + p@.len()) != p@,
        decreases last - i,
    {
        if matches_at(s, p, i) {
            return true;
        }
        if i == last {
            return false;
        }
        i += 1;
    }
}

/// The score of `candidate` against a target lowercased (`tl`) and lowercased
/// without separators (`tn`).
pub fn fuzzy_score(candidate: &Vec<char>, tl: &Vec<char>, tn: &Vec<char>) -> (r: i32)
    ensures
        r as int == score_spec(candidate@, tl@, tn@),
{
    let cl = lowercase_chars(candidate);
    let cn = strip_separators(&cl);
    if crate::text::chars_eq(&cl, tl) {
        100
    } else if crate::text::chars_eq(&cn, tn) {
        90
    } else if starts_with(&cl, tl) || starts_with(tl, &cl) {
        60
    } else if contains(&cl, tl) || contains(tl, &cl) {
        40
    } else {
        0
    }
}

} // verus!
