//! Character-level scanning over strings: whitespace, searching and trimming.
use vstd::prelude::*;

verus! {

broadcast use vstd::string::group_string_axioms;

/// Unicode `White_Space`, the set that `char::is_whitespace` tests and that
/// `str::trim` removes.
pub open spec fn is_ws(c: char) -> bool {
    ||| c == '\t' || c == '\n' || c == '\u{0B}' || c == '\u{0C}' || c == '\r' || c == ' '
    ||| c == '\u{85}' || c == '\u{A0}' || c == '\u{1680}'
    ||| ('\u{2000}' <= c && c <= '\u{200A}')
    ||| c == '\u{2028}' || c == '\u{2029}' || c == '\u{202F}' || c == '\u{205F}' || c == '\u{3000}'
}

pub fn is_whitespace(c: char) -> (b: bool)
    ensures
        b == is_ws(c),
{
    c == '\t' || c == '\n' || c == '\u{0B}' || c == '\u{0C}' || c == '\r' || c == ' ' || c
        == '\u{85}' || c == '\u{A0}' || c == '\u{1680}' || ('\u{2000}' <= c && c <= '\u{200A}')
        || c == '\u{2028}' || c == '\u{2029}' || c == '\u{202F}' || c == '\u{205F}' || c
        == '\u{3000}'
}

/// First index `k >= i` with `s[k] == c`.
pub open spec fn find_from(s: Seq<char>, c: char, i: int) -> Option<int>
    decreases s.len() - i,
{
    if i < 0 || i >= s.len() {
        None
    } else if s[i] == c {
        Some(i)
    } else {
        find_from(s, c, i + 1)
    }
}

/// First index `k >= i` at which `pat` occurs in `s`.
pub open spec fn find_seq_from(s: Seq<char>, pat: Seq<char>, i: int) -> Option<int>
    decreases s.len() - i,
{
    if i < 0 || i >= s.len() || i + pat.len() > s.len() {
        None
    } else if s.subrange(i, i + pat.len()) == pat {
        Some(i)
    } else {
        find_seq_from(s, pat, i + 1)
    }
}

/// Last index `k < j` with `s[k] == c`.
pub open spec fn rfind_before(s: Seq<char>, c: char, j: int) -> Option<int>
    decreases j,
{
    if j <= 0 || j > s.len() {
        None
    } else if s[j - 1] == c {
        Some(j - 1)
    } else {
        rfind_before(s, c, j - 1)
    }
}

/// First index in `[i, hi)` that holds no whitespace, or `hi`.
pub open spec fn skip_ws(s: Seq<char>, i: int, hi: int) -> int
    decreases hi - i,
{
    if i < hi && is_ws(s[i]) {
        skip_ws(s, i + 1, hi)
    } else {
        i
    }
}

/// Smallest `k` in `[lo, j]` such that `s[k..j]` is all whitespace.
pub open spec fn back_ws(s: Seq<char>, lo: int, j: int) -> int
    decreases j - lo,
{
    if lo < j && is_ws(s[j - 1]) {
        back_ws(s, lo, j - 1)
    } else {
        j
    }
}

/// `str::trim_start`: the sequence without its leading whitespace.
pub open spec fn trim_start(s: Seq<char>) -> Seq<char> {
    s.skip(skip_ws(s, 0, s.len() as int))
}

/// `str::trim_end`: the sequence without its trailing whitespace.
pub open spec fn trim_end(s: Seq<char>) -> Seq<char> {
    s.take(back_ws(s, 0, s.len() as int))
}

/// `str::trim`: the sequence without leading and trailing whitespace.
pub open spec fn trim(s: Seq<char>) -> Seq<char> {
    trim_end(trim_start(s))
}

/// The views of a sequence of strings.
pub open spec fn views(v: Seq<String>) -> Seq<Seq<char>> {
    v.map_values(|x: String| x@)
}

pub proof fn lemma_find_from(s: Seq<char>, c: char, i: int)
    requires
        0 <= i,
    ensures
        match find_from(s, c, i) {
            Some(k) => 0 <= i <= k < s.len() && s[k] == c && forall|j: int|
                i <= j < k ==> s[j] != c,
            None => forall|j: int| i <= j < s.len() && 0 <= j ==> s[j] != c,
        },
    decreases s.len() - i,
{
    if i < 0 || i >= s.len() {
    } else if s[i] == c {
    } else {
        lemma_find_from(s, c, i + 1);
    }
}

pub proof fn lemma_find_seq_from(s: Seq<char>, pat: Seq<char>, i: int)
    requires
        0 <= i,
    ensures
        match find_seq_from(s, pat, i) {
            Some(k) => 0 <= i <= k && k + pat.len() <= s.len() && k < s.len() && s.subrange(
                k,
                k + pat.len(),
            ) == pat && forall|j: int| i <= j < k ==> #[trigger] s.subrange(j, j + pat.len()) != pat,
            None => forall|j: int|
                0 <= i <= j && j + pat.len() <= s.len() && j < s.len() ==> #[trigger] s.subrange(
                    j,
                    j + pat.len(),
                ) != pat,
        },
    decreases s.len() - i,
{
    if i < 0 || i >= s.len() || i + pat.len() > s.len() {
    } else if s.subrange(i, i + pat.len()) == pat {
    } else {
        lemma_find_seq_from(s, pat, i + 1);
    }
}

/// The first occurrence of `pat` at or after `i` is at `e` when it occurs
/// there and at no position between.
pub proof fn lemma_find_seq_at(s: Seq<char>, pat: Seq<char>, i: int, e: int)
    requires
        0 <= i <= e,
        0 < pat.len(),
        e + pat.len() <= s.len(),
        s.subrange(e, e + pat.len()) == pat,
        forall|j: int| i <= j < e ==> #[trigger] s.subrange(j, j + pat.len()) != pat,
    ensures
        find_seq_from(s, pat, i) == Some(e),
{
    lemma_find_seq_from(s, pat, i);
    match find_seq_from(s, pat, i) {
        Some(k) => {
            if k > e {
                assert(s.subrange(e, e + pat.len()) != pat);
            }
        },
        None => {
            assert(s.subrange(e, e + pat.len()) != pat);
        },
    }
}

pub proof fn lemma_rfind_before(s: Seq<char>, c: char, j: int)
    requires
        0 <= j <= s.len(),
    ensures
        match rfind_before(s, c, j) {
            Some(k) => 0 <= k < j && s[k] == c && forall|m: int| k < m < j ==> s[m] != c,
            None => forall|m: int| 0 <= m < j ==> s[m] != c,
        },
    decreases j,
{
    if j <= 0 {
    } else if s[j - 1] == c {
    } else {
        lemma_rfind_before(s, c, j - 1);
    }
}

pub proof fn lemma_skip_ws(s: Seq<char>, i: int, hi: int)
    requires
        0 <= i <= hi <= s.len(),
    ensures
        i <= skip_ws(s, i, hi) <= hi,
        forall|k: int| i <= k < skip_ws(s, i, hi) ==> is_ws(s[k]),
        skip_ws(s, i, hi) < hi ==> !is_ws(s[skip_ws(s, i, hi)]),
    decreases hi - i,
{
    if i < hi && is_ws(s[i]) {
        lemma_skip_ws(s, i + 1, hi);
    }
}

pub proof fn lemma_back_ws(s: Seq<char>, lo: int, j: int)
    requires
        0 <= lo <= j <= s.len(),
    ensures
        lo <= back_ws(s, lo, j) <= j,
        forall|k: int| back_ws(s, lo, j) <= k < j ==> is_ws(s[k]),
        back_ws(s, lo, j) > lo ==> !is_ws(s[back_ws(s, lo, j) - 1]),
    decreases j - lo,
{
    if lo < j && is_ws(s[j - 1]) {
        lemma_back_ws(s, lo, j - 1);
    }
}

/// `skip_ws` on a window of `s` is `skip_ws` on that window taken alone.
pub proof fn lemma_skip_ws_window(s: Seq<char>, lo: int, i: int, hi: int)
    requires
        0 <= lo <= i <= hi <= s.len(),
    ensures
        skip_ws(s, i, hi) == lo + skip_ws(s.subrange(lo, hi), i - lo, hi - lo),
    decreases hi - i,
{
    if i < hi && is_ws(s[i]) {
        lemma_skip_ws_window(s, lo, i + 1, hi);
    }
}

/// `back_ws` on a window of `s` is `back_ws` on that window taken alone.
pub proof fn lemma_back_ws_window(s: Seq<char>, lo: int, k: int, j: int, hi: int)
    requires
        0 <= lo <= k <= j <= hi <= s.len(),
    ensures
        back_ws(s, k, j) == lo + back_ws(s.subrange(lo, hi), k - lo, j - lo),
    decreases j - k,
{
    if k < j && is_ws(s[j - 1]) {
        lemma_back_ws_window(s, lo, k, j - 1, hi);
    }
}

/// The characters of a string slice, in order.
pub fn chars_of(s: &str) -> (v: Vec<char>)
    ensures
        v@ == s@,
{
    let mut v: Vec<char> = Vec::new();
    for c in it: s.chars()
        invariant
            it.seq() == s@,
            v@ == s@.take(it.index() as int),
    {
        v.push(c);
        assert(v@ == s@.take(it.index() as int + 1));
    }
    assert(s@.take(s@.len() as int) == s@);
    v
}

/// `String::push`: appends one character at the end of the string.
#[verifier::external_body]
pub(crate) fn push_char(s: &mut String, c: char)
    ensures
        final(s)@ == old(s)@.push(c),
{
    s.push(c);
}

/// Appends the characters of `t` at the end of `s`.
pub fn push_str(s: &mut String, t: &str)
    ensures
        final(s)@ == old(s)@ + t@,
{
    let ghost s0 = s@;
    let v = chars_of(t);
    let mut i: usize = 0;
    while i < v.len()
        invariant
            i <= v@.len(),
            v@ == t@,
            s@ == s0 + v@.take(i as int),
        decreases v.len() - i,
    {
        push_char(s, v[i]);
        i += 1;
        assert(s@ == s0 + v@.take(i as int));
    }
    assert(v@.take(v@.len() as int) == v@);
}

/// The string made of `v[lo..hi]`.
pub fn string_from(v: &Vec<char>, lo: usize, hi: usize) -> (r: String)
    requires
        lo <= hi <= v.len(),
    ensures
        r@ == v@.subrange(lo as int, hi as int),
{
    let mut r = String::new();
    let mut i = lo;
    while i < hi
        invariant
            lo <= i <= hi <= v.len(),
            r@ == v@.subrange(lo as int, i as int),
        decreases hi - i,
    {
        push_char(&mut r, v[i]);
        i += 1;
        assert(r@ == v@.subrange(lo as int, i as int));
    }
    r
}

/// A copy of `v[lo..hi]`.
pub fn sub_vec(v: &Vec<char>, lo: usize, hi: usize) -> (r: Vec<char>)
    requires
        lo <= hi <= v.len(),
    ensures
        r@ == v@.subrange(lo as int, hi as int),
{
    let mut r: Vec<char> = Vec::new();
    let mut i = lo;
    while i < hi
        invariant
            lo <= i <= hi <= v.len(),
            r@ == v@.subrange(lo as int, i as int),
        decreases hi - i,
    {
        r.push(v[i]);
        i += 1;
        assert(r@ == v@.subrange(lo as int, i as int));
    }
    r
}

/// `s.trim().to_string()`.
pub fn trimmed_string(s: &str) -> (r: String)
    ensures
        r@ == trim(s@),
{
    let v = chars_of(s);
    let (a, b) = trim_range(&v, 0, v.len());
    assert(v@.subrange(0, v@.len() as int) == v@);
    string_from(&v, a, b)
}

/// Whether two character vectors are equal.
pub fn chars_eq(a: &Vec<char>, b: &Vec<char>) -> (r: bool)
    ensures
        r == (a@ == b@),
{
    if a.len() != b.len() {
        return false;
    }
    let mut i: usize = 0;
    while i < a.len()
        invariant
            a@.len() == b@.len(),
            i <= a.len(),
            forall|j: int| 0 <= j < i ==> a@[j] == b@[j],
        decreases a.len() - i,
    {
        if a[i] != b[i] {
            return false;
        }
        i += 1;
    }
    assert(a@ =~= b@);
    true
}

/// Exec form of `find_from`, searching `v[i..]`.
pub fn find_char(v: &Vec<char>, c: char, i: usize) -> (r: Option<usize>)
    ensures
        match r {
            Some(k) => find_from(v@, c, i as int) == Some(k as int),
            None => find_from(v@, c, i as int) is None,
        },
{
    let mut k = i;
    while k < v.len()
        invariant
            i <= k,
            find_from(v@, c, i as int) == find_from(v@, c, k as int),
        decreases v.len() - k,
    {
        if v[k] == c {
            return Some(k);
        }
        k += 1;
    }
    None
}

/// Whether `pat` occurs in `v` at index `k`.
pub fn matches_at(v: &Vec<char>, pat: &Vec<char>, k: usize) -> (b: bool)
    requires
        k + pat.len() <= v.len(),
    ensures
        b == (v@.subrange(k as int, k + pat.len()) == pat@),
{
    let mut m: usize = 0;
    while m < pat.len()
        invariant
            k + pat.len() <= v.len(),
            m <= pat.len(),
            forall|j: int| 0 <= j < m ==> v@[k + j] == pat@[j],
        decreases pat.len() - m,
    {
        if v[k + m] != pat[m] {
            assert(v@.subrange(k as int, k + pat.len())[m as int] != pat@[m as int]);
            return false;
        }
        m += 1;
    }
    assert(v@.subrange(k as int, k + pat.len()) =~= pat@);
    true
}

/// Exec form of `find_seq_from`, searching `v[i..]` for `pat`.
pub fn find_pattern(v: &Vec<char>, pat: &Vec<char>, i: usize) -> (r: Option<usize>)
    ensures
        match r {
            Some(k) => find_seq_from(v@, pat@, i as int) == Some(k as int),
            None => find_seq_from(v@, pat@, i as int) is None,
        },
{
    let mut k = i;
    while k < v.len()
        invariant
            i <= k,
            find_seq_from(v@, pat@, i as int) == find_seq_from(v@, pat@, k as int),
        decreases v.len() - k,
    {
        if pat.len() > v.len() - k {
            return None;
        }
        if matches_at(v, pat, k) {
            return Some(k);
        }
        k += 1;
    }
    None
}

/// Exec form of `rfind_before`, searching `v[..j]` from the back.
pub fn rfind_char(v: &Vec<char>, c: char, j: usize) -> (r: Option<usize>)
    requires
        j <= v.len(),
    ensures
        match r {
            Some(k) => rfind_before(v@, c, j as int) == Some(k as int),
            None => rfind_before(v@, c, j as int) is None,
        },
{
    let mut k = j;
    while k > 0
        invariant
            k <= j <= v.len(),
            rfind_before(v@, c, j as int) == rfind_before(v@, c, k as int),
        decreases k,
    {
        if v[k - 1] == c {
            return Some(k - 1);
        }
        k -= 1;
    }
    None
}

/// Exec form of `skip_ws`.
pub fn skip_whitespace(v: &Vec<char>, i: usize, hi: usize) -> (r: usize)
    requires
        i <= hi <= v.len(),
    ensures
        r == skip_ws(v@, i as int, hi as int),
        i <= r <= hi,
{
    proof {
        lemma_skip_ws(v@, i as int, hi as int);
    }
    let mut k = i;
    while k < hi && is_whitespace(v[k])
        invariant
            i <= k <= hi <= v.len(),
            skip_ws(v@, i as int, hi as int) == skip_ws(v@, k as int, hi as int),
        decreases hi - k,
    {
        k += 1;
    }
    k
}

/// Exec form of `back_ws`.
pub fn back_whitespace(v: &Vec<char>, lo: usize, j: usize) -> (r: usize)
    requires
        lo <= j <= v.len(),
    ensures
        r == back_ws(v@, lo as int, j as int),
        lo <= r <= j,
{
    proof {
        lemma_back_ws(v@, lo as int, j as int);
    }
    let mut k = j;
    while lo < k && is_whitespace(v[k - 1])
        invariant
            lo <= k <= j <= v.len(),
            back_ws(v@, lo as int, j as int) == back_ws(v@, lo as int, k as int),
        decreases k,
    {
        k -= 1;
    }
    k
}

/// The bounds of `trim(v[lo..hi])` inside `v`.
pub fn trim_range(v: &Vec<char>, lo: usize, hi: usize) -> (r: (usize, usize))
    requires
        lo <= hi <= v.len(),
    ensures
        lo <= r.0 <= r.1 <= hi,
        v@.subrange(r.0 as int, r.1 as int) == trim(v@.subrange(lo as int, hi as int)),
{
    let a = skip_whitespace(v, lo, hi);
    let b = back_whitespace(v, a, hi);
    proof {
        let w = v@.subrange(lo as int, hi as int);
        lemma_skip_ws(v@, lo as int, hi as int);
        lemma_back_ws(v@, a as int, hi as int);
        lemma_skip_ws_window(v@, lo as int, lo as int, hi as int);
        let t = trim_start(w);
        assert(t == v@.subrange(a as int, hi as int));
        lemma_back_ws_window(v@, a as int, a as int, hi as int, hi as int);
        assert(back_ws(v@, a as int, hi as int) == a + back_ws(t, 0, t.len() as int));
        assert(trim(w) == t.take(b - a));
    }
    (a, b)
}

/// The lowercase hexadecimal digit of `d`, for `d` below 16.
pub open spec fn hex_digit(d: int) -> char {
    if d == 0 { '0' } else if d == 1 { '1' } else if d == 2 { '2' } else if d == 3 { '3' }
    else if d == 4 { '4' } else if d == 5 { '5' } else if d == 6 { '6' } else if d == 7 { '7' }
    else if d == 8 { '8' } else if d == 9 { '9' } else if d == 10 { 'a' } else if d == 11 { 'b' }
    else if d == 12 { 'c' } else if d == 13 { 'd' } else if d == 14 { 'e' } else { 'f' }
}

/// The decimal digits of `n`, most significant first, with no leading zero.
pub open spec fn decimal(n: nat) -> Seq<char>
    decreases n,
{
    if n < 10 {
        seq![hex_digit(n as int)]
    } else {
        decimal(n / 10).push(hex_digit((n % 10) as int))
    }
}

} // verus!
