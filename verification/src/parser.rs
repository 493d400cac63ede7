//! Note files: line endings, frontmatter fences, and the body syntax
//! (`[[link]]`, `((transclusion))`, `- bullet ^block-id`).
use vstd::prelude::*;
use vstd::string::*;
use crate::model::{Block, block_view, block_views};
use crate::text::{
    back_ws, chars_of, push_str, find_char, find_from, find_pattern, find_seq_from, is_ws, lemma_find_from,
    lemma_find_seq_from, lemma_find_seq_at, push_char, rfind_before, rfind_char, skip_ws, skip_whitespace,
    back_whitespace, string_from, sub_vec, trim, trim_range, trim_start, trimmed_string, views,
    lemma_rfind_before, lemma_skip_ws, lemma_back_ws, lemma_back_ws_window,
};

verus! {

broadcast use vstd::string::group_string_axioms;

// ---------------------------------------------------------------- line endings

/// `s[i..]` with every `\r\n` replaced by `\n`, left to right.
pub open spec fn crlf_from(s: Seq<char>, i: int) -> Seq<char>
    decreases s.len() - i,
{
    if i < 0 || i >= s.len() {
        seq![]
    } else if i + 1 < s.len() && s[i] == '\r' && s[i + 1] == '\n' {
        seq!['\n'] + crlf_from(s, i + 2)
    } else {
        seq![s[i]] + crlf_from(s, i + 1)
    }
}

/// `content.replace("\r\n", "\n")`.
pub open spec fn normalized(s: Seq<char>) -> Seq<char> {
    crlf_from(s, 0)
}

/// Turns Windows line endings into `\n`.
pub fn normalize(content: &str) -> (r: String)
    ensures
        r@ == normalized(content@),
{
    let v = chars_of(content);
    let mut out = String::new();
    let mut i: usize = 0;
    while i < v.len()
        invariant
            i <= v.len(),
            out@ + crlf_from(v@, i as int) == normalized(v@),
        decreases v.len() - i,
    {
        if i + 1 < v.len() && v[i] == '\r' && v[i + 1] == '\n' {
            assert(out@ + crlf_from(v@, i as int) == out@.push('\n') + crlf_from(v@, i + 2));
            push_char(&mut out, '\n');
            i += 2;
        } else {
            assert(out@ + crlf_from(v@, i as int) == out@.push(v@[i as int]) + crlf_from(
                v@,
                i + 1,
            ));
            push_char(&mut out, v[i]);
            i += 1;
        }
    }
    assert(out@ + crlf_from(v@, i as int) == out@);
    out
}

// ---------------------------------------------------------------- frontmatter fences

/// The opening fence, `---\n`.
pub open spec fn fence_open() -> Seq<char> {
    seq!['-', '-', '-', '\n']
}

/// What ends the frontmatter: `\n---`.
pub open spec fn fence_close() -> Seq<char> {
    seq!['\n', '-', '-', '-']
}

/// The content without a leading byte-order mark.
pub open spec fn bom_stripped(s: Seq<char>) -> Seq<char> {
    if s.len() > 0 && s[0] == '\u{feff}' {
        s.skip(1)
    } else {
        s
    }
}

/// `s` without one leading `\n`.
pub open spec fn strip_nl(s: Seq<char>) -> Seq<char> {
    if s.len() > 0 && s[0] == '\n' {
        s.skip(1)
    } else {
        s
    }
}

/// The frontmatter and the body of a note file. Without an opening fence, or
/// without a closing one, the frontmatter is empty and the body is the whole
/// content (without its byte-order mark).
pub open spec fn split_frontmatter_spec(content: Seq<char>) -> (Seq<char>, Seq<char>) {
    let c = bom_stripped(content);
    if c.len() < 4 || c.take(4) != fence_open() {
        (seq![], c)
    } else {
        match find_seq_from(c, fence_close(), 4) {
            None => (seq![], c),
            Some(k) => (c.subrange(4, k), strip_nl(c.skip(k + 4))),
        }
    }
}

/// Splits a note file into its frontmatter and its body.
pub fn split_frontmatter(content: &str) -> (r: (&str, &str))
    ensures
        (r.0@, r.1@) == split_frontmatter_spec(content@),
{
    proof {
        reveal_strlit("");
    }
    let w = chars_of(content);
    let n = w.len();
    let off: usize = if n > 0 && w[0] == '\u{feff}' {
        1
    } else {
        0
    };
    let c = sub_vec(&w, off, n);
    assert(c@ == bom_stripped(content@));
    if c.len() < 4 || c[0] != '-' || c[1] != '-' || c[2] != '-' || c[3] != '\n' {
        assert(c@.len() < 4 || c@.take(4) != fence_open()) by {
            if c@.len() >= 4 && c@.take(4) == fence_open() {
                assert(c@.take(4)[3] == '\n');
            }
        }
        return ("", content.substring_char(off, n));
    }
    assert(c@.take(4) == fence_open());
    let pat = vec!['\n', '-', '-', '-'];
    assert(pat@ == fence_close());
    match find_pattern(&c, &pat, 4) {
        None => ("", content.substring_char(off, n)),
        Some(k) => {
            proof {
                lemma_find_seq_from(c@, pat@, 4);
            }
            let fm = content.substring_char(off + 4, off + k);
            let mut b = k + 4;
            if b < c.len() && c[b] == '\n' {
                b += 1;
            }
            let body = content.substring_char(off + b, n);
            assert(fm@ == c@.subrange(4, k as int));
            assert(body@ == strip_nl(c@.skip(k + 4)));
            (fm, body)
        },
    }
}

/// The frontmatter line `id: <id>`.
pub open spec fn id_line(id: Seq<char>) -> Seq<char> {
    seq!['i', 'd', ':', ' '] + id + seq!['\n']
}

/// Whether `c` opens with a frontmatter that is closed.
pub open spec fn has_frontmatter(c: Seq<char>) -> bool {
    c.len() >= 4 && c.take(4) == fence_open() && find_seq_from(c, fence_close(), 4) is Some
}

/// The note file with `id: <id>` as its first frontmatter line: right after the
/// opening fence when the file has a frontmatter, else in a new frontmatter
/// before the content. A leading byte-order mark is dropped.
pub open spec fn with_id_spec(content: Seq<char>, id: Seq<char>) -> Seq<char> {
    let c = bom_stripped(content);
    if has_frontmatter(c) {
        fence_open() + id_line(id) + c.skip(4)
    } else {
        fence_open() + id_line(id) + seq!['-', '-', '-', '\n'] + c
    }
}

/// Writes `id: <id>` into the frontmatter of a note file, as the first line.
pub fn with_frontmatter_id(content: &str, id: &str) -> (r: String)
    ensures
        r@ == with_id_spec(content@, id@),
{
    let w = chars_of(content);
    let n = w.len();
    let off: usize = if n > 0 && w[0] == '\u{feff}' {
        1
    } else {
        0
    };
    let c = sub_vec(&w, off, n);
    assert(c@ == bom_stripped(content@));
    let mut has = false;
    if c.len() >= 4 && c[0] == '-' && c[1] == '-' && c[2] == '-' && c[3] == '\n' {
        assert(c@.take(4) =~= fence_open());
        let pat = vec!['\n', '-', '-', '-'];
        assert(pat@ == fence_close());
        has = find_pattern(&c, &pat, 4).is_some();
    } else {
        assert(!has_frontmatter(c@)) by {
            if c@.len() >= 4 && c@.take(4) == fence_open() {
                assert(c@.take(4)[0] == '-');
                assert(c@.take(4)[1] == '-');
                assert(c@.take(4)[2] == '-');
                assert(c@.take(4)[3] == '\n');
            }
        }
    }
    let mut r = String::new();
    push_char(&mut r, '-');
    push_char(&mut r, '-');
    push_char(&mut r, '-');
    push_char(&mut r, '\n');
    push_char(&mut r, 'i');
    push_char(&mut r, 'd');
    push_char(&mut r, ':');
    push_char(&mut r, ' ');
    push_str(&mut r, id);
    push_char(&mut r, '\n');
    assert(r@ =~= fence_open() + id_line(id@));
    let start: usize = if has {
        4
    } else {
        push_char(&mut r, '-');
        push_char(&mut r, '-');
        push_char(&mut r, '-');
        push_char(&mut r, '\n');
        0
    };
    let ghost head = r@;
    let mut i: usize = start;
    while i < c.len()
        invariant
            start <= i <= c@.len(),
            r@ == head + c@.subrange(start as int, i as int),
        decreases c.len() - i,
    {
        push_char(&mut r, c[i]);
        i += 1;
        assert(r@ =~= head + c@.subrange(start as int, i as int));
    }
    assert(c@.subrange(start as int, c@.len() as int) =~= c@.skip(start as int));
    assert(r@ =~= with_id_spec(content@, id@));
    r
}

/// An id written into a note file is read back first: splitting the written
/// file gives the line `id: <id>` followed by the old frontmatter, and the old
/// body. This needs an id without a newline, a file that has a frontmatter,
/// and a frontmatter that does not itself begin with `---`.
pub proof fn lemma_id_written_first(content: Seq<char>, id: Seq<char>)
    requires
        forall|i: int| 0 <= i < id.len() ==> id[i] != '\n',
        has_frontmatter(bom_stripped(content)),
        !(split_frontmatter_spec(content).0.len() >= 3
            && split_frontmatter_spec(content).0.take(3) == seq!['-', '-', '-']),
    ensures
        split_frontmatter_spec(with_id_spec(content, id))
            == (id_line(id) + split_frontmatter_spec(content).0, split_frontmatter_spec(content).1),
{
    let c = bom_stripped(content);
    let fc = fence_close();
    lemma_find_seq_from(c, fc, 4);
    let k = find_seq_from(c, fc, 4)->0;
    let fm = c.subrange(4, k);
    let l = id_line(id);
    let w = with_id_spec(content, id);
    assert(w == fence_open() + l + c.skip(4));
    let d: int = 4 + l.len() as int;
    let e: int = k + l.len() as int;
    assert(w[0] == '-');
    assert(bom_stripped(w) == w);
    assert(w.take(4) =~= fence_open());
    assert forall|x: int| 0 <= x < c.len() - 4 implies #[trigger] w[d + x] == c[4 + x] by {}
    assert(w.subrange(e, e + 4) =~= c.subrange(k, k + 4));
    assert forall|j: int| 4 <= j < e implies #[trigger] w.subrange(j, j + fc.len()) != fc by {
        if j >= d {
            assert(w.subrange(j, j + 4) =~= c.subrange(j - l.len(), j - l.len() + 4));
            assert(c.subrange(j - l.len(), j - l.len() + fc.len()) != fc);
        } else if j < d - 1 {
            assert(w[j] == l[j - 4]);
            if j - 4 >= 4 {
                assert(l[j - 4] == id[j - 8]);
            }
            assert(w.subrange(j, j + 4)[0] != fc[0]);
        } else {
            assert(w.subrange(j, j + 4)[1] == c[4]);
            assert(w.subrange(j, j + 4)[2] == c[5]);
            assert(w.subrange(j, j + 4)[3] == c[6]);
            if w.subrange(j, j + 4) == fc {
                if k >= 7 {
                    assert(fm.take(3) =~= seq![c[4], c[5], c[6]]);
                } else {
                    assert(c.subrange(k, k + 4)[0] == '\n');
                    assert(c[k] == '\n');
                }
            }
        }
    }
    lemma_find_seq_at(w, fc, 4, e);
    assert(w.subrange(4, e) =~= l + fm);
    assert(w.skip(e + 4) =~= c.skip(k + 4));
}

/// Nothing is lost when the frontmatter is split off: the content (without its
/// byte-order mark) is either the body alone, with an empty frontmatter, or the
/// opening fence, the frontmatter, the closing `\n---`, at most one `\n`, and the
/// body. The frontmatter never holds the closing `\n---`.
pub proof fn lemma_split_frontmatter_reassembles(content: Seq<char>)
    ensures
        ({
            let (fm, body) = split_frontmatter_spec(content);
            let c = bom_stripped(content);
            ||| (fm.len() == 0 && body == c)
            ||| c == fence_open() + fm + fence_close() + body
            ||| c == fence_open() + fm + fence_close() + seq!['\n'] + body
        }),
        ({
            let (fm, body) = split_frontmatter_spec(content);
            forall|j: int| 0 <= j && j + 4 <= fm.len() ==> #[trigger] fm.subrange(j, j + 4) != fence_close()
        }),
{
    let c = bom_stripped(content);
    if c.len() < 4 || c.take(4) != fence_open() {
    } else {
        lemma_find_seq_from(c, fence_close(), 4);
        match find_seq_from(c, fence_close(), 4) {
            None => {},
            Some(k) => {
                let fm = c.subrange(4, k);
                let rest = c.skip(k + 4);
                assert(c.subrange(k, k + 4) == fence_close());
                if rest.len() > 0 && rest[0] == '\n' {
                    assert(c =~= fence_open() + fm + fence_close() + seq!['\n'] + rest.skip(1));
                } else {
                    assert(c =~= fence_open() + fm + fence_close() + rest);
                }
                assert forall|j: int| 0 <= j && j + 4 <= fm.len() implies #[trigger] fm.subrange(
                    j,
                    j + 4,
                ) != fence_close() by {
                    let jj = j + 4;
                    assert(fm.subrange(j, j + 4) == c.subrange(jj, jj + fence_close().len()));
                    assert(c.subrange(jj, jj + fence_close().len()) != fence_close());
                }
            },
        }
    }
}

// ---------------------------------------------------------------- links and transclusions

/// The trimmed inner texts of the matches of `OO([^C]+)CC` in `s`, searched left to
/// right from `i`, matches not overlapping: `[[...]]` for links, `((...))` for
/// transclusions.
pub open spec fn captures_from(s: Seq<char>, open: char, close: char, i: int) -> Seq<Seq<char>>
    decreases s.len() - i,
{
    if i < 0 || i + 1 >= s.len() {
        seq![]
    } else if s[i] == open && s[i + 1] == open {
        match find_from(s, close, i + 2) {
            Some(j) => if j > i + 2 && j + 1 < s.len() && s[j + 1] == close {
                seq![trim(s.subrange(i + 2, j))] + captures_from(s, open, close, j + 2)
            } else {
                captures_from(s, open, close, i + 1)
            },
            None => captures_from(s, open, close, i + 1),
        }
    } else {
        captures_from(s, open, close, i + 1)
    }
}

/// `OO x CC` occurs at `a` and ends at `b`: the pattern `OO([^C]+)CC`, with
/// `x` the text strictly between `a + 1` and `b`, non-empty and without `C`.
pub open spec fn pattern_match(s: Seq<char>, open: char, close: char, a: int, b: int) -> bool {
    &&& 0 <= a
    &&& a + 2 < b
    &&& b + 1 < s.len()
    &&& s[a] == open
    &&& s[a + 1] == open
    &&& s[b] == close
    &&& s[b + 1] == close
    &&& forall|k: int| a + 2 <= k < b ==> s[k] != close
}

/// Whether the pattern `OO([^C]+)CC` matches at `a`.
pub open spec fn matches_at(s: Seq<char>, open: char, close: char, a: int) -> bool {
    exists|b: int| #[trigger] pattern_match(s, open, close, a, b)
}

/// One step of the scan: at a position where the pattern does not match, the
/// scan moves on by one; where it matches, it takes the capture and goes on
/// after the match.
proof fn lemma_capture_step(s: Seq<char>, open: char, close: char, i: int)
    requires
        0 <= i,
        i + 1 < s.len(),
    ensures
        !matches_at(s, open, close, i) ==> captures_from(s, open, close, i) == captures_from(s, open, close, i + 1),
        forall|b: int| #[trigger] pattern_match(s, open, close, i, b)
            ==> captures_from(s, open, close, i) == seq![trim(s.subrange(i + 2, b))] + captures_from(s, open, close, b + 2),
{
    lemma_find_from(s, close, i + 2);
    if s[i] == open && s[i + 1] == open {
        match find_from(s, close, i + 2) {
            Some(j) => {
                if j > i + 2 && j + 1 < s.len() && s[j + 1] == close {
                    assert(pattern_match(s, open, close, i, j));
                }
                assert forall|b: int| #[trigger] pattern_match(s, open, close, i, b) implies b == j by {
                    if b < j {
                        assert(s[b] != close);
                    } else if b > j {
                        assert(s[j] != close);
                    }
                }
            },
            None => {
                assert forall|b: int| !#[trigger] pattern_match(s, open, close, i, b) by {
                    if pattern_match(s, open, close, i, b) {
                        assert(s[b] != close);
                    }
                }
            },
        }
    }
}

/// The captures are those of the regular expression `OO([^C]+)CC` (`\[\[([^\]]+)\]\]`
/// for links, `\(\(([^)]+)\)\)` for transclusions), trimmed, over the leftmost
/// non-overlapping matches from `i` on: none when nothing matches; else the
/// capture of the leftmost match, then those from the end of that match on.
pub proof fn lemma_captures_are_regex_matches(s: Seq<char>, open: char, close: char, i: int)
    requires
        0 <= i,
    ensures
        (forall|a: int| i <= a ==> !#[trigger] matches_at(s, open, close, a)) ==> captures_from(s, open, close, i) == Seq::<Seq<char>>::empty(),
        forall|a: int, b: int| #[trigger] pattern_match(s, open, close, a, b) && i <= a
            && (forall|a2: int| i <= a2 < a ==> !#[trigger] matches_at(s, open, close, a2))
            ==> captures_from(s, open, close, i) == seq![trim(s.subrange(a + 2, b))] + captures_from(s, open, close, b + 2),
    decreases s.len() - i,
{
    if i + 1 < s.len() {
        lemma_captures_are_regex_matches(s, open, close, i + 1);
        lemma_capture_step(s, open, close, i);
        assert forall|a: int, b: int| #[trigger] pattern_match(s, open, close, a, b) && i <= a
            && (forall|a2: int| i <= a2 < a ==> !#[trigger] matches_at(s, open, close, a2))
            implies captures_from(s, open, close, i) == seq![trim(s.subrange(a + 2, b))] + captures_from(s, open, close, b + 2) by {
            if a > i {
                assert(!matches_at(s, open, close, i));
            }
        }
    } else {
        assert forall|a: int, b: int| !#[trigger] pattern_match(s, open, close, a, b) || a < i by {}
    }
}

/// The targets of the `[[...]]` links of a body, in order.
pub open spec fn links_in(s: Seq<char>) -> Seq<Seq<char>> {
    captures_from(s, '[', ']', 0)
}

/// The block ids of the `((...))` transclusions of a body, in order.
pub open spec fn transclusions_in(s: Seq<char>) -> Seq<Seq<char>> {
    captures_from(s, '(', ')', 0)
}

fn captures(v: &Vec<char>, open: char, close: char) -> (r: Vec<String>)
    ensures
        views(r@) == captures_from(v@, open, close, 0),
{
    let mut out: Vec<String> = Vec::new();
    let mut i: usize = 0;
    while i < v.len() && i + 1 < v.len()
        invariant
            views(out@) + captures_from(v@, open, close, i as int) == captures_from(
                v@,
                open,
                close,
                0,
            ),
        decreases v.len() - i,
    {
        let ghost prev = out@;
        if v[i] == open && v[i + 1] == open {
            let found = find_char(v, close, i + 2);
            proof {
                lemma_find_from(v@, close, i + 2);
            }
            match found {
                Some(j) => {
                    if j > i + 2 && j + 1 < v.len() && v[j + 1] == close {
                        let (a, b) = trim_range(v, i + 2, j);
                        let item = string_from(v, a, b);
                        out.push(item);
                        assert(views(out@) == views(prev).push(item@));
                        assert(views(prev) + captures_from(v@, open, close, i as int) == views(
                            out@,
                        ) + captures_from(v@, open, close, j + 2));
                        i = j + 2;
                    } else {
                        i += 1;
                    }
                },
                None => {
                    i += 1;
                },
            }
        } else {
            i += 1;
        }
    }
    assert(captures_from(v@, open, close, i as int) == Seq::<Seq<char>>::empty());
    assert(views(out@) + Seq::<Seq<char>>::empty() == views(out@));
    out
}

// ---------------------------------------------------------------- blocks

/// `[A-Za-z0-9]`
pub open spec fn is_ascii_alnum(c: char) -> bool {
    ('a' <= c && c <= 'z') || ('A' <= c && c <= 'Z') || ('0' <= c && c <= '9')
}

/// `[A-Za-z0-9_-]`
pub open spec fn is_id_char(c: char) -> bool {
    is_ascii_alnum(c) || c == '_' || c == '-'
}

/// First index `k >= i` that does not hold a block-id character, or `s.len()`.
pub open spec fn id_end(s: Seq<char>, i: int) -> int
    decreases s.len() - i,
{
    if 0 <= i < s.len() && is_id_char(s[i]) {
        id_end(s, i + 1)
    } else {
        i
    }
}

/// The match of `\s*\^([A-Za-z0-9][A-Za-z0-9_-]*)\s*$` in a bullet's text: the
/// block id, and the text before the whitespace that precedes the caret. When
/// the text does not end that way, no id and the whole text.
pub open spec fn split_block_id_spec(t: Seq<char>) -> (Option<Seq<char>>, Seq<char>) {
    match rfind_before(t, '^', t.len() as int) {
        None => (None, t),
        Some(q) => {
            let k = id_end(t, q + 1);
            if k > q + 1 && is_ascii_alnum(t[q + 1]) && skip_ws(t, k, t.len() as int) == t.len() {
                (Some(t.subrange(q + 1, k)), t.take(back_ws(t, 0, q)))
            } else {
                (None, t)
            }
        },
    }
}

/// `-`, `*` or `+`
pub open spec fn is_bullet_mark(c: char) -> bool {
    c == '-' || c == '*' || c == '+'
}

/// The text of a bullet line after its mark and the space that follows it, or
/// `None` for a line that is no bullet. Leading whitespace (indentation) is
/// ignored.
pub open spec fn bullet_rest(line: Seq<char>) -> Option<Seq<char>> {
    let t = trim_start(line);
    if t.len() >= 2 && is_bullet_mark(t[0]) && t[1] == ' ' {
        Some(t.skip(2))
    } else {
        None
    }
}

/// The block of one line: none for a line that is no bullet.
pub open spec fn block_of_line(line: Seq<char>) -> Seq<(Option<Seq<char>>, Seq<char>)> {
    match bullet_rest(line) {
        Some(r) => {
            let (id, text) = split_block_id_spec(r);
            seq![(id, trim(text))]
        },
        None => seq![],
    }
}

/// A line ended by `\n`, without the `\r` of a `\r\n` ending.
pub open spec fn strip_cr(t: Seq<char>) -> Seq<char> {
    if t.len() > 0 && t[t.len() - 1] == '\r' {
        t.drop_last()
    } else {
        t
    }
}

/// The blocks of the lines of `s` from index `i` on, as `str::lines` splits them.
pub open spec fn blocks_from(s: Seq<char>, i: int) -> Seq<(Option<Seq<char>>, Seq<char>)>
    decreases s.len() - i,
{
    if i < 0 || i >= s.len() {
        seq![]
    } else {
        proof {
            lemma_find_from(s, '\n', i);
        }
        match find_from(s, '\n', i) {
            Some(j) => block_of_line(strip_cr(s.subrange(i, j))) + blocks_from(s, j + 1),
            None => block_of_line(s.subrange(i, s.len() as int)),
        }
    }
}

/// The lines of `s` from index `i` on, as `str::lines` gives them: split at
/// `\n`, a `\r` before it dropped, no empty last line after a final `\n`.
pub open spec fn lines_from(s: Seq<char>, i: int) -> Seq<Seq<char>>
    decreases s.len() - i,
{
    if i < 0 || i >= s.len() {
        seq![]
    } else {
        proof {
            lemma_find_from(s, '\n', i);
        }
        match find_from(s, '\n', i) {
            Some(j) => seq![strip_cr(s.subrange(i, j))] + lines_from(s, j + 1),
            None => seq![s.subrange(i, s.len() as int)],
        }
    }
}

/// The blocks of a run of lines: each bullet line gives one, in order.
pub open spec fn blocks_of_lines(ls: Seq<Seq<char>>) -> Seq<(Option<Seq<char>>, Seq<char>)>
    decreases ls.len(),
{
    if ls.len() == 0 {
        seq![]
    } else {
        block_of_line(ls[0]) + blocks_of_lines(ls.drop_first())
    }
}

/// Block extraction line by line: the blocks of a body are, in line order, one
/// for each line that `split_bullet` accepts, with the id and the trimmed text
/// that `split_block_id` gives for the rest of the line; other lines give none.
pub proof fn lemma_blocks_by_line(s: Seq<char>, i: int)
    requires
        0 <= i,
    ensures
        blocks_from(s, i) == blocks_of_lines(lines_from(s, i)),
    decreases s.len() - i,
{
    if 0 <= i < s.len() {
        lemma_find_from(s, '\n', i);
        match find_from(s, '\n', i) {
            Some(j) => {
                lemma_blocks_by_line(s, j + 1);
                let ls = lines_from(s, i);
                assert(ls == seq![strip_cr(s.subrange(i, j))] + lines_from(s, j + 1));
                assert(ls[0] == strip_cr(s.subrange(i, j)));
                assert(ls.drop_first() =~= lines_from(s, j + 1));
                assert(blocks_of_lines(ls) == block_of_line(ls[0]) + blocks_of_lines(ls.drop_first()));
            },
            None => {
                let ls = lines_from(s, i);
                assert(ls == seq![s.subrange(i, s.len() as int)]);
                assert(ls.drop_first() =~= Seq::<Seq<char>>::empty());
                assert(blocks_of_lines(ls.drop_first()) == Seq::<(Option<Seq<char>>, Seq<char>)>::empty());
                assert(blocks_of_lines(ls) == block_of_line(ls[0]) + blocks_of_lines(ls.drop_first()));
                assert(block_of_line(ls[0]) + Seq::<(Option<Seq<char>>, Seq<char>)>::empty() =~= block_of_line(ls[0]));
            },
        }
    }
}

/// The outliner blocks of a body, in order.
pub open spec fn blocks_in(s: Seq<char>) -> Seq<(Option<Seq<char>>, Seq<char>)> {
    blocks_from(s, 0)
}

/// The text after a bullet's mark, or `None` for a line that is no bullet.
pub fn split_bullet(line: &str) -> (r: Option<&str>)
    ensures
        match r {
            Some(x) => bullet_rest(line@) == Some(x@),
            None => bullet_rest(line@) is None,
        },
{
    let v = chars_of(line);
    let a = skip_whitespace(&v, 0, v.len());
    proof {
        assert(trim_start(line@) == v@.skip(a as int));
    }
    if a < v.len() && a + 1 < v.len() && (v[a] == '-' || v[a] == '*' || v[a] == '+') && v[a + 1] == ' ' {
        let r = line.substring_char(a + 2, v.len());
        assert(r@ == v@.skip(a as int).skip(2));
        Some(r)
    } else {
        None
    }
}

/// Splits a trailing `^block-id` off a bullet's text.
pub fn split_block_id(text: &str) -> (r: (Option<String>, &str))
    ensures
        (crate::model::opt_view(r.0), r.1@) == split_block_id_spec(text@),
{
    let v = chars_of(text);
    let n = v.len();
    match rfind_char(&v, '^', n) {
        None => (None, text),
        Some(q) => {
            proof {
                lemma_rfind_before(v@, '^', n as int);
            }
            let mut k = q + 1;
            while k < n && (('a' <= v[k] && v[k] <= 'z') || ('A' <= v[k] && v[k] <= 'Z') || (
            '0' <= v[k] && v[k] <= '9') || v[k] == '_' || v[k] == '-')
                invariant
                    q < n == v@.len(),
                    q + 1 <= k <= n,
                    id_end(v@, q + 1) == id_end(v@, k as int),
                decreases n - k,
            {
                k += 1;
            }
            let first_ok = k > q + 1 && (('a' <= v[q + 1] && v[q + 1] <= 'z') || ('A' <= v[q + 1]
                && v[q + 1] <= 'Z') || ('0' <= v[q + 1] && v[q + 1] <= '9'));
            if first_ok && skip_whitespace(&v, k, n) == n {
                let p = back_whitespace(&v, 0, q);
                let id = string_from(&v, q + 1, k);
                let before = text.substring_char(0, p);
                (Some(id), before)
            } else {
                (None, text)
            }
        },
    }
}

/// The outliner blocks of a body, in order.
fn parse_blocks(body: &str) -> (r: Vec<Block>)
    ensures
        block_views(r@) == blocks_in(body@),
{
    let v = chars_of(body);
    let n = v.len();
    let mut out: Vec<Block> = Vec::new();
    let mut i: usize = 0;
    while i < n
        invariant
            n == v@.len(),
            v@ == body@,
            i <= n,
            block_views(out@) + blocks_from(v@, i as int) == blocks_in(v@),
        decreases n - i,
    {
        let found = find_char(&v, '\n', i);
        proof {
            lemma_find_from(v@, '\n', i as int);
        }
        let (j, e) = match found {
            Some(j) => {
                if j > i && v[j - 1] == '\r' {
                    (j, j - 1)
                } else {
                    (j, j)
                }
            },
            None => (n, n),
        };
        let line = body.substring_char(i, e);
        assert(line@ == match found {
            Some(_) => strip_cr(v@.subrange(i as int, j as int)),
            None => v@.subrange(i as int, n as int),
        });
        let ghost prev = out@;
        match split_bullet(line) {
            Some(rest) => {
                let (id, text) = split_block_id(rest);
                let t = trimmed_string(text);
                let b = Block { id, text: t };
                out.push(b);
                assert(block_views(out@) == block_views(prev).push(block_view(b)));
                assert(block_of_line(line@) == seq![block_view(b)]);
            },
            None => {
                assert(block_of_line(line@) == Seq::<(Option<Seq<char>>, Seq<char>)>::empty());
                assert(block_views(out@) == block_views(prev));
            },
        }
        if j == n {
            assert(block_views(out@) == blocks_in(v@));
            return out;
        }
        assert(block_views(prev) + blocks_from(v@, i as int) == block_views(out@) + blocks_from(
            v@,
            j + 1,
        ));
        i = j + 1;
    }
    assert(blocks_from(v@, i as int) == Seq::<(Option<Seq<char>>, Seq<char>)>::empty());
    assert(block_views(out@) + Seq::<(Option<Seq<char>>, Seq<char>)>::empty() == block_views(
        out@,
    ));
    out
}

/// What a note's body refers to: its links, its transclusions and its blocks.
pub struct ParsedBody {
    pub links: Vec<String>,
    pub transclusions: Vec<String>,
    pub blocks: Vec<Block>,
}

/// Extracts the links, transclusions and outliner blocks of a body.
pub fn parse_body(body: &str) -> (r: ParsedBody)
    ensures
        views(r.links@) == links_in(body@),
        views(r.transclusions@) == transclusions_in(body@),
        block_views(r.blocks@) == blocks_in(body@),
{
    let v = chars_of(body);
    let links = captures(&v, '[', ']');
    let transclusions = captures(&v, '(', ')');
    let blocks = parse_blocks(body);
    ParsedBody { links, transclusions, blocks }
}


// ---------------------------------------------------------------- laws

/// Splitting undoes joining: a frontmatter that holds no `\n---`, written
/// between the fences and followed by a newline and the body (after at most
/// one byte-order mark), splits back into that frontmatter and that body.
pub proof fn lemma_split_undoes_join(bom: Seq<char>, fm: Seq<char>, body: Seq<char>)
    requires
        bom == Seq::<char>::empty() || bom == seq!['\u{feff}'],
        !crate::fuzzy::contains_seq(fm, fence_close()),
    ensures
        split_frontmatter_spec(bom + fence_open() + fm + fence_close() + seq!['\n'] + body) == (fm, body),
{
    let content = bom + fence_open() + fm + fence_close() + seq!['\n'] + body;
    let c = fence_open() + fm + fence_close() + seq!['\n'] + body;
    assert(bom_stripped(content) == c) by {
        if bom.len() == 0 {
            assert(content =~= c);
            assert(c[0] == '-');
        } else {
            assert(content[0] == '\u{feff}');
            assert(content.skip(1) =~= c);
        }
    }
    assert(c.take(4) =~= fence_open());
    let e: int = 4 + fm.len() as int;
    assert(c.subrange(e, e + 4) =~= fence_close());
    assert forall|j: int| 4 <= j < e implies #[trigger] c.subrange(j, j + fence_close().len()) != fence_close() by {
        if j + 4 <= e {
            assert(c.subrange(j, j + 4) =~= fm.subrange(j - 4, j));
            assert(fm.subrange(j - 4, j - 4 + fence_close().len()) != fence_close());
        } else {
            let t = e - j;
            assert(c.subrange(j, j + 4)[t] == c[e]);
            assert(c[e] == '\n');
            assert(fence_close()[t] == '-');
        }
    }
    lemma_find_seq_at(c, fence_close(), 4, e);
    assert(c.subrange(4, e) =~= fm);
    assert(c.skip(e + 4) =~= seq!['\n'] + body);
    assert(strip_nl(seq!['\n'] + body) =~= body);
}

/// Text without a carriage return is left as it is by `normalize`.
pub proof fn lemma_normalize_keeps_lf_text(s: Seq<char>)
    requires
        forall|i: int| 0 <= i < s.len() ==> s[i] != '\r',
    ensures
        normalized(s) == s,
{
    lemma_crlf_from_no_cr(s, 0);
    assert(s.skip(0) =~= s);
}

proof fn lemma_crlf_from_no_cr(s: Seq<char>, i: int)
    requires
        0 <= i <= s.len(),
        forall|k: int| 0 <= k < s.len() ==> s[k] != '\r',
    ensures
        crlf_from(s, i) == s.skip(i),
    decreases s.len() - i,
{
    if i < s.len() {
        lemma_crlf_from_no_cr(s, i + 1);
        assert(s.skip(i) =~= seq![s[i]] + s.skip(i + 1));
    } else {
        assert(s.skip(i) =~= Seq::<char>::empty());
    }
}

proof fn lemma_single_capture(x: Seq<char>, open: char, close: char)
    requires
        x.len() > 0,
        forall|i: int| 0 <= i < x.len() ==> x[i] != close,
        open != close,
        trim(x) == x,
    ensures
        captures_from(seq![open, open] + x + seq![close, close], open, close, 0) == seq![x],
{
    let s = seq![open, open] + x + seq![close, close];
    let j = x.len() + 2int;
    assert(s[0] == open && s[1] == open);
    assert(s[j] == close && s[j + 1] == close);
    lemma_find_from(s, close, 2);
    match find_from(s, close, 2) {
        Some(k) => {
            if k < j {
                assert(s[k] == x[k - 2]);
            }
            if k > j {
                assert(s[j] != close);
            }
        },
        None => {
            assert(s[j] != close);
        },
    }
    assert(find_from(s, close, 2) == Some(j));
    assert(s.subrange(2, j) =~= x);
    assert(captures_from(s, open, close, j + 2) == Seq::<Seq<char>>::empty());
    assert(captures_from(s, open, close, 0) == seq![trim(s.subrange(2, j))] + captures_from(s, open, close, j + 2));
}

/// A link written as `[[x]]`, with `x` non-empty, trimmed and free of `]`, is
/// read back as `x`.
pub proof fn lemma_link_round_trip(x: Seq<char>)
    requires
        x.len() > 0,
        forall|i: int| 0 <= i < x.len() ==> x[i] != ']',
        trim(x) == x,
    ensures
        links_in(seq!['[', '['] + x + seq![']', ']']) == seq![x],
{
    lemma_single_capture(x, '[', ']');
}

/// A transclusion written as `((x))`, with `x` non-empty, trimmed and free of
/// `)`, is read back as `x`.
pub proof fn lemma_transclusion_round_trip(x: Seq<char>)
    requires
        x.len() > 0,
        forall|i: int| 0 <= i < x.len() ==> x[i] != ')',
        trim(x) == x,
    ensures
        transclusions_in(seq!['(', '('] + x + seq![')', ')']) == seq![x],
{
    lemma_single_capture(x, '(', ')');
}

proof fn lemma_id_end(s: Seq<char>, i: int)
    requires
        0 <= i <= s.len(),
        forall|k: int| i <= k < s.len() ==> is_id_char(s[k]),
    ensures
        id_end(s, i) == s.len(),
    decreases s.len() - i,
{
    if i < s.len() {
        lemma_id_end(s, i + 1);
    }
}

/// A block id written at the end of a bullet's text, after a space and a
/// caret, is read back with the text before it: the id's first character is
/// an ASCII letter or digit, the others ASCII letters, digits, `_` or `-`
/// (`^[A-Za-z0-9][A-Za-z0-9_-]*`), and the text loses its trailing whitespace.
pub proof fn lemma_block_id_read_back(text: Seq<char>, id: Seq<char>)
    requires
        id.len() > 0,
        ('a' <= id[0] <= 'z') || ('A' <= id[0] <= 'Z') || ('0' <= id[0] <= '9'),
        forall|i: int| 0 <= i < id.len() ==> ('a' <= #[trigger] id[i] <= 'z') || ('A' <= id[i] <= 'Z')
            || ('0' <= id[i] <= '9') || id[i] == '_' || id[i] == '-',
    ensures
        split_block_id_spec(text + seq![' ', '^'] + id) == (Some(id), crate::text::trim_end(text)),
{
    lemma_block_id_round_trip(text, id);
}

/// A valid block id appended to a bullet's text as ` ^id` is split off again,
/// and the text comes back without trailing whitespace.
pub proof fn lemma_block_id_round_trip(text: Seq<char>, id: Seq<char>)
    requires
        id.len() > 0,
        is_ascii_alnum(id[0]),
        forall|i: int| 0 <= i < id.len() ==> is_id_char(#[trigger] id[i]),
    ensures
        split_block_id_spec(text + seq![' ', '^'] + id) == (Some(id), crate::text::trim_end(text)),
{
    let t = text + seq![' ', '^'] + id;
    let q = text.len() + 1int;
    assert(t[q] == '^');
    assert forall|k: int| q < k < t.len() implies is_id_char(#[trigger] t[k]) by {
        assert(t[k] == id[k - q - 1]);
    }
    lemma_rfind_before(t, '^', t.len() as int);
    match rfind_before(t, '^', t.len() as int) {
        Some(k) => {
            if k > q {
                assert(is_id_char(t[k]));
            }
            if k < q {
                assert(t[q] != '^');
            }
        },
        None => {
            assert(t[q] != '^');
        },
    }
    assert(rfind_before(t, '^', t.len() as int) == Some(q));
    lemma_id_end(t, q + 1);
    assert(t[q + 1] == id[0]);
    assert(skip_ws(t, t.len() as int, t.len() as int) == t.len());
    assert(t.subrange(q + 1, t.len() as int) =~= id);
    assert(is_ws(t[q - 1]));
    assert(back_ws(t, 0, q) == back_ws(t, 0, text.len() as int));
    lemma_back_ws_window(t, 0, 0, text.len() as int, text.len() as int);
    assert(t.subrange(0, text.len() as int) =~= text);
    lemma_back_ws(text, 0, text.len() as int);
    let p = back_ws(text, 0, text.len() as int);
    assert(t.take(p) =~= text.take(p));
}
} // verus!
