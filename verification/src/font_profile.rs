//! Parsing the terminal's answers to the cell-size (`CSI 16 t`) and font-name
//! (`OSC 50`) queries.
use vstd::prelude::*;
use crate::text::{chars_of, find_char, find_from, find_pattern, find_seq_from, lemma_find_from, lemma_find_seq_from, lemma_find_seq_at, string_from, decimal, hex_digit};
use crate::fuzzy::contains_seq;

verus! {

/// What the terminal reports of its font.
#[derive(Debug, Clone)]
pub struct TerminalFontProfile {
    pub font_family: String,
    pub cell_width_px: u32,
    pub cell_height_px: u32,
}

pub open spec fn is_digit(c: char) -> bool {
    '0' <= c && c <= '9'
}

pub open spec fn all_digits(d: Seq<char>) -> bool {
    forall|i: int| 0 <= i < d.len() ==> is_digit(#[trigger] d[i])
}

/// The number that a run of decimal digits spells.
pub open spec fn dec_value(d: Seq<char>) -> nat
    decreases d.len(),
{
    if d.len() == 0 {
        0
    } else {
        dec_value(d.drop_last()) * 10 + ((d.last() as u32 - '0' as u32) as nat)
    }
}

/// `str::parse::<u32>`: an optional `+`, then at least one decimal digit, and
/// a value that fits in 32 bits.
pub open spec fn parse_u32_spec(s: Seq<char>) -> Option<u32> {
    let d = if s.len() > 0 && s[0] == '+' {
        s.skip(1)
    } else {
        s
    };
    if d.len() == 0 || !all_digits(d) || dec_value(d) > u32::MAX {
        None
    } else {
        Some(dec_value(d) as u32)
    }
}

proof fn lemma_dec_value_grows(d: Seq<char>, i: int)
    requires
        all_digits(d),
        0 <= i <= d.len(),
    ensures
        dec_value(d.take(i)) <= dec_value(d),
    decreases d.len() - i,
{
    if i < d.len() {
        lemma_dec_value_grows(d, i + 1);
        assert(d.take(i + 1).drop_last() =~= d.take(i));
        assert(is_digit(d[i]));
    } else {
        assert(d.take(i) =~= d);
    }
}

/// `s[lo..hi].parse::<u32>()`.
#[verifier::loop_isolation(false)]
fn parse_u32(v: &Vec<char>, lo: usize, hi: usize) -> (r: Option<u32>)
    requires
        lo <= hi <= v.len(),
    ensures
        r == parse_u32_spec(v@.subrange(lo as int, hi as int)),
{
    let ghost s = v@.subrange(lo as int, hi as int);
    let start = if lo < hi && v[lo] == '+' {
        lo + 1
    } else {
        lo
    };
    let ghost d = v@.subrange(start as int, hi as int);
    assert(d == if s.len() > 0 && s[0] == '+' {
        s.skip(1)
    } else {
        s
    });
    if start == hi {
        return None;
    }
    let mut i = start;
    while i < hi
        invariant
            start <= i <= hi <= v.len(),
            d == v@.subrange(start as int, hi as int),
            forall|k: int| start <= k < i ==> is_digit(v@[k]),
        decreases hi - i,
    {
        if !('0' <= v[i] && v[i] <= '9') {
            assert(d[i - start] == v@[i as int]);
            assert(!is_digit(d[i - start]));
            assert(!all_digits(d));
            assert(parse_u32_spec(s) is None);
            return None;
        }
        i += 1;
    }
    assert(all_digits(d)) by {
        assert forall|k: int| 0 <= k < d.len() implies is_digit(#[trigger] d[k]) by {
            assert(d[k] == v@[start + k]);
        }
    }
    let mut acc: u32 = 0;
    let mut i = start;
    while i < hi
        invariant
            start <= i <= hi <= v.len(),
            d == v@.subrange(start as int, hi as int),
            all_digits(d),
            acc == dec_value(d.take(i - start)),
        decreases hi - i,
    {
        assert(d.take(i - start + 1).drop_last() =~= d.take(i - start));
        assert(d.take(i - start + 1).last() == v@[i as int]);
        assert(is_digit(d[i - start]));
        let digit = (v[i] as u32) - ('0' as u32);
        assert(dec_value(d.take(i - start + 1)) == acc * 10 + digit);
        match acc.checked_mul(10) {
            Some(m) => match m.checked_add(digit) {
                Some(x) => {
                    acc = x;
                },
                None => {
                    proof {
                        lemma_dec_value_grows(d, i - start + 1);
                        assert(dec_value(d) > u32::MAX);
                        assert(parse_u32_spec(s) is None);
                    }
                    return None;
                },
            },
            None => {
                proof {
                    lemma_dec_value_grows(d, i - start + 1);
                    assert(acc * 10 > u32::MAX);
                    assert(dec_value(d) > u32::MAX);
                    assert(parse_u32_spec(s) is None);
                }
                return None;
            },
        }
        i += 1;
    }
    assert(d.take(hi - start) =~= d);
    Some(acc)
}

/// `ESC [ 6 ;`, the start of the cell-size report.
pub open spec fn csi_size_report() -> Seq<char> {
    seq!['\u{1b}', '[', '6', ';']
}

/// `ESC ] 5 0 ;`, the start of the font-name report.
pub open spec fn osc_font_report() -> Seq<char> {
    seq!['\u{1b}', ']', '5', '0', ';']
}

/// `ESC \`, the string terminator.
pub open spec fn string_terminator() -> Seq<char> {
    seq!['\u{1b}', '\\']
}

/// The `(width, height)` in a `ESC [ 6 ; <height> ; <width> t` report: the
/// first report in the input, up to its first `t`, must hold exactly two
/// `;`-separated numbers.
pub open spec fn cell_size_spec(s: Seq<char>) -> Option<(u32, u32)> {
    match find_seq_from(s, csi_size_report(), 0) {
        None => None,
        Some(st) => match find_from(s, 't', st + 4) {
            None => None,
            Some(e) => {
                let seg = s.subrange(st + 4, e);
                match find_from(seg, ';', 0) {
                    Some(k) => if find_from(seg, ';', k + 1) is None {
                        match (parse_u32_spec(seg.take(k)), parse_u32_spec(seg.skip(k + 1))) {
                            (Some(h), Some(w)) => Some((w, h)),
                            _ => None,
                        }
                    } else {
                        None
                    },
                    None => None,
                }
            },
        },
    }
}

/// The name in the first `ESC ] 50 ; <name>` report, ended by BEL if the rest
/// of the input holds one, else by `ESC \`.
pub open spec fn font_name_spec(s: Seq<char>) -> Option<Seq<char>> {
    match find_seq_from(s, osc_font_report(), 0) {
        None => None,
        Some(st) => match find_from(s, '\u{07}', st + 5) {
            Some(e) => Some(s.subrange(st + 5, e)),
            None => match find_seq_from(s, string_terminator(), st + 5) {
                Some(e) => Some(s.subrange(st + 5, e)),
                None => None,
            },
        },
    }
}

/// Reads the cell size from a terminal's answer.
pub fn parse_cell_size(input: &str) -> (r: Option<(u32, u32)>)
    ensures
        r == cell_size_spec(input@),
{
    let v = chars_of(input);
    let pat = vec!['\u{1b}', '[', '6', ';'];
    assert(pat@ == csi_size_report());
    assert(pat@.len() == 4);
    proof {
        lemma_find_seq_from(v@, pat@, 0);
    }
    let st = match find_pattern(&v, &pat, 0) {
        Some(st) => st,
        None => return None,
    };
    let n = v.len();
    assert(st + 4 <= n);
    let e = match find_char(&v, 't', st + 4) {
        Some(e) => e,
        None => return None,
    };
    proof {
        lemma_find_from(v@, 't', st + 4);
    }
    let seg = crate::text::sub_vec(&v, st + 4, e);
    let k = match find_char(&seg, ';', 0) {
        Some(k) => k,
        None => return None,
    };
    proof {
        lemma_find_from(seg@, ';', 0);
    }
    if find_char(&seg, ';', k + 1).is_some() {
        return None;
    }
    let h = parse_u32(&seg, 0, k);
    let w = parse_u32(&seg, k + 1, seg.len());
    assert(seg@.subrange(0, k as int) == seg@.take(k as int));
    assert(seg@.subrange(k + 1, seg@.len() as int) == seg@.skip(k + 1));
    match (h, w) {
        (Some(h), Some(w)) => Some((w, h)),
        _ => None,
    }
}

/// Reads the font name from a terminal's answer.
pub fn parse_font_name(input: &str) -> (r: Option<String>)
    ensures
        match r {
            Some(name) => font_name_spec(input@) == Some(name@),
            None => font_name_spec(input@) is None,
        },
{
    let v = chars_of(input);
    let pat = vec!['\u{1b}', ']', '5', '0', ';'];
    assert(pat@ == osc_font_report());
    assert(pat@.len() == 5);
    proof {
        lemma_find_seq_from(v@, pat@, 0);
    }
    let st = match find_pattern(&v, &pat, 0) {
        Some(st) => st,
        None => return None,
    };
    let n = v.len();
    assert(st + 5 <= n);
    match find_char(&v, '\u{07}', st + 5) {
        Some(e) => {
            proof {
                lemma_find_from(v@, '\u{07}', st + 5);
            }
            Some(string_from(&v, st + 5, e))
        },
        None => {
            let term = vec!['\u{1b}', '\\'];
            assert(term@ == string_terminator());
            match find_pattern(&v, &term, st + 5) {
                Some(e) => {
                    proof {
                        lemma_find_seq_from(v@, term@, st + 5);
                    }
                    Some(string_from(&v, st + 5, e))
                },
                None => None,
            }
        },
    }
}

/// The decimal digits of `n` are digits, at least one, no `+`, and spell
/// `n`.
proof fn lemma_decimal_digits(n: nat)
    ensures
        decimal(n).len() > 0,
        all_digits(decimal(n)),
        dec_value(decimal(n)) == n,
    decreases n,
{
    let d = (n % 10) as int;
    assert(hex_digit(d) as u32 - '0' as u32 == d && is_digit(hex_digit(d))) by {
        assert(0 <= d < 10);
        if d == 0 {} else if d == 1 {} else if d == 2 {} else if d == 3 {} else if d == 4 {}
        else if d == 5 {} else if d == 6 {} else if d == 7 {} else if d == 8 {} else {}
    }
    if n >= 10 {
        lemma_decimal_digits(n / 10);
        let s = decimal(n);
        assert(s.drop_last() == decimal(n / 10));
        assert(s.last() == hex_digit(d));
        assert(dec_value(s) == dec_value(decimal(n / 10)) * 10 + d);
        assert(n == (n / 10) * 10 + d);
        assert forall|i: int| 0 <= i < s.len() implies is_digit(#[trigger] s[i]) by {
            if i < s.len() - 1 {
                assert(s[i] == decimal(n / 10)[i]);
            }
        }
    } else {
        assert(n % 10 == n);
        assert(decimal(n).drop_last() =~= Seq::<char>::empty());
        assert(dec_value(decimal(n)) == dec_value(Seq::<char>::empty()) * 10 + d);
    }
}

/// Digits parse back to the number they spell.
proof fn lemma_parse_decimal(n: u32)
    ensures
        parse_u32_spec(decimal(n as nat)) == Some(n),
{
    lemma_decimal_digits(n as nat);
    assert(is_digit(decimal(n as nat)[0]));
}

/// A run of digits holds no character but digits.
proof fn lemma_no_char_in_digits(d: Seq<char>, c: char)
    requires
        all_digits(d),
        !is_digit(c),
    ensures
        forall|i: int| 0 <= i < d.len() ==> d[i] != c,
{
    assert forall|i: int| 0 <= i < d.len() implies d[i] != c by {
        assert(is_digit(d[i]));
    }
}

/// The first `c` at or after `i` is at `e` when `s[e]` is `c` and nothing
/// between is.
proof fn lemma_find_at(s: Seq<char>, c: char, i: int, e: int)
    requires
        0 <= i <= e < s.len(),
        s[e] == c,
        forall|k: int| i <= k < e ==> s[k] != c,
    ensures
        find_from(s, c, i) == Some(e),
{
    lemma_find_from(s, c, i);
}

/// The cell-size report that a terminal writes, `ESC [ 6 ; <height> ;
/// <width> t` with the numbers in decimal, reads back as that width and
/// height.
pub proof fn lemma_cell_size_round_trip(h: u32, w: u32)
    ensures
        cell_size_spec(csi_size_report() + decimal(h as nat) + seq![';'] + decimal(w as nat) + seq!['t']) == Some((w, h)),
{
    let p = csi_size_report();
    let dh = decimal(h as nat);
    let dw = decimal(w as nat);
    let s = p + dh + seq![';'] + dw + seq!['t'];
    lemma_decimal_digits(h as nat);
    lemma_decimal_digits(w as nat);
    lemma_parse_decimal(h);
    lemma_parse_decimal(w);
    lemma_no_char_in_digits(dh, 't');
    lemma_no_char_in_digits(dw, 't');
    lemma_no_char_in_digits(dh, ';');
    lemma_no_char_in_digits(dw, ';');
    assert(s.subrange(0, 4) =~= p);
    assert(find_seq_from(s, p, 0) == Some(0int));
    let e = s.len() - 1;
    let a = dh.len() as int;
    assert forall|k: int| 4 <= k < e implies s[k] != 't' by {
        if k < 4 + a {
            assert(s[k] == dh[k - 4]);
        } else if k == 4 + a {
            assert(s[k] == ';');
        } else {
            assert(s[k] == dw[k - 5 - a]);
        }
    }
    lemma_find_at(s, 't', 4, e);
    let seg = s.subrange(4, e);
    assert(seg =~= dh + seq![';'] + dw);
    assert forall|k: int| 0 <= k < a implies seg[k] != ';' by {
        assert(seg[k] == dh[k]);
    }
    lemma_find_at(seg, ';', 0, a);
    lemma_find_from(seg, ';', a + 1);
    assert forall|k: int| a + 1 <= k < seg.len() implies seg[k] != ';' by {
        assert(seg[k] == dw[k - a - 1]);
    }
    assert(seg.take(a) =~= dh);
    assert(seg.skip(a + 1) =~= dw);
}

/// A report that starts with `ESC` and has no other `ESC` among its
/// characters is first found where it is written, after text that does not
/// hold it.
proof fn lemma_report_found(p: Seq<char>, pat: Seq<char>, rest: Seq<char>)
    requires
        pat.len() > 0,
        pat[0] == '\u{1b}',
        forall|i: int| 0 < i < pat.len() ==> pat[i] != '\u{1b}',
        !contains_seq(p, pat),
    ensures
        find_seq_from(p + pat + rest, pat, 0) == Some(p.len() as int),
{
    let s = p + pat + rest;
    let e = p.len() as int;
    assert(s.subrange(e, e + pat.len()) =~= pat);
    assert forall|j: int| 0 <= j < e implies #[trigger] s.subrange(j, j + pat.len()) != pat by {
        if j + pat.len() <= e {
            assert(s.subrange(j, j + pat.len()) =~= p.subrange(j, j + pat.len()));
        } else {
            let t = e - j;
            assert(s.subrange(j, j + pat.len())[t] == s[e]);
            assert(s[e] == pat[0]);
        }
    }
    lemma_find_seq_at(s, pat, 0, e);
}

/// The cell-size report read out of a longer answer: text before it that
/// holds no report and any text after it do not change what is read.
pub proof fn lemma_cell_size_in_answer(p: Seq<char>, h: u32, w: u32, q: Seq<char>)
    requires
        !contains_seq(p, csi_size_report()),
    ensures
        cell_size_spec(p + csi_size_report() + decimal(h as nat) + seq![';'] + decimal(w as nat) + seq!['t'] + q) == Some((w, h)),
{
    let c = csi_size_report();
    let dh = decimal(h as nat);
    let dw = decimal(w as nat);
    let tail = dh + seq![';'] + dw + seq!['t'] + q;
    let s = p + c + dh + seq![';'] + dw + seq!['t'] + q;
    assert(s =~= p + c + tail);
    lemma_report_found(p, c, tail);
    let st = p.len() as int;
    lemma_decimal_digits(h as nat);
    lemma_decimal_digits(w as nat);
    lemma_parse_decimal(h);
    lemma_parse_decimal(w);
    lemma_no_char_in_digits(dh, 't');
    lemma_no_char_in_digits(dw, 't');
    lemma_no_char_in_digits(dh, ';');
    lemma_no_char_in_digits(dw, ';');
    let a = dh.len() as int;
    let e = st + 4 + a + 1 + dw.len();
    assert(s[e] == 't');
    assert forall|k: int| st + 4 <= k < e implies s[k] != 't' by {
        if k < st + 4 + a {
            assert(s[k] == dh[k - st - 4]);
        } else if k == st + 4 + a {
            assert(s[k] == ';');
        } else {
            assert(s[k] == dw[k - st - 5 - a]);
        }
    }
    lemma_find_at(s, 't', st + 4, e);
    let seg = s.subrange(st + 4, e);
    assert(seg =~= dh + seq![';'] + dw);
    assert forall|k: int| 0 <= k < a implies seg[k] != ';' by {
        assert(seg[k] == dh[k]);
    }
    lemma_find_at(seg, ';', 0, a);
    lemma_find_from(seg, ';', a + 1);
    assert forall|k: int| a + 1 <= k < seg.len() implies seg[k] != ';' by {
        assert(seg[k] == dw[k - a - 1]);
    }
    assert(seg.take(a) =~= dh);
    assert(seg.skip(a + 1) =~= dw);
}

/// The font-name report read out of a longer answer: a name without BEL or
/// ESC, ended by BEL, or by `ESC \` when no BEL follows in the rest, is
/// read back, whatever text without a report comes before it.
pub proof fn lemma_font_name_in_answer(p: Seq<char>, name: Seq<char>, bel: bool, q: Seq<char>)
    requires
        !contains_seq(p, osc_font_report()),
        forall|i: int| 0 <= i < name.len() ==> name[i] != '\u{07}' && name[i] != '\u{1b}',
        !bel ==> forall|i: int| 0 <= i < q.len() ==> q[i] != '\u{07}',
    ensures
        font_name_spec(p + osc_font_report() + name + (if bel { seq!['\u{07}'] } else { string_terminator() }) + q) == Some(name),
{
    let o = osc_font_report();
    let term: Seq<char> = if bel { seq!['\u{07}'] } else { string_terminator() };
    let tail = name + term + q;
    let s = p + o + name + term + q;
    assert(s =~= p + o + tail);
    lemma_report_found(p, o, tail);
    let st = p.len() as int;
    let e = st + 5 + name.len();
    assert forall|k: int| st + 5 <= k < e implies s[k] != '\u{07}' && s[k] != '\u{1b}' by {
        assert(s[k] == name[k - st - 5]);
    }
    if bel {
        assert(s[e] == '\u{07}');
        lemma_find_at(s, '\u{07}', st + 5, e);
    } else {
        lemma_find_from(s, '\u{07}', st + 5);
        assert forall|k: int| e <= k < s.len() implies s[k] != '\u{07}' by {
            if k < e + 2 {
                assert(s[k] == term[k - e]);
            } else {
                assert(s[k] == q[k - e - 2]);
            }
        }
        assert(s.subrange(e, e + 2) =~= string_terminator());
        assert forall|j: int| st + 5 <= j < e implies #[trigger] s.subrange(j, j + string_terminator().len()) != string_terminator() by {
            assert(s.subrange(j, j + 2)[0] == s[j]);
        }
        lemma_find_seq_at(s, string_terminator(), st + 5, e);
    }
    assert(s.subrange(st + 5, e) =~= name);
}

/// The font-name report that a terminal writes, `ESC ] 50 ; <name> BEL`,
/// reads back as the name, when the name holds no BEL.
pub proof fn lemma_font_name_round_trip(name: Seq<char>)
    requires
        forall|i: int| 0 <= i < name.len() ==> name[i] != '\u{07}',
    ensures
        font_name_spec(osc_font_report() + name + seq!['\u{07}']) == Some(name),
{
    let p = osc_font_report();
    let s = p + name + seq!['\u{07}'];
    assert(s.subrange(0, 5) =~= p);
    assert(find_seq_from(s, p, 0) == Some(0int));
    assert forall|k: int| 5 <= k < s.len() - 1 implies s[k] != '\u{07}' by {
        assert(s[k] == name[k - 5]);
    }
    lemma_find_at(s, '\u{07}', 5, s.len() - 1);
    assert(s.subrange(5, s.len() - 1) =~= name);
}

/// Whether the read loop goes on after a read of `n` bytes, with the reply
/// so far `response` and `bytes_read` bytes read in all: it stops at the
/// end of input (nothing read), once 256 bytes are read, and once the reply
/// ends with `c` or holds a `t` anywhere.
pub open spec fn keep_reading_spec(response: Seq<u8>, bytes_read: int, n: int) -> bool {
    &&& n != 0
    &&& bytes_read < 256
    &&& !(response.len() > 0 && response.last() == 99)
    &&& !(exists|i: int| 0 <= i < response.len() && response[i] == 116)
}

/// Whether the read loop goes on after a read of `n` bytes.
pub fn keep_reading(response: &Vec<u8>, bytes_read: usize, n: usize) -> (r: bool)
    ensures
        r == keep_reading_spec(response@, bytes_read as int, n as int),
{
    if n == 0 || bytes_read >= 256 {
        return false;
    }
    if response.len() > 0 && response[response.len() - 1] == 99u8 {
        return false;
    }
    let mut i: usize = 0;
    while i < response.len()
        invariant
            i <= response@.len(),
            forall|k: int| 0 <= k < i ==> response@[k] != 116,
        decreases response.len() - i,
    {
        if response[i] == 116u8 {
            return false;
        }
        i += 1;
    }
    true
}

/// The font profile that a terminal's reply gives: the reported cell size,
/// or 10 by 20 pixels when there is none; the reported font name, or
/// `monospace`.
pub fn profile_from_reply(reply: &str) -> (p: TerminalFontProfile)
    ensures
        (p.cell_width_px, p.cell_height_px) == match cell_size_spec(reply@) {
            Some(wh) => wh,
            None => (10u32, 20u32),
        },
        p.font_family@ == match font_name_spec(reply@) {
            Some(name) => name,
            None => "monospace"@,
        },
{
    let (cell_width_px, cell_height_px) = match parse_cell_size(reply) {
        Some(wh) => wh,
        None => (10, 20),
    };
    let font_family = match parse_font_name(reply) {
        Some(name) => name,
        None => {
            let mut m = String::new();
            crate::text::push_str(&mut m, "monospace");
            assert(m@ =~= "monospace"@);
            m
        },
    };
    TerminalFontProfile { font_family, cell_width_px, cell_height_px }
}

} // verus!
