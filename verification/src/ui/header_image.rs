//! The parts of drawing a heading as an image that are decided rather than
//! drawn: which installed font family a requested name means, how the
//! heading text is escaped into SVG, and which part of the drawn image holds
//! anything.
use vstd::prelude::*;
use std::sync::Arc;
use usvg::fontdb::{Database, Family, Query};
use unicode_width::UnicodeWidthStr;
use crate::fuzzy::{lowercase, lowercase_chars, is_prefix, contains_seq, utf8_len, utf8_length, starts_with, contains};
use crate::text::{chars_of, push_char, push_str, string_from, hex_digit, decimal};

verus! {

/// A font database.
#[verifier::external_type_specification]
#[verifier::external_body]
pub struct ExDatabase(Database);

/// `char::is_alphanumeric`: whether `c` has the Unicode `Alphabetic` or
/// `Numeric` property.
pub uninterp spec fn alphanumeric(c: char) -> bool;

/// `char::is_alphanumeric`.
#[verifier::external_body]
fn is_alphanumeric(c: char) -> (r: bool)
    ensures
        r == alphanumeric(c),
{
    c.is_alphanumeric()
}

/// The letters and digits of `s`, in order.
pub open spec fn keep_alnum(s: Seq<char>) -> Seq<char>
    decreases s.len(),
{
    if s.len() == 0 {
        seq![]
    } else {
        keep_alnum(s.drop_last()) + if alphanumeric(s.last()) {
            seq![s.last()]
        } else {
            seq![]
        }
    }
}

/// A family name as it is compared: lowercased, letters and digits only.
pub open spec fn normalize_spec(s: Seq<char>) -> Seq<char> {
    keep_alnum(lowercase(s))
}

fn alnum_chars(v: &Vec<char>) -> (r: Vec<char>)
    ensures
        r@ == keep_alnum(v@),
{
    let mut out: Vec<char> = Vec::new();
    let mut i: usize = 0;
    while i < v.len()
        invariant
            i <= v@.len(),
            out@ == keep_alnum(v@.take(i as int)),
        decreases v.len() - i,
    {
        assert(v@.take(i + 1).drop_last() =~= v@.take(i as int));
        let c = v[i];
        if is_alphanumeric(c) {
            out.push(c);
        }
        i += 1;
        assert(out@ =~= keep_alnum(v@.take(i as int)));
    }
    assert(v@.take(v@.len() as int) =~= v@);
    out
}

/// A family name as it is compared.
pub fn normalize(s: &str) -> (r: Vec<char>)
    ensures
        r@ == normalize_spec(s@),
{
    let v = chars_of(s);
    let low = lowercase_chars(&v);
    alnum_chars(&low)
}

/// How well an installed family name (normalized: `candidate`) matches the
/// requested one (normalized: `needle`): 3 when equal, 2 when it starts with
/// the request, 1 when either contains the other, 0 otherwise.
pub open spec fn family_score(candidate: Seq<char>, needle: Seq<char>) -> int {
    if candidate == needle {
        3
    } else if is_prefix(needle, candidate) {
        2
    } else if contains_seq(candidate, needle) || contains_seq(needle, candidate) {
        1
    } else {
        0
    }
}

/// A candidate: whether its face is monospaced, its score, the length of its
/// name in bytes, and its name.
pub type Candidate = (bool, int, nat, Seq<char>);

/// Whether candidate `a` beats `b`: monospaced first, then the higher score,
/// then the shorter name.
pub open spec fn beats(a: Candidate, b: Candidate) -> bool {
    ||| (a.0 && !b.0)
    ||| (a.0 == b.0 && a.1 > b.1)
    ||| (a.0 == b.0 && a.1 == b.1 && a.2 < b.2)
}

/// The candidate that a face family makes.
pub open spec fn candidate_of(face: (bool, Seq<char>), needle: Seq<char>) -> Candidate {
    (face.0, family_score(normalize_spec(face.1), needle), utf8_len(face.1), face.1)
}

/// The best matching family among the first `k` face families: the first of
/// those that no later one beats, among the families that match at all.
pub open spec fn best_upto(faces: Seq<(bool, Seq<char>)>, needle: Seq<char>, k: int) -> Option<Candidate>
    decreases k,
{
    if k <= 0 {
        None
    } else {
        let prev = best_upto(faces, needle, k - 1);
        let this = candidate_of(faces[k - 1], needle);
        if this.1 == 0 {
            prev
        } else {
            match prev {
                None => Some(this),
                Some(b) => if beats(this, b) {
                    Some(this)
                } else {
                    prev
                },
            }
        }
    }
}

pub open spec fn faces_view(faces: Seq<(bool, String)>) -> Seq<(bool, Seq<char>)> {
    faces.map_values(|f: (bool, String)| (f.0, f.1@))
}

/// The family that a requested name means among the installed ones, when no
/// family has exactly that name: none when the request has no letter or
/// digit, else the best matching one, if any matches.
pub open spec fn best_family_spec(requested: Seq<char>, faces: Seq<(bool, Seq<char>)>) -> Option<Seq<char>> {
    let needle = normalize_spec(requested);
    if needle.len() == 0 {
        None
    } else {
        match best_upto(faces, needle, faces.len() as int) {
            Some(c) => Some(c.3),
            None => None,
        }
    }
}

fn score_of(candidate: &Vec<char>, needle: &Vec<char>) -> (r: u8)
    ensures
        r == family_score(candidate@, needle@),
{
    if candidate.len() == needle.len() && starts_with(candidate, needle) {
        assert(candidate@ =~= needle@);
        3
    } else if starts_with(candidate, needle) {
        assert(candidate@ != needle@) by {
            if candidate@ == needle@ {
                assert(candidate@.take(needle@.len() as int) =~= candidate@);
            }
        }
        2
    } else if contains(candidate, needle) || contains(needle, candidate) {
        assert(candidate@ != needle@) by {
            if candidate@ == needle@ {
                assert(candidate@.take(needle@.len() as int) =~= candidate@);
            }
        }
        1
    } else {
        assert(candidate@ != needle@) by {
            if candidate@ == needle@ {
                assert(candidate@.take(needle@.len() as int) =~= candidate@);
            }
        }
        0
    }
}

/// Picks the family that `requested` means among the families of the
/// installed faces, given as `(monospaced, name)` in database order.
pub fn best_family(requested: &str, faces: &Vec<(bool, String)>) -> (r: Option<String>)
    ensures
        opt_view(r) == best_family_spec(requested@, faces_view(faces@)),
{
    let needle = normalize(requested);
    if needle.len() == 0 {
        return None;
    }
    let ghost fv = faces_view(faces@);
    let mut best: Option<(bool, u8, u128, usize)> = None;
    let mut i: usize = 0;
    while i < faces.len()
        invariant
            i <= faces@.len(),
            fv == faces_view(faces@),
            needle@ == normalize_spec(requested@),
            match best {
                None => best_upto(fv, needle@, i as int) is None,
                Some(b) => b.3 < i && best_upto(fv, needle@, i as int) == Some(
                    (b.0, b.1 as int, b.2 as nat, fv[b.3 as int].1),
                ),
            },
        decreases faces.len() - i,
    {
        let (mono, name) = (faces[i].0, &faces[i].1);
        let name_chars = chars_of(name.as_str());
        let low = lowercase_chars(&name_chars);
        let cand = alnum_chars(&low);
        let score = score_of(&cand, &needle);
        let len = utf8_length(&name_chars);
        assert(fv[i as int] == (mono, name@));
        if score != 0 {
            let better = match best {
                None => true,
                Some(b) => (mono && !b.0) || (mono == b.0 && score > b.1) || (mono == b.0 && score == b.1 && len < b.2),
            };
            if better {
                best = Some((mono, score, len, i));
            }
        }
        i += 1;
    }
    match best {
        None => None,
        Some(b) => {
            let name = faces[b.3].1.clone();
            assert(fv[b.3 as int] == (faces@[b.3 as int].0, faces@[b.3 as int].1@));
            Some(name)
        },
    }
}

pub open spec fn opt_view(o: Option<String>) -> Option<Seq<char>> {
    match o {
        Some(s) => Some(s@),
        None => None,
    }
}

/// The family that `Database::query` finds for a family of exactly the
/// requested name: the first family name of the face it picks, if any face
/// has that name.
pub uninterp spec fn exact_family(db: Database, requested: Seq<char>) -> Option<Seq<char>>;

/// The faces of a font database as `(monospaced, family name)`, one entry
/// per family name of each face, in database order.
pub uninterp spec fn db_faces(db: Database) -> Seq<(bool, Seq<char>)>;

/// `Database::query` for a family of exactly the requested name, and the
/// first family name of the face it finds.
#[verifier::external_body]
fn query_family(db: &Database, requested: &str) -> (r: Option<String>)
    ensures
        opt_view(r) == exact_family(*db, requested@),
{
    let query = Query { families: &[Family::Name(requested)], ..Default::default() };
    db.query(&query).and_then(|id| db.face(id)).and_then(|f| f.families.first()).map(|(n, _)| n.clone())
}

/// `Database::faces`: every face's family names, each with whether its
/// face is monospaced, in database order.
#[verifier::external_body]
fn face_families(db: &Database) -> (r: Vec<(bool, String)>)
    ensures
        faces_view(r@) == db_faces(*db),
{
    db.faces().flat_map(|f| f.families.iter().map(move |(n, _)| (f.monospaced, n.clone()))).collect()
}

/// The family that a requested name means in a database: the family of
/// exactly that name if the database finds one, else the best match.
pub open spec fn canonical_family_spec(db: Database, requested: Seq<char>) -> Option<Seq<char>> {
    match exact_family(db, requested) {
        Some(n) => Some(n),
        None => best_family_spec(requested, db_faces(db)),
    }
}

/// The installed family that a requested name means: the family of exactly
/// that name, if the database finds one; else the best match among all
/// installed families, as `best_family` picks it.
pub fn canonicalize_family(db: &Database, requested: &str) -> (r: Option<String>)
    ensures
        opt_view(r) == canonical_family_spec(*db, requested@),
{
    match query_family(db, requested) {
        Some(name) => Some(name),
        None => {
            let faces = face_families(db);
            best_family(requested, &faces)
        },
    }
}

/// How a character of heading text is written inside SVG text: `&`, `<` and
/// `>` as entities, anything else as itself.
pub open spec fn escape_char(c: char) -> Seq<char> {
    if c == '&' {
        seq!['&', 'a', 'm', 'p', ';']
    } else if c == '<' {
        seq!['&', 'l', 't', ';']
    } else if c == '>' {
        seq!['&', 'g', 't', ';']
    } else {
        seq![c]
    }
}

/// `s` with each character escaped.
pub open spec fn xml_escaped(s: Seq<char>) -> Seq<char>
    decreases s.len(),
{
    if s.len() == 0 {
        seq![]
    } else {
        xml_escaped(s.drop_last()) + escape_char(s.last())
    }
}

/// Escapes text for SVG: `&`, `<` and `>` become entities.
pub fn xml_escape(s: &str) -> (r: String)
    ensures
        r@ == xml_escaped(s@),
{
    let v = chars_of(s);
    let mut out = String::new();
    let mut i: usize = 0;
    while i < v.len()
        invariant
            i <= v@.len(),
            v@ == s@,
            out@ == xml_escaped(v@.take(i as int)),
        decreases v.len() - i,
    {
        assert(v@.take(i + 1).drop_last() =~= v@.take(i as int));
        let c = v[i];
        let ghost before = out@;
        if c == '&' {
            push_char(&mut out, '&');
            push_char(&mut out, 'a');
            push_char(&mut out, 'm');
            push_char(&mut out, 'p');
            push_char(&mut out, ';');
        } else if c == '<' {
            push_char(&mut out, '&');
            push_char(&mut out, 'l');
            push_char(&mut out, 't');
            push_char(&mut out, ';');
        } else if c == '>' {
            push_char(&mut out, '&');
            push_char(&mut out, 'g');
            push_char(&mut out, 't');
            push_char(&mut out, ';');
        } else {
            push_char(&mut out, c);
        }
        assert(out@ =~= before + escape_char(c));
        i += 1;
    }
    assert(v@.take(v@.len() as int) =~= v@);
    out
}

/// Whether the pixel at column `x` of row `y` is drawn: its alpha is not 0.
pub open spec fn opaque_at(rows: Seq<Vec<u8>>, x: int, y: int) -> bool {
    0 <= y < rows.len() && 0 <= x < rows[y]@.len() && rows[y]@[x] != 0
}

/// What `content_bounds` gives for an image whose alpha values are `rows`:
/// none when no pixel is drawn; else the least and greatest column and row
/// of a drawn pixel.
pub open spec fn bounds_spec(rows: Seq<Vec<u8>>, r: Option<(usize, usize, usize, usize)>) -> bool {
    match r {
        None => forall|x: int, y: int| !opaque_at(rows, x, y),
        Some((x0, y0, x1, y1)) => {
            &&& exists|y: int| opaque_at(rows, x0 as int, y)
            &&& exists|y: int| opaque_at(rows, x1 as int, y)
            &&& exists|x: int| opaque_at(rows, x, y0 as int)
            &&& exists|x: int| opaque_at(rows, x, y1 as int)
            &&& forall|x: int, y: int| opaque_at(rows, x, y) ==> x0 <= x <= x1 && y0 <= y <= y1
        },
    }
}

/// Whether `(a, b)` comes before `(x, y)` in row-major order.
pub open spec fn before(a: int, b: int, x: int, y: int) -> bool {
    b < y || (b == y && a < x)
}

/// What the scan has found once it reached `(x, y)`.
pub open spec fn scanned(
    rows: Seq<Vec<u8>>,
    found: Option<(usize, usize, usize, usize)>,
    x: int,
    y: int,
    w: (int, int, int, int),
) -> bool {
    match found {
        None => forall|a: int, b: int| #[trigger] opaque_at(rows, a, b) ==> !before(a, b, x, y),
        Some((x0, y0, x1, y1)) => {
            &&& opaque_at(rows, x0 as int, w.0)
            &&& opaque_at(rows, x1 as int, w.1)
            &&& opaque_at(rows, w.2, y0 as int)
            &&& opaque_at(rows, w.3, y1 as int)
            &&& forall|a: int, b: int| #[trigger] opaque_at(rows, a, b) && before(a, b, x, y) ==> x0 <= a <= x1 && y0 <= b <= y1
        },
    }
}

/// The smallest rectangle that holds every drawn pixel, as its first and
/// last column and row, given the alpha values of an image row by row.
pub fn content_bounds(rows: &Vec<Vec<u8>>) -> (r: Option<(usize, usize, usize, usize)>)
    ensures
        bounds_spec(rows@, r),
{
    let mut found: Option<(usize, usize, usize, usize)> = None;
    let ghost mut w: (int, int, int, int) = (0, 0, 0, 0);
    let mut y: usize = 0;
    while y < rows.len()
        invariant
            y <= rows@.len(),
            scanned(rows@, found, 0, y as int, w),
        decreases rows.len() - y,
    {
        let row = &rows[y];
        let mut x: usize = 0;
        while x < row.len()
            invariant
                y < rows@.len(),
                *row == rows@[y as int],
                x <= row@.len(),
                scanned(rows@, found, x as int, y as int, w),
            decreases row.len() - x,
        {
            if row[x] != 0 {
                assert(opaque_at(rows@, x as int, y as int));
                match found {
                    None => {
                        found = Some((x, y, x, y));
                        proof {
                            w = (y as int, y as int, x as int, x as int);
                        }
                    },
                    Some((x0, y0, x1, y1)) => {
                        let nx0 = if x < x0 { x } else { x0 };
                        let ny0 = if y < y0 { y } else { y0 };
                        let nx1 = if x > x1 { x } else { x1 };
                        let ny1 = if y > y1 { y } else { y1 };
                        proof {
                            w = (
                                if x < x0 { y as int } else { w.0 },
                                if x > x1 { y as int } else { w.1 },
                                if y < y0 { x as int } else { w.2 },
                                if y > y1 { x as int } else { w.3 },
                            );
                        }
                        found = Some((nx0, ny0, nx1, ny1));
                    },
                }
            } else {
                assert(!opaque_at(rows@, x as int, y as int));
            }
            x += 1;
        }
        assert forall|a: int, b: int| #[trigger] opaque_at(rows@, a, b) && before(a, b, x as int, y as int) <==> opaque_at(rows@, a, b) && before(a, b, 0, y + 1) by {}
        y += 1;
    }
    found
}

/// Whether an image, given by its alpha values row by row, draws nothing.
pub fn is_blank(rows: &Vec<Vec<u8>>) -> (r: bool)
    ensures
        r == forall|x: int, y: int| !opaque_at(rows@, x, y),
{
    let b = content_bounds(rows);
    match b {
        None => true,
        Some((x0, y0, _, _)) => {
            assert(exists|y: int| opaque_at(rows@, x0 as int, y));
            false
        },
    }
}

/// Escaped text holds no `<` and no `>`: heading text cannot open or close
/// an SVG element.
pub proof fn lemma_escaped_has_no_angle_brackets(s: Seq<char>)
    ensures
        forall|i: int| 0 <= i < xml_escaped(s).len() ==> #[trigger] xml_escaped(s)[i] != '<' && xml_escaped(s)[i] != '>',
    decreases s.len(),
{
    if s.len() > 0 {
        lemma_escaped_has_no_angle_brackets(s.drop_last());
        let a = xml_escaped(s.drop_last());
        let b = escape_char(s.last());
        assert forall|i: int| 0 <= i < xml_escaped(s).len() implies #[trigger] xml_escaped(s)[i] != '<' && xml_escaped(s)[i] != '>' by {
            if i < a.len() {
                assert(xml_escaped(s)[i] == a[i]);
            } else {
                assert(xml_escaped(s)[i] == b[i - a.len()]);
            }
        }
    }
}

/// The family that `best_upto` picks matches the request, and no family
/// among those it looked at beats it.
pub proof fn lemma_best_is_best(faces: Seq<(bool, Seq<char>)>, needle: Seq<char>, k: int)
    requires
        0 <= k <= faces.len(),
    ensures
        match best_upto(faces, needle, k) {
            None => forall|j: int| 0 <= j < k ==> (#[trigger] candidate_of(faces[j], needle)).1 == 0,
            Some(b) => {
                &&& b.1 > 0
                &&& exists|j: int| 0 <= j < k && #[trigger] candidate_of(faces[j], needle) == b
                &&& forall|j: int| 0 <= j < k && (#[trigger] candidate_of(faces[j], needle)).1 > 0 ==> !beats(candidate_of(faces[j], needle), b)
            },
        },
    decreases k,
{
    if k > 0 {
        lemma_best_is_best(faces, needle, k - 1);
        let this = candidate_of(faces[k - 1], needle);
        match best_upto(faces, needle, k - 1) {
            None => {},
            Some(b) => {
                let j0 = choose|j: int| 0 <= j < k - 1 && #[trigger] candidate_of(faces[j], needle) == b;
                assert(candidate_of(faces[j0], needle) == b);
            },
        }
    }
}

/// What a heading image is drawn from: the heading text and level, the font
/// family asked for, the size of a terminal cell in pixels, and the color.
#[derive(Debug)]
pub struct HeaderSpec {
    pub text: String,
    pub level: u8,
    pub font_family: String,
    pub cell_w: u32,
    pub cell_h: u32,
    pub fill: (u8, u8, u8),
}

/// The two lowercase hexadecimal digits of a byte.
pub open spec fn hex2(b: u8) -> Seq<char> {
    seq![hex_digit((b / 16) as int), hex_digit((b % 16) as int)]
}

fn hex_digit_char(d: u8) -> (r: char)
    requires
        d < 16,
    ensures
        r == hex_digit(d as int),
{
    match d {
        0 => '0', 1 => '1', 2 => '2', 3 => '3', 4 => '4', 5 => '5', 6 => '6', 7 => '7',
        8 => '8', 9 => '9', 10 => 'a', 11 => 'b', 12 => 'c', 13 => 'd', 14 => 'e', _ => 'f',
    }
}

fn push_decimal(s: &mut String, n: u32)
    ensures
        final(s)@ == old(s)@ + decimal(n as nat),
    decreases n,
{
    let ghost s0 = s@;
    if n >= 10 {
        push_decimal(s, n / 10);
    }
    push_char(s, hex_digit_char((n % 10) as u8));
    assert(s@ =~= s0 + decimal(n as nat));
}

fn push_hex2(s: &mut String, b: u8)
    ensures
        final(s)@ == old(s)@ + hex2(b),
{
    let ghost s0 = s@;
    push_char(s, hex_digit_char(b / 16));
    push_char(s, hex_digit_char(b % 16));
    assert(s@ =~= s0 + hex2(b));
}

/// The SVG document that draws a heading: the text, escaped, at the left
/// edge on the baseline `font_px` down, in the given family, size and
/// color, on a `w` by `h` canvas.
pub open spec fn svg_spec(text: Seq<char>, fill: (u8, u8, u8), family: Seq<char>, font_px: u32, w: u32, h: u32) -> Seq<char> {
    "<svg width=\""@ + decimal(w as nat) + "\" height=\""@ + decimal(h as nat)
        + "\" xmlns=\"http://www.w3.org/2000/svg\">\n\t\t\t<text x=\"0\" y=\""@ + decimal(font_px as nat)
        + "\" font-family=\""@ + family + "\" font-size=\""@ + decimal(font_px as nat)
        + "\"\n\t\t\t\tfill=\"#"@ + hex2(fill.0) + hex2(fill.1) + hex2(fill.2) + "\">"@ + xml_escaped(text)
        + "</text>\n\t\t</svg>"@
}

/// The SVG document that draws the heading of `spec`.
pub fn build_svg(spec: &HeaderSpec, family: &str, font_px: u32, w: u32, h: u32) -> (r: String)
    ensures
        r@ == svg_spec(spec.text@, spec.fill, family@, font_px, w, h),
{
    let baseline = font_px;
    let (r, g, b) = spec.fill;
    let mut s = String::new();
    push_str(&mut s, "<svg width=\"");
    push_decimal(&mut s, w);
    push_str(&mut s, "\" height=\"");
    push_decimal(&mut s, h);
    push_str(&mut s, "\" xmlns=\"http://www.w3.org/2000/svg\">\n\t\t\t<text x=\"0\" y=\"");
    push_decimal(&mut s, baseline);
    push_str(&mut s, "\" font-family=\"");
    push_str(&mut s, family);
    push_str(&mut s, "\" font-size=\"");
    push_decimal(&mut s, font_px);
    push_str(&mut s, "\"\n\t\t\t\tfill=\"#");
    push_hex2(&mut s, r);
    push_hex2(&mut s, g);
    push_hex2(&mut s, b);
    push_str(&mut s, "\">");
    let escaped = xml_escape(spec.text.as_str());
    push_str(&mut s, escaped.as_str());
    push_str(&mut s, "</text>\n\t\t</svg>");
    assert(s@ =~= svg_spec(spec.text@, spec.fill, family@, font_px, w, h));
    s
}

/// How many terminal columns `unicode-width` gives a text.
pub uninterp spec fn display_width(s: Seq<char>) -> usize;

/// `UnicodeWidthStr::width`: the columns a text takes in a terminal, by the
/// Unicode width tables; a function of the text alone.
#[verifier::external_body]
fn text_width(s: &str) -> (r: usize)
    ensures
        r == display_width(s@),
{
    UnicodeWidthStr::width(s)
}

/// The terminal columns that the text of a heading takes, as a `u32` (the
/// width cut to its low 32 bits, as a cast does).
pub fn heading_columns(spec: &HeaderSpec) -> (r: u32)
    ensures
        r == display_width(spec.text@) as u32,
{
    let w = text_width(spec.text.as_str());
    w as u32
}

/// Why a heading could not be drawn: the SVG did not parse, or the canvas
/// could not be made (a zero or too large size).
#[derive(Debug, Clone, Copy, PartialEq, Eq, Structural)]
pub enum RasterError {
    Svg,
    Canvas,
}

/// An RGBA image: 4 bytes per pixel, row by row.
#[derive(Debug, Clone, PartialEq, Eq)]
pub struct RgbaPixels {
    pub width: u32,
    pub height: u32,
    pub data: Vec<u8>,
}

/// Whether tiny-skia can make a `w` by `h` canvas: both sides positive, a
/// row of 4-byte pixels within `i32`, and all its bytes within `usize`.
pub open spec fn canvas_fits(w: u32, h: u32) -> bool {
    &&& 0 < w
    &&& 0 < h
    &&& 4 * w <= i32::MAX
    &&& 4 * (w * h) <= usize::MAX
}

/// Whether `usvg::Tree::from_str` parses an SVG text with the fonts of a
/// database.
pub uninterp spec fn svg_parses(svg: Seq<char>, db: Database) -> bool;

/// `usvg::Tree::from_str`, `tiny_skia::Pixmap::new` and `resvg::render`:
/// parses the SVG with the fonts of `db` and draws it on a transparent
/// `w` by `h` canvas, giving its RGBA bytes. A parse failure gives `Svg`;
/// after a parse, `Pixmap::new` gives no canvas exactly when the size does
/// not fit (`Canvas`), and otherwise one of 4 bytes per pixel. Which bytes
/// are drawn is left open: rendering reads font files and linked images
/// from disk.
#[verifier::external_body]
fn render_svg(svg: &str, db: Database, w: u32, h: u32) -> (r: Result<Vec<u8>, RasterError>)
    ensures
        r matches Ok(_) ==> svg_parses(svg@, db) && canvas_fits(w, h),
        r matches Err(e) ==> e == RasterError::Canvas && svg_parses(svg@, db) && !canvas_fits(w, h) || e == RasterError::Svg && !svg_parses(svg@, db),
        r matches Ok(v) ==> v@.len() == 4 * (w * h),
{
    let mut opts = resvg::usvg::Options::default();
    opts.fontdb = Arc::new(db);
    let tree = resvg::usvg::Tree::from_str(svg, &opts).map_err(|_| RasterError::Svg)?;
    let mut pixmap = resvg::tiny_skia::Pixmap::new(w, h).ok_or(RasterError::Canvas)?;
    resvg::render(&tree, resvg::tiny_skia::Transform::default(), &mut pixmap.as_mut());
    Ok(pixmap.data().to_vec())
}

/// Whether the pixels of an image are `4 * width * height` bytes.
pub open spec fn pixels_wf(p: RgbaPixels) -> bool {
    p.data@.len() == 4 * (p.width * p.height)
}

/// Whether the pixel at column `x` of row `y` is drawn: its alpha is not 0.
pub open spec fn drawn(p: RgbaPixels, x: int, y: int) -> bool {
    px_drawn(p.width, p.height, p.data@, x, y)
}

/// Whether the pixel at column `x` of row `y` of a `w` by `h` image with
/// bytes `data` is drawn: its alpha is not 0.
pub open spec fn px_drawn(w: u32, h: u32, data: Seq<u8>, x: int, y: int) -> bool {
    0 <= x < w && 0 <= y < h && data[4 * (y * w + x) + 3] != 0
}

/// `(x0, y0, x1, y1)` is the smallest box that holds every drawn pixel of a
/// `w` by `h` image with bytes `data`.
pub open spec fn box_of(w: u32, h: u32, data: Seq<u8>, x0: int, y0: int, x1: int, y1: int) -> bool {
    &&& exists|y: int| px_drawn(w, h, data, x0, y)
    &&& exists|y: int| px_drawn(w, h, data, x1, y)
    &&& exists|x: int| px_drawn(w, h, data, x, y0)
    &&& exists|x: int| px_drawn(w, h, data, x, y1)
    &&& forall|x: int, y: int| px_drawn(w, h, data, x, y) ==> x0 <= x <= x1 && y0 <= y <= y1
}

/// `r` is the `w` by `h` image with bytes `data` cut to the smallest box
/// that holds every drawn pixel, or the whole image when nothing is drawn.
pub open spec fn cut_of(w: u32, h: u32, data: Seq<u8>, r: RgbaPixels) -> bool {
    &&& (forall|x: int, y: int| !px_drawn(w, h, data, x, y)) ==> r.width == w && r.height == h && r.data@ == data
    &&& (exists|x: int, y: int| px_drawn(w, h, data, x, y)) ==> exists|x0: int, y0: int, x1: int, y1: int|
        #![trigger box_of(w, h, data, x0, y0, x1, y1)]
        {
            &&& box_of(w, h, data, x0, y0, x1, y1)
            &&& r.width == x1 - x0 + 1
            &&& r.height == y1 - y0 + 1
            &&& r.data@ == crop_rows(data, w as int, x0, y0, x1 - x0 + 1, y1 - y0 + 1)
        }
}

/// `(x0, y0, x1, y1)` is the smallest box that holds every drawn pixel:
/// each of its sides touches one.
pub open spec fn content_box(p: RgbaPixels, x0: int, y0: int, x1: int, y1: int) -> bool {
    &&& exists|y: int| drawn(p, x0, y)
    &&& exists|y: int| drawn(p, x1, y)
    &&& exists|x: int| drawn(p, x, y0)
    &&& exists|x: int| drawn(p, x, y1)
    &&& forall|x: int, y: int| drawn(p, x, y) ==> x0 <= x <= x1 && y0 <= y <= y1
}

/// The bytes of rows `y0 .. y0 + k` of an image `w` pixels wide, each cut to
/// the `cw` pixels from column `x0` on.
pub open spec fn crop_rows(data: Seq<u8>, w: int, x0: int, y0: int, cw: int, k: int) -> Seq<u8>
    decreases k,
{
    if k <= 0 {
        seq![]
    } else {
        let start = 4 * ((y0 + k - 1) * w + x0);
        crop_rows(data, w, x0, y0, cw, k - 1) + data.subrange(start, start + 4 * cw)
    }
}

proof fn lemma_pixel_index(x: int, y: int, w: int, h: int)
    by (nonlinear_arith)
    requires
        0 <= x < w,
        0 <= y < h,
    ensures
        0 <= y * w + x < h * w,
        y * w + w <= h * w,
        (y + 1) * w == y * w + w,
        0 <= y * w,
        h * w == w * h,
{
}

/// The alpha values of an image, row by row.
pub fn alpha_rows(p: &RgbaPixels) -> (r: Vec<Vec<u8>>)
    requires
        pixels_wf(*p),
    ensures
        r@.len() == p.height,
        forall|y: int| 0 <= y < p.height ==> (#[trigger] r@[y])@.len() == p.width,
        forall|x: int, y: int| #![trigger r@[y]@[x]] 0 <= x < p.width && 0 <= y < p.height ==> r@[y]@[x] == p.data@[4 * (y * p.width + x) + 3],
{
    let w = p.width as usize;
    let h = p.height as usize;
    let len = p.data.len();
    let mut rows: Vec<Vec<u8>> = Vec::new();
    let mut y: usize = 0;
    while y < h
        invariant
            pixels_wf(*p),
            len == p.data@.len(),
            w == p.width,
            h == p.height,
            y <= h,
            rows@.len() == y,
            forall|b: int| 0 <= b < y ==> (#[trigger] rows@[b])@.len() == w,
            forall|a: int, b: int| #![trigger rows@[b]@[a]] 0 <= a < w && 0 <= b < y ==> rows@[b]@[a] == p.data@[4 * (b * w + a) + 3],
        decreases h - y,
    {
        let mut row: Vec<u8> = Vec::new();
        let mut x: usize = 0;
        while x < w
            invariant
                pixels_wf(*p),
                len == p.data@.len(),
                w == p.width,
                h == p.height,
                y < h,
                x <= w,
                row@.len() == x,
                forall|a: int| 0 <= a < x ==> #[trigger] row@[a] == p.data@[4 * (y * w + a) + 3],
            decreases w - x,
        {
            proof {
                lemma_pixel_index(x as int, y as int, w as int, h as int);
            }
            let i = y * w + x;
            row.push(p.data[4 * i + 3]);
            x += 1;
        }
        rows.push(row);
        y += 1;
    }
    rows
}

/// The bytes of the `cw` by `ch` box at `(x0, y0)` of an image.
fn crop_box(p: &RgbaPixels, x0: u32, y0: u32, cw: u32, ch: u32) -> (r: Vec<u8>)
    requires
        pixels_wf(*p),
        cw > 0,
        x0 + cw <= p.width,
        y0 + ch <= p.height,
    ensures
        r@ == crop_rows(p.data@, p.width as int, x0 as int, y0 as int, cw as int, ch as int),
{
    let w = p.width as usize;
    let h = p.height as usize;
    let len = p.data.len();
    let mut out: Vec<u8> = Vec::new();
    let mut k: usize = 0;
    while k < ch as usize
        invariant
            pixels_wf(*p),
            len == p.data@.len(),
            cw > 0,
            w == p.width,
            h == p.height,
            x0 + cw <= w,
            y0 + ch <= h,
            k <= ch,
            out@ == crop_rows(p.data@, w as int, x0 as int, y0 as int, cw as int, k as int),
        decreases ch - k,
    {
        let y = y0 as usize + k;
        proof {
            lemma_pixel_index(x0 as int, y as int, w as int, h as int);
            lemma_pixel_index((x0 + cw - 1) as int, y as int, w as int, h as int);
        }
        let start = 4 * (y * w + x0 as usize);
        let end = start + 4 * cw as usize;
        let ghost before = out@;
        let mut i = start;
        while i < end
            invariant
                pixels_wf(*p),
                start <= i <= end,
                end <= p.data@.len(),
                out@ == before + p.data@.subrange(start as int, i as int),
            decreases end - i,
        {
            out.push(p.data[i]);
            i += 1;
            assert(out@ =~= before + p.data@.subrange(start as int, i as int));
        }
        k += 1;
    }
    out
}

proof fn lemma_crop_rows_len(data: Seq<u8>, w: int, h: int, x0: int, y0: int, cw: int, k: int)
    requires
        data.len() == 4 * (w * h),
        0 <= x0,
        0 < cw,
        x0 + cw <= w,
        0 <= y0,
        0 <= k,
        y0 + k <= h,
    ensures
        crop_rows(data, w, x0, y0, cw, k).len() == 4 * (cw * k),
    decreases k,
{
    if k > 0 {
        lemma_crop_rows_len(data, w, h, x0, y0, cw, k - 1);
        lemma_pixel_index(x0, y0 + k - 1, w, h);
        lemma_pixel_index(x0 + cw - 1, y0 + k - 1, w, h);
        assert(cw * k == cw * (k - 1) + cw) by (nonlinear_arith);
    } else {
        assert(cw * k == 0) by (nonlinear_arith)
            requires
                k == 0,
        ;
    }
}

/// An image cut to the smallest box that holds every drawn pixel; an image
/// that draws nothing is left whole.
pub fn crop_to_content(p: RgbaPixels) -> (r: RgbaPixels)
    requires
        pixels_wf(p),
    ensures
        pixels_wf(r),
        r.width <= p.width,
        r.height <= p.height,
        p.width > 0 && p.height > 0 ==> r.width > 0 && r.height > 0,
        cut_of(p.width, p.height, p.data@, r),
{
    let rows = alpha_rows(&p);
    proof {
        assert forall|x: int, y: int|
            #![trigger opaque_at(rows@, x, y)]
            #![trigger drawn(p, x, y)]
            #![trigger px_drawn(p.width, p.height, p.data@, x, y)]
            opaque_at(rows@, x, y) == drawn(p, x, y) by {
            if 0 <= y < p.height && 0 <= x < p.width {
                assert(rows@[y]@[x] == p.data@[4 * (y * p.width + x) + 3]);
            }
        }
    }
    match content_bounds(&rows) {
        None => p,
        Some((x0, y0, x1, y1)) => {
            proof {
                let wy0 = choose|y: int| opaque_at(rows@, x0 as int, y);
                let wy1 = choose|y: int| opaque_at(rows@, x1 as int, y);
                let wx0 = choose|x: int| opaque_at(rows@, x, y0 as int);
                let wx1 = choose|x: int| opaque_at(rows@, x, y1 as int);
                assert(drawn(p, x0 as int, wy0));
                assert(drawn(p, x1 as int, wy1));
                assert(drawn(p, wx0, y0 as int));
                assert(drawn(p, wx1, y1 as int));
            }
            let cw = (x1 - x0 + 1) as u32;
            let ch = (y1 - y0 + 1) as u32;
            let data = crop_box(&p, x0 as u32, y0 as u32, cw, ch);
            proof {
                lemma_crop_rows_len(p.data@, p.width as int, p.height as int, x0 as int, y0 as int, cw as int, ch as int);
                assert(cw * ch == ch * cw) by (nonlinear_arith);
            }
            let r = RgbaPixels { width: cw, height: ch, data };
            assert(content_box(p, x0 as int, y0 as int, x1 as int, y1 as int));
            assert(box_of(p.width, p.height, p.data@, x0 as int, y0 as int, x1 as int, y1 as int));
            r
        },
    }
}

/// The family a heading is drawn in: the one its requested family means in
/// the database, else `monospace`.
pub open spec fn drawn_family(db: Database, requested: Seq<char>) -> Seq<char> {
    match canonical_family_spec(db, requested) {
        Some(f) => f,
        None => "monospace"@,
    }
}

/// The SVG document of the heading of `spec`, in the family it is drawn in.
pub open spec fn heading_svg(db: Database, spec: HeaderSpec, font_px: u32, w: u32, h: u32) -> Seq<char> {
    svg_spec(spec.text@, spec.fill, drawn_family(db, spec.font_family@), font_px, w, h)
}

/// Draws the heading of `spec` with the fonts of `db`, in the family that
/// its requested family means there (`monospace` when none), at `font_px`
/// on a `w` by `h` canvas, and cuts the image to what it draws. It succeeds
/// exactly when that SVG parses and the canvas fits; otherwise it says
/// which of the two failed. The result is the cut of the drawn canvas,
/// whatever the renderer drew on it.
pub fn rasterize(db: Database, spec: &HeaderSpec, font_px: u32, w: u32, h: u32) -> (r: Result<RgbaPixels, RasterError>)
    ensures
        r is Ok <==> svg_parses(heading_svg(db, *spec, font_px, w, h), db) && canvas_fits(w, h),
        r matches Err(e) ==> e == (if svg_parses(heading_svg(db, *spec, font_px, w, h), db) {
            RasterError::Canvas
        } else {
            RasterError::Svg
        }),
        r matches Ok(p) ==> pixels_wf(p) && 0 < p.width <= w && 0 < p.height <= h
            && exists|d: Seq<u8>| d.len() == 4 * (w * h) && #[trigger] cut_of(w, h, d, p),
{
    let family = match canonicalize_family(&db, spec.font_family.as_str()) {
        Some(f) => f,
        None => {
            let mut m = String::new();
            push_str(&mut m, "monospace");
            assert(m@ =~= "monospace"@);
            m
        },
    };
    assert(family@ == drawn_family(db, spec.font_family@));
    let svg = build_svg(spec, family.as_str(), font_px, w, h);
    match render_svg(svg.as_str(), db, w, h) {
        Ok(data) => {
            let ghost d = data@;
            let p = crop_to_content(RgbaPixels { width: w, height: h, data });
            assert(cut_of(w, h, d, p));
            Ok(p)
        },
        Err(e) => Err(e),
    }
}

} // verus!
