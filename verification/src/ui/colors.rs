//! Colors and how they degrade to what the terminal supports.
use vstd::prelude::*;

verus! {

/// An sRGB color with 8-bit channels.
#[derive(Debug, Clone, Copy, PartialEq, Eq, Structural)]
pub struct AppColor {
    pub red: u8,
    pub green: u8,
    pub blue: u8,
}

/// The colors that a terminal can show.
#[derive(Debug, Clone, Copy, PartialEq, Eq, Structural)]
pub enum ColorSupport {
    TrueColor,
    Ansi256,
    Ansi16,
}

/// The sixteen named ANSI colors.
#[derive(Debug, Clone, Copy, PartialEq, Eq, Structural)]
pub enum Ansi16 {
    Black,
    DarkRed,
    DarkGreen,
    DarkYellow,
    DarkBlue,
    DarkMagenta,
    DarkCyan,
    Grey,
    DarkGrey,
    Red,
    Green,
    Yellow,
    Blue,
    Magenta,
    Cyan,
    White,
}

/// A color as a terminal takes it.
#[derive(Debug, Clone, Copy, PartialEq, Eq, Structural)]
pub enum TermColor {
    Rgb(u8, u8, u8),
    Indexed(u8),
    Named(Ansi16),
}

impl ColorSupport {
    /// The support that a count of available colors means: `u16::MAX` is true
    /// color, 256 is the 256-color palette, anything else the 16 named colors.
    pub fn from_color_count(count: u16) -> (r: ColorSupport)
        ensures
            r == (if count == u16::MAX {
                ColorSupport::TrueColor
            } else if count == 256 {
                ColorSupport::Ansi256
            } else {
                ColorSupport::Ansi16
            }),
    {
        if count == u16::MAX {
            ColorSupport::TrueColor
        } else if count == 256 {
            ColorSupport::Ansi256
        } else {
            ColorSupport::Ansi16
        }
    }

    /// The colors that the terminal the program runs in can show.
    pub fn detect() -> (r: ColorSupport) {
        Self::from_color_count(available_color_count())
    }
}

/// `crossterm::style::available_color_count`: how many colors the terminal is
/// taken to show, read from the environment (`COLORTERM`, else `TERM`):
/// `u16::MAX` for true color, 256, or 8 when nothing says more.
#[verifier::external_body]
fn available_color_count() -> (r: u16)
    ensures
        r == u16::MAX || r == 256 || r == 8,
{
    crossterm::style::available_color_count()
}

/// `round(c * 5 / 255)`: the coordinate of a channel in the 6x6x6 color cube.
pub open spec fn cube_coord(c: u8) -> int {
    (2 * c + 51) / 102
}

/// Whether the 256-color mapping of a gray overflows its `u8` index (the grays
/// from 243 to 248 round to the 25th gray step, past the end of the ramp).
pub open spec fn gray_overflows(r: u8, g: u8, b: u8) -> bool {
    r == g && g == b && 243 <= r <= 248
}

/// The 256-color palette index nearest in spirit to `(r, g, b)`: grays go to the
/// gray ramp (232..=255) or to the cube's black and white ends; other colors
/// to the 6x6x6 cube.
pub open spec fn ansi256_spec(r: u8, g: u8, b: u8) -> int {
    if r == g && g == b {
        if r < 8 {
            16
        } else if r > 248 {
            231
        } else {
            232 + (r - 3) / 10
        }
    } else {
        16 + 36 * cube_coord(r) + 6 * cube_coord(g) + cube_coord(b)
    }
}

/// The 256-color index of a color lies in the palette's color part: the
/// cube (16 to 231) for a color, the cube's black or white end or the gray
/// ramp (232 to 255) for a gray.
pub proof fn lemma_ansi256_in_palette(r: u8, g: u8, b: u8)
    requires
        !gray_overflows(r, g, b),
    ensures
        16 <= ansi256_spec(r, g, b) <= 255,
        !(r == g && g == b) ==> ansi256_spec(r, g, b) <= 231,
{
    assert(0 <= cube_coord(r) <= 5);
    assert(0 <= cube_coord(g) <= 5);
    assert(0 <= cube_coord(b) <= 5);
}

pub fn rgb_to_ansi256(r: u8, g: u8, b: u8) -> (v: u8)
    requires
        !gray_overflows(r, g, b),
    ensures
        v as int == ansi256_spec(r, g, b),
{
    if r == g && g == b {
        if r < 8 {
            return 16;
        }
        if r > 248 {
            return 231;
        }
        return 232 + (r - 3) / 10;
    }
    let rc = ((2 * (r as u32) + 51) / 102) as u8;
    let gc = ((2 * (g as u32) + 51) / 102) as u8;
    let bc = ((2 * (b as u32) + 51) / 102) as u8;
    16 + 36 * rc + 6 * gc + bc
}

/// The sixteen named colors with their nominal RGB values, in palette order.
pub open spec fn ansi16_entry(i: int) -> (Ansi16, int, int, int) {
    if i == 0 {
        (Ansi16::Black, 0, 0, 0)
    } else if i == 1 {
        (Ansi16::DarkRed, 128, 0, 0)
    } else if i == 2 {
        (Ansi16::DarkGreen, 0, 128, 0)
    } else if i == 3 {
        (Ansi16::DarkYellow, 128, 128, 0)
    } else if i == 4 {
        (Ansi16::DarkBlue, 0, 0, 128)
    } else if i == 5 {
        (Ansi16::DarkMagenta, 128, 0, 128)
    } else if i == 6 {
        (Ansi16::DarkCyan, 0, 128, 128)
    } else if i == 7 {
        (Ansi16::Grey, 192, 192, 192)
    } else if i == 8 {
        (Ansi16::DarkGrey, 128, 128, 128)
    } else if i == 9 {
        (Ansi16::Red, 255, 0, 0)
    } else if i == 10 {
        (Ansi16::Green, 0, 255, 0)
    } else if i == 11 {
        (Ansi16::Yellow, 255, 255, 0)
    } else if i == 12 {
        (Ansi16::Blue, 0, 0, 255)
    } else if i == 13 {
        (Ansi16::Magenta, 255, 0, 255)
    } else if i == 14 {
        (Ansi16::Cyan, 0, 255, 255)
    } else {
        (Ansi16::White, 255, 255, 255)
    }
}

/// Squared Euclidean distance in RGB.
pub open spec fn dist2(r: int, g: int, b: int, e: (Ansi16, int, int, int)) -> int {
    (r - e.1) * (r - e.1) + (g - e.2) * (g - e.2) + (b - e.3) * (b - e.3)
}

/// The index of the first nearest entry among the first `k`.
pub open spec fn nearest_upto(r: int, g: int, b: int, k: int) -> int
    decreases k,
{
    if k <= 1 {
        0
    } else {
        let best = nearest_upto(r, g, b, k - 1);
        if dist2(r, g, b, ansi16_entry(k - 1)) < dist2(r, g, b, ansi16_entry(best)) {
            k - 1
        } else {
            best
        }
    }
}

/// The named color nearest to `(r, g, b)`; the first in palette order on a tie.
pub open spec fn ansi16_spec(r: u8, g: u8, b: u8) -> Ansi16 {
    ansi16_entry(nearest_upto(r as int, g as int, b as int, 16)).0
}

/// The first among the named colors nearest to `(r, g, b)` is really nearest.
pub proof fn lemma_nearest_is_nearest(r: int, g: int, b: int, k: int)
    requires
        1 <= k <= 16,
    ensures
        0 <= nearest_upto(r, g, b, k) < k,
        forall|i: int| 0 <= i < k ==> dist2(r, g, b, ansi16_entry(nearest_upto(r, g, b, k))) <= dist2(r, g, b, #[trigger] ansi16_entry(i)),
        forall|i: int| 0 <= i < nearest_upto(r, g, b, k) ==> dist2(r, g, b, ansi16_entry(nearest_upto(r, g, b, k))) < dist2(r, g, b, #[trigger] ansi16_entry(i)),
    decreases k,
{
    if k > 1 {
        lemma_nearest_is_nearest(r, g, b, k - 1);
    }
}

/// The nominal RGB value of each named ANSI color.
pub open spec fn nominal_rgb(c: Ansi16) -> (int, int, int) {
    match c {
        Ansi16::Black => (0, 0, 0),
        Ansi16::DarkRed => (128, 0, 0),
        Ansi16::DarkGreen => (0, 128, 0),
        Ansi16::DarkYellow => (128, 128, 0),
        Ansi16::DarkBlue => (0, 0, 128),
        Ansi16::DarkMagenta => (128, 0, 128),
        Ansi16::DarkCyan => (0, 128, 128),
        Ansi16::Grey => (192, 192, 192),
        Ansi16::DarkGrey => (128, 128, 128),
        Ansi16::Red => (255, 0, 0),
        Ansi16::Green => (0, 255, 0),
        Ansi16::Yellow => (255, 255, 0),
        Ansi16::Blue => (0, 0, 255),
        Ansi16::Magenta => (255, 0, 255),
        Ansi16::Cyan => (0, 255, 255),
        Ansi16::White => (255, 255, 255),
    }
}

/// Squared distance in RGB from `(r, g, b)` to the nominal value of `c`.
pub open spec fn nominal_dist(r: int, g: int, b: int, c: Ansi16) -> int {
    let v = nominal_rgb(c);
    (r - v.0) * (r - v.0) + (g - v.1) * (g - v.1) + (b - v.2) * (b - v.2)
}

/// Where each named color stands in the palette.
spec fn palette_index(c: Ansi16) -> int {
    match c {
        Ansi16::Black => 0,
        Ansi16::DarkRed => 1,
        Ansi16::DarkGreen => 2,
        Ansi16::DarkYellow => 3,
        Ansi16::DarkBlue => 4,
        Ansi16::DarkMagenta => 5,
        Ansi16::DarkCyan => 6,
        Ansi16::Grey => 7,
        Ansi16::DarkGrey => 8,
        Ansi16::Red => 9,
        Ansi16::Green => 10,
        Ansi16::Yellow => 11,
        Ansi16::Blue => 12,
        Ansi16::Magenta => 13,
        Ansi16::Cyan => 14,
        Ansi16::White => 15,
    }
}

proof fn lemma_palette_names(i: int, c: Ansi16)
    requires
        0 <= i < 16,
    ensures
        nominal_rgb(ansi16_entry(i).0) == (ansi16_entry(i).1, ansi16_entry(i).2, ansi16_entry(i).3),
        0 <= palette_index(c) < 16,
        ansi16_entry(palette_index(c)).0 == c,
{
}

/// The 16-color choice is the named color whose nominal value is nearest to
/// the input, over all sixteen names.
pub proof fn lemma_ansi16_is_nearest_name(r: u8, g: u8, b: u8)
    ensures
        forall|c: Ansi16| nominal_dist(r as int, g as int, b as int, ansi16_spec(r, g, b))
            <= #[trigger] nominal_dist(r as int, g as int, b as int, c),
{
    let (ri, gi, bi) = (r as int, g as int, b as int);
    lemma_nearest_is_nearest(ri, gi, bi, 16);
    let n = nearest_upto(ri, gi, bi, 16);
    lemma_palette_names(n, Ansi16::Black);
    assert forall|c: Ansi16| nominal_dist(ri, gi, bi, ansi16_spec(r, g, b)) <= #[trigger] nominal_dist(ri, gi, bi, c) by {
        lemma_palette_names(palette_index(c), c);
        let i = palette_index(c);
        assert(dist2(ri, gi, bi, ansi16_entry(n)) <= dist2(ri, gi, bi, ansi16_entry(i)));
    }
}

/// Each named color is what its own nominal value maps to.
pub proof fn lemma_ansi16_names_its_own_value(c: Ansi16)
    ensures
        ansi16_spec(nominal_rgb(c).0 as u8, nominal_rgb(c).1 as u8, nominal_rgb(c).2 as u8) == c,
{
    let v = nominal_rgb(c);
    let (r, g, b) = (v.0 as u8, v.1 as u8, v.2 as u8);
    assert(r as int == v.0 && g as int == v.1 && b as int == v.2);
    lemma_ansi16_is_nearest_name(r, g, b);
    let d = ansi16_spec(r, g, b);
    let w = nominal_rgb(d);
    assert(nominal_dist(v.0, v.1, v.2, c) == 0);
    assert(nominal_dist(v.0, v.1, v.2, d) <= 0);
    let (x, y, z) = (v.0 - w.0, v.1 - w.1, v.2 - w.2);
    assert(x * x + y * y + z * z <= 0 ==> x == 0 && y == 0 && z == 0) by (nonlinear_arith);
    assert(nominal_rgb(d) == nominal_rgb(c));
}

fn entry(i: usize) -> (e: (Ansi16, i32, i32, i32))
    requires
        i < 16,
    ensures
        (e.0, e.1 as int, e.2 as int, e.3 as int) == ansi16_entry(i as int),
{
    match i {
        0 => (Ansi16::Black, 0, 0, 0),
        1 => (Ansi16::DarkRed, 128, 0, 0),
        2 => (Ansi16::DarkGreen, 0, 128, 0),
        3 => (Ansi16::DarkYellow, 128, 128, 0),
        4 => (Ansi16::DarkBlue, 0, 0, 128),
        5 => (Ansi16::DarkMagenta, 128, 0, 128),
        6 => (Ansi16::DarkCyan, 0, 128, 128),
        7 => (Ansi16::Grey, 192, 192, 192),
        8 => (Ansi16::DarkGrey, 128, 128, 128),
        9 => (Ansi16::Red, 255, 0, 0),
        10 => (Ansi16::Green, 0, 255, 0),
        11 => (Ansi16::Yellow, 255, 255, 0),
        12 => (Ansi16::Blue, 0, 0, 255),
        13 => (Ansi16::Magenta, 255, 0, 255),
        14 => (Ansi16::Cyan, 0, 255, 255),
        _ => (Ansi16::White, 255, 255, 255),
    }
}

fn distance(r: u8, g: u8, b: u8, e: (Ansi16, i32, i32, i32)) -> (d: i32)
    requires
        0 <= e.1 <= 255 && 0 <= e.2 <= 255 && 0 <= e.3 <= 255,
    ensures
        d as int == dist2(r as int, g as int, b as int, (e.0, e.1 as int, e.2 as int, e.3 as int)),
{
    let dr = (r as i32) - e.1;
    let dg = (g as i32) - e.2;
    let db = (b as i32) - e.3;
    assert(dr * dr <= 65025) by (nonlinear_arith)
        requires
            -255 <= dr <= 255,
    ;
    assert(dg * dg <= 65025) by (nonlinear_arith)
        requires
            -255 <= dg <= 255,
    ;
    assert(db * db <= 65025) by (nonlinear_arith)
        requires
            -255 <= db <= 255,
    ;
    assert(dr * dr >= 0 && dg * dg >= 0 && db * db >= 0) by (nonlinear_arith);
    dr * dr + dg * dg + db * db
}

/// The named ANSI color nearest to `(r, g, b)`.
pub fn rgb_to_ansi16(r: u8, g: u8, b: u8) -> (c: Ansi16)
    ensures
        c == ansi16_spec(r, g, b),
{
    let mut best: usize = 0;
    let mut best_d = distance(r, g, b, entry(0));
    let mut i: usize = 1;
    while i < 16
        invariant
            1 <= i <= 16,
            best as int == nearest_upto(r as int, g as int, b as int, i as int),
            best < i,
            best_d as int == dist2(r as int, g as int, b as int, ansi16_entry(best as int)),
        decreases 16 - i,
    {
        let d = distance(r, g, b, entry(i));
        if d < best_d {
            best = i;
            best_d = d;
        }
        i += 1;
    }
    entry(best).0
}

impl AppColor {
    pub fn new(r: u8, g: u8, b: u8) -> (c: Self)
        ensures
            c == (AppColor { red: r, green: g, blue: b }),
    {
        AppColor { red: r, green: g, blue: b }
    }

    pub fn rgb(self) -> (t: (u8, u8, u8))
        ensures
            t == (self.red, self.green, self.blue),
    {
        (self.red, self.green, self.blue)
    }

    /// The color as the terminal can show it: itself in true color, else the
    /// nearest palette entry.
    pub fn to_tui(self, support: &ColorSupport) -> (t: TermColor)
        requires
            *support == ColorSupport::Ansi256 ==> !gray_overflows(self.red, self.green, self.blue),
        ensures
            t == match *support {
                ColorSupport::TrueColor => TermColor::Rgb(self.red, self.green, self.blue),
                ColorSupport::Ansi256 => TermColor::Indexed(ansi256_spec(self.red, self.green, self.blue) as u8),
                ColorSupport::Ansi16 => TermColor::Named(ansi16_spec(self.red, self.green, self.blue)),
            },
    {
        let (r, g, b) = (self.red, self.green, self.blue);
        match support {
            ColorSupport::TrueColor => TermColor::Rgb(r, g, b),
            ColorSupport::Ansi256 => TermColor::Indexed(rgb_to_ansi256(r, g, b)),
            ColorSupport::Ansi16 => TermColor::Named(rgb_to_ansi16(r, g, b)),
        }
    }
}

} // verus!
