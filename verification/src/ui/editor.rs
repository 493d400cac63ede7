//! Where the blocks of a note body go in the editor pane: top to bottom,
//! each as tall as it needs, until the pane is full.
use vstd::prelude::*;

verus! {

/// A block as the editor lays it out.
#[derive(Debug, Clone, Copy, PartialEq, Eq, Structural)]
pub enum Piece {
    /// A run of text lines.
    Text(usize),
    /// A heading drawn as plain text, one row (no image support).
    PlainHeading,
    /// A heading drawn as an image of that many rows.
    Image(u16),
    /// A heading whose image could not be drawn: a styled line.
    HeadingLine,
}

/// What the editor does with a block.
#[derive(Debug, Clone, Copy, PartialEq, Eq, Structural)]
pub enum Placement {
    /// Draw it at row `y`, `height` rows tall.
    At { y: u16, height: u16 },
    /// Draw nothing more: the pane is full.
    Stop,
}

/// Where a block goes when the next free row is `y` and the pane ends
/// before row `bottom`, and the next free row after it. Nothing goes at or
/// below the bottom. Text takes as many rows as it has lines (counted
/// modulo 2^16), cut at the bottom; a plain heading takes one row; an image
/// goes only if it fits whole; a heading line is drawn on one row that the
/// next block reuses.
pub open spec fn place_spec(y: u16, bottom: u16, piece: Piece) -> (Placement, u16) {
    if y >= bottom {
        (Placement::Stop, y)
    } else {
        match piece {
            Piece::Text(n) => {
                let lines = (n % 0x10000) as int;
                let h = if lines < bottom - y { lines } else { bottom - y };
                (Placement::At { y, height: h as u16 }, (y + h) as u16)
            },
            Piece::PlainHeading => (Placement::At { y, height: 1 }, (y + 1) as u16),
            Piece::Image(rows) => if y + rows > bottom {
                (Placement::Stop, y)
            } else {
                (Placement::At { y, height: rows }, (y + rows) as u16)
            },
            Piece::HeadingLine => (Placement::At { y, height: 1 }, y),
        }
    }
}

/// Places one block.
pub fn place(y: u16, bottom: u16, piece: Piece) -> (r: (Placement, u16))
    requires
        piece matches Piece::Image(rows) ==> y + rows <= u16::MAX,
    ensures
        r == place_spec(y, bottom, piece),
{
    if y >= bottom {
        return (Placement::Stop, y);
    }
    match piece {
        Piece::Text(n) => {
            let lines = (n % 0x10000) as u16;
            let room = bottom - y;
            let h = if lines < room { lines } else { room };
            (Placement::At { y, height: h }, y + h)
        },
        Piece::PlainHeading => (Placement::At { y, height: 1 }, y + 1),
        Piece::Image(rows) => {
            if y + rows > bottom {
                (Placement::Stop, y)
            } else {
                (Placement::At { y, height: rows }, y + rows)
            }
        },
        Piece::HeadingLine => (Placement::At { y, height: 1 }, y),
    }
}

/// Every block is placed inside the pane, and the next free row never moves
/// up or past the bottom.
pub proof fn lemma_place_inside(y: u16, bottom: u16, piece: Piece)
    requires
        y <= bottom,
    ensures
        place_spec(y, bottom, piece).0 matches Placement::At { y: py, height } ==> py == y && py + height <= bottom,
        y <= place_spec(y, bottom, piece).1 <= bottom,
{
}

} // verus!
