use zttl::ui::editor::{place, Piece, Placement};

#[test]
fn text_takes_its_lines_cut_at_the_bottom() {
    assert_eq!(place(2, 10, Piece::Text(3)), (Placement::At { y: 2, height: 3 }, 5));
    assert_eq!(place(8, 10, Piece::Text(5)), (Placement::At { y: 8, height: 2 }, 10));
    assert_eq!(place(0, 10, Piece::Text(0)), (Placement::At { y: 0, height: 0 }, 0));
    assert_eq!(place(0, 100, Piece::Text(65536 + 4)), (Placement::At { y: 0, height: 4 }, 4));
}

#[test]
fn nothing_goes_below_the_bottom() {
    assert_eq!(place(10, 10, Piece::Text(1)), (Placement::Stop, 10));
    assert_eq!(place(12, 10, Piece::PlainHeading), (Placement::Stop, 12));
}

#[test]
fn images_go_only_whole() {
    assert_eq!(place(4, 10, Piece::Image(6)), (Placement::At { y: 4, height: 6 }, 10));
    assert_eq!(place(4, 10, Piece::Image(7)), (Placement::Stop, 4));
}

#[test]
fn headings_without_images_take_one_row() {
    assert_eq!(place(3, 10, Piece::PlainHeading), (Placement::At { y: 3, height: 1 }, 4));
    assert_eq!(place(3, 10, Piece::HeadingLine), (Placement::At { y: 3, height: 1 }, 3));
}
