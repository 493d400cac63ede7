use zttl::ui::colors::{rgb_to_ansi16, rgb_to_ansi256, Ansi16, AppColor, ColorSupport, TermColor};
use zttl::ui::theme::Palette;

#[test]
fn color_count_decides_support() {
    assert_eq!(ColorSupport::from_color_count(u16::MAX), ColorSupport::TrueColor);
    assert_eq!(ColorSupport::from_color_count(256), ColorSupport::Ansi256);
    assert_eq!(ColorSupport::from_color_count(16), ColorSupport::Ansi16);
    assert_eq!(ColorSupport::from_color_count(0), ColorSupport::Ansi16);
}

#[test]
fn grays_map_to_the_gray_ramp_or_the_cube_ends() {
    assert_eq!(rgb_to_ansi256(0, 0, 0), 16);
    assert_eq!(rgb_to_ansi256(7, 7, 7), 16);
    assert_eq!(rgb_to_ansi256(8, 8, 8), 232);
    assert_eq!(rgb_to_ansi256(12, 12, 12), 232);
    assert_eq!(rgb_to_ansi256(13, 13, 13), 233);
    assert_eq!(rgb_to_ansi256(128, 128, 128), 244);
    assert_eq!(rgb_to_ansi256(242, 242, 242), 255);
    assert_eq!(rgb_to_ansi256(249, 249, 249), 231);
    assert_eq!(rgb_to_ansi256(255, 255, 255), 231);
}

#[test]
fn colors_map_to_the_cube() {
    assert_eq!(rgb_to_ansi256(255, 0, 0), 196);
    assert_eq!(rgb_to_ansi256(0, 255, 0), 46);
    assert_eq!(rgb_to_ansi256(0, 0, 255), 21);
    // 77/255*5 = 1.51 rounds to 2, 128/255*5 = 2.51 to 3, 230/255*5 = 4.51 to 5.
    assert_eq!(rgb_to_ansi256(77, 128, 230), 16 + 36 * 2 + 6 * 3 + 5);
    // 25/255*5 = 0.49 rounds down, 26/255*5 = 0.51 up.
    assert_eq!(rgb_to_ansi256(25, 26, 0), 16 + 6);
}

#[test]
fn sixteen_colors_take_the_nearest_named_one() {
    assert_eq!(rgb_to_ansi16(0, 0, 0), Ansi16::Black);
    assert_eq!(rgb_to_ansi16(250, 10, 10), Ansi16::Red);
    assert_eq!(rgb_to_ansi16(120, 0, 0), Ansi16::DarkRed);
    assert_eq!(rgb_to_ansi16(200, 200, 200), Ansi16::Grey);
    assert_eq!(rgb_to_ansi16(255, 255, 250), Ansi16::White);
    assert_eq!(rgb_to_ansi16(77, 128, 230), Ansi16::DarkGrey);
    // Equally near Black and DarkGrey: the first in palette order wins.
    assert_eq!(rgb_to_ansi16(64, 64, 64), Ansi16::Black);
}

#[test]
fn to_tui_follows_the_support() {
    let c = AppColor::new(255, 0, 0);
    assert_eq!(c.to_tui(&ColorSupport::TrueColor), TermColor::Rgb(255, 0, 0));
    assert_eq!(c.to_tui(&ColorSupport::Ansi256), TermColor::Indexed(196));
    assert_eq!(c.to_tui(&ColorSupport::Ansi16), TermColor::Named(Ansi16::Red));
    assert_eq!(c.rgb(), (255, 0, 0));
}

#[test]
fn palette_values() {
    assert_eq!(Palette::MidnightBlack.color().rgb(), (0x01, 0x00, 0x0b));
    assert_eq!(Palette::AegeanBlue.color().rgb(), (0x44, 0x61, 0x7B));
    assert_eq!(Palette::AverageBlue.color().rgb(), (77, 128, 230));
    assert_eq!(Palette::CyanInfo.color().rgb(), (56, 178, 206));
    assert_eq!(Palette::IceWhite.color(), AppColor::new(0xE7, 0xF0, 0xFF));
}

#[test]
fn detect_gives_one_of_the_supports() {
    let s = ColorSupport::detect();
    assert!(s == ColorSupport::TrueColor || s == ColorSupport::Ansi256 || s == ColorSupport::Ansi16);
}
