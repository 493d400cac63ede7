//! The application palette.
use vstd::prelude::*;
use crate::ui::colors::AppColor;

verus! {

/// The named colors of the application theme.
#[derive(Debug, Clone, Copy, PartialEq, Eq, Structural)]
pub enum Palette {
    MidnightBlack,
    AegeanBlue,
    AverageBlue,
    DeepCharcoal,
    SubtleBorder,
    IceWhite,
    MutedSlate,
    CrimsonRed,
    AmberGold,
    EmeraldGreen,
    CyanInfo,
}

/// The RGB value of each palette color, as its hex code gives it.
pub open spec fn palette_rgb(p: Palette) -> (u8, u8, u8) {
    match p {
        Palette::MidnightBlack => (0x01, 0x00, 0x0b),
        Palette::AegeanBlue => (68, 97, 123),
        Palette::AverageBlue => (77, 128, 230),
        Palette::DeepCharcoal => (18, 24, 38),
        Palette::SubtleBorder => (36, 48, 68),
        Palette::IceWhite => (0xe7, 0xf0, 0xff),
        Palette::MutedSlate => (112, 138, 165),
        Palette::CrimsonRed => (224, 72, 90),
        Palette::AmberGold => (228, 160, 62),
        Palette::EmeraldGreen => (60, 185, 140),
        Palette::CyanInfo => (56, 178, 206),
    }
}

impl Palette {
    pub fn color(self) -> (c: AppColor)
        ensures
            (c.red, c.green, c.blue) == palette_rgb(self),
    {
        match self {
            Palette::MidnightBlack => AppColor::new(0x01, 0x00, 0x0b),
            Palette::AegeanBlue => AppColor::new(68, 97, 123),
            Palette::AverageBlue => AppColor::new(77, 128, 230),
            Palette::DeepCharcoal => AppColor::new(18, 24, 38),
            Palette::SubtleBorder => AppColor::new(36, 48, 68),
            Palette::IceWhite => AppColor::new(0xe7, 0xf0, 0xff),
            Palette::MutedSlate => AppColor::new(112, 138, 165),
            Palette::CrimsonRed => AppColor::new(224, 72, 90),
            Palette::AmberGold => AppColor::new(228, 160, 62),
            Palette::EmeraldGreen => AppColor::new(60, 185, 140),
            Palette::CyanInfo => AppColor::new(56, 178, 206),
        }
    }
}

} // verus!
