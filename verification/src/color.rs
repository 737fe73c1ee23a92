//! Display colors attached to node descriptors and groups.
//!
//! A descriptor's color is either one of a fixed palette of named colors or a
//! raw red/green/blue triple. Parsing the textual palette forms found in
//! descriptor files is left to the surrounding application; the core only
//! carries the resolved value.

use vstd::prelude::*;

verus! {

/// The fixed palette of named display colors a descriptor may use.
#[derive(Debug, Clone, Copy, PartialEq, Eq, Structural, Hash)]
pub enum NamedColor {
    DarkPink,
    Pink,
    Magenta,
    LightPurple,
    Purple,
    Blue,
    Grey,
    LightBlue,
    Aqua,
    Green,
    Olive,
    Yellow,
    Orange,
    Red,
    DarkBlue,
}

/// The 0xRRGGBB value that each named color denotes.
pub open spec fn spec_hex_argb(c: NamedColor) -> u32 {
    match c {
        NamedColor::Aqua => 0x00FFFF,
        NamedColor::Blue => 0x0000FF,
        NamedColor::DarkBlue => 0x00008B,
        NamedColor::Grey => 0x808080,
        NamedColor::Green => 0x008000,
        NamedColor::LightBlue => 0xADD8E6,
        NamedColor::Magenta => 0xFF00FF,
        NamedColor::Olive => 0x808000,
        NamedColor::Orange => 0xFFA500,
        NamedColor::Pink => 0xFFC0CB,
        NamedColor::Purple => 0x800080,
        NamedColor::Red => 0xFF0000,
        NamedColor::Yellow => 0xFFFF00,
        NamedColor::DarkPink => 0x916D74,
        NamedColor::LightPurple => 0xF300F3,
    }
}

impl NamedColor {
    /// The packed hexadecimal color value shown for this palette entry.
    pub fn hex_argb(&self) -> (argb: u32)
        ensures
            argb == spec_hex_argb(*self),
    {
        match self {
            Self::Aqua => 0x00FFFF,
            Self::Blue => 0x0000FF,
            Self::DarkBlue => 0x00008B,
            Self::Grey => 0x808080,
            Self::Green => 0x008000,
            Self::LightBlue => 0xADD8E6,
            Self::Magenta => 0xFF00FF,
            Self::Olive => 0x808000,
            Self::Orange => 0xFFA500,
            Self::Pink => 0xFFC0CB,
            Self::Purple => 0x800080,
            Self::Red => 0xFF0000,
            Self::Yellow => 0xFFFF00,
            Self::DarkPink => 0x916D74,
            Self::LightPurple => 0xF300F3,
        }
    }
}

/// A resolved display color: a palette entry or a raw r/g/b triple.
#[derive(Debug, Clone, Copy, PartialEq, Eq, Structural, Hash)]
pub enum ColorValue {
    Named(NamedColor),
    Raw(u8, u8, u8),
}

impl Default for ColorValue {
    /// The neutral color used when no more specific one applies.
    fn default() -> (c: ColorValue)
        ensures
            c == ColorValue::Named(NamedColor::Grey),
    {
        ColorValue::Named(NamedColor::Grey)
    }
}

impl ColorValue {
    /// The red/green/blue components this color denotes on screen.
    pub fn to_rgb(&self) -> (rgb: (u8, u8, u8))
        ensures
            rgb == spec_to_rgb(*self),
    {
        match self {
            Self::Named(val) => {
                let argb = val.hex_argb();
                let r = ((argb >> 16) & 0xFF) as u8;
                let g = ((argb >> 8) & 0xFF) as u8;
                let b = (argb & 0xFF) as u8;
                (r, g, b)
            },
            Self::Raw(r, g, b) => (*r, *g, *b),
        }
    }
}

/// The components of a color: a named color is decomposed from its packed
/// hexadecimal value, a raw color carries them directly.
pub open spec fn spec_to_rgb(c: ColorValue) -> (u8, u8, u8) {
    match c {
        ColorValue::Named(val) => {
            let argb = spec_hex_argb(val);
            (((argb >> 16) & 0xFF) as u8, ((argb >> 8) & 0xFF) as u8, (argb & 0xFF) as u8)
        },
        ColorValue::Raw(r, g, b) => (r, g, b),
    }
}

} // verus!
