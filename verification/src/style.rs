//! Colors and the per-segment style descriptor.

use vstd::prelude::*;

verus! {

/// An RGBA color with 8-bit channels.
#[derive(Clone, Copy, Debug, PartialEq, Eq, Structural)]
pub struct Color {
    pub r: u8,
    pub g: u8,
    pub b: u8,
    pub a: u8,
}

/// The fully transparent color.
pub open spec fn transparent() -> Color {
    Color { r: 0, g: 0, b: 0, a: 0 }
}

/// The gray used for otherwise unstyled text.
pub open spec fn default_text_gray() -> Color {
    Color { r: 160, g: 160, b: 160, a: 255 }
}

impl Color {
    /// A fully opaque color from its red, green and blue channels.
    pub fn from_rgb(r: u8, g: u8, b: u8) -> (c: Color)
        ensures
            c == (Color { r, g, b, a: 255u8 }),
    {
        Color { r, g, b, a: 255 }
    }
}

/// How one segment of a line is rendered: a background color and a text
/// color.
#[derive(Clone, Copy, Debug, PartialEq, Eq, Structural)]
pub struct Style {
    pub background: Color,
    pub color: Color,
}

/// The style a raw line starts out with: transparent background, gray text.
pub open spec fn default_style() -> Style {
    Style { background: transparent(), color: default_text_gray() }
}

impl Default for Style {
    fn default() -> (s: Style)
        ensures
            s == default_style(),
    {
        Style {
            background: Color { r: 0, g: 0, b: 0, a: 0 },
            color: Color { r: 160, g: 160, b: 160, a: 255 },
        }
    }
}

/// Black or white, whichever contrasts with the given background: black
/// when the average of the three channels lies above the midpoint of the
/// channel range, white otherwise.
pub open spec fn contrast_text_color(background: Color) -> Color {
    if (background.r + background.g + background.b) / 3 > 128 {
        Color { r: 0, g: 0, b: 0, a: 255 }
    } else {
        Color { r: 255, g: 255, b: 255, a: 255 }
    }
}

/// Picks the text color that contrasts with a highlight background.
pub fn calculate_text_color_from_background_color(color_background: Color) -> (c: Color)
    ensures
        c == contrast_text_color(color_background),
{
    let sum: u32 = color_background.r as u32 + color_background.g as u32 + color_background.b as u32;
    if sum / 3 > 128 {
        Color { r: 0, g: 0, b: 0, a: 255 }
    } else {
        Color { r: 255, g: 255, b: 255, a: 255 }
    }
}

/// Builds the style for a colored region from its background and text
/// colors.
pub fn color_to_text_format_with_textcolor(color_background: Color, color_text: Color) -> (s: Style)
    ensures
        s == (Style { background: color_background, color: color_text }),
{
    Style { background: color_background, color: color_text }
}

} // verus!
