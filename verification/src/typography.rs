//! Text layout enumerations and OpenType feature switches.
use vstd::prelude::*;

verus! {

/// Horizontal alignment of text.
#[derive(Debug, Clone, Copy, PartialEq, Eq, Structural)]
pub enum TextAlign {
    Left,
    Center,
    Right,
    Justify,
}

/// Vertical alignment of text in its box.
#[derive(Debug, Clone, Copy, PartialEq, Eq, Structural)]
pub enum VerticalAlign {
    Top,
    Middle,
    Bottom,
}

/// Lines drawn with text.
#[derive(Debug, Clone, Copy, PartialEq, Eq, Structural)]
pub enum TextDecoration {
    NoDecoration,
    Underline,
    Strikethrough,
    Both,
}

/// Case change applied to text.
#[derive(Debug, Clone, Copy, PartialEq, Eq, Structural)]
pub enum TextTransform {
    NoTransform,
    Uppercase,
    Lowercase,
    Capitalize,
}

/// An OpenType feature, by its four-byte tag, switched on or off.
#[derive(Debug, Clone, Copy)]
pub struct OpenTypeFeature {
    pub tag: [u8; 4],
    pub enabled: bool,
}

} // verus!
