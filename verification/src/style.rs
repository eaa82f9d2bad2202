//! Style values shared by nodes: token references, raw-or-bound values and the
//! enumerations of blend modes, image sources and stroke attributes.
use vstd::prelude::*;

verus! {

/// Identifier of a token collection.
pub type CollectionId = u32;

/// Identifier of a token inside its collection.
pub type TokenId = u32;

/// Reference to a design token by collection and token identifier.
#[derive(Debug, Clone, Copy, PartialEq, Eq, Hash, Structural)]
pub struct TokenRef {
    pub collection_id: CollectionId,
    pub token_id: TokenId,
}

/// A value that is either given directly or bound to a design token, with the
/// value the token resolved to when it was bound.
#[derive(Debug, Clone)]
pub enum StyleValue<T> {
    Bound { token: TokenRef, resolved: T },
    Raw(T),
}

impl<T> StyleValue<T> {
    /// The value in effect: the raw value, or the resolved value of a binding.
    pub open spec fn spec_value(&self) -> T {
        match self {
            StyleValue::Raw(v) => *v,
            StyleValue::Bound { resolved, .. } => *resolved,
        }
    }

    /// The value in effect, cloned.
    pub fn value(&self) -> (r: T) where T: Clone
        ensures
            cloned(self.spec_value(), r),
    {
        match self {
            StyleValue::Raw(v) => v.clone(),
            StyleValue::Bound { resolved, .. } => resolved.clone(),
        }
    }

    /// Whether the value is bound to a token.
    pub fn is_bound(&self) -> (r: bool)
        ensures
            r == (self is Bound),
    {
        match self {
            StyleValue::Bound { .. } => true,
            StyleValue::Raw(_) => false,
        }
    }
}

/// Compositing blend modes.
#[derive(Debug, Clone, Copy, PartialEq, Eq, Structural)]
pub enum BlendMode {
    Normal,
    Multiply,
    Screen,
    Overlay,
    Darken,
    Lighten,
    ColorDodge,
    ColorBurn,
    HardLight,
    SoftLight,
    Difference,
    Exclusion,
    Hue,
    Saturation,
    Color,
    Luminosity,
}

impl Default for BlendMode {
    fn default() -> (r: Self)
        ensures
            r == BlendMode::Normal,
    {
        BlendMode::Normal
    }
}

/// Where the pixels of an image come from.
#[derive(Debug, Clone)]
pub enum ImageSource {
    Embedded { data: Vec<u8> },
    Linked { path: String },
}

/// How an image fills its box.
#[derive(Debug, Clone, Copy, PartialEq, Eq, Structural)]
pub enum ImageFillMode {
    Fill,
    Fit,
    Crop,
    Tile,
}

/// Position of a stroke relative to the outline.
#[derive(Debug, Clone, Copy, PartialEq, Eq, Structural)]
pub enum StrokePosition {
    Inside,
    Outside,
    Center,
}

/// Shape of stroke ends.
#[derive(Debug, Clone, Copy, PartialEq, Eq, Structural)]
pub enum StrokeCap {
    Butt,
    Round,
    Square,
}

/// Shape of stroke corners.
#[derive(Debug, Clone, Copy, PartialEq, Eq, Structural)]
pub enum StrokeJoin {
    Miter,
    Round,
    Bevel,
}

} // verus!
