//! Document-level values: format version, view identifiers and the working
//! color space.
use vstd::prelude::*;
use crate::text::{concat5, decimal, decimal_string};

verus! {

/// A format version: major, minor, patch.
#[derive(Debug, Clone, PartialEq, Eq, Structural)]
pub struct Version(pub u32, pub u32, pub u32);

impl Version {
    /// "major.minor.patch".
    pub fn to_text(&self) -> (r: String)
        ensures
            r@ == decimal(self.0 as nat) + "."@ + decimal(self.1 as nat) + "."@ + decimal(
                self.2 as nat,
            ),
    {
        let a = decimal_string(self.0 as u64);
        let b = decimal_string(self.1 as u64);
        let c = decimal_string(self.2 as u64);
        concat5(a.as_str(), ".", b.as_str(), ".", c.as_str())
    }
}

/// Identifier of a view.
#[derive(Debug, Clone, Copy, PartialEq, Eq, Hash, Structural)]
pub struct ViewId(pub u32);

/// The color space documents are composed in.
#[derive(Debug, Clone, Copy, PartialEq, Eq, Structural)]
pub enum WorkingColorSpace {
    Srgb,
    DisplayP3,
    AdobeRgb,
    ProPhotoRgb,
}

impl Default for WorkingColorSpace {
    fn default() -> (r: Self)
        ensures
            r == WorkingColorSpace::Srgb,
    {
        WorkingColorSpace::Srgb
    }
}

} // verus!
