//! Node structure enumerations: constraints, auto layout settings, sizing,
//! boolean operations and fill rules, with their defaults.
use vstd::prelude::*;

verus! {

/// Identifier of a node in a loaded document.
pub type NodeId = u64;

/// How a node follows its parent along one axis when the parent resizes.
#[derive(Debug, Clone, Copy, PartialEq, Eq, Structural)]
pub enum ConstraintAxis {
    Fixed,
    Scale,
    Stretch,
    Center,
}

/// Resizing constraints of a node on both axes.
#[derive(Debug, Clone, Copy, PartialEq, Eq, Structural)]
pub struct Constraints {
    pub horizontal: ConstraintAxis,
    pub vertical: ConstraintAxis,
}

/// Main axis of an auto layout.
#[derive(Debug, Clone, Copy, PartialEq, Eq, Structural)]
pub enum LayoutDirection {
    Horizontal,
    Vertical,
}

impl Default for LayoutDirection {
    fn default() -> (r: Self)
        ensures
            r == LayoutDirection::Horizontal,
    {
        LayoutDirection::Horizontal
    }
}

/// Alignment of children along the main axis.
#[derive(Debug, Clone, Copy, PartialEq, Eq, Structural)]
pub enum PrimaryAxisAlign {
    Start,
    Center,
    End,
    SpaceBetween,
}

impl Default for PrimaryAxisAlign {
    fn default() -> (r: Self)
        ensures
            r == PrimaryAxisAlign::Start,
    {
        PrimaryAxisAlign::Start
    }
}

/// Alignment of children across the main axis.
#[derive(Debug, Clone, Copy, PartialEq, Eq, Structural)]
pub enum CounterAxisAlign {
    Start,
    Center,
    End,
    Stretch,
    Baseline,
}

impl Default for CounterAxisAlign {
    fn default() -> (r: Self)
        ensures
            r == CounterAxisAlign::Start,
    {
        CounterAxisAlign::Start
    }
}

/// Whether an auto layout wraps its children onto new lines.
#[derive(Debug, Clone, Copy, PartialEq, Eq, Structural)]
pub enum LayoutWrap {
    NoWrap,
    Wrap,
}

impl Default for LayoutWrap {
    fn default() -> (r: Self)
        ensures
            r == LayoutWrap::NoWrap,
    {
        LayoutWrap::NoWrap
    }
}

/// How a node is sized along an axis: fixed, hugging its content, or
/// filling its parent.
#[derive(Debug, Clone, Copy, PartialEq, Eq, Structural)]
pub enum SizingMode {
    Fixed,
    Hug,
    Fill,
}

impl Default for SizingMode {
    fn default() -> (r: Self)
        ensures
            r == SizingMode::Fixed,
    {
        SizingMode::Fixed
    }
}

/// How the children of a boolean operation node combine.
#[derive(Debug, Clone, Copy, PartialEq, Eq, Structural)]
pub enum BooleanOperation {
    Union,
    Subtract,
    Intersect,
    Exclude,
}

/// Which points a path encloses.
#[derive(Debug, Clone, Copy, PartialEq, Eq, Structural)]
pub enum FillRule {
    NonZero,
    EvenOdd,
}

impl Default for FillRule {
    fn default() -> (r: Self)
        ensures
            r == FillRule::NonZero,
    {
        FillRule::NonZero
    }
}

/// A group node: its children, in order.
#[derive(Debug, Clone)]
pub struct GroupData {
    pub children: Vec<NodeId>,
}

/// What makes a frame a reusable component.
#[derive(Debug, Clone)]
pub struct ComponentDef {
    pub name: String,
    pub description: String,
}

/// A stored group node: the stable identifiers of its children, in order.
#[derive(Debug, Clone)]
pub struct GroupDataWire {
    pub children: Vec<String>,
}

/// Visibility of a node stored without one: visible.
pub fn default_visible() -> (r: bool)
    ensures
        r,
{
    true
}

/// Clipping of a frame stored without it: clipped.
pub fn default_clips_content() -> (r: bool)
    ensures
        r,
{
    true
}

} // verus!
