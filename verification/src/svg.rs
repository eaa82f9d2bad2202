//! The SVG and CSS names of fill rules, blend modes and stroke attributes.
use vstd::prelude::*;
use crate::node::FillRule;
use crate::style::{BlendMode, StrokeCap, StrokeJoin};

verus! {

/// The SVG `fill-rule` value of a fill rule; empty for the default rule.
pub open spec fn fill_rule_name(rule: FillRule) -> Seq<char> {
    match rule {
        FillRule::NonZero => ""@,
        FillRule::EvenOdd => "evenodd"@,
    }
}

/// The CSS `mix-blend-mode` value of a blend mode.
pub open spec fn blend_mode_name(mode: BlendMode) -> Seq<char> {
    match mode {
        BlendMode::Normal => "normal"@,
        BlendMode::Multiply => "multiply"@,
        BlendMode::Screen => "screen"@,
        BlendMode::Overlay => "overlay"@,
        BlendMode::Darken => "darken"@,
        BlendMode::Lighten => "lighten"@,
        BlendMode::ColorDodge => "color-dodge"@,
        BlendMode::ColorBurn => "color-burn"@,
        BlendMode::HardLight => "hard-light"@,
        BlendMode::SoftLight => "soft-light"@,
        BlendMode::Difference => "difference"@,
        BlendMode::Exclusion => "exclusion"@,
        BlendMode::Hue => "hue"@,
        BlendMode::Saturation => "saturation"@,
        BlendMode::Color => "color"@,
        BlendMode::Luminosity => "luminosity"@,
    }
}

/// The SVG `stroke-linecap` value of a stroke cap.
pub open spec fn stroke_cap_name(cap: StrokeCap) -> Seq<char> {
    match cap {
        StrokeCap::Butt => "butt"@,
        StrokeCap::Round => "round"@,
        StrokeCap::Square => "square"@,
    }
}

/// The SVG `stroke-linejoin` value of a stroke join.
pub open spec fn stroke_join_name(join: StrokeJoin) -> Seq<char> {
    match join {
        StrokeJoin::Miter => "miter"@,
        StrokeJoin::Round => "round"@,
        StrokeJoin::Bevel => "bevel"@,
    }
}

/// Executable `fill_rule_name`.
pub fn fill_rule_to_svg(rule: &FillRule) -> (r: &'static str)
    ensures
        r@ == fill_rule_name(*rule),
{
    match rule {
        FillRule::NonZero => "",
        FillRule::EvenOdd => "evenodd",
    }
}

/// Executable `blend_mode_name`.
pub fn blend_mode_to_css(mode: &BlendMode) -> (r: &'static str)
    ensures
        r@ == blend_mode_name(*mode),
{
    match mode {
        BlendMode::Normal => "normal",
        BlendMode::Multiply => "multiply",
        BlendMode::Screen => "screen",
        BlendMode::Overlay => "overlay",
        BlendMode::Darken => "darken",
        BlendMode::Lighten => "lighten",
        BlendMode::ColorDodge => "color-dodge",
        BlendMode::ColorBurn => "color-burn",
        BlendMode::HardLight => "hard-light",
        BlendMode::SoftLight => "soft-light",
        BlendMode::Difference => "difference",
        BlendMode::Exclusion => "exclusion",
        BlendMode::Hue => "hue",
        BlendMode::Saturation => "saturation",
        BlendMode::Color => "color",
        BlendMode::Luminosity => "luminosity",
    }
}

/// Executable `stroke_cap_name`.
pub fn stroke_cap_to_svg(cap: &StrokeCap) -> (r: &'static str)
    ensures
        r@ == stroke_cap_name(*cap),
{
    match cap {
        StrokeCap::Butt => "butt",
        StrokeCap::Round => "round",
        StrokeCap::Square => "square",
    }
}

/// Executable `stroke_join_name`.
pub fn stroke_join_to_svg(join: &StrokeJoin) -> (r: &'static str)
    ensures
        r@ == stroke_join_name(*join),
{
    match join {
        StrokeJoin::Miter => "miter",
        StrokeJoin::Round => "round",
        StrokeJoin::Bevel => "bevel",
    }
}

} // verus!
