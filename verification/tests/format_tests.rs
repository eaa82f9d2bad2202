use ode::document::{Version, WorkingColorSpace};
use ode::errors::{ContainerError, ExportError, RenderError, WireError};
use ode::meta::{iso8601_from_secs, Meta};
use ode::node::{
    default_clips_content, default_visible, CounterAxisAlign, FillRule, LayoutDirection,
    LayoutWrap, PrimaryAxisAlign, SizingMode,
};
use ode::style::{BlendMode, StrokeCap, StrokeJoin, StyleValue, TokenRef};
use ode::svg::{blend_mode_to_css, fill_rule_to_svg, stroke_cap_to_svg, stroke_join_to_svg};
use ode::typography::OpenTypeFeature;

#[test]
fn meta_new_has_correct_defaults() {
    let meta = Meta::new("ode-cli 0.1.0");
    assert_eq!(meta.format_version, "1.0.0");
    assert_eq!(meta.generator, "ode-cli 0.1.0");
    assert!(!meta.created_at.is_empty());
    assert!(!meta.modified_at.is_empty());
}

#[test]
fn meta_legacy_defaults() {
    let meta = Meta::legacy();
    assert_eq!(meta.generator, "ode-format (legacy)");
}

#[test]
fn meta_touch_keeps_creation() {
    let mut meta = Meta::new("g");
    let created = meta.created_at.clone();
    meta.touch();
    assert_eq!(meta.created_at, created);
    assert_eq!(meta.modified_at.len(), "1970-01-01T00:00:00Z".len());
}

#[test]
fn timestamps_follow_the_simple_calendar() {
    assert_eq!(iso8601_from_secs(0), "1970-01-01T00:00:00Z");
    assert_eq!(iso8601_from_secs(86400 + 3661), "1970-01-02T01:01:01Z");
    // Day 364 of a year is past the eleventh 30-day month: December 5th.
    assert_eq!(iso8601_from_secs(364 * 86400), "1970-12-05T00:00:00Z");
    assert_eq!(iso8601_from_secs(365 * 86400 * 30 + 59), "2000-01-01T00:00:59Z");
}

#[test]
fn fillrule_default_is_nonzero() {
    assert_eq!(FillRule::default(), FillRule::NonZero);
}

#[test]
fn layout_defaults() {
    assert_eq!(LayoutDirection::default(), LayoutDirection::Horizontal);
    assert_eq!(PrimaryAxisAlign::default(), PrimaryAxisAlign::Start);
    assert_eq!(CounterAxisAlign::default(), CounterAxisAlign::Start);
    assert_eq!(LayoutWrap::default(), LayoutWrap::NoWrap);
    assert_eq!(SizingMode::default(), SizingMode::Fixed);
    assert_eq!(WorkingColorSpace::default(), WorkingColorSpace::Srgb);
    assert_eq!(BlendMode::default(), BlendMode::Normal);
    assert!(default_visible());
    assert!(default_clips_content());
}

#[test]
fn style_value_raw() {
    let val: StyleValue<f32> = StyleValue::Raw(1.0);
    assert!((val.value() - 1.0).abs() < f32::EPSILON);
    assert!(!val.is_bound());
}

#[test]
fn style_value_bound() {
    let val: StyleValue<f32> = StyleValue::Bound {
        token: TokenRef {
            collection_id: 0,
            token_id: 0,
        },
        resolved: 42.0,
    };
    assert!((val.value() - 42.0).abs() < f32::EPSILON);
    assert!(val.is_bound());
}

#[test]
fn opentype_feature_tag() {
    let feat = OpenTypeFeature { tag: *b"liga", enabled: true };
    assert_eq!(&feat.tag, b"liga");
}

#[test]
fn version_text() {
    assert_eq!(Version(0, 2, 10).to_text(), "0.2.10");
}

#[test]
fn error_messages() {
    assert_eq!(RenderError::EmptyScene.message(), "empty scene — no canvas roots");
    assert_eq!(
        RenderError::PixmapCreationFailed { width: 0, height: 600 }.message(),
        "pixmap creation failed: 0x600"
    );
    assert_eq!(RenderError::InvalidPath("p".to_string()).message(), "invalid path: p");
    assert_eq!(RenderError::BooleanOpFailed("b".to_string()).message(), "boolean operation failed: b");
    assert_eq!(ExportError::PngEncodeFailed("e".to_string()).message(), "PNG encoding failed: e");
    assert_eq!(ExportError::SvgGenerationFailed("e".to_string()).message(), "SVG generation failed: e");
    assert_eq!(ExportError::PdfGenerationFailed("e".to_string()).message(), "PDF generation failed: e");
    assert_eq!(ExportError::Io("denied".to_string()).message(), "IO error: denied");
    assert_eq!(
        WireError::UnknownReference("n1".to_string()).message(),
        "unknown stable_id reference: n1"
    );
}

#[test]
fn svg_attribute_names() {
    assert_eq!(fill_rule_to_svg(&FillRule::NonZero), "");
    assert_eq!(fill_rule_to_svg(&FillRule::EvenOdd), "evenodd");
    assert_eq!(blend_mode_to_css(&BlendMode::ColorDodge), "color-dodge");
    assert_eq!(blend_mode_to_css(&BlendMode::Luminosity), "luminosity");
    assert_eq!(stroke_cap_to_svg(&StrokeCap::Square), "square");
    assert_eq!(stroke_join_to_svg(&StrokeJoin::Bevel), "bevel");
}

#[test]
fn container_error_messages() {
    assert_eq!(ContainerError::Io("denied".to_string()).message(), "io error: denied");
    assert_eq!(ContainerError::Json("eof".to_string()).message(), "json error: eof");
    assert_eq!(ContainerError::Zip("bad".to_string()).message(), "zip error: bad");
    assert_eq!(
        ContainerError::StdinNotSaveable.message(),
        "cannot save a stdin-sourced container without an explicit path"
    );
}
