use ode::add::{
    add_node, choose_kind, parse_fill, parse_hex_rgba, place_node, shape_default_name, AddArgs,
    AddedKind, FillSpec, HNode, Hierarchy, ShapeKind,
};
use ode::commands::{detect_format, ExportFormat};

fn args(kind: &str) -> AddArgs {
    AddArgs {
        kind: kind.to_string(),
        name: None,
        parent: None,
        index: None,
        has_width: true,
        has_height: true,
        has_content: true,
        shape: None,
        fill: None,
    }
}

fn frame_node(id: &str, children: &[&str]) -> HNode {
    HNode {
        stable_id: id.to_string(),
        children: Some(children.iter().map(|c| c.to_string()).collect()),
    }
}

fn leaf(id: &str) -> HNode {
    HNode { stable_id: id.to_string(), children: None }
}

#[test]
fn parse_hex_color() {
    assert_eq!(parse_hex_rgba("#3b82f6"), Some((0x3b, 0x82, 0xf6, 255)));
    assert_eq!(parse_hex_rgba("##FF000080"), Some((255, 0, 0, 128)));
    assert_eq!(parse_hex_rgba("+f+f+f"), Some((15, 15, 15, 255)));
    assert_eq!(parse_hex_rgba("#12345"), None);
    assert_eq!(parse_hex_rgba("#gggggg"), None);
    assert_eq!(parse_hex_rgba("ééé"), None);
}

#[test]
fn shape_names() {
    assert_eq!(shape_default_name("rect"), "Rectangle");
    assert_eq!(shape_default_name("ellipse"), "Ellipse");
    assert_eq!(shape_default_name("line"), "Line");
    assert_eq!(shape_default_name("star"), "Star");
    assert_eq!(shape_default_name("polygon"), "Polygon");
    assert_eq!(shape_default_name("blob"), "Vector");
}

#[test]
fn kind_decisions() {
    assert!(matches!(choose_kind("frame", true, true, false, None), Ok((AddedKind::Frame, "Frame"))));
    let e = choose_kind("frame", true, false, false, None).unwrap_err();
    assert_eq!(e.code, "MISSING_ARG");
    assert_eq!(e.message, "frame requires --width and --height");
    assert_eq!(choose_kind("text", false, false, false, None).unwrap_err().message, "text requires --content");
    assert!(matches!(
        choose_kind("vector", false, false, false, Some("star")),
        Ok((AddedKind::Vector(ShapeKind::Star), "Star"))
    ));
    let e = choose_kind("vector", false, false, false, Some("blob")).unwrap_err();
    assert_eq!(e.code, "INVALID_SHAPE");
    assert_eq!(e.message, "unknown shape: blob. Use: rect, ellipse, line, star, polygon");
    let e = choose_kind("vector", false, false, false, None).unwrap_err();
    assert_eq!(e.message, "vector requires --shape (rect, ellipse, line, star, polygon)");
    assert_eq!(choose_kind("image", false, true, false, None).unwrap_err().message, "image requires --width and --height");
    let e = choose_kind("widget", true, true, true, None).unwrap_err();
    assert_eq!(e.code, "INVALID_KIND");
    assert_eq!(e.message, "unknown node kind: widget. Use: frame, group, text, vector, image");
    assert_eq!(e.phase.as_deref(), Some("validate"));
}

#[test]
fn add_to_empty_canvas_creates_root() {
    let mut h = Hierarchy { nodes: vec![], canvas: vec![] };
    let out = add_node(&mut h, &args("frame")).ok().unwrap();
    assert_eq!(out.response.parent, "root");
    assert_eq!(out.response.name, "Frame");
    assert_eq!(out.response.kind, "frame");
    assert_eq!(out.response.status, "ok");
    assert_eq!(out.response.stable_id.len(), 21);
    assert_eq!(h.canvas, vec![out.response.stable_id.clone()]);
    assert_eq!(h.nodes.len(), 1);
}

#[test]
fn add_goes_under_first_canvas_root() {
    let mut h = Hierarchy { nodes: vec![frame_node("root", &["a"]), leaf("a")], canvas: vec!["root".to_string()] };
    let mut a = args("text");
    a.name = Some("Title".to_string());
    a.index = Some(0);
    let out = add_node(&mut h, &a).ok().unwrap();
    assert_eq!(out.response.parent, "root");
    assert_eq!(out.response.name, "Title");
    assert_eq!(out.kind, AddedKind::Text);
    assert_eq!(h.nodes[0].children.as_ref().unwrap()[0], out.response.stable_id);
    assert_eq!(h.nodes[0].children.as_ref().unwrap().len(), 2);
    assert!(h.nodes[2].children.is_none());
}

#[test]
fn add_to_non_container_fails() {
    let mut h = Hierarchy { nodes: vec![frame_node("root", &["t"]), leaf("t")], canvas: vec!["root".to_string()] };
    let mut a = args("frame");
    a.parent = Some("t".to_string());
    let e = add_node(&mut h, &a).err().unwrap();
    assert_eq!(e.status, "error");
    assert_eq!(e.code, "NOT_CONTAINER");
    assert_eq!(e.message, "node 't' is not a container");
    assert!(e.suggestion.is_none());
    assert!(e.errors.is_empty());
    assert_eq!(h.nodes.len(), 2);
    let mut a = args("group");
    a.parent = Some("nope".to_string());
    let e = add_node(&mut h, &a).err().unwrap();
    assert_eq!(e.status, "error");
    assert_eq!(e.code, "NOT_FOUND");
    assert_eq!(e.message, "parent node 'nope' not found");
    assert_eq!(h.nodes.len(), 2);
    assert_eq!(h.canvas, vec!["root".to_string()]);
    assert_eq!(h.nodes[0].children.as_ref().unwrap(), &vec!["t".to_string()]);
}

#[test]
fn add_vector_rect_with_fill() {
    let mut h = Hierarchy { nodes: vec![frame_node("root", &[])], canvas: vec!["root".to_string()] };
    let mut a = args("vector");
    a.shape = Some("rect".to_string());
    a.fill = Some("#3B82F6".to_string());
    let out = add_node(&mut h, &a).ok().unwrap();
    assert_eq!(out.response.name, "Rectangle");
    assert_eq!(out.fill, Some(FillSpec::Solid((0x3B, 0x82, 0xF6, 255))));
    let mut a = args("frame");
    a.fill = Some("blue".to_string());
    let e = add_node(&mut h, &a).err().unwrap();
    assert_eq!(e.status, "error");
    assert_eq!(e.code, "INVALID_COLOR");
    assert_eq!(e.message, "invalid color: blue");
    assert_eq!(e.phase.as_deref(), Some("parse"));
    assert_eq!(h.nodes.len(), 2);
}

#[test]
fn explicit_root_and_index_clamping() {
    let mut h = Hierarchy { nodes: vec![leaf("a"), leaf("b")], canvas: vec!["a".to_string(), "b".to_string()] };
    let id = "new".to_string();
    let label = place_node(&mut h, &id, false, Some("root"), Some(99)).ok().unwrap();
    assert_eq!(label, "root");
    assert_eq!(h.canvas, vec!["a".to_string(), "b".to_string(), "new".to_string()]);
    let id2 = "first".to_string();
    // First canvas root holds no children: the node goes on the canvas.
    let label = place_node(&mut h, &id2, true, None, Some(1)).ok().unwrap();
    assert_eq!(label, "root");
    assert_eq!(h.canvas[1], "first");
    assert_eq!(h.nodes.len(), 4);
}

#[test]
fn format_detection() {
    assert_eq!(detect_format("out.svg", None), ExportFormat::Svg);
    assert_eq!(detect_format("out.pdf", None), ExportFormat::Pdf);
    assert_eq!(detect_format("out.png", None), ExportFormat::Png);
    assert_eq!(detect_format("out.png", Some("SVG")), ExportFormat::Svg);
    assert_eq!(detect_format("out.svg", Some("Pdf")), ExportFormat::Pdf);
    assert_eq!(detect_format("out.svg", Some("tiff")), ExportFormat::Png);
}

#[test]
fn add_frame_with_linear_gradient_fill() {
    let mut h = Hierarchy { nodes: vec![frame_node("root", &[])], canvas: vec!["root".to_string()] };
    let mut a = args("frame");
    a.fill = Some("linear-gradient(90deg, #FF0000, #0000FF)".to_string());
    let out = add_node(&mut h, &a).ok().unwrap();
    assert_eq!(out.response.name, "Frame");
    assert_eq!(
        out.fill,
        Some(FillSpec::LinearGradient { angle: 90, stops: vec![(255, 0, 0, 255), (0, 0, 255, 255)] })
    );
}

#[test]
fn gradient_fill_forms() {
    assert_eq!(
        parse_fill("linear-gradient( -90deg ,#000000, #ffffff80 ,  #123456 )"),
        Some(FillSpec::LinearGradient {
            angle: 270,
            stops: vec![(0, 0, 0, 255), (255, 255, 255, 128), (0x12, 0x34, 0x56, 255)],
        })
    );
    assert_eq!(
        parse_fill("linear-gradient(450deg, #000000, #ffffff)"),
        Some(FillSpec::LinearGradient { angle: 90, stops: vec![(0, 0, 0, 255), (255, 255, 255, 255)] })
    );
    assert_eq!(
        parse_fill("linear-gradient(-360deg, #000000, #ffffff)"),
        Some(FillSpec::LinearGradient { angle: 0, stops: vec![(0, 0, 0, 255), (255, 255, 255, 255)] })
    );
    assert_eq!(parse_fill("linear-gradient(90deg, #FF0000)"), None);
    assert_eq!(parse_fill("linear-gradient(90, #FF0000, #0000FF)"), None);
    assert_eq!(parse_fill("linear-gradient(45.5deg, #FF0000, #0000FF)"), None);
    assert_eq!(parse_fill("linear-gradient(deg, #FF0000, #0000FF)"), None);
    assert_eq!(parse_fill("linear-gradient(90deg, red, #0000FF)"), None);
    assert_eq!(parse_fill("linear-gradient(90deg, #FF0000, #0000FF"), None);
    assert_eq!(parse_fill("linear-gradient(90deg, #FF0000,, #0000FF)"), None);
    assert_eq!(parse_fill("#3B82F6"), Some(FillSpec::Solid((0x3B, 0x82, 0xF6, 255))));
    assert_eq!(parse_fill("radial-gradient(#000000, #ffffff)"), None);
}

#[test]
fn invalid_gradient_is_invalid_color() {
    let mut h = Hierarchy { nodes: vec![frame_node("root", &[])], canvas: vec!["root".to_string()] };
    let mut a = args("frame");
    a.fill = Some("linear-gradient(90deg, #FF0000)".to_string());
    let e = add_node(&mut h, &a).err().unwrap();
    assert_eq!(e.code, "INVALID_COLOR");
    assert_eq!(e.message, "invalid color: linear-gradient(90deg, #FF0000)");
    assert_eq!(h.nodes.len(), 1);
}
