use ode::document::{Version, WorkingColorSpace};
use ode::inspect::{
    build_inspect_summary, canvas_trees_end_within, space_text, tree_ends_within, InspectIn,
    InspectNode,
};
use ode::tokens::DesignTokens;

fn node(id: &str, name: &str, kind: &str, children: &[&str]) -> InspectIn {
    InspectIn {
        stable_id: id.to_string(),
        name: name.to_string(),
        kind: kind.to_string(),
        children: children.iter().map(|c| c.to_string()).collect(),
    }
}

fn shape(t: &InspectNode) -> String {
    let inner: Vec<String> = t.children.iter().map(shape).collect();
    format!("{}:{}[{}]", t.index, t.stable_id, inner.join(","))
}

fn strings(v: &[&str]) -> Vec<String> {
    v.iter().map(|s| s.to_string()).collect()
}

#[test]
fn inspect_summary_of_single_frame() {
    let nodes = vec![node("r", "Root", "frame", &[])];
    let tokens: DesignTokens<u32> = DesignTokens::new();
    let s = build_inspect_summary(
        &"Inspect Me".to_string(),
        &Version(0, 2, 0),
        WorkingColorSpace::Srgb,
        &nodes,
        &strings(&["r"]),
        &tokens,
    );
    assert_eq!(s.name, "Inspect Me");
    assert_eq!(s.format_version, "0.2.0");
    assert_eq!(s.working_color_space, "srgb");
    assert_eq!(s.node_count, 1);
    assert_eq!(s.canvas, vec!["r".to_string()]);
    assert_eq!(s.tree.len(), 1);
    assert_eq!(s.tree[0].name, "Root");
    assert_eq!(s.tree[0].kind, "frame");
    assert!(s.tree[0].children.is_empty());
    assert!(s.tokens.collections.is_empty());
    assert_eq!(s.tokens.total_tokens, 0);
}

#[test]
fn inspect_tree_follows_children_and_skips_unknown() {
    let nodes = vec![
        node("root", "Root", "frame", &["g", "missing", "t"]),
        node("g", "Group", "group", &["v"]),
        node("v", "Path", "vector", &[]),
        node("t", "Label", "text", &[]),
    ];
    let tokens: DesignTokens<u32> = DesignTokens::new();
    let s = build_inspect_summary(
        &"Doc".to_string(),
        &Version(1, 10, 3),
        WorkingColorSpace::DisplayP3,
        &nodes,
        &strings(&["nowhere", "root", "v"]),
        &tokens,
    );
    assert_eq!(s.format_version, "1.10.3");
    assert_eq!(s.working_color_space, "display-p3");
    assert_eq!(s.node_count, 4);
    assert_eq!(s.canvas.len(), 3);
    assert_eq!(s.tree.len(), 2);
    assert_eq!(shape(&s.tree[0]), "0:root[1:g[2:v[]],3:t[]]");
    assert_eq!(shape(&s.tree[1]), "2:v[]");
}

#[test]
fn inspect_duplicate_identifier_names_last_node() {
    let nodes = vec![
        node("a", "First", "frame", &[]),
        node("a", "Second", "group", &[]),
    ];
    let tokens: DesignTokens<u32> = DesignTokens::new();
    let s = build_inspect_summary(
        &"Dup".to_string(),
        &Version(0, 1, 0),
        WorkingColorSpace::Srgb,
        &nodes,
        &strings(&["a"]),
        &tokens,
    );
    assert_eq!(s.tree.len(), 1);
    assert_eq!(s.tree[0].index, 1);
    assert_eq!(s.tree[0].name, "Second");
}

#[test]
fn inspect_counts_tokens_over_collections() {
    let mut tokens: DesignTokens<u32> = DesignTokens::new();
    let colors = tokens.add_collection("Colors", vec!["Light"]);
    tokens.add_token(colors, "red", 1);
    tokens.add_token(colors, "blue", 2);
    let spacing = tokens.add_collection("Spacing", vec!["Default"]);
    tokens.add_token(spacing, "sm", 4);
    let nodes = vec![node("r", "Root", "frame", &[])];
    let s = build_inspect_summary(
        &"Tokens".to_string(),
        &Version(0, 2, 0),
        WorkingColorSpace::AdobeRgb,
        &nodes,
        &strings(&["r"]),
        &tokens,
    );
    assert_eq!(s.tokens.collections, vec!["Colors".to_string(), "Spacing".to_string()]);
    assert_eq!(s.tokens.total_tokens, 3);
    assert_eq!(s.working_color_space, "adobe-rgb");
}

#[test]
fn tree_depth_check_finds_cycles() {
    let acyclic = vec![
        node("a", "A", "group", &["b"]),
        node("b", "B", "group", &["c"]),
        node("c", "C", "vector", &[]),
    ];
    assert!(tree_ends_within(&acyclic, 0, 3));
    assert!(!tree_ends_within(&acyclic, 0, 2));
    assert!(tree_ends_within(&acyclic, 2, 1));
    assert!(!tree_ends_within(&acyclic, 2, 0));
    let cyclic = vec![node("a", "A", "group", &["b"]), node("b", "B", "group", &["a"])];
    assert!(!tree_ends_within(&cyclic, 0, 10));
}

#[test]
fn space_names_are_kebab_case() {
    assert_eq!(space_text(WorkingColorSpace::Srgb), "srgb");
    assert_eq!(space_text(WorkingColorSpace::DisplayP3), "display-p3");
    assert_eq!(space_text(WorkingColorSpace::AdobeRgb), "adobe-rgb");
    assert_eq!(space_text(WorkingColorSpace::ProPhotoRgb), "pro-photo-rgb");
}

#[test]
fn canvas_check_skips_unknown_roots_and_finds_cycles() {
    let nodes = vec![
        node("a", "A", "group", &["b"]),
        node("b", "B", "group", &["a"]),
        node("c", "C", "frame", &["d"]),
        node("d", "D", "text", &[]),
    ];
    assert!(canvas_trees_end_within(&nodes, &strings(&["c", "zzz"]), 5));
    assert!(!canvas_trees_end_within(&nodes, &strings(&["c"]), 1));
    assert!(!canvas_trees_end_within(&nodes, &strings(&["c", "a"]), 5));
    assert!(canvas_trees_end_within(&nodes, &strings(&[]), 0));
}
