use ode::output::{EXIT_INPUT, EXIT_OK};
use ode::tokens::DesignTokens;
use ode::validate::{
    cmd_validate, validate_document, DocOutline, KindOutline, LayoutFacts, NodeOutline,
    OverrideKind, OverrideRef, RangeExcess, ViewOutline,
};

fn node(id: &str, kind: KindOutline) -> NodeOutline {
    NodeOutline {
        stable_id: id.to_string(),
        kind,
        width_excess: None,
        height_excess: None,
        cmyk_fills: vec![],
    }
}

fn frame(id: &str, children: &[&str]) -> NodeOutline {
    node(
        id,
        KindOutline::Frame {
            children: children.iter().map(|c| c.to_string()).collect(),
            is_component: false,
            layout: None,
        },
    )
}

fn component(id: &str, children: &[&str]) -> NodeOutline {
    node(
        id,
        KindOutline::Frame {
            children: children.iter().map(|c| c.to_string()).collect(),
            is_component: true,
            layout: None,
        },
    )
}

fn with_layout(id: &str, negative_padding: bool, negative_spacing: bool) -> NodeOutline {
    node(
        id,
        KindOutline::Frame {
            children: vec![],
            is_component: false,
            layout: Some(LayoutFacts { negative_padding, negative_spacing }),
        },
    )
}

fn instance(id: &str, source: &str, overrides: &[(OverrideKind, &str)]) -> NodeOutline {
    node(
        id,
        KindOutline::Instance {
            children: vec![],
            source_component: source.to_string(),
            overrides: overrides
                .iter()
                .map(|(k, t)| OverrideRef { kind: *k, target: t.to_string() })
                .collect(),
        },
    )
}

fn doc(nodes: Vec<NodeOutline>, canvas: &[&str]) -> DocOutline<f32> {
    DocOutline {
        nodes,
        canvas: canvas.iter().map(|c| c.to_string()).collect(),
        views: vec![],
        tokens: DesignTokens::new(),
    }
}

fn codes(d: &DocOutline<f32>) -> Vec<String> {
    validate_document(d).errors.into_iter().map(|e| e.code).collect()
}

#[test]
fn valid_document_passes() {
    let result = validate_document(&doc(vec![frame("root", &[])], &["root"]));
    assert!(result.valid, "Expected valid, got errors: {:?}", result.errors);
}

#[test]
fn duplicate_stable_id_detected() {
    let result = validate_document(&doc(vec![frame("dup", &[]), frame("dup", &[])], &["dup"]));
    assert!(!result.valid);
    assert!(result.errors.iter().any(|e| e.code == "DUPLICATE_ID"));
}

#[test]
fn invalid_reference_detected() {
    let result = validate_document(&doc(vec![frame("root", &["nonexistent"])], &["root"]));
    assert!(!result.valid);
    assert!(result.errors.iter().any(|e| e.code == "INVALID_REFERENCE"));
}

#[test]
fn invalid_canvas_reference_detected() {
    let result = validate_document(&doc(vec![], &["missing"]));
    assert!(!result.valid);
    assert!(result.errors.iter().any(|e| e.code == "INVALID_REFERENCE"));
}

#[test]
fn circular_hierarchy_detected() {
    let result = validate_document(&doc(vec![frame("a", &["b"]), frame("b", &["a"])], &["a"]));
    assert!(!result.valid);
    assert!(result.errors.iter().any(|e| e.code == "CIRCULAR_HIERARCHY"));
}

#[test]
fn parse_error_returns_parse_failed() {
    let (code, result) = cmd_validate::<f32>(Err("expected value at line 1 column 1".to_string()));
    assert!(!result.valid);
    assert!(result.errors.iter().any(|e| e.code == "PARSE_FAILED"));
    assert_eq!(code, EXIT_INPUT);
}

#[test]
fn valid_layout_document_passes() {
    let result = validate_document(&doc(vec![with_layout("root", false, false)], &["root"]));
    assert!(result.valid, "Expected valid, got errors: {:?}", result.errors);
}

#[test]
fn negative_padding_detected() {
    let result = validate_document(&doc(vec![with_layout("root", true, false)], &["root"]));
    assert!(!result.valid);
    assert!(result.errors.iter().any(|e| e.code == "NEGATIVE_PADDING"));
}

#[test]
fn negative_spacing_detected() {
    let result = validate_document(&doc(vec![with_layout("root", false, true)], &["root"]));
    assert!(!result.valid);
    assert!(result.errors.iter().any(|e| e.code == "NEGATIVE_SPACING"));
}

#[test]
fn min_exceeds_max_warning() {
    let mut root = frame("root", &[]);
    root.width_excess = Some(RangeExcess { min: "200".to_string(), max: "100".to_string() });
    let result = validate_document(&doc(vec![root], &["root"]));
    assert!(result.valid, "min > max should be a warning, not an error");
    assert!(
        result.warnings.iter().any(|w| w.code == "MIN_EXCEEDS_MAX"),
        "Expected MIN_EXCEEDS_MAX warning, got: {:?}",
        result.warnings
    );
}

#[test]
fn valid_instance_with_overrides_passes() {
    let d = doc(
        vec![component("comp", &[]), instance("inst", "comp", &[(OverrideKind::Visible, "comp")])],
        &["comp"],
    );
    let result = validate_document(&d);
    assert!(result.valid, "Valid instance with overrides should pass, got errors: {:?}", result.errors);
}

#[test]
fn invalid_override_target_detected() {
    let d = doc(
        vec![
            component("comp", &[]),
            instance("inst", "comp", &[(OverrideKind::Visible, "nonexistent")]),
        ],
        &["comp"],
    );
    let result = validate_document(&d);
    assert!(!result.valid);
    assert!(
        result.errors.iter().any(|e| e.code == "INVALID_OVERRIDE_TARGET"),
        "Expected INVALID_OVERRIDE_TARGET, got: {:?}",
        result.errors
    );
}

#[test]
fn override_type_mismatch_detected() {
    let d = doc(
        vec![
            component("comp", &["child"]),
            frame("child", &[]),
            instance("inst", "comp", &[(OverrideKind::TextContent, "child")]),
        ],
        &["comp"],
    );
    let result = validate_document(&d);
    assert!(!result.valid);
    assert!(
        result.errors.iter().any(|e| e.code == "OVERRIDE_TYPE_MISMATCH"),
        "Expected OVERRIDE_TYPE_MISMATCH, got: {:?}",
        result.errors
    );
}

#[test]
fn override_target_not_in_component_subtree() {
    let d = doc(
        vec![
            frame("child_a", &[]),
            component("comp_a", &["child_a"]),
            frame("child_b", &[]),
            component("comp_b", &["child_b"]),
            instance("inst", "comp_a", &[(OverrideKind::Visible, "child_b")]),
        ],
        &["comp_a", "comp_b"],
    );
    let result = validate_document(&d);
    assert!(!result.valid, "Override targeting node outside component subtree should fail, got: {:?}", result.errors);
    assert!(
        result.errors.iter().any(|e| e.code == "OVERRIDE_TARGET_NOT_IN_COMPONENT"),
        "Expected OVERRIDE_TARGET_NOT_IN_COMPONENT, got: {:?}",
        result.errors
    );
}

#[test]
fn size_override_on_component_root_rejected() {
    let d = doc(
        vec![component("comp", &[]), instance("inst", "comp", &[(OverrideKind::Size, "comp")])],
        &["comp"],
    );
    let result = validate_document(&d);
    assert!(!result.valid);
    assert!(
        result.errors.iter().any(|e| e.code == "SIZE_OVERRIDE_ON_COMPONENT_ROOT"),
        "Expected SIZE_OVERRIDE_ON_COMPONENT_ROOT, got: {:?}",
        result.errors
    );
}

#[test]
fn issue_paths_and_messages() {
    let d = doc(vec![frame("root", &["ghost"]), frame("root", &[])], &["root"]);
    let r = validate_document(&d);
    assert_eq!(r.errors.len(), 2);
    assert_eq!(r.errors[0].path, "nodes[1].stable_id");
    assert_eq!(r.errors[0].message, "duplicate stable_id 'root'");
    assert_eq!(r.errors[1].path, "nodes[0].kind.children[0]");
    assert_eq!(r.errors[1].message, "referenced stable_id 'ghost' not found");
    assert_eq!(
        r.errors[1].suggestion.as_deref(),
        Some("available stable_ids: [\"root\", \"root\"]")
    );
}

#[test]
fn cycle_check_is_skipped_after_reference_errors() {
    // A cycle next to an unresolved reference: only the reference is reported.
    let d = doc(vec![frame("a", &["b", "zzz"]), frame("b", &["a"])], &["a"]);
    assert_eq!(codes(&d), vec!["INVALID_REFERENCE".to_string()]);
}

#[test]
fn cycle_issue_names_the_search_root() {
    let d = doc(vec![frame("top", &["a"]), frame("a", &["b"]), frame("b", &["a"])], &["top"]);
    let r = validate_document(&d);
    assert_eq!(r.errors.len(), 1);
    assert_eq!(r.errors[0].path, "nodes (stable_id='top')");
    assert_eq!(r.errors[0].message, "circular parent-child relationship detected");
}

#[test]
fn self_parent_is_a_cycle() {
    let d = doc(vec![frame("a", &["a"])], &["a"]);
    assert_eq!(codes(&d), vec!["CIRCULAR_HIERARCHY".to_string()]);
}

#[test]
fn deep_tree_has_no_cycle() {
    let d = doc(
        vec![frame("r", &["x", "y"]), frame("x", &["z"]), frame("y", &["z"]), frame("z", &[])],
        &["r"],
    );
    assert!(codes(&d).is_empty());
}

#[test]
fn component_reference_errors() {
    let d = doc(
        vec![frame("plain", &[]), instance("i1", "plain", &[]), instance("i2", "nowhere", &[])],
        &["plain"],
    );
    let r = validate_document(&d);
    let msgs: Vec<String> = r.errors.iter().map(|e| e.message.clone()).collect();
    assert_eq!(
        msgs,
        vec![
            "source_component 'plain' exists but has no component_def".to_string(),
            "source_component 'nowhere' not found".to_string(),
        ]
    );
    assert_eq!(r.errors[0].path, "nodes[1].kind.source_component");
}

#[test]
fn override_deep_descendant_accepted() {
    let d = doc(
        vec![
            component("comp", &["mid"]),
            frame("mid", &["leaf"]),
            node("leaf", KindOutline::Text),
            instance("inst", "comp", &[(OverrideKind::TextContent, "leaf"), (OverrideKind::Size, "mid")]),
        ],
        &["comp"],
    );
    assert!(codes(&d).is_empty());
}

#[test]
fn view_and_cmyk_reports() {
    let mut d = doc(vec![frame("root", &[])], &["root"]);
    d.views = vec![
        ViewOutline::Print { pages: vec!["root".to_string(), "p2".to_string()] },
        ViewOutline::Web { root: "w".to_string() },
        ViewOutline::Export,
    ];
    d.nodes[0].cmyk_fills = vec![false, true];
    let r = validate_document(&d);
    let paths: Vec<String> = r.errors.iter().map(|e| e.path.clone()).collect();
    assert_eq!(paths, vec!["views[0].kind.pages[1]".to_string(), "views[1].kind.root".to_string()]);
    assert_eq!(r.warnings.len(), 1);
    assert_eq!(r.warnings[0].path, "nodes[0].kind.visual.fills[1].paint.color");
    assert_eq!(r.warnings[0].code, "CMYK_FALLBACK");
}

#[test]
fn cyclic_tokens_are_reported() {
    let mut tokens: DesignTokens<f32> = DesignTokens::new();
    let col = tokens.add_collection("c", vec!["Default"]);
    let a = tokens.add_token(col, "a", 1.0);
    let b = tokens.add_alias_token(col, "b", col, a);
    // An alias cycle that set_alias would refuse, written directly.
    tokens.collections[0].tokens[0].values.insert(
        0,
        ode::tokens::TokenResolve::Alias(ode::style::TokenRef { collection_id: col, token_id: b }),
    );
    let d = DocOutline { nodes: vec![], canvas: vec![], views: vec![], tokens };
    let r = validate_document(&d);
    assert_eq!(r.errors.len(), 2);
    assert_eq!(r.errors[0].code, "CYCLIC_TOKEN");
    assert_eq!(r.errors[0].path, "tokens.collections[0].tokens[0]");
    assert_eq!(r.errors[0].message, "token 'a' has a cyclic alias");
}

#[test]
fn exit_codes_follow_validity() {
    let (ok, _) = cmd_validate(Ok(doc(vec![frame("root", &[])], &["root"])));
    assert_eq!(ok, EXIT_OK);
    let (bad, _) = cmd_validate(Ok(doc(vec![], &["missing"])));
    assert_eq!(bad, EXIT_INPUT);
}
