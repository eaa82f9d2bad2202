use ode::errors::WireError;
use ode::validate::ViewOutline;
use ode::wire::{DocRefs, DocRefsWire, NodeRefs, NodeRefsWire, ViewNodes};

fn wire_node(id: &str, children: Option<&[&str]>) -> NodeRefsWire {
    NodeRefsWire {
        stable_id: id.to_string(),
        children: children.map(|c| c.iter().map(|s| s.to_string()).collect()),
    }
}

#[test]
fn unknown_reference_returns_error() {
    let wire = DocRefsWire {
        nodes: vec![wire_node("node-1", Some(&["nonexistent"]))],
        canvas: vec!["node-1".to_string()],
        views: vec![],
    };
    let result = wire.into_document();
    assert!(result.is_err());
    match result {
        Err(WireError::UnknownReference(s)) => assert_eq!(s, "nonexistent"),
        Ok(_) => panic!("expected an unknown reference"),
    }
}

#[test]
fn document_wire_roundtrip() {
    let wire = DocRefsWire {
        nodes: vec![wire_node("frame-1", Some(&["text-1"])), wire_node("text-1", None)],
        canvas: vec!["frame-1".to_string()],
        views: vec![
            ViewOutline::Web { root: "frame-1".to_string() },
            ViewOutline::Print { pages: vec!["frame-1".to_string(), "text-1".to_string()] },
            ViewOutline::Export,
        ],
    };
    let doc = wire.into_document().ok().unwrap();
    assert_eq!(doc.canvas, vec![0]);
    assert_eq!(doc.nodes[0].children, Some(vec![1]));
    assert!(matches!(doc.views[0], ViewNodes::Web { root: 0 }));
    let back = DocRefsWire::from_document(&doc);
    assert_eq!(back.canvas, wire.canvas);
    assert_eq!(back.nodes[0].children, wire.nodes[0].children);
    assert_eq!(back.nodes[1].stable_id, "text-1");
    assert!(matches!(&back.views[1], ViewOutline::Print { pages } if pages.len() == 2 && pages[1] == "text-1"));
}

#[test]
fn later_node_takes_over_duplicate_identifier() {
    let wire = DocRefsWire {
        nodes: vec![wire_node("a", None), wire_node("a", Some(&[]))],
        canvas: vec!["a".to_string()],
        views: vec![],
    };
    let doc = wire.into_document().ok().unwrap();
    assert_eq!(doc.canvas, vec![1]);
}

#[test]
fn first_unknown_in_document_order() {
    let wire = DocRefsWire {
        nodes: vec![wire_node("a", Some(&["x"]))],
        canvas: vec!["y".to_string()],
        views: vec![ViewOutline::Web { root: "z".to_string() }],
    };
    match wire.into_document() {
        Err(WireError::UnknownReference(s)) => assert_eq!(s, "x"),
        Ok(_) => panic!("expected an unknown reference"),
    }
}

#[test]
fn stored_key_of_no_node_is_empty() {
    let doc = DocRefs {
        nodes: vec![NodeRefs { stable_id: "a".to_string(), children: Some(vec![7]) }],
        canvas: vec![0],
        views: vec![],
    };
    let w = DocRefsWire::from_document(&doc);
    assert_eq!(w.nodes[0].children, Some(vec![String::new()]));
    assert_eq!(w.canvas, vec!["a".to_string()]);
}

#[test]
fn node_whose_identifier_is_taken_over_becomes_empty_group() {
    let wire = DocRefsWire {
        nodes: vec![
            wire_node("a", Some(&["b"])),
            wire_node("b", None),
            wire_node("a", Some(&["c"])),
            wire_node("c", None),
            wire_node("c", None),
        ],
        canvas: vec!["a".to_string()],
        views: vec![],
    };
    let doc = wire.into_document().ok().unwrap();
    assert_eq!(doc.nodes[0].stable_id, "a");
    assert_eq!(doc.nodes[0].children, Some(vec![]));
    assert_eq!(doc.nodes[1].children, None);
    assert_eq!(doc.nodes[2].children, Some(vec![4]));
    assert_eq!(doc.nodes[3].children, Some(vec![]));
    assert_eq!(doc.nodes[4].children, None);
    assert_eq!(doc.canvas, vec![2]);
}

#[test]
fn taken_over_node_references_still_checked() {
    let wire = DocRefsWire {
        nodes: vec![wire_node("a", Some(&["missing"])), wire_node("a", None)],
        canvas: vec![],
        views: vec![],
    };
    match wire.into_document() {
        Err(WireError::UnknownReference(s)) => assert_eq!(s, "missing"),
        Ok(_) => panic!("expected an unknown reference"),
    }
}
