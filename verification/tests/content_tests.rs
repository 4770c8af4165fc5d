use std::sync::Arc;

use prosemirror_model::attrs::Attrs;
use prosemirror_model::content::ContentMatch;
use prosemirror_model::node::{Fragment, Node};
use prosemirror_model::schema::NodeType;

/// A stand-in identity for a type built in a test: types of one name are one type.
fn ident(name: &str) -> usize {
    name.bytes().fold(17usize, |h, b| h.wrapping_mul(31).wrapping_add(b as usize))
}

fn node_type(name: &str, is_block: bool) -> Arc<NodeType> {
    Arc::new(NodeType {
        id: ident(name), name: name.into(),
        groups: vec![],
        is_block,
        is_text: name == "text",
        inline_content: false,
        mark_set: None,
        content_match: None,
    })
}

fn schema_with(types: &[(&str, bool)]) -> Vec<Arc<NodeType>> {
    types.iter().map(|(name, is_block)| node_type(name, *is_block)).collect()
}

fn get(types: &[Arc<NodeType>], name: &str) -> Arc<NodeType> {
    Arc::clone(types.iter().find(|t| t.name == name).unwrap())
}

fn block_node(nt: Arc<NodeType>) -> Node {
    Node { node_type: nt, attrs: Attrs::new(), content: Fragment::empty(), marks: vec![], text: None }
}

// ── parse ────────────────────────────────────────────────

#[test]
fn parse_empty_expr() {
    let types = schema_with(&[]);
    let cm = ContentMatch::parse("", &types).unwrap();
    assert!(cm.valid_end);
    assert_eq!(cm.edge_count(), 0);
}

#[test]
fn parse_single_no_panic() {
    let types = schema_with(&[("paragraph", true)]);
    let cm = ContentMatch::parse("paragraph", &types);
    assert!(cm.is_ok());
}

#[test]
fn parse_plus_no_panic() {
    let types = schema_with(&[("paragraph", true)]);
    let cm = ContentMatch::parse("paragraph+", &types);
    assert!(cm.is_ok());
}

#[test]
fn parse_star_valid_end() {
    let types = schema_with(&[("paragraph", true)]);
    let cm = ContentMatch::parse("paragraph*", &types).unwrap();
    assert!(cm.valid_end, "star expr should allow empty");
}

#[test]
fn parse_range() {
    let types = schema_with(&[("heading", true)]);
    assert!(ContentMatch::parse("heading{1,3}", &types).is_ok());
}

#[test]
fn parse_choice() {
    let types = schema_with(&[("p", true), ("h", true)]);
    assert!(ContentMatch::parse("p | h", &types).is_ok());
}

// ── match_type ───────────────────────────────────────────

#[test]
fn match_type_advances_state() {
    let types = schema_with(&[("p", true)]);
    let p_type = get(&types, "p");
    let cm = ContentMatch::parse("p+", &types).unwrap();
    let next = cm.match_type(&p_type);
    assert!(next.is_some(), "should match 'p'");
}

#[test]
fn match_type_unknown_returns_none() {
    let types = schema_with(&[("p", true)]);
    let cm = ContentMatch::parse("p", &types).unwrap();
    let other = node_type("other", true);
    assert!(cm.match_type(&other).is_none());
}

// ── match_fragment ───────────────────────────────────────

#[test]
fn match_fragment_empty() {
    let types = schema_with(&[("p", true)]);
    let cm = ContentMatch::parse("p*", &types).unwrap();
    let frag = Fragment::empty();
    let result = cm.match_fragment(&frag, 0, 0);
    assert!(result.is_some());
    assert!(result.unwrap().valid_end);
}

#[test]
fn match_fragment_one_node() {
    let types = schema_with(&[("p", true)]);
    let p_type = get(&types, "p");
    let cm = ContentMatch::parse("p+", &types).unwrap();
    let frag = Fragment::from_array(vec![block_node(p_type)]);
    let result = cm.match_fragment(&frag, 0, 1);
    assert!(result.is_some());
    assert!(result.unwrap().valid_end);
}

#[test]
fn match_fragment_no_match() {
    let types = schema_with(&[("p", true), ("h", true)]);
    let h_type = get(&types, "h");
    let cm = ContentMatch::parse("p+", &types).unwrap();
    let frag = Fragment::from_array(vec![block_node(h_type)]);
    let result = cm.match_fragment(&frag, 0, 1);
    assert!(result.is_none());
}

// ── find_wrapping ────────────────────────────────────────

#[test]
fn find_wrapping_direct_match() {
    let types = schema_with(&[("p", true)]);
    let p_type = get(&types, "p");
    let cm = ContentMatch::parse("p+", &types).unwrap();
    let result = cm.find_wrapping(&p_type);
    assert!(matches!(result, Some(ref v) if v.is_empty()));
}
