use std::sync::Arc;

use prosemirror_model::attrs::Attrs;
use prosemirror_model::content::ContentMatch;
use prosemirror_model::node::{Fragment, Node};
use prosemirror_model::replace::{check_join, remove_range, Slice};
use prosemirror_model::schema::NodeType;

/// A stand-in identity for a type built in a test: types of one name are one type.
fn ident(name: &str) -> usize {
    name.bytes().fold(17usize, |h, b| h.wrapping_mul(31).wrapping_add(b as usize))
}

fn block_nt(name: &str) -> Arc<NodeType> {
    Arc::new(NodeType {
        id: ident(name), name: name.into(), groups: vec![], is_block: true,
        is_text: false, inline_content: false, mark_set: None, content_match: None,
    })
}

fn text_nt() -> Arc<NodeType> {
    Arc::new(NodeType {
        id: ident("text"), name: "text".into(), groups: vec![], is_block: false,
        is_text: true, inline_content: false, mark_set: None, content_match: None,
    })
}

fn text(s: &str) -> Node {
    Node {
        node_type: text_nt(), attrs: Attrs::new(),
        content: Fragment::empty(), marks: vec![], text: Some(s.into()),
    }
}

fn block(nt: Arc<NodeType>, children: Vec<Node>) -> Node {
    Node {
        node_type: nt, attrs: Attrs::new(),
        content: Fragment::from_array(children),
        marks: vec![], text: None,
    }
}

// ── Slice ────────────────────────────────────────────────

#[test]
fn slice_empty() {
    let s = Slice::empty();
    assert_eq!(s.open_start, 0);
    assert_eq!(s.open_end, 0);
    assert_eq!(s.content.size, 0);
}

#[test]
fn slice_max_open_leaf() {
    let txt = text("hello");
    let f = Fragment::from_array(vec![txt]);
    let s = Slice::max_open(&f);
    assert_eq!(s.open_start, 0);
    assert_eq!(s.open_end, 0);
}

#[test]
fn slice_max_open_block() {
    // The inner type is a leaf (no content expression); the outer type
    // holds "inner*".
    let inner_nt = block_nt("inner");
    let types: Vec<Arc<NodeType>> = vec![Arc::clone(&inner_nt)];
    let cm = ContentMatch::parse("inner*", &types).unwrap();
    let outer_nt = Arc::new(NodeType {
        id: ident("outer"), name: "outer".into(), groups: vec![], is_block: true,
        is_text: false, inline_content: false, mark_set: None,
        content_match: Some(cm),
    });

    let inner = block(Arc::clone(&inner_nt), vec![]);
    let outer = Node {
        node_type: Arc::clone(&outer_nt),
        attrs: Attrs::new(),
        content: Fragment::from_array(vec![inner]),
        marks: vec![], text: None,
    };
    let f = Fragment::from_array(vec![outer]);
    let s = Slice::max_open(&f);
    assert_eq!(s.open_start, 1);
    assert_eq!(s.open_end, 1);
}

// ── remove_range ────────────────────────────────────────

#[test]
fn remove_range_flat() {
    // [text "hello"]: removing 1..3 leaves "h" + "lo", merged.
    let f = Fragment::from_array(vec![text("hello")]);
    let result = remove_range(&f, 1, 3);
    assert!(result.is_ok());
    let r = result.unwrap();
    assert_eq!(r.child(0).text(), Some("hlo"));
}

#[test]
fn remove_range_non_flat_returns_err() {
    // [p("ab"), p("cd")], each of size 4: 1 is inside the first, 5 inside
    // the second.
    let p1 = block(block_nt("p"), vec![text("ab")]);
    let p2 = block(block_nt("p"), vec![text("cd")]);
    let f = Fragment::from_array(vec![p1, p2]);
    let result = remove_range(&f, 1, 5);
    assert!(result.is_err());
    assert!(result.unwrap_err().0.contains("non-flat"));
}

// ── check_join via compatible_content ────────────────────

#[test]
fn check_join_same_type_passes() {
    let nt = block_nt("p");
    let n1 = block(Arc::clone(&nt), vec![]);
    let n2 = block(Arc::clone(&nt), vec![]);
    assert!(check_join(&n1, &n2).is_ok());
}

#[test]
fn check_join_different_types_fails() {
    let n1 = block(block_nt("p"), vec![]);
    let n2 = block(block_nt("div"), vec![]);
    assert!(check_join(&n1, &n2).is_err());
}
