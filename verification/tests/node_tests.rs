use std::sync::Arc;

use prosemirror_model::attrs::Attrs;
use prosemirror_model::node::{Fragment, Node};
use prosemirror_model::schema::NodeType;

/// A stand-in identity for a type built in a test: types of one name are one type.
fn ident(name: &str) -> usize {
    name.bytes().fold(17usize, |h, b| h.wrapping_mul(31).wrapping_add(b as usize))
}

fn nt(name: &str, is_block: bool, is_text: bool, inline_content: bool) -> Arc<NodeType> {
    Arc::new(NodeType {
        id: ident(name), name: name.into(), groups: vec![], is_block,
        is_text, inline_content, mark_set: None, content_match: None,
    })
}

#[test]
fn node_slice_basic() {
    let text_nt = nt("text", false, true, false);
    let para_nt = nt("paragraph", true, false, true);
    let doc_nt = nt("doc", true, false, false);
    let txt = Node { node_type: Arc::clone(&text_nt), attrs: Attrs::new(),
                     content: Fragment::empty(), marks: vec![], text: Some("hello".into()) };
    let para = Node { node_type: Arc::clone(&para_nt), attrs: Attrs::new(),
                      content: Fragment::from_array(vec![txt]), marks: vec![], text: None };
    let doc = Node { node_type: Arc::clone(&doc_nt), attrs: Attrs::new(),
                     content: Fragment::from_array(vec![para]), marks: vec![], text: None };
    // Positions: 0[1 h e l l o 6]7, so the slice 1..7 starts inside the
    // paragraph (open 1) and ends at the document's end (open 0).
    let slice = doc.slice(1, 7).unwrap();
    assert_eq!(slice.open_start, 1);
    assert_eq!(slice.open_end, 0);
    assert_eq!(slice.content.child_count(), 1);
}

#[test]
fn node_slice_empty_range() {
    let doc_nt = nt("doc", true, false, false);
    let doc = Node { node_type: doc_nt, attrs: Attrs::new(),
                     content: Fragment::empty(), marks: vec![], text: None };
    let slice = doc.slice(0, 0).unwrap();
    assert_eq!(slice.size(), 0);
}
