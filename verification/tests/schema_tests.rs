use std::sync::Arc;

use prosemirror_model::attrs::Attrs;
use prosemirror_model::content::ContentMatch;
use prosemirror_model::mark::Mark;
use prosemirror_model::node::{Fragment, Node};
use prosemirror_model::schema::{MarkType, NodeType};

/// A stand-in identity for a type built in a test: types of one name are one type.
fn ident(name: &str) -> usize {
    name.bytes().fold(17usize, |h, b| h.wrapping_mul(31).wrapping_add(b as usize))
}

fn make_nt(name: &str, is_block: bool) -> Arc<NodeType> {
    Arc::new(NodeType {
        id: ident(name), name: name.into(), groups: vec![], is_block,
        is_text: name == "text", inline_content: false,
        mark_set: None, content_match: None,
    })
}

fn make_mt(name: &str, rank: usize) -> Arc<MarkType> {
    Arc::new(MarkType { id: ident(name), name: name.into(), rank, excluded: vec![], inclusive: None })
}

fn make_mark(mt: Arc<MarkType>) -> Mark {
    Mark { mark_type: mt, attrs: Attrs::new() }
}

fn block_node(nt: Arc<NodeType>) -> Node {
    Node {
        node_type: nt, attrs: Attrs::new(),
        content: Fragment::empty(), marks: vec![], text: None,
    }
}

// ── compatible_content ───────────────────────────────────

#[test]
fn compatible_content_same_instance() {
    let nt = make_nt("p", true);
    assert!(nt.compatible_content(&nt));
}

#[test]
fn compatible_content_different_names() {
    let p = make_nt("p", true);
    let div = make_nt("div", true);
    assert!(!p.compatible_content(&div));
}

// ── valid_content / check_content ────────────────────────

#[test]
fn valid_content_no_match_empty() {
    let nt = make_nt("p", true);
    assert!(nt.valid_content(&Fragment::empty()));
}

#[test]
fn valid_content_with_parse() {
    let p_type = make_nt("p", true);
    let types: Vec<Arc<NodeType>> = vec![Arc::clone(&p_type)];
    let cm = ContentMatch::parse("p*", &types).unwrap();
    let doc_nt = Arc::new(NodeType {
        id: ident("doc"), name: "doc".into(), groups: vec![], is_block: true,
        is_text: false, inline_content: false, mark_set: None,
        content_match: Some(cm),
    });
    assert!(doc_nt.valid_content(&Fragment::empty()));
    let frag = Fragment::from_array(vec![block_node(Arc::clone(&p_type))]);
    assert!(doc_nt.valid_content(&frag));
}

#[test]
fn check_content_error_message() {
    let nt = make_nt("p", true);
    let frag = Fragment::from_array(vec![block_node(make_nt("inner", true))]);
    let result = nt.check_content(&frag);
    assert!(result.is_err());
    assert!(result.unwrap_err().contains("p"));
}

// ── allows_marks ────────────────────────────────────────

#[test]
fn allows_marks_none_allows_all() {
    let nt = make_nt("p", true);
    let bold = make_mark(make_mt("bold", 0));
    assert!(nt.allows_marks(&[bold]));
}

#[test]
fn allows_marks_restricted_set() {
    let bold_mt = make_mt("bold", 0);
    let em_mt = make_mt("em", 1);
    let nt = Arc::new(NodeType {
        id: ident("p"), name: "p".into(), groups: vec![], is_block: true,
        is_text: false, inline_content: false,
        mark_set: Some(vec![Arc::clone(&bold_mt)]),
        content_match: None,
    });
    let bold = make_mark(Arc::clone(&bold_mt));
    let em = make_mark(Arc::clone(&em_mt));
    assert!(nt.allows_marks(&[bold]));
    assert!(!nt.allows_marks(&[em]));
}

// ── is_textblock ─────────────────────────────────────────

#[test]
fn is_textblock() {
    let nt = Arc::new(NodeType {
        id: ident("p"), name: "p".into(), groups: vec![], is_block: true,
        is_text: false, inline_content: true, mark_set: None, content_match: None,
    });
    assert!(nt.is_textblock());
    assert!(!make_nt("div", true).is_textblock());
}
