use std::sync::Arc;

use prosemirror_model::attrs::Attrs;
use prosemirror_model::mark::Mark;
use prosemirror_model::node::{Fragment, Node};
use prosemirror_model::schema::{MarkType, NodeType};

/// A stand-in identity for a type built in a test: types of one name are one type.
fn ident(name: &str) -> usize {
    name.bytes().fold(17usize, |h, b| h.wrapping_mul(31).wrapping_add(b as usize))
}

fn make_nt(name: &str, is_block: bool, groups: &[&str]) -> Arc<NodeType> {
    Arc::new(NodeType {
        id: ident(name), name: name.into(),
        groups: groups.iter().map(|s| s.to_string()).collect(),
        is_block,
        is_text: name == "text",
        inline_content: false,
        mark_set: None,
        content_match: None,
    })
}

/// The node types of the standard test builder.
fn test_schema() -> Vec<Arc<NodeType>> {
    let mut m = Vec::new();
    for (name, is_block, groups) in &[
        ("text", false, vec!["inline"]),
        ("paragraph", true, vec!["block"]),
        ("heading", true, vec!["block"]),
        ("blockquote", true, vec!["block"]),
        ("doc", true, vec![]),
    ] {
        m.push(make_nt(name, *is_block, groups));
    }
    m
}

fn get(schema: &[Arc<NodeType>], name: &str) -> Arc<NodeType> {
    Arc::clone(schema.iter().find(|t| t.name == name).unwrap())
}

fn node(nt: &Arc<NodeType>, children: Vec<Node>) -> Node {
    Node { node_type: Arc::clone(nt), attrs: Attrs::new(), content: Fragment::from_array(children), marks: vec![], text: None }
}

fn txt(schema: &[Arc<NodeType>], s: &str) -> Node {
    Node { node_type: get(schema, "text"), attrs: Attrs::new(), content: Fragment::empty(), marks: vec![], text: Some(s.into()) }
}

fn p(schema: &[Arc<NodeType>], children: Vec<Node>) -> Node {
    node(&get(schema, "paragraph"), children)
}
fn h1(schema: &[Arc<NodeType>], children: Vec<Node>) -> Node {
    node(&get(schema, "heading"), children)
}
fn bq(schema: &[Arc<NodeType>], children: Vec<Node>) -> Node {
    node(&get(schema, "blockquote"), children)
}

fn em_text(s: &[Arc<NodeType>], text: &str) -> Node {
    let em = Arc::new(MarkType { id: ident("em"), name: "em".into(), rank: 0, excluded: vec![], inclusive: None });
    Node { node_type: get(s, "text"), attrs: Attrs::new(),
           content: Fragment::empty(), text: Some(text.into()),
           marks: vec![Mark { mark_type: em, attrs: Attrs::new() }] }
}
fn strong_text(s: &[Arc<NodeType>], text: &str) -> Node {
    let st = Arc::new(MarkType { id: ident("strong"), name: "strong".into(), rank: 1, excluded: vec![], inclusive: None });
    Node { node_type: get(s, "text"), attrs: Attrs::new(),
           content: Fragment::empty(), text: Some(text.into()),
           marks: vec![Mark { mark_type: st, attrs: Attrs::new() }] }
}


#[test]
fn diff_start_identical() {
    let s = test_schema();
    let a = Fragment::from_array(vec![p(&s, vec![txt(&s, "a"), em_text(&s, "b")]),
                                      p(&s, vec![txt(&s, "hello")]),
                                      bq(&s, vec![h1(&s, vec![txt(&s, "bye")])])]);
    let b = a.clone();
    assert_eq!(a.find_diff_start(&b, 0), None);
}

#[test]
fn diff_start_one_longer() {
    // a = doc(p("a",em("b")), p("hello"), blockquote(h1("bye"))) + extra paragraph
    // b = a without extra
    // diff at position = a.size - extra.size
    let s = test_schema();
    let shared = vec![
        p(&s, vec![txt(&s, "a"), em_text(&s, "b")]),
        p(&s, vec![txt(&s, "hello")]),
        bq(&s, vec![h1(&s, vec![txt(&s, "bye")])]),
    ];
    let a = Fragment::from_array({
        let mut v = shared.clone();
        v.push(p(&s, vec![]));
        v
    });
    let b = Fragment::from_array(shared.clone());
    let diff = a.find_diff_start(&b, 0);
    assert!(diff.is_some(), "expected diff");
    // diff should be at the start of the extra paragraph
    assert_eq!(diff.unwrap(), b.size);
}

#[test]
fn diff_start_one_shorter() {
    let s = test_schema();
    let shared = vec![
        p(&s, vec![txt(&s, "a"), em_text(&s, "b")]),
        p(&s, vec![txt(&s, "hello")]),
        bq(&s, vec![h1(&s, vec![txt(&s, "bye")])]),
    ];
    let a = Fragment::from_array({
        let mut v = shared.clone();
        v.push(p(&s, vec![]));
        v
    });
    let b = Fragment::from_array(shared);
    // diff from b's perspective when a has extra
    let diff = b.find_diff_start(&a, 0);
    assert!(diff.is_some());
}

#[test]
fn diff_start_differing_marks() {
    let s = test_schema();
    let a = Fragment::from_array(vec![
        p(&s, vec![txt(&s, "a"), em_text(&s, "b")])
    ]);
    let b = Fragment::from_array(vec![
        p(&s, vec![txt(&s, "a"), strong_text(&s, "b")])
    ]);
    let diff = a.find_diff_start(&b, 0);
    assert!(diff.is_some());
    // diff starts at "a" position + 1 (after the "a" text in p)
    // p starts at 0, inside p at 1, after "a" (1 char) = 2
    assert_eq!(diff.unwrap(), 2);
}

#[test]
fn diff_start_text_difference() {
    let s = test_schema();
    let a = Fragment::from_array(vec![p(&s, vec![txt(&s, "foobar")])]);
    let b = Fragment::from_array(vec![p(&s, vec![txt(&s, "foocar")])]);
    let diff = a.find_diff_start(&b, 0);
    // inside p: p.start=0, content starts at 1. "foo" matches, diff at 1+3=4
    assert_eq!(diff, Some(4));
}

#[test]
fn diff_start_different_node_type() {
    let s = test_schema();
    let a = Fragment::from_array(vec![p(&s, vec![txt(&s, "a")]), p(&s, vec![txt(&s, "b")])]);
    let b = Fragment::from_array(vec![p(&s, vec![txt(&s, "a")]), h1(&s, vec![txt(&s, "b")])]);
    let diff = a.find_diff_start(&b, 0);
    // p("a").nodeSize = 3, so second block starts at pos 3
    assert_eq!(diff, Some(3));
}

#[test]
fn diff_start_difference_at_start() {
    let s = test_schema();
    let a = Fragment::from_array(vec![p(&s, vec![txt(&s, "b")])]);
    let b = Fragment::from_array(vec![h1(&s, vec![txt(&s, "b")])]);
    assert_eq!(a.find_diff_start(&b, 0), Some(0));
}


#[test]
fn diff_end_identical() {
    let s = test_schema();
    let a = Fragment::from_array(vec![
        p(&s, vec![txt(&s, "a"), em_text(&s, "b")]),
        p(&s, vec![txt(&s, "hello")]),
    ]);
    let b = a.clone();
    assert_eq!(a.find_diff_end(&b, a.size, b.size), None);
}

#[test]
fn diff_end_second_longer() {
    let s = test_schema();
    let base = Fragment::from_array(vec![p(&s, vec![txt(&s, "a")])]);
    let longer = Fragment::from_array(vec![p(&s, vec![txt(&s, "b")]), p(&s, vec![txt(&s, "a")])]);
    let diff = base.find_diff_end(&longer, base.size, longer.size);
    assert!(diff.is_some());
    assert_eq!(diff.unwrap().0, 0); // diff starts at beginning of base
}

#[test]
fn diff_end_different_text() {
    let s = test_schema();
    let a = Fragment::from_array(vec![p(&s, vec![txt(&s, "foobar")])]);
    let b = Fragment::from_array(vec![p(&s, vec![txt(&s, "foocar")])]);
    // "ar" is shared at end. diff at position after "foob" from start
    // a.size = p.nodeSize = 1+6+1... wait p content "foobar" = 6 chars
    // but from_array merges text, so p has one text "foobar"
    // a.size = p.nodeSize = 6+2=8
    let diff = a.find_diff_end(&b, a.size, b.size);
    assert!(diff.is_some());
    // "ar" (2 chars) shared from end → pos starts at 7 inside p content,
    // decrements by 2 → pos=5. found.a=5 (p content offset 4 = after "foob").
    assert_eq!(diff.unwrap().0, 5);
}

#[test]
fn diff_end_difference_at_end() {
    let s = test_schema();
    let a = Fragment::from_array(vec![p(&s, vec![txt(&s, "b")])]);
    let b = Fragment::from_array(vec![h1(&s, vec![txt(&s, "b")])]);
    let diff = a.find_diff_end(&b, a.size, b.size);
    assert!(diff.is_some());
}

