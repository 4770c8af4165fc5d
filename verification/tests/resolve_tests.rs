use std::sync::Arc;

use prosemirror_model::attrs::Attrs;
use prosemirror_model::mark::Mark;
use prosemirror_model::node::{Fragment, Node};
use prosemirror_model::resolvedpos::ResolvedPos;
use prosemirror_model::schema::{MarkType, NodeType};

/// A stand-in identity for a type built in a test: types of one name are one type.
fn ident(name: &str) -> usize {
    name.bytes().fold(17usize, |h, b| h.wrapping_mul(31).wrapping_add(b as usize))
}

fn nt(name: &str, is_block: bool, inline_content: bool) -> Arc<NodeType> {
    Arc::new(NodeType {
        id: ident(name), name: name.into(), groups: vec![], is_block,
        is_text: name == "text", inline_content, mark_set: None, content_match: None,
    })
}

fn text_node(s: &str) -> Node {
    Node {
        node_type: nt("text", false, false),
        attrs: Attrs::new(), content: Fragment::empty(),
        marks: vec![], text: Some(s.into()),
    }
}

fn text_with_marks(s: &str, marks: Vec<Mark>) -> Node {
    Node {
        node_type: nt("text", false, false),
        attrs: Attrs::new(), content: Fragment::empty(),
        marks, text: Some(s.into()),
    }
}

/// doc(paragraph("hello")), the paragraph a textblock.
fn simple_doc() -> Node {
    let txt = text_node("hello");
    let para = Node {
        node_type: nt("paragraph", true, true),
        attrs: Attrs::new(),
        content: Fragment::from_array(vec![txt]),
        marks: vec![], text: None,
    };
    Node {
        node_type: nt("doc", true, false),
        attrs: Attrs::new(),
        content: Fragment::from_array(vec![para]),
        marks: vec![], text: None,
    }
}

// The node types of the standard test builder.
fn make_nt(name: &str, is_block: bool, groups: &[&str]) -> Arc<NodeType> {
    Arc::new(NodeType {
        id: ident(name), name: name.into(),
        groups: groups.iter().map(|s| s.to_string()).collect(),
        is_block,
        is_text: name == "text",
        inline_content: false,
        mark_set: None,
        content_match: None,
    })
}

fn test_schema() -> Vec<Arc<NodeType>> {
    let mut m = Vec::new();
    for (name, is_block, groups) in &[
        ("text", false, vec!["inline"]),
        ("image", false, vec!["inline"]),
        ("hard_break", false, vec!["inline"]),
        ("paragraph", true, vec!["block"]),
        ("heading", true, vec!["block"]),
        ("horizontal_rule", true, vec!["block"]),
        ("code_block", true, vec!["block"]),
        ("bullet_list", true, vec!["block"]),
        ("list_item", true, vec![]),
        ("blockquote", true, vec!["block"]),
        ("doc", true, vec![]),
    ] {
        m.push(make_nt(name, *is_block, groups));
    }
    m
}

fn get(schema: &[Arc<NodeType>], name: &str) -> Arc<NodeType> {
    Arc::clone(schema.iter().find(|t| t.name == name).unwrap())
}

fn node(nt: &Arc<NodeType>, children: Vec<Node>) -> Node {
    Node { node_type: Arc::clone(nt), attrs: Attrs::new(), content: Fragment::from_array(children), marks: vec![], text: None }
}

fn txt(schema: &[Arc<NodeType>], s: &str) -> Node {
    Node { node_type: get(schema, "text"), attrs: Attrs::new(), content: Fragment::empty(), marks: vec![], text: Some(s.into()) }
}

fn p(schema: &[Arc<NodeType>], children: Vec<Node>) -> Node {
    node(&get(schema, "paragraph"), children)
}
fn bq(schema: &[Arc<NodeType>], children: Vec<Node>) -> Node {
    node(&get(schema, "blockquote"), children)
}
fn doc(schema: &[Arc<NodeType>], children: Vec<Node>) -> Node {
    node(&get(schema, "doc"), children)
}

// ── resolve / depth / node ───────────────────────────────

#[test]
fn resolve_root_pos() {
    let doc = simple_doc();
    let rp = ResolvedPos::resolve(&doc, 0).unwrap();
    assert_eq!(rp.depth(), 0);
    assert_eq!(rp.parent().node_type.name, "doc");
}

#[test]
fn resolve_inside_paragraph() {
    let doc = simple_doc();
    // pos=1 is inside paragraph (start of content)
    let rp = ResolvedPos::resolve(&doc, 1).unwrap();
    assert_eq!(rp.depth(), 1);
    assert_eq!(rp.parent().node_type.name, "paragraph");
}

#[test]
fn resolve_inside_text() {
    let doc = simple_doc();
    // pos=3 is inside "hello" at char offset 2
    let rp = ResolvedPos::resolve(&doc, 3).unwrap();
    assert_eq!(rp.depth(), 1);
    assert_eq!(rp.text_offset(), 2);
}

// ── after() ─────────────────────────────────────

#[test]
fn after_returns_correct_position() {
    let doc = simple_doc();
    // paragraph: content.size=5, nodeSize=7
    // after(depth=1) should be 0 + 7 = 7
    let rp = ResolvedPos::resolve(&doc, 3).unwrap();
    let result = rp.after(Some(1)).unwrap();
    assert_eq!(result, 7, "after(1) should equal paragraph.nodeSize = 7");
}

#[test]
fn before_returns_correct_position() {
    let doc = simple_doc();
    let rp = ResolvedPos::resolve(&doc, 3).unwrap();
    let result = rp.before(Some(1)).unwrap();
    assert_eq!(result, 0, "before(1) should be 0 (start of doc content)");
}

#[test]
fn start_end_consistent_with_before_after() {
    let doc = simple_doc();
    let rp = ResolvedPos::resolve(&doc, 3).unwrap();
    assert_eq!(rp.start(Some(1)), 1); // inside paragraph: 0+1=1
    assert_eq!(rp.end(Some(1)), 6);   // 1 + content.size(5) = 6
}

// ── negative depths ────────────────────

#[test]
fn negative_depth_resolves_correctly() {
    let doc = simple_doc();
    let rp = ResolvedPos::resolve(&doc, 3).unwrap();
    // depth=1, node(Some(-1)) = node at depth 1+(-1)=0 = doc
    assert_eq!(rp.node(Some(-1)).node_type.name, "doc");
}

#[test]
#[should_panic]
fn negative_depth_out_of_range_panics() {
    let doc = simple_doc();
    let rp = ResolvedPos::resolve(&doc, 3).unwrap();
    // depth=1, Some(-2) → 1+(-2)=-1 → should panic
    rp.node(Some(-2));
}

// ── block_range ────────────────────────────────

#[test]
fn block_range_inside_textblock() {
    let doc = simple_doc();
    // Two positions inside the same textblock paragraph
    let rp1 = ResolvedPos::resolve(&doc, 2).unwrap();
    let rp2 = ResolvedPos::resolve(&doc, 4).unwrap();
    // paragraph is textblock → start_depth = depth-1 = 0
    // block_range should return depth=0 (doc level)
    let range = rp1.block_range(&rp2);
    assert!(range.is_some());
    let range = range.unwrap();
    assert_eq!(range.depth, 0, "should be at doc depth since parent is textblock");
}

// ── marks ─────────────────────────────────────

#[test]
fn marks_at_text_offset() {
    let bold_mt = Arc::new(MarkType {
        id: ident("bold"), name: "bold".into(), rank: 0, excluded: vec![], inclusive: None,
    });
    let bold = Mark { mark_type: Arc::clone(&bold_mt), attrs: Attrs::new() };
    let txt = text_with_marks("hello", vec![bold.clone()]);
    let para = Node {
        node_type: nt("paragraph", true, true),
        attrs: Attrs::new(),
        content: Fragment::from_array(vec![txt]),
        marks: vec![], text: None,
    };
    let doc = Node {
        node_type: nt("doc", true, false),
        attrs: Attrs::new(),
        content: Fragment::from_array(vec![para]),
        marks: vec![], text: None,
    };
    // pos=3 is inside "hello" with bold mark
    let rp = ResolvedPos::resolve(&doc, 3).unwrap();
    let marks = rp.marks();
    assert_eq!(marks.len(), 1);
    assert_eq!(marks[0].mark_type.name, "bold");
}

#[test]
fn marks_inclusive_false_filtered_at_boundary() {
    // Mark with inclusive=Some(false) should be filtered at boundary
    // when not present in the following node
    let exclusive_mt = Arc::new(MarkType {
        id: ident("link"), name: "link".into(), rank: 0, excluded: vec![], inclusive: Some(false),
    });
    let link = Mark { mark_type: Arc::clone(&exclusive_mt), attrs: Attrs::new() };
    // text "hello" with link, text " world" without
    let t1 = text_with_marks("hello", vec![link]);
    let t2 = text_node(" world");
    let para = Node {
        node_type: nt("paragraph", true, true),
        attrs: Attrs::new(),
        content: Fragment::from_array(vec![t1, t2]),
        marks: vec![], text: None,
    };
    let doc = Node {
        node_type: nt("doc", true, false),
        attrs: Attrs::new(),
        content: Fragment::from_array(vec![para]),
        marks: vec![], text: None,
    };
    // pos = 1+5 = 6 = boundary between "hello" and " world"
    let rp = ResolvedPos::resolve(&doc, 6).unwrap();
    let marks = rp.marks();
    // link has inclusive=false and doesn't appear in " world" → filtered out
    assert!(marks.is_empty(), "link mark should be filtered at boundary");
}

fn make_test_doc(s: &[Arc<NodeType>]) -> Node {
    let em_mark = Arc::new(MarkType { id: ident("em"), name: "em".into(), rank: 0, excluded: vec![], inclusive: None });
    let cd = Node { node_type: get(s, "text"), attrs: Attrs::new(),
                    content: Fragment::empty(), text: Some("cd".into()),
                    marks: vec![Mark { mark_type: em_mark, attrs: Attrs::new() }] };
    let ef = txt(s, "ef");
    let inner_p = p(s, vec![cd, ef]);
    let blk = bq(s, vec![inner_p]);
    let ab = txt(s, "ab");
    let p1 = p(s, vec![ab]);
    doc(s, vec![p1, blk])
}

#[test]
fn resolve_structure() {
    
    let s = test_schema();
    let d = make_test_doc(&s);

    // doc.content.size = p("ab").nodeSize + blockquote(...).nodeSize
    // p("ab"): content.size=2, nodeSize=4
    // inner_p(em("cd"),"ef"): content.size=4, nodeSize=6
    // blockquote(inner_p): content.size=6, nodeSize=8
    // doc.content.size = 4+8 = 12
    assert_eq!(d.content.size, 12, "doc.content.size");

    let rp0 = ResolvedPos::resolve(&d, 0).unwrap();
    // pos=0: depth=0, in doc, index=0, before p1
    assert_eq!(rp0.depth(), 0);
    assert_eq!(rp0.parent().node_type.name, "doc");
    assert_eq!(rp0.index(None), 0);

    let rp1 = ResolvedPos::resolve(&d, 1).unwrap();
    // pos=1: depth=1, in p1, parentOffset=0
    assert_eq!(rp1.depth(), 1);
    assert_eq!(rp1.parent().node_type.name, "paragraph");
    assert_eq!(rp1.parent_offset, 0);
    assert_eq!(rp1.start(Some(1)), 1);
    assert_eq!(rp1.end(Some(1)), 3); // 1+2=3

    let rp4 = ResolvedPos::resolve(&d, 4).unwrap();
    // pos=4: depth=0, after p1
    assert_eq!(rp4.depth(), 0);
    assert_eq!(rp4.parent_offset, 4);

    let rp5 = ResolvedPos::resolve(&d, 5).unwrap();
    // pos=5: depth=1, in blockquote, before inner_p
    assert_eq!(rp5.depth(), 1);
    assert_eq!(rp5.parent().node_type.name, "blockquote");
    assert_eq!(rp5.start(Some(1)), 5);
    assert_eq!(rp5.end(Some(1)), 11); // 5+6=11

    let rp6 = ResolvedPos::resolve(&d, 6).unwrap();
    // pos=6: depth=2, in inner_p
    assert_eq!(rp6.depth(), 2);
    assert_eq!(rp6.parent().node_type.name, "paragraph");
    assert_eq!(rp6.start(Some(2)), 6);
    assert_eq!(rp6.end(Some(2)), 10); // 6+4=10

    // before/after at depth 1 and 2
    // before(2) = start(2) - 1 = 5
    assert_eq!(rp6.before(Some(2)).unwrap(), 5);
    // after(2) = end(2) + 1 = 11
    assert_eq!(rp6.after(Some(2)).unwrap(), 11);

    // before(1) = start(1) - 1 = 4
    assert_eq!(rp6.before(Some(1)).unwrap(), 4);
    // after(1) = end(1) + 1 = 12
    assert_eq!(rp6.after(Some(1)).unwrap(), 12);

    let rp12 = ResolvedPos::resolve(&d, 12).unwrap();
    // pos=12: depth=0, after blockquote
    assert_eq!(rp12.depth(), 0);
    assert_eq!(rp12.parent_offset, 12);
}

#[test]
fn resolve_pos_at_index() {
    // doc(blockquote(p("one"), blockquote(p("two ", em("three")), p("four"))))
    
    let s = test_schema();
    let em_mark = Arc::new(MarkType { id: ident("em"), name: "em".into(), rank: 0, excluded: vec![], inclusive: None });
    let three = Node { node_type: get(&s, "text"), attrs: Attrs::new(),
                       content: Fragment::empty(), text: Some("three".into()),
                       marks: vec![Mark { mark_type: em_mark, attrs: Attrs::new() }] };
    let d = doc(&s, vec![
        bq(&s, vec![
            p(&s, vec![txt(&s, "one")]),
            bq(&s, vec![
                p(&s, vec![txt(&s, "two "), three]),
                p(&s, vec![txt(&s, "four")]),
            ]),
        ])
    ]);

    // Verify doc content size and then posAtIndex
    // outer bq: contains p("one") and inner bq
    // p("one").nodeSize = 5 (3 chars + 2 tags)
    // inner bq: contains p("two three") and p("four")
    // p("two ") = 4, em("three") = 5 → content.size=9, p.nodeSize=11
    // p("four").nodeSize = 6
    // inner bq.content.size = 11+6=17, nodeSize=19
    // outer bq.content.size = 5+19=24, nodeSize=26
    // doc.content.size = 26

    // Resolve at start of em("three") = pos 12 (approximately)
    // doc[0] = outer bq, bq.start=1
    // p("one").nodeSize=5, so after p("one") = pos 6
    // inner bq.start = 7
    // p("two three").content.size=9, p.start=8
    // "two " = 4 chars, em("three") starts at pos 8+4=12
    let rp = ResolvedPos::resolve(&d, 12).unwrap();

    // posAtIndex(0) at depth=2 = start of inner_p's content = 8
    // posAtIndex(1) at depth=2 = start of em("three") = 12
    assert_eq!(rp.pos_at_index(0, None), 8,  "posAtIndex(0) default depth");
    assert_eq!(rp.pos_at_index(1, None), 12, "posAtIndex(1) default depth");
}

