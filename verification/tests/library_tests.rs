use std::cell::Cell;
use std::sync::Arc;

use prosemirror_model::attrs::{AttrValue, Attrs};
use prosemirror_model::content::ContentMatch;
use prosemirror_model::fragment::FragmentInput;
use prosemirror_model::mark::Mark;
use prosemirror_model::node::{Fragment, Node};
use prosemirror_model::replace::{replace, Slice};
use prosemirror_model::resolvedpos::ResolvedPos;
use prosemirror_model::schema::{MarkType, NodeType, SchemaError};

/// A stand-in identity for a type built in a test: types of one name are one type.
fn ident(name: &str) -> usize {
    name.bytes().fold(17usize, |h, b| h.wrapping_mul(31).wrapping_add(b as usize))
}

fn leaf_type(name: &str, is_block: bool) -> Arc<NodeType> {
    Arc::new(NodeType {
        id: ident(name), name: name.into(), groups: vec![], is_block,
        is_text: name == "text", inline_content: false, mark_set: None, content_match: None,
    })
}

fn typed(name: &str, inline_content: bool, expr: &str, types: &[Arc<NodeType>]) -> Arc<NodeType> {
    Arc::new(NodeType {
        id: ident(name), name: name.into(), groups: vec![], is_block: true,
        is_text: false, inline_content, mark_set: None,
        content_match: Some(ContentMatch::parse(expr, types).unwrap()),
    })
}

/// text, paragraph ("text*") and doc ("paragraph+").
fn schema() -> (Arc<NodeType>, Arc<NodeType>, Arc<NodeType>) {
    let text = leaf_type("text", false);
    let para = typed("paragraph", true, "text*", &[Arc::clone(&text)]);
    let doc = typed("doc", false, "paragraph+", &[Arc::clone(&para)]);
    (text, para, doc)
}

fn t(nt: &Arc<NodeType>, s: &str) -> Node {
    Node { node_type: Arc::clone(nt), attrs: Attrs::new(), content: Fragment::empty(), marks: vec![], text: Some(s.into()) }
}

fn n(nt: &Arc<NodeType>, children: Vec<Node>) -> Node {
    Node { node_type: Arc::clone(nt), attrs: Attrs::new(), content: Fragment::from_array(children), marks: vec![], text: None }
}

fn mt(name: &str, rank: usize) -> Arc<MarkType> {
    Arc::new(MarkType { id: ident(name), name: name.into(), rank, excluded: vec![], inclusive: None })
}

fn mk(m: &Arc<MarkType>) -> Mark {
    Mark::new(Arc::clone(m), Attrs::new())
}

fn names(ms: &[Mark]) -> Vec<String> {
    ms.iter().map(|m| m.mark_type.name.clone()).collect()
}

// ── marks ─────────────────────────────────────────────────

#[test]
fn add_to_set_twice_is_adding_once() {
    let em = mt("em", 1);
    let strong = mt("strong", 2);
    let set = vec![mk(&strong)];
    let once = mk(&em).add_to_set(&set);
    let twice = mk(&em).add_to_set(&once);
    assert!(Mark::same_set(&once, &twice));
    assert_eq!(names(&twice), vec!["em", "strong"]);
}

#[test]
fn remove_from_set_undoes_add_to_set() {
    let em = mt("em", 1);
    let code = mt("code", 3);
    let set = vec![mk(&em), mk(&code)];
    let added = mk(&mt("strong", 2)).add_to_set(&set);
    assert_eq!(names(&added), vec!["em", "strong", "code"]);
    let removed = mk(&mt("strong", 2)).remove_from_set(&added);
    assert!(Mark::same_set(&removed, &set));
}

#[test]
fn set_from_is_a_stable_sort_by_rank() {
    let a = mt("a", 2);
    let b = mt("b", 1);
    let c = mt("c", 2);
    let d = mt("d", 0);
    let sorted = Mark::set_from(&[mk(&a), mk(&b), mk(&c), mk(&d)]);
    assert_eq!(names(&sorted), vec!["d", "b", "a", "c"]);
    assert!(Mark::none().is_empty());
}

#[test]
fn nan_attribute_marks_are_not_equal_to_themselves() {
    let mut attrs = Attrs::new();
    attrs.insert("x".into(), AttrValue::Float(f64::NAN.to_bits()));
    let m = Mark::new(mt("m", 0), attrs);
    assert!(!m.eq(&m));
    let mut zero = Attrs::new();
    zero.insert("x".into(), AttrValue::Float(0.0f64.to_bits()));
    let mut neg_zero = Attrs::new();
    neg_zero.insert("x".into(), AttrValue::Float((-0.0f64).to_bits()));
    assert!(zero.equals(&neg_zero));
}

// ── fragments ─────────────────────────────────────────────

#[test]
fn from_array_joins_text_and_keeps_size() {
    let (text, _, _) = schema();
    let f = Fragment::from_array(vec![t(&text, "ab"), t(&text, "cd")]);
    assert_eq!(f.child_count(), 1);
    assert_eq!(f.child(0).text(), Some("abcd"));
    assert_eq!(f.size, 4);
}

#[test]
fn append_adds_sizes_and_merges_text() {
    let (text, para, _) = schema();
    let a = Fragment::from_array(vec![n(&para, vec![]), t(&text, "x")]);
    let b = Fragment::from_array(vec![t(&text, "y"), n(&para, vec![])]);
    let c = a.append(&b);
    assert_eq!(c.size, a.size + b.size);
    assert_eq!(c.child_count(), 3);
    assert_eq!(c.child(1).text(), Some("xy"));
}

#[test]
fn cut_inside_a_node() {
    let (text, para, _) = schema();
    let f = Fragment::from_array(vec![n(&para, vec![t(&text, "hello")])]);
    let c = f.cut(2, Some(5));
    assert_eq!(c.size, 5);
    assert_eq!(c.child(0).content.child(0).text(), Some("ell"));
    let whole = f.cut(0, None);
    assert!(whole.eq(&f));
}

#[test]
fn find_index_positions() {
    let (text, para, _) = schema();
    let f = Fragment::from_array(vec![n(&para, vec![t(&text, "ab")]), n(&para, vec![t(&text, "cd")])]);
    assert_eq!(f.find_index(0), (0, 0));
    assert_eq!(f.find_index(4), (1, 4));
    assert_eq!(f.find_index(5), (1, 4));
    assert_eq!(f.find_index(8), (2, 8));
}

#[test]
fn cut_by_index_and_children() {
    let (text, para, _) = schema();
    let f = Fragment::from_array(vec![t(&text, "a"), n(&para, vec![]), t(&text, "b")]);
    assert_eq!(f.cut_by_index(1, 3).child_count(), 2);
    assert_eq!(f.cut_by_index(1, 1).child_count(), 0);
    assert!(f.maybe_child(3).is_none());
    assert_eq!(f.first_child().unwrap().text(), Some("a"));
    assert_eq!(f.last_child().unwrap().text(), Some("b"));
    let g = f.replace_child(1, t(&text, "zz"));
    assert_eq!(g.size, f.size - 2 + 2);
    let h = f.add_to_start(t(&text, "s")).add_to_end(n(&para, vec![]));
    assert_eq!(h.child_count(), 5);
    assert_eq!(h.size, f.size + 1 + 2);
    let from_node = Fragment::from(FragmentInput::Node(t(&text, "q")));
    assert_eq!(from_node.size, 1);
    assert_eq!(Fragment::from(FragmentInput::Nothing).size, 0);
}

#[test]
fn for_each_and_nodes_between() {
    let (text, para, _) = schema();
    let f = Fragment::from_array(vec![n(&para, vec![t(&text, "ab")]), n(&para, vec![t(&text, "cd")])]);
    let mut seen: Vec<(usize, usize)> = vec![];
    f.for_each(|_, pos, i| seen.push((pos, i)));
    assert_eq!(seen, vec![(0, 0), (4, 1)]);
    let count = Cell::new(0usize);
    f.nodes_between(1, 5, &|_, _, _, _| { count.set(count.get() + 1); true }, 0, None);
    assert_eq!(count.get(), 3);
}

// ── content matching ──────────────────────────────────────

#[test]
fn parse_errors_name_the_expression() {
    let (text, para, _) = schema();
    let types = vec![text, para];
    assert_eq!(ContentMatch::parse("foo", &types).unwrap_err(),
        "No node type or group 'foo' found (in content expression 'foo')");
    assert_eq!(ContentMatch::parse("paragraph )", &types).unwrap_err(),
        "Unexpected trailing text (in content expression 'paragraph )')");
    assert_eq!(ContentMatch::parse("text", &types).unwrap_err(),
        "Only non-generatable nodes (text) in a required position (in content expression 'text')");
}

#[test]
fn create_and_fill_fills_required_content() {
    let (_, _, doc) = schema();
    let filled = doc.create_and_fill().unwrap();
    assert_eq!(filled.content.child_count(), 1);
    assert_eq!(filled.content.child(0).node_type.name, "paragraph");
    assert_eq!(filled.node_size(), 4);
}

#[test]
fn find_wrapping_through_a_wrapper() {
    let para = leaf_type("paragraph", true);
    let quote = typed("blockquote", false, "paragraph+", &[Arc::clone(&para)]);
    let doc_match = ContentMatch::parse("blockquote+", &[Arc::clone(&quote)]).unwrap();
    let w = doc_match.find_wrapping(&para).unwrap();
    assert_eq!(w.len(), 1);
    assert_eq!(w[0].name, "blockquote");
}

#[test]
fn find_wrapping_none_when_no_wrapper_holds_the_node() {
    let para = leaf_type("paragraph", true);
    let heading = leaf_type("heading", true);
    let quote = typed("blockquote", false, "heading+", &[Arc::clone(&heading)]);
    let doc_match = ContentMatch::parse("blockquote+", &[Arc::clone(&quote)]).unwrap();
    assert!(doc_match.find_wrapping(&para).is_none());
    let w = doc_match.find_wrapping(&heading).unwrap();
    assert_eq!(w.len(), 1);
}

#[test]
fn every_word_of_the_expression_is_accepted() {
    let para = leaf_type("paragraph", true);
    let head = leaf_type("heading", true);
    let cm = ContentMatch::parse("heading (paragraph | heading)* paragraph+", &[Arc::clone(&para), Arc::clone(&head)]).unwrap();
    let s1 = cm.match_type(&head).unwrap();
    assert!(!s1.valid_end);
    let s2 = s1.match_type(&para).unwrap();
    let s3 = s2.match_type(&head).unwrap();
    let s4 = s3.match_type(&para).unwrap();
    assert!(s4.valid_end);
    assert!(cm.match_type(&para).is_none());
}

#[test]
fn open_range_in_a_choice_accepts_more_than_its_words() {
    let para = leaf_type("paragraph", true);
    let head = leaf_type("heading", true);
    let cm = ContentMatch::parse("(paragraph{0,} | heading)", &[Arc::clone(&para), Arc::clone(&head)]).unwrap();
    let s1 = cm.match_type(&para).unwrap();
    let s2 = s1.match_type(&head).unwrap();
    assert!(s2.valid_end);
}

#[test]
fn content_match_at_and_can_replace() {
    let (text, para, doc) = schema();
    let d = n(&doc, vec![n(&para, vec![t(&text, "a")])]);
    assert!(d.content_match_at(1).unwrap().valid_end);
    let extra = Fragment::from_array(vec![n(&para, vec![])]);
    assert!(d.can_replace(1, 1, &extra, 0, 1));
    let bad = Fragment::from_array(vec![t(&text, "x")]);
    assert!(!d.can_replace(0, 1, &bad, 0, 1));
    assert!(!d.can_replace(0, 1, &bad, 0, 0));
    assert_eq!(para.check_content(&Fragment::from_array(vec![n(&para, vec![])])).unwrap_err(),
        "Invalid content for node paragraph");
}

// ── positions ─────────────────────────────────────────────

#[test]
fn resolve_out_of_range_and_neighbours() {
    let (text, para, doc) = schema();
    let d = n(&doc, vec![n(&para, vec![t(&text, "ab")]), n(&para, vec![t(&text, "cd")])]);
    assert_eq!(ResolvedPos::resolve(&d, 99).unwrap_err(), "Position 99 out of range");
    let rp = ResolvedPos::resolve(&d, 2).unwrap();
    assert_eq!(rp.node_after().unwrap().text(), Some("b"));
    assert_eq!(rp.node_before().unwrap().text(), Some("a"));
    assert_eq!(rp.index_after(None), 1);
    assert_eq!(rp.shared_depth(6), 0);
    assert_eq!(rp.shared_depth(3), 1);
    let other = ResolvedPos::resolve(&d, 6).unwrap();
    assert!(!rp.same_parent(&other));
    assert_eq!(rp.max(&other).pos, 6);
    assert_eq!(rp.min(&other).pos, 2);
    let range = rp.block_range(&other).unwrap();
    assert_eq!(range.depth, 0);
    assert_eq!(range.start(), 0);
    assert_eq!(range.end(), 8);
    assert_eq!(range.start_index(), 0);
    assert_eq!(range.end_index(), 2);
    assert_eq!(range.parent().node_type.name, "doc");
    assert_eq!(rp.doc().node_type.name, "doc");
    assert_eq!(rp.before(Some(0)).unwrap_err(), "There is no position before the top-level node");
    assert_eq!(rp.after(Some(0)).unwrap_err(), "There is no position after the top-level node");
}

// ── slices and replace ────────────────────────────────────

#[test]
fn replace_text_inside_a_paragraph() {
    let (text, para, doc) = schema();
    let d = n(&doc, vec![n(&para, vec![t(&text, "hello")])]);
    let from = ResolvedPos::resolve(&d, 2).unwrap();
    let to = ResolvedPos::resolve(&d, 4).unwrap();
    let slice = Slice::new(Fragment::from_array(vec![t(&text, "XY")]), 0, 0);
    let r = replace(&from, &to, &slice).unwrap();
    assert_eq!(r.content.child(0).content.child(0).text(), Some("hXYlo"));
    assert_eq!(r.content.size, 7);
}

#[test]
fn replace_joins_paragraphs_across_a_deleted_range() {
    let (text, para, doc) = schema();
    let d = n(&doc, vec![n(&para, vec![t(&text, "ab")]), n(&para, vec![t(&text, "cd")])]);
    let from = ResolvedPos::resolve(&d, 2).unwrap();
    let to = ResolvedPos::resolve(&d, 6).unwrap();
    let r = replace(&from, &to, &Slice::empty()).unwrap();
    assert_eq!(r.content.child_count(), 1);
    assert_eq!(r.content.child(0).content.child(0).text(), Some("ad"));
}

#[test]
fn replace_reports_bad_open_depths() {
    let (text, para, doc) = schema();
    let d = n(&doc, vec![n(&para, vec![t(&text, "ab")])]);
    let from = ResolvedPos::resolve(&d, 2).unwrap();
    let to = ResolvedPos::resolve(&d, 2).unwrap();
    let deep = Slice::new(Fragment::from_array(vec![t(&text, "x")]), 5, 0);
    assert_eq!(replace(&from, &to, &deep).unwrap_err().0, "Inserted content deeper than insertion position");
    let uneven = Slice::new(Fragment::from_array(vec![n(&para, vec![t(&text, "x")])]), 1, 0);
    assert_eq!(replace(&from, &to, &uneven).unwrap_err().0, "Inconsistent open depths");
}

#[test]
fn slice_then_replace_gives_the_document_back() {
    let (text, para, doc) = schema();
    let d = n(&doc, vec![n(&para, vec![t(&text, "ab")]), n(&para, vec![t(&text, "cd")])]);
    let s = d.slice(2, 6).unwrap();
    assert_eq!((s.open_start, s.open_end), (1, 1));
    assert_eq!(s.size(), 4);
    let from = ResolvedPos::resolve(&d, 2).unwrap();
    let to = ResolvedPos::resolve(&d, 6).unwrap();
    let r = replace(&from, &to, &s).unwrap();
    assert!(r.eq(&d));
    assert_eq!(r.content.find_diff_start(&d.content, 0), None);
    assert_eq!(d.slice(3, 2).unwrap_err(), "slice(3, 2) out of range (size=8)");
}

#[test]
fn slice_insert_and_remove() {
    let (text, para, _) = schema();
    let s = Slice::new(Fragment::from_array(vec![n(&para, vec![t(&text, "abc")])]), 1, 1);
    let ins = s.insert_at(1, &Fragment::from_array(vec![t(&text, "X")])).unwrap();
    assert_eq!(ins.content.child(0).content.child(0).text(), Some("aXbc"));
    let rem = s.remove_between(0, 2).unwrap();
    assert_eq!(rem.content.child(0).content.child(0).text(), Some("c"));
    assert!(s.eq(&Slice::new(s.content.clone(), 1, 1)));
}

// ── errors ────────────────────────────────────────────────

#[test]
fn schema_error_messages() {
    assert_eq!(SchemaError::EmptyNodes.message(), "Schema must have at least one node type");
    assert_eq!(SchemaError::UnknownMarkRef("x".into()).message(), "Unknown mark type: x");
    assert_eq!(SchemaError::ContentParseError("bad".into()).message(), "Content parse error: bad");
}

#[test]
fn cut_by_index_copies_children_as_they_are() {
    let (text, para, _) = schema();
    let f = Fragment::from_array(vec![t(&text, "a")]).add_to_end(t(&text, "b")).add_to_end(n(&para, vec![]));
    assert_eq!(f.child_count(), 3);
    let r = f.cut_by_index(0, 2);
    assert_eq!(r.child_count(), 2);
    assert_eq!(r.child(0).text(), Some("a"));
    assert_eq!(r.child(1).text(), Some("b"));
    assert_eq!(r.size, 2);
}

#[test]
fn node_equality_compares_text() {
    let (text, _, _) = schema();
    assert!(!t(&text, "foo").eq(&t(&text, "bar")));
    assert!(t(&text, "foo").eq(&t(&text, "foo")));
}

#[test]
fn nodes_between_on_an_empty_range_at_the_start_calls_nothing() {
    let (text, para, _) = schema();
    let f = Fragment::from_array(vec![n(&para, vec![t(&text, "ab")])]);
    let count = Cell::new(0usize);
    f.nodes_between(0, 0, &|_, _, _, _| { count.set(count.get() + 1); true }, 0, None);
    assert_eq!(count.get(), 0);
}

#[test]
fn replace_with_a_slice_open_deeper_at_its_end() {
    let (text, para, doc) = schema();
    let d = n(&doc, vec![n(&para, vec![t(&text, "ab")])]);
    let from = ResolvedPos::resolve(&d, 2).unwrap();
    let to = ResolvedPos::resolve(&d, 2).unwrap();
    let inner = n(&para, vec![n(&para, vec![t(&text, "x")])]);
    let slice = Slice::new(Fragment::from_array(vec![inner]), 1, 3);
    assert_eq!(replace(&from, &to, &slice).unwrap_err().0, "Inconsistent open depths");
}

#[test]
fn find_wrapping_gives_the_whole_chain_outermost_first() {
    let text = leaf_type("text", false);
    let para = typed("paragraph", true, "text*", &[Arc::clone(&text)]);
    let quote = typed("blockquote", false, "paragraph+", &[Arc::clone(&text), Arc::clone(&para)]);
    let doc_match = ContentMatch::parse("blockquote+", &[Arc::clone(&text), Arc::clone(&para), Arc::clone(&quote)]).unwrap();
    let w = doc_match.find_wrapping(&text).unwrap();
    assert_eq!(w.len(), 2);
    assert_eq!(w[0].name, "blockquote");
    assert_eq!(w[1].name, "paragraph");
}

#[test]
fn the_empty_expression_compiles_to_a_single_accepting_state() {
    let cm = ContentMatch::parse("", &[]).unwrap();
    assert!(cm.valid_end);
    assert_eq!(cm.edge_count(), 0);
}

#[test]
fn create_and_fill_fills_until_the_content_is_valid() {
    let para = leaf_type("paragraph", true);
    let doc = typed("doc", false, "paragraph{2}", &[Arc::clone(&para)]);
    let filled = doc.create_and_fill().unwrap();
    assert_eq!(filled.content.child_count(), 2);
    assert_eq!(filled.content.child(0).node_type.name, "paragraph");
    assert_eq!(filled.content.child(1).node_type.name, "paragraph");
    assert!(doc.valid_content(&filled.content));
}

#[test]
fn create_and_fill_fills_nested_required_content() {
    let (_, para, _) = schema();
    let quote = typed("blockquote", false, "paragraph+", &[Arc::clone(&para)]);
    let doc = typed("doc", false, "blockquote", &[Arc::clone(&quote)]);
    let filled = doc.create_and_fill().unwrap();
    assert_eq!(filled.content.child_count(), 1);
    assert_eq!(filled.content.child(0).content.child_count(), 1);
    assert_eq!(filled.node_size(), 6);
}

#[test]
fn create_and_fill_without_a_way_to_fill_gives_nothing() {
    let (text, _, _) = schema();
    let image = leaf_type("image", false);
    let ends_in_text = typed("caption", true, "image* text", &[Arc::clone(&text), Arc::clone(&image)]);
    assert!(ends_in_text.create_and_fill().is_none());
}

#[test]
fn unicode_spaces_separate_names_in_an_expression() {
    let para = leaf_type("paragraph", true);
    let cm = ContentMatch::parse("paragraph\u{3000}paragraph\u{2003}", &[Arc::clone(&para)]).unwrap();
    let s1 = cm.match_type(&para).unwrap();
    assert!(!s1.valid_end);
    let s2 = s1.match_type(&para).unwrap();
    assert!(s2.valid_end);
}

#[test]
fn types_built_apart_are_not_the_same_type() {
    let p1 = Arc::new(NodeType {
        id: 1, name: "p".into(), groups: vec![], is_block: true,
        is_text: false, inline_content: false, mark_set: None, content_match: None,
    });
    let p2 = Arc::new(NodeType {
        id: 2, name: "p".into(), groups: vec![], is_block: true,
        is_text: false, inline_content: false, mark_set: None, content_match: None,
    });
    assert!(!p1.compatible_content(&p2));
    assert!(p1.compatible_content(&p1));
}

#[test]
fn marks_of_types_built_apart_differ() {
    let a = Arc::new(MarkType { id: 1, name: "link".into(), rank: 0, excluded: vec![], inclusive: None });
    let b = Arc::new(MarkType { id: 2, name: "link".into(), rank: 0, excluded: vec![], inclusive: None });
    assert!(!mk(&a).eq(&mk(&b)));
    assert!(mk(&a).eq(&mk(&a)));
}

#[test]
fn a_plus_needs_at_least_one() {
    let para = leaf_type("paragraph", true);
    let cm = ContentMatch::parse("paragraph+", &[Arc::clone(&para)]).unwrap();
    assert!(!cm.valid_end);
    let s1 = cm.match_type(&para).unwrap();
    assert!(s1.valid_end);
}
