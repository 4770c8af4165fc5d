use std::sync::Arc;

use prosemirror_model::attrs::Attrs;
use prosemirror_model::content::ContentMatch;
use prosemirror_model::node::{Fragment, Node};
use prosemirror_model::schema::NodeType;

/// A stand-in identity for a type built in a test: types of one name are one type.
fn ident(name: &str) -> usize {
    name.bytes().fold(17usize, |h, b| h.wrapping_mul(31).wrapping_add(b as usize))
}

// The test schema: the node types of the standard test builder.

fn make_nt(name: &str, is_block: bool, groups: &[&str]) -> Arc<NodeType> {
    Arc::new(NodeType {
        id: ident(name), name: name.into(),
        groups: groups.iter().map(|s| s.to_string()).collect(),
        is_block,
        is_text: name == "text",
        inline_content: false,
        mark_set: None,
        content_match: None,
    })
}

fn test_schema() -> Vec<Arc<NodeType>> {
    let mut m = Vec::new();
    for (name, is_block, groups) in &[
        ("text", false, vec!["inline"]),
        ("image", false, vec!["inline"]),
        ("hard_break", false, vec!["inline"]),
        ("paragraph", true, vec!["block"]),
        ("heading", true, vec!["block"]),
        ("horizontal_rule", true, vec!["block"]),
        ("code_block", true, vec!["block"]),
        ("bullet_list", true, vec!["block"]),
        ("list_item", true, vec![]),
        ("blockquote", true, vec!["block"]),
        ("doc", true, vec![]),
    ] {
        m.push(make_nt(name, *is_block, groups));
    }
    m
}

fn get(schema: &[Arc<NodeType>], name: &str) -> Option<Arc<NodeType>> {
    schema.iter().find(|t| t.name == name).map(Arc::clone)
}

fn node(nt: &Arc<NodeType>, children: Vec<Node>) -> Node {
    Node { node_type: Arc::clone(nt), attrs: Attrs::new(), content: Fragment::from_array(children), marks: vec![], text: None }
}

fn p(schema: &[Arc<NodeType>], children: Vec<Node>) -> Node {
    node(&get(schema, "paragraph").unwrap(), children)
}
fn hr(schema: &[Arc<NodeType>]) -> Node {
    node(&get(schema, "horizontal_rule").unwrap(), vec![])
}
fn br(schema: &[Arc<NodeType>]) -> Node {
    node(&get(schema, "hard_break").unwrap(), vec![])
}
fn h1(schema: &[Arc<NodeType>], children: Vec<Node>) -> Node {
    node(&get(schema, "heading").unwrap(), children)
}
fn pre(schema: &[Arc<NodeType>], children: Vec<Node>) -> Node {
    node(&get(schema, "code_block").unwrap(), children)
}
fn img(schema: &[Arc<NodeType>]) -> Node {
    node(&get(schema, "image").unwrap(), vec![])
}

/// Matches the types in turn and reports whether the end is valid.
fn match_types(expr: &str, types_str: &str, schema: &[Arc<NodeType>]) -> bool {
    let cm = match ContentMatch::parse(expr, schema) {
        Ok(cm) => cm,
        Err(_) => return false,
    };
    let ts: Vec<Arc<NodeType>> = if types_str.is_empty() {
        vec![]
    } else {
        types_str.split(' ').filter_map(|t| get(schema, t)).collect()
    };
    let mut state: Option<Arc<ContentMatch>> = Some(cm);
    for t in &ts {
        state = state.and_then(|s| s.match_type(t));
    }
    state.map(|s| s.valid_end).unwrap_or(false)
}

fn valid(expr: &str, types: &str, schema: &[Arc<NodeType>]) {
    assert!(match_types(expr, types, schema), "expected valid: expr={:?} types={:?}", expr, types);
}
fn invalid(expr: &str, types: &str, schema: &[Arc<NodeType>]) {
    assert!(!match_types(expr, types, schema), "expected invalid: expr={:?} types={:?}", expr, types);
}

/// Compares fragments by node names and structure.
fn assert_frag_eq(a: &Fragment, b: &Fragment, ctx: &str) {
    assert_eq!(a.child_count(), b.child_count(),
        "{}: child count mismatch (got {}, expected {})", ctx, a.child_count(), b.child_count());
    for i in 0..a.child_count() {
        let na = a.child(i);
        let nb = b.child(i);
        assert_eq!(na.node_type.name, nb.node_type.name, "{}: node[{}] type mismatch", ctx, i);
        assert_frag_eq(&na.content, &nb.content, ctx);
    }
}

fn fill_test(
    expr: &str,
    before_frag: Fragment,
    after_frag: Fragment,
    result: Option<Fragment>,
    schema: &[Arc<NodeType>],
) {
    let cm = ContentMatch::parse(expr, schema).expect("parse");
    let state = cm.match_fragment(&before_frag, 0, before_frag.child_count());
    let filled = state.and_then(|s| s.fill_before(&after_frag, true, 0));
    match result {
        Some(expected) => {
            let filled = filled.expect("expected fill_before to succeed");
            assert_frag_eq(&filled, &expected, expr);
        }
        None => {
            assert!(filled.is_none(), "expected fill_before to fail for {:?}", expr);
        }
    }
}

fn fill3_test(
    expr: &str,
    before_frag: Fragment,
    mid_frag: Fragment,
    after_frag: Fragment,
    left: Option<Fragment>,
    right: Option<Fragment>,
    schema: &[Arc<NodeType>],
) {
    let cm = ContentMatch::parse(expr, schema).expect("parse");
    let a = cm.match_fragment(&before_frag, 0, before_frag.child_count())
        .and_then(|s| s.fill_before(&mid_frag, false, 0));
    let b = a.as_ref().and_then(|a_fill| {
        let combined = before_frag.append(a_fill).append(&mid_frag);
        cm.match_fragment(&combined, 0, combined.child_count())
            .and_then(|s| s.fill_before(&after_frag, true, 0))
    });
    match left {
        Some(l) => {
            let a = a.expect("expected a to succeed");
            let b = b.expect("expected b to succeed");
            assert_frag_eq(&a, &l, &format!("{} left", expr));
            assert_frag_eq(&b, &right.unwrap(), &format!("{} right", expr));
        }
        None => {
            assert!(b.is_none(), "expected fill3 to fail for {:?}", expr);
        }
    }
}

#[test]
fn content_accepts_empty_for_empty_expr() {
    let s = test_schema();
    valid("", "", &s);
}

#[test]
fn content_rejects_content_in_empty_expr() {
    let s = test_schema();
    invalid("", "image", &s);
}

#[test]
fn content_star_matches_nothing() {
    let s = test_schema();
    valid("image*", "", &s);
}

#[test]
fn content_star_matches_one() {
    let s = test_schema();
    valid("image*", "image", &s);
}

#[test]
fn content_star_matches_multiple() {
    let s = test_schema();
    valid("image*", "image image image image", &s);
}

#[test]
fn content_star_rejects_wrong_type() {
    let s = test_schema();
    invalid("image*", "image text", &s);
}

#[test]
fn content_group_matches_members() {
    let s = test_schema();
    valid("inline*", "image text", &s);
}

#[test]
fn content_group_rejects_non_members() {
    let s = test_schema();
    invalid("inline*", "paragraph", &s);
}

#[test]
fn content_choice_matches_one() {
    let s = test_schema();
    valid("(paragraph | heading)", "paragraph", &s);
}

#[test]
fn content_choice_rejects_unmentioned() {
    let s = test_schema();
    invalid("(paragraph | heading)", "image", &s);
}

#[test]
fn content_sequence_matches() {
    let s = test_schema();
    valid("paragraph horizontal_rule paragraph",
          "paragraph horizontal_rule paragraph", &s);
}

#[test]
fn content_sequence_too_long() {
    let s = test_schema();
    invalid("paragraph horizontal_rule",
            "paragraph horizontal_rule paragraph", &s);
}

#[test]
fn content_sequence_too_short() {
    let s = test_schema();
    invalid("paragraph horizontal_rule paragraph",
            "paragraph horizontal_rule", &s);
}

#[test]
fn content_sequence_starts_wrong() {
    let s = test_schema();
    invalid("paragraph horizontal_rule",
            "horizontal_rule paragraph horizontal_rule", &s);
}

#[test]
fn content_seq_star_zero() {
    let s = test_schema();
    valid("heading paragraph*", "heading", &s);
}

#[test]
fn content_seq_star_multiple() {
    let s = test_schema();
    valid("heading paragraph*", "heading paragraph paragraph", &s);
}

#[test]
fn content_seq_plus_one() {
    let s = test_schema();
    valid("heading paragraph+", "heading paragraph", &s);
}

#[test]
fn content_seq_plus_multiple() {
    let s = test_schema();
    valid("heading paragraph+", "heading paragraph paragraph", &s);
}

#[test]
fn content_seq_plus_zero_fails() {
    let s = test_schema();
    invalid("heading paragraph+", "heading", &s);
}

#[test]
fn content_seq_plus_misses_start() {
    let s = test_schema();
    invalid("heading paragraph+", "paragraph paragraph", &s);
}

#[test]
fn content_opt_present() {
    let s = test_schema();
    valid("image?", "image", &s);
}

#[test]
fn content_opt_absent() {
    let s = test_schema();
    valid("image?", "", &s);
}

#[test]
fn content_opt_twice_fails() {
    let s = test_schema();
    invalid("image?", "image image", &s);
}

#[test]
fn content_nested_repeat() {
    let s = test_schema();
    valid("(heading paragraph+)+",
          "heading paragraph heading paragraph paragraph", &s);
}

#[test]
fn content_nested_repeat_extra_fails() {
    let s = test_schema();
    invalid("(heading paragraph+)+",
            "heading paragraph heading paragraph paragraph horizontal_rule", &s);
}

#[test]
fn content_count_exact() {
    let s = test_schema();
    valid("hard_break{2}", "hard_break hard_break", &s);
}

#[test]
fn content_count_short_fails() {
    let s = test_schema();
    invalid("hard_break{2}", "hard_break", &s);
}

#[test]
fn content_count_too_many_fails() {
    let s = test_schema();
    invalid("hard_break{2}", "hard_break hard_break hard_break", &s);
}

#[test]
fn content_range_lower() {
    let s = test_schema();
    valid("hard_break{2, 4}", "hard_break hard_break", &s);
}

#[test]
fn content_range_upper() {
    let s = test_schema();
    valid("hard_break{2, 4}", "hard_break hard_break hard_break hard_break", &s);
}

#[test]
fn content_range_between() {
    let s = test_schema();
    valid("hard_break{2, 4}", "hard_break hard_break hard_break", &s);
}

#[test]
fn content_range_too_few_fails() {
    let s = test_schema();
    invalid("hard_break{2, 4}", "hard_break", &s);
}

#[test]
fn content_range_too_many_fails() {
    let s = test_schema();
    invalid("hard_break{2, 4}",
            "hard_break hard_break hard_break hard_break hard_break", &s);
}

#[test]
fn content_range_bad_element_after() {
    let s = test_schema();
    invalid("hard_break{2, 4} text*", "hard_break hard_break image", &s);
}

#[test]
fn content_range_good_element_after() {
    let s = test_schema();
    valid("hard_break{2, 4} image?", "hard_break hard_break image", &s);
}

#[test]
fn content_open_range_exact() {
    let s = test_schema();
    valid("hard_break{2,}", "hard_break hard_break", &s);
}

#[test]
fn content_open_range_many() {
    let s = test_schema();
    valid("hard_break{2,}", "hard_break hard_break hard_break hard_break", &s);
}

#[test]
fn content_open_range_too_few() {
    let s = test_schema();
    invalid("hard_break{2,}", "hard_break", &s);
}


#[test]
fn fill_empty_when_things_match() {
    let s = test_schema();
    fill_test(
        "paragraph horizontal_rule paragraph",
        Fragment::from_array(vec![p(&s, vec![]), hr(&s)]),
        Fragment::from_array(vec![p(&s, vec![])]),
        Some(Fragment::empty()),
        &s,
    );
}

#[test]
fn fill_adds_node_when_necessary() {
    let s = test_schema();
    fill_test(
        "paragraph horizontal_rule paragraph",
        Fragment::from_array(vec![p(&s, vec![])]),
        Fragment::from_array(vec![p(&s, vec![])]),
        Some(Fragment::from_array(vec![hr(&s)])),
        &s,
    );
}

#[test]
fn fill_star_across_bound() {
    let s = test_schema();
    fill_test(
        "hard_break*",
        Fragment::from_array(vec![br(&s)]),
        Fragment::from_array(vec![br(&s)]),
        Some(Fragment::empty()),
        &s,
    );
}

#[test]
fn fill_star_only_left() {
    let s = test_schema();
    fill_test(
        "hard_break*",
        Fragment::from_array(vec![br(&s)]),
        Fragment::empty(),
        Some(Fragment::empty()),
        &s,
    );
}

#[test]
fn fill_star_only_right() {
    let s = test_schema();
    fill_test(
        "hard_break*",
        Fragment::empty(),
        Fragment::from_array(vec![br(&s)]),
        Some(Fragment::empty()),
        &s,
    );
}

#[test]
fn fill_star_no_elements() {
    let s = test_schema();
    fill_test("hard_break*", Fragment::empty(), Fragment::empty(), Some(Fragment::empty()), &s);
}

#[test]
fn fill_plus_across_bound() {
    let s = test_schema();
    fill_test(
        "hard_break+",
        Fragment::from_array(vec![br(&s)]),
        Fragment::from_array(vec![br(&s)]),
        Some(Fragment::empty()),
        &s,
    );
}

#[test]
fn fill_plus_adds_element() {
    let s = test_schema();
    fill_test(
        "hard_break+",
        Fragment::empty(),
        Fragment::empty(),
        Some(Fragment::from_array(vec![br(&s)])),
        &s,
    );
}

#[test]
fn fill_plus_mismatched_fails() {
    let s = test_schema();
    fill_test(
        "hard_break+",
        Fragment::empty(),
        Fragment::from_array(vec![img(&s)]),
        None,
        &s,
    );
}

#[test]
fn fill_heading_star_para_star_both() {
    let s = test_schema();
    fill_test(
        "heading* paragraph*",
        Fragment::from_array(vec![h1(&s, vec![])]),
        Fragment::from_array(vec![p(&s, vec![])]),
        Some(Fragment::empty()),
        &s,
    );
}

#[test]
fn fill_heading_star_para_star_no_after() {
    let s = test_schema();
    fill_test(
        "heading* paragraph*",
        Fragment::from_array(vec![h1(&s, vec![])]),
        Fragment::empty(),
        Some(Fragment::empty()),
        &s,
    );
}

#[test]
fn fill_heading_plus_para_plus_both() {
    let s = test_schema();
    fill_test(
        "heading+ paragraph+",
        Fragment::from_array(vec![h1(&s, vec![])]),
        Fragment::from_array(vec![p(&s, vec![])]),
        Some(Fragment::empty()),
        &s,
    );
}

#[test]
fn fill_heading_plus_para_plus_no_after() {
    let s = test_schema();
    fill_test(
        "heading+ paragraph+",
        Fragment::from_array(vec![h1(&s, vec![])]),
        Fragment::empty(),
        Some(Fragment::from_array(vec![p(&s, vec![])])),
        &s,
    );
}

#[test]
fn fill_count_adds_elements() {
    let s = test_schema();
    fill_test(
        "hard_break{3}",
        Fragment::from_array(vec![br(&s)]),
        Fragment::from_array(vec![br(&s)]),
        Some(Fragment::from_array(vec![br(&s)])),
        &s,
    );
}

#[test]
fn fill_count_too_many_fails() {
    let s = test_schema();
    fill_test(
        "hard_break{3}",
        Fragment::from_array(vec![br(&s), br(&s)]),
        Fragment::from_array(vec![br(&s), br(&s)]),
        None,
        &s,
    );
}

#[test]
fn fill_two_counted_groups() {
    let s = test_schema();
    fill_test(
        "code_block{2} paragraph{2}",
        Fragment::from_array(vec![pre(&s, vec![])]),
        Fragment::from_array(vec![p(&s, vec![])]),
        Some(Fragment::from_array(vec![pre(&s, vec![]), p(&s, vec![])])),
        &s,
    );
}

#[test]
fn fill_doesnt_include_optional() {
    let s = test_schema();
    fill_test(
        "heading paragraph? horizontal_rule",
        Fragment::from_array(vec![h1(&s, vec![])]),
        Fragment::empty(),
        Some(Fragment::from_array(vec![hr(&s)])),
        &s,
    );
}


#[test]
fn fill3_completes_sequence() {
    let s = test_schema();
    fill3_test(
        "paragraph horizontal_rule paragraph horizontal_rule paragraph",
        Fragment::from_array(vec![p(&s, vec![])]),
        Fragment::from_array(vec![p(&s, vec![])]),
        Fragment::from_array(vec![p(&s, vec![])]),
        Some(Fragment::from_array(vec![hr(&s)])),
        Some(Fragment::from_array(vec![hr(&s)])),
        &s,
    );
}

#[test]
fn fill3_plus_across_two_bounds() {
    let s = test_schema();
    fill3_test(
        "code_block+ paragraph+",
        Fragment::from_array(vec![pre(&s, vec![])]),
        Fragment::from_array(vec![pre(&s, vec![])]),
        Fragment::from_array(vec![p(&s, vec![])]),
        Some(Fragment::empty()),
        Some(Fragment::empty()),
        &s,
    );
}

#[test]
fn fill3_plus_from_empty() {
    let s = test_schema();
    fill3_test(
        "code_block+ paragraph+",
        Fragment::empty(),
        Fragment::empty(),
        Fragment::empty(),
        Some(Fragment::empty()),
        Some(Fragment::from_array(vec![pre(&s, vec![]), p(&s, vec![])])),
        &s,
    );
}

#[test]
fn fill3_completes_count() {
    let s = test_schema();
    fill3_test(
        "code_block{3} paragraph{3}",
        Fragment::from_array(vec![pre(&s, vec![])]),
        Fragment::from_array(vec![p(&s, vec![])]),
        Fragment::empty(),
        Some(Fragment::from_array(vec![pre(&s, vec![]), pre(&s, vec![])])),
        Some(Fragment::from_array(vec![p(&s, vec![]), p(&s, vec![])])),
        &s,
    );
}

#[test]
fn fill3_non_matching_fails() {
    let s = test_schema();
    fill3_test(
        "paragraph*",
        Fragment::from_array(vec![p(&s, vec![])]),
        Fragment::from_array(vec![pre(&s, vec![])]),
        Fragment::from_array(vec![p(&s, vec![])]),
        None, None,
        &s,
    );
}

#[test]
fn fill3_paragraph4() {
    let s = test_schema();
    fill3_test(
        "paragraph{4}",
        Fragment::from_array(vec![p(&s, vec![])]),
        Fragment::from_array(vec![p(&s, vec![])]),
        Fragment::from_array(vec![p(&s, vec![])]),
        Some(Fragment::empty()),
        Some(Fragment::from_array(vec![p(&s, vec![])])),
        &s,
    );
}

#[test]
fn fill3_paragraph2_overflow_fails() {
    let s = test_schema();
    fill3_test(
        "paragraph{2}",
        Fragment::from_array(vec![p(&s, vec![])]),
        Fragment::from_array(vec![p(&s, vec![])]),
        Fragment::from_array(vec![p(&s, vec![])]),
        None, None,
        &s,
    );
}

