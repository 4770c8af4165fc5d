use std::sync::Arc;

use prosemirror_model::attrs::{AttrValue, Attrs};
use prosemirror_model::mark::Mark;
use prosemirror_model::schema::MarkType;

/// A stand-in identity for a type built in a test: types of one name are one type.
fn ident(name: &str) -> usize {
    name.bytes().fold(17usize, |h, b| h.wrapping_mul(31).wrapping_add(b as usize))
}

fn mt(name: &str, rank: usize) -> Arc<MarkType> {
    Arc::new(MarkType { id: ident(name), name: name.into(), rank, excluded: vec![], inclusive: None })
}

fn mk(mark_type: Arc<MarkType>) -> Mark {
    Mark { mark_type, attrs: Attrs::new() }
}

fn make_mt(name: &str, rank: usize) -> Arc<MarkType> {
    Arc::new(MarkType { id: ident(name), name: name.into(), rank, excluded: vec![], inclusive: None })
}

fn mk_attrs(mt: Arc<MarkType>, attrs: Vec<(&str, &str)>) -> Mark {
    let mut a = Attrs::new();
    for (k, v) in attrs {
        a.insert(k.into(), AttrValue::Str(v.into()));
    }
    Mark { mark_type: mt, attrs: a }
}

// Ranks of the standard test schema: link=0, em=1, strong=2, code=3.
fn em_mt() -> Arc<MarkType> { make_mt("em", 1) }
fn strong_mt() -> Arc<MarkType> { make_mt("strong", 2) }
fn link_mt() -> Arc<MarkType> {
    // A link excludes links: its exclusion list holds a type of the same name.
    let sentinel = Arc::new(MarkType { id: ident("link"), name: "link".into(), rank: 0, excluded: vec![], inclusive: None });
    Arc::new(MarkType { id: ident("link"), name: "link".into(), rank: 0, excluded: vec![sentinel], inclusive: None })
}
fn code_mt() -> Arc<MarkType> { make_mt("code", 3) }

fn link_with(lmt: &Arc<MarkType>, href: &str) -> Mark {
    mk_attrs(Arc::clone(lmt), vec![("href", href)])
}
fn link_t_with(lmt: &Arc<MarkType>, href: &str, title: &str) -> Mark {
    mk_attrs(Arc::clone(lmt), vec![("href", href), ("title", title)])
}
fn link(href: &str) -> Mark { link_with(&link_mt(), href) }
fn link_t(href: &str, title: &str) -> Mark { link_t_with(&link_mt(), href, title) }

#[test]
fn add_to_set_idempotent() {
    let m = mk(mt("bold", 0));
    let set = vec![m.clone()];
    let result = m.add_to_set(&set);
    assert_eq!(result.len(), 1);
}

#[test]
fn add_to_set_rank_order() {
    let m_em = mk(mt("em", 10));
    let m_bold = mk(mt("bold", 5));
    let set = vec![m_em.clone()];
    let result = m_bold.add_to_set(&set);
    assert_eq!(result.len(), 2);
    assert_eq!(result[0].mark_type.name, "bold");
    assert_eq!(result[1].mark_type.name, "em");
}

#[test]
fn add_to_set_this_excludes_other() {
    let mt_b = Arc::new(MarkType { id: ident("b"), name: "b".into(), rank: 1, excluded: vec![], inclusive: None });
    let mt_a = Arc::new(MarkType {
        id: ident("a"), name: "a".into(), rank: 0,
        excluded: vec![Arc::clone(&mt_b)],
        inclusive: None,
    });
    let set = vec![mk(Arc::clone(&mt_b))];
    let result = mk(Arc::clone(&mt_a)).add_to_set(&set);
    assert_eq!(result.len(), 1);
    assert_eq!(result[0].mark_type.name, "a");
}

#[test]
fn add_to_set_other_excludes_this() {
    let mt_a = Arc::new(MarkType { id: ident("a"), name: "a".into(), rank: 0, excluded: vec![], inclusive: None });
    let mt_b = Arc::new(MarkType {
        id: ident("b"), name: "b".into(), rank: 1,
        excluded: vec![Arc::clone(&mt_a)],
        inclusive: None,
    });
    let set = vec![mk(Arc::clone(&mt_b))];
    let result = mk(Arc::clone(&mt_a)).add_to_set(&set);
    assert_eq!(result.len(), 1);
    assert_eq!(result[0].mark_type.name, "b");
}

#[test]
fn remove_from_set_exists() {
    let m = mk(mt("bold", 0));
    let result = m.remove_from_set(&[m.clone()]);
    assert!(result.is_empty());
}

#[test]
fn remove_from_set_not_exists() {
    let m1 = mk(mt("bold", 0));
    let m2 = mk(mt("em", 1));
    let result = m2.remove_from_set(&[m1.clone()]);
    assert_eq!(result.len(), 1);
}

#[test]
fn same_set_length_diff() {
    let m = mk(mt("bold", 0));
    assert!(!Mark::same_set(&[m.clone()], &[]));
}

#[test]
fn same_set_identical() {
    let m = mk(mt("bold", 0));
    assert!(Mark::same_set(&[m.clone()], &[m.clone()]));
}

#[test]
fn same_set_content_diff() {
    let m1 = mk(mt("bold", 0));
    let m2 = mk(mt("em", 1));
    assert!(!Mark::same_set(&[m1], &[m2]));
}

#[test]
fn set_from_sorted() {
    let m_em = mk(mt("em", 10));
    let m_bold = mk(mt("bold", 5));
    let result = Mark::set_from(&[m_em, m_bold]);
    assert_eq!(result[0].mark_type.name, "bold");
    assert_eq!(result[1].mark_type.name, "em");
}

#[test]
fn set_from_empty() {
    assert!(Mark::set_from(&[]).is_empty());
}

#[test]
fn is_in_set() {
    let m = mk(mt("bold", 0));
    assert!(m.is_in_set(&[m.clone()]));
    assert!(!m.is_in_set(&[]));
}

#[test]
fn mark_same_set_empty() {
    assert!(Mark::same_set(&[], &[]));
}

#[test]
fn mark_same_set_identical() {
    let em = mk(em_mt()); let st = mk(strong_mt());
    assert!(Mark::same_set(&[em.clone(), st.clone()], &[em, st]));
}

#[test]
fn mark_same_set_different() {
    let em = mk(em_mt()); let st = mk(strong_mt()); let co = mk(code_mt());
    assert!(!Mark::same_set(&[em.clone(), st.clone()], &[em, co]));
}

#[test]
fn mark_same_set_size_differs() {
    let em = mk(em_mt()); let st = mk(strong_mt()); let co = mk(code_mt());
    assert!(!Mark::same_set(&[em.clone(), st.clone()], &[em, st, co]));
}

#[test]
fn mark_same_set_links_equal() {
    let lmt = link_mt();
    let co = mk(code_mt());
    assert!(Mark::same_set(
        &[link_with(&lmt, "http://foo"), co.clone()],
        &[link_with(&lmt, "http://foo"), co],
    ));
}

#[test]
fn mark_same_set_links_different() {
    let co = mk(code_mt());
    assert!(!Mark::same_set(
        &[link("http://foo"), co.clone()],
        &[link("http://bar"), co],
    ));
}

#[test]
fn mark_eq_same_link() {
    let lmt = link_mt();
    assert!(link_with(&lmt, "http://foo").eq(&link_with(&lmt, "http://foo")));
}

#[test]
fn mark_eq_different_link() {
    assert!(!link("http://foo").eq(&link("http://bar")));
}

#[test]
fn mark_eq_different_title() {
    assert!(!link_t("http://foo", "A").eq(&link_t("http://foo", "B")));
}

#[test]
fn mark_add_to_empty() {
    let em = mk(em_mt());
    let result = em.add_to_set(&[]);
    assert!(Mark::same_set(&result, &[em]));
}

#[test]
fn mark_add_noop_in_set() {
    let em = mk(em_mt());
    let result = em.add_to_set(&[em.clone()]);
    assert!(Mark::same_set(&result, &[em]));
}

#[test]
fn mark_add_lower_rank_before() {
    let em = mk(em_mt()); let st = mk(strong_mt());
    let result = em.add_to_set(&[st.clone()]);
    assert!(Mark::same_set(&result, &[em, st]));
}

#[test]
fn mark_add_higher_rank_after() {
    let em = mk(em_mt()); let st = mk(strong_mt());
    let result = st.add_to_set(&[em.clone()]);
    assert!(Mark::same_set(&result, &[em, st]));
}

#[test]
fn mark_add_replaces_same_type_different_attrs() {
    let lmt = link_mt();
    let em = mk(em_mt());
    let result = link_with(&lmt, "http://bar").add_to_set(&[link_with(&lmt, "http://foo"), em.clone()]);
    assert!(Mark::same_set(&result, &[link_with(&lmt, "http://bar"), em]));
}

#[test]
fn mark_add_noop_existing_link() {
    let lmt = link_mt();
    let em = mk(em_mt());
    let result = link_with(&lmt, "http://foo").add_to_set(&[em.clone(), link_with(&lmt, "http://foo")]);
    assert!(Mark::same_set(&result, &[em, link_with(&lmt, "http://foo")]));
}

#[test]
fn mark_add_code_at_end() {
    let lmt = link_mt();
    let em = mk(em_mt()); let st = mk(strong_mt()); let co = mk(code_mt());
    let result = co.add_to_set(&[em.clone(), st.clone(), link_with(&lmt, "http://foo")]);
    assert!(Mark::same_set(&result, &[em, st, link_with(&lmt, "http://foo"), co]));
}

#[test]
fn mark_add_middle_rank() {
    let em = mk(em_mt()); let st = mk(strong_mt()); let co = mk(code_mt());
    let result = st.add_to_set(&[em.clone(), co.clone()]);
    assert!(Mark::same_set(&result, &[em, st, co]));
}

#[test]
fn mark_remove_noop_empty() {
    let em = mk(em_mt());
    assert!(Mark::same_set(&em.remove_from_set(&[]), &[]));
}

#[test]
fn mark_remove_last_mark() {
    let em = mk(em_mt());
    assert!(Mark::same_set(&em.remove_from_set(&[em.clone()]), &[]));
}

#[test]
fn mark_remove_not_in_set() {
    let em = mk(em_mt()); let st = mk(strong_mt());
    assert!(Mark::same_set(&st.remove_from_set(&[em.clone()]), &[em]));
}

#[test]
fn mark_remove_with_attrs() {
    let lmt = link_mt();
    assert!(Mark::same_set(
        &link_with(&lmt, "http://foo").remove_from_set(&[link_with(&lmt, "http://foo")]),
        &[],
    ));
}

#[test]
fn mark_remove_attrs_differ() {
    let lmt = link_mt();
    assert!(Mark::same_set(
        &link_t_with(&lmt, "http://foo", "title").remove_from_set(&[link_with(&lmt, "http://foo")]),
        &[link_with(&lmt, "http://foo")],
    ));
}
