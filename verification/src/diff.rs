use vstd::prelude::*;

use crate::node::{Node, NodeV, Fragment, node_view, node_size, content_size, node_wf, frag_wf, same_markup, text_of, text_view, lemma_nodes_view};

verus! {

/// The number of leading characters the two texts share.
pub open spec fn common_prefix(x: Seq<char>, y: Seq<char>, j: int) -> int
    decreases x.len() - j,
{
    if j < 0 || j >= x.len() || j >= y.len() || x[j] != y[j] {
        if j < 0 { 0 } else { j }
    } else {
        common_prefix(x, y, j + 1)
    }
}

/// The number of trailing characters the two texts share.
pub open spec fn common_suffix(x: Seq<char>, y: Seq<char>, j: int) -> int
    decreases x.len() - j,
{
    if j < 0 || j >= x.len() || j >= y.len() || x[x.len() - j - 1] != y[y.len() - j - 1] {
        if j < 0 { 0 } else { j }
    } else {
        common_suffix(x, y, j + 1)
    }
}

/// The first position, counting from `pos`, at which the two node lists
/// differ; none if they are the same.
pub open spec fn diff_start(a: Seq<NodeV>, b: Seq<NodeV>, pos: int) -> Option<int>
    decreases a, 1int, 0int,
{
    diff_start_from(a, b, 0, pos)
}

/// `diff_start` from child index `i`, at position `pos`.
pub open spec fn diff_start_from(a: Seq<NodeV>, b: Seq<NodeV>, i: int, pos: int) -> Option<int>
    decreases a, 0int, a.len() - i,
{
    if i < 0 || i >= a.len() || i >= b.len() {
        if a.len() == b.len() {
            None
        } else {
            Some(pos)
        }
    } else {
        let ca = a[i];
        let cb = b[i];
        if !same_markup(ca, cb) {
            Some(pos)
        } else if ca.node_type.is_text && ca.text != cb.text {
            Some(pos + common_prefix(text_of(ca), text_of(cb), 0))
        } else {
            let inner = if content_size(ca.content) > 0 || content_size(cb.content) > 0 {
                diff_start(ca.content, cb.content, pos + 1)
            } else {
                None
            };
            match inner {
                Some(x) => Some(x),
                None => diff_start_from(a, b, i + 1, pos + node_size(ca)),
            }
        }
    }
}

/// The last positions, counting back from `pa` in `a` and `pb` in `b`, at
/// which the two node lists differ; none if they are the same.
pub open spec fn diff_end(a: Seq<NodeV>, b: Seq<NodeV>, pa: int, pb: int) -> Option<(int, int)>
    decreases a, 1int, 0int,
{
    diff_end_from(a, b, a.len() as int, b.len() as int, pa, pb)
}

/// `diff_end` with `ia` and `ib` children left to compare.
pub open spec fn diff_end_from(a: Seq<NodeV>, b: Seq<NodeV>, ia: int, ib: int, pa: int, pb: int) -> Option<(int, int)>
    decreases a, 0int, ia,
{
    if ia <= 0 || ib <= 0 || ia > a.len() || ib > b.len() {
        if ia == ib {
            None
        } else {
            Some((pa, pb))
        }
    } else {
        let ca = a[ia - 1];
        let cb = b[ib - 1];
        let size = node_size(ca);
        if !same_markup(ca, cb) {
            Some((pa, pb))
        } else if ca.node_type.is_text && ca.text != cb.text {
            let same = common_suffix(text_of(ca), text_of(cb), 0);
            Some((pa - same, pb - same))
        } else {
            let inner = if content_size(ca.content) > 0 || content_size(cb.content) > 0 {
                diff_end(ca.content, cb.content, pa - 1, pb - 1)
            } else {
                None
            };
            match inner {
                Some(x) => Some(x),
                None => diff_end_from(a, b, ia - 1, ib - 1, pa - size, pb - size),
            }
        }
    }
}

/// Walking back from `pa` and `pb` never goes below zero.
pub open spec fn diff_end_safe(a: Seq<NodeV>, b: Seq<NodeV>, pa: int, pb: int) -> bool
    decreases a, 1int, 0int,
{
    diff_end_safe_from(a, b, a.len() as int, b.len() as int, pa, pb)
}

pub open spec fn diff_end_safe_from(a: Seq<NodeV>, b: Seq<NodeV>, ia: int, ib: int, pa: int, pb: int) -> bool
    decreases a, 0int, ia,
{
    if ia <= 0 || ib <= 0 || ia > a.len() || ib > b.len() {
        true
    } else {
        let ca = a[ia - 1];
        let cb = b[ib - 1];
        let size = node_size(ca);
        if !same_markup(ca, cb) {
            true
        } else if ca.node_type.is_text && ca.text != cb.text {
            let same = common_suffix(text_of(ca), text_of(cb), 0);
            pa >= same && pb >= same
        } else {
            let deep = content_size(ca.content) > 0 || content_size(cb.content) > 0;
            &&& deep ==> pa >= 1 && pb >= 1 && diff_end_safe(ca.content, cb.content, pa - 1, pb - 1)
            &&& (if deep { diff_end(ca.content, cb.content, pa - 1, pb - 1) } else { None }) is None
                ==> pa >= size && pb >= size && diff_end_safe_from(a, b, ia - 1, ib - 1, pa - size, pb - size)
        }
    }
}

proof fn lemma_common_prefix(x: Seq<char>, y: Seq<char>, j: int)
    requires
        0 <= j <= x.len(),
        j <= y.len(),
    ensures
        j <= common_prefix(x, y, j) <= x.len(),
        common_prefix(x, y, j) <= y.len(),
    decreases x.len() - j,
{
    if j < x.len() && j < y.len() && x[j] == y[j] {
        lemma_common_prefix(x, y, j + 1);
    }
}

/// Whether the two nodes hold the same text (or both none).
fn same_text(a: &Node, b: &Node) -> (r: bool)
    ensures
        r == (a.text == b.text || text_view(a.text) == text_view(b.text)),
        r == (node_view(*a).text == node_view(*b).text),
{
    match (&a.text, &b.text) {
        (Some(x), Some(y)) => crate::util::str_eq(x.as_str(), y.as_str()),
        (None, None) => true,
        _ => false,
    }
}

/// The length of the common prefix of two texts.
fn prefix_len(x: &str, y: &str) -> (r: usize)
    ensures
        r == common_prefix(x@, y@, 0),
{
    let n = x.unicode_len();
    let m = y.unicode_len();
    let mut j: usize = 0;
    while j < n && j < m && x.get_char(j) == y.get_char(j)
        invariant
            n == x@.len(),
            m == y@.len(),
            j <= n,
            j <= m,
            common_prefix(x@, y@, 0) == common_prefix(x@, y@, j as int),
        decreases n - j,
    {
        j = j + 1;
    }
    j
}

/// The length of the common suffix of two texts.
fn suffix_len(x: &str, y: &str) -> (r: usize)
    ensures
        r == common_suffix(x@, y@, 0),
{
    let n = x.unicode_len();
    let m = y.unicode_len();
    let mut j: usize = 0;
    while j < n && j < m && x.get_char(n - j - 1) == y.get_char(m - j - 1)
        invariant
            n == x@.len(),
            m == y@.len(),
            j <= n,
            j <= m,
            common_suffix(x@, y@, 0) == common_suffix(x@, y@, j as int),
        decreases n - j,
    {
        j = j + 1;
    }
    j
}

/// The first position, counting from `pos`, at which the two fragments
/// differ.
pub fn find_diff_start(a: &Fragment, b: &Fragment, pos: usize) -> (r: Option<usize>)
    requires
        frag_wf(*a),
        frag_wf(*b),
        pos + a.size <= usize::MAX,
    ensures
        match diff_start(a@, b@, pos as int) {
            Some(x) => r == Some(x as usize) && x == r.unwrap() as int,
            None => r is None,
        },
    decreases *a,
{
    proof {
        lemma_nodes_view(a.content@);
        lemma_nodes_view(b.content@);
    }
    let na = a.child_count();
    let nb = b.child_count();
    let mut cur = pos;
    let mut i: usize = 0;
    while i < na && i < nb
        invariant
            frag_wf(*a),
            frag_wf(*b),
            na == a@.len(),
            nb == b@.len(),
            a@.len() == a.content@.len(),
            b@.len() == b.content@.len(),
            forall|j: int| 0 <= j < a.content@.len() ==> #[trigger] a@[j] == node_view(a.content@[j]),
            forall|j: int| 0 <= j < b.content@.len() ==> #[trigger] b@[j] == node_view(b.content@[j]),
            i <= na,
            cur == pos + content_size(a@.take(i as int)),
            pos + content_size(a@) <= usize::MAX,
            diff_start(a@, b@, pos as int) == diff_start_from(a@, b@, i as int, cur as int),
        decreases na - i,
    {
        let ca = a.child(i);
        let cb = b.child(i);
        proof {
            crate::fragment::lemma_content_size_take(a@, i as int);
            assert(node_wf(a.content@[i as int]));
            assert(node_wf(b.content@[i as int]));
        }
        if !ca.same_markup(cb) {
            return Some(cur);
        }
        if ca.is_text() && !same_text(ca, cb) {
            proof {
                crate::fragment::lemma_wf_text_ok(a.content@[i as int]);
            }
            let (ta, tb) = match (&ca.text, &cb.text) {
                (Some(x), Some(y)) => (x.as_str(), y.as_str()),
                (Some(x), None) => (x.as_str(), ""),
                (None, Some(y)) => ("", y.as_str()),
                (None, None) => ("", ""),
            };
            proof {
                assert(ta@ == text_of(a@[i as int]));
                reveal_strlit("");
                assert(tb@ == text_of(b@[i as int]));
                lemma_common_prefix(ta@, tb@, 0);
            }
            let k = prefix_len(ta, tb);
            return Some(cur + k);
        }
        if ca.content.size > 0 || cb.content.size > 0 {
            proof {
                assert(decreases_to!(*a => a.content@[i as int]));
                assert(decreases_to!(a.content@[i as int] => a.content@[i as int].content));
            }
            match find_diff_start(&ca.content, &cb.content, cur + 1) {
                Some(x) => {
                    return Some(x);
                },
                None => {},
            }
        }
        cur = cur + ca.node_size();
        i = i + 1;
    }
    if na == nb {
        None
    } else {
        Some(cur)
    }
}


/// The last positions, counting back from `pos_a` in `a` and `pos_b` in
/// `b`, at which the two fragments differ.
pub fn find_diff_end(a: &Fragment, b: &Fragment, pos_a: usize, pos_b: usize) -> (r: Option<(usize, usize)>)
    requires
        frag_wf(*a),
        frag_wf(*b),
        diff_end_safe(a@, b@, pos_a as int, pos_b as int),
    ensures
        match diff_end(a@, b@, pos_a as int, pos_b as int) {
            Some(x) => r matches Some(y) && x == (y.0 as int, y.1 as int),
            None => r is None,
        },
    decreases *a,
{
    proof {
        lemma_nodes_view(a.content@);
        lemma_nodes_view(b.content@);
    }
    let na = a.child_count();
    let nb = b.child_count();
    let mut ia = na;
    let mut ib = nb;
    let mut xa = pos_a;
    let mut xb = pos_b;
    while ia > 0 && ib > 0
        invariant
            frag_wf(*a),
            frag_wf(*b),
            na == a@.len(),
            nb == b@.len(),
            a@.len() == a.content@.len(),
            b@.len() == b.content@.len(),
            forall|j: int| 0 <= j < a.content@.len() ==> #[trigger] a@[j] == node_view(a.content@[j]),
            forall|j: int| 0 <= j < b.content@.len() ==> #[trigger] b@[j] == node_view(b.content@[j]),
            ia <= na,
            ib <= nb,
            diff_end(a@, b@, pos_a as int, pos_b as int) == diff_end_from(a@, b@, ia as int, ib as int, xa as int, xb as int),
            diff_end_safe_from(a@, b@, ia as int, ib as int, xa as int, xb as int),
        decreases ia,
    {
        ia = ia - 1;
        ib = ib - 1;
        let ca = a.child(ia);
        let cb = b.child(ib);
        proof {
            assert(node_wf(a.content@[ia as int]));
            assert(node_wf(b.content@[ib as int]));
        }
        let size = ca.node_size();
        if !ca.same_markup(cb) {
            return Some((xa, xb));
        }
        if ca.is_text() && !same_text(ca, cb) {
            let (ta, tb) = match (&ca.text, &cb.text) {
                (Some(x), Some(y)) => (x.as_str(), y.as_str()),
                (Some(x), None) => (x.as_str(), ""),
                (None, Some(y)) => ("", y.as_str()),
                (None, None) => ("", ""),
            };
            proof {
                reveal_strlit("");
                assert(ta@ == text_of(a@[ia as int]));
                assert(tb@ == text_of(b@[ib as int]));
            }
            let k = suffix_len(ta, tb);
            return Some((xa - k, xb - k));
        }
        if ca.content.size > 0 || cb.content.size > 0 {
            proof {
                assert(decreases_to!(*a => a.content@[ia as int]));
                assert(decreases_to!(a.content@[ia as int] => a.content@[ia as int].content));
            }
            match find_diff_end(&ca.content, &cb.content, xa - 1, xb - 1) {
                Some(x) => {
                    return Some(x);
                },
                None => {},
            }
        }
        xa = xa - size;
        xb = xb - size;
    }
    if ia == ib {
        None
    } else {
        Some((xa, xb))
    }
}

impl Fragment {
    /// The first position, counting from `pos`, at which this fragment and
    /// `other` differ.
    pub fn find_diff_start(&self, other: &Fragment, pos: usize) -> (r: Option<usize>)
        requires
            frag_wf(*self),
            frag_wf(*other),
            pos + self.size <= usize::MAX,
        ensures
            match diff_start(self@, other@, pos as int) {
                Some(x) => r == Some(x as usize) && x == r.unwrap() as int,
                None => r is None,
            },
    {
        find_diff_start(self, other, pos)
    }

    /// The last positions, counting back from `pos` here and `other_pos` in
    /// `other`, at which the two fragments differ.
    pub fn find_diff_end(&self, other: &Fragment, pos: usize, other_pos: usize) -> (r: Option<(usize, usize)>)
        requires
            frag_wf(*self),
            frag_wf(*other),
            diff_end_safe(self@, other@, pos as int, other_pos as int),
        ensures
            match diff_end(self@, other@, pos as int, other_pos as int) {
                Some(x) => r matches Some(y) && x == (y.0 as int, y.1 as int),
                None => r is None,
            },
    {
        find_diff_end(self, other, pos, other_pos)
    }
}


/// Every attribute value of the nodes and their marks, at any depth, equals
/// itself (no NaN).
pub open spec fn deep_reflexive(s: Seq<NodeV>) -> bool
    decreases s,
{
    forall|i: int| 0 <= i < s.len() ==> {
        &&& forall|k: int| 0 <= k < (#[trigger] s[i]).attrs.len() ==> crate::attrs::attr_value_eq(s[i].attrs[k].1, s[i].attrs[k].1)
        &&& forall|m: int| 0 <= m < s[i].marks.len() ==> crate::mark::attrs_reflexive(#[trigger] s[i].marks[m])
        &&& deep_reflexive(s[i].content)
    }
}

proof fn lemma_same_markup_refl(n: NodeV)
    requires
        forall|k: int| 0 <= k < n.attrs.len() ==> crate::attrs::attr_value_eq(n.attrs[k].1, n.attrs[k].1),
        forall|m: int| 0 <= m < n.marks.len() ==> crate::mark::attrs_reflexive(#[trigger] n.marks[m]),
    ensures
        same_markup(n, n),
{
    assert forall|k: int| 0 <= k < n.attrs.len() implies #[trigger] crate::attrs::entry_matched(n.attrs[k], n.attrs) by {
        assert(crate::attrs::attr_value_eq(n.attrs[k].1, n.attrs[k].1));
    }
    assert forall|m: int| 0 <= m < n.marks.len() implies #[trigger] crate::mark::mark_eq(n.marks[m], n.marks[m]) by {
        let mk = n.marks[m];
        assert(crate::mark::attrs_reflexive(mk));
        assert forall|k: int| 0 <= k < mk.attrs.len() implies #[trigger] crate::attrs::entry_matched(mk.attrs[k], mk.attrs) by {
            assert(crate::attrs::attr_value_eq(mk.attrs[k].1, mk.attrs[k].1));
        }
    }
}

/// A fragment does not differ from itself: `find_diff_start` of a fragment
/// and itself is none (for attribute values that equal themselves).
pub proof fn law_diff_start_same(a: Seq<NodeV>, pos: int)
    requires
        deep_reflexive(a),
    ensures
        diff_start(a, a, pos) is None,
    decreases a, 1int, 0int,
{
    lemma_diff_start_same_from(a, 0, pos);
}

proof fn lemma_diff_start_same_from(a: Seq<NodeV>, i: int, pos: int)
    requires
        deep_reflexive(a),
        0 <= i <= a.len(),
    ensures
        diff_start_from(a, a, i, pos) is None,
    decreases a, 0int, a.len() - i,
{
    if i < a.len() {
        let c = a[i];
        lemma_same_markup_refl(c);
        if content_size(c.content) > 0 {
            law_diff_start_same(c.content, pos + 1);
        }
        lemma_diff_start_same_from(a, i + 1, pos + node_size(c));
    }
}


/// Walking back, both fragments step over the same amount: where
/// `find_diff_end` finds a difference, its two positions lie equally far
/// back from the two end positions.
pub proof fn law_diff_end_even(a: Seq<NodeV>, b: Seq<NodeV>, pa: int, pb: int)
    ensures
        diff_end(a, b, pa, pb) matches Some(r) ==> pa - r.0 == pb - r.1,
    decreases a, 1int, 0int,
{
    lemma_diff_end_even_from(a, b, a.len() as int, b.len() as int, pa, pb);
}

proof fn lemma_diff_end_even_from(a: Seq<NodeV>, b: Seq<NodeV>, ia: int, ib: int, pa: int, pb: int)
    ensures
        diff_end_from(a, b, ia, ib, pa, pb) matches Some(r) ==> pa - r.0 == pb - r.1,
    decreases a, 0int, ia,
{
    if ia <= 0 || ib <= 0 || ia > a.len() || ib > b.len() {
    } else {
        let ca = a[ia - 1];
        let cb = b[ib - 1];
        let size = node_size(ca);
        if !same_markup(ca, cb) {
        } else if ca.node_type.is_text && ca.text != cb.text {
        } else {
            if content_size(ca.content) > 0 || content_size(cb.content) > 0 {
                assert(decreases_to!(a => a[ia - 1]));
                law_diff_end_even(ca.content, cb.content, pa - 1, pb - 1);
            }
            lemma_diff_end_even_from(a, b, ia - 1, ib - 1, pa - size, pb - size);
        }
    }
}

/// Every node at any depth has text exactly when its type is a text type,
/// text types are those named `text`, and no text is empty.
pub open spec fn deep_plain(s: Seq<NodeV>) -> bool
    decreases s,
{
    forall|i: int| 0 <= i < s.len() ==> {
        &&& ((#[trigger] s[i]).node_type.is_text == (s[i].text is Some))
        &&& (s[i].node_type.is_text == (s[i].node_type.name@ == "text"@))
        &&& (s[i].text matches Some(t) ==> t.len() > 0)
        &&& deep_plain(s[i].content)
    }
}

/// Nodes without empty texts have a size; a list of them of size zero is
/// empty.
proof fn lemma_size_zero_empty(s: Seq<NodeV>)
    requires
        deep_plain(s),
        content_size(s) == 0,
    ensures
        s.len() == 0,
{
    if s.len() > 0 {
        let n = s.last();
        assert(s[s.len() - 1] == n);
        crate::node::lemma_content_size_push(s.drop_last(), n);
        assert(s.drop_last().push(n) =~= s);
        assert(node_size(n) > 0);
    }
}

/// `find_diff_start` finds no difference only between equal fragments:
/// where it gives none, the two lists are equal node by node, in markup,
/// text and content (for well-formed nodes, whose text types are named
/// `text`).
pub proof fn law_diff_start_none_equal(a: Seq<NodeV>, b: Seq<NodeV>, pos: int)
    requires
        deep_plain(a),
        deep_plain(b),
        diff_start(a, b, pos) is None,
    ensures
        crate::node::nodes_eq(a, b),
    decreases a, 1int, 0int,
{
    lemma_diff_start_none_from(a, b, 0, pos);
}

proof fn lemma_diff_start_none_from(a: Seq<NodeV>, b: Seq<NodeV>, i: int, pos: int)
    requires
        deep_plain(a),
        deep_plain(b),
        0 <= i,
        diff_start_from(a, b, i, pos) is None,
    ensures
        a.len() == b.len(),
        forall|j: int| i <= j < a.len() ==> crate::node::node_eq(#[trigger] a[j], b[j]),
    decreases a, 0int, a.len() - i,
{
    if i >= a.len() || i >= b.len() {
    } else {
        let ca = a[i];
        let cb = b[i];
        assert(same_markup(ca, cb));
        assert(ca.node_type.is_text == cb.node_type.is_text);
        assert(ca.text == cb.text);
        assert(deep_plain(ca.content));
        assert(deep_plain(cb.content));
        if content_size(ca.content) > 0 || content_size(cb.content) > 0 {
            assert(decreases_to!(a => a[i]));
            law_diff_start_none_equal(ca.content, cb.content, pos + 1);
        } else {
            lemma_size_zero_empty(ca.content);
            lemma_size_zero_empty(cb.content);
        }
        assert(crate::node::nodes_eq(ca.content, cb.content));
        assert(crate::node::node_eq(ca, cb));
        lemma_diff_start_none_from(a, b, i + 1, pos + node_size(ca));
        assert forall|j: int| i <= j < a.len() implies crate::node::node_eq(#[trigger] a[j], b[j]) by {
            if j == i {
                assert(crate::node::node_eq(ca, cb));
            }
        }
    }
}


/// `find_diff_end` finds no difference only between equal fragments:
/// where it gives none, the two lists are equal node by node, in markup,
/// text and content (for well-formed nodes, whose text types are named
/// `text`).
pub proof fn law_diff_end_none_equal(a: Seq<NodeV>, b: Seq<NodeV>, pa: int, pb: int)
    requires
        deep_plain(a),
        deep_plain(b),
        diff_end(a, b, pa, pb) is None,
    ensures
        crate::node::nodes_eq(a, b),
    decreases a, 1int, 0int,
{
    lemma_diff_end_none_from(a, b, a.len() as int, b.len() as int, pa, pb);
}

proof fn lemma_diff_end_none_from(a: Seq<NodeV>, b: Seq<NodeV>, ia: int, ib: int, pa: int, pb: int)
    requires
        deep_plain(a),
        deep_plain(b),
        0 <= ia <= a.len(),
        0 <= ib <= b.len(),
        a.len() - ia == b.len() - ib,
        diff_end_from(a, b, ia, ib, pa, pb) is None,
    ensures
        ia == ib,
        forall|j: int| 0 <= j < ia ==> crate::node::node_eq(#[trigger] a[j], b[j]),
    decreases a, 0int, ia,
{
    if ia <= 0 || ib <= 0 {
    } else {
        let ca = a[ia - 1];
        let cb = b[ib - 1];
        let size = node_size(ca);
        assert(same_markup(ca, cb));
        assert(ca.node_type.is_text == cb.node_type.is_text);
        assert(ca.text == cb.text);
        assert(deep_plain(ca.content));
        assert(deep_plain(cb.content));
        if content_size(ca.content) > 0 || content_size(cb.content) > 0 {
            assert(decreases_to!(a => a[ia - 1]));
            law_diff_end_none_equal(ca.content, cb.content, pa - 1, pb - 1);
        } else {
            lemma_size_zero_empty(ca.content);
            lemma_size_zero_empty(cb.content);
        }
        assert(crate::node::nodes_eq(ca.content, cb.content));
        assert(crate::node::node_eq(ca, cb));
        lemma_diff_end_none_from(a, b, ia - 1, ib - 1, pa - size, pb - size);
        assert forall|j: int| 0 <= j < ia implies crate::node::node_eq(#[trigger] a[j], b[j]) by {
            if j == ia - 1 {
                assert(crate::node::node_eq(ca, cb));
            }
        }
    }
}

/// The first difference lies at or after the position the search starts
/// from.
pub proof fn law_diff_start_after(a: Seq<NodeV>, b: Seq<NodeV>, pos: int)
    ensures
        diff_start(a, b, pos) matches Some(p) ==> p >= pos,
    decreases a, 1int, 0int,
{
    lemma_diff_start_after_from(a, b, 0, pos);
}

proof fn lemma_diff_start_after_from(a: Seq<NodeV>, b: Seq<NodeV>, i: int, pos: int)
    ensures
        diff_start_from(a, b, i, pos) matches Some(p) ==> p >= pos,
    decreases a, 0int, a.len() - i,
{
    if i < 0 || i >= a.len() || i >= b.len() {
    } else {
        let ca = a[i];
        let cb = b[i];
        if !same_markup(ca, cb) {
        } else if ca.node_type.is_text && ca.text != cb.text {
            lemma_common_prefix(text_of(ca), text_of(cb), 0);
        } else {
            if content_size(ca.content) > 0 || content_size(cb.content) > 0 {
                assert(decreases_to!(a => a[i]));
                law_diff_start_after(ca.content, cb.content, pos + 1);
            }
            lemma_diff_start_after_from(a, b, i + 1, pos + node_size(ca));
        }
    }
}

/// The last difference lies at or before the positions the search starts
/// back from.
pub proof fn law_diff_end_before(a: Seq<NodeV>, b: Seq<NodeV>, pa: int, pb: int)
    ensures
        diff_end(a, b, pa, pb) matches Some(r) ==> r.0 <= pa && r.1 <= pb,
    decreases a, 1int, 0int,
{
    lemma_diff_end_before_from(a, b, a.len() as int, b.len() as int, pa, pb);
}

proof fn lemma_diff_end_before_from(a: Seq<NodeV>, b: Seq<NodeV>, ia: int, ib: int, pa: int, pb: int)
    ensures
        diff_end_from(a, b, ia, ib, pa, pb) matches Some(r) ==> r.0 <= pa && r.1 <= pb,
    decreases a, 0int, ia,
{
    if ia <= 0 || ib <= 0 || ia > a.len() || ib > b.len() {
    } else {
        let ca = a[ia - 1];
        let cb = b[ib - 1];
        let size = node_size(ca);
        if !same_markup(ca, cb) {
        } else if ca.node_type.is_text && ca.text != cb.text {
            lemma_common_suffix_nonneg(text_of(ca), text_of(cb), 0);
        } else {
            if content_size(ca.content) > 0 || content_size(cb.content) > 0 {
                assert(decreases_to!(a => a[ia - 1]));
                law_diff_end_before(ca.content, cb.content, pa - 1, pb - 1);
            }
            lemma_diff_end_before_from(a, b, ia - 1, ib - 1, pa - size, pb - size);
        }
    }
}

/// The shared suffix is never negative.
proof fn lemma_common_suffix_nonneg(x: Seq<char>, y: Seq<char>, j: int)
    ensures
        common_suffix(x, y, j) >= 0,
    decreases x.len() - j,
{
    if !(j < 0 || j >= x.len() || j >= y.len() || x[x.len() - j - 1] != y[y.len() - j - 1]) {
        lemma_common_suffix_nonneg(x, y, j + 1);
    }
}


/// The shared prefix counted from `j`: the texts agree on it, and it ends
/// where one text ends or the texts differ.
proof fn lemma_prefix_exact(x: Seq<char>, y: Seq<char>, j: int)
    requires
        0 <= j <= x.len(),
        j <= y.len(),
        forall|i: int| 0 <= i < j ==> x[i] == y[i],
    ensures
        ({
            let k = common_prefix(x, y, j);
            &&& j <= k <= x.len()
            &&& k <= y.len()
            &&& forall|i: int| 0 <= i < k ==> x[i] == y[i]
            &&& (k == x.len() || k == y.len() || x[k] != y[k])
        }),
    decreases x.len() - j,
{
    if j < x.len() && j < y.len() && x[j] == y[j] {
        lemma_prefix_exact(x, y, j + 1);
    }
}

/// The character `i` places before the end of the text.
pub open spec fn back(x: Seq<char>, i: int) -> char {
    x[x.len() - 1 - i]
}

/// The shared suffix counted from `j`: the texts agree on it, and it ends
/// where one text ends or the texts differ.
proof fn lemma_suffix_exact(x: Seq<char>, y: Seq<char>, j: int)
    requires
        0 <= j <= x.len(),
        j <= y.len(),
        forall|i: int| 0 <= i < j ==> #[trigger] back(x, i) == back(y, i),
    ensures
        ({
            let k = common_suffix(x, y, j);
            &&& j <= k <= x.len()
            &&& k <= y.len()
            &&& forall|i: int| 0 <= i < k ==> #[trigger] back(x, i) == back(y, i)
            &&& (k == x.len() || k == y.len() || x[x.len() - 1 - k] != y[y.len() - 1 - k])
        }),
    decreases x.len() - j,
{
    if j < x.len() && j < y.len() && x[x.len() - j - 1] == y[y.len() - j - 1] {
        assert(back(x, j) == back(y, j));
        lemma_suffix_exact(x, y, j + 1);
    }
}

/// Two text nodes of the same markup but other texts first differ after
/// the characters they share at their start: the position found is `pos`
/// plus a length on which the two texts agree, and at which one text ends
/// or the next characters differ.
pub proof fn law_diff_start_texts(x: NodeV, y: NodeV, pos: int)
    requires
        x.node_type.is_text,
        same_markup(x, y),
        x.text != y.text,
    ensures
        diff_start(seq![x], seq![y], pos) matches Some(p) && ({
            let k = p - pos;
            let tx = text_of(x);
            let ty = text_of(y);
            &&& 0 <= k <= tx.len()
            &&& k <= ty.len()
            &&& forall|i: int| 0 <= i < k ==> tx[i] == ty[i]
            &&& (k == tx.len() || k == ty.len() || tx[k] != ty[k])
        }),
{
    lemma_prefix_exact(text_of(x), text_of(y), 0);
    assert(diff_start(seq![x], seq![y], pos) == diff_start_from(seq![x], seq![y], 0, pos));
}

/// Two text nodes of the same markup but other texts last differ before
/// the characters they share at their end: both positions found lie the
/// same length back from the end positions, a length on which the two
/// texts agree at their ends, and at which one text ends or the characters
/// before differ.
pub proof fn law_diff_end_texts(x: NodeV, y: NodeV, pa: int, pb: int)
    requires
        x.node_type.is_text,
        same_markup(x, y),
        x.text != y.text,
    ensures
        diff_end(seq![x], seq![y], pa, pb) matches Some(r) && ({
            let k = pa - r.0;
            let tx = text_of(x);
            let ty = text_of(y);
            &&& pb - r.1 == k
            &&& 0 <= k <= tx.len()
            &&& k <= ty.len()
            &&& forall|i: int| 0 <= i < k ==> #[trigger] back(tx, i) == back(ty, i)
            &&& (k == tx.len() || k == ty.len() || tx[tx.len() - 1 - k] != ty[ty.len() - 1 - k])
        }),
{
    lemma_suffix_exact(text_of(x), text_of(y), 0);
    assert(diff_end(seq![x], seq![y], pa, pb) == diff_end_from(seq![x], seq![y], 1, 1, pa, pb));
}

} // verus!
