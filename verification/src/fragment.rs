use vstd::prelude::*;

use crate::node::{
    Node, NodeV, Fragment, node_view, nodes_view, node_size, content_size, node_wf, frag_wf,
    same_markup, text_of, with_text_v, copy_with, lemma_nodes_view, lemma_nodes_view_push,
    lemma_content_size_push, lemma_content_size_add, lemma_content_size_each,
};

verus! {

/// The text flag of a node agrees with its having text.
pub open spec fn text_ok(n: NodeV) -> bool {
    n.node_type.is_text == (n.text is Some)
}

/// The node's text, as characters (a text node merged onto `a` from `b`).
pub open spec fn merge_text(a: NodeV, b: NodeV) -> NodeV {
    with_text_v(a, text_of(a) + text_of(b))
}

/// Whether `b` merges onto `a`: two text nodes with the same markup.
pub open spec fn joins(a: NodeV, b: NodeV) -> bool {
    a.node_type.is_text && b.node_type.is_text && same_markup(a, b)
}

/// The nodes, with each text node merged onto a preceding text node of the
/// same markup.
pub open spec fn joined(s: Seq<NodeV>) -> Seq<NodeV>
    decreases s.len(),
{
    if s.len() == 0 {
        seq![]
    } else {
        let j = joined(s.drop_last());
        if j.len() > 0 && joins(j.last(), s.last()) {
            j.update(j.len() - 1, merge_text(j.last(), s.last()))
        } else {
            j.push(s.last())
        }
    }
}

/// Two node lists concatenated, the last node of the first merged with the
/// first node of the second where they join; a list of size zero is
/// dropped.
pub open spec fn appended(a: Seq<NodeV>, b: Seq<NodeV>) -> Seq<NodeV> {
    if content_size(b) == 0 {
        a
    } else if content_size(a) == 0 {
        b
    } else if joins(a.last(), b[0]) {
        a.drop_last().push(merge_text(a.last(), b[0])) + b.drop_first()
    } else {
        a + b
    }
}

/// `x` saturating-minus `y`.
pub open spec fn sat_sub(x: int, y: int) -> int {
    if x >= y {
        x - y
    } else {
        0
    }
}

/// The smaller of two integers.
pub open spec fn min_int(x: int, y: int) -> int {
    if x <= y {
        x
    } else {
        y
    }
}

/// The part of the node between `from` and `to`: characters for a text
/// node, content positions otherwise.
pub open spec fn node_cut(n: NodeV, from: int, to: int) -> NodeV
    decreases n, 0int, 0int,
{
    match n.text {
        Some(t) => with_text_v(n, t.subrange(from, to)),
        None => copy_with(n, frag_cut(n.content, from, to)),
    }
}

/// The part of the node list between positions `from` and `to`.
pub open spec fn frag_cut(s: Seq<NodeV>, from: int, to: int) -> Seq<NodeV>
    decreases s, 1int, 0int,
{
    if from == 0 && to == content_size(s) {
        s
    } else if to > from {
        cut_from(s, from, to, 0, 0)
    } else {
        seq![]
    }
}

/// The piece of the child `c`, which starts at `pos`, inside `from..to`.
pub open spec fn cut_piece(c: NodeV, from: int, to: int, pos: int) -> NodeV
    decreases c, 0int, 1int,
{
    let end = pos + node_size(c);
    if pos < from || end > to {
        if c.node_type.is_text {
            node_cut(c, sat_sub(from, pos), min_int(text_of(c).len() as int, to - pos))
        } else {
            node_cut(c, sat_sub(sat_sub(from, pos), 1), min_int(content_size(c.content) as int, sat_sub(to, pos + 1)))
        }
    } else {
        c
    }
}

/// The pieces of the children from index `i` on (the child at `i` starting
/// at `pos`) inside `from..to`.
pub open spec fn cut_from(s: Seq<NodeV>, from: int, to: int, i: int, pos: int) -> Seq<NodeV>
    decreases s, 0int, s.len() - i,
{
    if i < 0 || i >= s.len() {
        seq![]
    } else {
        let end = pos + node_size(s[i]);
        let rest = if end >= to {
            seq![]
        } else {
            cut_from(s, from, to, i + 1, end)
        };
        if end > from {
            seq![cut_piece(s[i], from, to, pos)] + rest
        } else {
            rest
        }
    }
}

/// The child index and offset for a position: the index of the child that
/// the position falls in or ends, and that child's start.
pub open spec fn find_index_from(s: Seq<NodeV>, pos: int, i: int, cur: int) -> (int, int)
    decreases s.len() - i,
{
    if i < 0 || i >= s.len() {
        (s.len() as int, cur)
    } else {
        let end = cur + node_size(s[i]);
        if end >= pos {
            if end == pos {
                (i + 1, end)
            } else {
                (i, cur)
            }
        } else {
            find_index_from(s, pos, i + 1, end)
        }
    }
}

/// Where a position falls among the nodes: (child index, child start).
pub open spec fn find_index(s: Seq<NodeV>, pos: int) -> (int, int) {
    if pos == 0 {
        (0, 0)
    } else if pos == content_size(s) {
        (s.len() as int, pos)
    } else {
        find_index_from(s, pos, 0, 0)
    }
}

/// The nodes of a fragment, well formed.
pub open spec fn all_wf(v: Seq<Node>) -> bool {
    forall|i: int| 0 <= i < v.len() ==> node_wf(#[trigger] v[i])
}

pub proof fn lemma_wf_text_ok(n: Node)
    requires
        node_wf(n),
    ensures
        text_ok(node_view(n)),
{
}

/// The content size of a prefix grows by the next node.
pub proof fn lemma_content_size_take(s: Seq<NodeV>, i: int)
    requires
        0 <= i < s.len(),
    ensures
        content_size(s.take(i + 1)) == content_size(s.take(i)) + node_size(s[i]),
        content_size(s.take(i + 1)) <= content_size(s),
{
    assert(s.take(i + 1).drop_last() =~= s.take(i));
    lemma_content_size_add(s.take(i + 1), s.skip(i + 1));
    assert(s.take(i + 1) + s.skip(i + 1) =~= s);
}

/// Merging keeps the size when both nodes are text nodes.
proof fn lemma_merge_size(a: NodeV, b: NodeV)
    requires
        text_ok(a),
        text_ok(b),
        joins(a, b),
    ensures
        node_size(merge_text(a, b)) == node_size(a) + node_size(b),
        text_ok(merge_text(a, b)),
{
}

/// Joining keeps the total size and the text flags.
pub proof fn lemma_joined(s: Seq<NodeV>)
    requires
        forall|i: int| 0 <= i < s.len() ==> text_ok(#[trigger] s[i]),
    ensures
        content_size(joined(s)) == content_size(s),
        forall|i: int| 0 <= i < joined(s).len() ==> text_ok(#[trigger] joined(s)[i]),
        s.len() > 0 ==> joined(s).len() > 0,
        joined(s).len() <= s.len(),
    decreases s.len(),
{
    if s.len() > 0 {
        let s0 = s.drop_last();
        lemma_joined(s0);
        let j = joined(s0);
        lemma_content_size_push(s0, s.last());
        assert(s0.push(s.last()) =~= s);
        if j.len() > 0 && joins(j.last(), s.last()) {
            lemma_merge_size(j.last(), s.last());
            crate::node::lemma_content_size_update(j, j.len() - 1, merge_text(j.last(), s.last()));
            lemma_content_size_push(j.drop_last(), j.last());
            assert(j.drop_last().push(j.last()) =~= j);
        } else {
            lemma_content_size_push(j, s.last());
        }
    }
}

impl Fragment {
    /// A fragment of the nodes, each text node merged onto a preceding text
    /// node of the same markup.
    pub fn from_array(array: Vec<Node>) -> (r: Fragment)
        requires
            all_wf(array@),
            content_size(nodes_view(array@)) <= usize::MAX,
        ensures
            r@ == joined(nodes_view(array@)),
            frag_wf(r),
    {
        let ghost av = nodes_view(array@);
        proof {
            lemma_nodes_view(array@);
        }
        let mut v: Vec<Node> = Vec::new();
        let mut size: usize = 0;
        let mut i: usize = 0;
        proof {
            assert(av.take(0) =~= Seq::<NodeV>::empty());
            assert(nodes_view(v@) =~= Seq::<NodeV>::empty());
        }
        while i < array.len()
            invariant
                i <= array@.len(),
                av == nodes_view(array@),
                av.len() == array@.len(),
                forall|j: int| 0 <= j < array@.len() ==> #[trigger] av[j] == node_view(array@[j]),
                all_wf(array@),
                content_size(av) <= usize::MAX,
                all_wf(v@),
                nodes_view(v@) == joined(av.take(i as int)),
                size == content_size(av.take(i as int)),
            decreases array@.len() - i,
        {
            let node = &array[i];
            proof {
                lemma_content_size_take(av, i as int);
                assert(av.take(i + 1).drop_last() =~= av.take(i as int));
                assert(node_wf(array@[i as int]));
                lemma_nodes_view(v@);
            }
            size = size + node.node_size();
            let n = v.len();
            let mut merged = false;
            if n > 0 && node.is_text() {
                let prev = &v[n - 1];
                if prev.is_text() && prev.same_markup(node) {
                    let mut t = String::new();
                    match prev.text() {
                        Some(a) => t.append(a),
                        None => {},
                    }
                    match node.text() {
                        Some(b) => t.append(b),
                        None => {},
                    }
                    proof {
                        assert(node_wf(v@[n - 1]));
                    }
                    let m = prev.with_text(t);
                    let ghost v0 = v@;
                    v.set(n - 1, m);
                    merged = true;
                    proof {
                        lemma_nodes_view(v@);
                        lemma_nodes_view(v0);
                        assert(nodes_view(v@) =~= nodes_view(v0).update(n - 1, merge_text(nodes_view(v0).last(), av[i as int])));
                    }
                }
            }
            if !merged {
                let c = node.clone();
                let ghost v0 = v@;
                v.push(c);
                proof {
                    lemma_nodes_view_push(v0, c);
                }
            }
            i = i + 1;
        }
        proof {
            assert(av.take(av.len() as int) =~= av);
            assert forall|j: int| 0 <= j < av.len() implies text_ok(#[trigger] av[j]) by {
                assert(node_wf(array@[j]));
            }
            lemma_joined(av);
        }
        Fragment { content: std::sync::Arc::new(v), size }
    }
}


/// Sizes of parts of a list add up.
pub proof fn lemma_content_size_split(s: Seq<NodeV>, i: int, j: int)
    requires
        0 <= i <= j <= s.len(),
    ensures
        content_size(s) == content_size(s.take(i)) + content_size(s.subrange(i, j)) + content_size(s.skip(j)),
        content_size(s.subrange(i, j)) <= content_size(s),
        content_size(s.take(i)) <= content_size(s),
{
    lemma_content_size_add(s.take(i), s.subrange(i, j));
    assert(s.take(i) + s.subrange(i, j) =~= s.take(j));
    lemma_content_size_add(s.take(j), s.skip(j));
    assert(s.take(j) + s.skip(j) =~= s);
}

/// The first node and the rest.
pub proof fn lemma_content_size_first(s: Seq<NodeV>)
    requires
        s.len() > 0,
    ensures
        content_size(s) == node_size(s[0]) + content_size(s.drop_first()),
{
    lemma_content_size_add(seq![s[0]], s.drop_first());
    assert(seq![s[0]] + s.drop_first() =~= s);
    lemma_content_size_push(Seq::<NodeV>::empty(), s[0]);
    assert(seq![s[0]] =~= Seq::<NodeV>::empty().push(s[0]));
}

/// A list of positive size is not empty.
pub proof fn lemma_content_size_nonempty(s: Seq<NodeV>)
    ensures
        content_size(s) > 0 ==> s.len() > 0,
{
}

/// Cutting never grows a node or a list, and keeps the text flags.
pub proof fn lemma_cut_size(n: NodeV, from: int, to: int)
    requires
        0 <= from <= to,
        n.text is Some ==> to <= text_of(n).len(),
        text_ok(n),
        nested_text_ok(n.content),
    ensures
        node_size(node_cut(n, from, to)) <= node_size(n),
        text_ok(node_cut(n, from, to)),
        nested_text_ok(node_cut(n, from, to).content),
    decreases n, 0int, 0int,
{
    match n.text {
        Some(t) => {
        },
        None => {
            lemma_frag_cut_size(n.content, from, to);
        },
    }
}

/// Every node of the list, at any depth, has consistent text flags.
pub open spec fn nested_text_ok(s: Seq<NodeV>) -> bool
    decreases s,
{
    forall|i: int| 0 <= i < s.len() ==> text_ok(#[trigger] s[i]) && nested_text_ok(s[i].content)
}

pub proof fn lemma_frag_cut_size(s: Seq<NodeV>, from: int, to: int)
    requires
        0 <= from,
        nested_text_ok(s),
    ensures
        content_size(frag_cut(s, from, to)) <= content_size(s),
        nested_text_ok(frag_cut(s, from, to)),
    decreases s, 1int, 0int,
{
    if from == 0 && to == content_size(s) {
    } else if to > from {
        lemma_cut_from_size(s, from, to, 0, 0);
        assert(s.skip(0) =~= s);
    }
}

pub proof fn lemma_cut_piece_size(c: NodeV, from: int, to: int, pos: int)
    requires
        0 <= from < to,
        0 <= pos < to,
        pos + node_size(c) > from,
        text_ok(c),
        nested_text_ok(c.content),
    ensures
        node_size(cut_piece(c, from, to, pos)) <= node_size(c),
        text_ok(cut_piece(c, from, to, pos)),
        nested_text_ok(cut_piece(c, from, to, pos).content),
    decreases c, 0int, 1int,
{
    let end = pos + node_size(c);
    if pos < from || end > to {
        if c.node_type.is_text {
            lemma_cut_size(c, sat_sub(from, pos), min_int(text_of(c).len() as int, to - pos));
        } else {
            lemma_cut_size(c, sat_sub(sat_sub(from, pos), 1), min_int(content_size(c.content) as int, sat_sub(to, pos + 1)));
        }
    }
}

pub proof fn lemma_cut_from_size(s: Seq<NodeV>, from: int, to: int, i: int, pos: int)
    requires
        0 <= from < to,
        0 <= pos < to,
        0 <= i <= s.len(),
        nested_text_ok(s),
    ensures
        content_size(cut_from(s, from, to, i, pos)) <= content_size(s.skip(i)),
        nested_text_ok(cut_from(s, from, to, i, pos)),
    decreases s, 0int, s.len() - i,
{
    if i < s.len() {
        let end = pos + node_size(s[i]);
        let rest = if end >= to {
            seq![]
        } else {
            cut_from(s, from, to, i + 1, end)
        };
        lemma_content_size_first(s.skip(i));
        assert(s.skip(i).drop_first() =~= s.skip(i + 1));
        if end < to {
            lemma_cut_from_size(s, from, to, i + 1, end);
        }
        if end > from {
            lemma_cut_piece_size(s[i], from, to, pos);
            let p = cut_piece(s[i], from, to, pos);
            lemma_content_size_first(seq![p] + rest);
            assert((seq![p] + rest).drop_first() =~= rest);
            assert forall|k: int| 0 <= k < (seq![p] + rest).len() implies text_ok(#[trigger] (seq![p] + rest)[k]) && nested_text_ok((seq![p] + rest)[k].content) by {
                if k > 0 {
                    assert((seq![p] + rest)[k] == rest[k - 1]);
                }
            }
        }
    }
}

/// Appending two node lists adds their sizes (text nodes merged at the
/// seam keep the sum of their lengths).
pub proof fn law_append_size(a: Seq<NodeV>, b: Seq<NodeV>)
    requires
        forall|i: int| 0 <= i < a.len() ==> text_ok(#[trigger] a[i]),
        forall|i: int| 0 <= i < b.len() ==> text_ok(#[trigger] b[i]),
    ensures
        content_size(appended(a, b)) == content_size(a) + content_size(b),
{
    lemma_content_size_nonempty(a);
    lemma_content_size_nonempty(b);
    if content_size(b) == 0 {
    } else if content_size(a) == 0 {
    } else if joins(a.last(), b[0]) {
        lemma_content_size_first(b);
        lemma_merge_size(a.last(), b[0]);
        lemma_content_size_add(a.drop_last().push(merge_text(a.last(), b[0])), b.drop_first());
        lemma_content_size_push(a.drop_last(), merge_text(a.last(), b[0]));
        lemma_content_size_push(a.drop_last(), a.last());
        assert(a.drop_last().push(a.last()) =~= a);
    } else {
        lemma_content_size_add(a, b);
    }
}

impl Fragment {
    /// The two fragments one after the other, a text node at the end of the
    /// first merged with a text node of the same markup at the start of the
    /// second.
    pub fn append(&self, other: &Fragment) -> (r: Fragment)
        requires
            frag_wf(*self),
            frag_wf(*other),
            self.size + other.size <= usize::MAX,
        ensures
            r@ == appended(self@, other@),
            frag_wf(r),
    {
        if other.size == 0 {
            return self.clone();
        }
        if self.size == 0 {
            return other.clone();
        }
        proof {
            lemma_nodes_view(self.content@);
            lemma_nodes_view(other.content@);
        }
        let n = self.content.len();
        let m = other.content.len();
        let mut v = crate::node::copy_nodes(self.content.as_slice());
        let mut i: usize = 0;
        let last = &self.content[n - 1];
        let first = &other.content[0];
        proof {
            assert(node_wf(self.content@[n - 1]));
            assert(node_wf(other.content@[0]));
            lemma_nodes_view(v@);
        }
        let ghost a = self@;
        let ghost b = other@;
        proof {
            lemma_content_size_nonempty(a);
            lemma_content_size_nonempty(b);
        }
        let merged = last.is_text() && first.is_text() && last.same_markup(first);
        if merged {
            let mut t = String::new();
            match last.text() {
                Some(x) => t.append(x),
                None => {},
            }
            match first.text() {
                Some(y) => t.append(y),
                None => {},
            }
            let mg = last.with_text(t);
            v.set(n - 1, mg);
            i = 1;
            proof {
                lemma_nodes_view(v@);
                assert(nodes_view(v@) =~= a.drop_last().push(merge_text(a.last(), b[0])));
            }
        }
        let ghost pre = nodes_view(v@);
        proof {
            assert(b.subrange(i as int, i as int) =~= Seq::<NodeV>::empty());
            assert(pre + b.subrange(i as int, i as int) =~= pre);
        }
        while i < m
            invariant
                frag_wf(*other),
                m == other.content@.len(),
                b == other@,
                b.len() == m,
                forall|j: int| 0 <= j < m ==> #[trigger] b[j] == node_view(other.content@[j]),
                (if merged { 1int } else { 0int }) <= i <= m,
                nodes_view(v@) == pre + b.subrange(if merged { 1int } else { 0int }, i as int),
                all_wf(v@),
            decreases m - i,
        {
            assert(node_wf(other.content@[i as int]));
            let c = other.content[i].clone();
            let ghost v0 = v@;
            v.push(c);
            proof {
                lemma_nodes_view_push(v0, c);
                assert(nodes_view(v@) =~= pre + b.subrange(if merged { 1int } else { 0int }, i + 1));
            }
            i = i + 1;
        }
        proof {
            lemma_content_size_first(b);
            if merged {
                assert(b.subrange(1, m as int) =~= b.drop_first());
                lemma_wf_text_ok(self.content@[n - 1]);
                lemma_wf_text_ok(other.content@[0]);
                lemma_merge_size(a.last(), b[0]);
                lemma_content_size_add(a.drop_last().push(merge_text(a.last(), b[0])), b.drop_first());
                lemma_content_size_push(a.drop_last(), merge_text(a.last(), b[0]));
                lemma_content_size_push(a.drop_last(), a.last());
                assert(a.drop_last().push(a.last()) =~= a);
            } else {
                assert(b.subrange(0, m as int) =~= b);
                lemma_content_size_add(a, b);
            }
        }
        let size = self.size + other.size;
        Fragment { content: std::sync::Arc::new(v), size }
    }
}


/// The text flags of a well-formed fragment are consistent at every depth.
pub proof fn lemma_frag_wf_text(f: Fragment)
    requires
        frag_wf(f),
    ensures
        nested_text_ok(f@),
    decreases f,
{
    lemma_nodes_view(f.content@);
    assert forall|i: int| 0 <= i < f@.len() implies text_ok(#[trigger] f@[i]) && nested_text_ok(f@[i].content) by {
        let n = f.content@[i];
        assert(node_wf(n));
        assert(decreases_to!(f => n));
        lemma_node_wf_text(n);
    }
}

pub proof fn lemma_node_wf_text(n: Node)
    requires
        node_wf(n),
    ensures
        text_ok(node_view(n)),
        nested_text_ok(node_view(n).content),
    decreases n,
{
    lemma_frag_wf_text(n.content);
}

impl Node {
    /// The part of the node between `from` and `to`: characters of a text
    /// node, content positions of another node.
    pub fn cut(&self, from: usize, to: usize) -> (r: Node)
        requires
            node_wf(*self),
            self.text is Some ==> from <= to <= text_of(self@).len(),
        ensures
            r@ == node_cut(self@, from as int, to as int),
            node_wf(r),
        decreases *self,
    {
        match &self.text {
            Some(t) => {
                let piece = String::from_str(t.as_str().substring_char(from, to));
                self.with_text(piece)
            },
            None => {
                let c = self.content.cut_range(from, to);
                proof {
                    lemma_frag_wf_text(self.content);
                    lemma_frag_cut_size(self.content@, from as int, to as int);
                }
                self.copy(c)
            },
        }
    }
}

impl Fragment {
    /// The part of the fragment between positions `from` and `to` (to the
    /// end when `to` is none).
    pub fn cut(&self, from: usize, to: Option<usize>) -> (r: Fragment)
        requires
            frag_wf(*self),
        ensures
            r@ == frag_cut(self@, from as int, match to { Some(t) => t as int, None => self.size as int }),
            frag_wf(r),
    {
        let t = match to {
            Some(t) => t,
            None => self.size,
        };
        self.cut_range(from, t)
    }

    /// The part of the fragment between positions `from` and `to`.
    pub fn cut_range(&self, from: usize, to: usize) -> (r: Fragment)
        requires
            frag_wf(*self),
        ensures
            r@ == frag_cut(self@, from as int, to as int),
            frag_wf(r),
        decreases *self,
    {
        if from == 0 && to == self.size {
            return self.clone();
        }
        let ghost s = self@;
        let mut result: Vec<Node> = Vec::new();
        let mut size: usize = 0;
        if to > from {
            proof {
                lemma_nodes_view(self.content@);
                lemma_frag_wf_text(*self);
                lemma_cut_from_size(s, from as int, to as int, 0, 0);
                assert(s.skip(0) =~= s);
                assert(nodes_view(result@) =~= Seq::<NodeV>::empty());
            }
            let n = self.content.len();
            let mut pos: usize = 0;
            let mut i: usize = 0;
            while i < n && pos < to
                invariant
                    frag_wf(*self),
                    s == self@,
                    n == self.content@.len(),
                    s.len() == n,
                    forall|j: int| 0 <= j < n ==> #[trigger] s[j] == node_view(self.content@[j]),
                    nested_text_ok(s),
                    from < to,
                    i <= n,
                    pos == content_size(s.take(i as int)),
                    all_wf(result@),
                    size == content_size(nodes_view(result@)),
                    size + content_size(if pos < to { cut_from(s, from as int, to as int, i as int, pos as int) } else { seq![] }) <= content_size(s),
                    nodes_view(result@) + (if pos < to { cut_from(s, from as int, to as int, i as int, pos as int) } else { seq![] })
                        == cut_from(s, from as int, to as int, 0, 0),
                decreases n - i,
            {
                let child = &self.content[i];
                proof {
                    assert(node_wf(self.content@[i as int]));
                    lemma_content_size_take(s, i as int);
                    assert(decreases_to!(*self => self.content@[i as int]));
                }
                let end = pos + child.node_size();
                let ghost rest = if end >= to { Seq::<NodeV>::empty() } else { cut_from(s, from as int, to as int, i + 1, end as int) };
                if end > from {
                    let piece = if pos < from || end > to {
                        if child.is_text() {
                            let len = match &child.text {
                                Some(t) => t.as_str().unicode_len(),
                                None => 0,
                            };
                            let a = if from >= pos { from - pos } else { 0 };
                            let b = if len <= to - pos { len } else { to - pos };
                            child.cut(a, b)
                        } else {
                            let a0 = if from >= pos { from - pos } else { 0 };
                            let a = if a0 >= 1 { a0 - 1 } else { 0 };
                            let b0 = if to >= pos + 1 { to - (pos + 1) } else { 0 };
                            let b = if child.content.size <= b0 { child.content.size } else { b0 };
                            child.cut(a, b)
                        }
                    } else {
                        child.clone()
                    };
                    proof {
                        lemma_cut_piece_size(s[i as int], from as int, to as int, pos as int);
                        assert(piece@ == cut_piece(s[i as int], from as int, to as int, pos as int));
                        if end < to {
                            lemma_cut_from_size(s, from as int, to as int, i + 1, end as int);
                        }
                        lemma_content_size_first(seq![piece@] + rest);
                        assert((seq![piece@] + rest).drop_first() =~= rest);
                    }
                    let ps = piece.node_size();
                    let ghost r0 = result@;
                    size = size + ps;
                    result.push(piece);
                    proof {
                        crate::node::lemma_nodes_view_push(r0, piece);
                        lemma_content_size_push(nodes_view(r0), piece@);
                        assert(nodes_view(result@) + rest =~= nodes_view(r0) + (seq![piece@] + rest));
                    }
                } else {
                    proof {
                        assert(cut_from(s, from as int, to as int, i as int, pos as int) == rest);
                    }
                }
                pos = end;
                i = i + 1;
                proof {
                    if pos >= to {
                        assert(nodes_view(result@) + rest =~= nodes_view(result@));
                    }
                }
            }
            proof {
                if pos < to {
                    assert(cut_from(s, from as int, to as int, i as int, pos as int) == Seq::<NodeV>::empty());
                }
                assert(nodes_view(result@) + Seq::<NodeV>::empty() =~= nodes_view(result@));
            }
        } else {
            proof {
                assert(nodes_view(result@) =~= Seq::<NodeV>::empty());
            }
        }
        Fragment { content: std::sync::Arc::new(result), size }
    }
}


/// What `find_index` gives: a child index and that child's start, with the
/// position at the start of that child or strictly inside it.
pub proof fn lemma_find_index(s: Seq<NodeV>, pos: int)
    requires
        0 <= pos <= content_size(s),
    ensures
        0 <= find_index(s, pos).0 <= s.len(),
        find_index(s, pos).1 == content_size(s.take(find_index(s, pos).0)),
        find_index(s, pos).1 <= pos,
        find_index(s, pos).1 < pos ==> find_index(s, pos).0 < s.len() && pos < find_index(s, pos).1
            + node_size(s[find_index(s, pos).0]),
{
    if pos == 0 {
        assert(s.take(0) =~= Seq::<NodeV>::empty());
    } else if pos == content_size(s) {
        assert(s.take(s.len() as int) =~= s);
    } else {
        assert(s.take(0) =~= Seq::<NodeV>::empty());
        lemma_find_index_from(s, pos, 0, 0);
    }
}

proof fn lemma_find_index_from(s: Seq<NodeV>, pos: int, i: int, cur: int)
    requires
        0 <= i <= s.len(),
        cur == content_size(s.take(i)),
        cur < pos < content_size(s),
    ensures
        0 <= find_index_from(s, pos, i, cur).0 <= s.len(),
        find_index_from(s, pos, i, cur).1 == content_size(s.take(find_index_from(s, pos, i, cur).0)),
        find_index_from(s, pos, i, cur).1 <= pos,
        find_index_from(s, pos, i, cur).1 < pos ==> find_index_from(s, pos, i, cur).0 < s.len() && pos
            < find_index_from(s, pos, i, cur).1 + node_size(s[find_index_from(s, pos, i, cur).0]),
    decreases s.len() - i,
{
    if i == s.len() {
        assert(s.take(i) =~= s);
    } else {
        lemma_content_size_take(s, i);
        let end = cur + node_size(s[i]);
        if end < pos {
            lemma_find_index_from(s, pos, i + 1, end);
        }
    }
}

/// What `Fragment::from` takes: nothing, a fragment, a node or nodes.
#[derive(Debug)]
pub enum FragmentInput {
    Nothing,
    Fragment(Fragment),
    Node(Node),
    Nodes(Vec<Node>),
}

/// The input is well formed and its size fits.
pub open spec fn input_ok(i: FragmentInput) -> bool {
    match i {
        FragmentInput::Nothing => true,
        FragmentInput::Fragment(f) => frag_wf(f),
        FragmentInput::Node(n) => node_wf(n),
        FragmentInput::Nodes(v) => all_wf(v@) && content_size(nodes_view(v@)) <= usize::MAX,
    }
}

/// The nodes of the fragment made from the input.
pub open spec fn input_nodes(i: FragmentInput) -> Seq<NodeV> {
    match i {
        FragmentInput::Nothing => seq![],
        FragmentInput::Fragment(f) => f@,
        FragmentInput::Node(n) => seq![node_view(n)],
        FragmentInput::Nodes(v) => joined(nodes_view(v@)),
    }
}

impl Fragment {
    /// The child index and child start for a position.
    pub fn find_index(&self, pos: usize) -> (r: (usize, usize))
        requires
            frag_wf(*self),
            pos <= self.size,
        ensures
            (r.0 as int, r.1 as int) == find_index(self@, pos as int),
    {
        if pos == 0 {
            return (0, 0);
        }
        proof {
            lemma_nodes_view(self.content@);
        }
        let n = self.content.len();
        if pos == self.size {
            return (n, pos);
        }
        let ghost s = self@;
        let mut cur: usize = 0;
        let mut i: usize = 0;
        proof {
            assert(s.take(0) =~= Seq::<NodeV>::empty());
        }
        while i < n
            invariant
                frag_wf(*self),
                s == self@,
                n == self.content@.len(),
                s.len() == n,
                forall|j: int| 0 <= j < n ==> #[trigger] s[j] == node_view(self.content@[j]),
                i <= n,
                cur == content_size(s.take(i as int)),
                cur < pos,
                pos < content_size(s),
                find_index(s, pos as int) == find_index_from(s, pos as int, i as int, cur as int),
            decreases n - i,
        {
            proof {
                assert(node_wf(self.content@[i as int]));
                lemma_content_size_take(s, i as int);
            }
            let end = cur + self.content[i].node_size();
            if end >= pos {
                if end == pos {
                    return (i + 1, end);
                }
                return (i, cur);
            }
            cur = end;
            i = i + 1;
        }
        (n, cur)
    }

    /// The children from index `from` up to `to`, copied as they are.
    pub fn cut_by_index(&self, from: usize, to: usize) -> (r: Fragment)
        requires
            frag_wf(*self),
            from <= to <= self.content@.len(),
        ensures
            r@ == if from == to {
                Seq::<NodeV>::empty()
            } else if from == 0 && to == self@.len() {
                self@
            } else {
                self@.subrange(from as int, to as int)
            },
            frag_wf(r),
    {
        proof {
            lemma_nodes_view(self.content@);
        }
        if from == to {
            return Fragment::empty();
        }
        if from == 0 && to == self.content.len() {
            return self.clone();
        }
        let mut v: Vec<Node> = Vec::new();
        let mut size: usize = 0;
        let mut i: usize = from;
        proof {
            assert(nodes_view(v@) =~= self@.subrange(from as int, from as int));
        }
        while i < to
            invariant
                frag_wf(*self),
                from <= i <= to,
                to <= self.content@.len(),
                self@.len() == self.content@.len(),
                forall|j: int| 0 <= j < self.content@.len() ==> #[trigger] self@[j] == node_view(self.content@[j]),
                nodes_view(v@) == self@.subrange(from as int, i as int),
                all_wf(v@),
                size == content_size(self@.subrange(from as int, i as int)),
            decreases to - i,
        {
            assert(node_wf(self.content@[i as int]));
            proof {
                lemma_content_size_split(self@, from as int, i + 1);
                assert(self@.subrange(from as int, i + 1).drop_last() =~= self@.subrange(from as int, i as int));
                assert(self@.subrange(from as int, i + 1).last() == self@[i as int]);
            }
            let ns = self.content[i].node_size();
            size = size + ns;
            let c = self.content[i].clone();
            let ghost v0 = v@;
            v.push(c);
            proof {
                lemma_nodes_view_push(v0, c);
                assert(nodes_view(v@) =~= self@.subrange(from as int, i + 1));
            }
            i = i + 1;
        }
        let r = Fragment { content: std::sync::Arc::new(v), size };
        proof {
            lemma_nodes_view(r.content@);
            assert forall|k: int| 0 <= k < r.content@.len() implies node_wf(#[trigger] r.content@[k]) by {
                assert(all_wf(v@));
            }
        }
        r
    }

    /// A fragment from nothing, a fragment, one node, or nodes (joined).
    pub fn from(nodes: FragmentInput) -> (r: Fragment)
        requires
            input_ok(nodes),
        ensures
            r@ == input_nodes(nodes),
            frag_wf(r),
    {
        match nodes {
            FragmentInput::Nothing => Fragment::empty(),
            FragmentInput::Fragment(f) => f,
            FragmentInput::Node(n) => {
                let size = n.node_size();
                let mut v: Vec<Node> = Vec::new();
                v.push(n);
                proof {
                    lemma_nodes_view_push(Seq::<Node>::empty(), n);
                    assert(Seq::<Node>::empty().push(n) =~= v@);
                    assert(nodes_view(Seq::<Node>::empty()) =~= Seq::<NodeV>::empty());
                    assert(seq![node_view(n)] =~= Seq::<NodeV>::empty().push(node_view(n)));
                    lemma_content_size_push(Seq::<NodeV>::empty(), node_view(n));
                }
                Fragment { content: std::sync::Arc::new(v), size }
            },
            FragmentInput::Nodes(ns) => Fragment::from_array(ns),
        }
    }
}

} // verus!

verus! {

impl Fragment {
    /// Calls `f` on each child with its offset and index, in order.
    pub fn for_each<F: FnMut(&Node, usize, usize)>(&self, mut f: F)
        requires
            frag_wf(*self),
            forall|n: &Node, p: usize, i: usize| #[trigger] f.requires((n, p, i)),
    {
        proof {
            lemma_nodes_view(self.content@);
            assert(self@.take(0) =~= Seq::<NodeV>::empty());
        }
        let mut pos: usize = 0;
        let mut i: usize = 0;
        while i < self.content.len()
            invariant
                frag_wf(*self),
                forall|n: &Node, p: usize, j: usize| #[trigger] f.requires((n, p, j)),
                i <= self.content@.len(),
                self@.len() == self.content@.len(),
                forall|j: int| 0 <= j < self.content@.len() ==> #[trigger] self@[j] == node_view(self.content@[j]),
                pos == content_size(self@.take(i as int)),
            decreases self.content@.len() - i,
        {
            let node = &self.content[i];
            proof {
                assert(node_wf(self.content@[i as int]));
                lemma_content_size_take(self@, i as int);
            }
            f(node, pos, i);
            pos = pos + node.node_size();
            i = i + 1;
        }
    }

    /// Calls `f` on every node, at any depth, that overlaps positions
    /// `from..to` (none when `to` is 0), with its absolute start, its parent and its index; the
    /// children of a node are visited only when `f` returns true for it.
    /// (`f` is shared, as a function that keeps its state to itself.)
    pub fn nodes_between<F: Fn(&Node, usize, Option<&Node>, usize) -> bool>(
        &self,
        from: usize,
        to: usize,
        f: &F,
        node_start: usize,
        parent: Option<&Node>,
    )
        requires
            frag_wf(*self),
            node_start + self.size <= usize::MAX,
            forall|n: &Node, p: usize, q: Option<&Node>, i: usize| #[trigger] f.requires((n, p, q, i)),
        decreases *self,
    {
        proof {
            lemma_nodes_view(self.content@);
            assert(self@.take(0) =~= Seq::<NodeV>::empty());
        }
        let mut pos: usize = 0;
        let mut i: usize = 0;
        while i < self.content.len() && pos < to
            invariant
                frag_wf(*self),
                node_start + self.size <= usize::MAX,
                forall|n: &Node, p: usize, q: Option<&Node>, j: usize| #[trigger] f.requires((n, p, q, j)),
                i <= self.content@.len(),
                self@.len() == self.content@.len(),
                forall|j: int| 0 <= j < self.content@.len() ==> #[trigger] self@[j] == node_view(self.content@[j]),
                pos == content_size(self@.take(i as int)),
            decreases self.content@.len() - i,
        {
            let child = &self.content[i];
            proof {
                assert(node_wf(self.content@[i as int]));
                lemma_content_size_take(self@, i as int);
                crate::node::lemma_content_size_each(self@, i as int);
            }
            let end = pos + child.node_size();
            if end > from {
                let go = f(child, node_start + pos, parent, i);
                if go && child.content.size > 0 {
                    let start = pos + 1;
                    let a = if from >= start { from - start } else { 0 };
                    let b0 = if to >= start { to - start } else { 0 };
                    let b = if child.content.size <= b0 { child.content.size } else { b0 };
                    proof {
                        assert(decreases_to!(*self => self.content@[i as int]));
                    }
                    child.content.nodes_between(a, b, f, node_start + start, Some(child));
                }
            }
            pos = end;
            i = i + 1;
        }
    }
}


/// Appending merges nothing but text nodes of the same markup: where the
/// last node of the first list and the first of the second are not two text
/// nodes with the same type name, attributes and marks, the result is the
/// two lists one after the other, every node as it was.
pub proof fn law_append_merges_only_same_markup(a: Seq<NodeV>, b: Seq<NodeV>)
    requires
        content_size(a) > 0,
        content_size(b) > 0,
        !(a.last().node_type.is_text && b[0].node_type.is_text && same_markup(a.last(), b[0])),
    ensures
        appended(a, b) == a + b,
{
}

/// Appending keeps every node's markup: each node of the result has the
/// type, attributes and marks of a node of one of the two lists.
pub proof fn law_append_keeps_markup(a: Seq<NodeV>, b: Seq<NodeV>)
    ensures
        forall|i: int| 0 <= i < appended(a, b).len() ==> exists|j: int| 0 <= j < (a + b).len()
            && (#[trigger] appended(a, b)[i]).node_type == (a + b)[j].node_type
            && appended(a, b)[i].attrs == (a + b)[j].attrs && appended(a, b)[i].marks == (a + b)[j].marks,
{
    let r = appended(a, b);
    assert forall|i: int| 0 <= i < r.len() implies exists|j: int| 0 <= j < (a + b).len()
        && (#[trigger] r[i]).node_type == (a + b)[j].node_type && r[i].attrs == (a + b)[j].attrs && r[i].marks == (a + b)[j].marks by {
        if content_size(b) == 0 {
            assert(r[i] == (a + b)[i]);
        } else if content_size(a) == 0 {
            assert(r[i] == (a + b)[i + a.len()]);
        } else if joins(a.last(), b[0]) {
            if i < a.len() - 1 {
                assert(r[i] == (a + b)[i]);
            } else if i == a.len() - 1 {
                assert((a + b)[i] == a.last());
            } else {
                assert(r[i] == (a + b)[i + 1]);
            }
        } else {
            assert(r[i] == (a + b)[i]);
        }
    }
}


/// The texts of the nodes of a list, one after the other.
pub open spec fn top_text(s: Seq<NodeV>) -> Seq<char>
    decreases s.len(),
{
    if s.len() == 0 {
        seq![]
    } else {
        top_text(s.drop_last()) + text_of(s.last())
    }
}

/// The texts of two lists one after the other.
proof fn lemma_top_text_add(a: Seq<NodeV>, b: Seq<NodeV>)
    ensures
        top_text(a + b) == top_text(a) + top_text(b),
    decreases b.len(),
{
    if b.len() == 0 {
        assert(a + b =~= a);
        assert(top_text(a) + Seq::<char>::empty() =~= top_text(a));
    } else {
        lemma_top_text_add(a, b.drop_last());
        assert((a + b).drop_last() =~= a + b.drop_last());
        assert((a + b).last() == b.last());
        assert(top_text(a) + top_text(b.drop_last()) + text_of(b.last()) =~= top_text(a) + (top_text(b.drop_last()) + text_of(b.last())));
    }
}

/// A list of size zero holds no text.
proof fn lemma_top_text_zero(s: Seq<NodeV>)
    requires
        content_size(s) == 0,
    ensures
        top_text(s) == Seq::<char>::empty(),
    decreases s.len(),
{
    if s.len() > 0 {
        lemma_content_size_push(s.drop_last(), s.last());
        assert(s.drop_last().push(s.last()) =~= s);
        lemma_top_text_zero(s.drop_last());
        let n = s.last();
        assert(node_size(n) == 0);
        assert(text_of(n) =~= Seq::<char>::empty());
    }
}

/// Appending keeps every character, in order: the texts of the result are
/// those of the first list followed by those of the second.
pub proof fn law_append_keeps_text(a: Seq<NodeV>, b: Seq<NodeV>)
    ensures
        top_text(appended(a, b)) == top_text(a) + top_text(b),
{
    if content_size(b) == 0 {
        lemma_top_text_zero(b);
        assert(top_text(a) + Seq::<char>::empty() =~= top_text(a));
    } else if content_size(a) == 0 {
        lemma_top_text_zero(a);
        assert(Seq::<char>::empty() + top_text(b) =~= top_text(b));
    } else if joins(a.last(), b[0]) {
        lemma_content_size_nonempty(a);
        lemma_content_size_nonempty(b);
        let m = merge_text(a.last(), b[0]);
        let left = a.drop_last().push(m);
        lemma_top_text_add(left, b.drop_first());
        assert(left.drop_last() =~= a.drop_last());
        assert(a.drop_last().push(a.last()) =~= a);
        assert(top_text(a) == top_text(a.drop_last()) + text_of(a.last()));
        lemma_top_text_add(seq![b[0]], b.drop_first());
        assert(seq![b[0]] + b.drop_first() =~= b);
        assert(seq![b[0]].drop_last() =~= Seq::<NodeV>::empty());
        assert(seq![b[0]].last() == b[0]);
        assert(top_text(Seq::<NodeV>::empty()) =~= Seq::<char>::empty());
        assert(top_text(seq![b[0]]) == top_text(Seq::<NodeV>::empty()) + text_of(b[0]));
        assert(Seq::<char>::empty() + text_of(b[0]) =~= text_of(b[0]));
        assert(text_of(m) == text_of(a.last()) + text_of(b[0]));
        assert(top_text(left) == top_text(a.drop_last()) + text_of(m));
        assert(top_text(a.drop_last()) + (text_of(a.last()) + text_of(b[0])) + top_text(b.drop_first())
            =~= (top_text(a.drop_last()) + text_of(a.last())) + (text_of(b[0]) + top_text(b.drop_first())));
    } else {
        lemma_top_text_add(a, b);
    }
}

} // verus!
