use vstd::prelude::*;
use std::sync::Arc;

use crate::attrs::{Attrs, AttrValue, entries_same};
use crate::mark::{Mark, MarkV, marks_view, copy_marks, same_set};
use crate::schema::{NodeType, spec_is_leaf};
use crate::util::share;

verus! {

/// A node of a document: a type, attributes, child nodes, marks (on inline
/// nodes) and, for text nodes, the text.
#[derive(Debug)]
pub struct Node {
    pub node_type: Arc<NodeType>,
    pub attrs: Attrs,
    pub content: Fragment,
    pub marks: Vec<Mark>,
    pub text: Option<String>,
}

/// An immutable sequence of nodes, with the sum of their sizes.
#[derive(Debug)]
pub struct Fragment {
    pub content: Arc<Vec<Node>>,
    pub size: usize,
}

/// What a node holds, as values.
pub struct NodeV {
    pub node_type: NodeType,
    pub attrs: Seq<(String, AttrValue)>,
    pub content: Seq<NodeV>,
    pub marks: Seq<MarkV>,
    pub text: Option<Seq<char>>,
}

/// The text, as characters.
pub open spec fn text_view(t: Option<String>) -> Option<Seq<char>> {
    match t {
        Some(s) => Some(s@),
        None => None,
    }
}

/// The view of a node.
pub open spec fn node_view(n: Node) -> NodeV
    decreases n,
{
    NodeV {
        node_type: *n.node_type,
        attrs: n.attrs.entries(),
        content: nodes_view(n.content.content@),
        marks: marks_view(n.marks@),
        text: text_view(n.text),
    }
}

/// The views of a list of nodes.
pub open spec fn nodes_view(s: Seq<Node>) -> Seq<NodeV>
    decreases s,
{
    if s.len() == 0 {
        seq![]
    } else {
        nodes_view(s.drop_last()).push(node_view(s.last()))
    }
}

impl View for Node {
    type V = NodeV;

    open spec fn view(&self) -> NodeV {
        node_view(*self)
    }
}

impl View for Fragment {
    type V = Seq<NodeV>;

    open spec fn view(&self) -> Seq<NodeV> {
        nodes_view(self.content@)
    }
}

/// The size a node takes in the position space: the length of its text, 1
/// for a leaf without content, else its content's size plus 2.
pub open spec fn node_size(n: NodeV) -> nat
    decreases n,
{
    match n.text {
        Some(t) => t.len(),
        None => {
            let cs = content_size(n.content);
            if cs == 0 && spec_is_leaf(n.node_type) {
                1
            } else {
                cs + 2
            }
        },
    }
}

/// The sum of the sizes of the nodes.
pub open spec fn content_size(s: Seq<NodeV>) -> nat
    decreases s,
{
    if s.len() == 0 {
        0
    } else {
        content_size(s.drop_last()) + node_size(s.last())
    }
}

pub proof fn lemma_nodes_view_len(s: Seq<Node>)
    ensures
        nodes_view(s).len() == s.len(),
    decreases s.len(),
{
    if s.len() > 0 {
        lemma_nodes_view_len(s.drop_last());
    }
}

pub proof fn lemma_nodes_view_index(s: Seq<Node>, i: int)
    requires
        0 <= i < s.len(),
    ensures
        nodes_view(s).len() == s.len(),
        nodes_view(s)[i] == node_view(s[i]),
    decreases s.len(),
{
    lemma_nodes_view_len(s);
    if i < s.len() - 1 {
        lemma_nodes_view_index(s.drop_last(), i);
    }
}

/// The views of a list of nodes, element by element.
pub proof fn lemma_nodes_view(s: Seq<Node>)
    ensures
        nodes_view(s).len() == s.len(),
        forall|i: int| 0 <= i < s.len() ==> #[trigger] nodes_view(s)[i] == node_view(s[i]),
{
    lemma_nodes_view_len(s);
    assert forall|i: int| 0 <= i < s.len() implies #[trigger] nodes_view(s)[i] == node_view(s[i]) by {
        lemma_nodes_view_index(s, i);
    }
}

/// Lists whose views agree element by element have equal views.
pub proof fn lemma_nodes_view_ext(a: Seq<Node>, b: Seq<Node>)
    requires
        a.len() == b.len(),
        forall|i: int| 0 <= i < a.len() ==> node_view(#[trigger] a[i]) == node_view(b[i]),
    ensures
        nodes_view(a) == nodes_view(b),
{
    lemma_nodes_view(a);
    lemma_nodes_view(b);
    assert(nodes_view(a) =~= nodes_view(b));
}

/// The content size of a concatenation.
pub proof fn lemma_content_size_add(a: Seq<NodeV>, b: Seq<NodeV>)
    ensures
        content_size(a + b) == content_size(a) + content_size(b),
    decreases b.len(),
{
    if b.len() == 0 {
        assert(a + b =~= a);
    } else {
        assert((a + b).drop_last() =~= a + b.drop_last());
        assert((a + b).last() == b.last());
        lemma_content_size_add(a, b.drop_last());
    }
}

/// Each node's size is at most the content size.
pub proof fn lemma_content_size_each(s: Seq<NodeV>, i: int)
    requires
        0 <= i < s.len(),
    ensures
        node_size(s[i]) <= content_size(s),
    decreases s.len(),
{
    if i < s.len() - 1 {
        lemma_content_size_each(s.drop_last(), i);
    }
}

/// The node types of a tree are usable: their automata, where they have
/// one, are well formed.
pub open spec fn type_ok(t: NodeType) -> bool {
    t.content_match matches Some(cm) ==> cm.wf()
}

/// A well-formed node: its type is usable, its content well formed, a text
/// node has no content, and its size fits a `usize`.
pub open spec fn node_wf(n: Node) -> bool
    decreases n,
{
    &&& type_ok(*n.node_type)
    &&& frag_wf(n.content)
    &&& n.text is Some ==> n.content.content@.len() == 0
    &&& n.node_type.is_text == (n.text is Some)
    &&& n.content.size + 2 <= usize::MAX
}

/// A well-formed fragment: well-formed nodes and the size of their sum.
pub open spec fn frag_wf(f: Fragment) -> bool
    decreases f,
{
    &&& forall|i: int| 0 <= i < f.content@.len() ==> node_wf(#[trigger] f.content@[i])
    &&& f.size == content_size(f@)
}

impl Node {
    pub open spec fn wf(&self) -> bool {
        node_wf(*self)
    }

    /// The size of this node in the position space.
    pub fn node_size(&self) -> (r: usize)
        requires
            self.wf(),
        ensures
            r == node_size(self@),
    {
        match &self.text {
            Some(t) => t.as_str().unicode_len(),
            None => {
                if self.content.size == 0 && self.node_type.is_leaf() {
                    1
                } else {
                    self.content.size + 2
                }
            },
        }
    }

    /// A text node.
    pub fn is_text(&self) -> (r: bool)
        ensures
            r == self.node_type.is_text,
    {
        self.node_type.is_text
    }

    /// A block node.
    pub fn is_block(&self) -> (r: bool)
        ensures
            r == self.node_type.is_block,
    {
        self.node_type.is_block
    }

    /// An inline node.
    pub fn is_inline(&self) -> (r: bool)
        ensures
            r == !self.node_type.is_block,
    {
        self.node_type.is_inline()
    }

    /// A node of a leaf type.
    pub fn is_leaf(&self) -> (r: bool)
        requires
            self.wf(),
        ensures
            r == spec_is_leaf(*self.node_type),
    {
        self.node_type.is_leaf()
    }

    /// Whether the node's type holds inline content.
    pub fn inline_content(&self) -> (r: bool)
        ensures
            r == self.node_type.inline_content,
    {
        self.node_type.inline_content
    }

    /// The text of a text node.
    pub fn text(&self) -> (r: Option<&str>)
        ensures
            match r {
                Some(t) => self.text matches Some(s) && t@ == s@,
                None => self.text is None,
            },
    {
        match &self.text {
            Some(t) => Some(t.as_str()),
            None => None,
        }
    }
}

impl Clone for Node {
    fn clone(&self) -> (r: Self)
        ensures
            r@ == self@,
            node_wf(*self) ==> node_wf(r),
    {
        let r = Node {
            node_type: share(&self.node_type),
            attrs: self.attrs.clone(),
            content: self.content.clone(),
            marks: copy_marks(self.marks.as_slice()),
            text: match &self.text {
                Some(t) => Some(t.clone()),
                None => None,
            },
        };
        assert(r.content.content@ == self.content.content@);
        r
    }
}

impl Clone for Fragment {
    fn clone(&self) -> (r: Self)
        ensures
            r == *self,
    {
        Fragment { content: share(&self.content), size: self.size }
    }
}


/// The views of a list after a push.
pub proof fn lemma_nodes_view_push(s: Seq<Node>, x: Node)
    ensures
        nodes_view(s.push(x)) == nodes_view(s).push(node_view(x)),
{
    assert(s.push(x).drop_last() =~= s);
}

/// The content size after a push.
pub proof fn lemma_content_size_push(s: Seq<NodeV>, x: NodeV)
    ensures
        content_size(s.push(x)) == content_size(s) + node_size(x),
{
    assert(s.push(x).drop_last() =~= s);
}

/// The text of a node, or nothing.
pub open spec fn text_of(n: NodeV) -> Seq<char> {
    match n.text {
        Some(t) => t,
        None => seq![],
    }
}

/// The two nodes have types of the same name, and the same attributes and
/// marks.
pub open spec fn same_markup(a: NodeV, b: NodeV) -> bool {
    &&& a.node_type.name@ == b.node_type.name@
    &&& entries_same(a.attrs, b.attrs)
    &&& same_set(a.marks, b.marks)
}

/// Structural equality of nodes: same markup, same text and equal children,
/// pairwise.
pub open spec fn node_eq(a: NodeV, b: NodeV) -> bool
    decreases a,
{
    &&& same_markup(a, b)
    &&& a.text == b.text
    &&& a.content.len() == b.content.len()
    &&& forall|i: int| 0 <= i < a.content.len() ==> node_eq(#[trigger] a.content[i], b.content[i])
}

/// Structural equality of node lists.
pub open spec fn nodes_eq(a: Seq<NodeV>, b: Seq<NodeV>) -> bool {
    &&& a.len() == b.len()
    &&& forall|i: int| 0 <= i < a.len() ==> node_eq(#[trigger] a[i], b[i])
}

/// The node with other content and no text.
pub open spec fn copy_with(n: NodeV, c: Seq<NodeV>) -> NodeV {
    NodeV { content: c, text: None, ..n }
}

/// The node with other text and no content.
pub open spec fn with_text_v(n: NodeV, t: Seq<char>) -> NodeV {
    NodeV { content: seq![], text: Some(t), ..n }
}

/// A copy of a list of nodes.
pub fn copy_nodes(s: &[Node]) -> (r: Vec<Node>)
    ensures
        nodes_view(r@) == nodes_view(s@),
        r@.len() == s@.len(),
        forall|i: int| 0 <= i < s@.len() && node_wf(s@[i]) ==> node_wf(#[trigger] r@[i]),
{
    let mut r: Vec<Node> = Vec::new();
    let mut i: usize = 0;
    while i < s.len()
        invariant
            i <= s@.len(),
            r@.len() == i,
            forall|j: int| 0 <= j < i ==> node_view(#[trigger] r@[j]) == node_view(s@[j]),
            forall|j: int| 0 <= j < i && node_wf(s@[j]) ==> node_wf(#[trigger] r@[j]),
        decreases s@.len() - i,
    {
        r.push(s[i].clone());
        i = i + 1;
    }
    proof {
        lemma_nodes_view_ext(r@, s@);
    }
    r
}

impl Fragment {
    /// A fragment holding the nodes, of the given total size.
    fn from_parts(v: Vec<Node>, size: usize) -> (r: Fragment)
        requires
            forall|i: int| 0 <= i < v@.len() ==> node_wf(#[trigger] v@[i]),
            size == content_size(nodes_view(v@)),
        ensures
            r.content@ == v@,
            r@ == nodes_view(v@),
            frag_wf(r),
    {
        Fragment { content: Arc::new(v), size }
    }

    /// The empty fragment.
    pub fn empty() -> (r: Fragment)
        ensures
            r@ == Seq::<NodeV>::empty(),
            r.content@.len() == 0,
            r.size == 0,
            frag_wf(r),
    {
        let v: Vec<Node> = Vec::new();
        proof {
            assert(nodes_view(v@) =~= Seq::<NodeV>::empty());
        }
        Fragment::from_parts(v, 0)
    }

    /// The number of child nodes.
    pub fn child_count(&self) -> (n: usize)
        ensures
            n == self@.len(),
            n == self.content@.len(),
    {
        proof {
            lemma_nodes_view_len(self.content@);
        }
        self.content.len()
    }

    /// The child at `index`.
    pub fn child(&self, index: usize) -> (r: &Node)
        requires
            index < self.content@.len(),
        ensures
            *r == self.content@[index as int],
            r@ == self@[index as int],
    {
        proof {
            lemma_nodes_view_index(self.content@, index as int);
        }
        &self.content[index]
    }

    /// The child at `index`, if there is one.
    pub fn maybe_child(&self, index: usize) -> (r: Option<&Node>)
        ensures
            match r {
                Some(n) => index < self.content@.len() && *n == self.content@[index as int]
                    && n@ == self@[index as int],
                None => index >= self@.len(),
            },
    {
        proof {
            lemma_nodes_view_len(self.content@);
        }
        if index < self.content.len() {
            Some(self.child(index))
        } else {
            None
        }
    }

    /// The first child, if any.
    pub fn first_child(&self) -> (r: Option<&Node>)
        ensures
            match r {
                Some(n) => self.content@.len() > 0 && *n == self.content@[0] && n@ == self@[0],
                None => self@.len() == 0,
            },
    {
        self.maybe_child(0)
    }

    /// The last child, if any.
    pub fn last_child(&self) -> (r: Option<&Node>)
        ensures
            match r {
                Some(n) => self.content@.len() > 0 && *n == self.content@.last() && n@ == self@.last(),
                None => self@.len() == 0,
            },
    {
        proof {
            lemma_nodes_view_len(self.content@);
        }
        if self.content.len() == 0 {
            None
        } else {
            self.maybe_child(self.content.len() - 1)
        }
    }

    /// Structural equality with another fragment.
    pub fn eq(&self, other: &Fragment) -> (r: bool)
        ensures
            r == nodes_eq(self@, other@),
        decreases *self,
    {
        proof {
            lemma_nodes_view(self.content@);
            lemma_nodes_view(other.content@);
        }
        if self.content.len() != other.content.len() {
            return false;
        }
        let mut i: usize = 0;
        while i < self.content.len()
            invariant
                i <= self.content@.len(),
                self.content@.len() == other.content@.len(),
                self@.len() == self.content@.len(),
                other@.len() == other.content@.len(),
                forall|j: int| 0 <= j < self.content@.len() ==> #[trigger] self@[j] == node_view(self.content@[j]),
                forall|j: int| 0 <= j < other.content@.len() ==> #[trigger] other@[j] == node_view(other.content@[j]),
                forall|j: int| 0 <= j < i ==> node_eq(#[trigger] self@[j], other@[j]),
            decreases self.content@.len() - i,
        {
            assert(decreases_to!(*self => self.content@[i as int]));
            if !self.content[i].eq(&other.content[i]) {
                assert(!node_eq(self@[i as int], other@[i as int]));
                return false;
            }
            i = i + 1;
        }
        true
    }

    /// The fragment with `node` added at the start.
    pub fn add_to_start(&self, node: Node) -> (r: Fragment)
        requires
            frag_wf(*self),
            node_wf(node),
            self.size + node_size(node@) <= usize::MAX,
        ensures
            r@ == seq![node@] + self@,
            frag_wf(r),
    {
        let ns = node.node_size();
        let size = self.size + ns;
        let mut v: Vec<Node> = Vec::new();
        v.push(node);
        let mut i: usize = 0;
        proof {
            lemma_nodes_view(self.content@);
            lemma_content_size_add(seq![node@], self@);
            assert(content_size(seq![node@]) == node_size(node@)) by {
                lemma_content_size_push(Seq::<NodeV>::empty(), node@);
                assert(seq![node@] =~= Seq::<NodeV>::empty().push(node@));
            }
        }
        while i < self.content.len()
            invariant
                frag_wf(*self),
                i <= self.content@.len(),
                v@.len() == i + 1,
                node_view(v@[0]) == node@,
                node_wf(v@[0]),
                forall|j: int| 0 < j <= i ==> node_view(#[trigger] v@[j]) == node_view(self.content@[j - 1]),
                forall|j: int| 0 <= j <= i ==> node_wf(#[trigger] v@[j]),
            decreases self.content@.len() - i,
        {
            assert(node_wf(self.content@[i as int]));
            v.push(self.content[i].clone());
            i = i + 1;
        }
        proof {
            lemma_nodes_view(v@);
            assert(nodes_view(v@) =~= seq![node@] + self@);
        }
        Fragment::from_parts(v, size)
    }

    /// The fragment with `node` added at the end.
    pub fn add_to_end(&self, node: Node) -> (r: Fragment)
        requires
            frag_wf(*self),
            node_wf(node),
            self.size + node_size(node@) <= usize::MAX,
        ensures
            r@ == self@.push(node@),
            frag_wf(r),
    {
        let ns = node.node_size();
        let size = self.size + ns;
        let mut v = copy_nodes(self.content.as_slice());
        let ghost v0 = v@;
        v.push(node);
        proof {
            lemma_nodes_view_push(v0, node);
            lemma_content_size_push(self@, node@);
            assert forall|j: int| 0 <= j < v@.len() implies node_wf(#[trigger] v@[j]) by {
                if j < v0.len() {
                    assert(node_wf(self.content@[j]));
                }
            }
        }
        Fragment::from_parts(v, size)
    }

    /// The fragment with the child at `index` replaced by `node`.
    pub fn replace_child(&self, index: usize, node: Node) -> (r: Fragment)
        requires
            frag_wf(*self),
            node_wf(node),
            index < self.content@.len(),
            self.size + node_size(node@) <= usize::MAX,
        ensures
            r@ == self@.update(index as int, node@),
            frag_wf(r),
    {
        let cur = self.child(index).node_size();
        proof {
            lemma_nodes_view(self.content@);
            lemma_content_size_each(self@, index as int);
            lemma_content_size_update(self@, index as int, node@);
            assert(node_wf(self.content@[index as int]));
        }
        let size = self.size - cur + node.node_size();
        let mut v = copy_nodes(self.content.as_slice());
        let ghost v0 = v@;
        v.set(index, node);
        proof {
            lemma_nodes_view(v0);
            lemma_nodes_view(v@);
            assert(nodes_view(v@) =~= self@.update(index as int, node@));
            assert forall|j: int| 0 <= j < v@.len() implies node_wf(#[trigger] v@[j]) by {
                if j != index {
                    assert(node_wf(self.content@[j]));
                }
            }
        }
        Fragment::from_parts(v, size)
    }
}

/// The content size after one node is replaced.
pub proof fn lemma_content_size_update(s: Seq<NodeV>, i: int, x: NodeV)
    requires
        0 <= i < s.len(),
    ensures
        content_size(s.update(i, x)) == content_size(s) - node_size(s[i]) + node_size(x),
    decreases s.len(),
{
    if i < s.len() - 1 {
        lemma_content_size_update(s.drop_last(), i, x);
        assert(s.update(i, x).drop_last() =~= s.drop_last().update(i, x));
    } else {
        assert(s.update(i, x).drop_last() =~= s.drop_last());
    }
}

impl Node {
    /// Same type, attributes and marks.
    pub fn same_markup(&self, other: &Node) -> (r: bool)
        ensures
            r == same_markup(self@, other@),
    {
        self.node_type.name == other.node_type.name && self.attrs.equals(&other.attrs)
            && Mark::same_set(self.marks.as_slice(), other.marks.as_slice())
    }

    /// Structural equality: same markup, same text and equal content.
    pub fn eq(&self, other: &Node) -> (r: bool)
        ensures
            r == node_eq(self@, other@),
        decreases *self,
    {
        proof {
            lemma_nodes_view(self.content.content@);
            lemma_nodes_view(other.content.content@);
        }
        let same_text = match (&self.text, &other.text) {
            (Some(a), Some(b)) => crate::util::str_eq(a.as_str(), b.as_str()),
            (None, None) => true,
            _ => false,
        };
        self.same_markup(other) && same_text && self.content.eq(&other.content)
    }

    /// A node of the same type, attributes and marks with other content.
    pub fn copy(&self, content: Fragment) -> (r: Node)
        ensures
            r@ == copy_with(self@, content@),
            r.content == content,
            node_wf(*self) && frag_wf(content) && !self.node_type.is_text && content.size + 2
                <= usize::MAX ==> node_wf(r),
    {
        Node {
            node_type: share(&self.node_type),
            attrs: self.attrs.clone(),
            content,
            marks: copy_marks(self.marks.as_slice()),
            text: None,
        }
    }

    /// A node of the same type, attributes and marks with other text and no
    /// content.
    pub fn with_text(&self, text: String) -> (r: Node)
        ensures
            r@ == with_text_v(self@, text@),
            node_wf(*self) && self.node_type.is_text ==> node_wf(r),
    {
        let r = Node {
            node_type: share(&self.node_type),
            attrs: self.attrs.clone(),
            content: Fragment::empty(),
            marks: copy_marks(self.marks.as_slice()),
            text: Some(text),
        };
        proof {
            assert(nodes_view(r.content.content@) =~= Seq::<NodeV>::empty());
        }
        r
    }
}

} // verus!
