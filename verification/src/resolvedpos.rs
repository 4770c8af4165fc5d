use vstd::prelude::*;

use crate::decimal::{decimal, push_decimal};
use crate::fragment::{find_index, lemma_find_index, text_ok, node_cut};
use crate::node::{Node, NodeV, node_view, node_size, content_size, node_wf, frag_wf, lemma_nodes_view, lemma_content_size_each};
use crate::mark::{Mark, MarkV, marks_view, in_set, removed, copy_marks, lemma_marks_view};

verus! {

/// One level of a resolved position: an ancestor node, the index of the
/// child the position is in or before, and the position where that child
/// (or the position itself) starts.
#[derive(Debug)]
pub struct PathEntry {
    pub node: Node,
    pub index: usize,
    pub start: usize,
}

/// A position in a document with its chain of ancestors, from the document
/// down to the innermost node that holds it.
#[derive(Debug)]
pub struct ResolvedPos {
    pub pos: usize,
    pub path: Vec<PathEntry>,
    pub parent_offset: usize,
}

/// What a resolved position holds, as values: the position, its offset in
/// the innermost ancestor, and for each level the ancestor, the child index
/// and that child's start.
pub struct RPV {
    pub pos: int,
    pub offset: int,
    pub path: Seq<(NodeV, int, int)>,
}

impl RPV {
    /// The depth.
    pub open spec fn depth(self) -> int {
        self.path.len() - 1
    }

    /// The ancestor at level `d`.
    pub open spec fn nd(self, d: int) -> NodeV {
        self.path[d].0
    }

    /// The child index at level `d`.
    pub open spec fn ix(self, d: int) -> int {
        self.path[d].1
    }

    /// The offset into a text node the position is inside, or 0.
    pub open spec fn toff(self) -> int {
        self.pos - self.path[self.depth()].2
    }

    /// The node after the position (the rest of a text node it is inside).
    pub open spec fn after(self) -> Option<NodeV> {
        let p = self.nd(self.depth());
        let i = self.ix(self.depth());
        if i >= p.content.len() {
            None
        } else if self.toff() > 0 {
            Some(node_cut(p.content[i], self.toff(), node_size(p.content[i]) as int))
        } else {
            Some(p.content[i])
        }
    }

    /// The node before the position (the start of a text node it is inside).
    pub open spec fn before(self) -> Option<NodeV> {
        let p = self.nd(self.depth());
        let i = self.ix(self.depth());
        if self.toff() > 0 {
            Some(node_cut(p.content[i], 0, self.toff()))
        } else if i == 0 {
            None
        } else {
            Some(p.content[i - 1])
        }
    }
}

/// The resolved position of `pos` in `doc`, as values.
pub open spec fn resolved(doc: NodeV, pos: int) -> RPV {
    RPV { pos, offset: roffset(doc, pos), path: rpath(doc, pos, 0) }
}

impl View for ResolvedPos {
    type V = RPV;

    open spec fn view(&self) -> RPV {
        RPV { pos: self.pos as int, offset: self.parent_offset as int, path: self.path_view() }
    }
}

/// What a path entry holds, as values.
pub open spec fn entry_view(e: PathEntry) -> (NodeV, int, int) {
    (node_view(e.node), e.index as int, e.start as int)
}

/// The ancestor chain of position `off` inside `n`, whose content starts at
/// `start`: at each level the node, the child index and that child's start.
pub open spec fn rpath(n: NodeV, off: int, start: int) -> Seq<(NodeV, int, int)>
    decreases n,
{
    let fi = find_index(n.content, off);
    let rem = off - fi.1;
    let e = (n, fi.0, start + fi.1);
    if rem <= 0 || fi.0 < 0 || fi.0 >= n.content.len() {
        seq![e]
    } else if n.content[fi.0].node_type.is_text {
        seq![e]
    } else {
        seq![e] + rpath(n.content[fi.0], rem - 1, start + fi.1 + 1)
    }
}

/// The offset of the position inside its innermost ancestor.
pub open spec fn roffset(n: NodeV, off: int) -> int
    decreases n,
{
    let fi = find_index(n.content, off);
    let rem = off - fi.1;
    if rem <= 0 || fi.0 < 0 || fi.0 >= n.content.len() {
        off
    } else if n.content[fi.0].node_type.is_text {
        off
    } else {
        roffset(n.content[fi.0], rem - 1)
    }
}

impl ResolvedPos {
    /// The entries of the path, as values.
    pub open spec fn path_view(&self) -> Seq<(NodeV, int, int)> {
        self.path@.map_values(|e: PathEntry| entry_view(e))
    }

    /// The resolved position is that of `pos` in `doc`.
    pub open spec fn of(&self, doc: NodeV) -> bool {
        &&& self.path_view() == rpath(doc, self.pos as int, 0)
        &&& self.parent_offset == roffset(doc, self.pos as int)
        &&& self.pos <= content_size(doc.content)
    }

    /// Well formed: the path is that of the position in the document at its
    /// head, and every node on it is well formed.
    pub open spec fn wf(&self) -> bool {
        &&& self.path@.len() >= 1
        &&& self.of(node_view(self.path@[0].node))
        &&& forall|i: int| 0 <= i < self.path@.len() ==> node_wf(#[trigger] self.path@[i].node)
    }

    /// The depth: the number of ancestors below the document.
    pub open spec fn spec_depth(&self) -> int {
        self.path@.len() - 1
    }

    /// The level a depth argument stands for: the innermost when none, and
    /// counted up from the innermost when negative.
    pub open spec fn level(&self, depth: Option<isize>) -> int {
        match depth {
            None => self.spec_depth(),
            Some(d) => if d < 0 {
                self.spec_depth() + d
            } else {
                d as int
            },
        }
    }

    /// The start of the content of the node at level `d`.
    pub open spec fn spec_start(&self, d: int) -> int {
        if d == 0 {
            0
        } else {
            self.path@[d - 1].start + 1
        }
    }
}

/// The message of a position outside the document.
pub open spec fn out_of_range_message(pos: nat) -> Seq<char> {
    "Position "@ + decimal(pos) + " out of range"@
}

impl ResolvedPos {
    /// Resolves `pos` in `doc`: its ancestors, indices and starts.
    pub fn resolve(doc: &Node, pos: usize) -> (r: Result<ResolvedPos, String>)
        requires
            node_wf(*doc),
        ensures
            match r {
                Ok(rp) => pos <= doc.content.size && rp.pos == pos && rp.wf() && node_view(rp.path@[0].node) == doc@,
                Err(e) => pos > doc.content.size && e@ == out_of_range_message(pos as nat),
            },
    {
        if pos > doc.content.size {
            let mut e = String::from_str("Position ");
            push_decimal(&mut e, pos);
            e.append(" out of range");
            return Err(e);
        }
        let mut path: Vec<PathEntry> = Vec::new();
        let mut start: usize = 0;
        let mut parent_offset: usize = pos;
        let mut node = doc.clone();
        proof {
            assert(path@.map_values(|e: PathEntry| entry_view(e)) =~= Seq::<(NodeV, int, int)>::empty());
        }
        loop
            invariant_except_break
                node_wf(node),
                start + parent_offset == pos,
                parent_offset <= node.content.size,
                path@.map_values(|e: PathEntry| entry_view(e)) + rpath(node@, parent_offset as int, start as int)
                    == rpath(doc@, pos as int, 0),
                roffset(node@, parent_offset as int) == roffset(doc@, pos as int),
                forall|i: int| 0 <= i < path@.len() ==> node_wf(#[trigger] path@[i].node),
                path@.len() == 0 ==> node@ == doc@,
                path@.len() > 0 ==> node_view(path@[0].node) == doc@,
            ensures
                path@.len() >= 1,
                path@.map_values(|e: PathEntry| entry_view(e)) == rpath(doc@, pos as int, 0),
                roffset(doc@, pos as int) == parent_offset,
                forall|i: int| 0 <= i < path@.len() ==> node_wf(#[trigger] path@[i].node),
                node_view(path@[0].node) == doc@,
            decreases node_size(node@),
        {
            proof {
                crate::node::lemma_nodes_view(node.content.content@);
                lemma_find_index(node@.content, parent_offset as int);
            }
            let (index, offset) = node.content.find_index(parent_offset);
            let rem = parent_offset - offset;
            let c = node.clone();
            let ghost p0 = path@;
            path.push(PathEntry { node: c, index, start: start + offset });
            proof {
                assert(path@.map_values(|e: PathEntry| entry_view(e)) =~= p0.map_values(|e: PathEntry| entry_view(e)).push((node@, index as int, (start + offset) as int)));
            }
            if rem == 0 {
                proof {
                    assert(rpath(node@, parent_offset as int, start as int) =~= seq![(node@, index as int, (start + offset) as int)]);
                    assert(path@.map_values(|e: PathEntry| entry_view(e)) =~= p0.map_values(|e: PathEntry| entry_view(e)) + rpath(node@, parent_offset as int, start as int));
                    assert(path@[0] == if p0.len() > 0 { p0[0] } else { path@[0] });
                }
                break;
            }
            let child = node.content.child(index).clone();
            proof {
                assert(node_wf(node.content.content@[index as int]));
            }
            if child.is_text() {
                proof {
                    assert(rpath(node@, parent_offset as int, start as int) =~= seq![(node@, index as int, (start + offset) as int)]);
                    assert(path@.map_values(|e: PathEntry| entry_view(e)) =~= p0.map_values(|e: PathEntry| entry_view(e)) + rpath(node@, parent_offset as int, start as int));
                }
                break;
            }
            proof {
                lemma_content_size_each(node@.content, index as int);
                assert(rpath(node@, parent_offset as int, start as int) =~= seq![(node@, index as int, (start + offset) as int)] + rpath(child@, rem - 1, start + offset + 1));
                assert(path@.map_values(|e: PathEntry| entry_view(e)) + rpath(child@, rem - 1, start + offset + 1) =~= p0.map_values(|e: PathEntry| entry_view(e)) + rpath(node@, parent_offset as int, start as int));
            }
            parent_offset = rem - 1;
            start = start + offset + 1;
            node = child;
        }
        proof {
            assert(path@.map_values(|e: PathEntry| entry_view(e)) =~= path@.map_values(|e: PathEntry| entry_view(e)));
        }
        Ok(ResolvedPos { pos, path, parent_offset })
    }
}


/// The start of the content of the node at level `k` of a path whose
/// outermost content starts at `start`.
pub open spec fn cstart(p: Seq<(NodeV, int, int)>, start: int, k: int) -> int {
    if k == 0 {
        start
    } else {
        p[k - 1].2 + 1
    }
}

/// Level `k`: the index is within the node's children, the entry's start
/// is that of the child, and the position lies within the node's content.
pub open spec fn level_ok(p: Seq<(NodeV, int, int)>, start: int, pos: int, k: int) -> bool {
    &&& 0 <= p[k].1 <= p[k].0.content.len()
    &&& p[k].2 == cstart(p, start, k) + content_size(p[k].0.content.take(p[k].1))
    &&& cstart(p, start, k) <= p[k].2 <= pos <= cstart(p, start, k) + content_size(p[k].0.content)
    &&& cstart(p, start, k) + content_size(p[k].0.content) <= start + content_size(p[0].0.content)
    &&& start <= cstart(p, start, k)
}

/// Level `k + 1` holds the child of level `k` at its index, not a text node.
pub open spec fn link_ok(p: Seq<(NodeV, int, int)>, k: int) -> bool {
    &&& p[k].1 < p[k].0.content.len()
    &&& p[k + 1].0 == p[k].0.content[p[k].1]
    &&& !p[k + 1].0.node_type.is_text
    &&& node_size(p[k + 1].0) == content_size(p[k + 1].0.content) + 2
}

/// At the innermost level, the position is at the entry's start or inside
/// the text node there.
pub open spec fn tail_ok(p: Seq<(NodeV, int, int)>, pos: int) -> bool {
    let e = p.last();
    &&& pos - e.2 >= 0
    &&& pos - e.2 > 0 ==> e.1 < e.0.content.len() && e.0.content[e.1].node_type.is_text && pos - e.2 < node_size(e.0.content[e.1])
}

/// The shape of a resolved path.
pub open spec fn path_ok(p: Seq<(NodeV, int, int)>, start: int, pos: int) -> bool {
    &&& p.len() >= 1
    &&& forall|k: int| 0 <= k < p.len() ==> #[trigger] level_ok(p, start, pos, k)
    &&& forall|k: int| 0 <= k < p.len() - 1 ==> #[trigger] link_ok(p, k)
    &&& tail_ok(p, pos)
}

pub proof fn lemma_rpath(n: NodeV, off: int, start: int)
    requires
        0 <= off <= content_size(n.content),
        0 <= start,
        crate::fragment::nested_text_ok(n.content),
    ensures
        path_ok(rpath(n, off, start), start, start + off),
        rpath(n, off, start)[0].0 == n,
        roffset(n, off) == start + off - cstart(rpath(n, off, start), start, rpath(n, off, start).len() - 1),
    decreases n,
{
    let fi = find_index(n.content, off);
    lemma_find_index(n.content, off);
    let rem = off - fi.1;
    let e = (n, fi.0, start + fi.1);
    let p = rpath(n, off, start);
    let pos = start + off;
    if rem <= 0 || fi.0 < 0 || fi.0 >= n.content.len() || n.content[fi.0].node_type.is_text {
        assert(p =~= seq![e]);
        assert(level_ok(p, start, pos, 0));
    } else {
        let c = n.content[fi.0];
        lemma_content_size_each(n.content, fi.0);
        crate::fragment::lemma_content_size_take(n.content, fi.0);
        let q = rpath(c, rem - 1, start + fi.1 + 1);
        assert(text_ok(c));
        assert(rem - 1 <= content_size(c.content));
        crate::fragment::lemma_content_size_split(n.content, 0, fi.0 + 1);
        assert(n.content.subrange(0, fi.0 + 1) =~= n.content.take(fi.0 + 1));
        lemma_rpath(c, rem - 1, start + fi.1 + 1);
        assert(q[0].0 == c);
        assert(p =~= seq![e] + q);
        assert forall|k: int| 0 <= k < p.len() implies #[trigger] level_ok(p, start, pos, k) by {
            if k == 0 {
                assert(p[0] == e);
            } else {
                assert(p[k] == q[k - 1]);
                assert(p[0].0 == n);
                assert(level_ok(q, start + fi.1 + 1, pos, k - 1));
                if k == 1 {
                    assert(cstart(p, start, k) == start + fi.1 + 1);
                } else {
                    assert(p[k - 1] == q[k - 2]);
                }
            }
        }
        assert forall|k: int| 0 <= k < p.len() - 1 implies #[trigger] link_ok(p, k) by {
            if k == 0 {
                assert(p[1] == q[0]);
            } else {
                assert(p[k] == q[k - 1] && p[k + 1] == q[k]);
                assert(link_ok(q, k - 1));
            }
        }
        assert(p.last() == q.last());
        if q.len() > 1 {
            assert(p[p.len() - 2] == q[q.len() - 2]);
        }
    }
}

impl ResolvedPos {
    /// The shape facts of a well-formed resolved position.
    pub proof fn lemma_wf(&self)
        requires
            self.wf(),
        ensures
            path_ok(self.path_view(), 0, self.pos as int),
            self.path_view()[0].0 == node_view(self.path@[0].node),
            self.path@[0].node.content.size + 2 <= usize::MAX,
            self.path_view().len() == self.path@.len(),
            forall|k: int| 0 <= k < self.path@.len() ==> #[trigger] self.path_view()[k] == entry_view(self.path@[k]),
            self.parent_offset == self.pos - self.spec_start(self.spec_depth()),
            forall|k: int| 0 <= k < self.path@.len() ==> self.spec_start(k) == #[trigger] cstart(self.path_view(), 0, k),
    {
        let doc = node_view(self.path@[0].node);
        crate::fragment::lemma_node_wf_text(self.path@[0].node);
        lemma_rpath(doc, self.pos as int, 0);
    }

    /// The depth: how many ancestors lie below the document.
    pub fn depth(&self) -> (r: usize)
        requires
            self.wf(),
        ensures
            r == self.spec_depth(),
    {
        self.path.len() - 1
    }

    fn resolve_depth(&self, depth: Option<isize>) -> (r: usize)
        requires
            self.wf(),
            self.level(depth) >= 0,
        ensures
            r == self.level(depth),
    {
        match depth {
            None => self.path.len() - 1,
            Some(d) => if d < 0 {
                let back = (0 - (d as i128)) as usize;
                self.path.len() - 1 - back
            } else {
                d as usize
            },
        }
    }

    /// The ancestor at the given level (the document at level 0).
    pub fn node(&self, depth: Option<isize>) -> (r: &Node)
        requires
            self.wf(),
            0 <= self.level(depth) <= self.spec_depth(),
        ensures
            *r == self.path@[self.level(depth)].node,
    {
        let d = self.resolve_depth(depth);
        &self.path[d].node
    }

    /// The innermost ancestor.
    pub fn parent(&self) -> (r: &Node)
        requires
            self.wf(),
        ensures
            *r == self.path@[self.spec_depth()].node,
    {
        self.node(None)
    }

    /// The document.
    pub fn doc(&self) -> (r: &Node)
        requires
            self.wf(),
        ensures
            *r == self.path@[0].node,
    {
        self.node(Some(0))
    }

    /// The index, in the ancestor at the given level, of the child the
    /// position is in or before.
    pub fn index(&self, depth: Option<isize>) -> (r: usize)
        requires
            self.wf(),
            0 <= self.level(depth) <= self.spec_depth(),
        ensures
            r == self.path@[self.level(depth)].index,
    {
        let d = self.resolve_depth(depth);
        self.path[d].index
    }

    /// The start of the content of the ancestor at the given level.
    pub fn start(&self, depth: Option<isize>) -> (r: usize)
        requires
            self.wf(),
            0 <= self.level(depth) <= self.spec_depth() + 1,
        ensures
            r == self.spec_start(self.level(depth)),
    {
        let d = self.resolve_depth(depth);
        if d == 0 {
            0
        } else {
            proof {
                self.lemma_wf();
                assert(level_ok(self.path_view(), 0, self.pos as int, d - 1));
            }
            self.path[d - 1].start + 1
        }
    }

    /// The end of the content of the ancestor at the given level.
    pub fn end(&self, depth: Option<isize>) -> (r: usize)
        requires
            self.wf(),
            0 <= self.level(depth) <= self.spec_depth(),
        ensures
            r == self.spec_start(self.level(depth)) + self.path@[self.level(depth)].node.content.size,
    {
        let d = self.resolve_depth(depth);
        proof {
            self.lemma_wf();
            assert(level_ok(self.path_view(), 0, self.pos as int, d as int));
            assert(frag_wf(self.path@[d as int].node.content));
            assert(frag_wf(self.path@[0].node.content));
            assert(self.path_view()[d as int] == entry_view(self.path@[d as int]));
            if d > 0 {
                assert(level_ok(self.path_view(), 0, self.pos as int, d - 1));
            }
        }
        let s = if d == 0 { 0 } else { self.path[d - 1].start + 1 };
        s + self.path[d].node.content.size
    }

    /// The position before the ancestor at the given level; an error at
    /// level 0.
    pub fn before(&self, depth: Option<isize>) -> (r: Result<usize, String>)
        requires
            self.wf(),
            0 <= self.level(depth) <= self.spec_depth() + 1,
        ensures
            match r {
                Ok(p) => self.level(depth) > 0 && p == if self.level(depth) == self.spec_depth() + 1 {
                    self.pos as int
                } else {
                    self.path@[self.level(depth) - 1].start as int
                },
                Err(e) => self.level(depth) == 0 && e@ == "There is no position before the top-level node"@,
            },
    {
        let d = self.resolve_depth(depth);
        self.before_level(d)
    }

    fn before_level(&self, d: usize) -> (r: Result<usize, String>)
        requires
            self.wf(),
            d <= self.spec_depth() + 1,
        ensures
            match r {
                Ok(p) => d > 0 && p == if d == self.spec_depth() + 1 {
                    self.pos as int
                } else {
                    self.path@[d - 1].start as int
                },
                Err(e) => d == 0 && e@ == "There is no position before the top-level node"@,
            },
    {
        if d == 0 {
            return Err(String::from_str("There is no position before the top-level node"));
        }
        if d == self.path.len() {
            Ok(self.pos)
        } else {
            Ok(self.path[d - 1].start)
        }
    }

    /// The position after the ancestor at the given level; an error at
    /// level 0.
    pub fn after(&self, depth: Option<isize>) -> (r: Result<usize, String>)
        requires
            self.wf(),
            0 <= self.level(depth) <= self.spec_depth() + 1,
        ensures
            match r {
                Ok(p) => self.level(depth) > 0 && p == if self.level(depth) == self.spec_depth() + 1 {
                    self.pos as int
                } else {
                    self.path@[self.level(depth) - 1].start + node_size(node_view(self.path@[self.level(depth)].node))
                },
                Err(e) => self.level(depth) == 0 && e@ == "There is no position after the top-level node"@,
            },
    {
        let d = self.resolve_depth(depth);
        self.after_level(d)
    }

    fn after_level(&self, d: usize) -> (r: Result<usize, String>)
        requires
            self.wf(),
            d <= self.spec_depth() + 1,
        ensures
            match r {
                Ok(p) => d > 0 && p == if d == self.spec_depth() + 1 {
                    self.pos as int
                } else {
                    self.path@[d - 1].start + node_size(node_view(self.path@[d as int].node))
                },
                Err(e) => d == 0 && e@ == "There is no position after the top-level node"@,
            },
    {
        if d == 0 {
            return Err(String::from_str("There is no position after the top-level node"));
        }
        if d == self.path.len() {
            Ok(self.pos)
        } else {
            proof {
                self.lemma_wf();
                assert(link_ok(self.path_view(), d - 1));
                assert(level_ok(self.path_view(), 0, self.pos as int, d - 1));
                assert(level_ok(self.path_view(), 0, self.pos as int, d as int));
                let pv = self.path_view();
                crate::fragment::lemma_content_size_take(pv[d - 1].0.content, pv[d - 1].1);
                crate::fragment::lemma_content_size_split(pv[d - 1].0.content, 0, pv[d - 1].1 + 1);
                assert(node_wf(self.path@[d - 1].node));
            }
            Ok(self.path[d - 1].start + self.path[d].node.node_size())
        }
    }

    /// The offset into the text node the position is inside, or 0.
    pub fn text_offset(&self) -> (r: usize)
        requires
            self.wf(),
        ensures
            r == self.pos - self.path@[self.spec_depth()].start,
    {
        proof {
            self.lemma_wf();
        }
        let last = &self.path[self.path.len() - 1];
        self.pos - last.start
    }
}


/// Going down from index `i`, each mark whose type is not inclusive is
/// dropped from the set unless `other` holds an equal mark.
pub open spec fn incl_filter(ms: Seq<MarkV>, i: int, other: Option<Seq<MarkV>>) -> Seq<MarkV>
    decreases i,
{
    if i <= 0 {
        ms
    } else {
        let m = ms[i - 1];
        let drop = m.mark_type.inclusive == Some(false) && match other {
            None => true,
            Some(o) => !in_set(m, o),
        };
        incl_filter(if drop { removed(m, ms) } else { ms }, i - 1, other)
    }
}

/// The marks of `ms` as they carry over next to `other`.
pub open spec fn carried(ms: Seq<MarkV>, other: Option<Seq<MarkV>>) -> Seq<MarkV> {
    incl_filter(ms, ms.len() as int, other)
}

/// The marks at a position with the given parent, child index and text
/// offset.
pub open spec fn marks_at(parent: NodeV, index: int, text_offset: int) -> Seq<MarkV> {
    let c = parent.content;
    if content_size(c) == 0 {
        seq![]
    } else if text_offset > 0 {
        c[index].marks
    } else if index > 0 && index - 1 < c.len() {
        carried(c[index - 1].marks, if index < c.len() { Some(c[index].marks) } else { None })
    } else if index < c.len() {
        carried(c[index].marks, None)
    } else {
        seq![]
    }
}

/// The removal of a mark from a set never grows it.
proof fn lemma_removed_len(m: MarkV, s: Seq<MarkV>)
    ensures
        removed(m, s).len() <= s.len(),
        removed(m, s).len() >= s.len() - 1,
{
    crate::mark::lemma_first_eq_from(m, s, 0);
}

/// Applies the inclusive filter to a mark list.
fn filter_inclusive(ms: Vec<Mark>, other: Option<&[Mark]>) -> (r: Vec<Mark>)
    ensures
        marks_view(r@) == carried(marks_view(ms@), match other {
            Some(o) => Some(marks_view(o@)),
            None => None,
        }),
{
    let ghost ov = match other {
        Some(o) => Some(marks_view(o@)),
        None => None,
    };
    let ghost orig = marks_view(ms@);
    let mut result = ms;
    let mut i: usize = result.len();
    proof {
        lemma_marks_view(result@);
    }
    while i > 0
        invariant
            i <= result@.len(),
            ov == match other {
                Some(o) => Some(marks_view(o@)),
                None => None,
            },
            carried(orig, ov) == incl_filter(marks_view(result@), i as int, ov),
        decreases i,
    {
        i = i - 1;
        proof {
            lemma_marks_view(result@);
        }
        let non_incl = match result[i].mark_type.inclusive {
            Some(b) => !b,
            None => false,
        };
        if non_incl {
            let keep = match other {
                Some(o) => result[i].is_in_set(o),
                None => false,
            };
            if !keep {
                let ghost r0 = marks_view(result@);
                let next = result[i].remove_from_set(result.as_slice());
                proof {
                    lemma_removed_len(r0[i as int], r0);
                    lemma_marks_view(next@);
                }
                result = next;
            }
        }
    }
    result
}

/// The level of the innermost common ancestor that holds `pos`, searching
/// from level `d` outwards (0 if none below the document does).
pub open spec fn shared_from(rp: RPV, pos: int, d: int) -> int
    decreases d,
{
    if d < 1 {
        0
    } else if cstart(rp.path, 0, d) <= pos && cstart(rp.path, 0, d) + content_size(rp.nd(d).content) >= pos {
        d
    } else {
        shared_from(rp, pos, d - 1)
    }
}

/// The first level, from `d` outwards, whose content ends at or after
/// `pos`.
pub open spec fn range_from(rp: ResolvedPos, pos: int, d: int) -> Option<int>
    decreases d + 1,
{
    if d < 0 {
        None
    } else if pos <= rp.spec_start(d) + rp.path@[d].node.content.size {
        Some(d)
    } else {
        range_from(rp, pos, d - 1)
    }
}

/// The level `block_range` starts its search at.
pub open spec fn range_start(a: ResolvedPos, b: ResolvedPos) -> int {
    if a.path@[a.spec_depth()].node.node_type.inline_content || a.pos == b.pos {
        if a.spec_depth() >= 1 {
            a.spec_depth() - 1
        } else {
            0
        }
    } else {
        a.spec_depth()
    }
}

/// A flat range of a document: the children at one level between two
/// positions.
#[derive(Debug)]
pub struct NodeRange {
    pub from: ResolvedPos,
    pub to: ResolvedPos,
    pub depth: usize,
}

impl Clone for PathEntry {
    fn clone(&self) -> (r: Self)
        ensures
            entry_view(r) == entry_view(*self),
            node_wf(self.node) ==> node_wf(r.node),
    {
        PathEntry { node: self.node.clone(), index: self.index, start: self.start }
    }
}

impl Clone for ResolvedPos {
    fn clone(&self) -> (r: Self)
        ensures
            r.pos == self.pos,
            r.parent_offset == self.parent_offset,
            r.path_view() == self.path_view(),
            r.path@.len() == self.path@.len(),
            forall|i: int| 0 <= i < self.path@.len() ==> node_view(#[trigger] r.path@[i].node) == node_view(self.path@[i].node) && r.path@[i].index == self.path@[i].index && r.path@[i].start == self.path@[i].start,
            self.wf() ==> r.wf(),
    {
        let mut path: Vec<PathEntry> = Vec::new();
        let mut i: usize = 0;
        while i < self.path.len()
            invariant
                i <= self.path@.len(),
                path@.len() == i,
                forall|j: int| 0 <= j < i ==> entry_view(#[trigger] path@[j]) == entry_view(self.path@[j]),
                forall|j: int| 0 <= j < i && node_wf(self.path@[j].node) ==> node_wf(#[trigger] path@[j].node),
            decreases self.path@.len() - i,
        {
            path.push(self.path[i].clone());
            i = i + 1;
        }
        let r = ResolvedPos { pos: self.pos, path, parent_offset: self.parent_offset };
        proof {
            assert(r.path_view() =~= self.path_view());
            assert forall|j: int| 0 <= j < self.path@.len() implies node_view(#[trigger] r.path@[j].node) == node_view(self.path@[j].node) && r.path@[j].index == self.path@[j].index && r.path@[j].start == self.path@[j].start by {
                assert(entry_view(r.path@[j]) == entry_view(self.path@[j]));
            }
        }
        r
    }
}

impl ResolvedPos {
    /// The index in the ancestor at the given level of the child after the
    /// position.
    pub fn index_after(&self, depth: Option<isize>) -> (r: usize)
        requires
            self.wf(),
            0 <= self.level(depth) <= self.spec_depth(),
        ensures
            r == if self.level(depth) == self.spec_depth() && self.pos == self.path@[self.spec_depth()].start {
                self.path@[self.level(depth)].index as int
            } else {
                self.path@[self.level(depth)].index + 1
            },
    {
        let d = self.resolve_depth(depth);
        self.index_after_level(d)
    }

    fn index_after_level(&self, d: usize) -> (r: usize)
        requires
            self.wf(),
            d <= self.spec_depth(),
        ensures
            r == if d == self.spec_depth() && self.pos == self.path@[self.spec_depth()].start {
                self.path@[d as int].index as int
            } else {
                self.path@[d as int].index + 1
            },
    {
        proof {
            self.lemma_wf();
            if d < self.spec_depth() {
                assert(link_ok(self.path_view(), d as int));
            }
            assert(self.path_view()[self.spec_depth()] == entry_view(self.path@[self.spec_depth()]));
            assert(self.path_view().last() == self.path_view()[self.spec_depth()]);
            assert(self.path_view()[d as int] == entry_view(self.path@[d as int]));
            lemma_nodes_view(self.path@[d as int].node.content.content@);
            assert(self.path@[d as int].node.content.content.len() == self.path@[d as int].node.content.content@.len());
        }
        let idx = self.path[d].index;
        if d == self.path.len() - 1 && self.text_offset() == 0 {
            idx
        } else {
            idx + 1
        }
    }

    /// The node right after the position, if any (the rest of a text node
    /// the position is inside).
    pub fn node_after(&self) -> (r: Option<Node>)
        requires
            self.wf(),
        ensures
            ({
                let e = self.path_view()[self.spec_depth()];
                let t = self.pos - e.2;
                match r {
                    None => e.1 == e.0.content.len(),
                    Some(n) => e.1 < e.0.content.len() && n@ == if t > 0 {
                        node_cut(e.0.content[e.1], t, node_size(e.0.content[e.1]) as int)
                    } else {
                        e.0.content[e.1]
                    } && node_wf(n),
                }
            }),
    {
        proof {
            self.lemma_wf();
        }
        let parent = self.parent();
        let index = self.path[self.path.len() - 1].index;
        proof {
            lemma_nodes_view(parent.content.content@);
            assert(level_ok(self.path_view(), 0, self.pos as int, self.spec_depth()));
        }
        if index == parent.content.child_count() {
            return None;
        }
        let d_off = self.text_offset();
        let child = parent.content.child(index).clone();
        proof {
            assert(node_wf(parent.content.content@[index as int]));
        }
        if d_off > 0 {
            let size = child.node_size();
            Some(child.cut(d_off, size))
        } else {
            Some(child)
        }
    }

    /// The node right before the position, if any (the start of a text node
    /// the position is inside).
    pub fn node_before(&self) -> (r: Option<Node>)
        requires
            self.wf(),
        ensures
            ({
                let e = self.path_view()[self.spec_depth()];
                let t = self.pos - e.2;
                match r {
                    None => t == 0 && e.1 == 0,
                    Some(n) => node_wf(n) && if t > 0 {
                        n@ == node_cut(e.0.content[e.1], 0, t)
                    } else {
                        e.1 > 0 && n@ == e.0.content[e.1 - 1]
                    },
                }
            }),
    {
        proof {
            self.lemma_wf();
        }
        let parent = self.parent();
        let index = self.path[self.path.len() - 1].index;
        let d_off = self.text_offset();
        proof {
            lemma_nodes_view(parent.content.content@);
            assert(level_ok(self.path_view(), 0, self.pos as int, self.spec_depth()));
        }
        if d_off > 0 {
            proof {
                assert(node_wf(parent.content.content@[index as int]));
            }
            Some(parent.content.child(index).cut(0, d_off))
        } else if index == 0 {
            None
        } else {
            proof {
                assert(node_wf(parent.content.content@[index - 1]));
            }
            Some(parent.content.child(index - 1).clone())
        }
    }

    /// The position of child `index` of the ancestor at the given level.
    pub fn pos_at_index(&self, index: usize, depth: Option<isize>) -> (r: usize)
        requires
            self.wf(),
            0 <= self.level(depth) <= self.spec_depth(),
            index <= self.path@[self.level(depth)].node.content.content@.len(),
        ensures
            r == self.spec_start(self.level(depth)) + content_size(node_view(self.path@[self.level(depth)].node).content.take(index as int)),
    {
        let d = self.resolve_depth(depth);
        proof {
            self.lemma_wf();
            assert(level_ok(self.path_view(), 0, self.pos as int, d as int));
            assert(frag_wf(self.path@[0].node.content));
            if d > 0 {
                assert(level_ok(self.path_view(), 0, self.pos as int, d - 1));
            }
        }
        let node = &self.path[d].node;
        let ghost c = node_view(*node).content;
        proof {
            lemma_nodes_view(node.content.content@);
            crate::fragment::lemma_content_size_split(c, 0, index as int);
            assert(c.subrange(0, index as int) =~= c.take(index as int));
            assert(c.take(0) =~= Seq::<NodeV>::empty());
        }
        let mut pos: usize = if d == 0 { 0 } else { self.path[d - 1].start + 1 };
        let ghost base = pos;
        let mut i: usize = 0;
        while i < index
            invariant
                i <= index,
                index <= c.len(),
                c == node_view(*node).content,
                c.len() == node.content.content@.len(),
                forall|j: int| 0 <= j < c.len() ==> #[trigger] c[j] == node_view(node.content.content@[j]),
                frag_wf(node.content),
                pos == base + content_size(c.take(i as int)),
                base + content_size(c.take(index as int)) <= usize::MAX,
            decreases index - i,
        {
            proof {
                crate::fragment::lemma_content_size_take(c, i as int);
                crate::fragment::lemma_content_size_split(c.take(index as int), 0, i + 1);
                assert(c.take(index as int).subrange(0, i + 1) =~= c.take(i + 1));
                assert(node_wf(node.content.content@[i as int]));
            }
            pos = pos + node.content.child(i).node_size();
            i = i + 1;
        }
        pos
    }

    /// The marks in effect at the position: those of the text node around
    /// it, or of the node before it (else after it), without the
    /// non-inclusive marks that the other side lacks.
    pub fn marks(&self) -> (r: Vec<Mark>)
        requires
            self.wf(),
        ensures
            marks_view(r@) == marks_at(node_view(self.path@[self.spec_depth()].node), self.path@[self.spec_depth()].index as int,
                self.pos - self.path@[self.spec_depth()].start),
    {
        proof {
            self.lemma_wf();
            assert(level_ok(self.path_view(), 0, self.pos as int, self.spec_depth()));
        }
        let parent = self.parent();
        let index = self.path[self.path.len() - 1].index;
        proof {
            lemma_nodes_view(parent.content.content@);
        }
        if parent.content.size == 0 {
            return Mark::none();
        }
        if self.text_offset() > 0 {
            return copy_marks(parent.content.child(index).marks.as_slice());
        }
        let n = parent.content.child_count();
        if index > 0 && index - 1 < n {
            let main = parent.content.child(index - 1);
            let ms = copy_marks(main.marks.as_slice());
            if index < n {
                filter_inclusive(ms, Some(parent.content.child(index).marks.as_slice()))
            } else {
                filter_inclusive(ms, None)
            }
        } else if index < n {
            let ms = copy_marks(parent.content.child(index).marks.as_slice());
            filter_inclusive(ms, None)
        } else {
            Mark::none()
        }
    }

    /// The marks of the inline node after this position, without the
    /// non-inclusive marks that the node after `end` lacks; none if there
    /// is no inline node after this position.
    pub fn marks_across(&self, end: &ResolvedPos) -> (r: Option<Vec<Mark>>)
        requires
            self.wf(),
            end.wf(),
        ensures
            ({
                let p = node_view(self.path@[self.spec_depth()].node);
                let i = self.path@[self.spec_depth()].index as int;
                let q = node_view(end.path@[end.spec_depth()].node);
                let j = end.path@[end.spec_depth()].index as int;
                match r {
                    None => i >= p.content.len() || p.content[i].node_type.is_block,
                    Some(ms) => i < p.content.len() && !p.content[i].node_type.is_block && marks_view(ms@) == carried(
                        p.content[i].marks,
                        if 0 <= j < q.content.len() { Some(q.content[j].marks) } else { None },
                    ),
                }
            }),
    {
        let parent = self.parent();
        let index = self.path[self.path.len() - 1].index;
        proof {
            lemma_nodes_view(parent.content.content@);
        }
        let after = match parent.content.maybe_child(index) {
            Some(a) => a,
            None => return None,
        };
        if !after.is_inline() {
            return None;
        }
        let ms = copy_marks(after.marks.as_slice());
        let eparent = end.parent();
        let eindex = end.path[end.path.len() - 1].index;
        proof {
            lemma_nodes_view(eparent.content.content@);
        }
        match eparent.content.maybe_child(eindex) {
            Some(nx) => Some(filter_inclusive(ms, Some(nx.marks.as_slice()))),
            None => Some(filter_inclusive(ms, None)),
        }
    }

    /// The deepest level whose content holds both this position and `pos`.
    pub fn shared_depth(&self, pos: usize) -> (r: usize)
        requires
            self.wf(),
        ensures
            r == shared_from(self@, pos as int, self.spec_depth()),
            r <= self.spec_depth(),
    {
        proof {
            self.lemma_wf();
        }
        let mut d: usize = self.path.len() - 1;
        while d >= 1
            invariant
                self.wf(),
                d <= self.spec_depth(),
                path_ok(self.path_view(), 0, self.pos as int),
                forall|k: int| 0 <= k < self.path@.len() ==> #[trigger] self.path_view()[k] == entry_view(self.path@[k]),
                forall|k: int| 0 <= k < self.path@.len() ==> self.spec_start(k) == #[trigger] cstart(self.path_view(), 0, k),
                self.path_view()[0].0 == node_view(self.path@[0].node),
                self.path@[0].node.content.size + 2 <= usize::MAX,
                shared_from(self@, pos as int, self.spec_depth()) == shared_from(self@, pos as int, d as int),
            decreases d,
        {
            proof {
                assert(level_ok(self.path_view(), 0, self.pos as int, d as int));
                assert(level_ok(self.path_view(), 0, self.pos as int, d - 1));
                assert(frag_wf(self.path@[d as int].node.content));
                assert(frag_wf(self.path@[0].node.content));
                assert(self@.nd(d as int) == node_view(self.path@[d as int].node));
                assert(cstart(self@.path, 0, d as int) == self.path@[d - 1].start + 1);
            }
            let s = self.path[d - 1].start + 1;
            let e = s + self.path[d].node.content.size;
            if s <= pos && e >= pos {
                return d;
            }
            d = d - 1;
        }
        0
    }

    /// Whether the two positions share their innermost ancestor.
    pub fn same_parent(&self, other: &ResolvedPos) -> (r: bool)
        requires
            self.wf(),
            other.wf(),
        ensures
            r == (self.pos - self.parent_offset == other.pos - other.parent_offset),
    {
        proof {
            self.lemma_wf();
            other.lemma_wf();
            assert(level_ok(self.path_view(), 0, self.pos as int, self.spec_depth()));
            assert(level_ok(other.path_view(), 0, other.pos as int, other.spec_depth()));
        }
        self.pos - self.parent_offset == other.pos - other.parent_offset
    }

    /// The later of the two positions (this one when equal).
    pub fn max<'a>(&'a self, other: &'a ResolvedPos) -> (r: &'a ResolvedPos)
        ensures
            r == if other.pos > self.pos { other } else { self },
    {
        if other.pos > self.pos {
            other
        } else {
            self
        }
    }

    /// The earlier of the two positions (this one when equal).
    pub fn min<'a>(&'a self, other: &'a ResolvedPos) -> (r: &'a ResolvedPos)
        ensures
            r == if other.pos < self.pos { other } else { self },
    {
        if other.pos < self.pos {
            other
        } else {
            self
        }
    }

    /// The range of block content that holds both positions: the deepest
    /// level (above the textblock when inside one, or when the positions
    /// are equal) whose content reaches the later position.
    pub fn block_range(&self, other: &ResolvedPos) -> (r: Option<NodeRange>)
        requires
            self.wf(),
            other.wf(),
        ensures
            ({
                let (a, b) = if other.pos < self.pos { (*other, *self) } else { (*self, *other) };
                match range_from(a, b.pos as int, range_start(a, b)) {
                    Some(d) => r matches Some(nr) && nr.depth == d && nr.from.pos == a.pos && nr.to.pos == b.pos
                        && nr.from.path_view() == a.path_view() && nr.to.path_view() == b.path_view()
                        && nr.from.wf() && nr.to.wf(),
                    None => r is None,
                }
            }),
        decreases if other.pos < self.pos { 1int } else { 0int },
    {
        if other.pos < self.pos {
            return other.block_range(self);
        }
        proof {
            self.lemma_wf();
        }
        let start_depth = if self.parent().node_type.inline_content || self.pos == other.pos {
            if self.path.len() - 1 >= 1 { self.path.len() - 2 } else { 0 }
        } else {
            self.path.len() - 1
        };
        let mut d: usize = start_depth;
        loop
            invariant
                self.wf(),
                other.wf(),
                other.pos >= self.pos,
                d <= self.spec_depth(),
                path_ok(self.path_view(), 0, self.pos as int),
                forall|k: int| 0 <= k < self.path@.len() ==> #[trigger] self.path_view()[k] == entry_view(self.path@[k]),
                self.path_view()[0].0 == node_view(self.path@[0].node),
                self.path@[0].node.content.size + 2 <= usize::MAX,
                range_from(*self, other.pos as int, range_start(*self, *other)) == range_from(*self, other.pos as int, d as int),
            decreases d,
        {
            proof {
                assert(level_ok(self.path_view(), 0, self.pos as int, d as int));
                assert(frag_wf(self.path@[d as int].node.content));
                assert(frag_wf(self.path@[0].node.content));
                if d > 0 {
                    assert(level_ok(self.path_view(), 0, self.pos as int, d - 1));
                }
            }
            let s = if d == 0 { 0 } else { self.path[d - 1].start + 1 };
            let e = s + self.path[d].node.content.size;
            if other.pos <= e {
                return Some(NodeRange { from: self.clone(), to: other.clone(), depth: d });
            }
            if d == 0 {
                proof {
                    assert(range_from(*self, other.pos as int, -1) is None);
                }
                return None;
            }
            d = d - 1;
        }
    }
}

impl NodeRange {
    /// Well formed: two well-formed positions and a level both reach.
    pub open spec fn wf(&self) -> bool {
        &&& self.from.wf()
        &&& self.to.wf()
        &&& self.depth <= self.from.spec_depth()
        &&& self.depth <= self.to.spec_depth()
    }

    /// The position where the range starts: before the node at the level
    /// below it, on the `from` side.
    pub fn start(&self) -> (r: usize)
        requires
            self.wf(),
        ensures
            r == if self.depth + 1 == self.from.spec_depth() + 1 {
                self.from.pos as int
            } else {
                self.from.path@[self.depth as int].start as int
            },
    {
        proof {
            assert(self.from.path.len() == self.from.path@.len());
        }
        match self.from.before_level(self.depth + 1) {
            Ok(p) => p,
            Err(_) => 0,
        }
    }

    /// The position where the range ends: after the node at the level
    /// below it, on the `to` side.
    pub fn end(&self) -> (r: usize)
        requires
            self.wf(),
        ensures
            r == if self.depth + 1 == self.to.spec_depth() + 1 {
                self.to.pos as int
            } else {
                self.to.path@[self.depth as int].start + node_size(node_view(self.to.path@[self.depth + 1].node))
            },
    {
        proof {
            assert(self.to.path.len() == self.to.path@.len());
        }
        match self.to.after_level(self.depth + 1) {
            Ok(p) => p,
            Err(_) => 0,
        }
    }

    /// The node that holds the range.
    pub fn parent(&self) -> (r: &Node)
        requires
            self.wf(),
        ensures
            *r == self.from.path@[self.depth as int].node,
    {
        &self.from.path[self.depth].node
    }

    /// The index of the range's first child in its parent.
    pub fn start_index(&self) -> (r: usize)
        requires
            self.wf(),
        ensures
            r == self.from.path@[self.depth as int].index,
    {
        self.from.path[self.depth].index
    }

    /// The index after the range's last child in its parent.
    pub fn end_index(&self) -> (r: usize)
        requires
            self.wf(),
        ensures
            r == if self.depth == self.to.spec_depth() && self.to.pos == self.to.path@[self.to.spec_depth()].start {
                self.to.path@[self.depth as int].index as int
            } else {
                self.to.path@[self.depth as int].index + 1
            },
    {
        self.to.index_after_level(self.depth)
    }
}


/// Around an ancestor below the document, the position before it is one
/// less than the start of its content, and the position after it one more
/// than the end of its content.
pub proof fn law_before_after(rp: ResolvedPos, d: int)
    requires
        rp.wf(),
        1 <= d <= rp.spec_depth(),
    ensures
        rp.path@[d - 1].start == rp.spec_start(d) - 1,
        rp.path@[d - 1].start + node_size(node_view(rp.path@[d].node)) == rp.spec_start(d)
            + rp.path@[d].node.content.size + 1,
{
    rp.lemma_wf();
    assert(link_ok(rp.path_view(), d - 1));
    assert(rp.path_view()[d] == entry_view(rp.path@[d]));
    assert(frag_wf(rp.path@[d].node.content));
}


/// Prefix sizes grow with the prefix.
pub proof fn lemma_prefix_mono(s: Seq<NodeV>, j1: int, j2: int)
    requires
        0 <= j1 <= j2 <= s.len(),
    ensures
        content_size(s.take(j1)) <= content_size(s.take(j2)),
{
    crate::fragment::lemma_content_size_split(s.take(j2), j1, j2);
    assert(s.take(j2).take(j1) =~= s.take(j1));
}

/// A position strictly inside child `i` is found in child `i`.
pub proof fn lemma_find_index_inside(s: Seq<NodeV>, pos: int, i: int)
    requires
        0 <= i < s.len(),
        content_size(s.take(i)) < pos < content_size(s.take(i)) + node_size(s[i]),
    ensures
        find_index(s, pos) == (i, content_size(s.take(i)) as int),
{
    crate::fragment::lemma_content_size_take(s, i);
    lemma_find_index(s, pos);
    let (j, off) = find_index(s, pos);
    if off == pos {
        if j <= i {
            lemma_prefix_mono(s, j, i);
        } else {
            lemma_prefix_mono(s, i + 1, j);
        }
    } else {
        crate::fragment::lemma_content_size_take(s, j);
        if j < i {
            lemma_prefix_mono(s, j + 1, i);
        } else if j > i {
            lemma_prefix_mono(s, i + 1, j);
        }
    }
}

/// A position inside the content of the ancestor at level `k` of another
/// position's path resolves at least `k` levels deep.
pub proof fn lemma_resolve_shared(n: NodeV, off1: int, off2: int, start: int, k: int)
    requires
        0 <= off1 <= content_size(n.content),
        0 <= off2 <= content_size(n.content),
        0 <= start,
        crate::fragment::nested_text_ok(n.content),
        0 <= k < rpath(n, off1, start).len(),
        cstart(rpath(n, off1, start), start, k) <= start + off2,
        start + off2 <= cstart(rpath(n, off1, start), start, k) + content_size(rpath(n, off1, start)[k].0.content),
    ensures
        rpath(n, off2, start).len() > k,
    decreases n,
{
    let p = rpath(n, off1, start);
    lemma_rpath(n, off1, start);
    lemma_rpath(n, off2, start);
    if k > 0 {
        let fi = find_index(n.content, off1);
        lemma_find_index(n.content, off1);
        let rem = off1 - fi.1;
        let c = n.content[fi.0];
        let s1 = start + fi.1 + 1;
        let q = rpath(c, rem - 1, s1);
        assert(p =~= seq![(n, fi.0, start + fi.1)] + q);
        assert(link_ok(p, 0));
        assert(level_ok(p, start, start + off1, k));
        assert(p[k] == q[k - 1]);
        lemma_rpath(c, rem - 1, s1);
        assert(level_ok(q, s1, s1 + rem - 1, k - 1));
        assert(q[0].0 == c);
        if k == 1 {
            assert(cstart(p, start, 1) == s1);
        } else {
            assert(p[k - 1] == q[k - 2]);
        }
        assert(cstart(p, start, k) == cstart(q, s1, k - 1));
        crate::fragment::lemma_content_size_take(n.content, fi.0);
        assert(fi.1 < off2 < fi.1 + node_size(c));
        lemma_find_index_inside(n.content, off2, fi.0);
        let r2 = rpath(n, off2, start);
        assert(r2 =~= seq![(n, fi.0, start + fi.1)] + rpath(c, off2 - fi.1 - 1, s1));
        lemma_resolve_shared(c, rem - 1, off2 - fi.1 - 1, s1, k - 1);
    }
}

/// What `shared_from` finds: a level no deeper than `d` whose content holds
/// `pos`, or 0.
pub proof fn lemma_shared_from(rp: RPV, pos: int, d: int)
    requires
        0 <= d,
    ensures
        0 <= shared_from(rp, pos, d) <= d,
        shared_from(rp, pos, d) > 0 ==> cstart(rp.path, 0, shared_from(rp, pos, d)) <= pos
            && pos <= cstart(rp.path, 0, shared_from(rp, pos, d)) + content_size(rp.nd(shared_from(rp, pos, d)).content),
    decreases d,
{
    if d >= 1 && !(cstart(rp.path, 0, d) <= pos && cstart(rp.path, 0, d) + content_size(rp.nd(d).content) >= pos) {
        lemma_shared_from(rp, pos, d - 1);
    }
}


/// Marks whose types have one identity agree on whether they are inclusive
/// (one identity, one type).
pub open spec fn ids_agree(ms: Seq<MarkV>) -> bool {
    forall|j: int, k: int| 0 <= j < ms.len() && 0 <= k < ms.len() && (#[trigger] ms[j]).mark_type.id == (#[trigger] ms[k]).mark_type.id
        ==> ms[j].mark_type.inclusive == ms[k].mark_type.inclusive
}

/// The filter keeps only marks of the list it starts from.
proof fn lemma_incl_within(ms: Seq<MarkV>, i: int, other: Option<Seq<MarkV>>)
    ensures
        forall|x: MarkV| #[trigger] incl_filter(ms, i, other).contains(x) ==> ms.contains(x),
    decreases i,
{
    if i > 0 {
        let m = ms[i - 1];
        let drop = m.mark_type.inclusive == Some(false) && match other {
            None => true,
            Some(o) => !in_set(m, o),
        };
        let ms2 = if drop { removed(m, ms) } else { ms };
        assert(incl_filter(ms, i, other) == incl_filter(ms2, i - 1, other));
        lemma_incl_within(ms2, i - 1, other);
        assert forall|x: MarkV| #[trigger] incl_filter(ms, i, other).contains(x) implies ms.contains(x) by {
            assert(ms2.contains(x));
            if drop {
                crate::mark::lemma_first_eq_from(m, ms, 0);
                match crate::mark::first_eq_from(m, ms, 0) {
                    Some(k) => {
                        let p = choose|p: int| 0 <= p < ms2.len() && ms2[p] == x;
                        assert(ms2 == ms.remove(k));
                        if p < k {
                            assert(ms[p] == x);
                        } else {
                            assert(ms[p + 1] == x);
                        }
                    },
                    None => {},
                }
            }
        }
    }
}

/// The filter keeps every inclusive mark of the list it starts from.
proof fn lemma_incl_keeps(ms: Seq<MarkV>, i: int, other: Option<Seq<MarkV>>, x: MarkV)
    requires
        ids_agree(ms),
        0 <= i <= ms.len(),
        ms.contains(x),
        x.mark_type.inclusive != Some(false),
    ensures
        incl_filter(ms, i, other).contains(x),
    decreases i,
{
    if i > 0 {
        let m = ms[i - 1];
        let drop = m.mark_type.inclusive == Some(false) && match other {
            None => true,
            Some(o) => !in_set(m, o),
        };
        if drop {
            assert(incl_filter(ms, i, other) == incl_filter(removed(m, ms), i - 1, other));
            crate::mark::lemma_first_eq_from(m, ms, 0);
            match crate::mark::first_eq_from(m, ms, 0) {
                Some(k) => {
                    let ms2 = ms.remove(k);
                    assert(removed(m, ms) == ms2);
                    assert(ms[k].mark_type.id == m.mark_type.id);
                    assert(ms[i - 1] == m);
                    assert(ms[k].mark_type.inclusive == Some(false));
                    let p = choose|p: int| 0 <= p < ms.len() && ms[p] == x;
                    assert(p != k);
                    if p < k {
                        assert(ms2[p] == x);
                    } else {
                        assert(ms2[p - 1] == x);
                    }
                    assert forall|j: int, l: int| 0 <= j < ms2.len() && 0 <= l < ms2.len() && (#[trigger] ms2[j]).mark_type.id == (#[trigger] ms2[l]).mark_type.id
                        implies ms2[j].mark_type.inclusive == ms2[l].mark_type.inclusive by {
                        let jj = if j < k { j } else { j + 1 };
                        let ll = if l < k { l } else { l + 1 };
                        assert(ms2[j] == ms[jj]);
                        assert(ms2[l] == ms[ll]);
                    }
                    lemma_incl_keeps(ms2, i - 1, other, x);
                },
                None => {
                    assert(removed(m, ms) == ms);
                    lemma_incl_keeps(ms, i - 1, other, x);
                },
            }
        } else {
            assert(incl_filter(ms, i, other) == incl_filter(ms, i - 1, other));
            lemma_incl_keeps(ms, i - 1, other, x);
        }
    }
}

/// At a child boundary after the first child, outside any text, the marks
/// at the position come from the node before it: each is one of that
/// node's marks, and each of that node's inclusive marks is among them
/// (where one identity means one mark type).
pub proof fn law_marks_from_node_before(parent: NodeV, index: int)
    requires
        content_size(parent.content) > 0,
        0 < index <= parent.content.len(),
        ids_agree(parent.content[index - 1].marks),
    ensures
        forall|k: int| 0 <= k < marks_at(parent, index, 0).len()
            ==> parent.content[index - 1].marks.contains(#[trigger] marks_at(parent, index, 0)[k]),
        forall|j: int| 0 <= j < parent.content[index - 1].marks.len()
            && (#[trigger] parent.content[index - 1].marks[j]).mark_type.inclusive != Some(false)
            ==> marks_at(parent, index, 0).contains(parent.content[index - 1].marks[j]),
{
    let c = parent.content;
    let prev = c[index - 1].marks;
    let other = if index < c.len() { Some(c[index].marks) } else { None };
    let r = marks_at(parent, index, 0);
    assert(r == carried(prev, other));
    lemma_incl_within(prev, prev.len() as int, other);
    assert forall|k: int| 0 <= k < r.len() implies prev.contains(#[trigger] r[k]) by {
        assert(r.contains(r[k]));
    }
    assert forall|j: int| 0 <= j < prev.len() && (#[trigger] prev[j]).mark_type.inclusive != Some(false)
        implies r.contains(prev[j]) by {
        assert(prev.contains(prev[j]));
        lemma_incl_keeps(prev, prev.len() as int, other, prev[j]);
    }
}


/// Before the first child, outside any text, the marks at the position
/// come from the first child: each is one of its marks, and each of its
/// inclusive marks is among them (where one identity means one mark type).
pub proof fn law_marks_before_first(parent: NodeV)
    requires
        content_size(parent.content) > 0,
        parent.content.len() > 0,
        ids_agree(parent.content[0].marks),
    ensures
        forall|k: int| 0 <= k < marks_at(parent, 0, 0).len()
            ==> parent.content[0].marks.contains(#[trigger] marks_at(parent, 0, 0)[k]),
        forall|j: int| 0 <= j < parent.content[0].marks.len()
            && (#[trigger] parent.content[0].marks[j]).mark_type.inclusive != Some(false)
            ==> marks_at(parent, 0, 0).contains(parent.content[0].marks[j]),
{
    let first = parent.content[0].marks;
    let r = marks_at(parent, 0, 0);
    assert(r == carried(first, None));
    lemma_incl_within(first, first.len() as int, None);
    assert forall|k: int| 0 <= k < r.len() implies first.contains(#[trigger] r[k]) by {
        assert(r.contains(r[k]));
    }
    assert forall|j: int| 0 <= j < first.len() && (#[trigger] first[j]).mark_type.inclusive != Some(false)
        implies r.contains(first[j]) by {
        assert(first.contains(first[j]));
        lemma_incl_keeps(first, first.len() as int, None, first[j]);
    }
}

} // verus!
