use vstd::prelude::*;

use crate::fragment::{joined, merge_text, frag_cut, appended, all_wf, find_index, lemma_find_index};
use crate::matching::{valid_content, invalid_content_message, can_replace_spec};
use crate::node::{Node, NodeV, Fragment, node_view, nodes_view, node_size, content_size, node_wf, frag_wf, same_markup, copy_with, nodes_eq, lemma_nodes_view, lemma_nodes_view_push, type_ok};
use crate::resolvedpos::{ResolvedPos, RPV, entry_view, level_ok, link_ok, cstart, resolved};
use crate::schema::{NodeType, spec_compatible_content, spec_is_leaf};

verus! {

/// Why a replace failed.
#[derive(Debug)]
pub struct ReplaceError(pub String);

/// A piece of a document: content, and how deep it is open at its start
/// and at its end.
#[derive(Debug)]
pub struct Slice {
    pub content: Fragment,
    pub open_start: usize,
    pub open_end: usize,
}

/// How deep a fragment can be opened along its first (or, with `last`, its
/// last) children: up to the first leaf.
pub open spec fn open_depth(s: Seq<NodeV>, last: bool) -> nat
    decreases s,
{
    if s.len() == 0 {
        0
    } else {
        let n = if last { s[s.len() - 1] } else { s[0] };
        if spec_is_leaf(n.node_type) {
            0
        } else {
            1 + open_depth(n.content, last)
        }
    }
}

impl Slice {
    /// The slice is made of a well-formed fragment.
    pub open spec fn wf(&self) -> bool {
        frag_wf(self.content)
    }

    /// A slice of the content, open to the given depths.
    pub fn new(content: Fragment, open_start: usize, open_end: usize) -> (r: Slice)
        ensures
            r.content == content,
            r.open_start == open_start,
            r.open_end == open_end,
    {
        Slice { content, open_start, open_end }
    }

    /// The empty slice.
    pub fn empty() -> (r: Slice)
        ensures
            r.content@.len() == 0,
            r.content.size == 0,
            r.open_start == 0,
            r.open_end == 0,
            r.wf(),
    {
        Slice { content: Fragment::empty(), open_start: 0, open_end: 0 }
    }

    /// The size the slice adds where it is inserted: its content's size
    /// less its open depths (at least zero).
    pub fn size(&self) -> (r: usize)
        ensures
            r == if self.content.size >= self.open_start + self.open_end {
                self.content.size - self.open_start - self.open_end
            } else {
                0
            },
    {
        let open = self.open_start as u128 + self.open_end as u128;
        if (self.content.size as u128) >= open {
            (self.content.size as u128 - open) as usize
        } else {
            0
        }
    }

    /// Equal content and open depths.
    pub fn eq(&self, other: &Slice) -> (r: bool)
        ensures
            r == (nodes_eq(self.content@, other.content@) && self.open_start == other.open_start
                && self.open_end == other.open_end),
    {
        self.content.eq(&other.content) && self.open_start == other.open_start && self.open_end == other.open_end
    }

    /// The fragment as a slice opened as deep as it goes at both ends.
    pub fn max_open(fragment: &Fragment) -> (r: Slice)
        requires
            frag_wf(*fragment),
        ensures
            r.content == *fragment,
            r.open_start == open_depth(fragment@, false),
            r.open_end == open_depth(fragment@, true),
    {
        let open_start = Slice::open_count(fragment, false);
        let open_end = Slice::open_count(fragment, true);
        Slice { content: fragment.clone(), open_start, open_end }
    }

    fn open_count(fragment: &Fragment, last: bool) -> (r: usize)
        requires
            frag_wf(*fragment),
        ensures
            r == open_depth(fragment@, last),
            r <= fragment.size + 1,
        decreases *fragment,
    {
        proof {
            lemma_nodes_view(fragment.content@);
        }
        let n = fragment.child_count();
        if n == 0 {
            return 0;
        }
        let node = if last { fragment.child(n - 1) } else { fragment.child(0) };
        proof {
            let k = if last { n - 1 } else { 0 };
            assert(node_wf(fragment.content@[k as int]));
            crate::node::lemma_content_size_each(fragment@, k as int);
            assert(decreases_to!(*fragment => fragment.content@[k as int]));
        }
        if node.is_leaf() {
            return 0;
        }
        let inner = Slice::open_count(&node.content, last);
        1 + inner
    }
}

/// `child` added to the nodes: merged onto a last text node of the same
/// markup, else appended.
pub open spec fn add_node_spec(t: Seq<NodeV>, c: NodeV) -> Seq<NodeV> {
    if t.len() > 0 && c.node_type.is_text && t.last().node_type.is_text && same_markup(c, t.last()) {
        t.update(t.len() - 1, merge_text(t.last(), c))
    } else {
        t.push(c)
    }
}

/// Adds a node to a list being built, merging adjacent text.
fn add_node(child: Node, target: &mut Vec<Node>)
    requires
        node_wf(child),
        all_wf(old(target)@),
    ensures
        nodes_view(final(target)@) == add_node_spec(nodes_view(old(target)@), child@),
        all_wf(final(target)@),
{
    proof {
        lemma_nodes_view(target@);
    }
    let n = target.len();
    if n > 0 && child.is_text() && target[n - 1].is_text() && child.same_markup(&target[n - 1]) {
        let mut t = String::new();
        match target[n - 1].text() {
            Some(a) => t.append(a),
            None => {},
        }
        match child.text() {
            Some(b) => t.append(b),
            None => {},
        }
        proof {
            assert(node_wf(target@[n - 1]));
        }
        let m = target[n - 1].with_text(t);
        let ghost t0 = target@;
        target.set(n - 1, m);
        proof {
            lemma_nodes_view(target@);
            lemma_nodes_view(t0);
            assert(nodes_view(target@) =~= nodes_view(t0).update(n - 1, merge_text(nodes_view(t0).last(), child@)));
        }
    } else {
        let ghost t0 = target@;
        target.push(child);
        proof {
            lemma_nodes_view_push(t0, child);
        }
    }
}

/// The message of a failed join.
pub open spec fn join_message(main: NodeType, sub: NodeType) -> Seq<char> {
    "Cannot join "@ + sub.name@ + " onto "@ + main.name@
}

/// Checks that content of `sub`'s type may be joined onto `main`'s.
pub fn check_join(main: &Node, sub: &Node) -> (r: Result<(), ReplaceError>)
    requires
        node_wf(*main),
        node_wf(*sub),
    ensures
        match r {
            Ok(()) => spec_compatible_content(*main.node_type, *sub.node_type),
            Err(e) => !spec_compatible_content(*main.node_type, *sub.node_type) && e.0@ == join_message(*main.node_type, *sub.node_type),
        },
{
    if !main.node_type.compatible_content(&sub.node_type) {
        let mut m = String::from_str("Cannot join ");
        m.append(sub.node_type.name.as_str());
        m.append(" onto ");
        m.append(main.node_type.name.as_str());
        return Err(ReplaceError(m));
    }
    Ok(())
}

/// The node closed over the content: an error when the content is not
/// valid for the node's type; none when the size would not fit.
pub open spec fn close_spec(n: NodeV, c: Seq<NodeV>) -> Option<Result<NodeV, Seq<char>>> {
    if !valid_content(n.node_type, c) {
        Some(Err(invalid_content_message(n.node_type)))
    } else if content_size(c) + 2 > usize::MAX {
        None
    } else {
        Some(Ok(copy_with(n, c)))
    }
}

/// The node with the content, once the content is checked.
fn close(node: &Node, content: Fragment) -> (r: Result<Node, ReplaceError>)
    requires
        node_wf(*node),
        !node.node_type.is_text,
        frag_wf(content),
        close_spec(node@, content@) is Some,
    ensures
        match close_spec(node@, content@)->0 {
            Ok(v) => r matches Ok(n) && n@ == v && node_wf(n),
            Err(m) => r matches Err(e) && e.0@ == m,
        },
{
    match node.node_type.check_content(&content) {
        Err(e) => Err(ReplaceError(e)),
        Ok(()) => Ok(node.copy(content)),
    }
}


/// The children `i..j` of `c` added one by one.
pub open spec fn add_children(t: Seq<NodeV>, c: Seq<NodeV>, i: int, j: int) -> Seq<NodeV>
    decreases j - i,
{
    if i >= j {
        t
    } else {
        add_children(add_node_spec(t, c[i]), c, i + 1, j)
    }
}

/// The nodes at level `d` between `start` and `end` (from the start of the
/// parent when `start` is none, to its end when `end` is none) added to
/// `t`; none where an index would fall outside the path.
pub open spec fn add_range_spec(t: Seq<NodeV>, start: Option<RPV>, end: Option<RPV>, d: int) -> Option<Seq<NodeV>> {
    if start is None && end is None {
        None
    } else {
        let rp = match end {
            Some(e) => e,
            None => start->0,
        };
        if d < 0 || d > rp.depth() {
            None
        } else {
            let node = rp.nd(d);
            let s_res: Option<(Seq<NodeV>, int)> = match start {
                None => Some((t, 0int)),
                Some(s) => if d > s.depth() {
                    None
                } else if s.depth() > d {
                    Some((t, s.ix(d) + 1))
                } else if s.toff() > 0 {
                    Some(
                        (
                            match s.after() {
                                Some(n) => add_node_spec(t, n),
                                None => t,
                            },
                            s.ix(d) + 1,
                        ),
                    )
                } else {
                    Some((t, s.ix(d)))
                },
            };
            match s_res {
                None => None,
                Some(p) => {
                    let ei = match end {
                        Some(e) => e.ix(d),
                        None => node.content.len() as int,
                    };
                    let t2 = add_children(p.0, node.content, p.1, ei);
                    Some(
                        match end {
                            Some(e) => if e.depth() == d && e.toff() > 0 {
                                match e.before() {
                                    Some(n) => add_node_spec(t2, n),
                                    None => t2,
                                }
                            } else {
                                t2
                            },
                            None => t2,
                        },
                    )
                },
            }
        }
    }
}

/// The view of an optional position.
pub open spec fn opt_view(r: Option<&ResolvedPos>) -> Option<RPV> {
    match r {
        Some(x) => Some(x@),
        None => None,
    }
}

/// Adds the nodes at level `depth` between `start` and `end`.
fn add_range(start: Option<&ResolvedPos>, end: Option<&ResolvedPos>, depth: usize, target: &mut Vec<Node>)
    requires
        start matches Some(s) ==> s.wf(),
        end matches Some(e) ==> e.wf(),
        add_range_spec(nodes_view(old(target)@), opt_view(start), opt_view(end), depth as int) is Some,
        all_wf(old(target)@),
    ensures
        nodes_view(final(target)@) == add_range_spec(nodes_view(old(target)@), opt_view(start), opt_view(end), depth as int)->0,
        all_wf(final(target)@),
{
    let rp = match end {
        Some(e) => e,
        None => match start {
            Some(s) => s,
            None => {
                return;
            },
        },
    };
    proof {
        rp.lemma_wf();
        assert(rp@.nd(depth as int) == node_view(rp.path@[depth as int].node));
    }
    let node = &rp.path[depth].node;
    proof {
        lemma_nodes_view(node.content.content@);
        assert(level_ok(rp.path_view(), 0, rp.pos as int, depth as int));
    }
    let start_index = match start {
        Some(s) => {
            proof {
                s.lemma_wf();
                assert(s@.ix(depth as int) == s.path@[depth as int].index);
                assert(level_ok(s.path_view(), 0, s.pos as int, depth as int));
                if s.spec_depth() > depth {
                    assert(link_ok(s.path_view(), depth as int));
                }
                assert(s.path_view().last() == s.path_view()[s.spec_depth()]);
                assert(s.path_view()[s.spec_depth()] == entry_view(s.path@[s.spec_depth()]));
                lemma_nodes_view(s.path@[depth as int].node.content.content@);
                assert(s.path@[depth as int].node.content.content.len() == s.path@[depth as int].node.content.content@.len());
            }
            let idx = s.path[depth].index;
            if s.path.len() - 1 > depth {
                idx + 1
            } else if s.text_offset() > 0 {
                match s.node_after() {
                    Some(n) => add_node(n, target),
                    None => {},
                }
                idx + 1
            } else {
                idx
            }
        },
        None => 0,
    };
    let end_index = match end {
        Some(e) => e.path[depth].index,
        None => node.content.child_count(),
    };
    let ghost t1 = nodes_view(target@);
    let mut i = start_index;
    while i < end_index
        invariant
            start_index <= i || i >= end_index,
            end_index <= node.content.content@.len(),
            node.content.content@.len() == node@.content.len(),
            forall|j: int| 0 <= j < node.content.content@.len() ==> #[trigger] node@.content[j] == node_view(node.content.content@[j]),
            frag_wf(node.content),
            all_wf(target@),
            add_children(t1, node@.content, start_index as int, end_index as int) == add_children(nodes_view(target@), node@.content, i as int, end_index as int),
        decreases end_index - i,
    {
        proof {
            assert(node_wf(node.content.content@[i as int]));
        }
        add_node(node.content.child(i).clone(), target);
        i = i + 1;
    }
    match end {
        Some(e) => {
            proof {
                e.lemma_wf();
                assert(e.path_view().last() == e.path_view()[e.spec_depth()]);
                assert(e.path_view()[e.spec_depth()] == entry_view(e.path@[e.spec_depth()]));
            }
            if e.path.len() - 1 == depth && e.text_offset() > 0 {
                match e.node_before() {
                    Some(n) => add_node(n, target),
                    None => {},
                }
            }
        },
        None => {},
    }
}


/// The node of `before` at level `d`, if the content of `after`'s node at
/// that level may be joined onto it; the join error otherwise.
pub open spec fn joinable_spec(before: RPV, after: RPV, d: int) -> Option<Result<NodeV, Seq<char>>> {
    if d < 0 || d > before.depth() || d > after.depth() {
        None
    } else if !spec_compatible_content(before.nd(d).node_type, after.nd(d).node_type) {
        Some(Err(join_message(before.nd(d).node_type, after.nd(d).node_type)))
    } else {
        Some(Ok(before.nd(d)))
    }
}

/// A list of nodes as a fragment: adjacent text joined; none if the size
/// would not fit.
pub open spec fn frag_of(t: Seq<NodeV>) -> Option<Seq<NodeV>> {
    if content_size(t) > usize::MAX {
        None
    } else {
        Some(joined(t))
    }
}

/// The content at level `d` with the range between the two positions
/// removed, the sides joined and closed where they can be.
pub open spec fn two_way_spec(from: RPV, to: RPV, d: int) -> Option<Seq<NodeV>>
    decreases from.depth() - d,
{
    match add_range_spec(seq![], None, Some(from), d) {
        None => None,
        Some(c1) => {
            let c2: Option<Seq<NodeV>> = if from.depth() > d && d >= 0 {
                match joinable_spec(from, to, d + 1) {
                    None => None,
                    Some(Err(_)) => Some(c1),
                    Some(Ok(node)) => match two_way_spec(from, to, d + 1) {
                        None => None,
                        Some(inner) => match close_spec(node, inner) {
                            None => None,
                            Some(Err(_)) => Some(c1),
                            Some(Ok(closed)) => Some(add_node_spec(c1, closed)),
                        },
                    },
                }
            } else {
                Some(c1)
            };
            match c2 {
                None => None,
                Some(c) => match add_range_spec(c, Some(to), None, d) {
                    None => None,
                    Some(c3) => frag_of(c3),
                },
            }
        },
    }
}

/// The node of `before` at level `depth`, if `after`'s node there can be
/// joined onto it.
fn joinable(before: &ResolvedPos, after: &ResolvedPos, depth: usize) -> (r: Result<Node, ReplaceError>)
    requires
        before.wf(),
        after.wf(),
        joinable_spec(before@, after@, depth as int) is Some,
    ensures
        match joinable_spec(before@, after@, depth as int)->0 {
            Ok(v) => r matches Ok(n) && n@ == v && node_wf(n) && *n.node_type == *before.path@[depth as int].node.node_type,
            Err(m) => r matches Err(e) && e.0@ == m,
        },
{
    proof {
        before.lemma_wf();
        after.lemma_wf();
    }
    let node = before.path[depth].node.clone();
    match check_join(&node, &after.path[depth].node) {
        Err(e) => Err(e),
        Ok(()) => Ok(node),
    }
}

/// A node on the path below the top is not a text node.
proof fn lemma_path_not_text(rp: ResolvedPos, d: int)
    requires
        rp.wf(),
        1 <= d <= rp.spec_depth(),
    ensures
        !rp.path@[d].node.node_type.is_text,
        !rp@.nd(d).node_type.is_text,
{
    rp.lemma_wf();
    assert(link_ok(rp.path_view(), d - 1));
}

/// The content at level `depth` with the range from `from` to `to` taken
/// out.
fn replace_two_way(from: &ResolvedPos, to: &ResolvedPos, depth: usize) -> (r: Fragment)
    requires
        from.wf(),
        to.wf(),
        two_way_spec(from@, to@, depth as int) is Some,
    ensures
        r@ == two_way_spec(from@, to@, depth as int)->0,
        frag_wf(r),
    decreases from.spec_depth() - depth,
{
    let mut content: Vec<Node> = Vec::new();
    proof {
        assert(nodes_view(content@) =~= Seq::<NodeV>::empty());
    }
    add_range(None, Some(from), depth, &mut content);
    if from.path.len() - 1 > depth {
        match joinable(from, to, depth + 1) {
            Ok(node) => {
                proof {
                    lemma_path_not_text(*from, depth + 1);
                }
                let inner = replace_two_way(from, to, depth + 1);
                match close(&node, inner) {
                    Ok(closed) => add_node(closed, &mut content),
                    Err(_) => {},
                }
            },
            Err(_) => {},
        }
    }
    add_range(Some(to), None, depth, &mut content);
    Fragment::from_array(content)
}


/// The node closed over `inner` and added to `c`, or the error of the close.
pub open spec fn close_add(c: Seq<NodeV>, node: NodeV, inner: Seq<NodeV>) -> Option<Result<Seq<NodeV>, Seq<char>>> {
    match close_spec(node, inner) {
        None => None,
        Some(Err(m)) => Some(Err(m)),
        Some(Ok(cl)) => Some(Ok(add_node_spec(c, cl))),
    }
}

/// The closing side at the end: the node `oe`, if any, closed over the
/// content between `end` and `to` one level down, added to `c`.
pub open spec fn end_part(c: Seq<NodeV>, end: RPV, to: RPV, oe: Option<NodeV>, d: int) -> Option<Result<Seq<NodeV>, Seq<char>>> {
    match oe {
        None => Some(Ok(c)),
        Some(n) => match two_way_spec(end, to, d + 1) {
            None => None,
            Some(inner) => close_add(c, n, inner),
        },
    }
}

/// The node at level `d + 1` of `before` if `after`'s node there joins it
/// and the level exists below `a`; none of a node otherwise.
pub open spec fn open_side(a: RPV, before: RPV, after: RPV, d: int) -> Option<Result<Option<NodeV>, Seq<char>>> {
    if a.depth() > d {
        match joinable_spec(before, after, d + 1) {
            None => None,
            Some(Err(m)) => Some(Err(m)),
            Some(Ok(n)) => Some(Ok(Some(n))),
        }
    } else {
        Some(Ok(None))
    }
}

/// The content at level `d` after replacing the range `from..to` with the
/// slice content between `start` and `end` (positions in the prepared
/// slice), joining the open sides.
pub open spec fn three_way_spec(from: RPV, start: RPV, end: RPV, to: RPV, d: int) -> Option<Result<Seq<NodeV>, Seq<char>>>
    decreases from.depth() - d,
{
    match open_side(from, from, start, d) {
        None => None,
        Some(Err(m)) => Some(Err(m)),
        Some(Ok(os)) => match open_side(to, end, to, d) {
            None => None,
            Some(Err(m)) => Some(Err(m)),
            Some(Ok(oe)) => match add_range_spec(seq![], None, Some(from), d) {
                None => None,
                Some(c0) => {
                    let mid: Option<Result<Seq<NodeV>, Seq<char>>> = if os is Some && oe is Some && (d
                        > start.depth() || d > end.depth()) {
                        None
                    } else if os is Some && oe is Some && start.ix(d) == end.ix(d) {
                        if !spec_compatible_content(os->0.node_type, oe->0.node_type) {
                            Some(Err(join_message(os->0.node_type, oe->0.node_type)))
                        } else if from.depth() > d {
                            match three_way_spec(from, start, end, to, d + 1) {
                                None => None,
                                Some(Err(m)) => Some(Err(m)),
                                Some(Ok(inner)) => close_add(c0, os->0, inner),
                            }
                        } else {
                            None
                        }
                    } else if os is Some {
                        match two_way_spec(from, start, d + 1) {
                            None => None,
                            Some(inner) => match close_add(c0, os->0, inner) {
                                None => None,
                                Some(Err(m)) => Some(Err(m)),
                                Some(Ok(c1)) => match add_range_spec(c1, Some(start), Some(end), d) {
                                    None => None,
                                    Some(c2) => end_part(c2, end, to, oe, d),
                                },
                            },
                        }
                    } else {
                        match add_range_spec(c0, Some(start), Some(end), d) {
                            None => None,
                            Some(c2) => end_part(c2, end, to, oe, d),
                        }
                    };
                    match mid {
                        None => None,
                        Some(Err(m)) => Some(Err(m)),
                        Some(Ok(c)) => match add_range_spec(c, Some(to), None, d) {
                            None => None,
                            Some(c3) => match frag_of(c3) {
                                None => None,
                                Some(f) => Some(Ok(f)),
                            },
                        },
                    }
                },
            },
        },
    }
}

/// Adds the closing side at the end.
fn add_end_part(content: &mut Vec<Node>, end: &ResolvedPos, to: &ResolvedPos, oe: Option<Node>, depth: usize) -> (r: Result<(), ReplaceError>)
    requires
        end.wf(),
        to.wf(),
        all_wf(old(content)@),
        oe matches Some(n) ==> node_wf(n) && !n.node_type.is_text,
        end_part(nodes_view(old(content)@), end@, to@, match oe { Some(n) => Some(n@), None => None }, depth as int) is Some,
        depth < usize::MAX,
    ensures
        match end_part(nodes_view(old(content)@), end@, to@, match oe { Some(n) => Some(n@), None => None }, depth as int)->0 {
            Ok(c) => r is Ok && nodes_view(final(content)@) == c,
            Err(m) => r matches Err(e) && e.0@ == m,
        },
        all_wf(final(content)@),
{
    match oe {
        None => Ok(()),
        Some(n) => {
            let inner = replace_two_way(end, to, depth + 1);
            match close(&n, inner) {
                Ok(cl) => {
                    add_node(cl, content);
                    Ok(())
                },
                Err(e) => Err(e),
            }
        },
    }
}

/// The content at level `depth` with the range `from..to` replaced by the
/// slice content between `start` and `end`.
fn replace_three_way(from: &ResolvedPos, start: &ResolvedPos, end: &ResolvedPos, to: &ResolvedPos, depth: usize) -> (r: Result<Fragment, ReplaceError>)
    requires
        from.wf(),
        start.wf(),
        end.wf(),
        to.wf(),
        three_way_spec(from@, start@, end@, to@, depth as int) is Some,
    ensures
        match three_way_spec(from@, start@, end@, to@, depth as int)->0 {
            Ok(c) => r matches Ok(f) && f@ == c && frag_wf(f),
            Err(m) => r matches Err(e) && e.0@ == m,
        },
    decreases from.spec_depth() - depth,
{
    proof {
        assert(from.path.len() == from.path@.len());
        assert(to.path.len() == to.path@.len());
    }
    let open_start = if from.path.len() - 1 > depth {
        match joinable(from, start, depth + 1) {
            Ok(n) => Some(n),
            Err(e) => {
                return Err(e);
            },
        }
    } else {
        None
    };
    let open_end = if to.path.len() - 1 > depth {
        match joinable(end, to, depth + 1) {
            Ok(n) => Some(n),
            Err(e) => {
                return Err(e);
            },
        }
    } else {
        None
    };
    proof {
        if open_start is Some {
            lemma_path_not_text(*from, depth + 1);
        }
        if open_end is Some {
            lemma_path_not_text(*end, depth + 1);
        }
    }
    let mut content: Vec<Node> = Vec::new();
    proof {
        assert(nodes_view(content@) =~= Seq::<NodeV>::empty());
    }
    add_range(None, Some(from), depth, &mut content);
    let has_os = open_start.is_some();
    let has_oe = open_end.is_some();
    if has_os && has_oe && start.path[depth].index == end.path[depth].index {
        let os = open_start.unwrap();
        let oe = open_end.unwrap();
        match check_join(&os, &oe) {
            Err(e) => {
                return Err(e);
            },
            Ok(()) => {},
        }
        let inner = match replace_three_way(from, start, end, to, depth + 1) {
            Ok(f) => f,
            Err(e) => {
                return Err(e);
            },
        };
        match close(&os, inner) {
            Ok(cl) => add_node(cl, &mut content),
            Err(e) => {
                return Err(e);
            },
        }
    } else if has_os {
        let os = open_start.unwrap();
        let inner = replace_two_way(from, start, depth + 1);
        match close(&os, inner) {
            Ok(cl) => add_node(cl, &mut content),
            Err(e) => {
                return Err(e);
            },
        }
        add_range(Some(start), Some(end), depth, &mut content);
        match add_end_part(&mut content, end, to, open_end, depth) {
            Ok(()) => {},
            Err(e) => {
                return Err(e);
            },
        }
    } else {
        add_range(Some(start), Some(end), depth, &mut content);
        match add_end_part(&mut content, end, to, open_end, depth) {
            Ok(()) => {},
            Err(e) => {
                return Err(e);
            },
        }
    }
    add_range(Some(to), None, depth, &mut content);
    Ok(Fragment::from_array(content))
}


/// The slice content placed in copies of `along`'s ancestors: level `extra`
/// holds the content, each level above holds the one below.
pub open spec fn wrap_spec(along: RPV, content: Seq<NodeV>, extra: int, i: int) -> Option<NodeV>
    decreases extra - i,
{
    if i < 0 || i > extra || extra > along.depth() || along.nd(i).node_type.is_text {
        None
    } else if i == extra {
        if content_size(content) + 2 > usize::MAX {
            None
        } else {
            Some(copy_with(along.nd(extra), content))
        }
    } else {
        match wrap_spec(along, content, extra, i + 1) {
            None => None,
            Some(inner) => if node_size(inner) + 2 > usize::MAX {
                None
            } else {
                Some(copy_with(along.nd(i), seq![inner]))
            },
        }
    }
}

/// The slice placed in copies of the ancestors of `along` down to the level
/// it opens into, with the positions of its start and end resolved there.
pub open spec fn prepare_spec(content: Seq<NodeV>, os: int, oe: int, along: RPV) -> Option<Result<(RPV, RPV), Seq<char>>> {
    if os > along.depth() {
        None
    } else {
        let extra = along.depth() - os;
        match wrap_spec(along, content, extra, 0) {
            None => None,
            Some(node) => {
                let sp = os + extra;
                let size = content_size(node.content);
                if size < oe + extra {
                    None
                } else {
                    let ep = size - oe - extra;
                    if sp > size {
                        Some(Err(crate::resolvedpos::out_of_range_message(sp as nat)))
                    } else {
                        Some(Ok((resolved(node, sp), resolved(node, ep))))
                    }
                }
            },
        }
    }
}

/// A well-formed resolved position has the view of its resolution.
proof fn lemma_resolved_view(rp: ResolvedPos, doc: NodeV)
    requires
        rp.wf(),
        node_view(rp.path@[0].node) == doc,
    ensures
        rp@ == resolved(doc, rp.pos as int),
{
}

/// Places the slice in copies of `along`'s ancestors and resolves its start
/// and end there.
fn prepare_slice_for_replace(slice: &Slice, along: &ResolvedPos) -> (r: Result<(ResolvedPos, ResolvedPos), ReplaceError>)
    requires
        slice.wf(),
        along.wf(),
        prepare_spec(slice.content@, slice.open_start as int, slice.open_end as int, along@) is Some,
    ensures
        match prepare_spec(slice.content@, slice.open_start as int, slice.open_end as int, along@)->0 {
            Ok(se) => r matches Ok(p) && p.0@ == se.0 && p.1@ == se.1 && p.0.wf() && p.1.wf(),
            Err(m) => r matches Err(e) && e.0@ == m,
        },
{
    proof {
        along.lemma_wf();
    }
    let extra = along.path.len() - 1 - slice.open_start;
    let parent = &along.path[extra].node;
    proof {
        lemma_wrap_some(along@, slice.content@, extra as int, extra as int);
        assert(along@.nd(extra as int) == node_view(along.path@[extra as int].node));
        assert(node_wf(along.path@[extra as int].node));
    }
    let mut node = parent.copy(slice.content.clone());
    let mut i = extra;
    while i > 0
        invariant
            along.wf(),
            i <= extra,
            extra <= along.spec_depth(),
            extra == along.spec_depth() - slice.open_start,
            prepare_spec(slice.content@, slice.open_start as int, slice.open_end as int, along@) is Some,
            wrap_spec(along@, slice.content@, extra as int, 0) is Some,
            wrap_spec(along@, slice.content@, extra as int, i as int) == Some(node@),
            node_wf(node),
        decreases i,
    {
        i = i - 1;
        proof {
            lemma_wrap_some(along@, slice.content@, extra as int, i as int);
            lemma_wrap_chain(along@, slice.content@, extra as int, i as int);
            assert(node_wf(along.path@[i as int].node));
            assert(along@.nd(i as int) == node_view(along.path@[i as int].node));
        }
        let wrapper = &along.path[i].node;
        let ns = node.node_size();
        let mut v: Vec<Node> = Vec::new();
        v.push(node);
        proof {
            lemma_nodes_view_push(Seq::<Node>::empty(), node);
            assert(Seq::<Node>::empty().push(node) =~= v@);
            assert(nodes_view(Seq::<Node>::empty()) =~= Seq::<NodeV>::empty());
            crate::node::lemma_content_size_push(Seq::<NodeV>::empty(), node@);
            assert(seq![node@] =~= Seq::<NodeV>::empty().push(node@));
            assert(seq![node@].drop_last() =~= Seq::<NodeV>::empty());
            assert(joined(Seq::<NodeV>::empty()) =~= Seq::<NodeV>::empty());
            assert(joined(seq![node@]) =~= seq![node@]);
        }
        let f = Fragment::from_array(v);
        node = wrapper.copy(f);
    }
    let start_pos = slice.open_start + extra;
    let size = node.content.size;
    let end_pos = size - slice.open_end - extra;
    let start = match ResolvedPos::resolve(&node, start_pos) {
        Ok(rp) => rp,
        Err(e) => {
            return Err(ReplaceError(e));
        },
    };
    let end = match ResolvedPos::resolve(&node, end_pos) {
        Ok(rp) => rp,
        Err(e) => {
            return Err(ReplaceError(e));
        },
    };
    proof {
        lemma_resolved_view(start, node@);
        lemma_resolved_view(end, node@);
    }
    Ok((start, end))
}

/// A wrap that succeeds at a level succeeds at the levels below it.
proof fn lemma_wrap_chain(along: RPV, content: Seq<NodeV>, extra: int, i: int)
    requires
        0 <= i < extra,
        wrap_spec(along, content, extra, i) is Some,
    ensures
        wrap_spec(along, content, extra, i + 1) is Some,
        !along.nd(i).node_type.is_text,
{
}

/// A wrap at level 0 that succeeds succeeds at every level up to `extra`.
proof fn lemma_wrap_some(along: RPV, content: Seq<NodeV>, extra: int, i: int)
    requires
        0 <= i <= extra,
        wrap_spec(along, content, extra, 0) is Some,
    ensures
        wrap_spec(along, content, extra, i) is Some,
    decreases i,
{
    if i > 0 {
        lemma_wrap_some(along, content, extra, i - 1);
        lemma_wrap_chain(along, content, extra, i - 1);
    }
}


/// The node at level `d` of `from` with the range `from..to` replaced by the
/// slice (content `sc`, open `os` at the start and `oe` at the end).
pub open spec fn outer_spec(from: RPV, to: RPV, sc: Seq<NodeV>, os: int, oe: int, d: int) -> Option<Result<NodeV, Seq<char>>>
    decreases from.depth() - d,
{
    if d < 0 || d > from.depth() || d > to.depth() || os < 0 || oe < 0 || os > from.depth() {
        None
    } else {
        let index = from.ix(d);
        let node = from.nd(d);
        if index == to.ix(d) && d < from.depth() - os {
            match outer_spec(from, to, sc, os, oe, d + 1) {
                None => None,
                Some(Err(m)) => Some(Err(m)),
                Some(Ok(inner)) => if index < 0 || index >= node.content.len() || content_size(node.content)
                    + node_size(inner) > usize::MAX || node.node_type.is_text {
                    None
                } else {
                    let nc = node.content.update(index, inner);
                    if content_size(nc) + 2 > usize::MAX {
                        None
                    } else {
                        Some(Ok(copy_with(node, nc)))
                    }
                },
            }
        } else if node.node_type.is_text {
            None
        } else if content_size(sc) == 0 {
            match two_way_spec(from, to, d) {
                None => None,
                Some(c) => close_spec(node, c),
            }
        } else if os == 0 && oe == 0 && from.depth() == d && to.depth() == d {
            let c = node.content;
            let a = frag_cut(c, 0, from.offset);
            let b = frag_cut(c, to.offset, content_size(c) as int);
            if content_size(a) + content_size(sc) > usize::MAX {
                None
            } else {
                let ab = appended(a, sc);
                if content_size(ab) + content_size(b) > usize::MAX {
                    None
                } else {
                    close_spec(node, appended(ab, b))
                }
            }
        } else {
            match prepare_spec(sc, os, oe, from) {
                None => None,
                Some(Err(m)) => Some(Err(m)),
                Some(Ok(se)) => match three_way_spec(from, se.0, se.1, to, d) {
                    None => None,
                    Some(Err(m)) => Some(Err(m)),
                    Some(Ok(c)) => close_spec(node, c),
                },
            }
        }
    }
}

/// The document (the node at the top of `from`) with the range `from..to`
/// replaced by the slice: errors when the slice is open deeper than `from`
/// or the open depths do not line up, or when some node cannot take the
/// content that results; none where an index would fall outside a node or
/// a size would overflow.
pub open spec fn replace_spec(from: RPV, to: RPV, sc: Seq<NodeV>, os: int, oe: int) -> Option<Result<NodeV, Seq<char>>> {
    if os > from.depth() {
        Some(Err("Inserted content deeper than insertion position"@))
    } else if from.depth() - os != to.depth() - oe {
        Some(Err("Inconsistent open depths"@))
    } else {
        outer_spec(from, to, sc, os, oe, 0)
    }
}

/// The node at level `depth` with the range replaced.
fn replace_outer(from: &ResolvedPos, to: &ResolvedPos, slice: &Slice, depth: usize) -> (r: Result<Node, ReplaceError>)
    requires
        from.wf(),
        to.wf(),
        slice.wf(),
        outer_spec(from@, to@, slice.content@, slice.open_start as int, slice.open_end as int, depth as int) is Some,
    ensures
        match outer_spec(from@, to@, slice.content@, slice.open_start as int, slice.open_end as int, depth as int)->0 {
            Ok(v) => r matches Ok(n) && n@ == v && node_wf(n),
            Err(m) => r matches Err(e) && e.0@ == m,
        },
    decreases from.spec_depth() - depth,
{
    proof {
        from.lemma_wf();
        to.lemma_wf();
        assert(from.path.len() == from.path@.len());
    }
    let index = from.path[depth].index;
    let node = &from.path[depth].node;
    proof {
        assert(from@.nd(depth as int) == node@);
        assert(node_wf(from.path@[depth as int].node));
    }
    if index == to.path[depth].index && depth < from.path.len() - 1 - slice.open_start {
        let inner = match replace_outer(from, to, slice, depth + 1) {
            Ok(n) => n,
            Err(e) => {
                return Err(e);
            },
        };
        proof {
            lemma_nodes_view(node.content.content@);
        }
        let new_content = node.content.replace_child(index, inner);
        return Ok(node.copy(new_content));
    }
    if slice.content.size == 0 {
        let content = replace_two_way(from, to, depth);
        return close(node, content);
    }
    if slice.open_start == 0 && slice.open_end == 0 && from.path.len() - 1 == depth && to.path.len() - 1 == depth {
        let content = &node.content;
        let a = content.cut(0, Some(from.parent_offset));
        let b = content.cut(to.parent_offset, None);
        let ab = a.append(&slice.content);
        let all = ab.append(&b);
        return close(node, all);
    }
    let (start, end) = match prepare_slice_for_replace(slice, from) {
        Ok(p) => p,
        Err(e) => {
            return Err(e);
        },
    };
    let content = match replace_three_way(from, &start, &end, to, depth) {
        Ok(c) => c,
        Err(e) => {
            return Err(e);
        },
    };
    close(node, content)
}

/// Replaces the range `from..to` of their document with the slice.
pub fn replace(from: &ResolvedPos, to: &ResolvedPos, slice: &Slice) -> (r: Result<Node, ReplaceError>)
    requires
        from.wf(),
        to.wf(),
        slice.wf(),
        replace_spec(from@, to@, slice.content@, slice.open_start as int, slice.open_end as int) is Some,
    ensures
        match replace_spec(from@, to@, slice.content@, slice.open_start as int, slice.open_end as int)->0 {
            Ok(v) => r matches Ok(n) && n@ == v && node_wf(n),
            Err(m) => r matches Err(e) && e.0@ == m,
        },
{
    proof {
        from.lemma_wf();
        to.lemma_wf();
        assert(from.path.len() == from.path@.len());
        assert(to.path.len() == to.path@.len());
    }
    if slice.open_start > from.path.len() - 1 {
        return Err(ReplaceError(String::from_str("Inserted content deeper than insertion position")));
    }
    if slice.open_end > to.path.len() - 1 || from.path.len() - 1 - slice.open_start != to.path.len() - 1 - slice.open_end {
        return Err(ReplaceError(String::from_str("Inconsistent open depths")));
    }
    replace_outer(from, to, slice, 0)
}


/// The nodes with positions `from..to` removed, descending into the child
/// both ends fall in: an error when they fall in different children at a
/// level where they are not both at child boundaries.
pub open spec fn remove_spec(c: Seq<NodeV>, from: int, to: int) -> Option<Result<Seq<NodeV>, Seq<char>>>
    decreases c,
{
    if from < 0 || to < from || to > content_size(c) {
        None
    } else {
        let fi = find_index(c, from);
        let index = fi.0;
        let offset = fi.1;
        let index_to = find_index(c, to).0;
        let child_text = 0 <= index < c.len() && c[index].node_type.is_text;
        if offset == from || child_text {
            let a = frag_cut(c, 0, from);
            let b = frag_cut(c, to, content_size(c) as int);
            if content_size(a) + content_size(b) > usize::MAX {
                None
            } else {
                Some(Ok(appended(a, b)))
            }
        } else if index != index_to {
            Some(Err("Removing non-flat range"@))
        } else if 0 <= index < c.len() {
            let child = c[index];
            match remove_spec(child.content, from - offset - 1, to - offset - 1) {
                None => None,
                Some(Err(m)) => Some(Err(m)),
                Some(Ok(inner)) => {
                    let nc = copy_with(child, inner);
                    if content_size(inner) + 2 > usize::MAX || content_size(c) + node_size(nc) > usize::MAX {
                        None
                    } else {
                        Some(Ok(c.update(index, nc)))
                    }
                },
            }
        } else {
            Some(Ok(c))
        }
    }
}

/// The nodes with `ins` inserted at `dist`, descending into the child the
/// position falls in; none of a result where the node holding the spot
/// (when given) cannot take the inserted nodes there.
pub open spec fn insert_spec(c: Seq<NodeV>, dist: int, ins: Seq<NodeV>, parent: Option<NodeV>) -> Option<Option<Seq<NodeV>>>
    decreases c,
{
    if dist < 0 || dist > content_size(c) {
        None
    } else {
        let fi = find_index(c, dist);
        let index = fi.0;
        let offset = fi.1;
        let child_text = 0 <= index < c.len() && c[index].node_type.is_text;
        if offset == dist || child_text {
            let ok = match parent {
                None => true,
                Some(p) => can_replace_spec(p, index, index, ins, 0, ins.len() as int),
            };
            if !ok {
                Some(None)
            } else {
                let a = frag_cut(c, 0, dist);
                let b = frag_cut(c, dist, content_size(c) as int);
                if content_size(a) + content_size(ins) > usize::MAX {
                    None
                } else {
                    let ai = appended(a, ins);
                    if content_size(ai) + content_size(b) > usize::MAX {
                        None
                    } else {
                        Some(Some(appended(ai, b)))
                    }
                }
            }
        } else if 0 <= index < c.len() {
            let child = c[index];
            match insert_spec(child.content, dist - offset - 1, ins, Some(child)) {
                None => None,
                Some(None) => Some(None),
                Some(Some(inner)) => {
                    let nc = copy_with(child, inner);
                    if content_size(inner) + 2 > usize::MAX || content_size(c) + node_size(nc) > usize::MAX {
                        None
                    } else {
                        Some(Some(c.update(index, nc)))
                    }
                },
            }
        } else {
            Some(None)
        }
    }
}

/// Removes positions `from..to` from the fragment.
pub fn remove_range(content: &Fragment, from: usize, to: usize) -> (r: Result<Fragment, ReplaceError>)
    requires
        frag_wf(*content),
        remove_spec(content@, from as int, to as int) is Some,
    ensures
        match remove_spec(content@, from as int, to as int)->0 {
            Ok(c) => r matches Ok(f) && f@ == c && frag_wf(f),
            Err(m) => r matches Err(e) && e.0@ == m,
        },
    decreases *content,
{
    proof {
        lemma_nodes_view(content.content@);
        crate::fragment::lemma_frag_wf_text(*content);
    }
    let (index, offset) = content.find_index(from);
    let child = content.maybe_child(index);
    let (index_to, _offset_to) = content.find_index(to);
    let child_text = match child {
        Some(c) => c.is_text(),
        None => false,
    };
    if offset == from || child_text {
        let a = content.cut(0, Some(from));
        let b = content.cut(to, None);
        return Ok(a.append(&b));
    }
    if index != index_to {
        return Err(ReplaceError(String::from_str("Removing non-flat range")));
    }
    match child {
        Some(c) => {
            proof {
                assert(node_wf(content.content@[index as int]));
                assert(decreases_to!(*content => content.content@[index as int]));
                lemma_find_index(content@, from as int);
            }
            let inner = match remove_range(&c.content, from - offset - 1, to - offset - 1) {
                Ok(f) => f,
                Err(e) => {
                    return Err(e);
                },
            };
            let nc = c.copy(inner);
            Ok(content.replace_child(index, nc))
        },
        None => Ok(content.clone()),
    }
}

/// Inserts `insert` at position `dist` of the fragment, if the node that
/// holds the spot (when given) can take it there.
fn insert_into(content: &Fragment, dist: usize, insert: &Fragment, parent: Option<&Node>) -> (r: Option<Fragment>)
    requires
        frag_wf(*content),
        frag_wf(*insert),
        parent matches Some(p) ==> node_wf(*p) && p.content.content@.len() == content.content@.len(),
        insert_spec(content@, dist as int, insert@, match parent { Some(p) => Some(p@), None => None }) is Some,
    ensures
        match insert_spec(content@, dist as int, insert@, match parent { Some(p) => Some(p@), None => None })->0 {
            Some(c) => r matches Some(f) && f@ == c && frag_wf(f),
            None => r is None,
        },
    decreases *content,
{
    proof {
        lemma_nodes_view(content.content@);
        lemma_nodes_view(insert.content@);
        crate::fragment::lemma_frag_wf_text(*content);
    }
    let (index, offset) = content.find_index(dist);
    let child = content.maybe_child(index);
    let child_text = match child {
        Some(c) => c.is_text(),
        None => false,
    };
    if offset == dist || child_text {
        proof {
            lemma_find_index(content@, dist as int);
        }
        match parent {
            Some(p) => {
                if !p.can_replace(index, index, insert, 0, insert.child_count()) {
                    return None;
                }
            },
            None => {},
        }
        let a = content.cut(0, Some(dist));
        let b = content.cut(dist, None);
        let ai = a.append(insert);
        return Some(ai.append(&b));
    }
    match child {
        Some(c) => {
            proof {
                assert(node_wf(content.content@[index as int]));
                assert(decreases_to!(*content => content.content@[index as int]));
                lemma_find_index(content@, dist as int);
            }
            let inner = match insert_into(&c.content, dist - offset - 1, insert, Some(c)) {
                Some(f) => f,
                None => {
                    return None;
                },
            };
            let nc = c.copy(inner);
            Some(content.replace_child(index, nc))
        },
        None => None,
    }
}

impl Slice {
    /// The slice with `fragment` inserted at position `pos` (counted from
    /// the slice's inner start).
    pub fn insert_at(&self, pos: usize, fragment: &Fragment) -> (r: Option<Slice>)
        requires
            self.wf(),
            frag_wf(*fragment),
            pos + self.open_start <= usize::MAX,
            insert_spec(self.content@, pos + self.open_start, fragment@, None) is Some,
        ensures
            match insert_spec(self.content@, pos + self.open_start, fragment@, None)->0 {
                Some(c) => r matches Some(s) && s.content@ == c && s.wf() && s.open_start == self.open_start
                    && s.open_end == self.open_end,
                None => r is None,
            },
    {
        match insert_into(&self.content, pos + self.open_start, fragment, None) {
            Some(content) => Some(Slice { content, open_start: self.open_start, open_end: self.open_end }),
            None => None,
        }
    }

    /// The slice with positions `from..to` (counted from the slice's inner
    /// start) removed.
    pub fn remove_between(&self, from: usize, to: usize) -> (r: Result<Slice, ReplaceError>)
        requires
            self.wf(),
            to + self.open_start <= usize::MAX,
            remove_spec(self.content@, from + self.open_start, to + self.open_start) is Some,
        ensures
            match remove_spec(self.content@, from + self.open_start, to + self.open_start)->0 {
                Ok(c) => r matches Ok(s) && s.content@ == c && s.wf() && s.open_start == self.open_start
                    && s.open_end == self.open_end,
                Err(m) => r matches Err(e) && e.0@ == m,
            },
    {
        match remove_range(&self.content, from + self.open_start, to + self.open_start) {
            Ok(content) => Ok(Slice { content, open_start: self.open_start, open_end: self.open_end }),
            Err(e) => Err(e),
        }
    }
}


/// The message of an out-of-range slice.
pub open spec fn slice_message(from: nat, to: nat, size: nat) -> Seq<char> {
    "slice("@ + crate::decimal::decimal(from) + ", "@ + crate::decimal::decimal(to) + ") out of range (size="@
        + crate::decimal::decimal(size) + ")"@
}

/// The slice of a node between two positions: the content of their deepest
/// common ancestor cut to the range, open as deep as each end lies below
/// that ancestor; an error when the range is out of the node.
pub open spec fn slice_spec(n: NodeV, from: int, to: int) -> Result<(Seq<NodeV>, int, int), Seq<char>> {
    let size = content_size(n.content);
    if from > to || to > size {
        Err(slice_message(from as nat, to as nat, size))
    } else if from == to {
        Ok((seq![], 0, 0))
    } else {
        let fp = resolved(n, from);
        let tp = resolved(n, to);
        let d = crate::resolvedpos::shared_from(fp, to, fp.depth());
        let start = cstart(fp.path, 0, d);
        Ok((frag_cut(fp.nd(d).content, from - start, to - start), fp.depth() - d, tp.depth() - d))
    }
}

/// The end of a range lies at least as deep as the common ancestor found
/// from its start.
pub proof fn lemma_slice_depth(n: NodeV, from: int, to: int)
    requires
        crate::fragment::nested_text_ok(n.content),
        0 <= from <= to <= content_size(n.content),
    ensures
        0 <= crate::resolvedpos::shared_from(resolved(n, from), to, resolved(n, from).depth())
            <= resolved(n, to).depth(),
        crate::resolvedpos::shared_from(resolved(n, from), to, resolved(n, from).depth())
            <= resolved(n, from).depth(),
{
    let fp = resolved(n, from);
    crate::resolvedpos::lemma_rpath(n, from, 0);
    crate::resolvedpos::lemma_rpath(n, to, 0);
    crate::resolvedpos::lemma_shared_from(fp, to, fp.depth());
    let d = crate::resolvedpos::shared_from(fp, to, fp.depth());
    if d > 0 {
        crate::resolvedpos::lemma_resolve_shared(n, from, to, 0, d);
    }
}

impl Node {
    /// The slice of this node between positions `from` and `to`.
    pub fn slice(&self, from: usize, to: usize) -> (r: Result<Slice, String>)
        requires
            node_wf(*self),
        ensures
            match slice_spec(self@, from as int, to as int) {
                Ok(v) => r matches Ok(s) && s.content@ == v.0 && s.open_start == v.1 && s.open_end == v.2 && s.wf(),
                Err(m) => r matches Err(e) && e@ == m,
            },
    {
        if from > to || to > self.content.size {
            let mut e = String::from_str("slice(");
            crate::decimal::push_decimal(&mut e, from);
            e.append(", ");
            crate::decimal::push_decimal(&mut e, to);
            e.append(") out of range (size=");
            crate::decimal::push_decimal(&mut e, self.content.size);
            e.append(")");
            return Err(e);
        }
        if from == to {
            let s = Slice::empty();
            proof {
                assert(s.content@ =~= Seq::<NodeV>::empty());
            }
            return Ok(s);
        }
        let from_pos = match ResolvedPos::resolve(self, from) {
            Ok(p) => p,
            Err(e) => {
                return Err(e);
            },
        };
        let to_pos = match ResolvedPos::resolve(self, to) {
            Ok(p) => p,
            Err(e) => {
                return Err(e);
            },
        };
        proof {
            lemma_resolved_view(from_pos, self@);
            lemma_resolved_view(to_pos, self@);
            from_pos.lemma_wf();
            crate::fragment::lemma_node_wf_text(*self);
            lemma_slice_depth(self@, from as int, to as int);
        }
        let depth = from_pos.shared_depth(to);
        proof {
            assert(level_ok(from_pos.path_view(), 0, from as int, depth as int));
            if depth > 0 {
                assert(level_ok(from_pos.path_view(), 0, from as int, depth - 1));
            }
            assert(from_pos.path.len() == from_pos.path@.len());
            assert(to_pos.path.len() == to_pos.path@.len());
        }
        let start = if depth == 0 { 0 } else { from_pos.path[depth - 1].start + 1 };
        let node = &from_pos.path[depth].node;
        proof {
            assert(node_wf(from_pos.path@[depth as int].node));
            assert(from_pos@.nd(depth as int) == node@);
        }
        let content = node.content.cut(from - start, Some(to - start));
        Ok(Slice { content, open_start: from_pos.path.len() - 1 - depth, open_end: to_pos.path.len() - 1 - depth })
    }
}


/// Replacing a range that lies inside one child of the document, deeper
/// than the slice is open, changes only that child: the document keeps its
/// type, attributes and marks and its number of children, and every other
/// child stays, unchanged, in its place.
pub proof fn law_replace_keeps_other_children(from: RPV, to: RPV, sc: Seq<NodeV>, os: int, oe: int, v: NodeV)
    requires
        replace_spec(from, to, sc, os, oe) == Some(Ok::<NodeV, Seq<char>>(v)),
        from.ix(0) == to.ix(0),
        0 < from.depth() - os,
    ensures
        v.node_type == from.nd(0).node_type,
        v.attrs == from.nd(0).attrs,
        v.marks == from.nd(0).marks,
        v.content.len() == from.nd(0).content.len(),
        forall|i: int| 0 <= i < v.content.len() && i != from.ix(0) ==> v.content[i] == from.nd(0).content[i],
{
    assert(outer_spec(from, to, sc, os, oe, 0) == Some(Ok::<NodeV, Seq<char>>(v)));
    let node = from.nd(0);
    let index = from.ix(0);
    match outer_spec(from, to, sc, os, oe, 1) {
        Some(Ok(inner)) => {
            assert(v == copy_with(node, node.content.update(index, inner)));
        },
        _ => {},
    }
}


/// Replacing gives a node of the document's own type, attributes and marks;
/// where the range is not inside one child deeper than the slice is open,
/// its new content is valid for that type.
pub proof fn law_replace_keeps_document(from: RPV, to: RPV, sc: Seq<NodeV>, os: int, oe: int, v: NodeV)
    requires
        replace_spec(from, to, sc, os, oe) == Some(Ok::<NodeV, Seq<char>>(v)),
    ensures
        v.node_type == from.nd(0).node_type,
        v.attrs == from.nd(0).attrs,
        v.marks == from.nd(0).marks,
        v.text is None,
        !(from.ix(0) == to.ix(0) && 0 < from.depth() - os) ==> valid_content(v.node_type, v.content),
{
    assert(outer_spec(from, to, sc, os, oe, 0) == Some(Ok::<NodeV, Seq<char>>(v)));
    let node = from.nd(0);
    if from.ix(0) == to.ix(0) && 0 < from.depth() - os {
        match outer_spec(from, to, sc, os, oe, 1) {
            Some(Ok(inner)) => {
                assert(v == copy_with(node, node.content.update(from.ix(0), inner)));
            },
            _ => {},
        }
    } else if content_size(sc) == 0 {
        match two_way_spec(from, to, 0) {
            Some(c) => {
                assert(close_spec(node, c) == Some(Ok::<NodeV, Seq<char>>(v)));
            },
            None => {},
        }
    } else if os == 0 && oe == 0 && from.depth() == 0 && to.depth() == 0 {
    } else {
        match prepare_spec(sc, os, oe, from) {
            Some(Ok(se)) => match three_way_spec(from, se.0, se.1, to, 0) {
                Some(Ok(c)) => {
                    assert(close_spec(node, c) == Some(Ok::<NodeV, Seq<char>>(v)));
                },
                _ => {},
            },
            _ => {},
        }
    }
}

} // verus!
