use vstd::prelude::*;
use std::sync::Arc;

use crate::automaton::{count_false, lemma_count_set};
use crate::content::ContentMatch;
use crate::fragment::joined;
use crate::matching::{names, type_tree_ok};
use crate::node::{Node, NodeV, Fragment, nodes_view, content_size, frag_wf, lemma_nodes_view};
use crate::schema::NodeType;
use crate::util::share;

verus! {

/// The types behind a list of shared types.
pub open spec fn types_view(v: Seq<Arc<NodeType>>) -> Seq<NodeType> {
    v.map_values(|a: Arc<NodeType>| *a)
}

/// Edge `i` out of state `s` leads to `t` over a non-text type.
pub open spec fn fill_step(cm: ContentMatch, s: nat, i: int, t: nat) -> bool {
    0 <= i < cm.out(s).len() && cm.out(s)[i].1 == t && !cm.out(s)[i].0.is_text
}

/// The type labelling edge `i` out of state `s`.
pub open spec fn label_of(cm: ContentMatch, s: nat, i: int) -> NodeType {
    *cm.out(s)[i].0
}

/// `p` is a path of states of the automaton, from `p[0]`, taking edges
/// labelled with the non-text types `ts` in turn.
pub open spec fn fill_path(cm: ContentMatch, p: Seq<nat>, ts: Seq<NodeType>) -> bool {
    &&& p.len() == ts.len() + 1
    &&& forall|j: int| 0 <= j < ts.len() ==> #[trigger] fill_link(cm, p, ts, j)
}

/// Step `j` of the path takes an edge labelled `ts[j]`.
pub open spec fn fill_link(cm: ContentMatch, p: Seq<nat>, ts: Seq<NodeType>, j: int) -> bool {
    exists|i: int| #[trigger] fill_step(cm, p[j], i, p[j + 1]) && label_of(cm, p[j], i) == ts[j]
}

/// From state `t`, the automaton reads the names, and stops in an accepting
/// state if `to_end` asks for it.
pub open spec fn fill_ok(cm: ContentMatch, t: nat, ns: Seq<Seq<char>>, to_end: bool) -> bool {
    match cm.run(t, ns) {
        Some(u) => !to_end || cm.accepting(u),
        None => false,
    }
}

/// `ts` is a shortest way to fill from the current state: some path takes
/// it, and no way to fill is shorter.
pub open spec fn shortest_for(cm: ContentMatch, ts: Seq<NodeType>, ns: Seq<Seq<char>>, to_end: bool) -> bool {
    &&& exists|p: Seq<nat>| fills_with(cm, p, ts, ns, to_end)
    &&& forall|p2: Seq<nat>, ts2: Seq<NodeType>| #[trigger] fills_with(cm, p2, ts2, ns, to_end) ==> ts.len() <= ts2.len()
}

/// A node of type `t` cannot be filled: its automaton may not stop at
/// once, and no run of nodes leads it to an accepting state.
pub open spec fn no_fill(t: NodeType) -> bool {
    match t.content_match {
        Some(cm) => !cm.valid_end && forall|p: Seq<nat>, ts: Seq<NodeType>| !#[trigger] fills_with(*cm, p, ts, seq![], true),
        None => false,
    }
}

/// The types of the list that can be filled, in order.
pub open spec fn kept_types(ts: Seq<NodeType>) -> Seq<NodeType>
    decreases ts.len(),
{
    if ts.len() == 0 {
        seq![]
    } else {
        let k = kept_types(ts.drop_last());
        if no_fill(ts.last()) {
            k
        } else {
            k.push(ts.last())
        }
    }
}

/// The types of a list of nodes.
pub open spec fn types_of(cs: Seq<NodeV>) -> Seq<NodeType> {
    cs.map_values(|c: NodeV| c.node_type)
}

/// `v` is a node that filling its type makes (`whole`), or one on the way
/// to it (each level holding the nodes of a prefix of its fill): no
/// attributes, marks or text; empty where its automaton may stop at once;
/// else, for a shortest fill, a node for each type of it that can be
/// filled, each itself made so.
pub open spec fn made_as(v: NodeV, whole: bool) -> bool
    decreases v,
{
    &&& v.attrs.len() == 0
    &&& v.marks.len() == 0
    &&& v.text is None
    &&& match v.node_type.content_match {
        None => v.content.len() == 0,
        Some(cm) => if cm.valid_end {
            v.content.len() == 0
        } else {
            exists|ts: Seq<NodeType>, j: int|
                #![trigger shortest_for(*cm, ts, seq![], true), kept_types(ts.take(j))]
                shortest_for(*cm, ts, seq![], true) && 0 <= j <= ts.len() && (whole ==> j == ts.len())
                && types_of(v.content) == kept_types(ts.take(j))
        },
    }
    &&& forall|i: int| 0 <= i < v.content.len() ==> made_as(#[trigger] v.content[i], whole)
}

/// The nodes that filling the types `ts` makes.
pub open spec fn fills_list(cs: Seq<NodeV>, ts: Seq<NodeType>) -> bool {
    &&& types_of(cs) == kept_types(ts)
    &&& forall|k: int| 0 <= k < cs.len() ==> made_as(#[trigger] cs[k], true)
}

/// Filling the types `ts` one after another gets, on the way, to nodes too
/// large for a `usize`.
pub open spec fn overflows_list(ts: Seq<NodeType>) -> bool {
    exists|cs: Seq<NodeV>, j: int|
        #![trigger types_of(cs), kept_types(ts.take(j))]
        0 <= j <= ts.len() && types_of(cs) == kept_types(ts.take(j)) && (forall|k: int|
            0 <= k < cs.len() ==> made_as(#[trigger] cs[k], false)) && content_size(cs) > usize::MAX
}

/// Filling a node of type `t` gets, on the way, to a node too large for a
/// `usize`.
pub open spec fn too_big(t: NodeType) -> bool {
    exists|v: NodeV| v.node_type == t && #[trigger] made_as(v, false) && crate::node::node_size(v) > usize::MAX
}

/// A made node is one on the way to itself.
pub proof fn lemma_made_part(v: NodeV)
    requires
        made_as(v, true),
    ensures
        made_as(v, false),
    decreases v,
{
    assert forall|i: int| 0 <= i < v.content.len() implies made_as(#[trigger] v.content[i], false) by {
        lemma_made_part(v.content[i]);
    }
}

/// The types kept of one more type.
pub proof fn lemma_kept_step(ts: Seq<NodeType>, i: int)
    requires
        0 <= i < ts.len(),
    ensures
        kept_types(ts.take(i + 1)) == if no_fill(ts[i]) {
            kept_types(ts.take(i))
        } else {
            kept_types(ts.take(i)).push(ts[i])
        },
{
    assert(ts.take(i + 1).drop_last() =~= ts.take(i));
    assert(ts.take(i + 1).last() == ts[i]);
}

/// Every edge label of the automaton heads a well-formed tree of types.
pub open spec fn labels_ok(cm: ContentMatch) -> bool {
    forall|s: nat, i: int| s < cm.num_states() && 0 <= i < cm.out(s).len() ==> type_tree_ok(*(#[trigger] cm.out(s)[i]).0)
}

/// `t` labels some edge of the automaton.
pub open spec fn label_in(cm: ContentMatch, t: NodeType) -> bool {
    exists|s: nat, k: int| s < cm.num_states() && 0 <= k < cm.out(s).len() && *(#[trigger] cm.out(s)[k]).0 == t
}

/// A way to fill: a path from the current state over non-text types to a
/// state from which the rest of the content fits.
pub open spec fn fills_with(cm: ContentMatch, p: Seq<nat>, ts: Seq<NodeType>, ns: Seq<Seq<char>>, to_end: bool) -> bool {
    &&& p.len() > 0
    &&& p[0] == cm.state()
    &&& fill_path(cm, p, ts)
    &&& fill_ok(cm, p.last(), ns, to_end)
}

struct FillEntry {
    state: usize,
    types: Vec<Arc<NodeType>>,
}

proof fn lemma_count_all_false(n: nat)
    ensures
        count_false(Seq::new(n, |i: int| false)) == n,
    decreases n,
{
    if n > 0 {
        assert(Seq::new(n, |i: int| false).drop_last() =~= Seq::new((n - 1) as nat, |i: int| false));
        lemma_count_all_false((n - 1) as nat);
    }
}

proof fn lemma_fill_path_push(cm: ContentMatch, p: Seq<nat>, ts: Seq<NodeType>, i: int, t: nat)
    requires
        p.len() > 0,
        fill_path(cm, p, ts),
        fill_step(cm, p.last(), i, t),
    ensures
        fill_path(cm, p.push(t), ts.push(label_of(cm, p.last(), i))),
{
    let p2 = p.push(t);
    let t2 = ts.push(label_of(cm, p.last(), i));
    assert forall|j: int| 0 <= j < t2.len() implies #[trigger] fill_link(cm, p2, t2, j) by {
        if j < ts.len() {
            assert(fill_link(cm, p, ts, j));
            let k = choose|k: int| #[trigger] fill_step(cm, p[j], k, p[j + 1]) && label_of(cm, p[j], k) == ts[j];
            assert(p2[j] == p[j] && p2[j + 1] == p[j + 1]);
            assert(fill_step(cm, p2[j], k, p2[j + 1]));
        } else {
            assert(p2[j] == p.last());
            assert(fill_step(cm, p2[j], i, p2[j + 1]));
        }
    }
}

fn copy_types(v: &Vec<Arc<NodeType>>) -> (r: Vec<Arc<NodeType>>)
    ensures
        r@ == v@,
{
    let mut r: Vec<Arc<NodeType>> = Vec::new();
    let mut i: usize = 0;
    while i < v.len()
        invariant
            i <= v@.len(),
            r@ == v@.subrange(0, i as int),
        decreases v@.len() - i,
    {
        r.push(share(&v[i]));
        i = i + 1;
        assert(r@ =~= v@.subrange(0, i as int));
    }
    assert(v@.subrange(0, v@.len() as int) =~= v@);
    r
}

/// The nodes made for the types, in order, joined into a fragment; none
/// when they grow too large for a `usize`.
fn make_fill(ts: &Vec<Arc<NodeType>>) -> (r: Option<Fragment>)
    requires
        forall|i: int| 0 <= i < ts@.len() ==> type_tree_ok(*ts@[i]) && !ts@[i].is_text,
    ensures
        match r {
            Some(f) => frag_wf(f) && exists|cs: Seq<NodeV>| fills_list(cs, types_view(ts@)) && f@ == joined(cs),
            None => overflows_list(types_view(ts@)),
        },
{
    let ghost tv = types_view(ts@);
    let mut nodes: Vec<Node> = Vec::new();
    let mut total: usize = 0;
    let mut i: usize = 0;
    proof {
        assert(tv.take(0) =~= Seq::<NodeType>::empty());
        assert(nodes_view(nodes@) =~= Seq::<NodeV>::empty());
        assert(types_of(Seq::<NodeV>::empty()) =~= Seq::<NodeType>::empty());
    }
    while i < ts.len()
        invariant
            tv == types_view(ts@),
            forall|k: int| 0 <= k < ts@.len() ==> type_tree_ok(*ts@[k]) && !ts@[k].is_text,
            i <= ts@.len(),
            fills_list(nodes_view(nodes@), tv.take(i as int)),
            crate::fragment::all_wf(nodes@),
            total == content_size(nodes_view(nodes@)),
        decreases ts@.len() - i,
    {
        let ghost n0 = nodes@;
        let ghost v0 = nodes_view(n0);
        proof {
            lemma_kept_step(tv, i as int);
            assert(tv[i as int] == *ts@[i as int]);
        }
        match ts[i].fill_node() {
            Ok(n) => {
                let s = n.node_size();
                proof {
                    crate::node::lemma_content_size_push(v0, n@);
                    assert(types_of(v0.push(n@)) =~= types_of(v0).push(n@.node_type));
                }
                if total > usize::MAX - s {
                    proof {
                        let cs = v0.push(n@);
                        assert forall|k: int| 0 <= k < cs.len() implies made_as(#[trigger] cs[k], false) by {
                            if k < v0.len() {
                                lemma_made_part(v0[k]);
                            } else {
                                lemma_made_part(n@);
                            }
                        }
                        assert(types_of(cs) == kept_types(tv.take(i + 1)));
                    }
                    return None;
                }
                total = total + s;
                nodes.push(n);
                proof {
                    crate::node::lemma_nodes_view_push(n0, n);
                    assert(forall|k: int| 0 <= k < v0.len() ==> made_as(#[trigger] v0[k], true));
                }
            },
            Err(none) => {
                if !none {
                    proof {
                        let w = choose|v: NodeV| v.node_type == tv[i as int] && #[trigger] made_as(v, false) && crate::node::node_size(v) > usize::MAX;
                        let cs = v0.push(w);
                        crate::node::lemma_content_size_push(v0, w);
                        assert(types_of(cs) =~= types_of(v0).push(w.node_type));
                        assert forall|k: int| 0 <= k < cs.len() implies made_as(#[trigger] cs[k], false) by {
                            if k < v0.len() {
                                lemma_made_part(v0[k]);
                            }
                        }
                        assert(types_of(cs) == kept_types(tv.take(i + 1)));
                    }
                    return None;
                }
            },
        }
        i = i + 1;
    }
    proof {
        assert(tv.take(ts@.len() as int) =~= tv);
    }
    Some(Fragment::from_array(nodes))
}

/// Along a path from the start, every state is seen, once the seen states
/// are closed under non-text edges.
proof fn lemma_path_seen(cm: ContentMatch, p: Seq<nat>, tv: Seq<NodeType>, seen: Seq<bool>, queue: Seq<FillEntry>)
    requires
        p.len() > 0,
        fill_path(cm, p, tv),
        0 <= p[0] < seen.len(),
        seen[p[0] as int],
        forall|s: int| 0 <= s < seen.len() && #[trigger] seen[s] ==> exists|q: int| 0 <= q < queue.len() && queue[q].state == s,
        forall|q: int, i: int, t: nat| 0 <= q < queue.len() && #[trigger] fill_step(cm, queue[q].state as nat, i, t) ==> seen[t as int],
        forall|s: nat, i: int| s < cm.num_states() && 0 <= i < cm.out(s).len() ==> (#[trigger] cm.out(s)[i]).1 < seen.len(),
        forall|q: int| 0 <= q < queue.len() ==> (#[trigger] queue[q]).state < cm.num_states(),
    ensures
        0 <= p.last() < seen.len(),
        seen[p.last() as int],
    decreases p.len(),
{
    if p.len() > 1 {
        let p0 = p.drop_last();
        let t0 = tv.drop_last();
        assert forall|j: int| 0 <= j < t0.len() implies #[trigger] fill_link(cm, p0, t0, j) by {
            assert(fill_link(cm, p, tv, j));
            let i = choose|i: int| #[trigger] fill_step(cm, p[j], i, p[j + 1]) && label_of(cm, p[j], i) == tv[j];
            assert(fill_step(cm, p0[j], i, p0[j + 1]));
        }
        lemma_path_seen(cm, p0, t0, seen, queue);
        let j = t0.len() as int;
        assert(fill_link(cm, p, tv, j));
        let i = choose|i: int| #[trigger] fill_step(cm, p[j], i, p[j + 1]) && label_of(cm, p[j], i) == tv[j];
        let q = choose|q: int| 0 <= q < queue.len() && queue[q].state == p0.last();
        assert(p[j] == p0.last());
        assert(fill_step(cm, queue[q].state as nat, i, p[j + 1]));
        assert(cm.out(p[j])[i].1 < seen.len());
    }
}

/// The types list length of queue entry `q`.
spec fn tl(queue: Seq<FillEntry>, q: int) -> nat {
    queue[q].types@.len()
}

/// State `t` is reached from the current state over `k` non-text edges.
pub open spec fn reach_in(cm: ContentMatch, t: nat, k: nat) -> bool {
    exists|p: Seq<nat>, ts: Seq<NodeType>|
        #![trigger fill_path(cm, p, ts)]
        p.len() > 0 && p[0] == cm.state() && fill_path(cm, p, ts) && p.last() == t && ts.len() == k
}

proof fn lemma_reach_pred(cm: ContentMatch, t: nat, k: nat)
    requires
        reach_in(cm, t, k),
        k > 0,
    ensures
        exists|t2: nat, i: int| #[trigger] reach_in(cm, t2, (k - 1) as nat) && #[trigger] fill_step(cm, t2, i, t),
{
    let (p, ts) = choose|p: Seq<nat>, ts: Seq<NodeType>|
        #![trigger fill_path(cm, p, ts)]
        p.len() > 0 && p[0] == cm.state() && fill_path(cm, p, ts) && p.last() == t && ts.len() == k;
    let p0 = p.drop_last();
    let t0 = ts.drop_last();
    assert forall|j: int| 0 <= j < t0.len() implies #[trigger] fill_link(cm, p0, t0, j) by {
        assert(fill_link(cm, p, ts, j));
        let i = choose|i: int| #[trigger] fill_step(cm, p[j], i, p[j + 1]) && label_of(cm, p[j], i) == ts[j];
        assert(fill_step(cm, p0[j], i, p0[j + 1]));
    }
    assert(fill_path(cm, p0, t0));
    assert(reach_in(cm, p0.last(), (k - 1) as nat));
    let j = t0.len() as int;
    assert(fill_link(cm, p, ts, j));
    let i = choose|i: int| #[trigger] fill_step(cm, p[j], i, p[j + 1]) && label_of(cm, p[j], i) == ts[j];
    assert(p[j] == p0.last());
    assert(fill_step(cm, p0.last(), i, t));
}

proof fn lemma_reach_zero(cm: ContentMatch, t: nat)
    requires
        reach_in(cm, t, 0),
    ensures
        t == cm.state(),
{
}

/// Once the states closer than the frontier are processed, the states at
/// the frontier's distance are queued no later than the frontier.
proof fn lemma_advance(cm: ContentMatch, queue: Seq<FillEntry>, seen: Seq<bool>, h: int)
    requires
        0 <= h,
        h + 1 < queue.len(),
        cm.wf(),
        seen.len() == cm.num_states(),
        queue[0].state == cm.state(),
        forall|q1: int, q2: int| 0 <= q1 <= q2 < queue.len() ==> #[trigger] tl(queue, q1) <= #[trigger] tl(queue, q2),
        tl(queue, h + 1) <= tl(queue, h) + 1,
        forall|q: int| 0 <= q < queue.len() ==> (#[trigger] queue[q]).state < seen.len(),
        forall|q: int, k: nat| 0 <= q < queue.len() && #[trigger] reach_in(cm, queue[q].state as nat, k) ==> tl(queue, q) <= k,
        forall|t: nat, k: nat| #[trigger] reach_in(cm, t, k) && k < tl(queue, h) ==> exists|q: int| 0 <= q < h && queue[q].state == t,
        forall|q: int, i: int, t: nat| 0 <= q <= h && #[trigger] fill_step(cm, queue[q].state as nat, i, t) ==> seen[t as int],
        forall|s: int| 0 <= s < seen.len() && #[trigger] seen[s] ==> exists|q: int| 0 <= q < queue.len() && queue[q].state == s,
    ensures
        forall|t: nat, k: nat| #[trigger] reach_in(cm, t, k) && k < tl(queue, h + 1) ==> exists|q: int| 0 <= q < h + 1 && queue[q].state == t,
{
    assert forall|t: nat, k: nat| #[trigger] reach_in(cm, t, k) && k < tl(queue, h + 1) implies exists|q: int| 0 <= q < h + 1 && queue[q].state == t by {
        if k < tl(queue, h) {
        } else if k == 0 {
            lemma_reach_zero(cm, t);
            assert(queue[0].state == t);
        } else {
            lemma_reach_pred(cm, t, k);
            let (t2, i) = choose|t2: nat, i: int| #[trigger] reach_in(cm, t2, (k - 1) as nat) && #[trigger] fill_step(cm, t2, i, t);
            let q2 = choose|q: int| 0 <= q < h && queue[q].state == t2;
            assert(queue[q2].state < seen.len());
            assert(fill_step(cm, queue[q2].state as nat, i, t));
            assert(cm.out(t2)[i].1 < cm.num_states());
            assert(seen[t as int]);
            let qt = choose|q: int| 0 <= q < queue.len() && queue[q].state == t;
            assert(reach_in(cm, queue[qt].state as nat, k));
            if qt > h {
                assert(tl(queue, h + 1) <= tl(queue, qt));
            }
        }
    }
}

/// A state not yet seen is farther than the frontier.
proof fn lemma_unseen_far(cm: ContentMatch, queue: Seq<FillEntry>, seen: Seq<bool>, h: int, t: nat)
    requires
        0 <= h < queue.len(),
        cm.wf(),
        seen.len() == cm.num_states(),
        t < seen.len(),
        !seen[t as int],
        queue[0].state == cm.state(),
        forall|q: int| 0 <= q < queue.len() ==> seen[(#[trigger] queue[q]).state as int],
        forall|q: int| 0 <= q < queue.len() ==> (#[trigger] queue[q]).state < seen.len(),
        forall|t2: nat, k: nat| #[trigger] reach_in(cm, t2, k) && k < tl(queue, h) ==> exists|q: int| 0 <= q < h && queue[q].state == t2,
        forall|q: int, i: int, t2: nat| 0 <= q < h && #[trigger] fill_step(cm, queue[q].state as nat, i, t2) ==> seen[t2 as int],
    ensures
        forall|k: nat| #[trigger] reach_in(cm, t, k) ==> tl(queue, h) + 1 <= k,
{
    assert forall|k: nat| #[trigger] reach_in(cm, t, k) implies tl(queue, h) + 1 <= k by {
        if k < tl(queue, h) {
            let q = choose|q: int| 0 <= q < h && queue[q].state == t;
            assert(seen[queue[q].state as int]);
        } else if k == 0 {
            lemma_reach_zero(cm, t);
            assert(seen[queue[0].state as int]);
        } else if k == tl(queue, h) {
            lemma_reach_pred(cm, t, k);
            let (t2, i) = choose|t2: nat, i: int| #[trigger] reach_in(cm, t2, (k - 1) as nat) && #[trigger] fill_step(cm, t2, i, t);
            let q2 = choose|q: int| 0 <= q < h && queue[q].state == t2;
            assert(fill_step(cm, queue[q2].state as nat, i, t));
        }
    }
}

impl ContentMatch {
    /// The shortest run of non-text nodes that, placed at this state, lets
    /// the children of `after` from `start_index` on follow (and, with
    /// `to_end`, lets the content end there), filled in; none if no such run
    /// exists, or if the nodes filled in for the run found would not fit a
    /// `usize` in size.
    pub fn fill_before(&self, after: &Fragment, to_end: bool, start_index: usize) -> (r: Option<Fragment>)
        requires
            self.wf(),
            labels_ok(*self),
            start_index <= after.content@.len(),
        ensures
            match r {
                Some(f) => frag_wf(f) && exists|ts: Seq<NodeType>|
                    shortest_for(*self, ts, names(after@.subrange(start_index as int, after@.len() as int)), to_end)
                    && exists|cs: Seq<NodeV>| fills_list(cs, ts) && f@ == joined(cs),
                None => (forall|p: Seq<nat>, ts: Seq<NodeType>|
                    !fills_with(*self, p, ts, names(after@.subrange(start_index as int, after@.len() as int)), to_end))
                    || exists|ts: Seq<NodeType>|
                    shortest_for(*self, ts, names(after@.subrange(start_index as int, after@.len() as int)), to_end)
                    && overflows_list(ts),
            },
    {
        match self.shortest_fill(after, to_end, start_index) {
            Some(ts) => make_fill(&ts),
            None => None,
        }
    }

    /// The types of a shortest run of non-text nodes that, placed at this
    /// state, lets the children of `after` from `start_index` on follow (and,
    /// with `to_end`, lets the content end there), found breadth first; none
    /// if there is no such run.
    pub fn shortest_fill(&self, after: &Fragment, to_end: bool, start_index: usize) -> (r: Option<Vec<Arc<NodeType>>>)
        requires
            self.wf(),
            labels_ok(*self),
            start_index <= after.content@.len(),
        ensures
            match r {
                Some(ts) => shortest_for(*self, types_view(ts@), names(after@.subrange(start_index as int, after@.len() as int)), to_end)
                    && forall|x: int| 0 <= x < ts@.len() ==> type_tree_ok(*#[trigger] ts@[x]) && !ts@[x].is_text && label_in(*self, *ts@[x]),
                None => forall|p: Seq<nat>, ts: Seq<NodeType>|
                    !fills_with(*self, p, ts, names(after@.subrange(start_index as int, after@.len() as int)), to_end),
            },
    {
        proof {
            lemma_nodes_view(after.content@);
        }
        let ghost ns = names(after@.subrange(start_index as int, after@.len() as int));
        let n_states = self.graph.len();
        let mut seen: Vec<bool> = Vec::new();
        let mut k: usize = 0;
        while k < n_states
            invariant
                k <= n_states,
                seen@ == Seq::new(k as nat, |i: int| false),
            decreases n_states - k,
        {
            seen.push(false);
            k = k + 1;
            assert(seen@ =~= Seq::new(k as nat, |i: int| false));
        }
        proof {
            lemma_count_all_false(n_states as nat);
            lemma_count_set(seen@, self.state as int);
        }
        seen.set(self.state, true);
        let mut queue: Vec<FillEntry> = Vec::new();
        queue.push(FillEntry { state: self.state, types: Vec::new() });
        let ghost mut paths: Seq<Seq<nat>> = seq![seq![self.state()]];
        proof {
            assert(fill_path(*self, seq![self.state()], types_view(Seq::<Arc<NodeType>>::empty())));
        }
        let mut head: usize = 0;
        let after_len = after.content.len();
        while head < queue.len()
            invariant
                self.wf(),
                labels_ok(*self),
                n_states == self.num_states(),
                after_len == after.content@.len(),
                start_index <= after_len,
                ns == names(after@.subrange(start_index as int, after@.len() as int)),
                after@.len() == after_len,
                seen@.len() == n_states,
                queue@.len() + count_false(seen@) == n_states,
                paths.len() == queue@.len(),
                queue@.len() >= 1,
                queue@[0].state == self.state,
                head <= queue@.len(),
                forall|q: int| 0 <= q < queue@.len() ==> (#[trigger] queue@[q]).state < n_states,
                forall|q: int| 0 <= q < queue@.len() ==> seen@[(#[trigger] queue@[q]).state as int],
                forall|s: int| 0 <= s < n_states && #[trigger] seen@[s] ==> exists|q: int| 0 <= q < queue@.len() && queue@[q].state == s,
                forall|q: int| 0 <= q < queue@.len() ==> {
                    &&& (#[trigger] paths[q]).len() > 0
                    &&& paths[q][0] == self.state()
                    &&& paths[q].last() == queue@[q].state
                    &&& fill_path(*self, paths[q], types_view(queue@[q].types@))
                    &&& forall|x: int| 0 <= x < queue@[q].types@.len() ==> type_tree_ok(*queue@[q].types@[x]) && !queue@[q].types@[x].is_text && label_in(*self, *queue@[q].types@[x])
                },
                forall|q: int| 0 <= q < head ==> !fill_ok(*self, (#[trigger] queue@[q]).state as nat, ns, to_end),
                forall|q: int, i: int, t: nat| 0 <= q < head && #[trigger] fill_step(*self, queue@[q].state as nat, i, t) ==> seen@[t as int],
                forall|q1: int, q2: int| 0 <= q1 <= q2 < queue@.len() ==> #[trigger] tl(queue@, q1) <= #[trigger] tl(queue@, q2),
                head < queue@.len() ==> forall|q: int| head <= q < queue@.len() ==> #[trigger] tl(queue@, q) <= tl(queue@, head as int) + 1,
                head < queue@.len() ==> forall|t: nat, k: nat| #[trigger] reach_in(*self, t, k) && k < tl(queue@, head as int)
                    ==> exists|q: int| 0 <= q < head && queue@[q].state == t,
                forall|q: int, k: nat| 0 <= q < queue@.len() && #[trigger] reach_in(*self, queue@[q].state as nat, k) ==> tl(queue@, q) <= k,
            decreases count_false(seen@), queue@.len() - head,
        {
            let st = queue[head].state;
            let ts = copy_types(&queue[head].types);
            let here = self.at(st);
            let finished = here.match_fragment(after, start_index, after_len);
            proof {
                crate::matching::lemma_run_same_graph(&here, self, st as nat, ns);
            }
            match finished {
                Some(f) => {
                    if !to_end || f.valid_end {
                        proof {
                            assert(paths[head as int].len() > 0);
                        }
                        proof {
                            assert(fills_with(*self, paths[head as int], types_view(ts@), ns, to_end));
                            assert forall|p2: Seq<nat>, ts2: Seq<NodeType>| #[trigger] fills_with(*self, p2, ts2, ns, to_end)
                                implies types_view(ts@).len() <= ts2.len() by {
                                assert(reach_in(*self, p2.last(), ts2.len()));
                                if ts2.len() < tl(queue@, head as int) {
                                    let q = choose|q: int| 0 <= q < head && queue@[q].state == p2.last();
                                    assert(!fill_ok(*self, queue@[q].state as nat, ns, to_end));
                                }
                            }
                        }
                        proof {
                            assert forall|x: int| 0 <= x < ts@.len() implies type_tree_ok(*ts@[x]) && !ts@[x].is_text && #[trigger] label_in(*self, *ts@[x]) by {
                                assert(ts@ == queue@[head as int].types@);
                            }
                        }
                        return Some(ts);
                    }
                },
                None => {},
            }
            let edges = &self.graph[st].edges;
            let ne = edges.len();
            let ghost qlen0 = queue@.len();
            let mut i: usize = 0;
            while i < ne
                invariant
                    self.wf(),
                    labels_ok(*self),
                    n_states == self.num_states(),
                    st < n_states,
                    edges@ == self.out(st as nat),
                    ne == edges@.len(),
                    ts@ == queue@[head as int].types@,
                    i <= ne,
                    seen@.len() == n_states,
                    queue@.len() + count_false(seen@) == n_states,
                    paths.len() == queue@.len(),
                    queue@.len() >= 1,
                    queue@[0].state == self.state,
                    head < queue@.len(),
                    queue@[head as int].state == st,
                    forall|q: int| 0 <= q < queue@.len() ==> (#[trigger] queue@[q]).state < n_states,
                    forall|q: int| 0 <= q < queue@.len() ==> seen@[(#[trigger] queue@[q]).state as int],
                    forall|s: int| 0 <= s < n_states && #[trigger] seen@[s] ==> exists|q: int| 0 <= q < queue@.len() && queue@[q].state == s,
                    forall|q: int| 0 <= q < queue@.len() ==> {
                        &&& (#[trigger] paths[q]).len() > 0
                        &&& paths[q][0] == self.state()
                        &&& paths[q].last() == queue@[q].state
                        &&& fill_path(*self, paths[q], types_view(queue@[q].types@))
                        &&& forall|x: int| 0 <= x < queue@[q].types@.len() ==> type_tree_ok(*queue@[q].types@[x]) && !queue@[q].types@[x].is_text && label_in(*self, *queue@[q].types@[x])
                    },
                    forall|q: int| 0 <= q <= head ==> !fill_ok(*self, (#[trigger] queue@[q]).state as nat, ns, to_end),
                    forall|q: int, j: int, t: nat| 0 <= q < head && #[trigger] fill_step(*self, queue@[q].state as nat, j, t) ==> seen@[t as int],
                    forall|j: int, t: nat| 0 <= j < i && #[trigger] fill_step(*self, st as nat, j, t) ==> seen@[t as int],
                    queue@.len() >= qlen0,
                    qlen0 > head,
                    forall|q1: int, q2: int| 0 <= q1 <= q2 < queue@.len() ==> #[trigger] tl(queue@, q1) <= #[trigger] tl(queue@, q2),
                    forall|q: int| head <= q < queue@.len() ==> #[trigger] tl(queue@, q) <= tl(queue@, head as int) + 1,
                    forall|q: int| qlen0 <= q < queue@.len() ==> #[trigger] tl(queue@, q) == tl(queue@, head as int) + 1,
                    forall|t: nat, k: nat| #[trigger] reach_in(*self, t, k) && k < tl(queue@, head as int)
                        ==> exists|q: int| 0 <= q < head && queue@[q].state == t,
                    forall|q: int, k: nat| 0 <= q < queue@.len() && #[trigger] reach_in(*self, queue@[q].state as nat, k) ==> tl(queue@, q) <= k,
                decreases ne - i,
            {
                let nt = &edges[i].0;
                let target = edges[i].1;
                proof {
                    assert(self.out(st as nat)[i as int].1 < self.num_states());
                }
                if !nt.is_text && !nt.has_required_attrs() && !seen[target] {
                    proof {
                        lemma_count_set(seen@, target as int);
                        lemma_unseen_far(*self, queue@, seen@, head as int, target as nat);
                    }
                    seen.set(target, true);
                    let mut nts = copy_types(&ts);
                    nts.push(share(nt));
                    let ghost q0 = queue@;
                    queue.push(FillEntry { state: target, types: nts });
                    proof {
                        let ph = paths[head as int];
                        lemma_fill_path_push(*self, ph, types_view(ts@), i as int, target as nat);
                        assert(types_view(nts@) =~= types_view(ts@).push(label_of(*self, st as nat, i as int)));
                        paths = paths.push(ph.push(target as nat));
                        assert(type_tree_ok(*self.out(st as nat)[i as int].0));
                        assert(label_in(*self, *self.out(st as nat)[i as int].0));
                        assert forall|q: int| 0 <= q < queue@.len() implies seen@[(#[trigger] queue@[q]).state as int] by {
                            if q < q0.len() {
                                assert(queue@[q] == q0[q]);
                            }
                        }
                        assert forall|s: int| 0 <= s < n_states && #[trigger] seen@[s] implies exists|q: int| 0 <= q < queue@.len() && queue@[q].state == s by {
                            if s == target {
                                assert(queue@[q0.len() as int].state == s);
                            } else {
                                let q = choose|q: int| 0 <= q < q0.len() && q0[q].state == s;
                                assert(queue@[q] == q0[q]);
                            }
                        }
                        assert forall|q: int| 0 <= q < queue@.len() implies {
                            &&& (#[trigger] paths[q]).len() > 0
                            &&& paths[q][0] == self.state()
                            &&& paths[q].last() == queue@[q].state
                            &&& fill_path(*self, paths[q], types_view(queue@[q].types@))
                            &&& forall|x: int| 0 <= x < queue@[q].types@.len() ==> type_tree_ok(*queue@[q].types@[x]) && !queue@[q].types@[x].is_text && label_in(*self, *queue@[q].types@[x])
                        } by {
                            if q < q0.len() {
                                assert(queue@[q] == q0[q]);
                            } else {
                                assert(nts@ =~= ts@.push(nts@.last()));
                            }
                        }
                        let tlh = tl(q0, head as int);
                        assert(tl(queue@, head as int) == tlh);
                        assert(tl(queue@, q0.len() as int) == tlh + 1);
                        assert forall|q1: int, q2: int| 0 <= q1 <= q2 < queue@.len() implies #[trigger] tl(queue@, q1) <= #[trigger] tl(queue@, q2) by {
                            if q2 < q0.len() {
                                assert(queue@[q1] == q0[q1] && queue@[q2] == q0[q2]);
                                assert(tl(q0, q1) <= tl(q0, q2));
                            } else if q1 < q0.len() {
                                assert(queue@[q1] == q0[q1]);
                                if q1 < head {
                                    assert(tl(q0, q1) <= tl(q0, head as int));
                                } else {
                                    assert(tl(q0, q1) <= tlh + 1);
                                }
                            }
                        }
                        assert forall|q: int| head <= q < queue@.len() implies #[trigger] tl(queue@, q) <= tl(queue@, head as int) + 1 by {
                            if q < q0.len() {
                                assert(queue@[q] == q0[q]);
                                assert(tl(q0, q) <= tlh + 1);
                            }
                        }
                        assert forall|q: int| qlen0 <= q < queue@.len() implies #[trigger] tl(queue@, q) == tl(queue@, head as int) + 1 by {
                            if q < q0.len() {
                                assert(queue@[q] == q0[q]);
                                assert(tl(q0, q) == tlh + 1);
                            }
                        }
                        assert forall|t: nat, k: nat| #[trigger] reach_in(*self, t, k) && k < tl(queue@, head as int)
                            implies exists|q: int| 0 <= q < head && queue@[q].state == t by {
                            let q = choose|q: int| 0 <= q < head && q0[q].state == t;
                            assert(queue@[q] == q0[q]);
                        }
                        assert forall|q: int, k: nat| 0 <= q < queue@.len() && #[trigger] reach_in(*self, queue@[q].state as nat, k)
                            implies tl(queue@, q) <= k by {
                            if q < q0.len() {
                                assert(queue@[q] == q0[q]);
                                assert(reach_in(*self, q0[q].state as nat, k));
                            } else {
                                assert(queue@[q].state == target);
                            }
                        }
                    }
                }
                i = i + 1;
            }
            proof {
                assert forall|q: int, j: int, t: nat| 0 <= q <= head && #[trigger] fill_step(*self, queue@[q].state as nat, j, t)
                    implies seen@[t as int] by {
                    if q == head {
                        assert(fill_step(*self, st as nat, j, t));
                    }
                }
                if head + 1 < queue@.len() {
                    assert(tl(queue@, head + 1) <= tl(queue@, head as int) + 1);
                    lemma_advance(*self, queue@, seen@, head as int);
                    assert forall|q: int| head + 1 <= q < queue@.len() implies #[trigger] tl(queue@, q) <= tl(queue@, head + 1) + 1 by {
                        assert(tl(queue@, head as int) <= tl(queue@, head + 1));
                        if q >= qlen0 {
                        } else {
                            assert(tl(queue@, q) <= tl(queue@, head as int) + 1);
                        }
                    }
                }
            }
            head = head + 1;
        }
        proof {
            assert forall|p: Seq<nat>, tv: Seq<NodeType>| !fills_with(*self, p, tv, ns, to_end) by {
                if fills_with(*self, p, tv, ns, to_end) {
                    lemma_path_seen(*self, p, tv, seen@, queue@);
                    let q = choose|q: int| 0 <= q < queue@.len() && queue@[q].state == p.last();
                    assert(!fill_ok(*self, queue@[q].state as nat, ns, to_end));
                }
            }
        }
        None
    }
}

} // verus!
