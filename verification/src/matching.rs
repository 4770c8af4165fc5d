use vstd::prelude::*;
use std::sync::Arc;

use crate::content::ContentMatch;
use crate::mark::{Mark, MarkV, marks_view, lemma_marks_view};
use crate::node::{Node, NodeV, Fragment, node_view, nodes_view, node_wf, frag_wf, type_ok, lemma_nodes_view};
use crate::schema::{NodeType, spec_allows_mark_named};
use crate::attrs::Attrs;
use crate::util::share;
use crate::fill::{types_view, fills_with, no_fill, kept_types, types_of, made_as, fills_list, shortest_for, too_big, label_in, lemma_kept_step, lemma_made_part};

verus! {

/// The type names of a list of nodes.
pub open spec fn names(s: Seq<NodeV>) -> Seq<Seq<char>> {
    s.map_values(|n: NodeV| n.node_type.name@)
}

/// The type allows every mark of the list.
pub open spec fn allows_all(t: NodeType, ms: Seq<MarkV>) -> bool {
    t.mark_set is None || forall|i: int| 0 <= i < ms.len() ==> spec_allows_mark_named(t, #[trigger] ms[i].mark_type.name@)
}

/// The automaton, from state `s`, accepts exactly the names: it can read
/// them all and stops in an accepting state.
pub open spec fn accepts_from(cm: ContentMatch, s: nat, ns: Seq<Seq<char>>) -> bool {
    match cm.run(s, ns) {
        Some(t) => cm.accepting(t),
        None => false,
    }
}

/// The content is valid for the type: without an automaton only empty
/// content (of size zero) is; otherwise the automaton must accept the child
/// types, and the type must allow the marks of every child.
pub open spec fn valid_content(t: NodeType, c: Seq<NodeV>) -> bool {
    match t.content_match {
        None => crate::node::content_size(c) == 0,
        Some(cm) => accepts_from(*cm, cm.state(), names(c)) && forall|i: int|
            0 <= i < c.len() ==> allows_all(t, #[trigger] c[i].marks),
    }
}

pub proof fn lemma_names_sub(s: Seq<NodeV>, a: int, i: int)
    requires
        0 <= a <= i < s.len(),
    ensures
        names(s.subrange(a, i + 1)).drop_last() == names(s.subrange(a, i)),
        names(s.subrange(a, i + 1)).last() == s[i].node_type.name@,
        names(s.subrange(a, i + 1)).len() > 0,
{
    assert(names(s.subrange(a, i + 1)).drop_last() =~= names(s.subrange(a, i)));
}

impl ContentMatch {
    /// The state after matching the types of the children `start..end` of
    /// the fragment, if they all match.
    pub fn match_fragment(&self, frag: &Fragment, start: usize, end: usize) -> (r: Option<Arc<ContentMatch>>)
        requires
            self.wf(),
            start <= end <= frag.content@.len(),
        ensures
            match self.run(self.state(), names(frag@.subrange(start as int, end as int))) {
                Some(t) => r matches Some(m) && self.is_at(*m, t),
                None => r is None,
            },
    {
        proof {
            lemma_nodes_view(frag.content@);
        }
        let ghost s = frag@;
        let mut cur = self.here();
        let mut i: usize = start;
        proof {
            assert(names(s.subrange(start as int, start as int)) =~= Seq::<Seq<char>>::empty());
        }
        while i < end
            invariant
                self.wf(),
                s == frag@,
                s.len() == frag.content@.len(),
                forall|j: int| 0 <= j < s.len() ==> #[trigger] s[j] == node_view(frag.content@[j]),
                start <= i <= end,
                end <= s.len(),
                self.run(self.state(), names(s.subrange(start as int, i as int))) == Some(cur.state()),
                self.is_at(*cur, cur.state()),
            decreases end - i,
        {
            proof {
                lemma_names_sub(s, start as int, i as int);
            }
            match cur.match_type(&frag.content[i].node_type) {
                Some(next) => {
                    proof {
                    }
                    cur = next;
                },
                None => {
                    proof {
                        assert(names(s.subrange(start as int, end as int)).subrange(0, i + 1 - start) =~= names(s.subrange(start as int, i + 1)));
                        lemma_run_none_extends(*self, self.state(), names(s.subrange(start as int, i + 1)), names(s.subrange(start as int, end as int)));
                    }
                    return None;
                },
            }
            i = i + 1;
        }
        Some(cur)
    }
}

/// Once a run fails, it fails on every extension.
pub proof fn lemma_run_none_extends(cm: ContentMatch, s: nat, a: Seq<Seq<char>>, b: Seq<Seq<char>>)
    requires
        cm.run(s, a) is None,
        a.len() <= b.len(),
        b.subrange(0, a.len() as int) == a,
    ensures
        cm.run(s, b) is None,
    decreases b.len(),
{
    if b.len() > a.len() {
        assert(b.drop_last().subrange(0, a.len() as int) =~= a);
        lemma_run_none_extends(cm, s, a, b.drop_last());
    } else {
        assert(b =~= a);
    }
}


/// Runs depend only on the automaton's states and edges.
pub proof fn lemma_run_same_graph(a: &ContentMatch, b: &ContentMatch, s: nat, ns: Seq<Seq<char>>)
    requires
        a.same_graph(*b),
    ensures
        a.run(s, ns) == b.run(s, ns),
    decreases ns.len(),
{
    if ns.len() > 0 {
        lemma_run_same_graph(a, b, s, ns.drop_last());
    }
}

/// Replacing the children `from..to` of a node by the nodes `start..end` of
/// `rep` gives content the node's automaton accepts, and the node's type
/// allows the marks of the inserted nodes.
pub open spec fn can_replace_spec(n: NodeV, from: int, to: int, rep: Seq<NodeV>, start: int, end: int) -> bool {
    match n.node_type.content_match {
        None => false,
        Some(cm) => {
            &&& match cm.run(cm.state(), names(n.content.take(from))) {
                None => false,
                Some(t1) => match cm.run(t1, names(rep.subrange(start, end))) {
                    None => false,
                    Some(t2) => accepts_from(*cm, t2, names(n.content.subrange(to, n.content.len() as int))),
                },
            }
            &&& forall|i: int| start <= i < end ==> allows_all(n.node_type, #[trigger] rep[i].marks)
        },
    }
}

/// The automaton state at child index `index`: the start state run over the
/// types of the children before it.
pub open spec fn match_at(n: NodeV, index: int) -> Option<nat> {
    match n.node_type.content_match {
        None => None,
        Some(cm) => cm.run(cm.state(), names(n.content.take(index))),
    }
}

/// The error message of `check_content`.
pub open spec fn invalid_content_message(t: NodeType) -> Seq<char> {
    "Invalid content for node "@ + t.name@
}

impl NodeType {
    /// Whether the type allows every mark of the list.
    pub fn allows_marks(&self, marks: &[Mark]) -> (r: bool)
        ensures
            r == allows_all(*self, marks_view(marks@)),
    {
        if self.mark_set.is_none() {
            return true;
        }
        proof {
            lemma_marks_view(marks@);
        }
        let mut i: usize = 0;
        while i < marks.len()
            invariant
                self.mark_set is Some,
                i <= marks@.len(),
                marks_view(marks@).len() == marks@.len(),
                forall|j: int| 0 <= j < marks@.len() ==> #[trigger] marks_view(marks@)[j] == marks@[j]@,
                forall|j: int| 0 <= j < i ==> spec_allows_mark_named(*self, #[trigger] marks_view(marks@)[j].mark_type.name@),
            decreases marks@.len() - i,
        {
            if !self.allows_mark_type(&marks[i].mark_type) {
                assert(!spec_allows_mark_named(*self, marks_view(marks@)[i as int].mark_type.name@));
                return false;
            }
            i = i + 1;
        }
        true
    }

    /// Whether the fragment is valid content for this type.
    pub fn valid_content(&self, content: &Fragment) -> (r: bool)
        requires
            type_ok(*self),
            frag_wf(*content),
        ensures
            r == valid_content(*self, content@),
    {
        proof {
            lemma_nodes_view(content.content@);
        }
        let cm = match &self.content_match {
            Some(cm) => cm,
            None => return content.size == 0,
        };
        let n = content.content.len();
        let result = cm.match_fragment(content, 0, n);
        proof {
            assert(content@.subrange(0, n as int) =~= content@);
        }
        match result {
            Some(state) => {
                if !state.valid_end {
                    return false;
                }
            },
            None => {
                return false;
            },
        }
        let mut i: usize = 0;
        while i < n
            invariant
                self.content_match is Some,
                n == content.content@.len(),
                content@.len() == n,
                forall|j: int| 0 <= j < n ==> #[trigger] content@[j] == node_view(content.content@[j]),
                i <= n,
                forall|j: int| 0 <= j < i ==> allows_all(*self, #[trigger] content@[j].marks),
            decreases n - i,
        {
            if !self.allows_marks(content.content[i].marks.as_slice()) {
                assert(!allows_all(*self, content@[i as int].marks));
                return false;
            }
            i = i + 1;
        }
        true
    }

    /// `Ok` if the fragment is valid content for this type, else the error
    /// "Invalid content for node <name>".
    pub fn check_content(&self, content: &Fragment) -> (r: Result<(), String>)
        requires
            type_ok(*self),
            frag_wf(*content),
        ensures
            match r {
                Ok(()) => valid_content(*self, content@),
                Err(e) => !valid_content(*self, content@) && e@ == invalid_content_message(*self),
            },
    {
        if !self.valid_content(content) {
            let mut e = String::from_str("Invalid content for node ");
            e.append(self.name.as_str());
            Err(e)
        } else {
            Ok(())
        }
    }
}

impl Node {
    /// The automaton state after the children before `index`, if the node's
    /// type has an automaton and it accepts those children.
    pub fn content_match_at(&self, index: usize) -> (r: Option<Arc<ContentMatch>>)
        requires
            node_wf(*self),
            index <= self.content.content@.len(),
        ensures
            match match_at(self@, index as int) {
                Some(t) => r matches Some(m) && self.node_type.content_match matches Some(cm) && cm.is_at(*m, t),
                None => r is None,
            },
    {
        proof {
            lemma_nodes_view(self.content.content@);
            assert(self.content@.subrange(0, index as int) =~= self.content@.take(index as int));
        }
        match &self.node_type.content_match {
            None => None,
            Some(cm) => cm.match_fragment(&self.content, 0, index),
        }
    }

    /// Whether replacing the children `from..to` by the children
    /// `start..end` of `replacement` gives valid content.
    pub fn can_replace(&self, from: usize, to: usize, replacement: &Fragment, start: usize, end: usize) -> (r: bool)
        requires
            node_wf(*self),
            from <= to <= self.content.content@.len(),
            start <= end <= replacement.content@.len(),
        ensures
            r == can_replace_spec(self@, from as int, to as int, replacement@, start as int, end as int),
    {
        proof {
            lemma_nodes_view(self.content.content@);
            lemma_nodes_view(replacement.content@);
        }
        let one = match self.content_match_at(from) {
            Some(cm) => cm,
            None => return false,
        };
        let cm0: &Arc<ContentMatch> = match &self.node_type.content_match {
            Some(c) => c,
            None => {
                return false;
            },
        };
        let two = match one.match_fragment(replacement, start, end) {
            Some(m) => m,
            None => {
                proof {
                    lemma_run_same_graph(&one, cm0, one.state(), names(replacement@.subrange(start as int, end as int)));
                }
                return false;
            },
        };
        proof {
            lemma_run_same_graph(&one, cm0, one.state(), names(replacement@.subrange(start as int, end as int)));
        }
        let n = self.content.child_count();
        let three = match two.match_fragment(&self.content, to, n) {
            Some(m) => m,
            None => {
                proof {
                    lemma_run_same_graph(&two, cm0, two.state(), names(self@.content.subrange(to as int, n as int)));
                }
                return false;
            },
        };
        proof {
            lemma_run_same_graph(&two, cm0, two.state(), names(self@.content.subrange(to as int, n as int)));
        }
        if !three.valid_end {
            return false;
        }
        let mut i: usize = start;
        while i < end
            invariant
                start <= i <= end,
                end <= replacement.content@.len(),
                replacement@.len() == replacement.content@.len(),
                forall|j: int| 0 <= j < replacement.content@.len() ==> #[trigger] replacement@[j] == node_view(replacement.content@[j]),
                forall|j: int| start <= j < i ==> allows_all(*self.node_type, #[trigger] replacement@[j].marks),
            decreases end - i,
        {
            if !self.node_type.allows_marks(replacement.content[i].marks.as_slice()) {
                assert(!allows_all(*self.node_type, replacement@[i as int].marks));
                return false;
            }
            i = i + 1;
        }
        true
    }
}


/// Every type of the tree of types reachable through automaton edges has a
/// well-formed automaton.
pub open spec fn type_tree_ok(t: NodeType) -> bool
    decreases t,
{
    match t.content_match {
        None => true,
        Some(cm) => {
            &&& cm.wf()
            &&& forall|s: int, i: int|
                0 <= s < cm.graph@.len() && 0 <= i < cm.graph@[s].edges@.len() ==> type_tree_ok(
                    *(#[trigger] cm.graph@[s].edges@[i]).0,
                )
        },
    }
}

/// The state behind a shared reference.
spec fn cm_of(a: &Arc<ContentMatch>) -> ContentMatch {
    **a
}

/// The type behind a shared reference.
spec fn type_of(a: &Arc<NodeType>) -> NodeType {
    **a
}

impl NodeType {
    /// A node of this type with its required content filled in: for a
    /// shortest run of nodes that makes its content valid, each of them
    /// created and filled in turn (those that cannot be filled left out).
    /// None if there is no such run, or if the nodes would grow too large for
    /// a `usize`.
    pub fn create_and_fill(self: &Arc<Self>) -> (r: Option<Node>)
        requires
            type_tree_ok(**self),
        ensures
            no_fill(**self) ==> r is None,
            r matches Some(n) ==> n.node_type == *self && made_as(n@, true) && (!self.is_text ==> node_wf(n)),
            r is None ==> no_fill(**self) || too_big(**self),
    {
        match self.fill_node() {
            Ok(n) => Some(n),
            Err(_) => None,
        }
    }

    /// The node that `create_and_fill` makes; else `Err(true)` when the type
    /// cannot be filled, `Err(false)` when its nodes grow too large.
    pub(crate) fn fill_node(self: &Arc<Self>) -> (r: Result<Node, bool>)
        requires
            type_tree_ok(**self),
        ensures
            match r {
                Ok(n) => n.node_type == *self && made_as(n@, true) && (!self.is_text ==> node_wf(n)),
                Err(none) => if none {
                    no_fill(**self)
                } else {
                    !no_fill(**self) && too_big(**self)
                },
            },
            no_fill(**self) ==> r == Err::<Node, bool>(true),
        decreases **self,
    {
        let content = match &self.content_match {
            Some(cm) => {
                if cm.valid_end {
                    Fragment::empty()
                } else {
                    let empty = Fragment::empty();
                    proof {
                        assert(names(empty@.subrange(0, 0)) =~= Seq::<Seq<char>>::empty());
                        assert forall|s2: nat, i2: int| s2 < cm.num_states() && 0 <= i2 < cm.out(s2).len()
                            implies type_tree_ok(*(#[trigger] cm.out(s2)[i2]).0) by {
                            assert(cm.out(s2)[i2] == cm.graph@[s2 as int].edges@[i2]);
                        }
                    }
                    let ts = match cm.shortest_fill(&empty, true, 0) {
                        Some(ts) => ts,
                        None => {
                            return Err(true);
                        },
                    };
                    let ghost tv = types_view(ts@);
                    let ghost g = cm_of(cm);
                    proof {
                        let p0 = choose|p: Seq<nat>| fills_with(g, p, tv, seq![], true);
                        assert(!no_fill(**self));
                        assert(tv.take(0) =~= Seq::<NodeType>::empty());
                        assert(types_of(Seq::<NodeV>::empty()) =~= Seq::<NodeType>::empty());
                    }
                    let mut kids: Vec<Node> = Vec::new();
                    let mut total: usize = 0;
                    let mut i: usize = 0;
                    proof {
                        assert(nodes_view(kids@) =~= Seq::<NodeV>::empty());
                    }
                    while i < ts.len()
                        invariant
                            type_tree_ok(**self),
                            self.content_match == Some(*cm),
                            !cm.valid_end,
                            !no_fill(**self),
                            g == **cm,
                            tv == types_view(ts@),
                            shortest_for(g, tv, seq![], true),
                            forall|x: int| 0 <= x < ts@.len() ==> type_tree_ok(*#[trigger] ts@[x]),
                            forall|x: int| 0 <= x < ts@.len() ==> !(#[trigger] ts@[x]).is_text,
                            forall|x: int| 0 <= x < ts@.len() ==> label_in(g, *#[trigger] ts@[x]),
                            i <= ts@.len(),
                            fills_list(nodes_view(kids@), tv.take(i as int)),
                            crate::fragment::all_wf(kids@),
                            total == crate::node::content_size(nodes_view(kids@)),
                            total + 2 <= usize::MAX,
                        decreases ts@.len() - i,
                    {
                        let ghost n0 = kids@;
                        let ghost v0 = nodes_view(n0);
                        proof {
                            lemma_kept_step(tv, i as int);
                            assert(tv[i as int] == *ts@[i as int]);
                            assert(label_in(g, *ts@[i as int]));
                            let (s2, k2) = choose|s2: nat, k2: int| s2 < g.num_states() && 0 <= k2 < g.out(s2).len() && *(#[trigger] g.out(s2)[k2]).0 == *ts@[i as int];
                            assert(g.out(s2)[k2] == cm.graph@[s2 as int].edges@[k2]);
                            assert(decreases_to!(**self => *cm.graph@[s2 as int].edges@[k2].0));
                        }
                        match ts[i].fill_node() {
                            Ok(c) => {
                                let sz = c.node_size();
                                proof {
                                    crate::node::lemma_content_size_push(v0, c@);
                                    assert(types_of(v0.push(c@)) =~= types_of(v0).push(c@.node_type));
                                }
                                if sz > usize::MAX - 2 - total {
                                    proof {
                                        let cs = v0.push(c@);
                                        assert forall|k: int| 0 <= k < cs.len() implies made_as(#[trigger] cs[k], false) by {
                                            if k < v0.len() {
                                                lemma_made_part(v0[k]);
                                            } else {
                                                lemma_made_part(c@);
                                            }
                                        }
                                        assert(types_of(cs) == kept_types(tv.take(i + 1)));
                                        let v = NodeV { node_type: type_of(self), attrs: seq![], content: cs, marks: seq![], text: None };
                                        assert(types_of(v.content) == kept_types(tv.take(i + 1)));
                                        assert(shortest_for(g, tv, seq![], true));
                                        assert(made_as(v, false));
                                        assert(crate::node::node_size(v) > usize::MAX);
                                    }
                                    return Err(false);
                                }
                                total = total + sz;
                                kids.push(c);
                                proof {
                                    crate::node::lemma_nodes_view_push(n0, c);
                                    assert(forall|k: int| 0 <= k < v0.len() ==> made_as(#[trigger] v0[k], true));
                                }
                            },
                            Err(none) => {
                                if !none {
                                    proof {
                                        let w = choose|v: NodeV| v.node_type == tv[i as int] && #[trigger] made_as(v, false) && crate::node::node_size(v) > usize::MAX;
                                        let cs = v0.push(w);
                                        crate::node::lemma_content_size_push(v0, w);
                                        assert(types_of(cs) =~= types_of(v0).push(w.node_type));
                                        assert forall|k: int| 0 <= k < cs.len() implies made_as(#[trigger] cs[k], false) by {
                                            if k < v0.len() {
                                                lemma_made_part(v0[k]);
                                            }
                                        }
                                        assert(types_of(cs) == kept_types(tv.take(i + 1)));
                                        let v = NodeV { node_type: type_of(self), attrs: seq![], content: cs, marks: seq![], text: None };
                                        assert(types_of(v.content) == kept_types(tv.take(i + 1)));
                                        assert(shortest_for(g, tv, seq![], true));
                                        assert(made_as(v, false));
                                        assert(crate::node::node_size(v) > usize::MAX);
                                    }
                                    return Err(false);
                                }
                            },
                        }
                        i = i + 1;
                    }
                    proof {
                        assert(tv.take(ts@.len() as int) =~= tv);
                        lemma_nodes_view(kids@);
                    }
                    Fragment { content: Arc::new(kids), size: total }
                }
            },
            None => Fragment::empty(),
        };
        let r = Node { node_type: share(self), attrs: Attrs::new(), content, marks: Vec::new(), text: None };
        proof {
            assert(marks_view(r.marks@) =~= Seq::<MarkV>::empty());
            assert(r.attrs.entries() =~= Seq::<(String, crate::attrs::AttrValue)>::empty());
        }
        Ok(r)
    }
}


/// Matching in two steps is matching at once: running the automaton over
/// `a` and then over `b` reaches the state that running it over `a + b`
/// reaches.
pub proof fn law_run_concat(cm: ContentMatch, s: nat, a: Seq<Seq<char>>, b: Seq<Seq<char>>)
    ensures
        cm.run(s, a + b) == match cm.run(s, a) {
            Some(t) => cm.run(t, b),
            None => None,
        },
    decreases b.len(),
{
    if b.len() == 0 {
        assert(a + b =~= a);
    } else {
        law_run_concat(cm, s, a, b.drop_last());
        assert((a + b).drop_last() =~= a + b.drop_last());
        assert((a + b).last() == b.last());
    }
}

/// The names of a split list are the names of its parts.
pub proof fn lemma_names_split(c: Seq<NodeV>, i: int)
    requires
        0 <= i <= c.len(),
    ensures
        names(c) == names(c.take(i)) + names(c.skip(i)),
{
    assert(names(c) =~= names(c.take(i)) + names(c.skip(i)));
}

/// A node's content is valid exactly when the automaton state at any child
/// index accepts the children from that index on (and the marks are
/// allowed).
pub proof fn law_valid_content_split(n: NodeV, i: int)
    requires
        0 <= i <= n.content.len(),
        n.node_type.content_match is Some,
    ensures
        valid_content(n.node_type, n.content) == ({
            let cm = *n.node_type.content_match->0;
            &&& match match_at(n, i) {
                Some(t) => accepts_from(cm, t, names(n.content.skip(i))),
                None => false,
            }
            &&& forall|k: int| 0 <= k < n.content.len() ==> allows_all(n.node_type, #[trigger] n.content[k].marks)
        }),
{
    let cm = *n.node_type.content_match->0;
    lemma_names_split(n.content, i);
    law_run_concat(cm, cm.state(), names(n.content.take(i)), names(n.content.skip(i)));
}

} // verus!
