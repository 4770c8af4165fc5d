use vstd::prelude::*;
use std::sync::Arc;

use crate::schema::NodeType;
use crate::util::share;

verus! {

/// One outgoing edge of a content-match state: the node type that is
/// matched, and the state that follows.
#[derive(Debug)]
pub struct MatchEdge {
    pub node_type: Arc<NodeType>,
    pub next: Arc<ContentMatch>,
}

/// One state of a compiled content expression.
#[derive(Debug)]
pub struct MatchState {
    pub valid_end: bool,
    pub edges: Vec<(Arc<NodeType>, usize)>,
}

/// A state of the deterministic automaton compiled from a content
/// expression. Matching a sequence of node types walks from state to state;
/// `valid_end` says whether the sequence may stop here.
#[derive(Debug)]
pub struct ContentMatch {
    pub valid_end: bool,
    /// All states of the automaton.
    pub graph: Arc<Vec<MatchState>>,
    /// The index of this state in `graph`.
    pub state: usize,
}

/// Index of the first edge in `edges`, at or after `i`, labelled with a type
/// named `name`.
pub open spec fn first_edge_from(edges: Seq<(Arc<NodeType>, usize)>, name: Seq<char>, i: int) -> Option<
    int,
>
    decreases edges.len() - i,
{
    if i < 0 || i >= edges.len() {
        None
    } else if edges[i].0.name@ == name {
        Some(i)
    } else {
        first_edge_from(edges, name, i + 1)
    }
}

pub proof fn lemma_first_edge_from(edges: Seq<(Arc<NodeType>, usize)>, name: Seq<char>, i: int)
    requires
        0 <= i,
    ensures
        match first_edge_from(edges, name, i) {
            Some(k) => i <= k < edges.len() && edges[k].0.name@ == name && forall|j: int|
                i <= j < k ==> edges[j].0.name@ != name,
            None => forall|j: int| i <= j < edges.len() ==> edges[j].0.name@ != name,
        },
    decreases edges.len() - i,
{
    if i < edges.len() && edges[i].0.name@ != name {
        lemma_first_edge_from(edges, name, i + 1);
    }
}

impl ContentMatch {
    /// The number of states of the automaton.
    pub open spec fn num_states(&self) -> nat {
        self.graph@.len()
    }

    /// The state this value stands for.
    pub open spec fn state(&self) -> nat {
        self.state as nat
    }

    /// The edges out of state `s`, in order.
    pub open spec fn out(&self, s: nat) -> Seq<(Arc<NodeType>, usize)> {
        self.graph@[s as int].edges@
    }

    /// Whether a sequence may end in state `s`.
    pub open spec fn accepting(&self, s: nat) -> bool {
        self.graph@[s as int].valid_end
    }

    /// The two values stand for states of the same automaton.
    pub open spec fn same_graph(&self, other: ContentMatch) -> bool {
        self.graph == other.graph
    }

    /// The value stands for a state of the automaton, every edge leads to a
    /// state, and `valid_end` is that of the state.
    pub open spec fn wf(&self) -> bool {
        &&& self.state() < self.num_states()
        &&& self.valid_end == self.accepting(self.state())
        &&& forall|s: nat, i: int|
            s < self.num_states() && 0 <= i < self.out(s).len() ==> (#[trigger] self.out(s)[i]).1
                < self.num_states()
    }

    /// The state reached from state `s` over a node type named `name`, if any:
    /// the first edge with that label is taken.
    pub open spec fn step(&self, s: nat, name: Seq<char>) -> Option<nat> {
        match first_edge_from(self.out(s), name, 0) {
            Some(k) => Some(self.out(s)[k].1 as nat),
            None => None,
        }
    }

    /// The state reached from state `s` over the sequence of type names.
    pub open spec fn run(&self, s: nat, names: Seq<Seq<char>>) -> Option<nat>
        decreases names.len(),
    {
        if names.len() == 0 {
            Some(s)
        } else {
            match self.run(s, names.drop_last()) {
                Some(t) => self.step(t, names.last()),
                None => None,
            }
        }
    }

    /// `r` is this automaton in state `s`.
    pub open spec fn is_at(&self, r: ContentMatch, s: nat) -> bool {
        r.same_graph(*self) && r.state() == s && r.wf()
    }

    /// Two states share an edge label.
    pub open spec fn spec_compatible(a: ContentMatch, b: ContentMatch) -> bool {
        exists|i: int, j: int|
            0 <= i < a.out(a.state()).len() && 0 <= j < b.out(b.state()).len() && (#[trigger] a.out(
                a.state(),
            )[i]).0.name@ == (#[trigger] b.out(b.state())[j]).0.name@
    }

    /// This state, shared.
    pub fn here(&self) -> (r: Arc<ContentMatch>)
        requires
            self.wf(),
        ensures
            self.is_at(*r, self.state()),
            *r == *self,
    {
        Arc::new(ContentMatch { valid_end: self.valid_end, graph: share(&self.graph), state: self.state })
    }

    /// This automaton in state `s`.
    pub fn at(&self, s: usize) -> (r: ContentMatch)
        requires
            self.wf(),
            s < self.num_states(),
        ensures
            self.is_at(r, s as nat),
    {
        let g = share(&self.graph);
        let ve = g[s].valid_end;
        assert(ve == self.accepting(s as nat));
        let r = ContentMatch { valid_end: ve, graph: g, state: s };
        assert(r.same_graph(*self));
        assert(r.state() == s as nat);
        assert(r.num_states() == self.num_states());
        assert(r.valid_end == r.accepting(r.state()));
        assert forall|t: nat, i: int|
            t < r.num_states() && 0 <= i < r.out(t).len() implies (#[trigger] r.out(t)[i]).1
                < r.num_states() by {
            assert(r.out(t) == self.out(t));
            assert(self.out(t)[i].1 < self.num_states());
        }
        r
    }

    /// The automaton of the empty expression: one accepting state without edges.
    pub fn empty() -> (r: Arc<ContentMatch>)
        ensures
            r.wf(),
            r.valid_end,
            r.num_states() == 1,
            r.out(r.state()).len() == 0,
    {
        let st = MatchState { valid_end: true, edges: Vec::new() };
        let mut g: Vec<MatchState> = Vec::new();
        g.push(st);
        Arc::new(ContentMatch { valid_end: true, graph: Arc::new(g), state: 0 })
    }

    /// The state after matching a node of type `node_type`, if the current
    /// state has an edge for it.
    pub fn match_type(&self, node_type: &NodeType) -> (r: Option<Arc<ContentMatch>>)
        requires
            self.wf(),
        ensures
            match self.step(self.state(), node_type.name@) {
                Some(t) => r matches Some(m) && self.is_at(*m, t),
                None => r is None,
            },
    {
        let edges = &self.graph[self.state].edges;
        let mut i: usize = 0;
        proof {
            lemma_first_edge_from(edges@, node_type.name@, 0);
        }
        while i < edges.len()
            invariant
                self.wf(),
                edges@ == self.out(self.state()),
                i <= edges@.len(),
                forall|j: int| 0 <= j < i ==> edges@[j].0.name@ != node_type.name@,
                first_edge_from(edges@, node_type.name@, 0) == first_edge_from(
                    edges@,
                    node_type.name@,
                    i as int,
                ),
            decreases edges@.len() - i,
        {
            if edges[i].0.name == node_type.name {
                let target = edges[i].1;
                proof {
                    assert(self.out(self.state())[i as int].1 < self.num_states());
                }
                return Some(Arc::new(self.at(target)));
            }
            i = i + 1;
        }
        None
    }

    /// Whether the current state expects inline content: its first edge is
    /// labelled with an inline type.
    pub fn inline_content(&self) -> (r: bool)
        requires
            self.wf(),
        ensures
            r == (self.out(self.state()).len() > 0 && !self.out(self.state())[0].0.is_block),
    {
        let edges = &self.graph[self.state].edges;
        edges.len() > 0 && edges[0].0.is_inline()
    }

    /// The first edge type that could be generated: not text and without
    /// required attributes.
    pub fn default_type(&self) -> (r: Option<Arc<NodeType>>)
        requires
            self.wf(),
        ensures
            match r {
                Some(t) => exists|k: int|
                    0 <= k < self.out(self.state()).len() && *self.out(self.state())[k].0 == *t
                        && !t.is_text && forall|j: int|
                        0 <= j < k ==> (#[trigger] self.out(self.state())[j]).0.is_text,
                None => forall|j: int|
                    0 <= j < self.out(self.state()).len() ==> (#[trigger] self.out(
                        self.state(),
                    )[j]).0.is_text,
            },
    {
        let edges = &self.graph[self.state].edges;
        let mut i: usize = 0;
        while i < edges.len()
            invariant
                edges@ == self.out(self.state()),
                i <= edges@.len(),
                forall|j: int| 0 <= j < i ==> (#[trigger] edges@[j]).0.is_text,
            decreases edges@.len() - i,
        {
            if !edges[i].0.is_text && !edges[i].0.has_required_attrs() {
                return Some(share(&edges[i].0));
            }
            i = i + 1;
        }
        None
    }

    /// Whether the two states share an edge label.
    pub fn compatible(&self, other: &ContentMatch) -> (r: bool)
        requires
            self.wf(),
            other.wf(),
        ensures
            r == ContentMatch::spec_compatible(*self, *other),
    {
        let a = &self.graph[self.state].edges;
        let b = &other.graph[other.state].edges;
        let mut i: usize = 0;
        while i < a.len()
            invariant
                a@ == self.out(self.state()),
                b@ == other.out(other.state()),
                i <= a@.len(),
                forall|x: int, y: int|
                    0 <= x < i && 0 <= y < b@.len() ==> (#[trigger] a@[x]).0.name@ != (
                    #[trigger] b@[y]).0.name@,
            decreases a@.len() - i,
        {
            let mut j: usize = 0;
            while j < b.len()
                invariant
                    a@ == self.out(self.state()),
                    b@ == other.out(other.state()),
                    i < a@.len(),
                    j <= b@.len(),
                    forall|y: int| 0 <= y < j ==> a@[i as int].0.name@ != (#[trigger] b@[y]).0.name@,
                decreases b@.len() - j,
            {
                if a[i].0.name == b[j].0.name {
                    return true;
                }
                j = j + 1;
            }
            i = i + 1;
        }
        false
    }

    /// The number of edges out of the current state.
    pub fn edge_count(&self) -> (n: usize)
        requires
            self.wf(),
        ensures
            n == self.out(self.state()).len(),
    {
        self.graph[self.state].edges.len()
    }

    /// The `n`th edge out of the current state, if there is one.
    pub fn edge(&self, n: usize) -> (r: Option<MatchEdge>)
        requires
            self.wf(),
        ensures
            match r {
                Some(e) => n < self.out(self.state()).len() && *e.node_type == *self.out(
                    self.state(),
                )[n as int].0 && self.is_at(*e.next, self.out(self.state())[n as int].1 as nat),
                None => n >= self.out(self.state()).len(),
            },
    {
        let edges = &self.graph[self.state].edges;
        if n < edges.len() {
            let target = edges[n].1;
            proof {
                assert(self.out(self.state())[n as int].1 < self.num_states());
            }
            Some(MatchEdge { node_type: share(&edges[n].0), next: Arc::new(self.at(target)) })
        } else {
            None
        }
    }
}


/// The names of the edge labels, separated by commas.
pub open spec fn join_names(edges: Seq<(Arc<NodeType>, usize)>) -> Seq<char>
    decreases edges.len(),
{
    if edges.len() == 0 {
        seq![]
    } else if edges.len() == 1 {
        edges[0].0.name@
    } else {
        join_names(edges.drop_last()) + ", "@ + edges.last().0.name@
    }
}

/// The message for a state from which no node can be generated, given its
/// edges, in the expression `ex`.
pub open spec fn dead_end_message(ex: Seq<char>, edges: Seq<(Arc<NodeType>, usize)>) -> Seq<char> {
    "Only non-generatable nodes ("@ + join_names(edges) + ") in a required position (in content expression '"@ + ex + "')"@
}

impl ContentMatch {
    /// State `t` can be entered from state `s` over one edge.
    pub open spec fn edge_to(&self, s: nat, t: nat) -> bool {
        exists|k: int| 0 <= k < self.out(s).len() && self.out(s)[k].1 == t
    }

    /// `p` is a walk over edges starting at the current state.
    pub open spec fn is_path(&self, p: Seq<nat>) -> bool {
        &&& p.len() >= 1
        &&& p[0] == self.state()
        &&& forall|i: int| 0 <= i < p.len() - 1 ==> #[trigger] self.edge_to(p[i], p[i + 1])
    }

    /// State `t` can be reached from the current state.
    pub open spec fn reachable(&self, t: nat) -> bool {
        exists|p: Seq<nat>| #[trigger] self.is_path(p) && p.last() == t
    }

    /// A sequence may end in state `s`, or a node can be generated there:
    /// some edge is labelled with a type that is not text.
    pub open spec fn live(&self, s: nat) -> bool {
        self.accepting(s) || exists|i: int| 0 <= i < self.out(s).len() && !(#[trigger] self.out(s)[i]).0.is_text
    }

    /// Every state reachable from the current one is live.
    pub open spec fn all_live(&self) -> bool {
        forall|t: nat| #[trigger] self.reachable(t) ==> self.live(t)
    }

    /// No state has two edges whose types share a name.
    pub open spec fn deterministic(&self) -> bool {
        forall|s: nat, i: int, j: int| s < self.num_states() && 0 <= i < j < self.out(s).len()
            ==> (#[trigger] self.out(s)[i]).0.name@ != (#[trigger] self.out(s)[j]).0.name@
    }
}

/// Distinct numbers below `n` are at most `n` many.
proof fn lemma_distinct_below(s: Seq<usize>, n: nat)
    requires
        s.no_duplicates(),
        forall|i: int| 0 <= i < s.len() ==> s[i] < n,
    ensures
        s.len() <= n,
{
    s.unique_seq_to_set();
    let r = Set::new(|x: usize| x < n);
    let ri = vstd::set_lib::set_int_range(0, n as int);
    vstd::set_lib::lemma_int_range(0, n as int);
    let f = |x: usize| x as int;
    assert(s.to_set().map(f).subset_of(ri));
    vstd::set_lib::lemma_map_size(s.to_set(), s.to_set().map(f), f);
    vstd::set_lib::lemma_len_subset(s.to_set().map(f), ri);
}

/// The list holds the state `x`.
pub open spec fn holds(work: Seq<usize>, x: nat) -> bool {
    exists|j: int| 0 <= j < work.len() && work[j] as nat == x
}

/// A set of states that holds the current state and every state entered
/// over an edge from one of its states holds every reachable state.
proof fn lemma_closed(cm: ContentMatch, work: Seq<usize>, p: Seq<nat>)
    requires
        cm.is_path(p),
        work.len() >= 1,
        work[0] as nat == cm.state(),
        forall|j: int, k: int| 0 <= j < work.len() && 0 <= k < cm.out(work[j] as nat).len() ==> holds(work, (#[trigger] cm.out(work[j] as nat)[k]).1 as nat),
    ensures
        holds(work, p.last()),
    decreases p.len(),
{
    if p.len() == 1 {
        assert(work[0] as nat == p.last());
    } else {
        let q = p.drop_last();
        assert(cm.is_path(q)) by {
            assert forall|i: int| 0 <= i < q.len() - 1 implies #[trigger] cm.edge_to(q[i], q[i + 1]) by {
                assert(cm.edge_to(p[i], p[i + 1]));
            }
        }
        lemma_closed(cm, work, q);
        let j = choose|j: int| 0 <= j < work.len() && work[j] as nat == q.last();
        let i = p.len() - 2;
        assert(cm.edge_to(p[i], p[i + 1]));
        let a = p[i];
        let b = p[i + 1];
        let es = cm.out(a);
        let k = choose|k: int| 0 <= k < es.len() && #[trigger] es[k].1 == b;
        assert(work[j] as nat == a);
        assert(holds(work, cm.out(work[j] as nat)[k].1 as nat));
    }
}

/// Checks that every reachable state is live; else the message for the
/// first dead state met in breadth-first order.
pub fn check_for_dead_ends(cm: &ContentMatch, ex: &Vec<char>) -> (r: Result<(), String>)
    requires
        cm.wf(),
    ensures
        r is Ok <==> cm.all_live(),
        r matches Err(m) ==> exists|t: nat| cm.reachable(t) && !cm.live(t) && m@ == dead_end_message(ex@, cm.out(t)),
{
    let n = cm.graph.len();
    let mut work: Vec<usize> = Vec::new();
    work.push(cm.state);
    let ghost mut paths: Seq<Seq<nat>> = seq![seq![cm.state as nat]];
    let mut i: usize = 0;
    assert(cm.is_path(paths[0]));
    while i < work.len()
        invariant
            cm.wf(),
            n == cm.num_states(),
            work@.len() >= 1,
            work@[0] as nat == cm.state(),
            i <= work@.len(),
            work@.no_duplicates(),
            paths.len() == work@.len(),
            forall|j: int| 0 <= j < work@.len() ==> #[trigger] work@[j] < n,
            forall|j: int| 0 <= j < work@.len() ==> #[trigger] cm.is_path(paths[j]) && paths[j].last() == work@[j] as nat,
            forall|j: int| 0 <= j < i ==> cm.live(#[trigger] work@[j] as nat),
            forall|j: int, k: int| 0 <= j < i && 0 <= k < cm.out(work@[j] as nat).len() ==> holds(work@, (#[trigger] cm.out(work@[j] as nat)[k]).1 as nat),
        decreases n - i,
    {
        proof {
            lemma_distinct_below(work@, n as nat);
        }
        let s = work[i];
        let edges = &cm.graph[s].edges;
        let mut dead = !cm.graph[s].valid_end;
        let mut names = String::new();
        let mut k: usize = 0;
        while k < edges.len()
            invariant
                cm.wf(),
                n == cm.num_states(),
                s < n,
                edges@ == cm.out(s as nat),
                k <= edges@.len(),
                i < work@.len(),
                work@[i as int] == s,
                work@.len() >= 1,
                work@[0] as nat == cm.state(),
                work@.no_duplicates(),
                paths.len() == work@.len(),
                names@ == join_names(edges@.subrange(0, k as int)),
                dead == (!cm.accepting(s as nat) && forall|x: int| 0 <= x < k ==> (#[trigger] edges@[x]).0.is_text),
                forall|j: int| 0 <= j < work@.len() ==> #[trigger] work@[j] < n,
                forall|j: int| 0 <= j < work@.len() ==> #[trigger] cm.is_path(paths[j]) && paths[j].last() == work@[j] as nat,
                forall|j: int| 0 <= j < i ==> cm.live(#[trigger] work@[j] as nat),
                forall|j: int, x: int| 0 <= j < i && 0 <= x < cm.out(work@[j] as nat).len() ==> holds(work@, (#[trigger] cm.out(work@[j] as nat)[x]).1 as nat),
                forall|x: int| 0 <= x < k ==> holds(work@, (#[trigger] edges@[x]).1 as nat),
            decreases edges@.len() - k,
        {
            let ghost names0 = names@;
            if k > 0 {
                crate::util::append_str(&mut names, ", ");
            }
            crate::util::append_str(&mut names, edges[k].0.name.as_str());
            proof {
                let sub = edges@.subrange(0, k + 1);
                assert(sub.drop_last() =~= edges@.subrange(0, k as int));
                if k == 0 {
                    assert(names@ =~= join_names(sub));
                } else {
                    assert(names@ =~= join_names(sub));
                }
            }
            if dead && !edges[k].0.is_text && !edges[k].0.has_required_attrs() {
                dead = false;
            }
            let target = edges[k].1;
            assert(target < n) by {
                assert(cm.out(s as nat)[k as int].1 < cm.num_states());
            }
            if !list_has(&work, target) {
                let ghost w0 = work@;
                work.push(target);
                proof {
                    let p_new = paths[i as int].push(target as nat);
                    assert(cm.edge_to(s as nat, target as nat)) by {
                        assert(cm.out(s as nat)[k as int].1 == target);
                    }
                    assert(cm.is_path(paths[i as int]) && paths[i as int].last() == work@[i as int] as nat);
                    assert(cm.is_path(p_new)) by {
                        let p = paths[i as int];
                        assert forall|x: int| 0 <= x < p_new.len() - 1 implies #[trigger] cm.edge_to(p_new[x], p_new[x + 1]) by {
                            if x < p.len() - 1 {
                                assert(cm.edge_to(p[x], p[x + 1]));
                                assert(p_new[x] == p[x]);
                                assert(p_new[x + 1] == p[x + 1]);
                            } else {
                                assert(p_new[x] == p.last());
                                assert(p_new[x + 1] == target as nat);
                            }
                        }
                    }
                    paths = paths.push(p_new);
                    assert forall|a: int, b: int| 0 <= a < work@.len() && 0 <= b < work@.len() && a != b implies work@[a] != work@[b] by {
                        if a == w0.len() as int {
                            assert(work@[b] == w0[b]);
                        } else if b == w0.len() as int {
                            assert(work@[a] == w0[a]);
                        }
                    }
                    assert forall|j: int| 0 <= j < work@.len() implies #[trigger] cm.is_path(paths[j]) && paths[j].last() == work@[j] as nat by {
                        if j < w0.len() {
                            assert(work@[j] == w0[j]);
                        }
                    }
                    assert forall|j: int, x: int| 0 <= j < i && 0 <= x < cm.out(work@[j] as nat).len() implies holds(work@, (#[trigger] cm.out(work@[j] as nat)[x]).1 as nat) by {
                        assert(work@[j] == w0[j]);
                        assert(holds(w0, cm.out(w0[j] as nat)[x].1 as nat));
                        let y = choose|y: int| 0 <= y < w0.len() && w0[y] as nat == cm.out(w0[j] as nat)[x].1 as nat;
                        assert(work@[y] == w0[y]);
                    }
                    assert forall|x: int| 0 <= x < k + 1 implies holds(work@, (#[trigger] edges@[x]).1 as nat) by {
                        if x < k {
                            assert(holds(w0, edges@[x].1 as nat));
                            let y = choose|y: int| 0 <= y < w0.len() && w0[y] as nat == edges@[x].1 as nat;
                            assert(work@[y] == w0[y]);
                        } else {
                            assert(work@[w0.len() as int] == target);
                        }
                    }
                }
            } else {
                proof {
                    assert(work@.contains(target));
                    let y = choose|y: int| 0 <= y < work@.len() && work@[y] == target;
                    assert(holds(work@, edges@[k as int].1 as nat));
                }
            }
            k = k + 1;
        }
        assert(edges@.subrange(0, edges@.len() as int) =~= edges@);
        assert forall|x: int| 0 <= x < cm.out(work@[i as int] as nat).len() implies holds(work@, (#[trigger] cm.out(work@[i as int] as nat)[x]).1 as nat) by {
            assert(holds(work@, edges@[x].1 as nat));
        }
        if dead {
            let mut m = String::from_str("Only non-generatable nodes (");
            crate::util::append_str(&mut m, names.as_str());
            crate::util::append_str(&mut m, ") in a required position (in content expression '");
            let e = crate::util::string_from_chars(ex.as_slice());
            crate::util::append_str(&mut m, e.as_str());
            crate::util::append_str(&mut m, "')");
            proof {
                assert(m@ =~= dead_end_message(ex@, cm.out(s as nat)));
                assert(cm.reachable(s as nat)) by {
                    assert(cm.is_path(paths[i as int]));
                }
                assert(!cm.live(s as nat));
                assert(!cm.all_live());
            }
            return Err(m);
        }
        i = i + 1;
    }
    proof {
        assert forall|t: nat| #[trigger] cm.reachable(t) implies cm.live(t) by {
            let p = choose|p: Seq<nat>| #[trigger] cm.is_path(p) && p.last() == t;
            lemma_closed(*cm, work@, p);
            let j = choose|j: int| 0 <= j < work@.len() && work@[j] as nat == p.last();
            assert(cm.live(work@[j] as nat));
        }
    }
    Ok(())
}

/// Whether the list holds `x`.
fn list_has(a: &Vec<usize>, x: usize) -> (r: bool)
    ensures
        r == a@.contains(x),
{
    let mut i: usize = 0;
    while i < a.len()
        invariant
            i <= a@.len(),
            forall|j: int| 0 <= j < i ==> a@[j] != x,
        decreases a@.len() - i,
    {
        if a[i] == x {
            assert(a@[i as int] == x);
            return true;
        }
        i = i + 1;
    }
    false
}


/// The automaton of an expression tree, in its start state. It accepts
/// every word of the expression.
fn compile_expr(ast: &crate::content_expr::Expr, Ghost(types): Ghost<Seq<Arc<NodeType>>>) -> (cm: ContentMatch)
    requires
        crate::automaton::expr_types_in(*ast, types),
    ensures
        cm.wf(),
        cm.labels_from(types),
        cm.deterministic(),
        crate::language::seqs_nonempty(*ast) ==> forall|w: Seq<Seq<char>>|
            #[trigger] crate::language::describes(*ast, w) ==> (cm.run(cm.state(), w) matches Some(f) && cm.accepting(f)),
        crate::only_words::exact_ok(*ast) ==> forall|w: Seq<Seq<char>>|
            (#[trigger] cm.run(cm.state(), w) matches Some(f) && cm.accepting(f)) ==> crate::language::describes(*ast, w),
{
    let nfa = crate::automaton::build_nfa(ast, Ghost(types));
    let (arena, root) = crate::automaton::build_dfa(&nfa, Ghost(types));
    let ve = arena[root].valid_end;
    let cm = ContentMatch { valid_end: ve, graph: Arc::new(arena), state: root };
    proof {
        if crate::language::seqs_nonempty(*ast) {
            assert forall|w: Seq<Seq<char>>| #[trigger] crate::language::describes(*ast, w) implies (cm.run(cm.state(), w) matches Some(f) && cm.accepting(f)) by {
                assert(crate::language::accepts(nfa@, w));
                assert(cm.graph@ == arena@);
                assert(cm.run(root as nat, w) matches Some(f) && cm.accepting(f));
            }
        }
    }
    proof {
        if crate::only_words::exact_ok(*ast) {
            assert forall|w: Seq<Seq<char>>| (#[trigger] cm.run(cm.state(), w) matches Some(f) && cm.accepting(f))
                implies crate::language::describes(*ast, w) by {
                assert(cm.graph@ == arena@);
                assert(crate::language::accepts(nfa@, w));
            }
        }
    }
    assert forall|s: nat, i: int| s < cm.num_states() && 0 <= i < cm.out(s).len() implies (#[trigger] cm.out(s)[i]).1 < cm.num_states() && types.contains(cm.out(s)[i].0) by {
        assert(cm.out(s)[i] == cm.graph@[s as int].edges@[i]);
    }
    assert forall|s: nat, i: int, j: int| s < cm.num_states() && 0 <= i < j < cm.out(s).len()
        implies (#[trigger] cm.out(s)[i]).0.name@ != (#[trigger] cm.out(s)[j]).0.name@ by {
        assert(crate::automaton::edge_names_distinct(arena@[s as int].edges@));
        assert(cm.out(s) == arena@[s as int].edges@);
    }
    cm
}

impl ContentMatch {
    /// Every edge of the automaton is labelled with one of `types`.
    pub open spec fn labels_from(&self, types: Seq<Arc<NodeType>>) -> bool {
        forall|s: nat, i: int| s < self.num_states() && 0 <= i < self.out(s).len() ==> types.contains((#[trigger] self.out(s)[i]).0)
    }

    /// Compiles a content expression over the given node types into the
    /// start state of its automaton. A name stands for the type of that name,
    /// else for every type of the group of that name.
    #[verifier::spinoff_prover]
    #[verifier::rlimit(40)]
    pub fn parse(expr: &str, node_types: &[Arc<NodeType>]) -> (r: Result<Arc<ContentMatch>, String>)
        ensures
            match crate::content_expr::spec_syntax(expr@, node_types@) {
                Err(m) => r matches Err(e) && e@ == m,
                Ok(_) => (crate::content_expr::tokenize(expr@).len() == 0 ==> r is Ok) && match r {
                    Ok(cm) => {
                        &&& cm.wf()
                        &&& cm.all_live()
                        &&& cm.labels_from(node_types@)
                        &&& cm.deterministic()
                        &&& crate::content_expr::tokenize(expr@).len() == 0 ==> cm.num_states() == 1 && cm.valid_end && cm.out(cm.state()).len() == 0
                        &&& crate::content_expr::tokenize(expr@).len() > 0 ==> forall|w: Seq<Seq<char>>|
                            #[trigger] crate::language::words(crate::content_expr::spec_tree(expr@, node_types@), w) ==> (
                            cm.run(cm.state(), w) matches Some(f) && cm.accepting(f))
                        &&& crate::content_expr::tokenize(expr@).len() > 0 && crate::language::exact_v(crate::content_expr::spec_tree(expr@, node_types@))
                            ==> forall|w: Seq<Seq<char>>| (#[trigger] cm.run(cm.state(), w) matches Some(f) && cm.accepting(f))
                            ==> crate::language::words(crate::content_expr::spec_tree(expr@, node_types@), w)
                    },
                    Err(e) => exists|c: ContentMatch, t: nat| {
                        &&& c.wf()
                        &&& c.labels_from(node_types@)
                        &&& c.deterministic()
                        &&& crate::content_expr::tokenize(expr@).len() > 0
                        &&& forall|w: Seq<Seq<char>>|
                            #[trigger] crate::language::words(crate::content_expr::spec_tree(expr@, node_types@), w) ==> (
                            c.run(c.state(), w) matches Some(f) && c.accepting(f))
                        &&& crate::language::exact_v(crate::content_expr::spec_tree(expr@, node_types@))
                            ==> forall|w: Seq<Seq<char>>| (#[trigger] c.run(c.state(), w) matches Some(f) && c.accepting(f))
                            ==> crate::language::words(crate::content_expr::spec_tree(expr@, node_types@), w)
                        &&& c.reachable(t)
                        &&& !c.live(t)
                        &&& e@ == dead_end_message(expr@, c.out(t))
                    },
                },
            },
    {
        let ex = crate::util::chars_of(expr);
        let toks = crate::content_expr::tokenize_exec(ex.as_slice());
        if toks.len() == 0 {
            let e = Self::empty();
            proof {
                assert(e.labels_from(node_types@));
                assert forall|t: nat| #[trigger] e.reachable(t) implies e.live(t) by {
                    let p = choose|p: Seq<nat>| #[trigger] e.is_path(p) && p.last() == t;
                    if p.len() > 1 {
                        assert(e.edge_to(p[0int], p[0int + 1]));
                    }
                }
            }
            return Ok(e);
        }
        let mut types: Vec<Arc<NodeType>> = Vec::new();
        let mut i: usize = 0;
        while i < node_types.len()
            invariant
                i <= node_types@.len(),
                types@ == node_types@.subrange(0, i as int),
            decreases node_types@.len() - i,
        {
            types.push(share(&node_types[i]));
            i = i + 1;
            assert(types@ =~= node_types@.subrange(0, i as int));
        }
        assert(node_types@.subrange(0, node_types@.len() as int) =~= node_types@);
        let tk = crate::content_expr::Tokens { toks, ex, types };
        let mut st = crate::content_expr::PState { pos: 0, inline: None };
        let ast = match crate::content_expr::parse_expr(&tk, &mut st) {
            Ok(a) => a,
            Err(m) => return Err(m),
        };
        if st.pos < tk.toks.len() {
            return Err(crate::content_expr::err(&tk, "Unexpected trailing text"));
        }
        let cm = compile_expr(&ast, Ghost(tk.types@));
        proof {
            assert(tk.ts() == crate::content_expr::tokenize(expr@));
            assert forall|w: Seq<Seq<char>>|
                #[trigger] crate::language::words(crate::content_expr::spec_tree(expr@, node_types@), w) implies (
                cm.run(cm.state(), w) matches Some(f) && cm.accepting(f)) by {
                crate::language::lemma_words_view(ast, w);
            }
            if crate::language::exact_v(crate::content_expr::spec_tree(expr@, node_types@)) {
                crate::language::lemma_exact_view(ast);
                assert forall|w: Seq<Seq<char>>| (#[trigger] cm.run(cm.state(), w) matches Some(f) && cm.accepting(f))
                    implies crate::language::words(crate::content_expr::spec_tree(expr@, node_types@), w) by {
                    crate::language::lemma_view_words(ast, w);
                }
            }
        }
        match check_for_dead_ends(&cm, &tk.ex) {
            Ok(()) => {},
            Err(m) => {
                proof {
                    let t = choose|t: nat| cm.reachable(t) && !cm.live(t) && m@ == dead_end_message(tk.ex@, cm.out(t));
                    assert(cm.reachable(t) && !cm.live(t) && m@ == dead_end_message(expr@, cm.out(t)));
                }
                return Err(m);
            },
        }
        Ok(Arc::new(cm))
    }
}

} // verus!
