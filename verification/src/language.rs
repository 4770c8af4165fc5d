//! The words of node-type names that a content expression describes, and
//! walks through the nondeterministic automaton that read them.
use vstd::prelude::*;
use std::sync::Arc;

use crate::automaton::{NfaEdge, keeps, all_fresh, listed, edges_valid};
use crate::content_expr::Expr;
use crate::schema::NodeType;

verus! {

/// `n` is a number of repetitions.
pub open spec fn is_count(n: int) -> bool {
    n >= 0
}

/// `w` is a word that the expression `e` describes.
pub open spec fn describes(e: Expr, w: Seq<Seq<char>>) -> bool
    decreases e, 2int, 0int,
{
    match e {
        Expr::Name(t) => w == seq![t.name@],
        Expr::Choice(es) => exists|i: int| 0 <= i < es@.len() && describes(#[trigger] es@[i], w),
        Expr::Sequence(es) => describes_prefix(e, es@.len() as int, w),
        Expr::Star(_) => exists|n: int| #[trigger] is_count(n) && describes_reps(e, n, w),
        Expr::Plus(_) => exists|n: int| #[trigger] is_count(n) && n >= 1 && describes_reps(e, n, w),
        Expr::Opt(x) => w.len() == 0 || describes(*x, w),
        Expr::Range { min, max, .. } => exists|n: int|
            #[trigger] is_count(n) && min <= n && (max matches Some(m) ==> n <= m) && describes_reps(e, n, w),
    }
}

/// `w` is described by the first `k` items of the sequence `e`, one after
/// the other.
pub open spec fn describes_prefix(e: Expr, k: int, w: Seq<Seq<char>>) -> bool
    decreases e, 1int, k,
{
    match e {
        Expr::Sequence(es) => if k <= 0 {
            w.len() == 0
        } else if k > es@.len() {
            false
        } else {
            exists|j: int| 0 <= j <= w.len() && describes_prefix(e, k - 1, #[trigger] w.take(j)) && describes(es@[k - 1], w.skip(j))
        },
        _ => false,
    }
}

/// `w` is `n` words, one after the other, each described by the expression
/// that `e` repeats.
pub open spec fn describes_reps(e: Expr, n: int, w: Seq<Seq<char>>) -> bool
    decreases e, 1int, n,
{
    if n <= 0 {
        w.len() == 0
    } else {
        exists|j: int| 0 <= j <= w.len() && describes_reps(e, n - 1, #[trigger] w.take(j)) && describes_piece(e, w.skip(j))
    }
}

/// `w` is described by the expression that `e` repeats.
pub open spec fn describes_piece(e: Expr, w: Seq<Seq<char>>) -> bool
    decreases e, 0int, 0int,
{
    match e {
        Expr::Star(x) => describes(*x, w),
        Expr::Plus(x) => describes(*x, w),
        Expr::Range { expr: x, .. } => describes(*x, w),
        _ => false,
    }
}

/// No sequence in the expression is empty (the parser makes none).
pub open spec fn seqs_nonempty(e: Expr) -> bool
    decreases e,
{
    match e {
        Expr::Name(_) => true,
        Expr::Choice(es) => forall|i: int| 0 <= i < es@.len() ==> seqs_nonempty(#[trigger] es@[i]),
        Expr::Sequence(es) => es@.len() > 0 && forall|i: int| 0 <= i < es@.len() ==> seqs_nonempty(#[trigger] es@[i]),
        Expr::Plus(x) => seqs_nonempty(*x),
        Expr::Star(x) => seqs_nonempty(*x),
        Expr::Opt(x) => seqs_nonempty(*x),
        Expr::Range { expr, .. } => seqs_nonempty(*expr),
    }
}

/// What an edge reads: nothing when unlabelled, the label's name otherwise.
pub open spec fn edge_word(e: NfaEdge) -> Seq<Seq<char>> {
    match e.term {
        Some(t) => seq![t.name@],
        None => seq![],
    }
}

/// Edge `e` (a state and an index) is an edge of `n`.
pub open spec fn is_edge(n: Seq<Vec<NfaEdge>>, e: (usize, usize)) -> bool {
    e.0 < n.len() && e.1 < n[e.0 as int]@.len()
}

/// The edge `e` of `n`.
pub open spec fn edge_at(n: Seq<Vec<NfaEdge>>, e: (usize, usize)) -> NfaEdge {
    n[e.0 as int]@[e.1 as int]
}

/// The edges `p` of `n` lead one after the other from state `s` to state
/// `t`, reading `w`.
pub open spec fn walk(n: Seq<Vec<NfaEdge>>, p: Seq<(usize, usize)>, s: int, w: Seq<Seq<char>>, t: int) -> bool
    decreases p.len(),
{
    if p.len() == 0 {
        s == t && w.len() == 0
    } else {
        let ed = edge_at(n, p[0]);
        let r = edge_word(ed);
        &&& p[0].0 == s
        &&& is_edge(n, p[0])
        &&& r.len() <= w.len()
        &&& w.take(r.len() as int) == r
        &&& walk(n, p.drop_first(), ed.to as int, w.skip(r.len() as int), t)
    }
}

/// `n` reads `w` from its first state to its last.
pub open spec fn accepts(n: Seq<Vec<NfaEdge>>, w: Seq<Seq<char>>) -> bool {
    exists|p: Seq<(usize, usize)>| #[trigger] walk(n, p, 0, w, n.len() - 1)
}

/// Every edge of `p` was added after `o`.
pub open spec fn all_new(o: Seq<Vec<NfaEdge>>, p: Seq<(usize, usize)>) -> bool {
    all_fresh(o, p)
}

/// Every edge of `p` is not named in `r`.
pub open spec fn none_listed(p: Seq<(usize, usize)>, r: Seq<(usize, usize)>) -> bool {
    forall|m: int| 0 <= m < p.len() ==> !listed(r, (#[trigger] p[m]).0 as int, p[m].1 as int)
}

/// A word `w` leaves state `s` of `n` through one of the dangling edges
/// `r`: a walk over edges added after `o` and not in `r`, then one of `r`.
pub open spec fn exits(o: Seq<Vec<NfaEdge>>, n: Seq<Vec<NfaEdge>>, s: int, w: Seq<Seq<char>>, r: Seq<(usize, usize)>) -> bool {
    exists|p: Seq<(usize, usize)>, k: int, j: int|
        #![trigger walk(n, p, s, w.take(j), r[k].0 as int)]
        0 <= k < r.len() && 0 <= j <= w.len() && walk(n, p, s, w.take(j), r[k].0 as int) && all_new(o, p)
            && none_listed(p, r) && w.skip(j) == edge_word(edge_at(n, r[k]))
}

/// Every edge of a walk is an edge of the automaton.
pub proof fn lemma_walk_edges(n: Seq<Vec<NfaEdge>>, p: Seq<(usize, usize)>, s: int, w: Seq<Seq<char>>, t: int)
    requires
        walk(n, p, s, w, t),
    ensures
        forall|m: int| 0 <= m < p.len() ==> is_edge(n, #[trigger] p[m]),
    decreases p.len(),
{
    if p.len() > 0 {
        let ed = edge_at(n, p[0]);
        let r = edge_word(ed);
        lemma_walk_edges(n, p.drop_first(), ed.to as int, w.skip(r.len() as int), t);
        assert forall|m: int| 0 <= m < p.len() implies is_edge(n, #[trigger] p[m]) by {
            if m > 0 {
                assert(p[m] == p.drop_first()[m - 1]);
            }
        }
    }
}

/// A walk stays a walk where its edges are unchanged.
pub proof fn lemma_walk_same(n: Seq<Vec<NfaEdge>>, n2: Seq<Vec<NfaEdge>>, p: Seq<(usize, usize)>, s: int, w: Seq<Seq<char>>, t: int)
    requires
        walk(n, p, s, w, t),
        forall|m: int| 0 <= m < p.len() ==> is_edge(n2, #[trigger] p[m]) && edge_at(n2, p[m]) == edge_at(n, p[m]),
    ensures
        walk(n2, p, s, w, t),
    decreases p.len(),
{
    if p.len() > 0 {
        let ed = edge_at(n, p[0]);
        let r = edge_word(ed);
        assert(is_edge(n2, p[0]) && edge_at(n2, p[0]) == edge_at(n, p[0]));
        assert forall|m: int| 0 <= m < p.drop_first().len() implies is_edge(n2, #[trigger] p.drop_first()[m])
            && edge_at(n2, p.drop_first()[m]) == edge_at(n, p.drop_first()[m]) by {
            assert(p.drop_first()[m] == p[m + 1]);
        }
        lemma_walk_same(n, n2, p.drop_first(), ed.to as int, w.skip(r.len() as int), t);
    }
}

/// A walk survives when the automaton keeps its edges.
pub proof fn lemma_walk_keeps(n: Seq<Vec<NfaEdge>>, n2: Seq<Vec<NfaEdge>>, p: Seq<(usize, usize)>, s: int, w: Seq<Seq<char>>, t: int)
    requires
        walk(n, p, s, w, t),
        keeps(n, n2),
    ensures
        walk(n2, p, s, w, t),
{
    lemma_walk_edges(n, p, s, w, t);
    assert forall|m: int| 0 <= m < p.len() implies is_edge(n2, #[trigger] p[m]) && edge_at(n2, p[m]) == edge_at(n, p[m]) by {
        assert(is_edge(n, p[m]));
        assert(n[p[m].0 as int]@.len() <= n2[p[m].0 as int]@.len());
        assert(n2[p[m].0 as int]@[p[m].1 as int] == n[p[m].0 as int]@[p[m].1 as int]);
    }
    lemma_walk_same(n, n2, p, s, w, t);
}

/// Two walks, one after the other.
pub proof fn lemma_walk_concat(
    n: Seq<Vec<NfaEdge>>,
    p1: Seq<(usize, usize)>,
    s: int,
    w1: Seq<Seq<char>>,
    t: int,
    p2: Seq<(usize, usize)>,
    w2: Seq<Seq<char>>,
    u: int,
)
    requires
        walk(n, p1, s, w1, t),
        walk(n, p2, t, w2, u),
    ensures
        walk(n, p1 + p2, s, w1 + w2, u),
    decreases p1.len(),
{
    if p1.len() == 0 {
        assert(p1 + p2 =~= p2);
        assert(w1 + w2 =~= w2);
    } else {
        let ed = edge_at(n, p1[0]);
        let r = edge_word(ed);
        let len = r.len() as int;
        lemma_walk_concat(n, p1.drop_first(), ed.to as int, w1.skip(len), t, p2, w2, u);
        assert((p1 + p2).drop_first() =~= p1.drop_first() + p2);
        assert((w1 + w2).skip(len) =~= w1.skip(len) + w2);
        assert((w1 + w2).take(len) =~= w1.take(len));
        assert((p1 + p2)[0] == p1[0]);
    }
}

/// One edge is a walk.
pub proof fn lemma_walk_edge(n: Seq<Vec<NfaEdge>>, e: (usize, usize))
    requires
        is_edge(n, e),
    ensures
        walk(n, seq![e], e.0 as int, edge_word(edge_at(n, e)), edge_at(n, e).to as int),
{
    let r = edge_word(edge_at(n, e));
    let t = edge_at(n, e).to as int;
    assert(seq![e].drop_first() =~= Seq::<(usize, usize)>::empty());
    assert(r.take(r.len() as int) =~= r);
    assert(r.skip(r.len() as int) =~= Seq::<Seq<char>>::empty());
    assert(walk(n, Seq::<(usize, usize)>::empty(), t, Seq::<Seq<char>>::empty(), t));
    assert(seq![e][0] == e);
}


/// `w` leads from `s` to `t` in `n` over edges added after `o`.
pub open spec fn reach(o: Seq<Vec<NfaEdge>>, n: Seq<Vec<NfaEdge>>, s: int, w: Seq<Seq<char>>, t: int) -> bool {
    exists|p: Seq<(usize, usize)>| #[trigger] walk(n, p, s, w, t) && all_new(o, p)
}

/// `c` is `b` with the edges named in `d` redirected to `t`.
pub open spec fn connected(b: Seq<Vec<NfaEdge>>, c: Seq<Vec<NfaEdge>>, d: Seq<(usize, usize)>, t: int) -> bool {
    &&& b.len() == c.len()
    &&& forall|s: int| 0 <= s < c.len() ==> #[trigger] c[s]@.len() == b[s]@.len()
    &&& forall|s: int, i: int| 0 <= s < c.len() && 0 <= i < c[s]@.len() ==> (#[trigger] c[s]@[i]).term == b[s]@[i].term
    &&& forall|s: int, i: int| 0 <= s < c.len() && 0 <= i < c[s]@.len() ==> if listed(d, s, i) {
        (#[trigger] c[s]@[i]).to == t
    } else {
        c[s]@[i] == b[s]@[i]
    }
}

/// An edge of `n` is not among edges added after `n`.
proof fn lemma_not_listed(n: Seq<Vec<NfaEdge>>, e: (usize, usize), d: Seq<(usize, usize)>)
    requires
        is_edge(n, e),
        all_fresh(n, d),
    ensures
        !listed(d, e.0 as int, e.1 as int),
{
    if listed(d, e.0 as int, e.1 as int) {
        let q = choose|q: int| 0 <= q < d.len() && d[q].0 == e.0 as int && d[q].1 == e.1 as int;
        assert(d[q].0 >= n.len() || d[q].1 >= n[d[q].0 as int]@.len());
    }
}

/// Edges added after `a` are added after anything `a` keeps.
proof fn lemma_all_new_mono(o: Seq<Vec<NfaEdge>>, a: Seq<Vec<NfaEdge>>, p: Seq<(usize, usize)>)
    requires
        keeps(o, a),
        all_new(a, p),
    ensures
        all_new(o, p),
{
    crate::automaton::lemma_keeps_fresh(o, a, p);
}

/// A walk survives while the automaton keeps its edges.
pub proof fn lemma_reach_keeps(o: Seq<Vec<NfaEdge>>, a: Seq<Vec<NfaEdge>>, b: Seq<Vec<NfaEdge>>, s: int, w: Seq<Seq<char>>, t: int)
    requires
        reach(o, a, s, w, t),
        keeps(a, b),
    ensures
        reach(o, b, s, w, t),
{
    let p = choose|p: Seq<(usize, usize)>| #[trigger] walk(a, p, s, w, t) && all_new(o, p);
    lemma_walk_keeps(a, b, p, s, w, t);
}

/// A walk in `a` survives redirecting edges added after `a` (once `a`
/// was kept in `a2`).
pub proof fn lemma_reach_connect(
    o: Seq<Vec<NfaEdge>>,
    a: Seq<Vec<NfaEdge>>,
    a2: Seq<Vec<NfaEdge>>,
    b: Seq<Vec<NfaEdge>>,
    s: int,
    w: Seq<Seq<char>>,
    t: int,
    d: Seq<(usize, usize)>,
    x: int,
)
    requires
        reach(o, a, s, w, t),
        keeps(a, a2),
        all_fresh(a, d),
        connected(a2, b, d, x),
    ensures
        reach(o, b, s, w, t),
{
    let p = choose|p: Seq<(usize, usize)>| #[trigger] walk(a, p, s, w, t) && all_new(o, p);
    lemma_walk_edges(a, p, s, w, t);
    assert forall|m: int| 0 <= m < p.len() implies is_edge(b, #[trigger] p[m]) && edge_at(b, p[m]) == edge_at(a, p[m]) by {
        let e = p[m];
        assert(is_edge(a, e));
        lemma_not_listed(a, e, d);
        assert(a[e.0 as int]@.len() <= a2[e.0 as int]@.len());
        assert(a2[e.0 as int]@[e.1 as int] == a[e.0 as int]@[e.1 as int]);
        assert(b[e.0 as int]@.len() == a2[e.0 as int]@.len());
        assert(b[e.0 as int]@[e.1 as int] == a2[e.0 as int]@[e.1 as int]);
    }
    lemma_walk_same(a, b, p, s, w, t);
}

/// Edges added after `a` are added after whatever `a` keeps.
pub proof fn lemma_reach_mono(o: Seq<Vec<NfaEdge>>, a: Seq<Vec<NfaEdge>>, n: Seq<Vec<NfaEdge>>, s: int, w: Seq<Seq<char>>, t: int)
    requires
        reach(a, n, s, w, t),
        keeps(o, a),
    ensures
        reach(o, n, s, w, t),
{
    let p = choose|p: Seq<(usize, usize)>| #[trigger] walk(n, p, s, w, t) && all_new(a, p);
    lemma_all_new_mono(o, a, p);
}

/// Two walks, one after the other.
pub proof fn lemma_reach_concat(
    o: Seq<Vec<NfaEdge>>,
    n: Seq<Vec<NfaEdge>>,
    s: int,
    w1: Seq<Seq<char>>,
    t: int,
    w2: Seq<Seq<char>>,
    u: int,
)
    requires
        reach(o, n, s, w1, t),
        reach(o, n, t, w2, u),
    ensures
        reach(o, n, s, w1 + w2, u),
{
    let p1 = choose|p: Seq<(usize, usize)>| #[trigger] walk(n, p, s, w1, t) && all_new(o, p);
    let p2 = choose|p: Seq<(usize, usize)>| #[trigger] walk(n, p, t, w2, u) && all_new(o, p);
    lemma_walk_concat(n, p1, s, w1, t, p2, w2, u);
    assert forall|k: int| 0 <= k < (p1 + p2).len() implies (#[trigger] (p1 + p2)[k]).0 >= o.len() || (p1 + p2)[k].1 >= o[(p1 + p2)[k].0 as int]@.len() by {
        if k < p1.len() {
            assert((p1 + p2)[k] == p1[k]);
        } else {
            assert((p1 + p2)[k] == p2[k - p1.len()]);
        }
    }
}

/// The empty word leads from a state to itself.
pub proof fn lemma_reach_empty(o: Seq<Vec<NfaEdge>>, n: Seq<Vec<NfaEdge>>, s: int)
    ensures
        reach(o, n, s, seq![], s),
{
    assert(walk(n, Seq::<(usize, usize)>::empty(), s, seq![], s));
}

/// One new edge leads from its state to its target, reading its label.
pub proof fn lemma_reach_edge(o: Seq<Vec<NfaEdge>>, n: Seq<Vec<NfaEdge>>, e: (usize, usize))
    requires
        is_edge(n, e),
        e.0 >= o.len() || e.1 >= o[e.0 as int]@.len(),
    ensures
        reach(o, n, e.0 as int, edge_word(edge_at(n, e)), edge_at(n, e).to as int),
{
    lemma_walk_edge(n, e);
    assert(seq![e][0] == e);
}

/// Once its dangling edges lead to `x`, a word that leaves `s` through
/// them leads from `s` to `x`.
pub proof fn lemma_close(
    a: Seq<Vec<NfaEdge>>,
    b: Seq<Vec<NfaEdge>>,
    c: Seq<Vec<NfaEdge>>,
    s: int,
    u: Seq<Seq<char>>,
    r: Seq<(usize, usize)>,
    x: int,
)
    requires
        exits(a, b, s, u, r),
        edges_valid(r, b),
        all_fresh(a, r),
        connected(b, c, r, x),
    ensures
        reach(a, c, s, u, x),
{
    let (p, k, j) = choose|p: Seq<(usize, usize)>, k: int, j: int|
        #![trigger walk(b, p, s, u.take(j), r[k].0 as int)]
        0 <= k < r.len() && 0 <= j <= u.len() && walk(b, p, s, u.take(j), r[k].0 as int) && all_new(a, p)
            && none_listed(p, r) && u.skip(j) == edge_word(edge_at(b, r[k]));
    lemma_walk_edges(b, p, s, u.take(j), r[k].0 as int);
    assert forall|m: int| 0 <= m < p.len() implies is_edge(c, #[trigger] p[m]) && edge_at(c, p[m]) == edge_at(b, p[m]) by {
        let e = p[m];
        assert(is_edge(b, e));
        assert(!listed(r, e.0 as int, e.1 as int));
        assert(c[e.0 as int]@.len() == b[e.0 as int]@.len());
        assert(c[e.0 as int]@[e.1 as int] == b[e.0 as int]@[e.1 as int]);
    }
    lemma_walk_same(b, c, p, s, u.take(j), r[k].0 as int);
    let e = r[k];
    assert(e.0 < b.len() && e.1 < b[e.0 as int]@.len());
    assert(listed(r, e.0 as int, e.1 as int));
    assert(c[e.0 as int]@.len() == b[e.0 as int]@.len());
    assert(c[e.0 as int]@[e.1 as int].to == x);
    assert(c[e.0 as int]@[e.1 as int].term == b[e.0 as int]@[e.1 as int].term);
    assert(edge_word(edge_at(c, e)) == edge_word(edge_at(b, e)));
    lemma_walk_edge(c, e);
    lemma_walk_concat(c, p, s, u.take(j), e.0 as int, seq![e], u.skip(j), x);
    assert(u.take(j) + u.skip(j) =~= u);
    let q = p + seq![e];
    assert forall|m: int| 0 <= m < q.len() implies (#[trigger] q[m]).0 >= a.len() || q[m].1 >= a[q[m].0 as int]@.len() by {
        if m < p.len() {
            assert(q[m] == p[m]);
        } else {
            assert(q[m] == r[k]);
        }
    }
    assert(walk(c, q, s, u, x) && all_new(a, q));
}

/// A walk within the automaton kept since `a`, then a word that leaves
/// through the dangling edges `r` added after `a`.
pub proof fn lemma_reach_exits(
    o: Seq<Vec<NfaEdge>>,
    a: Seq<Vec<NfaEdge>>,
    b: Seq<Vec<NfaEdge>>,
    s: int,
    w1: Seq<Seq<char>>,
    t: int,
    w2: Seq<Seq<char>>,
    r: Seq<(usize, usize)>,
)
    requires
        reach(o, a, s, w1, t),
        keeps(o, a),
        keeps(a, b),
        exits(a, b, t, w2, r),
        all_fresh(a, r),
    ensures
        exits(o, b, s, w1 + w2, r),
{
    let p1 = choose|p: Seq<(usize, usize)>| #[trigger] walk(a, p, s, w1, t) && all_new(o, p);
    lemma_walk_edges(a, p1, s, w1, t);
    lemma_walk_keeps(a, b, p1, s, w1, t);
    let (p2, k, j) = choose|p: Seq<(usize, usize)>, k: int, j: int|
        #![trigger walk(b, p, t, w2.take(j), r[k].0 as int)]
        0 <= k < r.len() && 0 <= j <= w2.len() && walk(b, p, t, w2.take(j), r[k].0 as int) && all_new(a, p)
            && none_listed(p, r) && w2.skip(j) == edge_word(edge_at(b, r[k]));
    lemma_walk_concat(b, p1, s, w1, t, p2, w2.take(j), r[k].0 as int);
    let w = w1 + w2;
    let jj = w1.len() + j;
    assert(w.take(jj) =~= w1 + w2.take(j));
    assert(w.skip(jj) =~= w2.skip(j));
    lemma_all_new_mono(o, a, p2);
    let q = p1 + p2;
    assert forall|m: int| 0 <= m < q.len() implies (#[trigger] q[m]).0 >= o.len() || q[m].1 >= o[q[m].0 as int]@.len() by {
        if m < p1.len() {
            assert(q[m] == p1[m]);
        } else {
            assert(q[m] == p2[m - p1.len()]);
        }
    }
    assert forall|m: int| 0 <= m < q.len() implies !listed(r, (#[trigger] q[m]).0 as int, q[m].1 as int) by {
        if m < p1.len() {
            assert(q[m] == p1[m]);
            lemma_not_listed(a, p1[m], r);
        } else {
            assert(q[m] == p2[m - p1.len()]);
        }
    }
    assert(walk(b, q, s, w.take(jj), r[k].0 as int));
}

/// A walk, then a dangling unlabelled edge out of its end added after `a`.
pub proof fn lemma_exits_end(
    o: Seq<Vec<NfaEdge>>,
    a: Seq<Vec<NfaEdge>>,
    n: Seq<Vec<NfaEdge>>,
    s: int,
    w: Seq<Seq<char>>,
    e: (usize, usize),
)
    requires
        reach(o, a, s, w, e.0 as int),
        keeps(a, n),
        is_edge(n, e),
        e.0 >= a.len() || e.1 >= a[e.0 as int]@.len(),
        edge_at(n, e).term is None,
    ensures
        exits(o, n, s, w, seq![e]),
{
    let p = choose|p: Seq<(usize, usize)>| #[trigger] walk(a, p, s, w, e.0 as int) && all_new(o, p);
    lemma_walk_edges(a, p, s, w, e.0 as int);
    lemma_walk_keeps(a, n, p, s, w, e.0 as int);
    let r = seq![e];
    assert forall|m: int| 0 <= m < p.len() implies !listed(r, (#[trigger] p[m]).0 as int, p[m].1 as int) by {
        assert(is_edge(a, p[m]));
        if listed(r, p[m].0 as int, p[m].1 as int) {
            let q = choose|q: int| 0 <= q < r.len() && r[q].0 == p[m].0 as int && r[q].1 == p[m].1 as int;
            assert(r[q] == e);
        }
    }
    assert(w.take(w.len() as int) =~= w);
    assert(w.skip(w.len() as int) =~= Seq::<Seq<char>>::empty());
    assert(r[0] == e);
    assert(walk(n, p, s, w.take(w.len() as int), r[0].0 as int));
}

/// A word still leaves through the dangling edges while the automaton
/// keeps its edges.
pub proof fn lemma_exits_keeps(o: Seq<Vec<NfaEdge>>, a: Seq<Vec<NfaEdge>>, b: Seq<Vec<NfaEdge>>, s: int, w: Seq<Seq<char>>, r: Seq<(usize, usize)>)
    requires
        exits(o, a, s, w, r),
        edges_valid(r, a),
        keeps(a, b),
    ensures
        exits(o, b, s, w, r),
{
    let (p, k, j) = choose|p: Seq<(usize, usize)>, k: int, j: int|
        #![trigger walk(a, p, s, w.take(j), r[k].0 as int)]
        0 <= k < r.len() && 0 <= j <= w.len() && walk(a, p, s, w.take(j), r[k].0 as int) && all_new(o, p)
            && none_listed(p, r) && w.skip(j) == edge_word(edge_at(a, r[k]));
    lemma_walk_keeps(a, b, p, s, w.take(j), r[k].0 as int);
    assert(a[r[k].0 as int]@.len() <= b[r[k].0 as int]@.len());
    assert(b[r[k].0 as int]@[r[k].1 as int] == a[r[k].0 as int]@[r[k].1 as int]);
    assert(walk(b, p, s, w.take(j), r[k].0 as int));
}

/// Dangling edges that `a` already had may come first.
pub proof fn lemma_exits_prefix(
    o: Seq<Vec<NfaEdge>>,
    a: Seq<Vec<NfaEdge>>,
    n: Seq<Vec<NfaEdge>>,
    s: int,
    w: Seq<Seq<char>>,
    r0: Seq<(usize, usize)>,
    r: Seq<(usize, usize)>,
)
    requires
        exits(a, n, s, w, r),
        keeps(o, a),
        edges_valid(r0, a),
    ensures
        exits(o, n, s, w, r0 + r),
{
    let (p, k, j) = choose|p: Seq<(usize, usize)>, k: int, j: int|
        #![trigger walk(n, p, s, w.take(j), r[k].0 as int)]
        0 <= k < r.len() && 0 <= j <= w.len() && walk(n, p, s, w.take(j), r[k].0 as int) && all_new(a, p)
            && none_listed(p, r) && w.skip(j) == edge_word(edge_at(n, r[k]));
    lemma_all_new_mono(o, a, p);
    let rr = r0 + r;
    assert forall|m: int| 0 <= m < p.len() implies !listed(rr, (#[trigger] p[m]).0 as int, p[m].1 as int) by {
        if listed(rr, p[m].0 as int, p[m].1 as int) {
            let q = choose|q: int| 0 <= q < rr.len() && rr[q].0 == p[m].0 as int && rr[q].1 == p[m].1 as int;
            if q < r0.len() {
                assert(rr[q] == r0[q]);
                assert(r0[q].0 < a.len() && r0[q].1 < a[r0[q].0 as int]@.len());
                assert(p[m].0 >= a.len() || p[m].1 >= a[p[m].0 as int]@.len());
            } else {
                assert(rr[q] == r[q - r0.len()]);
                assert(listed(r, p[m].0 as int, p[m].1 as int));
            }
        }
    }
    let kk = r0.len() + k;
    assert(rr[kk] == r[k]);
    assert(walk(n, p, s, w.take(j), rr[kk].0 as int));
}

/// One more repetition: `w` is `n - 1` repetitions and then one word of
/// the repeated expression.
pub proof fn lemma_reps_last(e: Expr, n: int, w: Seq<Seq<char>>) -> (j: int)
    requires
        n >= 1,
        describes_reps(e, n, w),
    ensures
        0 <= j <= w.len(),
        describes_reps(e, n - 1, w.take(j)),
        describes_piece(e, w.skip(j)),
{
    choose|j: int| 0 <= j <= w.len() && describes_reps(e, n - 1, #[trigger] w.take(j)) && describes_piece(e, w.skip(j))
}

/// Words of `base` or more repetitions lead from `s` to `t` when those of
/// `base` do and each further word of the repeated expression leads from
/// `t` back to `t`.
pub proof fn lemma_reps_loop(
    o: Seq<Vec<NfaEdge>>,
    n: Seq<Vec<NfaEdge>>,
    e: Expr,
    base: int,
    s: int,
    t: int,
    k: int,
    w: Seq<Seq<char>>,
)
    requires
        forall|u: Seq<Seq<char>>| #[trigger] describes_reps(e, base, u) ==> reach(o, n, s, u, t),
        forall|u: Seq<Seq<char>>| #[trigger] describes_piece(e, u) ==> reach(o, n, t, u, t),
        0 <= base <= k,
        describes_reps(e, k, w),
    ensures
        reach(o, n, s, w, t),
    decreases k,
{
    if k > base {
        let j = lemma_reps_last(e, k, w);
        lemma_reps_loop(o, n, e, base, s, t, k - 1, w.take(j));
        lemma_reach_concat(o, n, s, w.take(j), t, w.skip(j), t);
        assert(w.take(j) + w.skip(j) =~= w);
    }
}

/// Every word of `x` leaves state `s` of `b` through the dangling edges `r`,
/// over edges added after `a`.
pub open spec fn leaves(x: Expr, a: Seq<Vec<NfaEdge>>, b: Seq<Vec<NfaEdge>>, s: int, r: Seq<(usize, usize)>) -> bool {
    forall|u: Seq<Seq<char>>| #[trigger] describes(x, u) ==> exits(a, b, s, u, r)
}

/// Dangling edges may be added after the walk's automaton, with the
/// automaton growing meanwhile.
pub proof fn lemma_exits_extend(
    o: Seq<Vec<NfaEdge>>,
    a: Seq<Vec<NfaEdge>>,
    b: Seq<Vec<NfaEdge>>,
    s: int,
    w: Seq<Seq<char>>,
    r: Seq<(usize, usize)>,
    r2: Seq<(usize, usize)>,
)
    requires
        exits(o, a, s, w, r),
        edges_valid(r, a),
        keeps(a, b),
        all_fresh(a, r2),
    ensures
        exits(o, b, s, w, r + r2),
{
    let (p, k, j) = choose|p: Seq<(usize, usize)>, k: int, j: int|
        #![trigger walk(a, p, s, w.take(j), r[k].0 as int)]
        0 <= k < r.len() && 0 <= j <= w.len() && walk(a, p, s, w.take(j), r[k].0 as int) && all_new(o, p)
            && none_listed(p, r) && w.skip(j) == edge_word(edge_at(a, r[k]));
    lemma_walk_edges(a, p, s, w.take(j), r[k].0 as int);
    lemma_walk_keeps(a, b, p, s, w.take(j), r[k].0 as int);
    let rr = r + r2;
    assert forall|m: int| 0 <= m < p.len() implies !listed(rr, (#[trigger] p[m]).0 as int, p[m].1 as int) by {
        if listed(rr, p[m].0 as int, p[m].1 as int) {
            let q = choose|q: int| 0 <= q < rr.len() && rr[q].0 == p[m].0 as int && rr[q].1 == p[m].1 as int;
            if q < r.len() {
                assert(rr[q] == r[q]);
                assert(listed(r, p[m].0 as int, p[m].1 as int));
            } else {
                assert(rr[q] == r2[q - r.len()]);
                assert(is_edge(a, p[m]));
                lemma_not_listed(a, p[m], r2);
                assert(listed(r2, p[m].0 as int, p[m].1 as int));
            }
        }
    }
    assert(rr[k] == r[k]);
    assert(a[r[k].0 as int]@.len() <= b[r[k].0 as int]@.len());
    assert(b[r[k].0 as int]@[r[k].1 as int] == a[r[k].0 as int]@[r[k].1 as int]);
    assert(walk(b, p, s, w.take(j), rr[k].0 as int));
}

/// Repeating once: the one word of a single repetition.
pub proof fn lemma_reps_one(e: Expr, u: Seq<Seq<char>>)
    requires
        describes_reps(e, 1, u),
    ensures
        describes_piece(e, u),
{
    let j = lemma_reps_last(e, 1, u);
    assert(u.take(j).len() == 0);
    assert(u.skip(j) =~= u);
}

/// The automaton of a starred expression: an unlabelled edge `e1` from
/// `from` to a fresh loop state, the repeated expression compiled at the
/// loop state and led back to it, and a dangling unlabelled edge `e2` out
/// of the loop state.
pub proof fn lemma_star_words(
    o: Seq<Vec<NfaEdge>>,
    s2: Seq<Vec<NfaEdge>>,
    s3: Seq<Vec<NfaEdge>>,
    s4: Seq<Vec<NfaEdge>>,
    f: Seq<Vec<NfaEdge>>,
    e: Expr,
    from: int,
    lp: int,
    e1: (usize, usize),
    e2: (usize, usize),
    inner: Seq<(usize, usize)>,
)
    requires
        e is Star,
        keeps(o, s2),
        keeps(s2, s3),
        keeps(s4, f),
        is_edge(s2, e1),
        e1.0 == from,
        e1.0 >= o.len() || e1.1 >= o[e1.0 as int]@.len(),
        edge_at(s2, e1).term is None,
        edge_at(s2, e1).to == lp,
        leaves(repeated_expr(e), s2, s3, lp, inner),
        edges_valid(inner, s3),
        all_fresh(s2, inner),
        connected(s3, s4, inner, lp),
        is_edge(f, e2),
        e2.0 == lp,
        e2.0 >= s4.len() || e2.1 >= s4[e2.0 as int]@.len(),
        edge_at(f, e2).term is None,
    ensures
        leaves(e, o, f, from, seq![e2]),
{
    assert forall|u: Seq<Seq<char>>| #[trigger] describes_piece(e, u) implies reach(o, s4, lp, u, lp) by {
        assert(describes(repeated_expr(e), u));
        lemma_close(s2, s3, s4, lp, u, inner, lp);
        lemma_reach_mono(o, s2, s4, lp, u, lp);
    }
    assert forall|u: Seq<Seq<char>>| #[trigger] describes_reps(e, 0, u) implies reach(o, s4, lp, u, lp) by {
        assert(u =~= seq![]);
        lemma_reach_empty(o, s4, lp);
    }
    lemma_reach_edge(o, s2, e1);
    assert(edge_word(edge_at(s2, e1)) =~= seq![]);
    lemma_reach_connect(o, s2, s3, s4, from, seq![], lp, inner, lp);
    assert forall|w: Seq<Seq<char>>| #[trigger] describes(e, w) implies exits(o, f, from, w, seq![e2]) by {
        let n = choose|n: int| #[trigger] is_count(n) && describes_reps(e, n, w);
        lemma_reps_loop(o, s4, e, 0, lp, lp, n, w);
        lemma_reach_concat(o, s4, from, seq![], lp, w, lp);
        assert(seq![] + w =~= w);
        lemma_exits_end(o, s4, f, from, w, e2);
    }
}

/// The expression that `e` repeats, or `e` itself.
pub open spec fn repeated_expr(e: Expr) -> Expr {
    match e {
        Expr::Star(x) => *x,
        Expr::Plus(x) => *x,
        Expr::Range { expr: x, .. } => *x,
        _ => e,
    }
}

/// The automaton of a plus: the repeated expression compiled at `from` and
/// led to a fresh loop state, compiled again at the loop state and led back
/// to it, and a dangling unlabelled edge `ex` out of the loop state.
pub proof fn lemma_plus_words(
    o: Seq<Vec<NfaEdge>>,
    s1: Seq<Vec<NfaEdge>>,
    s2: Seq<Vec<NfaEdge>>,
    s3: Seq<Vec<NfaEdge>>,
    s4: Seq<Vec<NfaEdge>>,
    s5: Seq<Vec<NfaEdge>>,
    f: Seq<Vec<NfaEdge>>,
    e: Expr,
    from: int,
    lp: int,
    r1: Seq<(usize, usize)>,
    r2: Seq<(usize, usize)>,
    ex: (usize, usize),
)
    requires
        e is Plus,
        keeps(o, s1),
        leaves(repeated_expr(e), s1, s2, from, r1),
        keeps(s1, s2),
        edges_valid(r1, s2),
        all_fresh(s1, r1),
        connected(s2, s3, r1, lp),
        keeps(o, s3),
        leaves(repeated_expr(e), s3, s4, lp, r2),
        keeps(s3, s4),
        edges_valid(r2, s4),
        all_fresh(s3, r2),
        connected(s4, s5, r2, lp),
        keeps(s5, f),
        is_edge(f, ex),
        ex.0 == lp,
        ex.0 >= s5.len() || ex.1 >= s5[ex.0 as int]@.len(),
        edge_at(f, ex).term is None,
    ensures
        leaves(e, o, f, from, seq![ex]),
{
    assert forall|u: Seq<Seq<char>>| #[trigger] describes_reps(e, 1, u) implies reach(o, s5, from, u, lp) by {
        lemma_reps_one(e, u);
        assert(describes(repeated_expr(e), u));
        lemma_close(s1, s2, s3, from, u, r1, lp);
        lemma_reach_mono(o, s1, s3, from, u, lp);
        lemma_reach_connect(o, s3, s4, s5, from, u, lp, r2, lp);
    }
    assert forall|u: Seq<Seq<char>>| #[trigger] describes_piece(e, u) implies reach(o, s5, lp, u, lp) by {
        assert(describes(repeated_expr(e), u));
        lemma_close(s3, s4, s5, lp, u, r2, lp);
        lemma_reach_mono(o, s3, s5, lp, u, lp);
    }
    assert forall|w: Seq<Seq<char>>| #[trigger] describes(e, w) implies exits(o, f, from, w, seq![ex]) by {
        let n = choose|n: int| #[trigger] is_count(n) && n >= 1 && describes_reps(e, n, w);
        lemma_reps_loop(o, s5, e, 1, from, lp, n, w);
        lemma_exits_end(o, s5, f, from, w, ex);
    }
}

/// The automaton of an option: a dangling unlabelled edge `ex` out of
/// `from`, then the expression compiled at `from`.
pub proof fn lemma_opt_words(
    o: Seq<Vec<NfaEdge>>,
    s1: Seq<Vec<NfaEdge>>,
    f: Seq<Vec<NfaEdge>>,
    x: Expr,
    from: int,
    ex: (usize, usize),
    sub: Seq<(usize, usize)>,
)
    requires
        keeps(o, s1),
        is_edge(s1, ex),
        ex.0 == from,
        ex.0 >= o.len() || ex.1 >= o[ex.0 as int]@.len(),
        edge_at(s1, ex).term is None,
        leaves(x, s1, f, from, sub),
        keeps(s1, f),
        all_fresh(s1, sub),
    ensures
        forall|w: Seq<Seq<char>>| w.len() == 0 || describes(x, w) ==> #[trigger] exits(o, f, from, w, seq![ex] + sub),
{
    assert forall|w: Seq<Seq<char>>| w.len() == 0 || describes(x, w) implies #[trigger] exits(o, f, from, w, seq![ex] + sub) by {
        if describes(x, w) {
            lemma_exits_prefix(o, s1, f, from, w, seq![ex], sub);
        } else {
            assert(w =~= seq![]);
            lemma_reach_empty(o, o, from);
            crate::automaton::lemma_keeps_change(o, o);
            lemma_exits_end(o, o, s1, from, w, ex);
            lemma_exits_extend(o, s1, f, from, w, seq![ex], sub);
        }
    }
}

/// One step of a sequence: the words of the first `k + 1` items lead from
/// `from` to `next`, once the dangling edges `r` of item `k` lead there.
pub proof fn lemma_seq_step(
    o: Seq<Vec<NfaEdge>>,
    a: Seq<Vec<NfaEdge>>,
    b: Seq<Vec<NfaEdge>>,
    c: Seq<Vec<NfaEdge>>,
    d: Seq<Vec<NfaEdge>>,
    e: Expr,
    k: int,
    from: int,
    cur: int,
    next: int,
    r: Seq<(usize, usize)>,
)
    requires
        e matches Expr::Sequence(es) && 0 <= k < es@.len() && leaves(es@[k], a, b, cur, r),
        forall|u: Seq<Seq<char>>| #[trigger] describes_prefix(e, k, u) ==> reach(o, a, from, u, cur),
        keeps(o, a),
        keeps(a, b),
        keeps(b, c),
        edges_valid(r, b),
        all_fresh(a, r),
        connected(c, d, r, next),
    ensures
        forall|u: Seq<Seq<char>>| #[trigger] describes_prefix(e, k + 1, u) ==> reach(o, d, from, u, next),
{
    crate::automaton::lemma_keeps_trans(a, b, c);
    assert forall|u: Seq<Seq<char>>| #[trigger] describes_prefix(e, k + 1, u) implies reach(o, d, from, u, next) by {
        let es = e->Sequence_0;
        let j = choose|j: int| 0 <= j <= u.len() && describes_prefix(e, k, #[trigger] u.take(j)) && describes(es@[k], u.skip(j));
        lemma_reach_connect(o, a, c, d, from, u.take(j), cur, r, next);
        lemma_exits_keeps(a, b, c, cur, u.skip(j), r);
        lemma_close(a, c, d, cur, u.skip(j), r, next);
        lemma_reach_mono(o, a, d, cur, u.skip(j), next);
        lemma_reach_concat(o, d, from, u.take(j), cur, u.skip(j), next);
        assert(u.take(j) + u.skip(j) =~= u);
    }
}

/// The last item of a sequence: the words of the whole sequence leave
/// through the dangling edges of the last item.
pub proof fn lemma_seq_last(
    o: Seq<Vec<NfaEdge>>,
    a: Seq<Vec<NfaEdge>>,
    b: Seq<Vec<NfaEdge>>,
    e: Expr,
    from: int,
    cur: int,
    r: Seq<(usize, usize)>,
)
    requires
        e matches Expr::Sequence(es) && es@.len() > 0 && leaves(es@[es@.len() - 1], a, b, cur, r),
        forall|u: Seq<Seq<char>>| #[trigger] describes_prefix(e, (e->Sequence_0)@.len() - 1, u) ==> reach(o, a, from, u, cur),
        keeps(o, a),
        keeps(a, b),
        all_fresh(a, r),
    ensures
        leaves(e, o, b, from, r),
{
    let es = e->Sequence_0;
    let k = es@.len() - 1;
    assert forall|w: Seq<Seq<char>>| #[trigger] describes(e, w) implies exits(o, b, from, w, r) by {
        assert(describes_prefix(e, k + 1, w));
        let j = choose|j: int| 0 <= j <= w.len() && describes_prefix(e, k, #[trigger] w.take(j)) && describes(es@[k], w.skip(j));
        lemma_reach_exits(o, a, b, from, w.take(j), cur, w.skip(j), r);
        assert(w.take(j) + w.skip(j) =~= w);
    }
}

/// One repetition more: the words of `k + 1` repetitions lead from `from`
/// to `next`, once the dangling edges `r` of the repeated expression,
/// compiled at `cur`, lead there.
pub proof fn lemma_reps_step(
    o: Seq<Vec<NfaEdge>>,
    a: Seq<Vec<NfaEdge>>,
    b: Seq<Vec<NfaEdge>>,
    c: Seq<Vec<NfaEdge>>,
    e: Expr,
    k: int,
    from: int,
    cur: int,
    next: int,
    r: Seq<(usize, usize)>,
)
    requires
        e is Range,
        k >= 0,
        leaves(repeated_expr(e), a, b, cur, r),
        reach_reps(o, a, e, k, from, cur),
        keeps(o, a),
        keeps(a, b),
        edges_valid(r, b),
        all_fresh(a, r),
        connected(b, c, r, next),
    ensures
        reach_reps(o, c, e, k + 1, from, next),
{
    assert forall|u: Seq<Seq<char>>| #[trigger] describes_reps(e, k + 1, u) implies reach(o, c, from, u, next) by {
        let j = lemma_reps_last(e, k + 1, u);
        assert(describes(repeated_expr(e), u.skip(j)));
        lemma_reach_connect(o, a, b, c, from, u.take(j), cur, r, next);
        lemma_close(a, b, c, cur, u.skip(j), r, next);
        lemma_reach_mono(o, a, c, cur, u.skip(j), next);
        lemma_reach_concat(o, c, from, u.take(j), cur, u.skip(j), next);
        assert(u.take(j) + u.skip(j) =~= u);
    }
}

/// The words of `k` repetitions of `e` lead from `from` to `t`.
pub open spec fn reach_reps(o: Seq<Vec<NfaEdge>>, n: Seq<Vec<NfaEdge>>, e: Expr, k: int, from: int, t: int) -> bool {
    forall|u: Seq<Seq<char>>| #[trigger] describes_reps(e, k, u) ==> reach(o, n, from, u, t)
}

/// The words of `lo` to `hi` repetitions of `e` lead from `from` to `t`.
pub open spec fn reach_reps_upto(o: Seq<Vec<NfaEdge>>, n: Seq<Vec<NfaEdge>>, e: Expr, lo: int, hi: int, from: int, t: int) -> bool {
    forall|u: Seq<Seq<char>>, m: int| #[trigger] describes_reps(e, m, u) && lo <= m <= hi ==> reach(o, n, from, u, t)
}

/// An optional repetition more: an unlabelled edge `skip` from `cur` to
/// `next`, or the repeated expression compiled at `cur` and led to `next`.
pub proof fn lemma_reps_upto_step(
    o: Seq<Vec<NfaEdge>>,
    a: Seq<Vec<NfaEdge>>,
    b: Seq<Vec<NfaEdge>>,
    c: Seq<Vec<NfaEdge>>,
    d: Seq<Vec<NfaEdge>>,
    e: Expr,
    lo: int,
    k: int,
    from: int,
    cur: int,
    next: int,
    skip: (usize, usize),
    r: Seq<(usize, usize)>,
)
    requires
        e is Range,
        0 <= lo <= k,
        reach_reps_upto(o, a, e, lo, k, from, cur),
        keeps(o, a),
        keeps(a, b),
        is_edge(b, skip),
        skip.0 == cur,
        skip.0 >= o.len() || skip.1 >= o[skip.0 as int]@.len(),
        edge_at(b, skip).term is None,
        edge_at(b, skip).to == next,
        leaves(repeated_expr(e), b, c, cur, r),
        keeps(b, c),
        edges_valid(r, c),
        all_fresh(b, r),
        connected(c, d, r, next),
    ensures
        reach_reps_upto(o, d, e, lo, k + 1, from, next),
{
    lemma_reach_edge(o, b, skip);
    assert(edge_word(edge_at(b, skip)) =~= seq![]);
    crate::automaton::lemma_keeps_trans(o, a, b);
    assert forall|u: Seq<Seq<char>>, m: int| #[trigger] describes_reps(e, m, u) && lo <= m <= k + 1 implies reach(o, d, from, u, next) by {
        if m <= k {
            lemma_reach_keeps(o, a, b, from, u, cur);
            lemma_reach_concat(o, b, from, u, cur, seq![], next);
            assert(u + seq![] =~= u);
            lemma_reach_connect(o, b, c, d, from, u, next, r, next);
        } else {
            let j = lemma_reps_last(e, m, u);
            assert(describes(repeated_expr(e), u.skip(j)));
            assert(describes_reps(e, k, u.take(j)));
            lemma_reach_keeps(o, a, b, from, u.take(j), cur);
            lemma_reach_connect(o, b, c, d, from, u.take(j), cur, r, next);
            lemma_close(b, c, d, cur, u.skip(j), r, next);
            lemma_reach_mono(o, b, d, cur, u.skip(j), next);
            lemma_reach_concat(o, d, from, u.take(j), cur, u.skip(j), next);
            assert(u.take(j) + u.skip(j) =~= u);
        }
    }
}

/// An open range: `lo` repetitions lead from `from` to `cur`, and the
/// repeated expression, compiled at `cur`, leads back to `cur`.
pub proof fn lemma_range_open(
    o: Seq<Vec<NfaEdge>>,
    a: Seq<Vec<NfaEdge>>,
    b: Seq<Vec<NfaEdge>>,
    c: Seq<Vec<NfaEdge>>,
    e: Expr,
    from: int,
    cur: int,
    r: Seq<(usize, usize)>,
)
    requires
        e matches Expr::Range { min, max, .. } && max is None && reach_reps(o, a, e, min as int, from, cur),
        keeps(o, a),
        leaves(repeated_expr(e), a, b, cur, r),
        keeps(a, b),
        edges_valid(r, b),
        all_fresh(a, r),
        connected(b, c, r, cur),
    ensures
        forall|w: Seq<Seq<char>>| #[trigger] describes(e, w) ==> reach(o, c, from, w, cur),
{
    let lo = (e->min) as int;
    assert forall|u: Seq<Seq<char>>| #[trigger] describes_reps(e, lo, u) implies reach(o, c, from, u, cur) by {
        lemma_reach_connect(o, a, b, c, from, u, cur, r, cur);
    }
    assert forall|u: Seq<Seq<char>>| #[trigger] describes_piece(e, u) implies reach(o, c, cur, u, cur) by {
        assert(describes(repeated_expr(e), u));
        lemma_close(a, b, c, cur, u, r, cur);
        lemma_reach_mono(o, a, c, cur, u, cur);
    }
    assert forall|w: Seq<Seq<char>>| #[trigger] describes(e, w) implies reach(o, c, from, w, cur) by {
        let n = choose|n: int| #[trigger] is_count(n) && lo <= n && describes_reps(e, n, w);
        lemma_reps_loop(o, c, e, lo, from, cur, n, w);
    }
}

/// The tree of a content expression, as a value.
pub enum ExprV {
    Name(Arc<NodeType>),
    Choice(Seq<ExprV>),
    Sequence(Seq<ExprV>),
    Plus(Box<ExprV>),
    Star(Box<ExprV>),
    Opt(Box<ExprV>),
    Range { min: nat, max: Option<nat>, expr: Box<ExprV> },
}

/// The value of an expression tree.
pub open spec fn expr_view(e: Expr) -> ExprV
    decreases e, 1int, 0int,
{
    match e {
        Expr::Name(t) => ExprV::Name(t),
        Expr::Choice(es) => ExprV::Choice(children_view(e, es@.len() as int)),
        Expr::Sequence(es) => ExprV::Sequence(children_view(e, es@.len() as int)),
        Expr::Plus(x) => ExprV::Plus(Box::new(expr_view(*x))),
        Expr::Star(x) => ExprV::Star(Box::new(expr_view(*x))),
        Expr::Opt(x) => ExprV::Opt(Box::new(expr_view(*x))),
        Expr::Range { min, max, expr } => ExprV::Range {
            min: min as nat,
            max: match max {
                Some(m) => Some(m as nat),
                None => None,
            },
            expr: Box::new(expr_view(*expr)),
        },
    }
}

/// The values of the first `k` children of a choice or sequence.
pub open spec fn children_view(e: Expr, k: int) -> Seq<ExprV>
    decreases e, 0int, k,
{
    match e {
        Expr::Choice(es) => if k <= 0 || k > es@.len() {
            seq![]
        } else {
            children_view(e, k - 1).push(expr_view(es@[k - 1]))
        },
        Expr::Sequence(es) => if k <= 0 || k > es@.len() {
            seq![]
        } else {
            children_view(e, k - 1).push(expr_view(es@[k - 1]))
        },
        _ => seq![],
    }
}

/// The children of a choice or sequence, as a list.
pub open spec fn children(e: Expr) -> Seq<Expr> {
    match e {
        Expr::Choice(es) => es@,
        Expr::Sequence(es) => es@,
        _ => seq![],
    }
}

/// The values of the children are those of the first `k` children.
pub proof fn lemma_children_view(e: Expr, k: int)
    requires
        e is Choice || e is Sequence,
        0 <= k <= children(e).len(),
    ensures
        children_view(e, k).len() == k,
        forall|i: int| 0 <= i < k ==> #[trigger] children_view(e, k)[i] == expr_view(children(e)[i]),
    decreases k,
{
    if k > 0 {
        lemma_children_view(e, k - 1);
    }
}

/// `w` is a word that the expression tree `v` describes.
pub open spec fn words(v: ExprV, w: Seq<Seq<char>>) -> bool
    decreases v, 2int, 0int,
{
    match v {
        ExprV::Name(t) => w == seq![t.name@],
        ExprV::Choice(vs) => exists|i: int| 0 <= i < vs.len() && words(#[trigger] vs[i], w),
        ExprV::Sequence(vs) => words_prefix(v, vs.len() as int, w),
        ExprV::Star(_) => exists|n: int| #[trigger] is_count(n) && words_reps(v, n, w),
        ExprV::Plus(_) => exists|n: int| #[trigger] is_count(n) && n >= 1 && words_reps(v, n, w),
        ExprV::Opt(x) => w.len() == 0 || words(*x, w),
        ExprV::Range { min, max, .. } => exists|n: int|
            #[trigger] is_count(n) && min <= n && (max matches Some(m) ==> n <= m) && words_reps(v, n, w),
    }
}

/// `w` is described by the first `k` items of the sequence `v`, one after
/// the other.
pub open spec fn words_prefix(v: ExprV, k: int, w: Seq<Seq<char>>) -> bool
    decreases v, 1int, k,
{
    match v {
        ExprV::Sequence(vs) => if k <= 0 {
            w.len() == 0
        } else if k > vs.len() {
            false
        } else {
            exists|j: int| 0 <= j <= w.len() && words_prefix(v, k - 1, #[trigger] w.take(j)) && words(vs[k - 1], w.skip(j))
        },
        _ => false,
    }
}

/// `w` is `n` words, one after the other, each described by the expression
/// that `v` repeats.
pub open spec fn words_reps(v: ExprV, n: int, w: Seq<Seq<char>>) -> bool
    decreases v, 1int, n,
{
    if n <= 0 {
        w.len() == 0
    } else {
        exists|j: int| 0 <= j <= w.len() && words_reps(v, n - 1, #[trigger] w.take(j)) && words_piece(v, w.skip(j))
    }
}

/// `w` is described by the expression that `v` repeats.
pub open spec fn words_piece(v: ExprV, w: Seq<Seq<char>>) -> bool
    decreases v, 0int, 0int,
{
    match v {
        ExprV::Star(x) => words(*x, w),
        ExprV::Plus(x) => words(*x, w),
        ExprV::Range { expr: x, .. } => words(*x, w),
        _ => false,
    }
}

/// Every word of an expression tree's value is a word of the tree.
pub proof fn lemma_words_view(e: Expr, w: Seq<Seq<char>>)
    requires
        words(expr_view(e), w),
    ensures
        describes(e, w),
    decreases e, 2int, 0int,
{
    let v = expr_view(e);
    match e {
        Expr::Name(t) => {},
        Expr::Choice(es) => {
            lemma_children_view(e, es@.len() as int);
            let vs = children_view(e, es@.len() as int);
            let i = choose|i: int| 0 <= i < vs.len() && words(#[trigger] vs[i], w);
            assert(vs[i] == expr_view(es@[i]));
            lemma_words_view(es@[i], w);
        },
        Expr::Sequence(es) => {
            lemma_children_view(e, es@.len() as int);
            lemma_prefix_view(e, es@.len() as int, w);
        },
        Expr::Star(x) => {
            let n = choose|n: int| #[trigger] is_count(n) && words_reps(v, n, w);
            lemma_reps_view(e, n, w);
        },
        Expr::Plus(x) => {
            let n = choose|n: int| #[trigger] is_count(n) && n >= 1 && words_reps(v, n, w);
            lemma_reps_view(e, n, w);
        },
        Expr::Opt(x) => {
            if w.len() > 0 {
                lemma_words_view(*x, w);
            }
        },
        Expr::Range { min, max, expr } => {
            let n = choose|n: int| #[trigger] is_count(n) && min <= n && (max matches Some(m) ==> n <= m) && words_reps(v, n, w);
            lemma_reps_view(e, n, w);
        },
    }
}

/// Every word of the first `k` items' values is one of the first `k`
/// items.
pub proof fn lemma_prefix_view(e: Expr, k: int, w: Seq<Seq<char>>)
    requires
        e is Sequence,
        0 <= k <= children(e).len(),
        words_prefix(expr_view(e), k, w),
    ensures
        describes_prefix(e, k, w),
    decreases e, 1int, k,
{
    let es = children(e);
    let v = expr_view(e);
    lemma_children_view(e, es.len() as int);
    if k > 0 {
        let vs = children_view(e, es.len() as int);
        assert(vs[k - 1] == expr_view(es[k - 1]));
        let j = choose|j: int| 0 <= j <= w.len() && words_prefix(v, k - 1, #[trigger] w.take(j)) && words(vs[k - 1], w.skip(j));
        lemma_prefix_view(e, k - 1, w.take(j));
        lemma_words_view(es[k - 1], w.skip(j));
    }
}

/// Every word of `n` repetitions of the value is one of `n` repetitions.
pub proof fn lemma_reps_view(e: Expr, n: int, w: Seq<Seq<char>>)
    requires
        e is Star || e is Plus || e is Range,
        words_reps(expr_view(e), n, w),
    ensures
        describes_reps(e, n, w),
    decreases e, 1int, n,
{
    let v = expr_view(e);
    if n > 0 {
        let j = choose|j: int| 0 <= j <= w.len() && words_reps(v, n - 1, #[trigger] w.take(j)) && words_piece(v, w.skip(j));
        lemma_reps_view(e, n - 1, w.take(j));
        lemma_piece_view(e, w.skip(j));
    }
}

/// Every word of the repeated value is one of the repeated expression.
pub proof fn lemma_piece_view(e: Expr, w: Seq<Seq<char>>)
    requires
        e is Star || e is Plus || e is Range,
        words_piece(expr_view(e), w),
    ensures
        describes_piece(e, w),
    decreases e, 0int, 0int,
{
    match e {
        Expr::Star(x) => lemma_words_view(*x, w),
        Expr::Plus(x) => lemma_words_view(*x, w),
        Expr::Range { expr: x, .. } => lemma_words_view(*x, w),
        _ => {},
    }
}


/// The expression tree has no range that may repeat without end from zero
/// times, and no range whose most is below its least.
pub open spec fn exact_v(v: ExprV) -> bool
    decreases v,
{
    match v {
        ExprV::Name(_) => true,
        ExprV::Choice(vs) => forall|i: int| 0 <= i < vs.len() ==> exact_v(#[trigger] vs[i]),
        ExprV::Sequence(vs) => forall|i: int| 0 <= i < vs.len() ==> exact_v(#[trigger] vs[i]),
        ExprV::Plus(x) => exact_v(*x),
        ExprV::Star(x) => exact_v(*x),
        ExprV::Opt(x) => exact_v(*x),
        ExprV::Range { min, max, expr } => {
            &&& (max matches Some(m) ==> min <= m)
            &&& (max is None ==> min > 0)
            &&& exact_v(*expr)
        },
    }
}

/// The condition on the value is the condition on the tree.
pub proof fn lemma_exact_view(e: Expr)
    requires
        exact_v(expr_view(e)),
    ensures
        crate::only_words::exact_ok(e),
    decreases e,
{
    match e {
        Expr::Choice(es) => {
            lemma_children_view(e, es@.len() as int);
            let vs = children_view(e, es@.len() as int);
            let v = ExprV::Choice(vs);
            assert(expr_view(e) == v);
            assert forall|i: int| 0 <= i < es@.len() implies crate::only_words::exact_ok(#[trigger] es@[i]) by {
                lemma_exact_item(v, i);
                assert(vs[i] == expr_view(es@[i]));
                lemma_exact_view(es@[i]);
            }
        },
        Expr::Sequence(es) => {
            lemma_children_view(e, es@.len() as int);
            let vs = children_view(e, es@.len() as int);
            let v = ExprV::Sequence(vs);
            assert(expr_view(e) == v);
            assert forall|i: int| 0 <= i < es@.len() implies crate::only_words::exact_ok(#[trigger] es@[i]) by {
                lemma_exact_item(v, i);
                assert(vs[i] == expr_view(es@[i]));
                lemma_exact_view(es@[i]);
            }
        },
        Expr::Plus(x) => lemma_exact_view(*x),
        Expr::Star(x) => lemma_exact_view(*x),
        Expr::Opt(x) => lemma_exact_view(*x),
        Expr::Range { expr, .. } => lemma_exact_view(*expr),
        Expr::Name(_) => {},
    }
}

/// Every word of an expression tree is a word of its value.
pub proof fn lemma_view_words(e: Expr, w: Seq<Seq<char>>)
    requires
        describes(e, w),
    ensures
        words(expr_view(e), w),
    decreases e, 2int, 0int,
{
    let v = expr_view(e);
    match e {
        Expr::Name(t) => {},
        Expr::Choice(es) => {
            lemma_children_view(e, es@.len() as int);
            let vs = children_view(e, es@.len() as int);
            let i = choose|i: int| 0 <= i < es@.len() && describes(#[trigger] es@[i], w);
            assert(vs[i] == expr_view(es@[i]));
            lemma_view_words(es@[i], w);
            assert(v == ExprV::Choice(vs));
            lemma_words_alt(v, i, w);
        },
        Expr::Sequence(es) => {
            lemma_children_view(e, es@.len() as int);
            lemma_view_prefix(e, es@.len() as int, w);
            assert(v == ExprV::Sequence(children_view(e, es@.len() as int)));
        },
        Expr::Star(x) => {
            let n = choose|n: int| #[trigger] is_count(n) && describes_reps(e, n, w);
            lemma_view_reps(e, n, w);
            assert(is_count(n) && words_reps(v, n, w));
        },
        Expr::Plus(x) => {
            let n = choose|n: int| #[trigger] is_count(n) && n >= 1 && describes_reps(e, n, w);
            lemma_view_reps(e, n, w);
            assert(is_count(n) && words_reps(v, n, w));
        },
        Expr::Opt(x) => {
            if w.len() > 0 {
                lemma_view_words(*x, w);
            }
        },
        Expr::Range { min, max, expr } => {
            let n = choose|n: int| #[trigger] is_count(n) && min <= n && (max matches Some(m) ==> n <= m) && describes_reps(e, n, w);
            lemma_view_reps(e, n, w);
            assert(is_count(n) && words_reps(v, n, w));
        },
    }
}

/// Every word of the first `k` items is one of the first `k` items'
/// values.
pub proof fn lemma_view_prefix(e: Expr, k: int, w: Seq<Seq<char>>)
    requires
        e is Sequence,
        0 <= k <= children(e).len(),
        describes_prefix(e, k, w),
    ensures
        words_prefix(expr_view(e), k, w),
    decreases e, 1int, k,
{
    let es = children(e);
    let v = expr_view(e);
    lemma_children_view(e, es.len() as int);
    if k > 0 {
        let vs = children_view(e, es.len() as int);
        assert(vs[k - 1] == expr_view(es[k - 1]));
        let j = choose|j: int| 0 <= j <= w.len() && describes_prefix(e, k - 1, #[trigger] w.take(j)) && describes(es[k - 1], w.skip(j));
        lemma_view_prefix(e, k - 1, w.take(j));
        lemma_view_words(es[k - 1], w.skip(j));
    }
}

/// Every word of `n` repetitions is one of `n` repetitions of the value.
pub proof fn lemma_view_reps(e: Expr, n: int, w: Seq<Seq<char>>)
    requires
        e is Star || e is Plus || e is Range,
        describes_reps(e, n, w),
    ensures
        words_reps(expr_view(e), n, w),
    decreases e, 1int, n,
{
    if n > 0 {
        let j = choose|j: int| 0 <= j <= w.len() && describes_reps(e, n - 1, #[trigger] w.take(j)) && describes_piece(e, w.skip(j));
        lemma_view_reps(e, n - 1, w.take(j));
        lemma_view_piece(e, w.skip(j));
    }
}

/// Every word of the repeated expression is one of the repeated value.
pub proof fn lemma_view_piece(e: Expr, w: Seq<Seq<char>>)
    requires
        e is Star || e is Plus || e is Range,
        describes_piece(e, w),
    ensures
        words_piece(expr_view(e), w),
    decreases e, 0int, 0int,
{
    match e {
        Expr::Star(x) => lemma_view_words(*x, w),
        Expr::Plus(x) => lemma_view_words(*x, w),
        Expr::Range { expr: x, .. } => lemma_view_words(*x, w),
        _ => {},
    }
}



/// An item of a choice or sequence that meets `exact_v` meets it.
proof fn lemma_exact_item(v: ExprV, i: int)
    requires
        v is Choice || v is Sequence,
        exact_v(v),
        0 <= i < (match v {
            ExprV::Choice(vs) => vs.len(),
            ExprV::Sequence(vs) => vs.len(),
            _ => 0,
        }),
    ensures
        match v {
            ExprV::Choice(vs) => exact_v(vs[i]),
            ExprV::Sequence(vs) => exact_v(vs[i]),
            _ => true,
        },
{
    match v {
        ExprV::Choice(vs) => {
            assert(decreases_to!(v => vs));
            assert(decreases_to!(vs => vs[i]));
        },
        ExprV::Sequence(vs) => {
            assert(decreases_to!(v => vs));
            assert(decreases_to!(vs => vs[i]));
        },
        _ => {},
    }
}

/// A word of an alternative is a word of the choice.
proof fn lemma_words_alt(v: ExprV, i: int, w: Seq<Seq<char>>)
    requires
        v is Choice,
        0 <= i < v->Choice_0.len(),
        words(v->Choice_0[i], w),
    ensures
        words(v, w),
{
    match v {
        ExprV::Choice(vs) => {
            assert(decreases_to!(v => vs));
            assert(decreases_to!(vs => vs[i]));
        },
        _ => {},
    }
}

} // verus!
