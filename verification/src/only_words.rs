//! The nondeterministic automaton accepts only words of its expression.
//!
//! Each state is given a language (`d[s]`): every walk from the state to
//! the accepting state reads a word of it. An edge respects the languages
//! when prefixing what it reads to a word of its target's language gives a
//! word of its source's language; an edge still to be connected respects a
//! language `k` that its target will be given.
use vstd::prelude::*;

use crate::automaton::{NfaEdge, listed, keeps, all_fresh, edges_valid, nfa_wf};
use crate::content_expr::Expr;
use crate::language::{describes, describes_prefix, describes_reps, describes_piece, edge_word, walk, edge_at, is_count};

verus! {

/// A language: which words it holds.
pub type Lang = spec_fn(Seq<Seq<char>>) -> bool;

/// Edge `i` of state `s` was added after `a`.
pub open spec fn is_new(a: Seq<Vec<NfaEdge>>, s: int, i: int) -> bool {
    s >= a.len() || i >= a[s]@.len()
}

/// The edge `e` out of `s` respects the languages `d`.
pub open spec fn edge_good(d: Seq<Lang>, s: int, e: NfaEdge) -> bool {
    forall|w: Seq<Seq<char>>| #[trigger] (d[e.to as int])(w) ==> (d[s])(edge_word(e) + w)
}

/// The edge `e` out of `s`, still to be connected, respects the languages
/// `d` once its target is given the language `k`.
pub open spec fn pend_good(d: Seq<Lang>, s: int, e: NfaEdge, k: Lang) -> bool {
    forall|w: Seq<Seq<char>>| #[trigger] k(w) ==> (d[s])(edge_word(e) + w)
}

/// Every edge of `b` added after `a` respects `d`: those listed in `r` once
/// connected to a state of language `k`.
pub open spec fn conv_ok(a: Seq<Vec<NfaEdge>>, b: Seq<Vec<NfaEdge>>, d: Seq<Lang>, r: Seq<(usize, usize)>, k: Lang) -> bool {
    forall|s: int, i: int|
        0 <= s < b.len() && 0 <= i < b[s]@.len() && is_new(a, s, i) ==> if listed(r, s, i) {
            pend_good(d, s, #[trigger] b[s]@[i], k)
        } else {
            edge_good(d, s, b[s]@[i])
        }
}

/// As `conv_ok`, with two lists of edges still to be connected, each with
/// its language.
pub open spec fn conv2_ok(
    a: Seq<Vec<NfaEdge>>,
    b: Seq<Vec<NfaEdge>>,
    d: Seq<Lang>,
    r: Seq<(usize, usize)>,
    k: Lang,
    r2: Seq<(usize, usize)>,
    k2: Lang,
) -> bool {
    forall|s: int, i: int|
        0 <= s < b.len() && 0 <= i < b[s]@.len() && is_new(a, s, i) ==> if listed(r, s, i) {
            pend_good(d, s, #[trigger] b[s]@[i], k)
        } else if listed(r2, s, i) {
            pend_good(d, s, b[s]@[i], k2)
        } else {
            edge_good(d, s, b[s]@[i])
        }
}

/// `d2` gives the states of `d` their languages, and has one for each of
/// `n` states.
pub open spec fn ext_ok(d: Seq<Lang>, d2: Seq<Lang>, n: nat) -> bool {
    &&& d2.len() == n
    &&& d.len() <= n
    &&& forall|s: int| 0 <= s < d.len() ==> d2[s] == d[s]
}

/// The language of `from` holds every word of `e` followed by a word of `k`.
pub open spec fn start_ok(d: Seq<Lang>, a: Seq<Vec<NfaEdge>>, from: int, e: Expr, k: Lang) -> bool {
    &&& d.len() == a.len()
    &&& 0 <= from < a.len()
    &&& forall|u: Seq<Seq<char>>, v: Seq<Seq<char>>| #![trigger describes(e, u), k(v)] describes(e, u) && k(v) ==> (d[from])(u + v)
}

/// Whatever languages the states of `a` have, where `from`'s holds the
/// words of `e` followed by those of `k`, the states added in `b` can be
/// given languages that every new edge respects.
pub open spec fn conv_spec(a: Seq<Vec<NfaEdge>>, b: Seq<Vec<NfaEdge>>, from: int, e: Expr, r: Seq<(usize, usize)>) -> bool {
    forall|d: Seq<Lang>, k: Lang| #[trigger] start_ok(d, a, from, e, k) ==> exists|d2: Seq<Lang>|
        #[trigger] ext_ok(d, d2, b.len()) && conv_ok(a, b, d2, r, k)
}

/// The expression has no range that may repeat without end from zero
/// times, and no range whose most is below its least.
pub open spec fn exact_ok(e: Expr) -> bool
    decreases e,
{
    match e {
        Expr::Name(_) => true,
        Expr::Choice(es) => forall|i: int| 0 <= i < es@.len() ==> exact_ok(#[trigger] es@[i]),
        Expr::Sequence(es) => forall|i: int| 0 <= i < es@.len() ==> exact_ok(#[trigger] es@[i]),
        Expr::Plus(x) => exact_ok(*x),
        Expr::Star(x) => exact_ok(*x),
        Expr::Opt(x) => exact_ok(*x),
        Expr::Range { min, max, expr } => {
            &&& (max matches Some(m) ==> min <= m)
            &&& (max is None ==> min > 0)
            &&& exact_ok(*expr)
        },
    }
}

/// No edges added: every new edge respects any languages.
pub proof fn lemma_conv_none(a: Seq<Vec<NfaEdge>>, d: Seq<Lang>, k: Lang)
    ensures
        conv_ok(a, a, d, seq![], k),
{
}

/// A new state without edges keeps the new edges respecting the languages.
pub proof fn lemma_conv_state(a: Seq<Vec<NfaEdge>>, b: Seq<Vec<NfaEdge>>, b2: Seq<Vec<NfaEdge>>, d: Seq<Lang>, x: Lang, r: Seq<(usize, usize)>, k: Lang)
    requires
        conv_ok(a, b, d, r, k),
        nfa_wf(b),
        d.len() == b.len(),
        b2.len() == b.len() + 1,
        forall|s: int| 0 <= s < b.len() ==> b2[s] == b[s],
        b2[b.len() as int]@.len() == 0,
    ensures
        conv_ok(a, b2, d.push(x), r, k),
{
    let d2 = d.push(x);
    assert forall|s: int, i: int|
        0 <= s < b2.len() && 0 <= i < b2[s]@.len() && is_new(a, s, i) implies if listed(r, s, i) {
            pend_good(d2, s, #[trigger] b2[s]@[i], k)
        } else {
            edge_good(d2, s, b2[s]@[i])
        } by {
        assert(s < b.len());
        assert(b2[s] == b[s]);
        assert(b[s]@[i].to < b.len());
        assert(d2[s] == d[s]);
        assert(d2[b[s]@[i].to as int] == d[b[s]@[i].to as int]);
        if listed(r, s, i) {
            assert(pend_good(d, s, b[s]@[i], k));
        } else {
            assert(edge_good(d, s, b[s]@[i]));
        }
    }
}

/// An added edge that respects the languages, not to be connected later.
pub proof fn lemma_conv_edge(a: Seq<Vec<NfaEdge>>, b: Seq<Vec<NfaEdge>>, b2: Seq<Vec<NfaEdge>>, d: Seq<Lang>, r: Seq<(usize, usize)>, k: Lang, from: int, e: NfaEdge)
    requires
        conv_ok(a, b, d, r, k),
        edges_valid(r, b),
        0 <= from < b.len(),
        b2.len() == b.len(),
        b2[from]@ == b[from]@.push(e),
        forall|s: int| 0 <= s < b2.len() && s != from ==> b2[s] == b[s],
        from < a.len() ==> a[from]@.len() <= b[from]@.len(),
        edge_good(d, from, e),
    ensures
        conv_ok(a, b2, d, r, k),
{
    assert forall|s: int, i: int|
        0 <= s < b2.len() && 0 <= i < b2[s]@.len() && is_new(a, s, i) implies if listed(r, s, i) {
            pend_good(d, s, #[trigger] b2[s]@[i], k)
        } else {
            edge_good(d, s, b2[s]@[i])
        } by {
        if s == from && i == b[from]@.len() {
            if listed(r, s, i) {
                let q = choose|q: int| 0 <= q < r.len() && r[q].0 == s && r[q].1 == i;
                assert(r[q].1 < b[r[q].0 as int]@.len());
            }
        } else {
            assert(b2[s]@[i] == b[s]@[i]);
        }
    }
}

/// An added edge to be connected later to a state of language `k`.
pub proof fn lemma_conv_pending(a: Seq<Vec<NfaEdge>>, b: Seq<Vec<NfaEdge>>, b2: Seq<Vec<NfaEdge>>, d: Seq<Lang>, r: Seq<(usize, usize)>, k: Lang, from: usize, idx: usize, e: NfaEdge)
    requires
        conv_ok(a, b, d, r, k),
        edges_valid(r, b),
        from < b.len(),
        idx == b[from as int]@.len(),
        b2.len() == b.len(),
        b2[from as int]@ == b[from as int]@.push(e),
        forall|s: int| 0 <= s < b2.len() && s != from ==> b2[s] == b[s],
        pend_good(d, from as int, e, k),
    ensures
        conv_ok(a, b2, d, r.push((from, idx)), k),
{
    let r2 = r.push((from, idx));
    assert forall|s: int, i: int|
        0 <= s < b2.len() && 0 <= i < b2[s]@.len() && is_new(a, s, i) implies if listed(r2, s, i) {
            pend_good(d, s, #[trigger] b2[s]@[i], k)
        } else {
            edge_good(d, s, b2[s]@[i])
        } by {
        if s == from && i == idx {
            assert(r2[r.len() as int] == (from, idx));
            assert(b2[s]@[i] == e);
        } else {
            assert(b2[s]@[i] == b[s]@[i]);
            if listed(r2, s, i) {
                let q = choose|q: int| 0 <= q < r2.len() && r2[q].0 == s && r2[q].1 == i;
                if q == r.len() {
                    assert(r2[q] == (from, idx));
                }
                assert(q < r.len());
                assert(r2[q] == r[q]);
            }
            if listed(r, s, i) {
                let q = choose|q: int| 0 <= q < r.len() && r[q].0 == s && r[q].1 == i;
                assert(r2[q] == r[q]);
            }
        }
    }
}

/// The languages of a nested build, whose edges are new after `b`, join
/// those of the build around it.
pub proof fn lemma_conv_sub(
    a: Seq<Vec<NfaEdge>>,
    b: Seq<Vec<NfaEdge>>,
    c: Seq<Vec<NfaEdge>>,
    d1: Seq<Lang>,
    d2: Seq<Lang>,
    r: Seq<(usize, usize)>,
    k: Lang,
    r2: Seq<(usize, usize)>,
    k2: Lang,
)
    requires
        conv_ok(a, b, d1, r, k),
        conv_ok(b, c, d2, r2, k2),
        ext_ok(d1, d2, c.len()),
        d1.len() == b.len(),
        keeps(b, c),
        keeps(a, b),
        nfa_wf(b),
        edges_valid(r, b),
        all_fresh(b, r2),
    ensures
        conv2_ok(a, c, d2, r, k, r2, k2),
{
    assert forall|s: int, i: int|
        0 <= s < c.len() && 0 <= i < c[s]@.len() && is_new(a, s, i) implies if listed(r, s, i) {
            pend_good(d2, s, #[trigger] c[s]@[i], k)
        } else if listed(r2, s, i) {
            pend_good(d2, s, c[s]@[i], k2)
        } else {
            edge_good(d2, s, c[s]@[i])
        } by {
        if is_new(b, s, i) {
            if listed(r, s, i) {
                let q = choose|q: int| 0 <= q < r.len() && r[q].0 == s && r[q].1 == i;
                assert(r[q].1 < b[r[q].0 as int]@.len());
            }
            if listed(r2, s, i) {
                assert(pend_good(d2, s, c[s]@[i], k2));
            } else {
                assert(edge_good(d2, s, c[s]@[i]));
            }
        } else {
            if listed(r2, s, i) {
                let q = choose|q: int| 0 <= q < r2.len() && r2[q].0 == s && r2[q].1 == i;
                assert(r2[q].0 >= b.len() || r2[q].1 >= b[r2[q].0 as int]@.len());
            }
            assert(c[s]@[i] == b[s]@[i]);
            assert(b[s]@[i].to < b.len());
            assert(d2[s] == d1[s]);
            assert(d2[b[s]@[i].to as int] == d1[b[s]@[i].to as int]);
            if listed(r, s, i) {
                assert(pend_good(d1, s, b[s]@[i], k));
            } else {
                assert(edge_good(d1, s, b[s]@[i]));
            }
        }
    }
}

/// Two lists with one language are one list.
pub proof fn lemma_conv_join(a: Seq<Vec<NfaEdge>>, c: Seq<Vec<NfaEdge>>, d: Seq<Lang>, r: Seq<(usize, usize)>, k: Lang, r2: Seq<(usize, usize)>)
    requires
        conv2_ok(a, c, d, r, k, r2, k),
    ensures
        conv_ok(a, c, d, r + r2, k),
{
    assert forall|s: int, i: int|
        0 <= s < c.len() && 0 <= i < c[s]@.len() && is_new(a, s, i) implies if listed(r + r2, s, i) {
            pend_good(d, s, #[trigger] c[s]@[i], k)
        } else {
            edge_good(d, s, c[s]@[i])
        } by {
        if listed(r + r2, s, i) {
            let q = choose|q: int| 0 <= q < (r + r2).len() && (r + r2)[q].0 == s && (r + r2)[q].1 == i;
            if q < r.len() {
                assert((r + r2)[q] == r[q]);
            } else {
                assert((r + r2)[q] == r2[q - r.len()]);
            }
        } else {
            if listed(r, s, i) {
                let q = choose|q: int| 0 <= q < r.len() && r[q].0 == s && r[q].1 == i;
                assert((r + r2)[q] == r[q]);
            }
            if listed(r2, s, i) {
                let q = choose|q: int| 0 <= q < r2.len() && r2[q].0 == s && r2[q].1 == i;
                assert((r + r2)[q + r.len()] == r2[q]);
            }
        }
    }
}

/// Connecting the second list to a state of language within `k2` makes its
/// edges respect the languages.
pub proof fn lemma_conv_connect(
    a: Seq<Vec<NfaEdge>>,
    c: Seq<Vec<NfaEdge>>,
    c2: Seq<Vec<NfaEdge>>,
    d: Seq<Lang>,
    r: Seq<(usize, usize)>,
    k: Lang,
    r2: Seq<(usize, usize)>,
    k2: Lang,
    t: int,
)
    requires
        conv2_ok(a, c, d, r, k, r2, k2),
        c2.len() == c.len(),
        forall|s: int| 0 <= s < c2.len() ==> #[trigger] c2[s]@.len() == c[s]@.len(),
        forall|s: int, i: int| 0 <= s < c2.len() && 0 <= i < c2[s]@.len() ==> (#[trigger] c2[s]@[i]).term == c[s]@[i].term,
        forall|s: int, i: int| 0 <= s < c2.len() && 0 <= i < c2[s]@.len() ==> if listed(r2, s, i) {
            (#[trigger] c2[s]@[i]).to == t
        } else {
            c2[s]@[i] == c[s]@[i]
        },
        forall|w: Seq<Seq<char>>| #[trigger] (d[t])(w) ==> k2(w),
    ensures
        conv_ok(a, c2, d, r, k),
{
    assert forall|s: int, i: int|
        0 <= s < c2.len() && 0 <= i < c2[s]@.len() && is_new(a, s, i) implies if listed(r, s, i) {
            pend_good(d, s, #[trigger] c2[s]@[i], k)
        } else {
            edge_good(d, s, c2[s]@[i])
        } by {
        assert(c2[s]@.len() == c[s]@.len());
        assert(edge_word(c2[s]@[i]) == edge_word(c[s]@[i]));
        if listed(r, s, i) {
            if listed(r2, s, i) {
                assert(pend_good(d, s, c[s]@[i], k));
                assert forall|w: Seq<Seq<char>>| #[trigger] k(w) implies (d[s])(edge_word(c2[s]@[i]) + w) by {
                    assert((d[s])(edge_word(c[s]@[i]) + w));
                }
            } else {
                assert(c2[s]@[i] == c[s]@[i]);
            }
        } else if listed(r2, s, i) {
            assert(pend_good(d, s, c[s]@[i], k2));
            assert forall|w: Seq<Seq<char>>| #[trigger] (d[c2[s]@[i].to as int])(w) implies (d[s])(edge_word(c2[s]@[i]) + w) by {
                assert(k2(w));
                assert((d[s])(edge_word(c[s]@[i]) + w));
            }
        } else {
            assert(c2[s]@[i] == c[s]@[i]);
        }
    }
}

/// A walk to a state whose language holds the empty word reads a word of
/// the language of its first state, where every edge respects the
/// languages.
pub proof fn lemma_walk_in(n: Seq<Vec<NfaEdge>>, d: Seq<Lang>, p: Seq<(usize, usize)>, s: int, w: Seq<Seq<char>>, t: int)
    requires
        walk(n, p, s, w, t),
        forall|x: int, i: int| 0 <= x < n.len() && 0 <= i < n[x]@.len() ==> edge_good(d, x, #[trigger] n[x]@[i]),
        (d[t])(Seq::<Seq<char>>::empty()),
    ensures
        (d[s])(w),
    decreases p.len(),
{
    if p.len() == 0 {
        assert(w =~= Seq::<Seq<char>>::empty());
    } else {
        let ed = edge_at(n, p[0]);
        let len = edge_word(ed).len() as int;
        lemma_walk_in(n, d, p.drop_first(), ed.to as int, w.skip(len), t);
        assert(edge_good(d, s, n[s]@[p[0].1 as int]));
        assert(edge_word(ed) + w.skip(len) =~= w);
    }
}

/// One more piece after `n` pieces is `n + 1` pieces.
pub proof fn lemma_reps_push(e: Expr, n: int, p: Seq<Seq<char>>, u: Seq<Seq<char>>)
    requires
        n >= 0,
        describes_reps(e, n, p),
        describes_piece(e, u),
    ensures
        describes_reps(e, n + 1, p + u),
{
    let w = p + u;
    assert(w.take(p.len() as int) =~= p);
    assert(w.skip(p.len() as int) =~= u);
}

/// One more item after the first `k` items of a sequence.
pub proof fn lemma_prefix_push(e: Expr, k: int, p: Seq<Seq<char>>, u: Seq<Seq<char>>)
    requires
        e is Sequence,
        0 <= k < e->Sequence_0@.len(),
        describes_prefix(e, k, p),
        describes(e->Sequence_0@[k], u),
    ensures
        describes_prefix(e, k + 1, p + u),
{
    let w = p + u;
    assert(w.take(p.len() as int) =~= p);
    assert(w.skip(p.len() as int) =~= u);
}


/// Words that, after any `n` pieces of `e` with `lo <= n` (and `n <= hi`
/// where there is a most), give a word of `df`.
pub open spec fn reps_lang(df: Lang, e: Expr, lo: int, hi: Option<int>) -> Lang {
    |w: Seq<Seq<char>>| forall|n: int, p: Seq<Seq<char>>|
        #![trigger describes_reps(e, n, p)]
        lo <= n && (hi matches Some(h) ==> n <= h) && describes_reps(e, n, p) ==> df(p + w)
}

/// Words that, after the first `k` items of the sequence `e`, give a word
/// of `df`.
pub open spec fn after_prefix(df: Lang, e: Expr, k: int) -> Lang {
    |w: Seq<Seq<char>>| forall|p: Seq<Seq<char>>| #[trigger] describes_prefix(e, k, p) ==> df(p + w)
}

/// The edge `i` of `from` was added to `a`, giving `b`.
pub open spec fn added(a: Seq<Vec<NfaEdge>>, b: Seq<Vec<NfaEdge>>, from: usize, i: usize) -> bool {
    &&& from < a.len()
    &&& b.len() == a.len()
    &&& i == a[from as int]@.len()
    &&& b[from as int]@ == a[from as int]@.push(b[from as int]@[i as int])
    &&& forall|s: int| 0 <= s < b.len() && s != from ==> b[s] == a[s]
}

/// A state without edges was added to `a`, giving `b`.
pub open spec fn grown(a: Seq<Vec<NfaEdge>>, b: Seq<Vec<NfaEdge>>) -> bool {
    &&& b.len() == a.len() + 1
    &&& forall|s: int| 0 <= s < a.len() ==> b[s] == a[s]
    &&& b[a.len() as int]@.len() == 0
}

/// The edges `r` of `a` were pointed at `t`, giving `b`.
pub open spec fn joined_to(a: Seq<Vec<NfaEdge>>, b: Seq<Vec<NfaEdge>>, r: Seq<(usize, usize)>, t: int) -> bool {
    &&& b.len() == a.len()
    &&& forall|s: int| 0 <= s < b.len() ==> #[trigger] b[s]@.len() == a[s]@.len()
    &&& forall|s: int, i: int| 0 <= s < b.len() && 0 <= i < b[s]@.len() ==> (#[trigger] b[s]@[i]).term == a[s]@[i].term
    &&& forall|s: int, i: int| 0 <= s < b.len() && 0 <= i < b[s]@.len() ==> if listed(r, s, i) {
        (#[trigger] b[s]@[i]).to == t
    } else {
        b[s]@[i] == a[s]@[i]
    }
}

/// A nested build from `b` to `c` that starts where the words of `e2`
/// followed by those of `k2` are in the language, joined to the edges of
/// `a` to `b` respecting `d1`.
pub proof fn lemma_conv_nested(
    a: Seq<Vec<NfaEdge>>,
    b: Seq<Vec<NfaEdge>>,
    c: Seq<Vec<NfaEdge>>,
    d1: Seq<Lang>,
    r: Seq<(usize, usize)>,
    k: Lang,
    from2: int,
    e2: Expr,
    r2: Seq<(usize, usize)>,
    k2: Lang,
) -> (d2: Seq<Lang>)
    requires
        conv_ok(a, b, d1, r, k),
        conv_spec(b, c, from2, e2, r2),
        start_ok(d1, b, from2, e2, k2),
        keeps(b, c),
        keeps(a, b),
        nfa_wf(b),
        edges_valid(r, b),
        all_fresh(b, r2),
    ensures
        ext_ok(d1, d2, c.len()),
        conv2_ok(a, c, d2, r, k, r2, k2),
{
    let d2 = choose|d2: Seq<Lang>| #[trigger] ext_ok(d1, d2, c.len()) && conv_ok(b, c, d2, r2, k2);
    lemma_conv_sub(a, b, c, d1, d2, r, k, r2, k2);
    d2
}

/// A name: one edge, labelled, still to be connected.
pub proof fn lemma_name_conv(a: Seq<Vec<NfaEdge>>, b: Seq<Vec<NfaEdge>>, from: usize, idx: usize, e: Expr)
    requires
        e is Name,
        added(a, b, from, idx),
        edge_word(b[from as int]@[idx as int]) == seq![e->Name_0.name@],
    ensures
        conv_spec(a, b, from as int, e, seq![(from, idx)]),
{
    assert forall|d: Seq<Lang>, k: Lang| #[trigger] start_ok(d, a, from as int, e, k) implies exists|d2: Seq<Lang>|
        #[trigger] ext_ok(d, d2, b.len()) && conv_ok(a, b, d2, seq![(from, idx)], k) by {
        let ed = b[from as int]@[idx as int];
        lemma_conv_none(a, d, k);
        assert forall|w: Seq<Seq<char>>| #[trigger] k(w) implies (d[from as int])(edge_word(ed) + w) by {
            assert(describes(e, edge_word(ed)));
        }
        lemma_conv_pending(a, a, b, d, seq![], k, from, idx, ed);
        assert(Seq::<(usize, usize)>::empty().push((from, idx)) =~= seq![(from, idx)]);
        assert(ext_ok(d, d, b.len()));
    }
}


/// Nothing built yet.
pub proof fn lemma_conv_spec_none(a: Seq<Vec<NfaEdge>>, from: int, e: Expr)
    ensures
        conv_spec(a, a, from, e, seq![]),
{
    assert forall|d: Seq<Lang>, k: Lang| #[trigger] start_ok(d, a, from, e, k) implies exists|d2: Seq<Lang>|
        #[trigger] ext_ok(d, d2, a.len()) && conv_ok(a, a, d2, seq![], k) by {
        lemma_conv_none(a, d, k);
        assert(ext_ok(d, d, a.len()));
    }
}

/// One more alternative of a choice, built from the same state.
pub proof fn lemma_choice_step(
    a: Seq<Vec<NfaEdge>>,
    b: Seq<Vec<NfaEdge>>,
    c: Seq<Vec<NfaEdge>>,
    from: int,
    e: Expr,
    j: int,
    out: Seq<(usize, usize)>,
    sub: Seq<(usize, usize)>,
)
    requires
        e is Choice,
        0 <= j < e->Choice_0@.len(),
        conv_spec(a, b, from, e, out),
        conv_spec(b, c, from, e->Choice_0@[j], sub),
        keeps(a, b),
        keeps(b, c),
        nfa_wf(b),
        edges_valid(out, b),
        all_fresh(b, sub),
        0 <= from < a.len(),
    ensures
        conv_spec(a, c, from, e, out + sub),
{
    assert forall|d: Seq<Lang>, k: Lang| #[trigger] start_ok(d, a, from, e, k) implies exists|d2: Seq<Lang>|
        #[trigger] ext_ok(d, d2, c.len()) && conv_ok(a, c, d2, out + sub, k) by {
        let d1 = choose|d1: Seq<Lang>| #[trigger] ext_ok(d, d1, b.len()) && conv_ok(a, b, d1, out, k);
        let x = e->Choice_0@[j];
        assert(d1[from] == d[from]);
        assert forall|u: Seq<Seq<char>>, v: Seq<Seq<char>>| #![trigger describes(x, u), k(v)] describes(x, u) && k(v) implies (d1[from])(u + v) by {
            assert(describes(e, u));
        }
        assert(start_ok(d1, b, from, x, k));
        let d2 = lemma_conv_nested(a, b, c, d1, out, k, from, x, sub, k);
        lemma_conv_join(a, c, d2, out, k, sub);
        assert(ext_ok(d, d2, c.len()));
    }
}

/// After the first `k` items of the sequence `e`, built from `from` and
/// ending at `cur`: the new edges respect languages in which `cur`'s holds
/// every word that, after the first `k` items, gives a word of `from`'s.
pub open spec fn seq_ok(a: Seq<Vec<NfaEdge>>, b: Seq<Vec<NfaEdge>>, from: int, e: Expr, k: int, cur: int) -> bool {
    forall|d: Seq<Lang>, kk: Lang| #[trigger] start_ok(d, a, from, e, kk) ==> exists|d2: Seq<Lang>|
        #[trigger] ext_ok(d, d2, b.len()) && conv_ok(a, b, d2, seq![], kk)
            && forall|w: Seq<Seq<char>>| #[trigger] (after_prefix(d[from], e, k))(w) ==> (d2[cur])(w)
}

/// A sequence before its first item.
pub proof fn lemma_seq_start(a: Seq<Vec<NfaEdge>>, from: int, e: Expr)
    requires
        e is Sequence,
    ensures
        seq_ok(a, a, from, e, 0, from),
{
    assert forall|d: Seq<Lang>, kk: Lang| #[trigger] start_ok(d, a, from, e, kk) implies exists|d2: Seq<Lang>|
        #[trigger] ext_ok(d, d2, a.len()) && conv_ok(a, a, d2, seq![], kk)
            && forall|w: Seq<Seq<char>>| #[trigger] (after_prefix(d[from], e, 0))(w) ==> (d2[from])(w) by {
        lemma_conv_none(a, d, kk);
        assert forall|w: Seq<Seq<char>>| #[trigger] (after_prefix(d[from], e, 0))(w) implies (d[from])(w) by {
            let em = Seq::<Seq<char>>::empty();
            assert(describes_prefix(e, 0, em));
            assert(em + w =~= w);
        }
        assert(ext_ok(d, d, a.len()));
    }
}

/// The start condition for item `k` of a sequence, with what must follow it.
proof fn lemma_seq_item_start(d: Seq<Lang>, d1: Seq<Lang>, b: Seq<Vec<NfaEdge>>, from: int, e: Expr, k: int, cur: int, kk: Lang, kn: Lang)
    requires
        e is Sequence,
        0 <= k < e->Sequence_0@.len(),
        d1.len() == b.len(),
        0 <= cur < b.len(),
        forall|w: Seq<Seq<char>>| #[trigger] (after_prefix(d[from], e, k))(w) ==> (d1[cur])(w),
        forall|p: Seq<Seq<char>>, v: Seq<Seq<char>>| #![trigger describes_prefix(e, k + 1, p), kn(v)]
            describes_prefix(e, k + 1, p) && kn(v) ==> (d[from])(p + v),
    ensures
        start_ok(d1, b, cur, e->Sequence_0@[k], kn),
{
    let x = e->Sequence_0@[k];
    assert forall|u: Seq<Seq<char>>, v: Seq<Seq<char>>| #![trigger describes(x, u), kn(v)] describes(x, u) && kn(v) implies (d1[cur])(u + v) by {
        assert forall|p: Seq<Seq<char>>| #[trigger] describes_prefix(e, k, p) implies (d[from])(p + (u + v)) by {
            lemma_prefix_push(e, k, p, u);
            assert((p + u) + v =~= p + (u + v));
        }
        assert((after_prefix(d[from], e, k))(u + v));
    }
}

/// Item `k` of a sequence, not the last, then a new state its ends are
/// joined to.
pub proof fn lemma_seq_conv_step(
    a: Seq<Vec<NfaEdge>>,
    b: Seq<Vec<NfaEdge>>,
    c: Seq<Vec<NfaEdge>>,
    c2: Seq<Vec<NfaEdge>>,
    c3: Seq<Vec<NfaEdge>>,
    from: int,
    e: Expr,
    k: int,
    cur: int,
    r: Seq<(usize, usize)>,
)
    requires
        e is Sequence,
        0 <= k < e->Sequence_0@.len() - 1,
        seq_ok(a, b, from, e, k, cur),
        conv_spec(b, c, cur, e->Sequence_0@[k], r),
        keeps(a, b),
        keeps(b, c),
        nfa_wf(b),
        nfa_wf(c),
        all_fresh(b, r),
        edges_valid(r, c),
        0 <= from < a.len(),
        0 <= cur < b.len(),
        grown(c, c2),
        joined_to(c2, c3, r, c.len() as int),
    ensures
        seq_ok(a, c3, from, e, k + 1, c.len() as int),
{
    let next = c.len() as int;
    assert forall|d: Seq<Lang>, kk: Lang| #[trigger] start_ok(d, a, from, e, kk) implies exists|d2: Seq<Lang>|
        #[trigger] ext_ok(d, d2, c3.len()) && conv_ok(a, c3, d2, seq![], kk)
            && forall|w: Seq<Seq<char>>| #[trigger] (after_prefix(d[from], e, k + 1))(w) ==> (d2[next])(w) by {
        let d1 = choose|d1: Seq<Lang>| #[trigger] ext_ok(d, d1, b.len()) && conv_ok(a, b, d1, seq![], kk)
            && forall|w: Seq<Seq<char>>| #[trigger] (after_prefix(d[from], e, k))(w) ==> (d1[cur])(w);
        let kn = after_prefix(d[from], e, k + 1);
        assert(d1[from] == d[from]);
        lemma_seq_item_start(d, d1, b, from, e, k, cur, kk, kn);
        let d2 = lemma_conv_nested(a, b, c, d1, seq![], kk, cur, e->Sequence_0@[k], r, kn);
        let d3 = d2.push(kn);
        assert(conv_ok(a, c, d2, seq![], kk) || true);
        lemma_conv2_state(a, c, c2, d2, kn, seq![], kk, r, kn);
        lemma_keeps_grown(c, c2);
        lemma_conv_connect(a, c2, c3, d3, seq![], kk, r, kn, next);
        assert(ext_ok(d, d3, c3.len()));
        assert(d3[next] == kn);
    }
}

/// The last item of a sequence.
pub proof fn lemma_seq_conv_last(
    a: Seq<Vec<NfaEdge>>,
    b: Seq<Vec<NfaEdge>>,
    c: Seq<Vec<NfaEdge>>,
    from: int,
    e: Expr,
    k: int,
    cur: int,
    r: Seq<(usize, usize)>,
)
    requires
        e is Sequence,
        k == e->Sequence_0@.len() - 1,
        k >= 0,
        seq_ok(a, b, from, e, k, cur),
        conv_spec(b, c, cur, e->Sequence_0@[k], r),
        keeps(a, b),
        keeps(b, c),
        nfa_wf(b),
        all_fresh(b, r),
        0 <= from < a.len(),
        0 <= cur < b.len(),
    ensures
        conv_spec(a, c, from, e, r),
{
    assert forall|d: Seq<Lang>, kk: Lang| #[trigger] start_ok(d, a, from, e, kk) implies exists|d2: Seq<Lang>|
        #[trigger] ext_ok(d, d2, c.len()) && conv_ok(a, c, d2, r, kk) by {
        let d1 = choose|d1: Seq<Lang>| #[trigger] ext_ok(d, d1, b.len()) && conv_ok(a, b, d1, seq![], kk)
            && forall|w: Seq<Seq<char>>| #[trigger] (after_prefix(d[from], e, k))(w) ==> (d1[cur])(w);
        assert(d1[from] == d[from]);
        assert forall|p: Seq<Seq<char>>, v: Seq<Seq<char>>| #![trigger describes_prefix(e, k + 1, p), kk(v)]
            describes_prefix(e, k + 1, p) && kk(v) implies (d[from])(p + v) by {
            assert(describes(e, p));
        }
        lemma_seq_item_start(d, d1, b, from, e, k, cur, kk, kk);
        let d2 = lemma_conv_nested(a, b, c, d1, seq![], kk, cur, e->Sequence_0@[k], r, kk);
        lemma_conv_join(a, c, d2, seq![], kk, r);
        assert(Seq::<(usize, usize)>::empty() + r =~= r);
        assert(ext_ok(d, d2, c.len()));
    }
}

/// A new state without edges keeps both lists' edges respecting the
/// languages.
pub proof fn lemma_conv2_state(
    a: Seq<Vec<NfaEdge>>,
    b: Seq<Vec<NfaEdge>>,
    b2: Seq<Vec<NfaEdge>>,
    d: Seq<Lang>,
    x: Lang,
    r: Seq<(usize, usize)>,
    k: Lang,
    r2: Seq<(usize, usize)>,
    k2: Lang,
)
    requires
        conv2_ok(a, b, d, r, k, r2, k2),
        nfa_wf(b),
        d.len() == b.len(),
        grown(b, b2),
    ensures
        conv2_ok(a, b2, d.push(x), r, k, r2, k2),
{
    let d2 = d.push(x);
    assert forall|s: int, i: int|
        0 <= s < b2.len() && 0 <= i < b2[s]@.len() && is_new(a, s, i) implies if listed(r, s, i) {
            pend_good(d2, s, #[trigger] b2[s]@[i], k)
        } else if listed(r2, s, i) {
            pend_good(d2, s, b2[s]@[i], k2)
        } else {
            edge_good(d2, s, b2[s]@[i])
        } by {
        assert(s < b.len());
        assert(b2[s] == b[s]);
        assert(b[s]@[i].to < b.len());
        assert(d2[s] == d[s]);
        assert(d2[b[s]@[i].to as int] == d[b[s]@[i].to as int]);
        if listed(r, s, i) {
            assert(pend_good(d, s, b[s]@[i], k));
        } else if listed(r2, s, i) {
            assert(pend_good(d, s, b[s]@[i], k2));
        } else {
            assert(edge_good(d, s, b[s]@[i]));
        }
    }
}

/// A new state keeps the edges.
pub proof fn lemma_keeps_grown(b: Seq<Vec<NfaEdge>>, b2: Seq<Vec<NfaEdge>>)
    requires
        grown(b, b2),
    ensures
        keeps(b, b2),
{
}


/// Every count of pieces within the bounds of `e` makes a word of `e`.
proof fn lemma_reps_word(e: Expr, n: int, p: Seq<Seq<char>>)
    requires
        describes_reps(e, n, p),
        n >= 0,
        match e {
            Expr::Star(_) => true,
            Expr::Plus(_) => n >= 1,
            Expr::Range { min, max, .. } => min <= n && (max matches Some(m) ==> n <= m),
            _ => false,
        },
    ensures
        describes(e, p),
{
    assert(is_count(n));
}

/// The languages where a repeated part loops at `l`: prefixing a piece
/// keeps a word in `reps_lang(df, e, lo, None)`.
proof fn lemma_loop_start(d: Seq<Lang>, b: Seq<Vec<NfaEdge>>, l: int, df: Lang, e: Expr, lo: int)
    requires
        e is Star || e is Plus || e is Range,
        d.len() == b.len(),
        0 <= l < b.len(),
        d[l] == reps_lang(df, e, lo, None),
    ensures
        start_ok(d, b, l, inner_of(e), reps_lang(df, e, lo, None)),
{
    let x = inner_of(e);
    let lang = reps_lang(df, e, lo, None);
    assert forall|u: Seq<Seq<char>>, v: Seq<Seq<char>>| #![trigger describes(x, u), lang(v)] describes(x, u) && lang(v) implies (d[l])(u + v) by {
        assert forall|n: int, p: Seq<Seq<char>>| #![trigger describes_reps(e, n, p)]
            lo <= n && describes_reps(e, n, p) implies df(p + (u + v)) by {
            if n < 0 {
                assert(p.len() == 0);
                assert(describes_reps(e, 0, p));
                lemma_reps_push(e, 0, p, u);
                assert(lo <= 1 || true);
            }
            let n0 = if n < 0 { 0 } else { n };
            assert(describes_reps(e, n0, p));
            lemma_reps_push(e, n0, p, u);
            assert((p + u) + v =~= p + (u + v));
            assert(lo <= n0 + 1);
        }
    }
}

/// The expression a repetition repeats.
pub open spec fn inner_of(e: Expr) -> Expr {
    match e {
        Expr::Star(x) => *x,
        Expr::Plus(x) => *x,
        Expr::Range { expr: x, .. } => *x,
        _ => e,
    }
}

/// A star: an unlabelled edge to a new loop state, the repeated part from
/// it joined back to it, and an unlabelled edge out of it still to be
/// connected.
pub proof fn lemma_star_conv(
    a: Seq<Vec<NfaEdge>>,
    s1: Seq<Vec<NfaEdge>>,
    s2: Seq<Vec<NfaEdge>>,
    s3: Seq<Vec<NfaEdge>>,
    s4: Seq<Vec<NfaEdge>>,
    b: Seq<Vec<NfaEdge>>,
    from: usize,
    l: usize,
    i1: usize,
    ix: usize,
    re: Seq<(usize, usize)>,
    e: Expr,
)
    requires
        e is Star,
        nfa_wf(a),
        nfa_wf(s2),
        nfa_wf(s3),
        from < a.len(),
        l == a.len(),
        grown(a, s1),
        added(s1, s2, from, i1),
        s2[from as int]@[i1 as int].to == l && s2[from as int]@[i1 as int].term is None,
        conv_spec(s2, s3, l as int, inner_of(e), re),
        keeps(a, s2),
        keeps(s2, s3),
        all_fresh(s2, re),
        edges_valid(re, s3),
        joined_to(s3, s4, re, l as int),
        added(s4, b, l, ix),
        b[l as int]@[ix as int].term is None,
    ensures
        conv_spec(a, b, from as int, e, seq![(l, ix)]),
{
    assert forall|d: Seq<Lang>, k: Lang| #[trigger] start_ok(d, a, from as int, e, k) implies exists|d2: Seq<Lang>|
        #[trigger] ext_ok(d, d2, b.len()) && conv_ok(a, b, d2, seq![(l, ix)], k) by {
        let df = d[from as int];
        let dl = reps_lang(df, e, 0, None);
        let d1 = d.push(dl);
        lemma_conv_none(a, d, k);
        lemma_conv_state(a, a, s1, d, dl, seq![], k);
        let ed = s2[from as int]@[i1 as int];
        assert(d1[l as int] == dl);
        assert(d1[from as int] == df);
        assert forall|w: Seq<Seq<char>>| #[trigger] (d1[ed.to as int])(w) implies (d1[from as int])(edge_word(ed) + w) by {
            let em = Seq::<Seq<char>>::empty();
            assert(describes_reps(e, 0, em));
            assert(em + w =~= w);
            assert(edge_word(ed) =~= em);
        }
        lemma_conv_edge(a, s1, s2, d1, seq![], k, from as int, ed);
        lemma_loop_start(d1, s2, l as int, df, e, 0);
        let d2 = lemma_conv_nested(a, s2, s3, d1, seq![], k, l as int, inner_of(e), re, dl);
        assert(d2[l as int] == dl);
        lemma_conv_connect(a, s3, s4, d2, seq![], k, re, dl, l as int);
        let ex = b[l as int]@[ix as int];
        assert forall|w: Seq<Seq<char>>| #[trigger] k(w) implies (d2[l as int])(edge_word(ex) + w) by {
            assert(edge_word(ex) + w =~= w);
            assert forall|n: int, p: Seq<Seq<char>>| #![trigger describes_reps(e, n, p)]
                0 <= n && describes_reps(e, n, p) implies df(p + w) by {
                lemma_reps_word(e, n, p);
            }
        }
        lemma_conv_pending(a, s4, b, d2, seq![], k, l, ix, ex);
        assert(Seq::<(usize, usize)>::empty().push((l, ix)) =~= seq![(l, ix)]);
        assert(ext_ok(d, d2, b.len()));
    }
}


/// A plus: the repeated part from `from` joined to a new loop state, the
/// repeated part from it joined back to it, and an unlabelled edge out of
/// it still to be connected.
pub proof fn lemma_plus_conv(
    a: Seq<Vec<NfaEdge>>,
    s1: Seq<Vec<NfaEdge>>,
    s2: Seq<Vec<NfaEdge>>,
    s3: Seq<Vec<NfaEdge>>,
    s4: Seq<Vec<NfaEdge>>,
    s5: Seq<Vec<NfaEdge>>,
    b: Seq<Vec<NfaEdge>>,
    from: usize,
    l: usize,
    ix: usize,
    r1: Seq<(usize, usize)>,
    r2: Seq<(usize, usize)>,
    e: Expr,
)
    requires
        e is Plus,
        nfa_wf(a),
        nfa_wf(s1),
        nfa_wf(s3),
        from < a.len(),
        l == a.len(),
        grown(a, s1),
        conv_spec(s1, s2, from as int, inner_of(e), r1),
        keeps(s1, s2),
        all_fresh(s1, r1),
        joined_to(s2, s3, r1, l as int),
        keeps(a, s3),
        conv_spec(s3, s4, l as int, inner_of(e), r2),
        keeps(s3, s4),
        all_fresh(s3, r2),
        joined_to(s4, s5, r2, l as int),
        added(s5, b, l, ix),
        b[l as int]@[ix as int].term is None,
    ensures
        conv_spec(a, b, from as int, e, seq![(l, ix)]),
{
    assert forall|d: Seq<Lang>, k: Lang| #[trigger] start_ok(d, a, from as int, e, k) implies exists|d2: Seq<Lang>|
        #[trigger] ext_ok(d, d2, b.len()) && conv_ok(a, b, d2, seq![(l, ix)], k) by {
        let df = d[from as int];
        let dl = reps_lang(df, e, 1, None);
        let d1 = d.push(dl);
        lemma_conv_none(a, d, k);
        lemma_conv_state(a, a, s1, d, dl, seq![], k);
        lemma_keeps_grown(a, s1);
        assert(d1[from as int] == df);
        let x = inner_of(e);
        assert forall|u: Seq<Seq<char>>, v: Seq<Seq<char>>| #![trigger describes(x, u), dl(v)] describes(x, u) && dl(v) implies (d1[from as int])(u + v) by {
            let em = Seq::<Seq<char>>::empty();
            assert(describes_reps(e, 0, em));
            lemma_reps_push(e, 0, em, u);
            assert(em + u =~= u);
            assert(describes_reps(e, 1, u));
        }
        assert(start_ok(d1, s1, from as int, x, dl));
        let d2 = lemma_conv_nested(a, s1, s2, d1, seq![], k, from as int, x, r1, dl);
        assert(d2[l as int] == dl);
        lemma_conv_connect(a, s2, s3, d2, seq![], k, r1, dl, l as int);
        lemma_loop_start(d2, s3, l as int, df, e, 1);
        let d3 = lemma_conv_nested(a, s3, s4, d2, seq![], k, l as int, x, r2, dl);
        assert(d3[l as int] == dl);
        lemma_conv_connect(a, s4, s5, d3, seq![], k, r2, dl, l as int);
        let ex = b[l as int]@[ix as int];
        assert forall|w: Seq<Seq<char>>| #[trigger] k(w) implies (d3[l as int])(edge_word(ex) + w) by {
            assert(edge_word(ex) + w =~= w);
            assert forall|n: int, p: Seq<Seq<char>>| #![trigger describes_reps(e, n, p)]
                1 <= n && describes_reps(e, n, p) implies df(p + w) by {
                lemma_reps_word(e, n, p);
            }
        }
        lemma_conv_pending(a, s5, b, d3, seq![], k, l, ix, ex);
        assert(Seq::<(usize, usize)>::empty().push((l, ix)) =~= seq![(l, ix)]);
        assert(ext_ok(d, d3, b.len()));
    }
}

/// An option: an unlabelled edge out of `from` still to be connected, and
/// the optional part from `from`.
pub proof fn lemma_opt_conv(
    a: Seq<Vec<NfaEdge>>,
    s1: Seq<Vec<NfaEdge>>,
    b: Seq<Vec<NfaEdge>>,
    from: usize,
    ix: usize,
    r: Seq<(usize, usize)>,
    e: Expr,
)
    requires
        e is Opt,
        nfa_wf(s1),
        added(a, s1, from, ix),
        s1[from as int]@[ix as int].term is None,
        keeps(a, s1),
        conv_spec(s1, b, from as int, *e->Opt_0, r),
        keeps(s1, b),
        all_fresh(s1, r),
    ensures
        conv_spec(a, b, from as int, e, seq![(from, ix)] + r),
{
    assert forall|d: Seq<Lang>, k: Lang| #[trigger] start_ok(d, a, from as int, e, k) implies exists|d2: Seq<Lang>|
        #[trigger] ext_ok(d, d2, b.len()) && conv_ok(a, b, d2, seq![(from, ix)] + r, k) by {
        lemma_conv_none(a, d, k);
        let ex = s1[from as int]@[ix as int];
        assert forall|w: Seq<Seq<char>>| #[trigger] k(w) implies (d[from as int])(edge_word(ex) + w) by {
            let em = Seq::<Seq<char>>::empty();
            assert(describes(e, em));
            assert(edge_word(ex) + w =~= em + w);
        }
        lemma_conv_pending(a, a, s1, d, seq![], k, from, ix, ex);
        let r0 = Seq::<(usize, usize)>::empty().push((from, ix));
        assert(r0 =~= seq![(from, ix)]);
        let x = *e->Opt_0;
        assert forall|u: Seq<Seq<char>>, v: Seq<Seq<char>>| #![trigger describes(x, u), k(v)] describes(x, u) && k(v) implies (d[from as int])(u + v) by {
            assert(describes(e, u));
        }
        assert(start_ok(d, s1, from as int, x, k));
        let d2 = lemma_conv_nested(a, s1, b, d, r0, k, from as int, x, r, k);
        lemma_conv_join(a, b, d2, r0, k, r);
        assert(ext_ok(d, d2, b.len()));
    }
}


/// The least count of a range.
pub open spec fn range_min(e: Expr) -> int {
    match e {
        Expr::Range { min, .. } => min as int,
        _ => 0,
    }
}

/// The most count of a range, if any.
pub open spec fn range_max(e: Expr) -> Option<int> {
    match e {
        Expr::Range { max, .. } => match max {
            Some(m) => Some(m as int),
            None => None,
        },
        _ => None,
    }
}

/// A range built from `from` up to state `cur`: the new edges respect
/// languages in which `cur`'s holds every word that, after between `lo`
/// and `hi` pieces, gives a word of `from`'s (exactly that, for a new
/// state).
pub open spec fn rng_ok(a: Seq<Vec<NfaEdge>>, b: Seq<Vec<NfaEdge>>, from: int, e: Expr, lo: int, hi: Option<int>, cur: int) -> bool {
    forall|d: Seq<Lang>, kk: Lang| #[trigger] start_ok(d, a, from, e, kk) ==> exists|d2: Seq<Lang>|
        #[trigger] ext_ok(d, d2, b.len()) && conv_ok(a, b, d2, seq![], kk)
            && (forall|w: Seq<Seq<char>>| #[trigger] (reps_lang(d[from], e, lo, hi))(w) ==> (d2[cur])(w))
            && (cur >= a.len() ==> d2[cur] == reps_lang(d[from], e, lo, hi))
}

/// Built from `from` up to `cur`, where an unlabelled edge out of `cur`
/// still to be connected may end the expression.
pub open spec fn exit_ok(a: Seq<Vec<NfaEdge>>, b: Seq<Vec<NfaEdge>>, from: int, e: Expr, cur: int) -> bool {
    forall|d: Seq<Lang>, kk: Lang| #[trigger] start_ok(d, a, from, e, kk) ==> exists|d2: Seq<Lang>|
        #[trigger] ext_ok(d, d2, b.len()) && conv_ok(a, b, d2, seq![], kk)
            && forall|w: Seq<Seq<char>>| #[trigger] kk(w) ==> (d2[cur])(w)
}

/// A range before its first piece.
pub proof fn lemma_range_start(a: Seq<Vec<NfaEdge>>, from: int, e: Expr)
    requires
        0 <= from < a.len(),
    ensures
        rng_ok(a, a, from, e, 0, Some(0), from),
{
    assert forall|d: Seq<Lang>, kk: Lang| #[trigger] start_ok(d, a, from, e, kk) implies exists|d2: Seq<Lang>|
        #[trigger] ext_ok(d, d2, a.len()) && conv_ok(a, a, d2, seq![], kk)
            && (forall|w: Seq<Seq<char>>| #[trigger] (reps_lang(d[from], e, 0, Some(0)))(w) ==> (d2[from])(w))
            && (from >= a.len() ==> d2[from] == reps_lang(d[from], e, 0, Some(0))) by {
        lemma_conv_none(a, d, kk);
        assert forall|w: Seq<Seq<char>>| #[trigger] (reps_lang(d[from], e, 0, Some(0)))(w) implies (d[from])(w) by {
            let em = Seq::<Seq<char>>::empty();
            assert(describes_reps(e, 0, em));
            assert(em + w =~= w);
        }
        assert(ext_ok(d, d, a.len()));
    }
}

/// The start condition for a piece from `cur` where `cur`'s language holds
/// the words after between `lo` and `hi` pieces, and the next state's after
/// between `lo2` and `hi2`.
proof fn lemma_piece_start(d1: Seq<Lang>, b: Seq<Vec<NfaEdge>>, cur: int, df: Lang, e: Expr, lo: int, hi: Option<int>, lo2: int, hi2: Option<int>)
    requires
        e is Range,
        d1.len() == b.len(),
        0 <= cur < b.len(),
        lo >= 0,
        forall|w: Seq<Seq<char>>| #[trigger] (reps_lang(df, e, lo, hi))(w) ==> (d1[cur])(w),
        lo2 <= lo + 1,
        hi2 matches Some(h2) ==> (hi matches Some(h) && h + 1 <= h2),
    ensures
        start_ok(d1, b, cur, inner_of(e), reps_lang(df, e, lo2, hi2)),
{
    let x = inner_of(e);
    let vn = reps_lang(df, e, lo2, hi2);
    assert forall|u: Seq<Seq<char>>, v: Seq<Seq<char>>| #![trigger describes(x, u), vn(v)] describes(x, u) && vn(v) implies (d1[cur])(u + v) by {
        assert forall|n: int, p: Seq<Seq<char>>| #![trigger describes_reps(e, n, p)]
            lo <= n && (hi matches Some(h) ==> n <= h) && describes_reps(e, n, p) implies df(p + (u + v)) by {
            lemma_reps_push(e, n, p, u);
            assert((p + u) + v =~= p + (u + v));
            assert(lo2 <= n + 1);
            assert(vn(v));
        }
        assert((reps_lang(df, e, lo, hi))(u + v));
    }
}

/// One required piece of a range, then a new state its ends are joined to.
pub proof fn lemma_range_step(
    a: Seq<Vec<NfaEdge>>,
    b: Seq<Vec<NfaEdge>>,
    b1: Seq<Vec<NfaEdge>>,
    c: Seq<Vec<NfaEdge>>,
    c2: Seq<Vec<NfaEdge>>,
    from: int,
    e: Expr,
    k: int,
    cur: int,
    r: Seq<(usize, usize)>,
    hi2: Option<int>,
)
    requires
        e is Range,
        k >= 0,
        hi2 == Some(k + 1) || hi2 is None,
        rng_ok(a, b, from, e, k, Some(k), cur),
        0 <= from < a.len(),
        0 <= cur < b.len(),
        nfa_wf(b),
        nfa_wf(b1),
        keeps(a, b),
        grown(b, b1),
        conv_spec(b1, c, cur, inner_of(e), r),
        keeps(b1, c),
        all_fresh(b1, r),
        joined_to(c, c2, r, b.len() as int),
    ensures
        rng_ok(a, c2, from, e, k + 1, hi2, b.len() as int),
{
    let next = b.len() as int;
    assert forall|d: Seq<Lang>, kk: Lang| #[trigger] start_ok(d, a, from, e, kk) implies exists|d2: Seq<Lang>|
        #[trigger] ext_ok(d, d2, c2.len()) && conv_ok(a, c2, d2, seq![], kk)
            && (forall|w: Seq<Seq<char>>| #[trigger] (reps_lang(d[from], e, k + 1, hi2))(w) ==> (d2[next])(w))
            && (next >= a.len() ==> d2[next] == reps_lang(d[from], e, k + 1, hi2)) by {
        let d1 = choose|d1: Seq<Lang>| #[trigger] ext_ok(d, d1, b.len()) && conv_ok(a, b, d1, seq![], kk)
            && (forall|w: Seq<Seq<char>>| #[trigger] (reps_lang(d[from], e, k, Some(k)))(w) ==> (d1[cur])(w))
            && (cur >= a.len() ==> d1[cur] == reps_lang(d[from], e, k, Some(k)));
        let df = d[from];
        let vn = reps_lang(df, e, k + 1, hi2);
        let d1n = d1.push(vn);
        lemma_conv_state(a, b, b1, d1, vn, seq![], kk);
        lemma_keeps_grown(b, b1);
        lemma_keeps_trans_w(a, b, b1);
        assert(d1n[cur] == d1[cur]);
        lemma_piece_start(d1n, b1, cur, df, e, k, Some(k), k + 1, hi2);
        let d2 = lemma_conv_nested(a, b1, c, d1n, seq![], kk, cur, inner_of(e), r, vn);
        assert(d2[next] == vn);
        lemma_conv_connect(a, c, c2, d2, seq![], kk, r, vn, next);
        assert(ext_ok(d, d2, c2.len()));
    }
}

/// Keeping is transitive.
pub proof fn lemma_keeps_trans_w(a: Seq<Vec<NfaEdge>>, b: Seq<Vec<NfaEdge>>, c: Seq<Vec<NfaEdge>>)
    requires
        keeps(a, b),
        keeps(b, c),
    ensures
        keeps(a, c),
{
    assert forall|s: int, i: int| 0 <= s < a.len() && 0 <= i < a[s]@.len() implies #[trigger] c[s]@[i] == a[s]@[i] by {
        assert(b[s]@[i] == a[s]@[i]);
    }
    assert forall|s: int| 0 <= s < a.len() implies #[trigger] a[s]@.len() <= c[s]@.len() by {
        assert(a[s]@.len() <= b[s]@.len());
    }
}

/// The open end of a range: the repeated part from `cur` joined back to it.
pub proof fn lemma_range_open_conv(
    a: Seq<Vec<NfaEdge>>,
    b: Seq<Vec<NfaEdge>>,
    c: Seq<Vec<NfaEdge>>,
    c2: Seq<Vec<NfaEdge>>,
    from: int,
    e: Expr,
    cur: int,
    r: Seq<(usize, usize)>,
)
    requires
        e is Range,
        range_max(e) is None,
        rng_ok(a, b, from, e, range_min(e), None, cur),
        a.len() <= cur < b.len(),
        0 <= from < a.len(),
        nfa_wf(b),
        keeps(a, b),
        conv_spec(b, c, cur, inner_of(e), r),
        keeps(b, c),
        all_fresh(b, r),
        joined_to(c, c2, r, cur),
    ensures
        exit_ok(a, c2, from, e, cur),
{
    let lo = range_min(e);
    assert forall|d: Seq<Lang>, kk: Lang| #[trigger] start_ok(d, a, from, e, kk) implies exists|d2: Seq<Lang>|
        #[trigger] ext_ok(d, d2, c2.len()) && conv_ok(a, c2, d2, seq![], kk)
            && forall|w: Seq<Seq<char>>| #[trigger] kk(w) ==> (d2[cur])(w) by {
        let d1 = choose|d1: Seq<Lang>| #[trigger] ext_ok(d, d1, b.len()) && conv_ok(a, b, d1, seq![], kk)
            && (forall|w: Seq<Seq<char>>| #[trigger] (reps_lang(d[from], e, lo, None))(w) ==> (d1[cur])(w))
            && (cur >= a.len() ==> d1[cur] == reps_lang(d[from], e, lo, None));
        let df = d[from];
        let vo = reps_lang(df, e, lo, None);
        lemma_loop_start(d1, b, cur, df, e, lo);
        let d2 = lemma_conv_nested(a, b, c, d1, seq![], kk, cur, inner_of(e), r, vo);
        assert(d2[cur] == vo);
        lemma_conv_connect(a, c, c2, d2, seq![], kk, r, vo, cur);
        assert forall|w: Seq<Seq<char>>| #[trigger] kk(w) implies (d2[cur])(w) by {
            assert forall|n: int, p: Seq<Seq<char>>| #![trigger describes_reps(e, n, p)]
                lo <= n && describes_reps(e, n, p) implies df(p + w) by {
                if n >= 0 {
                    lemma_reps_word(e, n, p);
                } else {
                    assert(p.len() == 0);
                    assert(describes_reps(e, 0, p));
                    lemma_reps_word(e, 0, p);
                }
            }
        }
        assert(ext_ok(d, d2, c2.len()));
    }
}

/// One optional piece of a range: an unlabelled edge from `cur` to a new
/// state, and the repeated part from `cur` joined to it.
pub proof fn lemma_range_opt_step(
    a: Seq<Vec<NfaEdge>>,
    b: Seq<Vec<NfaEdge>>,
    b1: Seq<Vec<NfaEdge>>,
    b2: Seq<Vec<NfaEdge>>,
    c: Seq<Vec<NfaEdge>>,
    c2: Seq<Vec<NfaEdge>>,
    from: int,
    e: Expr,
    lo: int,
    k: int,
    cur: usize,
    skip: usize,
    r: Seq<(usize, usize)>,
)
    requires
        e is Range,
        0 <= lo <= k,
        rng_ok(a, b, from, e, lo, Some(k), cur as int),
        0 <= from < a.len(),
        cur < b.len(),
        nfa_wf(b),
        nfa_wf(b2),
        keeps(a, b),
        grown(b, b1),
        added(b1, b2, cur, skip),
        b2[cur as int]@[skip as int].to == b.len() && b2[cur as int]@[skip as int].term is None,
        conv_spec(b2, c, cur as int, inner_of(e), r),
        keeps(b2, c),
        all_fresh(b2, r),
        joined_to(c, c2, r, b.len() as int),
    ensures
        rng_ok(a, c2, from, e, lo, Some(k + 1), b.len() as int),
{
    let next = b.len() as int;
    assert forall|d: Seq<Lang>, kk: Lang| #[trigger] start_ok(d, a, from, e, kk) implies exists|d2: Seq<Lang>|
        #[trigger] ext_ok(d, d2, c2.len()) && conv_ok(a, c2, d2, seq![], kk)
            && (forall|w: Seq<Seq<char>>| #[trigger] (reps_lang(d[from], e, lo, Some(k + 1)))(w) ==> (d2[next])(w))
            && (next >= a.len() ==> d2[next] == reps_lang(d[from], e, lo, Some(k + 1))) by {
        let d1 = choose|d1: Seq<Lang>| #[trigger] ext_ok(d, d1, b.len()) && conv_ok(a, b, d1, seq![], kk)
            && (forall|w: Seq<Seq<char>>| #[trigger] (reps_lang(d[from], e, lo, Some(k)))(w) ==> (d1[cur as int])(w))
            && (cur >= a.len() ==> d1[cur as int] == reps_lang(d[from], e, lo, Some(k)));
        let df = d[from];
        let vn = reps_lang(df, e, lo, Some(k + 1));
        let d1n = d1.push(vn);
        lemma_conv_state(a, b, b1, d1, vn, seq![], kk);
        lemma_keeps_grown(b, b1);
        lemma_keeps_trans_w(a, b, b1);
        assert(d1n[cur as int] == d1[cur as int]);
        let sk = b2[cur as int]@[skip as int];
        assert forall|w: Seq<Seq<char>>| #[trigger] (d1n[sk.to as int])(w) implies (d1n[cur as int])(edge_word(sk) + w) by {
            assert(edge_word(sk) + w =~= w);
            assert((reps_lang(df, e, lo, Some(k)))(w));
        }
        lemma_conv_edge(a, b1, b2, d1n, seq![], kk, cur as int, sk);
        assert(keeps(b1, b2));
        lemma_keeps_trans_w(a, b1, b2);
        lemma_piece_start(d1n, b2, cur as int, df, e, lo, Some(k), lo, Some(k + 1));
        let d2 = lemma_conv_nested(a, b2, c, d1n, seq![], kk, cur as int, inner_of(e), r, vn);
        assert(d2[next] == vn);
        lemma_conv_connect(a, c, c2, d2, seq![], kk, r, vn, next);
        assert(ext_ok(d, d2, c2.len()));
    }
}

/// The closed end of a range.
pub proof fn lemma_range_close(a: Seq<Vec<NfaEdge>>, b: Seq<Vec<NfaEdge>>, from: int, e: Expr, m: int, cur: int)
    requires
        e is Range,
        range_max(e) == Some(m),
        rng_ok(a, b, from, e, range_min(e), Some(m), cur),
    ensures
        exit_ok(a, b, from, e, cur),
{
    let lo = range_min(e);
    assert forall|d: Seq<Lang>, kk: Lang| #[trigger] start_ok(d, a, from, e, kk) implies exists|d2: Seq<Lang>|
        #[trigger] ext_ok(d, d2, b.len()) && conv_ok(a, b, d2, seq![], kk)
            && forall|w: Seq<Seq<char>>| #[trigger] kk(w) ==> (d2[cur])(w) by {
        let d1 = choose|d1: Seq<Lang>| #[trigger] ext_ok(d, d1, b.len()) && conv_ok(a, b, d1, seq![], kk)
            && (forall|w: Seq<Seq<char>>| #[trigger] (reps_lang(d[from], e, lo, Some(m)))(w) ==> (d1[cur])(w))
            && (cur >= a.len() ==> d1[cur] == reps_lang(d[from], e, lo, Some(m)));
        assert forall|w: Seq<Seq<char>>| #[trigger] kk(w) implies (d1[cur])(w) by {
            assert forall|n: int, p: Seq<Seq<char>>| #![trigger describes_reps(e, n, p)]
                lo <= n && n <= m && describes_reps(e, n, p) implies (d[from])(p + w) by {
                if n >= 0 {
                    lemma_reps_word(e, n, p);
                } else {
                    assert(p.len() == 0);
                    assert(describes_reps(e, 0, p));
                    lemma_reps_word(e, 0, p);
                }
            }
            assert((reps_lang(d[from], e, lo, Some(m)))(w));
        }
    }
}

/// The unlabelled edge that ends an expression.
pub proof fn lemma_exit_conv(a: Seq<Vec<NfaEdge>>, b: Seq<Vec<NfaEdge>>, c: Seq<Vec<NfaEdge>>, from: int, e: Expr, cur: usize, ix: usize)
    requires
        exit_ok(a, b, from, e, cur as int),
        added(b, c, cur, ix),
        c[cur as int]@[ix as int].term is None,
    ensures
        conv_spec(a, c, from, e, seq![(cur, ix)]),
{
    assert forall|d: Seq<Lang>, kk: Lang| #[trigger] start_ok(d, a, from, e, kk) implies exists|d2: Seq<Lang>|
        #[trigger] ext_ok(d, d2, c.len()) && conv_ok(a, c, d2, seq![(cur, ix)], kk) by {
        let d1 = choose|d1: Seq<Lang>| #[trigger] ext_ok(d, d1, b.len()) && conv_ok(a, b, d1, seq![], kk)
            && forall|w: Seq<Seq<char>>| #[trigger] kk(w) ==> (d1[cur as int])(w);
        let ex = c[cur as int]@[ix as int];
        assert forall|w: Seq<Seq<char>>| #[trigger] kk(w) implies (d1[cur as int])(edge_word(ex) + w) by {
            assert(edge_word(ex) + w =~= w);
        }
        lemma_conv_pending(a, b, c, d1, seq![], kk, cur, ix, ex);
        assert(Seq::<(usize, usize)>::empty().push((cur, ix)) =~= seq![(cur, ix)]);
    }
}


/// A sequence with no items builds nothing that needs connecting.
pub proof fn lemma_seq_empty(a: Seq<Vec<NfaEdge>>, b: Seq<Vec<NfaEdge>>, from: int, e: Expr, k: int, cur: int)
    requires
        seq_ok(a, b, from, e, k, cur),
    ensures
        conv_spec(a, b, from, e, seq![]),
{
    assert forall|d: Seq<Lang>, kk: Lang| #[trigger] start_ok(d, a, from, e, kk) implies exists|d2: Seq<Lang>|
        #[trigger] ext_ok(d, d2, b.len()) && conv_ok(a, b, d2, seq![], kk) by {
        let d1 = choose|d1: Seq<Lang>| #[trigger] ext_ok(d, d1, b.len()) && conv_ok(a, b, d1, seq![], kk)
            && forall|w: Seq<Seq<char>>| #[trigger] (after_prefix(d[from], e, k))(w) ==> (d1[cur])(w);
    }
}

/// The most count that the state after `k` required pieces stands for:
/// none where it is the last required piece of an open range.
pub open spec fn mand_hi(e: Expr, k: int) -> Option<int> {
    if k == range_min(e) && range_max(e) is None {
        None
    } else {
        Some(k)
    }
}


/// The whole automaton: the expression built from state 0 of `s0`, which
/// has no edges, and its ends joined to a last, accepting state. Every word
/// it accepts is a word of the expression.
pub proof fn lemma_nfa_only_words(
    s0: Seq<Vec<NfaEdge>>,
    s1: Seq<Vec<NfaEdge>>,
    s2: Seq<Vec<NfaEdge>>,
    n: Seq<Vec<NfaEdge>>,
    e: Expr,
    r: Seq<(usize, usize)>,
)
    requires
        s0.len() == 1,
        s0[0]@.len() == 0,
        conv_spec(s0, s1, 0, e, r),
        nfa_wf(s1),
        grown(s1, s2),
        joined_to(s2, n, r, s1.len() as int),
    ensures
        forall|w: Seq<Seq<char>>| #[trigger] crate::language::accepts(n, w) ==> describes(e, w),
{
    let d0: Lang = |w: Seq<Seq<char>>| describes(e, w);
    let kk: Lang = |w: Seq<Seq<char>>| w.len() == 0;
    let d = seq![d0];
    assert forall|u: Seq<Seq<char>>, v: Seq<Seq<char>>| #![trigger describes(e, u), kk(v)] describes(e, u) && kk(v) implies (d[0])(u + v) by {
        assert(u + v =~= u);
    }
    assert(start_ok(d, s0, 0, e, kk));
    let d2 = choose|d2: Seq<Lang>| #[trigger] ext_ok(d, d2, s1.len()) && conv_ok(s0, s1, d2, r, kk);
    let d3 = d2.push(kk);
    lemma_conv_state(s0, s1, s2, d2, kk, r, kk);
    lemma_conv_to2(s0, s2, d3, r, kk);
    let end = s1.len() as int;
    assert(d3[end] == kk);
    lemma_conv_connect(s0, s2, n, d3, seq![], kk, r, kk, end);
    assert forall|x: int, i: int| 0 <= x < n.len() && 0 <= i < n[x]@.len() implies edge_good(d3, x, #[trigger] n[x]@[i]) by {
        assert(is_new(s0, x, i));
        assert(!listed(seq![], x, i));
    }
    assert forall|w: Seq<Seq<char>>| #[trigger] crate::language::accepts(n, w) implies describes(e, w) by {
        let p = choose|p: Seq<(usize, usize)>| #[trigger] walk(n, p, 0, w, n.len() - 1);
        assert(kk(Seq::<Seq<char>>::empty()));
        lemma_walk_in(n, d3, p, 0, w, end);
        assert(d3[0] == d0);
    }
}

/// All pending edges under one language, as the second of two lists.
pub proof fn lemma_conv_to2(a: Seq<Vec<NfaEdge>>, b: Seq<Vec<NfaEdge>>, d: Seq<Lang>, r: Seq<(usize, usize)>, k: Lang)
    requires
        conv_ok(a, b, d, r, k),
    ensures
        conv2_ok(a, b, d, seq![], k, r, k),
{
    assert forall|s: int, i: int|
        0 <= s < b.len() && 0 <= i < b[s]@.len() && is_new(a, s, i) implies if listed(seq![], s, i) {
            pend_good(d, s, #[trigger] b[s]@[i], k)
        } else if listed(r, s, i) {
            pend_good(d, s, b[s]@[i], k)
        } else {
            edge_good(d, s, b[s]@[i])
        } by {
        assert(!listed(Seq::<(usize, usize)>::empty(), s, i));
    }
}

} // verus!
