//! Compiling a content expression: first to a nondeterministic automaton
//! with unlabelled (null) edges, then by the subset construction to the
//! deterministic automaton of `ContentMatch`.
use vstd::prelude::*;
use std::sync::Arc;

use crate::schema::NodeType;
use crate::content_expr::Expr;
use crate::util::share;
use crate::only_words::{exact_ok, conv_spec, added, grown, joined_to, inner_of, lemma_name_conv, lemma_conv_spec_none, lemma_choice_step, lemma_star_conv, lemma_plus_conv, lemma_opt_conv, lemma_seq_start, lemma_seq_conv_step, lemma_seq_conv_last, seq_ok, rng_ok, exit_ok, range_min, range_max, lemma_range_start, lemma_range_step, lemma_range_open_conv, lemma_range_opt_step, lemma_range_close, lemma_exit_conv, lemma_seq_empty, mand_hi, lemma_nfa_only_words};
use crate::language::{
    describes, describes_prefix, describes_reps, seqs_nonempty, leaves, exits, reach, walk, edge_word, edge_at, connected,
    reach_reps, reach_reps_upto, is_count, lemma_exits_extend, lemma_exits_prefix, lemma_reach_empty, lemma_seq_step,
    lemma_seq_last, lemma_star_words, lemma_plus_words, lemma_opt_words, lemma_reach_keeps, lemma_reps_step,
    lemma_range_open, lemma_reps_upto_step, lemma_exits_end, accepts, lemma_exits_keeps, lemma_close, all_new,
};

verus! {

/// An edge of the nondeterministic automaton: labelled with a node type, or
/// unlabelled when `term` is none.
pub struct NfaEdge {
    pub term: Option<Arc<NodeType>>,
    pub to: usize,
}

/// Every edge leads to a state.
pub open spec fn nfa_wf(n: Seq<Vec<NfaEdge>>) -> bool {
    forall|s: int, i: int| 0 <= s < n.len() && 0 <= i < n[s]@.len() ==> (#[trigger] n[s]@[i]).to < n.len()
}

/// The states of `n` that existed in `o` kept their edges, maybe with more.
pub open spec fn nfa_grows(o: Seq<Vec<NfaEdge>>, n: Seq<Vec<NfaEdge>>) -> bool {
    &&& o.len() <= n.len()
    &&& forall|s: int| 0 <= s < o.len() ==> #[trigger] o[s]@.len() <= n[s]@.len()
}

/// The label is one of `types`, or there is none.
pub open spec fn term_ok(term: Option<Arc<NodeType>>, types: Seq<Arc<NodeType>>) -> bool {
    match term {
        Some(t) => types.contains(t),
        None => true,
    }
}

/// Every edge is labelled with one of `types`, or unlabelled.
pub open spec fn nfa_terms_in(n: Seq<Vec<NfaEdge>>, types: Seq<Arc<NodeType>>) -> bool {
    forall|s: int, i: int| 0 <= s < n.len() && 0 <= i < n[s]@.len() ==> term_ok((#[trigger] n[s]@[i]).term, types)
}

/// Every name in the expression is one of `types`.
pub open spec fn expr_types_in(e: Expr, types: Seq<Arc<NodeType>>) -> bool
    decreases e,
{
    match e {
        Expr::Name(t) => types.contains(t),
        Expr::Choice(es) => forall|i: int| 0 <= i < es@.len() ==> expr_types_in(#[trigger] es@[i], types),
        Expr::Sequence(es) => forall|i: int| 0 <= i < es@.len() ==> expr_types_in(#[trigger] es@[i], types),
        Expr::Plus(x) => expr_types_in(*x, types),
        Expr::Star(x) => expr_types_in(*x, types),
        Expr::Opt(x) => expr_types_in(*x, types),
        Expr::Range { min, max, expr } => expr_types_in(*expr, types),
    }
}

/// The dangling edges `d` name edges of `n`.
pub open spec fn edges_valid(d: Seq<(usize, usize)>, n: Seq<Vec<NfaEdge>>) -> bool {
    forall|k: int| 0 <= k < d.len() ==> (#[trigger] d[k]).0 < n.len() && d[k].1 < n[d[k].0 as int]@.len()
}

/// The list `d` names edge `i` of state `s`.
pub open spec fn listed(d: Seq<(usize, usize)>, s: int, i: int) -> bool {
    exists|q: int| 0 <= q < d.len() && d[q].0 == s && d[q].1 == i
}

/// The edges of `o` are in `n`, unchanged; `n` may have more states and
/// more edges.
pub open spec fn keeps(o: Seq<Vec<NfaEdge>>, n: Seq<Vec<NfaEdge>>) -> bool {
    &&& o.len() <= n.len()
    &&& forall|s: int| 0 <= s < o.len() ==> #[trigger] o[s]@.len() <= n[s]@.len()
    &&& forall|s: int, i: int| 0 <= s < o.len() && 0 <= i < o[s]@.len() ==> #[trigger] n[s]@[i] == o[s]@[i]
}

/// Every edge the list names was not yet in `o`.
pub open spec fn all_fresh(o: Seq<Vec<NfaEdge>>, d: Seq<(usize, usize)>) -> bool {
    forall|k: int| 0 <= k < d.len() ==> (#[trigger] d[k]).0 >= o.len() || d[k].1 >= o[d[k].0 as int]@.len()
}

pub proof fn lemma_keeps_trans(a: Seq<Vec<NfaEdge>>, b: Seq<Vec<NfaEdge>>, c: Seq<Vec<NfaEdge>>)
    requires
        keeps(a, b),
        keeps(b, c),
    ensures
        keeps(a, c),
{
    assert forall|s: int| 0 <= s < a.len() implies #[trigger] a[s]@.len() <= c[s]@.len() by {
        assert(a[s]@.len() <= b[s]@.len());
        assert(b[s]@.len() <= c[s]@.len());
    }
    assert forall|s: int, i: int| 0 <= s < a.len() && 0 <= i < a[s]@.len() implies #[trigger] c[s]@[i] == a[s]@[i] by {
        assert(a[s]@.len() <= b[s]@.len());
        assert(b[s]@[i] == a[s]@[i]);
        assert(c[s]@[i] == b[s]@[i]);
    }
}

pub proof fn lemma_keeps_fresh(o: Seq<Vec<NfaEdge>>, m: Seq<Vec<NfaEdge>>, d: Seq<(usize, usize)>)
    requires
        keeps(o, m),
        all_fresh(m, d),
    ensures
        all_fresh(o, d),
{
    assert forall|k: int| 0 <= k < d.len() implies (#[trigger] d[k]).0 >= o.len() || d[k].1 >= o[d[k].0 as int]@.len() by {
        if d[k].0 < o.len() {
            assert(o[d[k].0 as int]@.len() <= m[d[k].0 as int]@.len());
        }
    }
}

pub proof fn lemma_keeps_change(a: Seq<Vec<NfaEdge>>, b: Seq<Vec<NfaEdge>>)
    requires
        a.len() <= b.len(),
        forall|s: int| 0 <= s < a.len() ==> #[trigger] a[s]@.len() <= b[s]@.len(),
        forall|s: int, i: int| 0 <= s < a.len() && 0 <= i < a[s]@.len() ==> #[trigger] b[s]@[i] == a[s]@[i],
    ensures
        keeps(a, b),
{
}

/// Redirecting edges that were not in `o` keeps the edges of `o`.
proof fn lemma_keeps_connect(o: Seq<Vec<NfaEdge>>, a: Seq<Vec<NfaEdge>>, b: Seq<Vec<NfaEdge>>, d: Seq<(usize, usize)>)
    requires
        keeps(o, a),
        all_fresh(o, d),
        a.len() == b.len(),
        forall|s: int| 0 <= s < b.len() ==> #[trigger] b[s]@.len() == a[s]@.len(),
        forall|s: int, i: int| 0 <= s < b.len() && 0 <= i < b[s]@.len() ==> if listed(d, s, i) {
            (#[trigger] b[s]@[i]).to == b[s]@[i].to
        } else {
            b[s]@[i] == a[s]@[i]
        },
    ensures
        keeps(o, b),
{
    assert forall|s: int| 0 <= s < o.len() implies #[trigger] o[s]@.len() <= b[s]@.len() by {
        assert(o[s]@.len() <= a[s]@.len());
    }
    assert forall|s: int, i: int| 0 <= s < o.len() && 0 <= i < o[s]@.len() implies #[trigger] b[s]@[i] == o[s]@[i] by {
        assert(o[s]@.len() <= a[s]@.len());
        assert(a[s]@[i] == o[s]@[i]);
        if listed(d, s, i) {
            let q = choose|q: int| 0 <= q < d.len() && d[q].0 == s && d[q].1 == i;
            assert(d[q].0 >= o.len() || d[q].1 >= o[d[q].0 as int]@.len());
        }
    }
}

/// Adds a state without edges; its index.
fn new_state(states: &mut Vec<Vec<NfaEdge>>) -> (r: usize)
    requires
        nfa_wf(old(states)@),
    ensures
        final(states)@.len() == old(states)@.len() + 1,
        forall|s: int| 0 <= s < old(states)@.len() ==> final(states)@[s] == old(states)@[s],
        final(states)@[r as int]@.len() == 0,
        r == old(states)@.len(),
        nfa_wf(final(states)@),
{
    states.push(Vec::new());
    let r = states.len() - 1;
    assert forall|s: int, i: int| 0 <= s < states@.len() && 0 <= i < states@[s]@.len() implies (#[trigger] states@[s]@[i]).to < states@.len() by {
        if s < old(states)@.len() {
            assert(old(states)@[s]@[i] == states@[s]@[i]);
        }
    }
    r
}

/// Adds an edge from `from` to `to`; its index among the edges of `from`.
fn add_edge(states: &mut Vec<Vec<NfaEdge>>, from: usize, to: usize, term: Option<Arc<NodeType>>) -> (r: usize)
    requires
        nfa_wf(old(states)@),
        from < old(states)@.len(),
        to < old(states)@.len(),
    ensures
        nfa_wf(final(states)@),
        nfa_grows(old(states)@, final(states)@),
        final(states)@.len() == old(states)@.len(),
        r == old(states)@[from as int]@.len(),
        final(states)@[from as int]@ == old(states)@[from as int]@.push(NfaEdge { term, to }),
        forall|s: int| 0 <= s < final(states)@.len() && s != from ==> final(states)@[s] == old(states)@[s],
{
    let mut row: Vec<NfaEdge> = Vec::new();
    states.set_and_swap(from, &mut row);
    let r = row.len();
    row.push(NfaEdge { term, to });
    states.set_and_swap(from, &mut row);
    assert forall|s: int, i: int| 0 <= s < states@.len() && 0 <= i < states@[s]@.len() implies (#[trigger] states@[s]@[i]).to < states@.len() by {
        if s != from as int {
            assert(old(states)@[s]@[i] == states@[s]@[i]);
        } else if i < r {
            assert(old(states)@[s]@[i] == states@[s]@[i]);
        }
    }
    r
}

/// Points every dangling edge in `edges` at `to`.
fn connect(states: &mut Vec<Vec<NfaEdge>>, edges: &Vec<(usize, usize)>, to: usize)
    requires
        nfa_wf(old(states)@),
        edges_valid(edges@, old(states)@),
        to < old(states)@.len(),
    ensures
        nfa_wf(final(states)@),
        final(states)@.len() == old(states)@.len(),
        forall|s: int| 0 <= s < final(states)@.len() ==> #[trigger] final(states)@[s]@.len() == old(states)@[s]@.len(),
        forall|s: int, i: int| 0 <= s < final(states)@.len() && 0 <= i < final(states)@[s]@.len() ==> (#[trigger] final(states)@[s]@[i]).term == old(states)@[s]@[i].term,
        forall|s: int, i: int| 0 <= s < final(states)@.len() && 0 <= i < final(states)@[s]@.len() ==> if listed(edges@, s, i) {
            (#[trigger] final(states)@[s]@[i]).to == to
        } else {
            final(states)@[s]@[i] == old(states)@[s]@[i]
        },
{
    let mut k: usize = 0;
    while k < edges.len()
        invariant
            k <= edges@.len(),
            nfa_wf(states@),
            to < states@.len(),
            states@.len() == old(states)@.len(),
            forall|s: int| 0 <= s < states@.len() ==> #[trigger] states@[s]@.len() == old(states)@[s]@.len(),
            forall|s: int, i: int| 0 <= s < states@.len() && 0 <= i < states@[s]@.len() ==> (#[trigger] states@[s]@[i]).term == old(states)@[s]@[i].term,
            forall|s: int, i: int| 0 <= s < states@.len() && 0 <= i < states@[s]@.len() ==> if listed(edges@.subrange(0, k as int), s, i) {
                (#[trigger] states@[s]@[i]).to == to
            } else {
                states@[s]@[i] == old(states)@[s]@[i]
            },
            edges_valid(edges@, old(states)@),
        decreases edges@.len() - k,
    {
        let (s, i) = edges[k];
        assert(edges@[k as int].0 < old(states)@.len());
        let ghost before = states@;
        let mut row: Vec<NfaEdge> = Vec::new();
        states.set_and_swap(s, &mut row);
        let mut e = NfaEdge { term: None, to: 0 };
        row.set_and_swap(i, &mut e);
        e.to = to;
        row.set_and_swap(i, &mut e);
        states.set_and_swap(s, &mut row);
        assert forall|a: int, b: int| 0 <= a < states@.len() && 0 <= b < states@[a]@.len() implies (#[trigger] states@[a]@[b]).to < states@.len() && states@[a]@[b].term == old(states)@[a]@[b].term by {
            if a != s as int || b != i as int {
                assert(before[a]@[b] == states@[a]@[b]);
            }
        }
        assert forall|a: int| 0 <= a < states@.len() implies #[trigger] states@[a]@.len() == old(states)@[a]@.len() by {
            assert(states@[a]@.len() == before[a]@.len());
        }
        assert forall|a: int, b: int| 0 <= a < states@.len() && 0 <= b < states@[a]@.len() implies if listed(edges@.subrange(0, k + 1), a, b) {
            (#[trigger] states@[a]@[b]).to == to
        } else {
            states@[a]@[b] == old(states)@[a]@[b]
        } by {
            let sub0 = edges@.subrange(0, k as int);
            let sub1 = edges@.subrange(0, k + 1);
            assert(sub1 =~= sub0.push((s, i)));
            if a != s as int || b != i as int {
                assert(before[a]@[b] == states@[a]@[b]);
                if listed(sub1, a, b) {
                    let q = choose|q: int| 0 <= q < sub1.len() && sub1[q].0 == a && sub1[q].1 == b;
                    assert(q < sub0.len());
                    assert(sub0[q] == sub1[q]);
                }
                if listed(sub0, a, b) {
                    let q = choose|q: int| 0 <= q < sub0.len() && sub0[q].0 == a && sub0[q].1 == b;
                    assert(sub1[q] == sub0[q]);
                }
            } else {
                assert(sub1[k as int] == (s, i));
            }
        }
        k = k + 1;
    }
    assert(edges@.subrange(0, edges@.len() as int) =~= edges@);
}

/// Adds the states and edges for `expr`, starting at `from`; the edges whose
/// target is still to be set, at the end of the expression. Every word of
/// the expression leaves `from` through one of them.
#[verifier::loop_isolation(false)]
#[verifier::spinoff_prover]
#[verifier::rlimit(100)]
fn compile(expr: &Expr, from: usize, states: &mut Vec<Vec<NfaEdge>>, Ghost(types): Ghost<Seq<Arc<NodeType>>>) -> (r: Vec<(usize, usize)>)
    requires
        nfa_wf(old(states)@),
        nfa_terms_in(old(states)@, types),
        expr_types_in(*expr, types),
        from < old(states)@.len(),
    ensures
        nfa_wf(final(states)@),
        nfa_terms_in(final(states)@, types),
        nfa_grows(old(states)@, final(states)@),
        keeps(old(states)@, final(states)@),
        edges_valid(r@, final(states)@),
        all_fresh(old(states)@, r@),
        seqs_nonempty(*expr) ==> leaves(*expr, old(states)@, final(states)@, from as int, r@),
        exact_ok(*expr) ==> conv_spec(old(states)@, final(states)@, from as int, *expr, r@),
    decreases expr,
{
    match expr {
        Expr::Name(nt) => {
            let idx = add_edge(states, from, 0, Some(share(nt)));
            proof {
                lemma_terms_after_add(old(states)@, states@, from as int, types);
                lemma_keeps_change(old(states)@, states@);
            }
            let mut out: Vec<(usize, usize)> = Vec::new();
            out.push((from, idx));
            proof {
                assert forall|w: Seq<Seq<char>>| #[trigger] describes(*expr, w) implies exits(old(states)@, states@, from as int, w, out@) by {
                    assert(w.take(0) =~= Seq::<Seq<char>>::empty());
                    assert(w.skip(0) =~= w);
                    assert(walk(states@, Seq::<(usize, usize)>::empty(), from as int, w.take(0), out@[0].0 as int));
                    assert(edge_word(edge_at(states@, out@[0])) == w);
                }
                assert(added(old(states)@, states@, from, idx));
                lemma_name_conv(old(states)@, states@, from, idx, *expr);
                assert(out@ =~= seq![(from, idx)]);
            }
            out
        },
        Expr::Choice(exprs) => {
            let mut out: Vec<(usize, usize)> = Vec::new();
            let mut k: usize = 0;
            proof {
                lemma_conv_spec_none(old(states)@, from as int, *expr);
                assert(out@ =~= seq![]);
            }
            while k < exprs.len()
                invariant
                    k <= exprs@.len(),
                    nfa_wf(states@),
                    nfa_terms_in(states@, types),
                    nfa_grows(old(states)@, states@),
                    keeps(old(states)@, states@),
                    edges_valid(out@, states@),
                    all_fresh(old(states)@, out@),
                    from < states@.len(),
                    *expr == Expr::Choice(*exprs),
                    forall|i: int| 0 <= i < exprs@.len() ==> expr_types_in(#[trigger] exprs@[i], types),
                    seqs_nonempty(*expr) ==> forall|i: int, w: Seq<Seq<char>>|
                        0 <= i < k && #[trigger] describes(exprs@[i], w) ==> exits(old(states)@, states@, from as int, w, out@),
                    exact_ok(*expr) ==> conv_spec(old(states)@, states@, from as int, *expr, out@),
                decreases exprs@.len() - k,
            {
                let ghost before = states@;
                let ghost out0 = out@;
                let sub = compile(&exprs[k], from, states, Ghost(types));
                let ghost after_sub = states@;
                proof {
                    lemma_grows_trans(old(states)@, before, states@);
                    lemma_valid_grows(out@, before, states@);
                    lemma_keeps_trans(old(states)@, before, states@);
                    lemma_keeps_fresh(old(states)@, before, sub@);
                }
                let mut j: usize = 0;
                while j < sub.len()
                    invariant
                        j <= sub@.len(),
                        edges_valid(out@, states@),
                        edges_valid(sub@, states@),
                        all_fresh(old(states)@, out@),
                        all_fresh(old(states)@, sub@),
                        out@ == out0 + sub@.subrange(0, j as int),
                    decreases sub@.len() - j,
                {
                    let ghost o0 = out@;
                    out.push(sub[j]);
                    proof {
                        assert forall|q: int| 0 <= q < out@.len() implies (#[trigger] out@[q]).0 >= old(states)@.len()
                            || out@[q].1 >= old(states)@[out@[q].0 as int]@.len() by {
                            if q < o0.len() {
                                assert(out@[q] == o0[q]);
                            } else {
                                assert(out@[q] == sub@[j as int]);
                            }
                        }
                        assert(out@ =~= out0 + sub@.subrange(0, j + 1));
                    }
                    j = j + 1;
                }
                proof {
                    assert(out@ =~= out0 + sub@);
                    if exact_ok(*expr) {
                        assert(exact_ok(exprs@[k as int]));
                        lemma_choice_step(old(states)@, before, after_sub, from as int, *expr, k as int, out0, sub@);
                    }
                    if seqs_nonempty(*expr) {
                        assert(seqs_nonempty(exprs@[k as int]));
                        assert forall|i: int, w: Seq<Seq<char>>|
                            0 <= i < k + 1 && #[trigger] describes(exprs@[i], w) implies exits(old(states)@, states@, from as int, w, out@) by {
                            if i < k {
                                lemma_exits_extend(old(states)@, before, states@, from as int, w, out0, sub@);
                            } else {
                                lemma_exits_prefix(old(states)@, before, states@, from as int, w, out0, sub@);
                            }
                        }
                    }
                }
                k = k + 1;
            }
            proof {
                if seqs_nonempty(*expr) {
                    assert forall|w: Seq<Seq<char>>| #[trigger] describes(*expr, w) implies exits(old(states)@, states@, from as int, w, out@) by {
                        let i = choose|i: int| 0 <= i < exprs@.len() && describes(#[trigger] exprs@[i], w);
                    }
                }
            }
            out
        },
        Expr::Sequence(exprs) => {
            let mut cur = from;
            let mut k: usize = 0;
            proof {
                lemma_seq_start(old(states)@, from as int, *expr);
                assert forall|u: Seq<Seq<char>>| #[trigger] describes_prefix(*expr, 0, u) implies reach(old(states)@, states@, from as int, u, from as int) by {
                    assert(u =~= seq![]);
                    lemma_reach_empty(old(states)@, states@, from as int);
                }
            }
            while k < exprs.len()
                invariant
                    k <= exprs@.len(),
                    exprs@.len() > 0 ==> k < exprs@.len(),
                    nfa_wf(states@),
                    nfa_terms_in(states@, types),
                    nfa_grows(old(states)@, states@),
                    keeps(old(states)@, states@),
                    cur < states@.len(),
                    *expr == Expr::Sequence(*exprs),
                    forall|i: int| 0 <= i < exprs@.len() ==> expr_types_in(#[trigger] exprs@[i], types),
                    seqs_nonempty(*expr) ==> forall|u: Seq<Seq<char>>|
                        #[trigger] describes_prefix(*expr, k as int, u) ==> reach(old(states)@, states@, from as int, u, cur as int),
                    exact_ok(*expr) ==> seq_ok(old(states)@, states@, from as int, *expr, k as int, cur as int),
                decreases exprs@.len() - k,
            {
                let ghost before = states@;
                let edges = compile(&exprs[k], cur, states, Ghost(types));
                let ghost after_c = states@;
                proof {
                    if exact_ok(*expr) {
                        assert(exact_ok(exprs@[k as int]));
                    }
                }
                proof {
                    lemma_grows_trans(old(states)@, before, states@);
                    lemma_keeps_trans(old(states)@, before, states@);
                    lemma_keeps_fresh(old(states)@, before, edges@);
                    if seqs_nonempty(*expr) {
                        assert(seqs_nonempty(exprs@[k as int]));
                    }
                }
                if k < exprs.len() - 1 {
                    let ghost before2 = states@;
                    let next = new_state(states);
                    proof {
                        lemma_valid_grows(edges@, before2, states@);
                        lemma_terms_push(before2, states@, types);
                        lemma_grows_trans(old(states)@, before2, states@);
                        lemma_keeps_change(before2, states@);
                        lemma_keeps_trans(old(states)@, before2, states@);
                    }
                    let ghost before3 = states@;
                    connect(states, &edges, next);
                    proof {
                        lemma_terms_connect(before3, states@, types);
                        lemma_keeps_connect(old(states)@, before3, states@, edges@);
                        assert(connected(before3, states@, edges@, next as int));
                        if seqs_nonempty(*expr) {
                            lemma_seq_step(old(states)@, before, before2, before3, states@, *expr, k as int, from as int, cur as int, next as int, edges@);
                        }
                        if exact_ok(*expr) {
                            lemma_seq_conv_step(old(states)@, before, after_c, before3, states@, from as int, *expr, k as int, cur as int, edges@);
                        }
                    }
                    cur = next;
                } else {
                    proof {
                        if seqs_nonempty(*expr) {
                            lemma_seq_last(old(states)@, before, states@, *expr, from as int, cur as int, edges@);
                        }
                        if exact_ok(*expr) {
                            lemma_seq_conv_last(old(states)@, before, after_c, from as int, *expr, k as int, cur as int, edges@);
                        }
                    }
                    return edges;
                }
                k = k + 1;
            }
            let none: Vec<(usize, usize)> = Vec::new();
            proof {
                if exact_ok(*expr) {
                    lemma_seq_empty(old(states)@, states@, from as int, *expr, k as int, cur as int);
                }
                assert(none@ =~= seq![]);
            }
            none
        },
        Expr::Star(inner) => {
            let loop_state = new_state(states);
            proof {
                lemma_terms_push(old(states)@, states@, types);
                lemma_keeps_change(old(states)@, states@);
            }
            let ghost s1 = states@;
            let idx1 = add_edge(states, from, loop_state, None);
            proof {
                lemma_terms_after_add(s1, states@, from as int, types);
                lemma_keeps_change(s1, states@);
                lemma_keeps_trans(old(states)@, s1, states@);
            }
            let ghost s2 = states@;
            let inner_edges = compile(inner, loop_state, states, Ghost(types));
            proof {
                lemma_keeps_trans(old(states)@, s2, states@);
                lemma_keeps_fresh(old(states)@, s2, inner_edges@);
            }
            let ghost s3 = states@;
            connect(states, &inner_edges, loop_state);
            proof {
                lemma_terms_connect(s3, states@, types);
                lemma_keeps_connect(old(states)@, s3, states@, inner_edges@);
            }
            let ghost s4 = states@;
            let idx = add_edge(states, loop_state, 0, None);
            proof {
                lemma_terms_after_add(s4, states@, loop_state as int, types);
                lemma_keeps_change(s4, states@);
                lemma_keeps_trans(old(states)@, s4, states@);
                lemma_grows_trans(old(states)@, s1, s2);
                lemma_grows_trans(old(states)@, s2, s3);
                lemma_grows_trans(old(states)@, s3, s4);
                lemma_grows_trans(old(states)@, s4, states@);
                if exact_ok(*expr) {
                    assert(grown(old(states)@, s1));
                    assert(added(s1, s2, from, idx1));
                    assert(added(s4, states@, loop_state, idx));
                    assert(joined_to(s3, s4, inner_edges@, loop_state as int));
                    assert(inner_of(*expr) == **inner);
                    lemma_keeps_trans(old(states)@, s1, s2);
                    lemma_star_conv(old(states)@, s1, s2, s3, s4, states@, from, loop_state, idx1, idx, inner_edges@, *expr);
                }
                if seqs_nonempty(*expr) {
                    assert(connected(s3, s4, inner_edges@, loop_state as int));
                    assert(s1[from as int] == old(states)@[from as int]);
                    lemma_star_words(old(states)@, s2, s3, s4, states@, *expr, from as int, loop_state as int,
                        (from, idx1), (loop_state, idx), inner_edges@);
                }
            }
            let mut out: Vec<(usize, usize)> = Vec::new();
            out.push((loop_state, idx));
            proof {
                assert(out@ =~= seq![(loop_state, idx)]);
            }
            out
        },
        Expr::Plus(inner) => {
            let loop_state = new_state(states);
            proof {
                lemma_terms_push(old(states)@, states@, types);
                lemma_keeps_change(old(states)@, states@);
            }
            let ghost s1 = states@;
            let edges1 = compile(inner, from, states, Ghost(types));
            proof {
                lemma_keeps_trans(old(states)@, s1, states@);
                lemma_keeps_fresh(old(states)@, s1, edges1@);
            }
            let ghost s2 = states@;
            connect(states, &edges1, loop_state);
            proof {
                lemma_terms_connect(s2, states@, types);
                lemma_keeps_connect(old(states)@, s2, states@, edges1@);
            }
            let ghost s3 = states@;
            let edges2 = compile(inner, loop_state, states, Ghost(types));
            proof {
                lemma_keeps_trans(old(states)@, s3, states@);
                lemma_keeps_fresh(old(states)@, s3, edges2@);
            }
            let ghost s4 = states@;
            connect(states, &edges2, loop_state);
            proof {
                lemma_terms_connect(s4, states@, types);
                lemma_keeps_connect(old(states)@, s4, states@, edges2@);
            }
            let ghost s5 = states@;
            let idx = add_edge(states, loop_state, 0, None);
            proof {
                lemma_terms_after_add(s5, states@, loop_state as int, types);
                lemma_keeps_change(s5, states@);
                lemma_keeps_trans(old(states)@, s5, states@);
                lemma_grows_trans(old(states)@, s1, s2);
                lemma_grows_trans(old(states)@, s2, s3);
                lemma_grows_trans(old(states)@, s3, s4);
                lemma_grows_trans(old(states)@, s4, s5);
                lemma_grows_trans(old(states)@, s5, states@);
                if exact_ok(*expr) {
                    assert(grown(old(states)@, s1));
                    assert(added(s5, states@, loop_state, idx));
                    assert(joined_to(s2, s3, edges1@, loop_state as int));
                    assert(joined_to(s4, s5, edges2@, loop_state as int));
                    assert(inner_of(*expr) == **inner);
                    lemma_plus_conv(old(states)@, s1, s2, s3, s4, s5, states@, from, loop_state, idx, edges1@, edges2@, *expr);
                }
                if seqs_nonempty(*expr) {
                    assert(connected(s2, s3, edges1@, loop_state as int));
                    assert(connected(s4, s5, edges2@, loop_state as int));
                    lemma_plus_words(old(states)@, s1, s2, s3, s4, s5, states@, *expr, from as int, loop_state as int,
                        edges1@, edges2@, (loop_state, idx));
                }
            }
            let mut out: Vec<(usize, usize)> = Vec::new();
            out.push((loop_state, idx));
            proof {
                assert(out@ =~= seq![(loop_state, idx)]);
            }
            out
        },
        Expr::Opt(inner) => {
            let idx = add_edge(states, from, 0, None);
            proof {
                lemma_terms_after_add(old(states)@, states@, from as int, types);
                lemma_keeps_change(old(states)@, states@);
            }
            let ghost s1 = states@;
            let mut edges: Vec<(usize, usize)> = Vec::new();
            edges.push((from, idx));
            let ghost e0 = edges@;
            let sub = compile(inner, from, states, Ghost(types));
            proof {
                lemma_grows_trans(old(states)@, s1, states@);
                lemma_valid_grows(edges@, s1, states@);
                lemma_keeps_trans(old(states)@, s1, states@);
                lemma_keeps_fresh(old(states)@, s1, sub@);
            }
            let mut j: usize = 0;
            while j < sub.len()
                invariant
                    j <= sub@.len(),
                    edges_valid(edges@, states@),
                    edges_valid(sub@, states@),
                    all_fresh(old(states)@, edges@),
                    all_fresh(old(states)@, sub@),
                    edges@ == e0 + sub@.subrange(0, j as int),
                decreases sub@.len() - j,
            {
                let ghost e1 = edges@;
                edges.push(sub[j]);
                proof {
                    assert forall|q: int| 0 <= q < edges@.len() implies (#[trigger] edges@[q]).0 >= old(states)@.len()
                        || edges@[q].1 >= old(states)@[edges@[q].0 as int]@.len() by {
                        if q < e1.len() {
                            assert(edges@[q] == e1[q]);
                        } else {
                            assert(edges@[q] == sub@[j as int]);
                        }
                    }
                    assert(edges@ =~= e0 + sub@.subrange(0, j + 1));
                }
                j = j + 1;
            }
            proof {
                assert(edges@ =~= e0 + sub@);
                assert(e0 =~= seq![(from, idx)]);
                if exact_ok(*expr) {
                    assert(added(old(states)@, s1, from, idx));
                    lemma_opt_conv(old(states)@, s1, states@, from, idx, sub@, *expr);
                }
                if seqs_nonempty(*expr) {
                    lemma_opt_words(old(states)@, s1, states@, **inner, from as int, (from, idx), sub@);
                    assert forall|w: Seq<Seq<char>>| #[trigger] describes(*expr, w) implies exits(old(states)@, states@, from as int, w, edges@) by {
                        assert(w.len() == 0 || describes(**inner, w));
                    }
                }
            }
            edges
        },
        Expr::Range { min, max, expr: inner } => {
            let mut cur = from;
            let mut k: usize = 0;
            proof {
                lemma_range_start(old(states)@, from as int, *expr);
                if exact_ok(*expr) {
                    assert(mand_hi(*expr, 0) == Some(0int));
                }
                assert forall|u: Seq<Seq<char>>| #[trigger] describes_reps(*expr, 0, u) implies reach(old(states)@, states@, from as int, u, from as int) by {
                    assert(u =~= seq![]);
                    lemma_reach_empty(old(states)@, states@, from as int);
                }
            }
            while k < *min
                invariant
                    k <= *min,
                    nfa_wf(states@),
                    nfa_terms_in(states@, types),
                    nfa_grows(old(states)@, states@),
                    keeps(old(states)@, states@),
                    cur < states@.len(),
                    *expr == (Expr::Range { min: *min, max: *max, expr: *inner }),
                    expr_types_in(**inner, types),
                    seqs_nonempty(*expr) ==> reach_reps(old(states)@, states@, *expr, k as int, from as int, cur as int),
                    exact_ok(*expr) ==> rng_ok(old(states)@, states@, from as int, *expr, k as int, mand_hi(*expr, k as int), cur as int),
                    k > 0 ==> cur >= old(states)@.len(),
                decreases *min - k,
            {
                let ghost s0 = states@;
                let next = new_state(states);
                proof {
                    lemma_terms_push(s0, states@, types);
                    lemma_grows_trans(old(states)@, s0, states@);
                    lemma_keeps_change(s0, states@);
                    lemma_keeps_trans(old(states)@, s0, states@);
                }
                let ghost s1 = states@;
                let edges = compile(inner, cur, states, Ghost(types));
                proof {
                    lemma_keeps_trans(old(states)@, s1, states@);
                    lemma_keeps_fresh(old(states)@, s1, edges@);
                }
                let ghost s2 = states@;
                connect(states, &edges, next);
                proof {
                    lemma_terms_connect(s2, states@, types);
                    lemma_grows_trans(old(states)@, s1, s2);
                    lemma_grows_trans(old(states)@, s2, states@);
                    lemma_keeps_connect(old(states)@, s2, states@, edges@);
                    if seqs_nonempty(*expr) {
                        assert forall|u: Seq<Seq<char>>| #[trigger] describes_reps(*expr, k as int, u) implies reach(old(states)@, s1, from as int, u, cur as int) by {
                            lemma_reach_keeps(old(states)@, s0, s1, from as int, u, cur as int);
                        }
                        assert(connected(s2, states@, edges@, next as int));
                        lemma_reps_step(old(states)@, s1, s2, states@, *expr, k as int, from as int, cur as int, next as int, edges@);
                    }
                    if exact_ok(*expr) {
                        assert(exact_ok(**inner));
                        assert(inner_of(*expr) == **inner);
                        assert(mand_hi(*expr, k as int) == Some(k as int));
                        assert(grown(s0, s1));
                        assert(joined_to(s2, states@, edges@, s0.len() as int));
                        lemma_range_step(old(states)@, s0, s1, s2, states@, from as int, *expr, k as int, cur as int, edges@, mand_hi(*expr, k + 1));
                    }
                }
                cur = next;
                k = k + 1;
            }
            match max {
                None => {
                    let ghost s1 = states@;
                    let edges = compile(inner, cur, states, Ghost(types));
                    proof {
                        lemma_keeps_trans(old(states)@, s1, states@);
                        lemma_keeps_fresh(old(states)@, s1, edges@);
                    }
                    let ghost s2 = states@;
                    connect(states, &edges, cur);
                    proof {
                        lemma_terms_connect(s2, states@, types);
                        lemma_grows_trans(old(states)@, s1, s2);
                        lemma_grows_trans(old(states)@, s2, states@);
                        lemma_keeps_connect(old(states)@, s2, states@, edges@);
                        if seqs_nonempty(*expr) {
                            assert(connected(s2, states@, edges@, cur as int));
                            lemma_range_open(old(states)@, s1, s2, states@, *expr, from as int, cur as int, edges@);
                        }
                        if exact_ok(*expr) {
                            assert(exact_ok(**inner));
                            assert(inner_of(*expr) == **inner);
                            assert(mand_hi(*expr, k as int) == None::<int>);
                            assert(joined_to(s2, states@, edges@, cur as int));
                            lemma_range_open_conv(old(states)@, s1, s2, states@, from as int, *expr, cur as int, edges@);
                        }
                    }
                },
                Some(m) => {
                    let mut k: usize = *min;
                    proof {
                        if exact_ok(*expr) {
                            assert(mand_hi(*expr, *min as int) == Some(*min as int));
                        }
                        if seqs_nonempty(*expr) {
                            assert forall|u: Seq<Seq<char>>, n: int| #[trigger] describes_reps(*expr, n, u) && *min <= n <= k implies reach(old(states)@, states@, from as int, u, cur as int) by {
                                assert(n == k);
                            }
                        }
                    }
                    while k < *m
                        invariant
                            *min <= k,
                            nfa_wf(states@),
                            nfa_terms_in(states@, types),
                            nfa_grows(old(states)@, states@),
                            keeps(old(states)@, states@),
                            cur < states@.len(),
                            *expr == (Expr::Range { min: *min, max: *max, expr: *inner }),
                            expr_types_in(**inner, types),
                            seqs_nonempty(*expr) ==> reach_reps_upto(old(states)@, states@, *expr, *min as int, k as int, from as int, cur as int),
                            exact_ok(*expr) ==> rng_ok(old(states)@, states@, from as int, *expr, *min as int, Some(k as int), cur as int),
                            exact_ok(*expr) ==> k <= *m,
                        decreases *m - k,
                    {
                        let ghost s0 = states@;
                        let next = new_state(states);
                        proof {
                            lemma_terms_push(s0, states@, types);
                            lemma_grows_trans(old(states)@, s0, states@);
                            lemma_keeps_change(s0, states@);
                            lemma_keeps_trans(old(states)@, s0, states@);
                        }
                        let ghost s1 = states@;
                        let skip = add_edge(states, cur, next, None);
                        proof {
                            lemma_terms_after_add(s1, states@, cur as int, types);
                            lemma_grows_trans(old(states)@, s1, states@);
                            lemma_keeps_change(s1, states@);
                            lemma_keeps_trans(old(states)@, s1, states@);
                            if (cur as int) < old(states)@.len() {
                                assert(old(states)@[cur as int]@.len() <= s1[cur as int]@.len());
                            }
                        }
                        let ghost s2 = states@;
                        let edges = compile(inner, cur, states, Ghost(types));
                        proof {
                            lemma_keeps_trans(old(states)@, s2, states@);
                            lemma_keeps_fresh(old(states)@, s2, edges@);
                        }
                        let ghost s3 = states@;
                        connect(states, &edges, next);
                        proof {
                            lemma_terms_connect(s3, states@, types);
                            lemma_grows_trans(old(states)@, s2, s3);
                            lemma_grows_trans(old(states)@, s3, states@);
                            lemma_keeps_connect(old(states)@, s3, states@, edges@);
                            if seqs_nonempty(*expr) {
                                assert forall|u: Seq<Seq<char>>, n: int| #[trigger] describes_reps(*expr, n, u) && *min <= n <= k implies reach(old(states)@, s1, from as int, u, cur as int) by {
                                    lemma_reach_keeps(old(states)@, s0, s1, from as int, u, cur as int);
                                }
                                assert(connected(s3, states@, edges@, next as int));
                                lemma_reps_upto_step(old(states)@, s1, s2, s3, states@, *expr, *min as int, k as int, from as int,
                                    cur as int, next as int, (cur, skip), edges@);
                            }
                            if exact_ok(*expr) {
                                assert(exact_ok(**inner));
                                assert(inner_of(*expr) == **inner);
                                assert(grown(s0, s1));
                                assert(added(s1, s2, cur, skip));
                                assert(joined_to(s3, states@, edges@, s0.len() as int));
                                lemma_range_opt_step(old(states)@, s0, s1, s2, s3, states@, from as int, *expr, *min as int, k as int, cur, skip, edges@);
                            }
                        }
                        cur = next;
                        k = k + 1;
                    }
                    proof {
                        if exact_ok(*expr) {
                            lemma_range_close(old(states)@, states@, from as int, *expr, *m as int, cur as int);
                        }
                        if seqs_nonempty(*expr) {
                            assert forall|w: Seq<Seq<char>>| #[trigger] describes(*expr, w) implies reach(old(states)@, states@, from as int, w, cur as int) by {
                                let n = choose|n: int| #[trigger] is_count(n) && *min <= n && n <= *m && describes_reps(*expr, n, w);
                                assert(describes_reps(*expr, n, w) && *min <= n <= k);
                            }
                        }
                    }
                },
            }
            let ghost s6 = states@;
            let idx = add_edge(states, cur, 0, None);
            proof {
                lemma_terms_after_add(s6, states@, cur as int, types);
                lemma_grows_trans(old(states)@, s6, states@);
                lemma_keeps_change(s6, states@);
                lemma_keeps_trans(old(states)@, s6, states@);
                if (cur as int) < old(states)@.len() {
                    assert(old(states)@[cur as int]@.len() <= s6[cur as int]@.len());
                }
            }
            let mut out: Vec<(usize, usize)> = Vec::new();
            out.push((cur, idx));
            proof {
                assert(out@ =~= seq![(cur, idx)]);
                if exact_ok(*expr) {
                    assert(added(s6, states@, cur, idx));
                    lemma_exit_conv(old(states)@, s6, states@, from as int, *expr, cur, idx);
                }
                if seqs_nonempty(*expr) {
                    assert forall|w: Seq<Seq<char>>| #[trigger] describes(*expr, w) implies exits(old(states)@, states@, from as int, w, out@) by {
                        assert(reach(old(states)@, s6, from as int, w, cur as int));
                        lemma_exits_end(old(states)@, s6, states@, from as int, w, (cur, idx));
                    }
                }
            }
            out
        },
    }
}

proof fn lemma_grows_trans(a: Seq<Vec<NfaEdge>>, b: Seq<Vec<NfaEdge>>, c: Seq<Vec<NfaEdge>>)
    requires
        nfa_grows(a, b),
        nfa_grows(b, c),
    ensures
        nfa_grows(a, c),
{
    assert forall|s: int| 0 <= s < a.len() implies #[trigger] a[s]@.len() <= c[s]@.len() by {
        assert(a[s]@.len() <= b[s]@.len());
        assert(b[s]@.len() <= c[s]@.len());
    }
}

proof fn lemma_valid_grows(d: Seq<(usize, usize)>, a: Seq<Vec<NfaEdge>>, b: Seq<Vec<NfaEdge>>)
    requires
        edges_valid(d, a),
        nfa_grows(a, b),
    ensures
        edges_valid(d, b),
{
    assert forall|k: int| 0 <= k < d.len() implies (#[trigger] d[k]).0 < b.len() && d[k].1 < b[d[k].0 as int]@.len() by {
        assert(a[d[k].0 as int]@.len() <= b[d[k].0 as int]@.len());
    }
}

proof fn lemma_terms_push(a: Seq<Vec<NfaEdge>>, b: Seq<Vec<NfaEdge>>, types: Seq<Arc<NodeType>>)
    requires
        nfa_terms_in(a, types),
        b.len() == a.len() + 1,
        forall|s: int| 0 <= s < a.len() ==> b[s] == a[s],
        b.last()@.len() == 0,
    ensures
        nfa_terms_in(b, types),
        nfa_grows(a, b),
{
    assert forall|s: int, i: int| 0 <= s < b.len() && 0 <= i < b[s]@.len() implies term_ok((#[trigger] b[s]@[i]).term, types) by {
        if s < a.len() {
            assert(a[s]@[i] == b[s]@[i]);
        }
    }
    assert forall|s: int| 0 <= s < a.len() implies #[trigger] a[s]@.len() <= b[s]@.len() by {
        assert(a[s] == b[s]);
    }
}

proof fn lemma_terms_after_add(a: Seq<Vec<NfaEdge>>, b: Seq<Vec<NfaEdge>>, from: int, types: Seq<Arc<NodeType>>)
    requires
        nfa_terms_in(a, types),
        0 <= from < a.len(),
        a.len() == b.len(),
        b[from]@.len() == a[from]@.len() + 1,
        forall|i: int| 0 <= i < a[from]@.len() ==> b[from]@[i] == a[from]@[i],
        term_ok(b[from]@.last().term, types),
        forall|s: int| 0 <= s < b.len() && s != from ==> b[s] == a[s],
    ensures
        nfa_terms_in(b, types),
{
    assert forall|s: int, i: int| 0 <= s < b.len() && 0 <= i < b[s]@.len() implies term_ok((#[trigger] b[s]@[i]).term, types) by {
        if s != from {
            assert(b[s]@[i] == a[s]@[i]);
        } else if i < a[from]@.len() {
            assert(b[s]@[i] == a[s]@[i]);
        }
    }
}

proof fn lemma_terms_connect(a: Seq<Vec<NfaEdge>>, b: Seq<Vec<NfaEdge>>, types: Seq<Arc<NodeType>>)
    requires
        nfa_terms_in(a, types),
        a.len() == b.len(),
        forall|s: int| 0 <= s < b.len() ==> #[trigger] b[s]@.len() == a[s]@.len(),
        forall|s: int, i: int| 0 <= s < b.len() && 0 <= i < b[s]@.len() ==> (#[trigger] b[s]@[i]).term == a[s]@[i].term,
    ensures
        nfa_terms_in(b, types),
        nfa_grows(a, b),
{
    assert forall|s: int, i: int| 0 <= s < b.len() && 0 <= i < b[s]@.len() implies term_ok((#[trigger] b[s]@[i]).term, types) by {
        assert(b[s]@[i].term == a[s]@[i].term);
        assert(a[s]@[i].term == (#[trigger] a[s]@[i]).term);
    }
    assert forall|s: int| 0 <= s < a.len() implies #[trigger] a[s]@.len() <= b[s]@.len() by {
        assert(b[s]@.len() == a[s]@.len());
    }
}

/// The nondeterministic automaton of an expression: start state 0, accepting
/// state the last one, which has no edges. It reads every word of the
/// expression from its start to its accepting state.
pub fn build_nfa(expr: &Expr, Ghost(types): Ghost<Seq<Arc<NodeType>>>) -> (r: Vec<Vec<NfaEdge>>)
    requires
        expr_types_in(*expr, types),
    ensures
        nfa_wf(r@),
        nfa_terms_in(r@, types),
        r@.len() >= 2,
        r@.last()@.len() == 0,
        seqs_nonempty(*expr) ==> forall|w: Seq<Seq<char>>| #[trigger] describes(*expr, w) ==> accepts(r@, w),
        exact_ok(*expr) ==> forall|w: Seq<Seq<char>>| #[trigger] accepts(r@, w) ==> describes(*expr, w),
{
    let mut states: Vec<Vec<NfaEdge>> = Vec::new();
    states.push(Vec::new());
    let ghost s0 = states@;
    assert(nfa_terms_in(states@, types));
    let dangling = compile(expr, 0, &mut states, Ghost(types));
    let ghost s1 = states@;
    let end = new_state(&mut states);
    proof {
        lemma_terms_push(s1, states@, types);
        lemma_valid_grows(dangling@, s1, states@);
        lemma_keeps_change(s1, states@);
    }
    let ghost s2 = states@;
    connect(&mut states, &dangling, end);
    proof {
        lemma_terms_connect(s2, states@, types);
        if exact_ok(*expr) {
            assert(grown(s1, s2));
            assert(joined_to(s2, states@, dangling@, s1.len() as int));
            lemma_nfa_only_words(s0, s1, s2, states@, *expr, dangling@);
        }
        if seqs_nonempty(*expr) {
            assert(connected(s2, states@, dangling@, end as int));
            assert forall|w: Seq<Seq<char>>| #[trigger] describes(*expr, w) implies accepts(states@, w) by {
                lemma_exits_keeps(s0, s1, s2, 0, w, dangling@);
                lemma_close(s0, s2, states@, 0, w, dangling@, end as int);
                let p = choose|p: Seq<(usize, usize)>| #[trigger] walk(states@, p, 0, w, end as int) && all_new(s0, p);
                assert(walk(states@, p, 0, w, states@.len() - 1));
            }
        }
    }
    states
}

} // verus!

verus! {

/// The sequence is strictly decreasing.
pub open spec fn strictly_desc(s: Seq<usize>) -> bool {
    forall|i: int, j: int| 0 <= i < j < s.len() ==> s[i] > s[j]
}

/// Every element is below `n`.
pub open spec fn below(s: Seq<usize>, n: nat) -> bool {
    forall|i: int| 0 <= i < s.len() ==> s[i] < n
}

/// Two to the power `n`.
pub open spec fn pow2(n: nat) -> nat
    decreases n,
{
    if n == 0 {
        1
    } else {
        2 * pow2((n - 1) as nat)
    }
}

/// A finite set of strictly decreasing sequences below `n` has at most
/// `2^n` elements: each stands for a distinct subset of `0..n`.
proof fn lemma_keys_bound(k: Set<Seq<usize>>, n: nat)
    requires
        k.finite(),
        forall|s: Seq<usize>| #[trigger] k.contains(s) ==> strictly_desc(s) && below(s, n),
    ensures
        k.len() <= pow2(n),
    decreases n,
{
    if n == 0 {
        let e: Seq<usize> = seq![];
        assert(k.subset_of(set![e])) by {
            assert forall|s: Seq<usize>| k.contains(s) implies set![e].contains(s) by {
                if s.len() > 0 {
                    assert(s[0] < 0);
                }
                assert(s =~= e);
            }
        }
        vstd::set_lib::lemma_len_subset(k, set![e]);
    } else {
        let top = (n - 1) as usize;
        let pa = |s: Seq<usize>| s.len() > 0 && s[0] == top;
        let pb = |s: Seq<usize>| !(s.len() > 0 && s[0] == top);
        let a = k.filter(pa);
        let b = k.filter(pb);
        assert forall|s: Seq<usize>| #[trigger] b.contains(s) implies strictly_desc(s) && below(s, (n - 1) as nat) by {
            assert forall|i: int| 0 <= i < s.len() implies s[i] < n - 1 by {
                if i > 0 {
                    assert(s[0] > s[i]);
                }
            }
        }
        lemma_keys_bound(b, (n - 1) as nat);
        let f = |s: Seq<usize>| s.drop_first();
        let a2 = a.map(f);
        assert(vstd::relations::injective_on(f, a)) by {
            assert forall|x: Seq<usize>, y: Seq<usize>| a.contains(x) && a.contains(y) && #[trigger] f(x) == #[trigger] f(y) implies x == y by {
                assert(x =~= seq![top] + f(x));
                assert(y =~= seq![top] + f(y));
            }
        }
        vstd::set_lib::lemma_map_size(a, a2, f);
        assert forall|s: Seq<usize>| #[trigger] a2.contains(s) implies strictly_desc(s) && below(s, (n - 1) as nat) by {
            let x = choose|x: Seq<usize>| a.contains(x) && f(x) == s;
            assert forall|i: int| 0 <= i < s.len() implies s[i] < n - 1 by {
                assert(s[i] == x[i + 1]);
                assert(x[0] > x[i + 1]);
            }
            assert forall|i: int, j: int| 0 <= i < j < s.len() implies s[i] > s[j] by {
                assert(s[i] == x[i + 1]);
                assert(s[j] == x[j + 1]);
            }
        }
        lemma_keys_bound(a2, (n - 1) as nat);
        assert(a.disjoint(b));
        assert(k =~= a + b);
        vstd::set_lib::lemma_set_disjoint_lens(a, b);
    }
}

/// The keys are distinct strictly decreasing sequences below `n`.
pub open spec fn keys_ok(keys: Seq<Vec<usize>>, n: nat) -> bool {
    &&& forall|i: int| 0 <= i < keys.len() ==> strictly_desc(#[trigger] keys[i]@) && below(keys[i]@, n)
    &&& forall|i: int, j: int| 0 <= i < j < keys.len() ==> #[trigger] keys[i]@ != #[trigger] keys[j]@
}

proof fn lemma_keys_len(keys: Seq<Vec<usize>>, n: nat)
    requires
        keys_ok(keys, n),
    ensures
        keys.len() <= pow2(n),
{
    let ks = keys.map_values(|k: Vec<usize>| k@);
    assert(ks.no_duplicates()) by {
        assert forall|i: int, j: int| 0 <= i < ks.len() && 0 <= j < ks.len() && i != j implies ks[i] != ks[j] by {
            if i < j {
                assert(keys[i]@ != keys[j]@);
            } else {
                assert(keys[j]@ != keys[i]@);
            }
        }
    }
    ks.unique_seq_to_set();
    assert forall|s: Seq<usize>| #[trigger] ks.to_set().contains(s) implies strictly_desc(s) && below(s, n) by {
        let i = choose|i: int| 0 <= i < ks.len() && ks[i] == s;
        assert(keys[i]@ == s);
    }
    lemma_keys_bound(ks.to_set(), n);
}

/// The number of `false` entries.
pub open spec fn count_false(s: Seq<bool>) -> nat
    decreases s.len(),
{
    if s.len() == 0 {
        0
    } else {
        count_false(s.drop_last()) + if s.last() { 0nat } else { 1nat }
    }
}

proof fn lemma_count_mono(a: Seq<bool>, b: Seq<bool>)
    requires
        a.len() == b.len(),
        forall|i: int| 0 <= i < a.len() && a[i] ==> b[i],
    ensures
        count_false(b) <= count_false(a),
    decreases a.len(),
{
    if a.len() > 0 {
        lemma_count_mono(a.drop_last(), b.drop_last());
    }
}

pub proof fn lemma_count_set(a: Seq<bool>, k: int)
    requires
        0 <= k < a.len(),
        !a[k],
    ensures
        count_false(a.update(k, true)) + 1 == count_false(a),
    decreases a.len(),
{
    let b = a.update(k, true);
    if k == a.len() - 1 {
        assert(b.drop_last() =~= a.drop_last());
    } else {
        assert(b.drop_last() =~= a.drop_last().update(k, true));
        lemma_count_set(a.drop_last(), k);
    }
}

/// State `s` has a single edge, unlabelled: collecting passes through it.
pub open spec fn passes(n: Seq<Vec<NfaEdge>>, s: int) -> bool {
    n[s]@.len() == 1 && n[s]@[0].term is None
}

/// `y` is reached from `x` over unlabelled edges.
pub open spec fn eps_reach(n: Seq<Vec<NfaEdge>>, x: int, y: int) -> bool {
    exists|p: Seq<(usize, usize)>| #[trigger] walk(n, p, x, seq![], y)
}

/// One more unlabelled edge keeps a state reached over unlabelled edges.
proof fn lemma_eps_step(n: Seq<Vec<NfaEdge>>, root: int, node: usize, k: usize)
    requires
        eps_reach(n, root, node as int),
        node < n.len(),
        k < n[node as int]@.len(),
        n[node as int]@[k as int].term is None,
    ensures
        eps_reach(n, root, n[node as int]@[k as int].to as int),
{
    let p = choose|p: Seq<(usize, usize)>| #[trigger] walk(n, p, root, seq![], node as int);
    let e = (node, k);
    crate::language::lemma_walk_edge(n, e);
    assert(edge_word(edge_at(n, e)) =~= Seq::<Seq<char>>::empty());
    crate::language::lemma_walk_concat(n, p, root, seq![], node as int, seq![e], seq![], n[node as int]@[k as int].to as int);
    assert(Seq::<Seq<char>>::empty() + Seq::<Seq<char>>::empty() =~= Seq::<Seq<char>>::empty());
}

/// Every visited state that is not `open` (still being scanned) has its
/// unlabelled successors visited, and is collected unless it passes.
pub open spec fn scan_ok(n: Seq<Vec<NfaEdge>>, visited: Seq<bool>, result: Seq<usize>, open: Set<int>) -> bool {
    forall|v: int|
        0 <= v < n.len() && #[trigger] visited[v] && !open.contains(v) ==> (!passes(n, v) ==> result.contains(v as usize))
            && forall|i: int| 0 <= i < n[v]@.len() && (#[trigger] n[v]@[i]).term is None ==> visited[n[v]@[i].to as int]
}

/// Collects the states reachable from `node` over unlabelled edges, passing
/// through states whose only edge is unlabelled.
fn scan(nfa: &Vec<Vec<NfaEdge>>, node: usize, result: &mut Vec<usize>, visited: &mut Vec<bool>, Ghost(open): Ghost<Set<int>>, Ghost(root): Ghost<int>)
    requires
        eps_reach(nfa@, root, node as int),
        forall|i: int| 0 <= i < old(result)@.len() ==> eps_reach(nfa@, root, #[trigger] old(result)@[i] as int),
        nfa_wf(nfa@),
        node < nfa@.len(),
        old(visited)@.len() == nfa@.len(),
        forall|i: int| 0 <= i < old(result)@.len() ==> #[trigger] old(result)@[i] < nfa@.len() && old(visited)@[old(result)@[i] as int],
        old(result)@.no_duplicates(),
        scan_ok(nfa@, old(visited)@, old(result)@, open),
    ensures
        final(visited)@.len() == nfa@.len(),
        forall|i: int| 0 <= i < nfa@.len() && old(visited)@[i] ==> final(visited)@[i],
        count_false(final(visited)@) <= count_false(old(visited)@),
        forall|i: int| 0 <= i < final(result)@.len() ==> #[trigger] final(result)@[i] < nfa@.len() && final(visited)@[final(result)@[i] as int],
        final(result)@.no_duplicates(),
        scan_ok(nfa@, final(visited)@, final(result)@, open),
        final(visited)@[node as int],
        forall|x: usize| old(result)@.contains(x) ==> final(result)@.contains(x),
        forall|i: int| 0 <= i < final(result)@.len() ==> eps_reach(nfa@, root, #[trigger] final(result)@[i] as int),
    decreases count_false(old(visited)@),
{
    if visited[node] {
        return;
    }
    let ghost v0 = visited@;
    visited.set(node, true);
    let ghost open2 = open.insert(node as int);
    proof {
        lemma_count_set(v0, node as int);
        assert forall|v: int|
            0 <= v < nfa@.len() && #[trigger] visited@[v] && !open2.contains(v) implies (!passes(nfa@, v) ==> result@.contains(v as usize))
                && forall|i: int| 0 <= i < nfa@[v]@.len() && (#[trigger] nfa@[v]@[i]).term is None ==> visited@[nfa@[v]@[i].to as int] by {
            assert(v0[v]);
            assert forall|i: int| 0 <= i < nfa@[v]@.len() && (#[trigger] nfa@[v]@[i]).term is None implies visited@[nfa@[v]@[i].to as int] by {
                assert(v0[nfa@[v]@[i].to as int]);
            }
        }
    }
    let edges = &nfa[node];
    if edges.len() == 1 && edges[0].term.is_none() {
        assert(nfa@[node as int]@[0].to < nfa@.len());
        let ghost vb = visited@;
        proof {
            lemma_eps_step(nfa@, root, node, 0);
        }
        scan(nfa, edges[0].to, result, visited, Ghost(open2), Ghost(root));
        proof {
            assert(vb[node as int]);
            assert forall|v: int|
                0 <= v < nfa@.len() && #[trigger] visited@[v] && !open.contains(v) implies (!passes(nfa@, v) ==> result@.contains(v as usize))
                    && forall|i: int| 0 <= i < nfa@[v]@.len() && (#[trigger] nfa@[v]@[i]).term is None ==> visited@[nfa@[v]@[i].to as int] by {
                if v == node as int {
                    assert(passes(nfa@, v));
                    assert forall|i: int| 0 <= i < nfa@[v]@.len() && (#[trigger] nfa@[v]@[i]).term is None implies visited@[nfa@[v]@[i].to as int] by {
                        assert(i == 0);
                    }
                } else {
                    assert(!open2.contains(v));
                }
            }
        }
        return;
    }
    let ghost r0 = result@;
    result.push(node);
    proof {
        assert forall|i: int| 0 <= i < result@.len() implies eps_reach(nfa@, root, #[trigger] result@[i] as int) by {
            if i < r0.len() {
                assert(result@[i] == r0[i]);
            }
        }
        assert forall|i: int, j: int| 0 <= i < result@.len() && 0 <= j < result@.len() && i != j implies result@[i] != result@[j] by {
            if i == r0.len() as int {
                assert(v0[result@[j] as int]);
            } else if j == r0.len() as int {
                assert(v0[result@[i] as int]);
            }
        }
        assert(result@[r0.len() as int] == node);
        assert forall|x: usize| r0.contains(x) implies result@.contains(x) by {
            let q = choose|q: int| 0 <= q < r0.len() && r0[q] == x;
            assert(result@[q] == x);
        }
        assert forall|v: int|
            0 <= v < nfa@.len() && #[trigger] visited@[v] && !open2.contains(v) implies (!passes(nfa@, v) ==> result@.contains(v as usize))
                && forall|i: int| 0 <= i < nfa@[v]@.len() && (#[trigger] nfa@[v]@[i]).term is None ==> visited@[nfa@[v]@[i].to as int] by {
            if !passes(nfa@, v) {
                assert(r0.contains(v as usize));
            }
        }
    }
    let mut k: usize = 0;
    while k < edges.len()
        invariant
            nfa_wf(nfa@),
            node < nfa@.len(),
            edges@ == nfa@[node as int]@,
            k <= edges@.len(),
            visited@.len() == nfa@.len(),
            forall|i: int| 0 <= i < nfa@.len() && old(visited)@[i] ==> visited@[i],
            count_false(visited@) < count_false(old(visited)@),
            forall|i: int| 0 <= i < result@.len() ==> #[trigger] result@[i] < nfa@.len() && visited@[result@[i] as int],
            result@.no_duplicates(),
            scan_ok(nfa@, visited@, result@, open2),
            visited@[node as int],
            result@.contains(node),
            !passes(nfa@, node as int),
            forall|x: usize| old(result)@.contains(x) ==> result@.contains(x),
            forall|i: int| 0 <= i < k && (#[trigger] nfa@[node as int]@[i]).term is None ==> visited@[nfa@[node as int]@[i].to as int],
            eps_reach(nfa@, root, node as int),
            forall|i: int| 0 <= i < result@.len() ==> eps_reach(nfa@, root, #[trigger] result@[i] as int),
        decreases edges@.len() - k,
    {
        if edges[k].term.is_none() {
            assert(nfa@[node as int]@[k as int].to < nfa@.len());
            let ghost vb = visited@;
            proof {
                lemma_eps_step(nfa@, root, node, k);
            }
            scan(nfa, edges[k].to, result, visited, Ghost(open2), Ghost(root));
            proof {
                assert forall|i: int| 0 <= i < nfa@.len() && old(visited)@[i] implies visited@[i] by {
                    assert(vb[i]);
                }
                assert forall|i: int| 0 <= i < k + 1 && (#[trigger] nfa@[node as int]@[i]).term is None implies visited@[nfa@[node as int]@[i].to as int] by {
                    if i < k {
                        assert(vb[nfa@[node as int]@[i].to as int]);
                    }
                }
                assert(vb[node as int]);
            }
        }
        k = k + 1;
    }
    proof {
        lemma_count_mono(old(visited)@, visited@);
        assert forall|v: int|
            0 <= v < nfa@.len() && #[trigger] visited@[v] && !open.contains(v) implies (!passes(nfa@, v) ==> result@.contains(v as usize))
                && forall|i: int| 0 <= i < nfa@[v]@.len() && (#[trigger] nfa@[v]@[i]).term is None ==> visited@[nfa@[v]@[i].to as int] by {
            if v != node as int {
                assert(!open2.contains(v));
            }
        }
    }
}

/// `y` is reached from `x` over unlabelled edges, and collecting does not
/// pass through it.
pub open spec fn collected(n: Seq<Vec<NfaEdge>>, x: int, y: int) -> bool {
    &&& exists|p: Seq<(usize, usize)>| #[trigger] walk(n, p, x, seq![], y)
    &&& !passes(n, y)
}

/// A finished scan visited everything reachable over unlabelled edges from
/// a visited state.
proof fn lemma_scan_closed(n: Seq<Vec<NfaEdge>>, visited: Seq<bool>, result: Seq<usize>, p: Seq<(usize, usize)>, x: int, y: int)
    requires
        nfa_wf(n),
        visited.len() == n.len(),
        scan_ok(n, visited, result, Set::<int>::empty()),
        0 <= x < n.len(),
        visited[x],
        walk(n, p, x, seq![], y),
    ensures
        0 <= y < n.len(),
        visited[y],
    decreases p.len(),
{
    if p.len() > 0 {
        let e = p[0];
        let ed = edge_at(n, e);
        assert(edge_word(ed).len() == 0);
        assert(ed.term is None);
        assert(n[x]@[e.1 as int] == ed);
        assert(visited[ed.to as int]);
        assert(Seq::<Seq<char>>::empty().skip(0) =~= Seq::<Seq<char>>::empty());
        lemma_scan_closed(n, visited, result, p.drop_first(), ed.to as int, y);
    }
}

/// Inserts `x` into a strictly decreasing list that does not hold it.
fn insert_desc(v: &mut Vec<usize>, x: usize)
    requires
        strictly_desc(old(v)@),
        !old(v)@.contains(x),
    ensures
        strictly_desc(final(v)@),
        forall|y: usize| final(v)@.contains(y) <==> (old(v)@.contains(y) || y == x),
        final(v)@.len() == old(v)@.len() + 1,
{
    let mut i: usize = 0;
    while i < v.len() && v[i] > x
        invariant
            i <= v@.len(),
            v@ == old(v)@,
            forall|j: int| 0 <= j < i ==> v@[j] > x,
        decreases v@.len() - i,
    {
        i = i + 1;
    }
    let ghost o = v@;
    v.insert(i, x);
    assert(v@ =~= o.subrange(0, i as int).push(x) + o.subrange(i as int, o.len() as int));
    assert forall|a: int, b: int| 0 <= a < b < v@.len() implies v@[a] > v@[b] by {
        if i < o.len() {
            assert(o[i as int] != x);
            assert(o[i as int] < x);
        }
    }
    assert forall|y: usize| v@.contains(y) <==> (o.contains(y) || y == x) by {
        if v@.contains(y) {
            let j = choose|j: int| 0 <= j < v@.len() && v@[j] == y;
            if j < i {
                assert(o[j] == y);
            } else if j > i {
                assert(o[j - 1] == y);
            }
        }
        if o.contains(y) {
            let j = choose|j: int| 0 <= j < o.len() && o[j] == y;
            if j < i {
                assert(v@[j] == y);
            } else {
                assert(v@[j + 1] == y);
            }
        }
        if y == x {
            assert(v@[i as int] == x);
        }
    }
}

/// The same elements in strictly decreasing order.
fn sort_desc(v: &Vec<usize>) -> (r: Vec<usize>)
    requires
        v@.no_duplicates(),
    ensures
        strictly_desc(r@),
        forall|y: usize| r@.contains(y) <==> v@.contains(y),
{
    let mut r: Vec<usize> = Vec::new();
    let mut i: usize = 0;
    while i < v.len()
        invariant
            i <= v@.len(),
            v@.no_duplicates(),
            strictly_desc(r@),
            forall|y: usize| r@.contains(y) <==> v@.subrange(0, i as int).contains(y),
        decreases v@.len() - i,
    {
        let x = v[i];
        assert(!v@.subrange(0, i as int).contains(x)) by {
            if v@.subrange(0, i as int).contains(x) {
                let j = choose|j: int| 0 <= j < i && v@.subrange(0, i as int)[j] == x;
                assert(v@[j] == v@[i as int]);
            }
        }
        insert_desc(&mut r, x);
        let ghost s0 = v@.subrange(0, i as int);
        let ghost s1 = v@.subrange(0, i as int + 1);
        assert(s1 =~= s0.push(x));
        assert forall|y: usize| r@.contains(y) <==> s1.contains(y) by {
            if s1.contains(y) {
                let j = choose|j: int| 0 <= j < s1.len() && s1[j] == y;
                if j < s0.len() {
                    assert(s0[j] == y);
                }
            }
            if s0.contains(y) {
                let j = choose|j: int| 0 <= j < s0.len() && s0[j] == y;
                assert(s1[j] == y);
            }
            if y == x {
                assert(s1[i as int] == x);
            }
        }
        i = i + 1;
    }
    assert(v@.subrange(0, v@.len() as int) =~= v@);
    r
}

/// The states reachable from `node` over unlabelled edges (skipping states
/// whose only edge is unlabelled), in decreasing order.
fn null_from(nfa: &Vec<Vec<NfaEdge>>, node: usize) -> (r: Vec<usize>)
    requires
        nfa_wf(nfa@),
        node < nfa@.len(),
    ensures
        strictly_desc(r@),
        below(r@, nfa@.len()),
        forall|y: int| #[trigger] collected(nfa@, node as int, y) ==> r@.contains(y as usize),
        forall|y: usize| r@.contains(y) ==> eps_reach(nfa@, node as int, y as int),
{
    let mut result: Vec<usize> = Vec::new();
    let mut visited: Vec<bool> = Vec::new();
    let mut i: usize = 0;
    while i < nfa.len()
        invariant
            i <= nfa@.len(),
            visited@.len() == i,
            forall|j: int| 0 <= j < i ==> !visited@[j],
        decreases nfa@.len() - i,
    {
        visited.push(false);
        i = i + 1;
    }
    proof {
        assert(scan_ok(nfa@, visited@, result@, Set::<int>::empty()));
    }
    proof {
        assert(walk(nfa@, Seq::<(usize, usize)>::empty(), node as int, seq![], node as int));
        assert(eps_reach(nfa@, node as int, node as int));
    }
    scan(nfa, node, &mut result, &mut visited, Ghost(Set::<int>::empty()), Ghost(node as int));
    let r = sort_desc(&result);
    assert forall|j: int| 0 <= j < r@.len() implies r@[j] < nfa@.len() by {
        assert(r@.contains(r@[j]));
        assert(result@.contains(r@[j]));
        let k = choose|k: int| 0 <= k < result@.len() && result@[k] == r@[j];
        assert(result@[k] < nfa@.len());
    }
    assert forall|y: int| #[trigger] collected(nfa@, node as int, y) implies r@.contains(y as usize) by {
        let p = choose|p: Seq<(usize, usize)>| #[trigger] walk(nfa@, p, node as int, seq![], y);
        lemma_scan_closed(nfa@, visited@, result@, p, node as int, y);
        assert(result@.contains(y as usize));
    }
    assert forall|y: usize| r@.contains(y) implies eps_reach(nfa@, node as int, y as int) by {
        assert(result@.contains(y));
        let k = choose|k: int| 0 <= k < result@.len() && result@[k] == y;
        assert(eps_reach(nfa@, node as int, result@[k] as int));
    }
    r
}

} // verus!

verus! {

use crate::content::{MatchState, ContentMatch, first_edge_from, lemma_first_edge_from};

/// Every edge of the automaton under construction leads to one of its
/// states and is labelled with one of `types`.
pub open spec fn arena_wf(a: Seq<MatchState>, types: Seq<Arc<NodeType>>) -> bool {
    forall|s: int, i: int|
        0 <= s < a.len() && 0 <= i < a[s].edges@.len() ==> (#[trigger] a[s].edges@[i]).1 < a.len()
            && types.contains(a[s].edges@[i].0)
}

/// Whether two lists of numbers are equal.
fn same_list(a: &Vec<usize>, b: &Vec<usize>) -> (r: bool)
    ensures
        r == (a@ == b@),
{
    if a.len() != b.len() {
        return false;
    }
    let mut i: usize = 0;
    while i < a.len()
        invariant
            i <= a@.len(),
            a@.len() == b@.len(),
            forall|j: int| 0 <= j < i ==> a@[j] == b@[j],
        decreases a@.len() - i,
    {
        if a[i] != b[i] {
            return false;
        }
        i = i + 1;
    }
    assert(a@ =~= b@);
    true
}

/// Whether the list holds `x`.
fn list_contains(a: &Vec<usize>, x: usize) -> (r: bool)
    ensures
        r == a@.contains(x),
{
    let mut i: usize = 0;
    while i < a.len()
        invariant
            i <= a@.len(),
            forall|j: int| 0 <= j < i ==> a@[j] != x,
        decreases a@.len() - i,
    {
        if a[i] == x {
            assert(a@[i as int] == x);
            return true;
        }
        i = i + 1;
    }
    false
}

/// A copy of a list of numbers.
fn copy_list(a: &Vec<usize>) -> (r: Vec<usize>)
    ensures
        r@ == a@,
{
    let mut r: Vec<usize> = Vec::new();
    let mut i: usize = 0;
    while i < a.len()
        invariant
            i <= a@.len(),
            r@ == a@.subrange(0, i as int),
        decreases a@.len() - i,
    {
        r.push(a[i]);
        i = i + 1;
        assert(r@ =~= a@.subrange(0, i as int));
    }
    assert(a@.subrange(0, a@.len() as int) =~= a@);
    r
}

/// The index of the key equal to `k`, if any.
fn find_key(keys: &Vec<Vec<usize>>, k: &Vec<usize>) -> (r: Option<usize>)
    ensures
        match r {
            Some(i) => i < keys@.len() && keys@[i as int]@ == k@,
            None => forall|i: int| 0 <= i < keys@.len() ==> #[trigger] keys@[i]@ != k@,
        },
{
    let mut i: usize = 0;
    while i < keys.len()
        invariant
            i <= keys@.len(),
            forall|j: int| 0 <= j < i ==> #[trigger] keys@[j]@ != k@,
        decreases keys@.len() - i,
    {
        if same_list(&keys[i], k) {
            return Some(i);
        }
        i = i + 1;
    }
    None
}

/// The pairs of a label and target states: distinct target lists below `n`,
/// labels from `types`.
pub open spec fn out_ok(out: Seq<(Arc<NodeType>, Vec<usize>)>, n: nat, types: Seq<Arc<NodeType>>) -> bool {
    forall|j: int| 0 <= j < out.len() ==> (#[trigger] out[j]).1@.no_duplicates() && below(out[j].1@, n) && types.contains(out[j].0)
}

/// The index of the pair whose label has the name `name`, if any.
fn find_label(out: &Vec<(Arc<NodeType>, Vec<usize>)>, name: &String) -> (r: Option<usize>)
    ensures
        match r {
            Some(j) => j < out@.len() && out@[j as int].0.name@ == name@,
            None => forall|j: int| 0 <= j < out@.len() ==> (#[trigger] out@[j]).0.name@ != name@,
        },
{
    let mut j: usize = 0;
    while j < out.len()
        invariant
            j <= out@.len(),
            forall|q: int| 0 <= q < j ==> (#[trigger] out@[q]).0.name@ != name@,
        decreases out@.len() - j,
    {
        if out[j].0.name == *name {
            return Some(j);
        }
        j = j + 1;
    }
    None
}

/// The labels of `out` have distinct names.
pub open spec fn names_distinct(out: Seq<(Arc<NodeType>, Vec<usize>)>) -> bool {
    forall|j1: int, j2: int| 0 <= j1 < j2 < out.len() ==> (#[trigger] out[j1]).0.name@ != (#[trigger] out[j2]).0.name@
}

/// The labelled edge `e` is accounted for in `out`: a pair with its label's
/// name holds every state collected from its target.
pub open spec fn covered(n: Seq<Vec<NfaEdge>>, out: Seq<(Arc<NodeType>, Vec<usize>)>, e: NfaEdge) -> bool {
    exists|j: int|
        0 <= j < out.len() && (#[trigger] out[j]).0.name@ == e.term->0.name@ && forall|y: int|
            #[trigger] collected(n, e.to as int, y) ==> out[j].1@.contains(y as usize)
}

/// `b` keeps the names of `a`'s pairs and at least their states.
pub open spec fn out_grows(a: Seq<(Arc<NodeType>, Vec<usize>)>, b: Seq<(Arc<NodeType>, Vec<usize>)>) -> bool {
    &&& a.len() <= b.len()
    &&& forall|j: int| 0 <= j < a.len() ==> (#[trigger] b[j]).0.name@ == a[j].0.name@ && forall|x: usize| a[j].1@.contains(x) ==> b[j].1@.contains(x)
}

proof fn lemma_covered_grows(n: Seq<Vec<NfaEdge>>, a: Seq<(Arc<NodeType>, Vec<usize>)>, b: Seq<(Arc<NodeType>, Vec<usize>)>, e: NfaEdge)
    requires
        covered(n, a, e),
        out_grows(a, b),
    ensures
        covered(n, b, e),
{
    let j = choose|j: int|
        0 <= j < a.len() && (#[trigger] a[j]).0.name@ == e.term->0.name@ && forall|y: int|
            #[trigger] collected(n, e.to as int, y) ==> a[j].1@.contains(y as usize);
    assert(b[j].0.name@ == a[j].0.name@);
}

/// Every labelled edge out of the first `a` states, and out of state
/// `states[a]` the first `e` edges, is accounted for in `out`.
pub open spec fn gathered(n: Seq<Vec<NfaEdge>>, states: Seq<usize>, out: Seq<(Arc<NodeType>, Vec<usize>)>, a: int, e: int) -> bool {
    forall|x: int, i: int|
        0 <= x < states.len() && 0 <= i < n[states[x] as int]@.len() && (x < a || (x == a && i < e))
            && (#[trigger] n[states[x] as int]@[i]).term is Some ==> covered(n, out, n[states[x] as int]@[i])
}

proof fn lemma_gathered_grows(n: Seq<Vec<NfaEdge>>, states: Seq<usize>, a: Seq<(Arc<NodeType>, Vec<usize>)>, b: Seq<(Arc<NodeType>, Vec<usize>)>, x: int, e: int)
    requires
        gathered(n, states, a, x, e),
        out_grows(a, b),
    ensures
        gathered(n, states, b, x, e),
{
    assert forall|y: int, i: int|
        0 <= y < states.len() && 0 <= i < n[states[y] as int]@.len() && (y < x || (y == x && i < e))
            && (#[trigger] n[states[y] as int]@[i]).term is Some implies covered(n, b, n[states[y] as int]@[i]) by {
        lemma_covered_grows(n, a, b, n[states[y] as int]@[i]);
    }
}

/// `y` is reached over unlabelled edges from the target of an edge labelled
/// `name` out of one of `states`.
pub open spec fn label_from(n: Seq<Vec<NfaEdge>>, states: Seq<usize>, name: Seq<char>, y: int) -> bool {
    exists|a: int, i: usize|
        0 <= a < states.len() && i < n[states[a] as int]@.len() && (#[trigger] n[states[a] as int]@[i as int]).term is Some
            && n[states[a] as int]@[i as int].term->0.name@ == name && eps_reach(n, n[states[a] as int]@[i as int].to as int, y)
}

/// Every state listed for a label is reached over an edge of that label.
pub open spec fn out_from(n: Seq<Vec<NfaEdge>>, states: Seq<usize>, out: Seq<(Arc<NodeType>, Vec<usize>)>) -> bool {
    forall|k: int, y: usize| 0 <= k < out.len() && #[trigger] out[k].1@.contains(y) ==> label_from(n, states, out[k].0.name@, y as int)
}

/// For the set of automaton states `states`, the labels of its edges, each
/// with the states reachable over it; labels in the order met, targets of
/// equally named labels merged.
fn gather(nfa: &Vec<Vec<NfaEdge>>, states: &Vec<usize>, Ghost(types): Ghost<Seq<Arc<NodeType>>>) -> (out: Vec<(Arc<NodeType>, Vec<usize>)>)
    requires
        nfa_wf(nfa@),
        nfa_terms_in(nfa@, types),
        below(states@, nfa@.len()),
    ensures
        out_ok(out@, nfa@.len() as nat, types),
        names_distinct(out@),
        gathered(nfa@, states@, out@, states@.len() as int, 0),
        out_from(nfa@, states@, out@),
{
    let n = nfa.len();
    let mut out: Vec<(Arc<NodeType>, Vec<usize>)> = Vec::new();
    let mut a: usize = 0;
    while a < states.len()
        invariant
            a <= states@.len(),
            n == nfa@.len(),
            nfa_wf(nfa@),
            nfa_terms_in(nfa@, types),
            below(states@, nfa@.len()),
            out_ok(out@, n as nat, types),
            names_distinct(out@),
            gathered(nfa@, states@, out@, a as int, 0),
            out_from(nfa@, states@, out@),
        decreases states@.len() - a,
    {
        let node = states[a];
        let edges = &nfa[node];
        let mut e: usize = 0;
        while e < edges.len()
            invariant
                e <= edges@.len(),
                n == nfa@.len(),
                a < states@.len(),
                node == states@[a as int],
                node < nfa@.len(),
                edges@ == nfa@[node as int]@,
                nfa_wf(nfa@),
                nfa_terms_in(nfa@, types),
                out_ok(out@, n as nat, types),
                names_distinct(out@),
                gathered(nfa@, states@, out@, a as int, e as int),
                out_from(nfa@, states@, out@),
            decreases edges@.len() - e,
        {
            let ghost o_pre = out@;
            match &edges[e].term {
                Some(term) => {
                    assert(term_ok(nfa@[node as int]@[e as int].term, types));
                    assert(nfa@[node as int]@[e as int].to < nfa@.len());
                    let targets = null_from(nfa, edges[e].to);
                    proof {
                        assert forall|y: usize| targets@.contains(y) implies label_from(nfa@, states@, term.name@, y as int) by {
                            assert(nfa@[states@[a as int] as int]@[e as int].term is Some);
                        }
                    }
                    let fj = find_label(&out, &term.name);
                    let found = fj.is_some();
                    let j: usize = match fj { Some(x) => x, None => 0 };
                    if found {
                        let ghost o0 = out@;
                        let mut entry: (Arc<NodeType>, Vec<usize>) = (share(term), Vec::new());
                        out.set_and_swap(j, &mut entry);
                        assert(entry == o0[j as int]);
                        assert(types.contains(entry.0));
                        let ghost old_set = entry.1@;
                        proof {
                            assert forall|y: usize| entry.1@.contains(y) implies label_from(nfa@, states@, term.name@, y as int) by {
                                assert(o0[j as int].1@.contains(y));
                            }
                        }
                        let mut t: usize = 0;
                        while t < targets.len()
                            invariant
                                t <= targets@.len(),
                                below(targets@, n as nat),
                                types.contains(entry.0),
                                entry.0 == o0[j as int].0,
                                entry.1@.no_duplicates(),
                                below(entry.1@, n as nat),
                                forall|x: usize| old_set.contains(x) ==> entry.1@.contains(x),
                                forall|q: int| 0 <= q < t ==> entry.1@.contains(#[trigger] targets@[q]),
                                entry.0.name@ == term.name@,
                                forall|y: usize| targets@.contains(y) ==> label_from(nfa@, states@, term.name@, y as int),
                                forall|y: usize| entry.1@.contains(y) ==> label_from(nfa@, states@, term.name@, y as int),
                            decreases targets@.len() - t,
                        {
                            let x = targets[t];
                            let ghost e0 = entry.1@;
                            if !list_contains(&entry.1, x) {
                                entry.1.push(x);
                                assert forall|p: int, q: int| 0 <= p < entry.1@.len() && 0 <= q < entry.1@.len() && p != q implies entry.1@[p] != entry.1@[q] by {
                                    if p == e0.len() as int {
                                        assert(entry.1@[q] == e0[q]);
                                        if e0[q] == x {
                                            assert(e0.contains(x));
                                        }
                                    } else if q == e0.len() as int {
                                        assert(entry.1@[p] == e0[p]);
                                        if e0[p] == x {
                                            assert(e0.contains(x));
                                        }
                                    } else {
                                        assert(entry.1@[p] == e0[p]);
                                        assert(entry.1@[q] == e0[q]);
                                    }
                                }
                                assert(entry.1@[e0.len() as int] == x);
                            }
                            assert forall|y: usize| e0.contains(y) implies entry.1@.contains(y) by {
                                let q = choose|q: int| 0 <= q < e0.len() && e0[q] == y;
                                assert(entry.1@[q] == y);
                            }
                            assert forall|y: usize| entry.1@.contains(y) implies label_from(nfa@, states@, term.name@, y as int) by {
                                if !e0.contains(y) {
                                    let q = choose|q: int| 0 <= q < entry.1@.len() && entry.1@[q] == y;
                                    assert(q == e0.len());
                                    assert(targets@.contains(x));
                                }
                            }
                            assert forall|q: int| 0 <= q < t + 1 implies entry.1@.contains(#[trigger] targets@[q]) by {
                                if q < t {
                                    assert(e0.contains(targets@[q]));
                                }
                            }
                            t = t + 1;
                        }
                        let ghost merged = entry;
                        out.set_and_swap(j, &mut entry);
                        assert forall|k: int| 0 <= k < out@.len() implies (#[trigger] out@[k]).1@.no_duplicates() && below(out@[k].1@, n as nat) && types.contains(out@[k].0) by {
                            if k != j as int {
                                assert(out@[k] == o0[k]);
                            }
                        }
                        proof {
                            assert(out@[j as int] == merged);
                            assert(out_grows(o0, out@)) by {
                                assert forall|k: int| 0 <= k < o0.len() implies (#[trigger] out@[k]).0.name@ == o0[k].0.name@
                                    && forall|x: usize| o0[k].1@.contains(x) ==> out@[k].1@.contains(x) by {
                                    if k != j as int {
                                        assert(out@[k] == o0[k]);
                                    } else {
                                        assert(out@[k] == merged);
                                        assert(old_set == o0[k].1@);
                                        assert forall|x: usize| o0[k].1@.contains(x) implies out@[k].1@.contains(x) by {
                                            assert(old_set.contains(x));
                                        }
                                    }
                                }
                            }
                            assert forall|j1: int, j2: int| 0 <= j1 < j2 < out@.len() implies (#[trigger] out@[j1]).0.name@ != (#[trigger] out@[j2]).0.name@ by {
                                assert(o0[j1].0.name@ != o0[j2].0.name@);
                            }
                            lemma_gathered_grows(nfa@, states@, o0, out@, a as int, e as int);
                            assert(covered(nfa@, out@, nfa@[node as int]@[e as int]));
                            assert forall|k: int, y: usize| 0 <= k < out@.len() && #[trigger] out@[k].1@.contains(y) implies label_from(nfa@, states@, out@[k].0.name@, y as int) by {
                                if k != j as int {
                                    assert(out@[k] == o0[k]);
                                }
                            }
                        }
                    } else {
                        let mut tl: Vec<usize> = Vec::new();
                        let mut t: usize = 0;
                        while t < targets.len()
                            invariant
                                t <= targets@.len(),
                                strictly_desc(targets@),
                                below(targets@, n as nat),
                                tl@ == targets@.subrange(0, t as int),
                            decreases targets@.len() - t,
                        {
                            tl.push(targets[t]);
                            t = t + 1;
                            assert(tl@ =~= targets@.subrange(0, t as int));
                        }
                        assert(targets@.subrange(0, targets@.len() as int) =~= targets@);
                        let ghost o0 = out@;
                        out.push((share(term), tl));
                        assert forall|k: int| 0 <= k < out@.len() implies (#[trigger] out@[k]).1@.no_duplicates() && below(out@[k].1@, n as nat) && types.contains(out@[k].0) by {
                            if k < o0.len() {
                                assert(out@[k] == o0[k]);
                            } else {
                                assert forall|p: int, q: int| 0 <= p < tl@.len() && 0 <= q < tl@.len() && p != q implies tl@[p] != tl@[q] by {
                                    if p < q {
                                        assert(targets@[p] > targets@[q]);
                                    } else {
                                        assert(targets@[q] > targets@[p]);
                                    }
                                }
                            }
                        }
                        proof {
                            assert(out_grows(o0, out@)) by {
                                assert forall|k: int| 0 <= k < o0.len() implies (#[trigger] out@[k]).0.name@ == o0[k].0.name@
                                    && forall|x: usize| o0[k].1@.contains(x) ==> out@[k].1@.contains(x) by {
                                    assert(out@[k] == o0[k]);
                                }
                            }
                            assert forall|j1: int, j2: int| 0 <= j1 < j2 < out@.len() implies (#[trigger] out@[j1]).0.name@ != (#[trigger] out@[j2]).0.name@ by {
                                if j2 < o0.len() {
                                    assert(out@[j1] == o0[j1]);
                                    assert(out@[j2] == o0[j2]);
                                } else {
                                    assert(out@[j1] == o0[j1]);
                                    assert(o0[j1].0.name@ != term.name@);
                                }
                            }
                            lemma_gathered_grows(nfa@, states@, o0, out@, a as int, e as int);
                            let last = o0.len() as int;
                            assert(out@[last].0.name@ == nfa@[node as int]@[e as int].term->0.name@);
                            assert(out@[last].1@ == targets@);
                            assert(covered(nfa@, out@, nfa@[node as int]@[e as int]));
                            assert forall|k: int, y: usize| 0 <= k < out@.len() && #[trigger] out@[k].1@.contains(y) implies label_from(nfa@, states@, out@[k].0.name@, y as int) by {
                                if k < o0.len() {
                                    assert(out@[k] == o0[k]);
                                }
                            }
                        }
                    }
                },
                None => {},
            }
            proof {
                assert forall|x: int, i: int|
                    0 <= x < states@.len() && 0 <= i < nfa@[states@[x] as int]@.len() && (x < a || (x == a && i < e + 1))
                        && (#[trigger] nfa@[states@[x] as int]@[i]).term is Some implies covered(nfa@, out@, nfa@[states@[x] as int]@[i]) by {
                    if x == a && i == e {
                    } else {
                        assert(gathered(nfa@, states@, out@, a as int, e as int));
                    }
                }
            }
            e = e + 1;
        }
        proof {
            assert forall|x: int, i: int|
                0 <= x < states@.len() && 0 <= i < nfa@[states@[x] as int]@.len() && (x < a + 1 || (x == a + 1 && i < 0))
                    && (#[trigger] nfa@[states@[x] as int]@[i]).term is Some implies covered(nfa@, out@, nfa@[states@[x] as int]@[i]) by {
                assert(gathered(nfa@, states@, out@, a as int, e as int));
            }
        }
        a = a + 1;
    }
    out
}

/// The edges have distinct label names.
pub open spec fn edge_names_distinct(edges: Seq<(Arc<NodeType>, usize)>) -> bool {
    forall|k1: int, k2: int| 0 <= k1 < k2 < edges.len() ==> (#[trigger] edges[k1]).0.name@ != (#[trigger] edges[k2]).0.name@
}

/// State `q` of the automaton under construction is finished: it accepts
/// when its key holds the accepting state, its labels have distinct names,
/// and every labelled edge out of its key is matched by one of its edges,
/// whose target's key holds every state collected from the edge's target.
pub open spec fn complete(n: Seq<Vec<NfaEdge>>, arena: Seq<MatchState>, keys: Seq<Vec<usize>>, accept: int, q: int) -> bool {
    &&& arena[q].valid_end == keys[q]@.contains(accept as usize)
    &&& edge_names_distinct(arena[q].edges@)
    &&& forall|x: int, i: int|
        0 <= x < keys[q]@.len() && 0 <= i < n[keys[q]@[x] as int]@.len() && (#[trigger] n[keys[q]@[x] as int]@[i]).term is Some
            ==> exists|k: int|
            0 <= k < arena[q].edges@.len() && (#[trigger] arena[q].edges@[k]).0.name@ == n[keys[q]@[x] as int]@[i].term->0.name@
                && forall|y: int|
                #[trigger] collected(n, n[keys[q]@[x] as int]@[i].to as int, y) ==> keys[arena[q].edges@[k].1 as int]@.contains(y as usize)
}

/// Every state that is not `open` (still being built) is finished.
pub open spec fn done_ok(n: Seq<Vec<NfaEdge>>, arena: Seq<MatchState>, keys: Seq<Vec<usize>>, accept: int, open: Set<int>) -> bool {
    forall|q: int| 0 <= q < arena.len() && !open.contains(q) ==> #[trigger] complete(n, arena, keys, accept, q)
}

/// A finished state stays finished while it and the keys it refers to
/// stay the same.
proof fn lemma_complete_keep(
    n: Seq<Vec<NfaEdge>>,
    a: Seq<MatchState>,
    k: Seq<Vec<usize>>,
    a2: Seq<MatchState>,
    k2: Seq<Vec<usize>>,
    accept: int,
    q: int,
)
    requires
        complete(n, a, k, accept, q),
        0 <= q < a.len(),
        q < a2.len(),
        a2[q] == a[q],
        k.len() <= k2.len(),
        q < k.len(),
        forall|t: int| 0 <= t < k.len() ==> k2[t] == k[t],
        forall|i: int| 0 <= i < a[q].edges@.len() ==> (#[trigger] a[q].edges@[i]).1 < k.len(),
    ensures
        complete(n, a2, k2, accept, q),
{
    assert(k2[q] == k[q]);
    assert forall|x: int, i: int|
        0 <= x < k2[q]@.len() && 0 <= i < n[k2[q]@[x] as int]@.len() && (#[trigger] n[k2[q]@[x] as int]@[i]).term is Some
            implies exists|m: int|
            0 <= m < a2[q].edges@.len() && (#[trigger] a2[q].edges@[m]).0.name@ == n[k2[q]@[x] as int]@[i].term->0.name@
                && forall|y: int|
                #[trigger] collected(n, n[k2[q]@[x] as int]@[i].to as int, y) ==> k2[a2[q].edges@[m].1 as int]@.contains(y as usize) by {
        let m = choose|m: int|
            0 <= m < a[q].edges@.len() && (#[trigger] a[q].edges@[m]).0.name@ == n[k[q]@[x] as int]@[i].term->0.name@
                && forall|y: int|
                #[trigger] collected(n, n[k[q]@[x] as int]@[i].to as int, y) ==> k[a[q].edges@[m].1 as int]@.contains(y as usize);
        assert(k2[a[q].edges@[m].1 as int] == k[a[q].edges@[m].1 as int]);
        assert(a2[q].edges@[m] == a[q].edges@[m]);
    }
}

/// A walk from `x` to `y` reads the one name `name`.
pub open spec fn reads_one(n: Seq<Vec<NfaEdge>>, x: int, name: Seq<char>, y: int) -> bool {
    exists|p: Seq<(usize, usize)>| #[trigger] walk(n, p, x, seq![name], y)
}

/// Every state in the key of the target of edge `ed` out of state `q` is
/// reached by reading the edge's name from a state in `q`'s key.
pub open spec fn edge_sound(n: Seq<Vec<NfaEdge>>, keys: Seq<Vec<usize>>, q: int, ed: (Arc<NodeType>, usize)) -> bool {
    forall|y: usize| #[trigger] keys[ed.1 as int]@.contains(y) ==> exists|x: usize| keys[q]@.contains(x) && reads_one(n, x as int, ed.0.name@, y as int)
}

/// Every edge of the automaton under construction is sound.
pub open spec fn all_sound(n: Seq<Vec<NfaEdge>>, arena: Seq<MatchState>, keys: Seq<Vec<usize>>) -> bool {
    forall|q: int, k: int| 0 <= q < arena.len() && 0 <= k < arena[q].edges@.len() ==> edge_sound(n, keys, q, #[trigger] arena[q].edges@[k])
}

/// A labelled edge, then unlabelled ones, read the label's name.
proof fn lemma_reads_one(n: Seq<Vec<NfaEdge>>, x: usize, i: usize, y: int)
    requires
        x < n.len(),
        i < n[x as int]@.len(),
        n[x as int]@[i as int].term is Some,
        eps_reach(n, n[x as int]@[i as int].to as int, y),
    ensures
        reads_one(n, x as int, n[x as int]@[i as int].term->0.name@, y),
{
    let e = (x, i);
    let t = n[x as int]@[i as int].to as int;
    let p = choose|p: Seq<(usize, usize)>| #[trigger] walk(n, p, t, seq![], y);
    crate::language::lemma_walk_edge(n, e);
    let name = n[x as int]@[i as int].term->0.name@;
    assert(edge_word(edge_at(n, e)) == seq![name]);
    crate::language::lemma_walk_concat(n, seq![e], x as int, seq![name], t, p, seq![], y);
    assert(seq![name] + Seq::<Seq<char>>::empty() =~= seq![name]);
}

/// Builds the state of the deterministic automaton for the set of states
/// `states` (and, depth first, every state reachable from it) unless it was
/// built already; its index.
fn explore(
    nfa: &Vec<Vec<NfaEdge>>,
    states: &Vec<usize>,
    accept: usize,
    keys: &mut Vec<Vec<usize>>,
    arena: &mut Vec<MatchState>,
    Ghost(types): Ghost<Seq<Arc<NodeType>>>,
    Ghost(open): Ghost<Set<int>>,
) -> (r: usize)
    requires
        nfa_wf(nfa@),
        nfa_terms_in(nfa@, types),
        strictly_desc(states@),
        below(states@, nfa@.len()),
        keys_ok(old(keys)@, nfa@.len() as nat),
        old(keys)@.len() == old(arena)@.len(),
        arena_wf(old(arena)@, types),
        done_ok(nfa@, old(arena)@, old(keys)@, accept as int, open),
        all_sound(nfa@, old(arena)@, old(keys)@),
    ensures
        all_sound(nfa@, final(arena)@, final(keys)@),
        keys_ok(final(keys)@, nfa@.len() as nat),
        final(keys)@.len() == final(arena)@.len(),
        arena_wf(final(arena)@, types),
        r < final(arena)@.len(),
        old(keys)@.len() <= final(keys)@.len(),
        final(keys)@[r as int]@ == states@,
        forall|q: int| 0 <= q < old(arena)@.len() ==> final(arena)@[q] == old(arena)@[q],
        forall|q: int| 0 <= q < old(keys)@.len() ==> final(keys)@[q] == old(keys)@[q],
        done_ok(nfa@, final(arena)@, final(keys)@, accept as int, open),
    decreases pow2(nfa@.len() as nat) - old(keys)@.len(),
{
    let ghost n = nfa@.len() as nat;
    match find_key(keys, states) {
        Some(i) => {
            return i;
        },
        None => {},
    }
    let idx = arena.len();
    let ve = list_contains(states, accept);
    let ghost a0 = arena@;
    let ghost k00 = keys@;
    arena.push(MatchState { valid_end: ve, edges: Vec::new() });
    assert forall|s: int, i: int|
        0 <= s < arena@.len() && 0 <= i < arena@[s].edges@.len() implies (#[trigger] arena@[s].edges@[i]).1 < arena@.len()
            && types.contains(arena@[s].edges@[i].0) by {
        assert(arena@[s] == a0[s]);
    }
    let ghost k0 = keys@;
    keys.push(copy_list(states));
    assert(keys_ok(keys@, n)) by {
        assert forall|i: int| 0 <= i < keys@.len() implies strictly_desc(#[trigger] keys@[i]@) && below(keys@[i]@, n) by {
            if i < k0.len() {
                assert(keys@[i] == k0[i]);
            }
        }
        assert forall|i: int, j: int| 0 <= i < j < keys@.len() implies #[trigger] keys@[i]@ != #[trigger] keys@[j]@ by {
            assert(keys@[i] == k0[i]);
            if j < k0.len() {
                assert(keys@[j] == k0[j]);
            }
        }
    }
    let ghost open2 = open.insert(idx as int);
    proof {
        lemma_keys_len(keys@, n);
        assert forall|q: int| 0 <= q < arena@.len() && !open2.contains(q) implies #[trigger] complete(nfa@, arena@, keys@, accept as int, q) by {
            assert(complete(nfa@, a0, k0, accept as int, q));
            assert forall|i: int| 0 <= i < a0[q].edges@.len() implies (#[trigger] a0[q].edges@[i]).1 < k0.len() by {
                assert(arena@[q] == a0[q]);
            }
            lemma_complete_keep(nfa@, a0, k0, arena@, keys@, accept as int, q);
        }
        assert forall|q: int, k: int| 0 <= q < arena@.len() && 0 <= k < arena@[q].edges@.len()
            implies edge_sound(nfa@, keys@, q, #[trigger] arena@[q].edges@[k]) by {
            assert(q < a0.len());
            assert(arena@[q] == a0[q]);
            let ed = a0[q].edges@[k];
            assert(edge_sound(nfa@, k0, q, ed));
            assert(ed.1 < a0.len());
            assert(keys@[ed.1 as int] == k0[ed.1 as int]);
            assert(keys@[q] == k0[q]);
        }
    }
    let out = gather(nfa, states, Ghost(types));
    let mut j: usize = 0;
    while j < out.len()
        invariant
            j <= out@.len(),
            nfa_wf(nfa@),
            nfa_terms_in(nfa@, types),
            n == nfa@.len(),
            out_ok(out@, n, types),
            names_distinct(out@),
            gathered(nfa@, states@, out@, states@.len() as int, 0),
            keys_ok(keys@, n),
            keys@.len() == arena@.len(),
            arena_wf(arena@, types),
            idx < arena@.len(),
            idx == a0.len(),
            old(keys)@.len() < keys@.len(),
            keys@[idx as int]@ == states@,
            arena@[idx as int].valid_end == states@.contains(accept),
            arena@[idx as int].edges@.len() == j,
            forall|k: int| 0 <= k < j ==> (#[trigger] arena@[idx as int].edges@[k]).0.name@ == out@[k].0.name@
                && forall|x: usize| out@[k].1@.contains(x) ==> keys@[arena@[idx as int].edges@[k].1 as int]@.contains(x),
            forall|q: int| 0 <= q < a0.len() ==> arena@[q] == old(arena)@[q],
            forall|q: int| 0 <= q < k00.len() ==> keys@[q] == old(keys)@[q],
            done_ok(nfa@, arena@, keys@, accept as int, open2),
            open2 == open.insert(idx as int),
            k00 == old(keys)@,
            a0 == old(arena)@,
            all_sound(nfa@, arena@, keys@),
            out_from(nfa@, states@, out@),
        decreases out@.len() - j,
    {
        proof {
            lemma_keys_len(keys@, n);
        }
        let sorted = sort_desc(&out[j].1);
        assert(below(sorted@, n)) by {
            assert forall|q: int| 0 <= q < sorted@.len() implies sorted@[q] < n by {
                assert(sorted@.contains(sorted@[q]));
                let p = choose|p: int| 0 <= p < out@[j as int].1@.len() && out@[j as int].1@[p] == sorted@[q];
            }
        }
        let ghost a1 = arena@;
        let ghost k1 = keys@;
        let target = explore(nfa, &sorted, accept, keys, arena, Ghost(types), Ghost(open2));
        let ghost a2 = arena@;
        let mut st = MatchState { valid_end: false, edges: Vec::new() };
        arena.set_and_swap(idx, &mut st);
        let ghost st0 = st;
        st.edges.push((share(&out[j].0), target));
        arena.set_and_swap(idx, &mut st);
        assert forall|s: int, i: int|
            0 <= s < arena@.len() && 0 <= i < arena@[s].edges@.len() implies (#[trigger] arena@[s].edges@[i]).1 < arena@.len()
                && types.contains(arena@[s].edges@[i].0) by {
            if s != idx as int {
                assert(arena@[s] == a2[s]);
            } else if i < a2[s].edges@.len() {
                assert(arena@[s].edges@[i] == a2[s].edges@[i]);
            }
        }
        proof {
            assert(a2[idx as int] == a1[idx as int]);
            assert(st0 == a2[idx as int]);
            assert(arena@[idx as int].edges@ == a1[idx as int].edges@.push((out@[j as int].0, target)));
            assert forall|k: int| 0 <= k < j + 1 implies (#[trigger] arena@[idx as int].edges@[k]).0.name@ == out@[k].0.name@
                && forall|x: usize| out@[k].1@.contains(x) ==> keys@[arena@[idx as int].edges@[k].1 as int]@.contains(x) by {
                if k < j {
                    assert(arena@[idx as int].edges@[k] == a1[idx as int].edges@[k]);
                    assert(a1[idx as int].edges@[k].1 < k1.len());
                    assert(keys@[a1[idx as int].edges@[k].1 as int] == k1[a1[idx as int].edges@[k].1 as int]);
                } else {
                    assert(arena@[idx as int].edges@[k] == (out@[j as int].0, target));
                    assert forall|x: usize| out@[k].1@.contains(x) implies keys@[target as int]@.contains(x) by {
                        assert(sorted@.contains(x));
                    }
                }
            }
            assert forall|q: int| 0 <= q < a0.len() implies arena@[q] == old(arena)@[q] by {
                assert(arena@[q] == a2[q]);
                assert(a2[q] == a1[q]);
            }
            assert forall|q: int| 0 <= q < k00.len() implies keys@[q] == old(keys)@[q] by {
                assert(keys@[q] == k1[q]);
            }
            assert forall|q: int| 0 <= q < arena@.len() && !open2.contains(q) implies #[trigger] complete(nfa@, arena@, keys@, accept as int, q) by {
                assert(complete(nfa@, a2, keys@, accept as int, q));
                assert(arena@[q] == a2[q]);
                assert forall|i: int| 0 <= i < a2[q].edges@.len() implies (#[trigger] a2[q].edges@[i]).1 < keys@.len() by {
                    assert(a2[q].edges@[i].1 < a2.len());
                }
                lemma_complete_keep(nfa@, a2, keys@, arena@, keys@, accept as int, q);
            }
            assert(keys@[idx as int] == k1[idx as int]);
            assert forall|q: int, k: int| 0 <= q < arena@.len() && 0 <= k < arena@[q].edges@.len()
                implies edge_sound(nfa@, keys@, q, #[trigger] arena@[q].edges@[k]) by {
                if q != idx as int {
                    assert(arena@[q] == a2[q]);
                } else if k < j {
                    assert(arena@[q].edges@[k] == a2[q].edges@[k]);
                } else {
                    let ed = arena@[q].edges@[k];
                    assert(ed == (out@[j as int].0, target));
                    assert forall|y: usize| #[trigger] keys@[ed.1 as int]@.contains(y) implies exists|x: usize| keys@[q]@.contains(x) && reads_one(nfa@, x as int, ed.0.name@, y as int) by {
                        assert(sorted@.contains(y));
                        assert(out@[j as int].1@.contains(y));
                        let (a, i) = choose|a: int, i: usize|
                            0 <= a < states@.len() && i < nfa@[states@[a] as int]@.len() && (#[trigger] nfa@[states@[a] as int]@[i as int]).term is Some
                                && nfa@[states@[a] as int]@[i as int].term->0.name@ == out@[j as int].0.name@ && eps_reach(nfa@, nfa@[states@[a] as int]@[i as int].to as int, y as int);
                        let x = states@[a];
                        assert(x < nfa@.len());
                        lemma_reads_one(nfa@, x, i, y as int);
                        assert(keys@[q]@.contains(x));
                    }
                }
            }
        }
        j = j + 1;
    }
    proof {
        let ed = arena@[idx as int].edges@;
        assert(edge_names_distinct(ed)) by {
            assert forall|k1: int, k2: int| 0 <= k1 < k2 < ed.len() implies (#[trigger] ed[k1]).0.name@ != (#[trigger] ed[k2]).0.name@ by {
                assert(out@[k1].0.name@ != out@[k2].0.name@);
            }
        }
        assert forall|x: int, i: int|
            0 <= x < keys@[idx as int]@.len() && 0 <= i < nfa@[keys@[idx as int]@[x] as int]@.len()
                && (#[trigger] nfa@[keys@[idx as int]@[x] as int]@[i]).term is Some implies exists|k: int|
            0 <= k < ed.len() && (#[trigger] ed[k]).0.name@ == nfa@[keys@[idx as int]@[x] as int]@[i].term->0.name@
                && forall|y: int|
                #[trigger] collected(nfa@, nfa@[keys@[idx as int]@[x] as int]@[i].to as int, y) ==> keys@[ed[k].1 as int]@.contains(y as usize) by {
            let e = nfa@[states@[x] as int]@[i];
            assert(covered(nfa@, out@, e));
            let k = choose|k: int|
                0 <= k < out@.len() && (#[trigger] out@[k]).0.name@ == e.term->0.name@ && forall|y: int|
                    #[trigger] collected(nfa@, e.to as int, y) ==> out@[k].1@.contains(y as usize);
            assert(ed[k].0.name@ == out@[k].0.name@);
        }
        assert(complete(nfa@, arena@, keys@, accept as int, idx as int));
        assert forall|q: int| 0 <= q < arena@.len() && !open.contains(q) implies #[trigger] complete(nfa@, arena@, keys@, accept as int, q) by {
            if q != idx as int {
                assert(!open2.contains(q));
            }
        }
    }
    idx
}

/// The deterministic automaton reads what the nondeterministic one reads:
/// when the key of state `q` holds everything collected from NFA state `t`,
/// and a walk from `t` reads `w` to the accepting state, running from `q`
/// over `w` ends in an accepting state.
proof fn lemma_dfa_reads(
    n: Seq<Vec<NfaEdge>>,
    cm: ContentMatch,
    keys: Seq<Vec<usize>>,
    q: nat,
    t: int,
    p: Seq<(usize, usize)>,
    w: Seq<Seq<char>>,
)
    requires
        nfa_wf(n),
        n.len() >= 1,
        n[n.len() - 1]@.len() == 0,
        done_ok(n, cm.graph@, keys, n.len() - 1, Set::<int>::empty()),
        keys.len() == cm.graph@.len(),
        forall|s: int, i: int| 0 <= s < cm.graph@.len() && 0 <= i < cm.graph@[s].edges@.len() ==> (#[trigger] cm.graph@[s].edges@[i]).1 < cm.graph@.len(),
        q < cm.graph@.len(),
        0 <= t < n.len(),
        forall|y: int| #[trigger] collected(n, t, y) ==> keys[q as int]@.contains(y as usize),
        walk(n, p, t, w, n.len() - 1),
    ensures
        cm.run(q, w) matches Some(f) && cm.accepting(f),
    decreases p.len(),
{
    let accept = n.len() - 1;
    assert(complete(n, cm.graph@, keys, accept, q as int));
    if p.len() == 0 {
        assert(walk(n, Seq::<(usize, usize)>::empty(), t, seq![], t));
        assert(collected(n, t, t));
        assert(w =~= Seq::<Seq<char>>::empty());
    } else {
        let e = p[0];
        let ed = edge_at(n, e);
        let rest = p.drop_first();
        if ed.term is None {
            assert(edge_word(ed) =~= Seq::<Seq<char>>::empty());
            assert(w.skip(0) =~= w);
            assert forall|y: int| #[trigger] collected(n, ed.to as int, y) implies keys[q as int]@.contains(y as usize) by {
                let p2 = choose|p2: Seq<(usize, usize)>| #[trigger] walk(n, p2, ed.to as int, seq![], y);
                crate::language::lemma_walk_edge(n, e);
                crate::language::lemma_walk_concat(n, seq![e], t, seq![], ed.to as int, p2, seq![], y);
                assert(Seq::<Seq<char>>::empty() + Seq::<Seq<char>>::empty() =~= Seq::<Seq<char>>::empty());
                assert(collected(n, t, y));
            }
            lemma_dfa_reads(n, cm, keys, q, ed.to as int, rest, w);
        } else {
            let name = ed.term->0.name@;
            assert(edge_word(ed) == seq![name]);
            let w2 = w.skip(1);
            assert(w =~= seq![name] + w2);
            assert(walk(n, Seq::<(usize, usize)>::empty(), t, seq![], t));
            assert(!passes(n, t)) by {
                if n[t]@.len() == 1 {
                    assert(e.1 == 0);
                }
            }
            assert(collected(n, t, t));
            let kq = keys[q as int]@;
            assert(kq.contains(t as usize));
            let x = choose|x: int| 0 <= x < kq.len() && kq[x] == t as usize;
            assert(n[kq[x] as int]@[e.1 as int] == ed);
            let edges = cm.graph@[q as int].edges@;
            let k = choose|k: int|
                0 <= k < edges.len() && (#[trigger] edges[k]).0.name@ == name && forall|y: int|
                    #[trigger] collected(n, ed.to as int, y) ==> keys[edges[k].1 as int]@.contains(y as usize);
            lemma_first_edge_from(edges, name, 0);
            let fk = first_edge_from(edges, name, 0)->0;
            assert(fk == k) by {
                if fk < k {
                    assert(edges[fk].0.name@ != edges[k].0.name@);
                } else if fk > k {
                    assert(edges[k].0.name@ != name);
                }
            }
            let q2 = edges[k].1 as nat;
            assert(cm.out(q) == edges);
            assert(cm.step(q, name) == Some(q2));
            assert(seq![name].drop_last() =~= Seq::<Seq<char>>::empty());
            assert(cm.run(q, Seq::<Seq<char>>::empty()) == Some(q));
            assert(seq![name].last() == name);
            assert(cm.run(q, seq![name]) == Some(q2));
            assert(ed.to < n.len());
            lemma_dfa_reads(n, cm, keys, q2, ed.to as int, rest, w2);
            crate::matching::law_run_concat(cm, q, seq![name], w2);
        }
    }
}

/// The deterministic automaton reads only what the nondeterministic one
/// reads: running from `root` over `w` ends in a state whose key holds only
/// states that a walk from state 0 reaches reading `w`.
proof fn lemma_dfa_only(n: Seq<Vec<NfaEdge>>, cm: ContentMatch, keys: Seq<Vec<usize>>, root: nat, w: Seq<Seq<char>>)
    requires
        all_sound(n, cm.graph@, keys),
        keys.len() == cm.graph@.len(),
        forall|s: int, i: int| 0 <= s < cm.graph@.len() && 0 <= i < cm.graph@[s].edges@.len() ==> (#[trigger] cm.graph@[s].edges@[i]).1 < cm.graph@.len(),
        root < cm.graph@.len(),
        forall|y: usize| keys[root as int]@.contains(y) ==> eps_reach(n, 0, y as int),
    ensures
        cm.run(root, w) matches Some(q) ==> q < cm.graph@.len() && forall|y: usize| keys[q as int]@.contains(y) ==> exists|p: Seq<(usize, usize)>| #[trigger] walk(n, p, 0, w, y as int),
    decreases w.len(),
{
    if w.len() == 0 {
        assert forall|y: usize| keys[root as int]@.contains(y) implies exists|p: Seq<(usize, usize)>| #[trigger] walk(n, p, 0, w, y as int) by {
            assert(eps_reach(n, 0, y as int));
            let p = choose|p: Seq<(usize, usize)>| #[trigger] walk(n, p, 0, seq![], y as int);
            assert(w =~= seq![]);
            assert(walk(n, p, 0, w, y as int));
        }
    } else {
        let w0 = w.drop_last();
        let name = w.last();
        lemma_dfa_only(n, cm, keys, root, w0);
        match cm.run(root, w0) {
            Some(t) => {
                lemma_first_edge_from(cm.out(t), name, 0);
                match first_edge_from(cm.out(t), name, 0) {
                    Some(k) => {
                        let ed = cm.out(t)[k];
                        let q = ed.1 as nat;
                        assert(cm.run(root, w) == Some(q));
                        assert(ed == cm.graph@[t as int].edges@[k]);
                        assert(edge_sound(n, keys, t as int, ed));
                        assert forall|y: usize| keys[q as int]@.contains(y) implies exists|p: Seq<(usize, usize)>| #[trigger] walk(n, p, 0, w, y as int) by {
                            let x = choose|x: usize| keys[t as int]@.contains(x) && reads_one(n, x as int, ed.0.name@, y as int);
                            let p1 = choose|p: Seq<(usize, usize)>| #[trigger] walk(n, p, 0, w0, x as int);
                            let p2 = choose|p: Seq<(usize, usize)>| #[trigger] walk(n, p, x as int, seq![name], y as int);
                            crate::language::lemma_walk_concat(n, p1, 0, w0, x as int, p2, seq![name], y as int);
                            assert(w0 + seq![name] =~= w);
                        }
                    },
                    None => {},
                }
            },
            None => {},
        }
    }
}

/// The deterministic automaton of a nondeterministic one: its states and the
/// index of the start state.
pub fn build_dfa(nfa: &Vec<Vec<NfaEdge>>, Ghost(types): Ghost<Seq<Arc<NodeType>>>) -> (r: (Vec<MatchState>, usize))
    requires
        nfa_wf(nfa@),
        nfa_terms_in(nfa@, types),
        nfa@.len() >= 1,
        nfa@.last()@.len() == 0,
    ensures
        arena_wf(r.0@, types),
        r.1 < r.0@.len(),
        forall|cm: ContentMatch, w: Seq<Seq<char>>|
            cm.graph@ == r.0@ && accepts(nfa@, w) ==> (#[trigger] cm.run(r.1 as nat, w) matches Some(f) && cm.accepting(f)),
        forall|s: int| 0 <= s < r.0@.len() ==> edge_names_distinct(#[trigger] r.0@[s].edges@),
        forall|cm: ContentMatch, w: Seq<Seq<char>>|
            cm.graph@ == r.0@ && (#[trigger] cm.run(r.1 as nat, w) matches Some(f) && cm.accepting(f)) ==> accepts(nfa@, w),
{
    let initial = null_from(nfa, 0);
    let accept = nfa.len() - 1;
    let mut keys: Vec<Vec<usize>> = Vec::new();
    let mut arena: Vec<MatchState> = Vec::new();
    let root = explore(nfa, &initial, accept, &mut keys, &mut arena, Ghost(types), Ghost(Set::<int>::empty()));
    proof {
        assert forall|cm: ContentMatch, w: Seq<Seq<char>>|
            cm.graph@ == arena@ && accepts(nfa@, w) implies (#[trigger] cm.run(root as nat, w) matches Some(f) && cm.accepting(f)) by {
            let p = choose|p: Seq<(usize, usize)>| #[trigger] walk(nfa@, p, 0, w, nfa@.len() - 1);
            assert forall|s: int, i: int| 0 <= s < cm.graph@.len() && 0 <= i < cm.graph@[s].edges@.len() implies (#[trigger] cm.graph@[s].edges@[i]).1 < cm.graph@.len() by {
                assert(arena@[s].edges@[i].1 < arena@.len());
            }
            lemma_dfa_reads(nfa@, cm, keys@, root as nat, 0, p, w);
        }
        assert forall|s: int| 0 <= s < arena@.len() implies edge_names_distinct(#[trigger] arena@[s].edges@) by {
            assert(complete(nfa@, arena@, keys@, accept as int, s));
        }
        assert forall|cm: ContentMatch, w: Seq<Seq<char>>|
            cm.graph@ == arena@ && (#[trigger] cm.run(root as nat, w) matches Some(f) && cm.accepting(f)) implies accepts(nfa@, w) by {
            assert forall|s: int, i: int| 0 <= s < cm.graph@.len() && 0 <= i < cm.graph@[s].edges@.len() implies (#[trigger] cm.graph@[s].edges@[i]).1 < cm.graph@.len() by {
                assert(arena@[s].edges@[i].1 < arena@.len());
            }
            lemma_dfa_only(nfa@, cm, keys@, root as nat, w);
            let f = cm.run(root as nat, w)->0;
            assert(complete(nfa@, arena@, keys@, accept as int, f as int));
            assert(keys@[f as int]@.contains(accept));
            let p = choose|p: Seq<(usize, usize)>| #[trigger] walk(nfa@, p, 0, w, accept as int);
            assert(walk(nfa@, p, 0, w, nfa@.len() - 1));
        }
    }
    (arena, root)
}

} // verus!
