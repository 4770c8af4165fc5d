use vstd::prelude::*;
use std::sync::Arc;

use crate::content::ContentMatch;
use crate::fill::{labels_ok, types_view};
use crate::matching::type_tree_ok;
use crate::schema::{NodeType, spec_is_leaf};
use crate::util::share;

verus! {

/// Wrapping with type `t` may follow state `m`: an edge out of the current
/// state is labelled `t`, `t` is not a leaf, and, except at the outermost
/// level, that edge leads to an accepting state.
pub open spec fn wrap_step(m: ContentMatch, t: NodeType, root: bool) -> bool {
    &&& exists|i: int|
        0 <= i < m.out(m.state()).len() && *(#[trigger] m.out(m.state())[i]).0 == t && (root || m.accepting(
            m.out(m.state())[i].1 as nat,
        ))
    &&& !spec_is_leaf(t)
    &&& t.content_match is Some
}

/// Following the wrapper types `ws` from `m` leads to the automaton state
/// `end` (the start state of the innermost wrapper's content).
pub open spec fn reaches(m: ContentMatch, ws: Seq<NodeType>, root: bool, end: ContentMatch) -> bool
    decreases ws.len(),
{
    if ws.len() == 0 {
        m == end
    } else {
        wrap_step(m, ws[0], root) && reaches(*ws[0].content_match->0, ws.drop_first(), false, end)
    }
}

/// `ws` wraps content of the named type for state `m`: the wrappers can be
/// placed one inside the other from `m`, and the innermost accepts a node
/// of the named type.
pub open spec fn wraps(m: ContentMatch, ws: Seq<NodeType>, name: Seq<char>) -> bool {
    exists|end: ContentMatch| reaches(m, ws, true, end) && end.step(end.state(), name) is Some
}

proof fn lemma_reaches_push(m: &ContentMatch, ws: Seq<NodeType>, root: bool, end: &ContentMatch, t: &NodeType)
    requires
        reaches(*m, ws, root, *end),
        wrap_step(*end, *t, root && ws.len() == 0),
    ensures
        reaches(*m, ws.push(*t), root, *t.content_match->0),
    decreases ws.len(),
{
    if ws.len() > 0 {
        assert(ws.push(deref_type(t)).drop_first() =~= ws.drop_first().push(deref_type(t)));
        assert(ws.push(deref_type(t))[0] == ws[0]);
        lemma_reaches_push(&ws[0].content_match->0, ws.drop_first(), false, end, t);
    } else {
        assert(ws.push(deref_type(t)).drop_first() =~= Seq::<NodeType>::empty());
        assert(ws.push(deref_type(t))[0] == deref_type(t));
        assert(reaches(*t.content_match->0, Seq::<NodeType>::empty(), false, *t.content_match->0));
        assert(*m == *end);
    }
}

/// The type behind a reference.
spec fn deref_type(t: &NodeType) -> NodeType {
    *t
}

/// The automaton state at level `k` of the wrapping `ws` from `m`: `m`
/// itself, then the start of each wrapper's content.
pub open spec fn level_state(m: ContentMatch, ws: Seq<NodeType>, k: int) -> ContentMatch {
    if k == 0 {
        m
    } else {
        *ws[k - 1].content_match->0
    }
}

/// Along the wrappings that can be placed from `m`, two wrapper types with
/// the same name are the same type.
pub open spec fn names_identify(m: ContentMatch) -> bool {
    forall|w1: Seq<NodeType>, w2: Seq<NodeType>, e1: ContentMatch, e2: ContentMatch, i: int, j: int|
        #![trigger reaches(m, w1, true, e1), reaches(m, w2, true, e2), w1[i], w2[j]]
        reaches(m, w1, true, e1) && reaches(m, w2, true, e2) && 0 <= i < w1.len() && 0 <= j < w2.len()
            && w1[i].name@ == w2[j].name@ ==> w1[i] == w2[j]
}

/// No two of the types share a name.
pub open spec fn distinct_names(ws: Seq<NodeType>) -> bool {
    forall|i: int, j: int| 0 <= i < j < ws.len() ==> (#[trigger] ws[i]).name@ != (#[trigger] ws[j]).name@
}

/// Each step of a wrapping is a wrap step from the state of its level, and
/// the wrapping ends in the state of its last level.
proof fn lemma_reaches_levels(m: ContentMatch, ws: Seq<NodeType>, root: bool, end: ContentMatch, k: int)
    requires
        reaches(m, ws, root, end),
        0 <= k <= ws.len(),
    ensures
        k < ws.len() ==> wrap_step(level_state(m, ws, k), ws[k], root && k == 0),
        k == ws.len() ==> end == level_state(m, ws, k),
    decreases k,
{
    if k > 0 {
        let rest = ws.drop_first();
        let m1 = *ws[0].content_match->0;
        lemma_reaches_levels(m1, rest, false, end, k - 1);
        assert(level_state(m1, rest, k - 1) == level_state(m, ws, k));
        if k < ws.len() {
            assert(rest[k - 1] == ws[k]);
        }
    }
}

/// Edge `i` out of the current state of `m` is one the search follows.
spec fn follows(m: ContentMatch, i: int, root: bool) -> bool {
    &&& !spec_is_leaf(*m.out(m.state())[i].0)
    &&& (root || m.accepting(m.out(m.state())[i].1 as nat))
}

/// `follows`, for a state behind a reference.
spec fn follows_ref(m: &ContentMatch, i: int, root: bool) -> bool {
    follows(*m, i, root)
}

/// Some name in `seen` is `name`.
spec fn seen_has(seen: Seq<String>, name: Seq<char>) -> bool {
    exists|j: int| 0 <= j < seen.len() && (#[trigger] seen[j])@ == name
}

/// The entry was reached by wrapping in a type named `name`.
spec fn entry_named(e: WrapEntry, name: Seq<char>) -> bool {
    match e.node_type {
        Some(t) => t.name@ == name,
        None => false,
    }
}

/// Some entry after the first was reached by wrapping in a type named
/// `name`.
spec fn has_entry(active: Seq<WrapEntry>, name: Seq<char>) -> bool {
    exists|q: int| 1 <= q < active.len() && entry_named(active[q], name)
}

/// The entry's state is the start of its wrapper type's content.
spec fn entry_ok(e: WrapEntry) -> bool {
    match e.node_type {
        Some(t) => t.content_match matches Some(c) && *e.cm == *c,
        None => true,
    }
}

/// Entry `q` was reached from entry `via` by wrapping in its node type.
spec fn linked(active: Seq<WrapEntry>, chains: Seq<Seq<NodeType>>, q: int) -> bool {
    match active[q].node_type {
        Some(t) => active[q].via < q && chains[q] == chains[active[q].via as int].push(*t),
        None => false,
    }
}

struct WrapEntry {
    cm: Arc<ContentMatch>,
    node_type: Option<Arc<NodeType>>,
    via: usize,
}

/// A name seen stays seen as more names are seen.
proof fn lemma_seen_grows(a: Seq<String>, b: Seq<String>)
    requires
        a.len() <= b.len(),
        forall|j: int| 0 <= j < a.len() ==> b[j] == a[j],
    ensures
        forall|x: Seq<char>| seen_has(a, x) ==> seen_has(b, x),
{
    assert forall|x: Seq<char>| seen_has(a, x) implies seen_has(b, x) by {
        let j = choose|j: int| 0 <= j < a.len() && (#[trigger] a[j])@ == x;
        assert(b[j] == a[j]);
    }
}

/// An entry near enough stays so as more entries are added.
proof fn lemma_near_grows(a0: Seq<WrapEntry>, c0: Seq<Seq<NodeType>>, a1: Seq<WrapEntry>, c1: Seq<Seq<NodeType>>)
    requires
        a0.len() <= a1.len(),
        c0.len() == a0.len(),
        c1.len() == a1.len(),
        forall|q: int| 0 <= q < a0.len() ==> a1[q] == a0[q] && c1[q] == c0[q],
    ensures
        forall|x: Seq<char>, len: int| near_entry(a0, c0, x, len) ==> near_entry(a1, c1, x, len),
{
    assert forall|x: Seq<char>, len: int| near_entry(a0, c0, x, len) implies near_entry(a1, c1, x, len) by {
        let q = choose|q: int| 1 <= q < a0.len() && entry_named(a0[q], x) && (#[trigger] c0[q]).len() <= len;
        assert(a1[q] == a0[q] && c1[q] == c0[q]);
    }
}

/// A name with an entry keeps it as more entries are added.
proof fn lemma_named_grows(a: Seq<WrapEntry>, b: Seq<WrapEntry>)
    requires
        a.len() <= b.len(),
        forall|q: int| 0 <= q < a.len() ==> b[q] == a[q],
    ensures
        forall|x: Seq<char>| has_entry(a, x) ==> has_entry(b, x),
{
    assert forall|x: Seq<char>| has_entry(a, x) implies has_entry(b, x) by {
        let q = choose|q: int| 1 <= q < a.len() && entry_named(a[q], x);
        assert(b[q] == a[q]);
    }
}

/// Entry `q` of the search: its state is well formed, its wrapper chain
/// leads to it from the root, and it is linked to the entry it came from.
spec fn entry_inv(root: ContentMatch, active: Seq<WrapEntry>, chains: Seq<Seq<NodeType>>, q: int) -> bool {
    &&& active[q].cm.wf()
    &&& labels_ok(*active[q].cm)
    &&& reaches(root, chains[q], true, *active[q].cm)
    &&& (q == 0) == (chains[q].len() == 0)
    &&& (q == 0) == (active[q].node_type is None)
    &&& q > 0 ==> linked(active, chains, q)
    &&& entry_ok(active[q])
}

/// The search after its first `done` entries were processed: none of them
/// accepts the target, every edge they follow has its name seen, and every
/// name seen has an entry.
spec fn search_ok(
    root: ContentMatch,
    active: Seq<WrapEntry>,
    chains: Seq<Seq<NodeType>>,
    seen: Seq<String>,
    done: int,
    name: Seq<char>,
) -> bool {
    &&& chains.len() == active.len()
    &&& active.len() >= 1
    &&& *active[0].cm == root
    &&& 0 <= done <= active.len()
    &&& forall|q: int| 0 <= q < active.len() ==> #[trigger] entry_inv(root, active, chains, q)
    &&& forall|q: int| 0 <= q < done ==> (#[trigger] active[q]).cm.step(active[q].cm.state(), name) is None
    &&& forall|q: int, i: int|
        0 <= q < done && 0 <= i < active[q].cm.out(active[q].cm.state()).len() && follows(*active[q].cm, i, q == 0)
            ==> seen_has(seen, (#[trigger] active[q].cm.out(active[q].cm.state())[i]).0.name@)
    &&& forall|j: int| 0 <= j < seen.len() ==> has_entry(active, (#[trigger] seen[j])@)
    &&& forall|q: int| 0 <= q < active.len() ==> distinct_names(#[trigger] chains[q])
    &&& forall|q: int, k: int| 0 <= q < active.len() && 0 <= k < chains[q].len() ==> seen_has(seen, (#[trigger] chains[q][k]).name@)
    &&& forall|q1: int, q2: int| 0 <= q1 <= q2 < active.len() ==> (#[trigger] chains[q1]).len() <= (#[trigger] chains[q2]).len()
    &&& done < active.len() ==> forall|q: int| done <= q < active.len() ==> (#[trigger] chains[q]).len() <= chains[done].len() + 1
    &&& forall|q: int, i: int|
        0 <= q < done && 0 <= i < active[q].cm.out(active[q].cm.state()).len() && follows(*active[q].cm, i, q == 0)
            ==> near_entry(active, chains, (#[trigger] active[q].cm.out(active[q].cm.state())[i]).0.name@, chains[q].len() as int + 1)
}

/// Some entry after the first was reached by wrapping in a type named
/// `name`, with a chain of at most `len` wrappers.
spec fn near_entry(active: Seq<WrapEntry>, chains: Seq<Seq<NodeType>>, name: Seq<char>, len: int) -> bool {
    exists|q: int| 1 <= q < active.len() && entry_named(active[q], name) && (#[trigger] chains[q]).len() <= len
}

/// In a finished search, every level of a wrapping from the root has an
/// entry whose state is that level's state.
proof fn lemma_level_entry(
    root: ContentMatch,
    active: Seq<WrapEntry>,
    chains: Seq<Seq<NodeType>>,
    seen: Seq<String>,
    name: Seq<char>,
    ws: Seq<NodeType>,
    end: ContentMatch,
    k: int,
) -> (q: int)
    requires
        names_identify(root),
        reaches(root, ws, true, end),
        0 <= k <= ws.len(),
        search_ok(root, active, chains, seen, active.len() as int, name),
    ensures
        0 <= q < active.len(),
        *active[q].cm == level_state(root, ws, k),
        k == 0 ==> q == 0,
    decreases k,
{
    if k == 0 {
        0
    } else {
        let q0 = lemma_level_entry(root, active, chains, seen, name, ws, end, k - 1);
        let lm = *active[q0].cm;
        lemma_reaches_levels(root, ws, true, end, k - 1);
        let w = ws[k - 1];
        assert(wrap_step(lm, w, k - 1 == 0));
        let i = choose|i: int|
            0 <= i < lm.out(lm.state()).len() && *(#[trigger] lm.out(lm.state())[i]).0 == w && (k - 1 == 0
                || lm.accepting(lm.out(lm.state())[i].1 as nat));
        assert(follows(lm, i, q0 == 0));
        assert(seen_has(seen, active[q0].cm.out(active[q0].cm.state())[i].0.name@));
        let j = choose|j: int| 0 <= j < seen.len() && (#[trigger] seen[j])@ == w.name@;
        assert(has_entry(active, seen[j]@));
        let q1 = choose|q: int| 1 <= q < active.len() && entry_named(active[q], seen[j]@);
        assert(entry_inv(root, active, chains, q1));
        assert(linked(active, chains, q1));
        let t = *active[q1].node_type->0;
        let c1 = chains[q1];
        assert(c1[c1.len() - 1] == t);
        assert(reaches(root, c1, true, *active[q1].cm));
        assert(c1[c1.len() - 1] == ws[k - 1]);
        q1
    }
}

/// While the search is at entry `head`, every level of a wrapping from the
/// root that is shorter than the chain of `head` has an entry whose state is
/// that level's state, with a chain no longer than the level.
proof fn lemma_level_short(
    root: ContentMatch,
    active: Seq<WrapEntry>,
    chains: Seq<Seq<NodeType>>,
    seen: Seq<String>,
    name: Seq<char>,
    ws: Seq<NodeType>,
    end: ContentMatch,
    k: int,
    head: int,
) -> (q: int)
    requires
        names_identify(root),
        reaches(root, ws, true, end),
        0 <= k <= ws.len(),
        0 <= head < active.len(),
        search_ok(root, active, chains, seen, head, name),
        ws.len() < chains[head].len(),
    ensures
        0 <= q < active.len(),
        *active[q].cm == level_state(root, ws, k),
        chains[q].len() <= k,
    decreases k,
{
    if k == 0 {
        assert(entry_inv(root, active, chains, 0));
        0
    } else {
        let q0 = lemma_level_short(root, active, chains, seen, name, ws, end, k - 1, head);
        let lm = *active[q0].cm;
        lemma_reaches_levels(root, ws, true, end, k - 1);
        let w = ws[k - 1];
        assert(wrap_step(lm, w, k - 1 == 0));
        let i = choose|i: int|
            0 <= i < lm.out(lm.state()).len() && *(#[trigger] lm.out(lm.state())[i]).0 == w && (k - 1 == 0
                || lm.accepting(lm.out(lm.state())[i].1 as nat));
        if q0 >= head {
            assert(chains[head].len() <= chains[q0].len());
        }
        assert(entry_inv(root, active, chains, q0));
        assert(follows(lm, i, q0 == 0));
        assert(near_entry(active, chains, active[q0].cm.out(active[q0].cm.state())[i].0.name@, chains[q0].len() as int + 1));
        let q1 = choose|q: int| 1 <= q < active.len() && entry_named(active[q], w.name@) && (#[trigger] chains[q]).len() <= chains[q0].len() as int + 1;
        assert(entry_inv(root, active, chains, q1));
        assert(linked(active, chains, q1));
        let t = *active[q1].node_type->0;
        let c1 = chains[q1];
        assert(c1[c1.len() - 1] == t);
        assert(reaches(root, c1, true, *active[q1].cm));
        assert(c1[c1.len() - 1] == ws[k - 1]);
        q1
    }
}

fn name_seen(seen: &Vec<String>, name: &String) -> (r: bool)
    ensures
        r == exists|i: int| 0 <= i < seen@.len() && seen@[i]@ == name@,
{
    let mut i: usize = 0;
    while i < seen.len()
        invariant
            i <= seen@.len(),
            forall|j: int| 0 <= j < i ==> seen@[j]@ != name@,
        decreases seen@.len() - i,
    {
        if seen[i] == *name {
            return true;
        }
        i = i + 1;
    }
    false
}

/// The wrapper types of entry `head`, outermost first, read back along the
/// links of the entries.
fn chain_of(
    active: &Vec<WrapEntry>,
    head: usize,
    Ghost(root): Ghost<ContentMatch>,
    Ghost(chains): Ghost<Seq<Seq<NodeType>>>,
) -> (result: Vec<Arc<NodeType>>)
    requires
        chains.len() == active@.len(),
        head < active@.len(),
        forall|q: int| 0 <= q < active@.len() ==> #[trigger] entry_inv(root, active@, chains, q),
    ensures
        types_view(result@) == chains[head as int],
{
    let mut rev: Vec<Arc<NodeType>> = Vec::new();
    let mut idx: usize = head;
    proof {
        assert(entry_inv(root, active@, chains, idx as int));
    }
    while active[idx].node_type.is_some()
        invariant
            chains.len() == active@.len(),
            head < active@.len(),
            idx < active@.len(),
            forall|q: int| 0 <= q < active@.len() ==> #[trigger] entry_inv(root, active@, chains, q),
            chains[head as int] == chains[idx as int] + types_view(rev@).reverse(),
        decreases idx,
    {
        proof {
            assert(entry_inv(root, active@, chains, idx as int));
        }
        match &active[idx].node_type {
            Some(t) => {
                let ghost r0 = rev@;
                rev.push(share(t));
                proof {
                    let via = active@[idx as int].via as int;
                    assert(linked(active@, chains, idx as int));
                    assert(types_view(rev@) =~= types_view(r0).push(**t));
                    assert(types_view(rev@).reverse() =~= seq![**t] + types_view(r0).reverse());
                    assert(chains[idx as int] == chains[via].push(**t));
                    assert(chains[head as int] =~= chains[via] + types_view(rev@).reverse());
                }
                idx = active[idx].via;
            },
            None => {},
        }
    }
    proof {
        assert(entry_inv(root, active@, chains, idx as int));
        assert(chains[idx as int].len() == 0);
    }
    let mut result: Vec<Arc<NodeType>> = Vec::new();
    let mut k: usize = rev.len();
    while k > 0
        invariant
            k <= rev@.len(),
            types_view(result@) == types_view(rev@).reverse().subrange(0, (rev@.len() - k) as int),
        decreases k,
    {
        k = k - 1;
        let ghost r0 = result@;
        result.push(share(&rev[k]));
        proof {
            assert(types_view(result@) =~= types_view(r0).push(*rev@[k as int]));
            assert(types_view(result@) =~= types_view(rev@).reverse().subrange(0, (rev@.len() - k) as int));
        }
    }
    proof {
        assert(types_view(result@) =~= chains[head as int]);
    }
    result
}

/// Processes entry `head`: adds an entry for each edge out of its state
/// that the search follows and whose type name is new; the chains of the
/// entries after that.
fn expand(
    m: &Arc<ContentMatch>,
    head: usize,
    seen: &mut Vec<String>,
    active: &mut Vec<WrapEntry>,
    Ghost(root): Ghost<ContentMatch>,
    Ghost(chains): Ghost<Seq<Seq<NodeType>>>,
    Ghost(name): Ghost<Seq<char>>,
) -> (r: Ghost<Seq<Seq<NodeType>>>)
    requires
        search_ok(root, old(active)@, chains, old(seen)@, head as int, name),
        head < old(active)@.len(),
        *m == old(active)@[head as int].cm,
        m.step(m.state(), name) is None,
    ensures
        search_ok(root, final(active)@, r@, final(seen)@, head + 1, name),
{
    let ghost mut ch = chains;
    let is_root = head == 0;
    proof {
        assert(entry_inv(root, active@, ch, head as int));
    }
    let edges = &m.graph[m.state].edges;
    let ne = edges.len();
    let mut i: usize = 0;
    while i < ne
        invariant
            m.wf(),
            labels_ok(**m),
            edges@ == m.out(m.state()),
            ne == edges@.len(),
            is_root == (head == 0),
            i <= ne,
            head < active@.len(),
            *m == active@[head as int].cm,
            m.step(m.state(), name) is None,
            search_ok(root, active@, ch, seen@, head as int, name),
            forall|j: int| 0 <= j < i && follows(**m, j, is_root) ==> seen_has(seen@, (#[trigger] m.out(m.state())[j]).0.name@),
            ch[head as int] == chains[head as int],
            forall|j: int| 0 <= j < i && follows(**m, j, is_root)
                ==> near_entry(active@, ch, (#[trigger] m.out(m.state())[j]).0.name@, chains[head as int].len() as int + 1),
        decreases ne - i,
    {
        let ghost a_pre = active@;
        let ghost ch_pre = ch;
        let nt = &edges[i].0;
        let target_state = edges[i].1;
        proof {
            assert(type_tree_ok(*m.out(m.state())[i as int].0));
        }
        let ghost s_pre = seen@;
        if !nt.is_leaf() && !nt.has_required_attrs() && !name_seen(&seen, &nt.name) && (is_root
            || m.graph[target_state].valid_end) {
            let ghost s0 = seen@;
            seen.push(nt.name.clone());
            match &nt.content_match {
                Some(cm) => {
                    let ghost a0 = active@;
                    active.push(WrapEntry { cm: share(cm), node_type: Some(share(nt)), via: head });
                    proof {
                        lemma_seen_grows(s0, seen@);
                        lemma_named_grows(a0, active@);
                        let ch0 = ch;
                        let c0 = ch0[head as int];
                        assert(entry_inv(root, a0, ch0, head as int));
                        assert(wrap_step(**m, **nt, head == 0));
                        lemma_reaches_push(&root, c0, true, m, nt);
                        ch = ch0.push(c0.push(deref_type(nt)));
                        assert forall|q: int| 0 <= q < active@.len() implies #[trigger] entry_inv(root, active@, ch, q) by {
                            if q < a0.len() {
                                assert(entry_inv(root, a0, ch0, q));
                                assert(active@[q] == a0[q]);
                                assert(ch[q] == ch0[q]);
                                if q > 0 {
                                    assert(linked(a0, ch0, q));
                                    assert(ch[a0[q].via as int] == ch0[a0[q].via as int]);
                                }
                            } else {
                                assert(labels_ok(**cm));
                                assert(ch[q].len() > 0);
                            }
                        }
                        assert forall|q: int| 0 <= q < head implies (#[trigger] active@[q]).cm.step(active@[q].cm.state(), name) is None by {
                            assert(active@[q] == a0[q]);
                        }
                        assert forall|q: int, i2: int|
                            0 <= q < head && 0 <= i2 < active@[q].cm.out(active@[q].cm.state()).len() && follows(
                                *active@[q].cm,
                                i2,
                                q == 0,
                            ) implies seen_has(seen@, (#[trigger] active@[q].cm.out(active@[q].cm.state())[i2]).0.name@) by {
                            assert(active@[q] == a0[q]);
                            assert(seen_has(s0, a0[q].cm.out(a0[q].cm.state())[i2].0.name@));
                        }
                        assert(entry_named(active@[a0.len() as int], nt.name@));
                        assert forall|j: int| 0 <= j < seen@.len() implies has_entry(active@, (#[trigger] seen@[j])@) by {
                            if j < s0.len() {
                                assert(seen@[j] == s0[j]);
                                assert(has_entry(a0, s0[j]@));
                            } else {
                                assert(seen@[j]@ == nt.name@);
                            }
                        }
                        assert(seen@[s0.len() as int]@ == m.out(m.state())[i as int].0.name@);
                        assert(seen_has(seen@, m.out(m.state())[i as int].0.name@));
                        assert(!seen_has(s0, nt.name@));
                        lemma_near_grows(a0, ch0, active@, ch);
                        assert forall|q1: int, q2: int| 0 <= q1 <= q2 < active@.len() implies (#[trigger] ch[q1]).len() <= (#[trigger] ch[q2]).len() by {
                            if q2 < a0.len() {
                                assert(ch[q1] == ch0[q1] && ch[q2] == ch0[q2]);
                                assert(ch0[q1].len() <= ch0[q2].len());
                            } else if q1 < a0.len() {
                                assert(ch[q1] == ch0[q1]);
                                if q1 <= head {
                                    assert(ch0[q1].len() <= ch0[head as int].len());
                                } else {
                                    assert(ch0[q1].len() <= ch0[head as int].len() + 1);
                                }
                            }
                        }
                        assert forall|q: int| head <= q < active@.len() implies (#[trigger] ch[q]).len() <= ch[head as int].len() + 1 by {
                            if q < a0.len() {
                                assert(ch[q] == ch0[q]);
                                assert(ch0[q].len() <= ch0[head as int].len() + 1);
                            }
                        }
                        assert(near_entry(active@, ch, nt.name@, ch0[head as int].len() as int + 1)) by {
                            assert(entry_named(active@[a0.len() as int], nt.name@));
                            assert(ch[a0.len() as int].len() == c0.len() + 1);
                        }
                        assert forall|q: int| 0 <= q < active@.len() implies distinct_names(#[trigger] ch[q]) by {
                            if q < a0.len() {
                                assert(ch[q] == ch0[q]);
                            } else {
                                assert(ch[q] == c0.push(deref_type(nt)));
                                assert(distinct_names(ch0[head as int]));
                                assert forall|i1: int, j1: int| 0 <= i1 < j1 < ch[q].len() implies (#[trigger] ch[q][i1]).name@ != (#[trigger] ch[q][j1]).name@ by {
                                    if j1 == c0.len() {
                                        assert(seen_has(s0, ch0[head as int][i1].name@));
                                        assert(ch[q][i1] == c0[i1]);
                                    } else {
                                        assert(ch[q][i1] == c0[i1] && ch[q][j1] == c0[j1]);
                                    }
                                }
                            }
                        }
                        assert forall|q: int, k: int| 0 <= q < active@.len() && 0 <= k < ch[q].len() implies seen_has(seen@, (#[trigger] ch[q][k]).name@) by {
                            if q < a0.len() {
                                assert(ch[q] == ch0[q]);
                                assert(seen_has(s0, ch0[q][k].name@));
                            } else if k < c0.len() {
                                assert(ch[q][k] == c0[k]);
                                assert(seen_has(s0, ch0[head as int][k].name@));
                            } else {
                                assert(ch[q][k] == deref_type(nt));
                                assert(seen@[s0.len() as int]@ == nt.name@);
                            }
                        }
                    }
                },
                None => {
                    proof {
                        assert(spec_is_leaf(**nt));
                    }
                },
            }
        }
        proof {
            lemma_near_grows(a_pre, ch_pre, active@, ch);
            if follows_ref(&**m, i as int, is_root) {
                let nm = m.out(m.state())[i as int].0.name@;
                if !near_entry(active@, ch, nm, chains[head as int].len() as int + 1) {
                    assert(seen_has(seen@, nm));
                    let j = choose|j: int| 0 <= j < seen@.len() && (#[trigger] seen@[j])@ == nm;
                    assert(has_entry(active@, seen@[j]@));
                    let q = choose|q: int| 1 <= q < active@.len() && entry_named(active@[q], nm);
                    if q <= head {
                        assert(ch[q].len() <= ch[head as int].len());
                    } else {
                        assert(ch[q].len() <= ch[head as int].len() + 1);
                    }
                    assert(near_entry(active@, ch, nm, chains[head as int].len() as int + 1));
                }
            }
            assert forall|j: int| 0 <= j < i + 1 && follows(**m, j, is_root)
                implies near_entry(active@, ch, (#[trigger] m.out(m.state())[j]).0.name@, chains[head as int].len() as int + 1) by {
                if j < i {
                    assert(near_entry(a_pre, ch_pre, m.out(m.state())[j].0.name@, chains[head as int].len() as int + 1));
                }
            }
            lemma_seen_grows(s_pre, seen@);
            assert forall|q: int, k: int| 0 <= q < active@.len() && 0 <= k < ch[q].len() implies seen_has(seen@, (#[trigger] ch[q][k]).name@) by {
                assert(seen_has(s_pre, ch[q][k].name@) || seen_has(seen@, ch[q][k].name@));
            }
            assert forall|j: int| 0 <= j < i + 1 && follows(**m, j, is_root) implies seen_has(
                seen@,
                (#[trigger] m.out(m.state())[j]).0.name@,
            ) by {
                if j < i {
                    assert(seen_has(s_pre, m.out(m.state())[j].0.name@));
                }
            }
        }
        i = i + 1;
    }
    proof {
        assert forall|q: int| 0 <= q < head + 1 implies (#[trigger] active@[q]).cm.step(active@[q].cm.state(), name) is None by {
            if q == head as int {
                assert(active@[q].cm == *m);
            }
        }
        assert forall|q: int, i2: int|
            0 <= q < head + 1 && 0 <= i2 < active@[q].cm.out(active@[q].cm.state()).len() && follows(
                *active@[q].cm,
                i2,
                q == 0,
            ) implies seen_has(seen@, (#[trigger] active@[q].cm.out(active@[q].cm.state())[i2]).0.name@) by {
            if q == head as int {
                assert(active@[q].cm == *m);
                assert(follows(**m, i2, is_root));
                assert(seen_has(seen@, m.out(m.state())[i2].0.name@));
            }
        }
    }
    Ghost(ch)
}

impl ContentMatch {
    /// The types to wrap around a node of type `target` so that it fits
    /// here, outermost first: a breadth-first search over wrapper types (each
    /// type tried once, by name), so no two of them share a name and, where
    /// names identify types, no shorter list would do; an empty list when the
    /// node fits directly.
    pub fn find_wrapping(&self, target: &NodeType) -> (r: Option<Vec<Arc<NodeType>>>)
        requires
            self.wf(),
            labels_ok(*self),
        ensures
            match r {
                Some(ws) => wraps(*self, types_view(ws@), target.name@)
                    && distinct_names(types_view(ws@))
                    && (names_identify(*self) ==> forall|ws2: Seq<NodeType>| #[trigger] wraps(*self, ws2, target.name@) ==> ws@.len() <= ws2.len())
                    && (ws@.len() == 0 <==> self.step(self.state(), target.name@) is Some),
                None => self.step(self.state(), target.name@) is None && (names_identify(*self) ==> forall|ws: Seq<
                    NodeType,
                >| !wraps(*self, ws, target.name@)),
            },
    {
        let mut seen: Vec<String> = Vec::new();
        let mut active: Vec<WrapEntry> = Vec::new();
        active.push(WrapEntry { cm: self.here(), node_type: None, via: 0 });
        let ghost mut chains: Seq<Seq<NodeType>> = seq![Seq::<NodeType>::empty()];
        proof {
            assert(reaches(*self, chains[0], true, *self));
            assert(entry_inv(*self, active@, chains, 0));
            assert(distinct_names(chains[0]));
        }
        let mut head: usize = 0;
        while head < active.len()
            invariant
                self.wf(),
                labels_ok(*self),
                search_ok(*self, active@, chains, seen@, head as int, target.name@),
                head > 0 ==> self.step(self.state(), target.name@) is None,
            decreases usize::MAX - head,
        {
            let m = share(&active[head].cm);
            proof {
                assert(entry_inv(*self, active@, chains, head as int));
            }
            if m.match_type(target).is_some() {
                let result = chain_of(&active, head, Ghost(*self), Ghost(chains));
                proof {
                    assert(types_view(result@).len() == result@.len());
                    assert(distinct_names(chains[head as int]));
                    assert forall|ws2: Seq<NodeType>| names_identify(*self) && #[trigger] wraps(*self, ws2, target.name@)
                        implies result@.len() <= ws2.len() by {
                        if ws2.len() < chains[head as int].len() {
                            let end = choose|end: ContentMatch| reaches(*self, ws2, true, end) && end.step(end.state(), target.name@) is Some;
                            let q = lemma_level_short(*self, active@, chains, seen@, target.name@, ws2, end, ws2.len() as int, head as int);
                            lemma_reaches_levels(*self, ws2, true, end, ws2.len() as int);
                            if q >= head {
                                assert(chains[head as int].len() <= chains[q].len());
                            }
                            assert(active@[q].cm.step(active@[q].cm.state(), target.name@) is None);
                        }
                    }
                    assert(reaches(*self, chains[head as int], true, *m));
                    assert(m.step(m.state(), target.name@) is Some);
                    if head == 0 {
                        assert(*m == *self);
                    }
                }
                return Some(result);
            }
            proof {
                if head == 0 {
                    assert(*m == *self);
                }
            }
            let grown = expand(&m, head, &mut seen, &mut active, Ghost(*self), Ghost(chains), Ghost(target.name@));
            proof {
                chains = grown@;
            }
            head = head + 1;
        }
        proof {
            assert forall|ws: Seq<NodeType>| names_identify(*self) implies !wraps(*self, ws, target.name@) by {
                if wraps(*self, ws, target.name@) {
                    let end = choose|end: ContentMatch| reaches(*self, ws, true, end) && end.step(end.state(), target.name@) is Some;
                    let q = lemma_level_entry(*self, active@, chains, seen@, target.name@, ws, end, ws.len() as int);
                    lemma_reaches_levels(*self, ws, true, end, ws.len() as int);
                    assert(*active@[q].cm == end);
                    assert(active@[q].cm.step(active@[q].cm.state(), target.name@) is None);
                }
            }
        }
        None
    }
}

} // verus!
