use vstd::prelude::*;
use std::sync::Arc;

use crate::attrs::{Attrs, AttrValue, entries_same, attr_value_eq};
use crate::schema::{MarkType, spec_excludes};
use crate::util::share;

verus! {

/// A mark: a type and attributes, laid over inline content (emphasis, a
/// link with its target, and so on).
#[derive(Debug)]
pub struct Mark {
    pub mark_type: Arc<MarkType>,
    pub attrs: Attrs,
}

/// What a mark holds.
pub struct MarkV {
    pub mark_type: MarkType,
    pub attrs: Seq<(String, AttrValue)>,
}

impl View for Mark {
    type V = MarkV;

    open spec fn view(&self) -> MarkV {
        MarkV { mark_type: *self.mark_type, attrs: self.attrs.entries() }
    }
}

/// The views of a list of marks.
pub open spec fn marks_view(m: Seq<Mark>) -> Seq<MarkV> {
    m.map_values(|x: Mark| x@)
}

/// Two marks are equal: the same type (equal identities) and equal
/// attributes.
pub open spec fn mark_eq(a: MarkV, b: MarkV) -> bool {
    a.mark_type.id == b.mark_type.id && entries_same(a.attrs, b.attrs)
}

/// The set holds a mark equal to `m`.
pub open spec fn in_set(m: MarkV, s: Seq<MarkV>) -> bool {
    exists|i: int| 0 <= i < s.len() && #[trigger] mark_eq(m, s[i])
}

/// Two mark sets are equal: as many marks, pairwise equal.
pub open spec fn same_set(a: Seq<MarkV>, b: Seq<MarkV>) -> bool {
    &&& a.len() == b.len()
    &&& forall|i: int| 0 <= i < a.len() ==> #[trigger] mark_eq(a[i], b[i])
}

/// Index of the first mark at or after `i` that equals `m`.
pub open spec fn first_eq_from(m: MarkV, s: Seq<MarkV>, i: int) -> Option<int>
    decreases s.len() - i,
{
    if i < 0 || i >= s.len() {
        None
    } else if mark_eq(m, s[i]) {
        Some(i)
    } else {
        first_eq_from(m, s, i + 1)
    }
}

/// The set without its first mark equal to `m` (unchanged if there is none).
pub open spec fn removed(m: MarkV, s: Seq<MarkV>) -> Seq<MarkV> {
    match first_eq_from(m, s, 0) {
        Some(k) => s.remove(k),
        None => s,
    }
}

/// Mark `a` excludes marks of the type of `b`.
pub open spec fn excl(a: MarkV, b: MarkV) -> bool {
    spec_excludes(a.mark_type, b.mark_type)
}

/// `o` keeps `m` out of a set that holds `o`: it equals `m`, or it excludes
/// `m` without being excluded by `m`.
pub open spec fn blocks(m: MarkV, o: MarkV) -> bool {
    mark_eq(m, o) || (!excl(m, o) && excl(o, m))
}

/// Some mark of the set keeps `m` out.
pub open spec fn blocked(m: MarkV, s: Seq<MarkV>) -> bool {
    exists|i: int| 0 <= i < s.len() && #[trigger] blocks(m, s[i])
}

/// The marks of `s` that `m` does not exclude, in order.
pub open spec fn kept(m: MarkV, s: Seq<MarkV>) -> Seq<MarkV>
    decreases s.len(),
{
    if s.len() == 0 {
        seq![]
    } else {
        let k = kept(m, s.drop_last());
        if excl(m, s.last()) {
            k
        } else {
            k.push(s.last())
        }
    }
}

/// The index of the first mark of rank above `r`, or the length if none.
pub open spec fn rank_pos(k: Seq<MarkV>, r: int) -> int
    decreases k.len(),
{
    if k.len() == 0 {
        0
    } else {
        let p = rank_pos(k.drop_last(), r);
        if p < k.len() - 1 {
            p
        } else if k.last().mark_type.rank > r {
            k.len() - 1
        } else {
            k.len() as int
        }
    }
}

/// `m` added to the set: the set itself if some mark keeps `m` out, else the
/// marks that `m` does not exclude with `m` placed before the first of
/// higher rank.
pub open spec fn added(m: MarkV, s: Seq<MarkV>) -> Seq<MarkV> {
    if blocked(m, s) {
        s
    } else {
        let k = kept(m, s);
        k.insert(rank_pos(k, m.mark_type.rank as int), m)
    }
}

/// The marks ordered by rank, marks of equal rank in their given order.
pub open spec fn sorted_by_rank(s: Seq<MarkV>) -> Seq<MarkV>
    decreases s.len(),
{
    if s.len() == 0 {
        seq![]
    } else {
        let k = sorted_by_rank(s.drop_last());
        k.insert(rank_pos(k, s.last().mark_type.rank as int), s.last())
    }
}

/// The ranks never decrease along the set.
pub open spec fn rank_sorted(s: Seq<MarkV>) -> bool {
    forall|i: int, j: int|
        0 <= i < j < s.len() ==> (#[trigger] s[i]).mark_type.rank <= (#[trigger] s[j]).mark_type.rank
}

/// Every attribute value of the mark equals itself (no NaN).
pub open spec fn attrs_reflexive(m: MarkV) -> bool {
    forall|i: int| 0 <= i < m.attrs.len() ==> #[trigger] attr_value_eq(m.attrs[i].1, m.attrs[i].1)
}

pub proof fn lemma_marks_view(m: Seq<Mark>)
    ensures
        marks_view(m).len() == m.len(),
        forall|i: int| 0 <= i < m.len() ==> #[trigger] marks_view(m)[i] == m[i]@,
{
}

pub proof fn lemma_first_eq_from(m: MarkV, s: Seq<MarkV>, i: int)
    requires
        0 <= i,
    ensures
        match first_eq_from(m, s, i) {
            Some(k) => i <= k < s.len() && mark_eq(m, s[k]) && forall|j: int|
                i <= j < k ==> !mark_eq(m, #[trigger] s[j]),
            None => forall|j: int| i <= j < s.len() ==> !mark_eq(m, #[trigger] s[j]),
        },
    decreases s.len() - i,
{
    if i < s.len() && !mark_eq(m, s[i]) {
        lemma_first_eq_from(m, s, i + 1);
    }
}

/// The position found by `rank_pos`: ranks up to it are at most `r`, and the
/// mark there (if any) has a higher rank.
pub proof fn lemma_rank_pos(k: Seq<MarkV>, r: int)
    ensures
        0 <= rank_pos(k, r) <= k.len(),
        forall|i: int| 0 <= i < rank_pos(k, r) ==> (#[trigger] k[i]).mark_type.rank <= r,
        rank_pos(k, r) < k.len() ==> k[rank_pos(k, r)].mark_type.rank > r,
    decreases k.len(),
{
    if k.len() > 0 {
        lemma_rank_pos(k.drop_last(), r);
        assert forall|i: int| 0 <= i < rank_pos(k, r) implies (#[trigger] k[i]).mark_type.rank <= r by {
            if i < k.len() - 1 {
                assert(k[i] == k.drop_last()[i]);
            }
        }
    }
}

proof fn lemma_rank_pos_push(k: Seq<MarkV>, x: MarkV, r: int)
    ensures
        rank_pos(k.push(x), r) == if rank_pos(k, r) < k.len() {
            rank_pos(k, r)
        } else if x.mark_type.rank > r {
            k.len() as int
        } else {
            (k.len() + 1) as int
        },
{
    assert(k.push(x).drop_last() =~= k);
    lemma_rank_pos(k, r);
}

/// The views of a list after a push.
pub proof fn lemma_marks_view_push(s: Seq<Mark>, x: Mark)
    ensures
        marks_view(s.push(x)) == marks_view(s).push(x@),
{
    assert(marks_view(s.push(x)) =~= marks_view(s).push(x@));
}

proof fn lemma_kept_push(m: MarkV, s: Seq<MarkV>, i: int)
    requires
        0 <= i < s.len(),
    ensures
        kept(m, s.take(i + 1)) == if excl(m, s[i]) {
            kept(m, s.take(i))
        } else {
            kept(m, s.take(i)).push(s[i])
        },
{
    assert(s.take(i + 1).drop_last() =~= s.take(i));
}


/// Each mark that `kept` keeps comes from the set and is not excluded.
proof fn lemma_kept_from(m: MarkV, s: Seq<MarkV>)
    ensures
        kept(m, s).len() <= s.len(),
        forall|i: int| 0 <= i < kept(m, s).len() ==> exists|j: int| 0 <= j < s.len() && s[j] == #[trigger] kept(m, s)[i],
        rank_sorted(s) ==> rank_sorted(kept(m, s)),
    decreases s.len(),
{
    if s.len() > 0 {
        let s0 = s.drop_last();
        lemma_kept_from(m, s0);
        let k0 = kept(m, s0);
        assert forall|i: int| 0 <= i < k0.len() implies exists|j: int| 0 <= j < s.len() && s[j] == #[trigger] k0[i] by {
            let j = choose|j: int| 0 <= j < s0.len() && s0[j] == k0[i];
            assert(s[j] == s0[j]);
        }
        if !excl(m, s.last()) {
            let k = k0.push(s.last());
            assert forall|i: int| 0 <= i < k.len() implies exists|j: int| 0 <= j < s.len() && s[j] == #[trigger] k[i] by {
                if i < k0.len() {
                    assert(k[i] == k0[i]);
                } else {
                    assert(s[s.len() - 1] == k[i]);
                }
            }
            if rank_sorted(s) {
                assert(rank_sorted(s0));
                assert forall|a: int, b: int| 0 <= a < b < k.len() implies (#[trigger] k[a]).mark_type.rank <= (#[trigger] k[b]).mark_type.rank by {
                    if b < k0.len() {
                        assert(k[a] == k0[a] && k[b] == k0[b]);
                    } else {
                        assert(k[a] == k0[a]);
                        let j = choose|j: int| 0 <= j < s.len() && s[j] == k0[a];
                        if j == s.len() - 1 {
                        } else {
                            assert(s[j].mark_type.rank <= s[s.len() - 1].mark_type.rank);
                        }
                    }
                }
            }
        }
    }
}

/// Placing a mark at its rank position keeps a rank-sorted set sorted.
proof fn lemma_insert_sorted(k: Seq<MarkV>, x: MarkV)
    requires
        rank_sorted(k),
    ensures
        rank_sorted(k.insert(rank_pos(k, x.mark_type.rank as int), x)),
{
    let p = rank_pos(k, x.mark_type.rank as int);
    lemma_rank_pos(k, x.mark_type.rank as int);
    k.insert_ensures(p, x);
    let r = k.insert(p, x);
    assert forall|a: int, b: int| 0 <= a < b < r.len() implies (#[trigger] r[a]).mark_type.rank <= (#[trigger] r[b]).mark_type.rank by {
        if b < p {
            assert(r[a] == k[a] && r[b] == k[b]);
        } else if b == p {
            assert(r[a] == k[a]);
        } else if a < p {
            assert(r[a] == k[a] && r[b] == k[b - 1]);
        } else if a == p {
            assert(r[b] == k[b - 1]);
            assert(k[p].mark_type.rank > x.mark_type.rank);
            if b - 1 > p {
                assert(k[p].mark_type.rank <= k[b - 1].mark_type.rank);
            }
        } else {
            assert(r[a] == k[a - 1] && r[b] == k[b - 1]);
        }
    }
}

/// Adding a mark twice adds it once: `add_to_set` is idempotent (for a mark
/// whose attribute values each equal themselves).
pub proof fn law_add_to_set_idempotent(m: MarkV, s: Seq<MarkV>)
    requires
        attrs_reflexive(m),
    ensures
        added(m, added(m, s)) == added(m, s),
        !blocked(m, s) ==> in_set(m, added(m, s)),
{
    if !blocked(m, s) {
        let k = kept(m, s);
        let p = rank_pos(k, m.mark_type.rank as int);
        lemma_rank_pos(k, m.mark_type.rank as int);
        k.insert_ensures(p, m);
        let r = added(m, s);
        assert(r[p] == m);
        assert forall|i: int| 0 <= i < m.attrs.len() implies #[trigger] crate::attrs::entry_matched(m.attrs[i], m.attrs) by {
            assert(attr_value_eq(m.attrs[i].1, m.attrs[i].1));
        }
        assert(mark_eq(m, r[p]));
        assert(blocks(m, r[p]));
        assert(blocked(m, r));
    }
}

/// Adding a mark to a set ordered by rank gives a set ordered by rank.
pub proof fn law_add_to_set_keeps_rank_order(m: MarkV, s: Seq<MarkV>)
    requires
        rank_sorted(s),
    ensures
        rank_sorted(added(m, s)),
{
    if !blocked(m, s) {
        lemma_kept_from(m, s);
        lemma_insert_sorted(kept(m, s), m);
    }
}

/// Removing a mark just added leaves the marks it did not exclude (for a
/// mark that was not kept out, and whose attribute values equal themselves).
pub proof fn law_remove_undoes_add(m: MarkV, s: Seq<MarkV>)
    requires
        attrs_reflexive(m),
        !blocked(m, s),
    ensures
        removed(m, added(m, s)) == kept(m, s),
{
    let k = kept(m, s);
    let p = rank_pos(k, m.mark_type.rank as int);
    lemma_rank_pos(k, m.mark_type.rank as int);
    lemma_kept_from(m, s);
    k.insert_ensures(p, m);
    let r = added(m, s);
    law_add_to_set_idempotent(m, s);
    assert forall|j: int| 0 <= j < p implies !mark_eq(m, #[trigger] r[j]) by {
        assert(r[j] == k[j]);
        let t = choose|t: int| 0 <= t < s.len() && s[t] == k[j];
        if mark_eq(m, r[j]) {
            assert(blocks(m, s[t]));
        }
    }
    assert forall|i: int| 0 <= i < m.attrs.len() implies #[trigger] crate::attrs::entry_matched(m.attrs[i], m.attrs) by {
        assert(attr_value_eq(m.attrs[i].1, m.attrs[i].1));
    }
    lemma_first_eq_from(m, r, 0);
    assert(mark_eq(m, r[p]));
    assert(first_eq_from(m, r, 0) == Some(p));
    r.remove_ensures(p);
    assert(r.remove(p) =~= k);
}

/// A mark that excludes none of a set keeps all of it.
proof fn lemma_kept_all(m: MarkV, s: Seq<MarkV>)
    requires
        forall|i: int| 0 <= i < s.len() ==> !excl(m, #[trigger] s[i]),
    ensures
        kept(m, s) == s,
    decreases s.len(),
{
    if s.len() > 0 {
        let d = s.drop_last();
        assert forall|i: int| 0 <= i < d.len() implies !excl(m, #[trigger] d[i]) by {
            assert(d[i] == s[i]);
        }
        lemma_kept_all(m, d);
        assert(!excl(m, s[s.len() - 1]));
        assert(d.push(s.last()) =~= s);
    }
}

/// Removing a mark just added gives back the set, when the mark excludes
/// none of the set and nothing in it keeps the mark out (for a mark whose
/// attribute values equal themselves).
pub proof fn law_remove_after_add_gives_back(m: MarkV, s: Seq<MarkV>)
    requires
        attrs_reflexive(m),
        !blocked(m, s),
        forall|i: int| 0 <= i < s.len() ==> !excl(m, #[trigger] s[i]),
    ensures
        removed(m, added(m, s)) == s,
{
    law_remove_undoes_add(m, s);
    lemma_kept_all(m, s);
}

/// `set_from` gives the same marks, ordered by rank.
pub proof fn law_set_from_sorts(s: Seq<MarkV>)
    ensures
        rank_sorted(sorted_by_rank(s)),
        sorted_by_rank(s).to_multiset() == s.to_multiset(),
    decreases s.len(),
{
    broadcast use vstd::seq_lib::to_multiset_insert, vstd::seq_lib::to_multiset_build;
    if s.len() == 0 {
        assert(sorted_by_rank(s) =~= s);
    } else {
        let s0 = s.drop_last();
        law_set_from_sorts(s0);
        let k = sorted_by_rank(s0);
        let p = rank_pos(k, s.last().mark_type.rank as int);
        lemma_insert_sorted(k, s.last());
        lemma_rank_pos(k, s.last().mark_type.rank as int);
        assert(s0.push(s.last()) =~= s);
        assert(k.insert(p, s.last()).to_multiset() == k.to_multiset().insert(s.last()));
        assert(s0.push(s.last()).to_multiset() == s0.to_multiset().insert(s.last()));
    }
}

impl Clone for Mark {
    fn clone(&self) -> (r: Self)
        ensures
            r@ == self@,
    {
        Mark { mark_type: share(&self.mark_type), attrs: self.attrs.clone() }
    }
}

/// A copy of a list of marks.
pub fn copy_marks(m: &[Mark]) -> (r: Vec<Mark>)
    ensures
        marks_view(r@) == marks_view(m@),
{
    let mut r: Vec<Mark> = Vec::new();
    let mut i: usize = 0;
    while i < m.len()
        invariant
            i <= m@.len(),
            r@.len() == i,
            forall|j: int| 0 <= j < i ==> (#[trigger] r@[j])@ == m@[j]@,
        decreases m@.len() - i,
    {
        r.push(m[i].clone());
        i = i + 1;
    }
    assert(marks_view(r@) =~= marks_view(m@));
    r
}

impl Mark {
    /// A mark of the given type with the given attributes.
    pub fn new(mark_type: Arc<MarkType>, attrs: Attrs) -> (r: Mark)
        ensures
            r.mark_type == mark_type,
            r.attrs == attrs,
    {
        Mark { mark_type, attrs }
    }

    /// Whether the two marks are equal.
    pub fn eq(&self, other: &Mark) -> (r: bool)
        ensures
            r == mark_eq(self@, other@),
    {
        self.mark_type.id == other.mark_type.id && self.attrs.equals(&other.attrs)
    }

    /// Whether the set holds a mark equal to this one.
    pub fn is_in_set(&self, set: &[Mark]) -> (r: bool)
        ensures
            r == in_set(self@, marks_view(set@)),
    {
        proof {
            lemma_marks_view(set@);
        }
        let mut i: usize = 0;
        while i < set.len()
            invariant
                i <= set@.len(),
                marks_view(set@).len() == set@.len(),
                forall|j: int| 0 <= j < set@.len() ==> #[trigger] marks_view(set@)[j] == set@[j]@,
                forall|j: int| 0 <= j < i ==> !mark_eq(self@, #[trigger] marks_view(set@)[j]),
            decreases set@.len() - i,
        {
            if self.eq(&set[i]) {
                assert(mark_eq(self@, marks_view(set@)[i as int]));
                return true;
            }
            i = i + 1;
        }
        false
    }

    /// Whether the two sets hold pairwise equal marks.
    pub fn same_set(a: &[Mark], b: &[Mark]) -> (r: bool)
        ensures
            r == same_set(marks_view(a@), marks_view(b@)),
    {
        proof {
            lemma_marks_view(a@);
            lemma_marks_view(b@);
        }
        if a.len() != b.len() {
            return false;
        }
        let mut i: usize = 0;
        while i < a.len()
            invariant
                i <= a@.len(),
                a@.len() == b@.len(),
                marks_view(a@).len() == a@.len(),
                marks_view(b@).len() == b@.len(),
                forall|j: int| 0 <= j < a@.len() ==> #[trigger] marks_view(a@)[j] == a@[j]@,
                forall|j: int| 0 <= j < b@.len() ==> #[trigger] marks_view(b@)[j] == b@[j]@,
                forall|j: int| 0 <= j < i ==> #[trigger] mark_eq(marks_view(a@)[j], marks_view(b@)[j]),
            decreases a@.len() - i,
        {
            if !a[i].eq(&b[i]) {
                assert(!mark_eq(marks_view(a@)[i as int], marks_view(b@)[i as int]));
                return false;
            }
            i = i + 1;
        }
        true
    }

    /// The set without the first mark equal to this one.
    pub fn remove_from_set(&self, set: &[Mark]) -> (r: Vec<Mark>)
        ensures
            marks_view(r@) == removed(self@, marks_view(set@)),
    {
        proof {
            lemma_marks_view(set@);
            lemma_first_eq_from(self@, marks_view(set@), 0);
        }
        let ghost sv = marks_view(set@);
        let mut i: usize = 0;
        while i < set.len()
            invariant
                i <= set@.len(),
                sv == marks_view(set@),
                sv.len() == set@.len(),
                forall|j: int| 0 <= j < set@.len() ==> #[trigger] sv[j] == set@[j]@,
                forall|j: int| 0 <= j < i ==> !mark_eq(self@, #[trigger] sv[j]),
                match first_eq_from(self@, sv, 0) {
                    Some(k) => i <= k && k < sv.len() && mark_eq(self@, sv[k]),
                    None => forall|j: int| 0 <= j < sv.len() ==> !mark_eq(self@, #[trigger] sv[j]),
                },
            decreases set@.len() - i,
        {
            if self.eq(&set[i]) {
                let mut result: Vec<Mark> = Vec::new();
                let mut j: usize = 0;
                while j < set.len()
                    invariant
                        i < set@.len(),
                        j <= set@.len(),
                        sv.len() == set@.len(),
                        forall|x: int| 0 <= x < set@.len() ==> #[trigger] sv[x] == set@[x]@,
                        marks_view(result@) == if j <= i {
                            sv.take(j as int)
                        } else {
                            sv.take(j as int).remove(i as int)
                        },
                    decreases set@.len() - j,
                {
                    let ghost before = result@;
                    if j != i {
                        let c = set[j].clone();
                        result.push(c);
                        proof {
                            lemma_marks_view_push(before, c);
                        }
                    }
                    proof {
                        if j < i {
                            assert(marks_view(result@) =~= sv.take(j + 1));
                        } else if j == i {
                            assert(sv.take(j + 1).remove(i as int) =~= sv.take(j as int));
                        } else {
                            sv.take(j + 1).remove_ensures(i as int);
                            sv.take(j as int).remove_ensures(i as int);
                            let lhs = marks_view(result@);
                            let rhs = sv.take(j + 1).remove(i as int);
                            assert(lhs.len() == rhs.len());
                            assert forall|x: int| 0 <= x < lhs.len() implies lhs[x] == rhs[x] by {
                                if x < i {
                                    assert(rhs[x] == sv.take(j + 1)[x]);
                                } else if x < j - 1 {
                                    assert(rhs[x] == sv.take(j + 1)[x + 1]);
                                    assert(lhs[x] == sv.take(j as int).remove(i as int)[x]);
                                } else {
                                    assert(rhs[x] == sv.take(j + 1)[x + 1]);
                                }
                            }
                            assert(lhs =~= rhs);
                        }
                    }
                    j = j + 1;
                }
                proof {
                    assert(sv.take(set@.len() as int) =~= sv);
                    lemma_first_eq_from(self@, sv, 0);
                    assert(mark_eq(self@, sv[i as int]));
                    assert(first_eq_from(self@, sv, 0) == Some(i as int));
                }
                return result;
            }
            i = i + 1;
        }
        let r = copy_marks(set);
        r
    }

    /// This mark added to the set, in rank order, with the marks it excludes
    /// left out; the set itself if a mark there equals this one or excludes it.
    pub fn add_to_set(&self, set: &[Mark]) -> (r: Vec<Mark>)
        ensures
            marks_view(r@) == added(self@, marks_view(set@)),
    {
        proof {
            lemma_marks_view(set@);
        }
        let ghost sv = marks_view(set@);
        let ghost m = self@;
        let ghost r = self.mark_type.rank as int;
        let mut result: Vec<Mark> = Vec::new();
        let mut placed = false;
        let ghost mut p: int = 0;
        let mut i: usize = 0;
        proof {
            assert(sv.take(0) =~= Seq::<MarkV>::empty());
        }
        while i < set.len()
            invariant
                i <= set@.len(),
                sv == marks_view(set@),
                m == self@,
                r == self.mark_type.rank,
                sv.len() == set@.len(),
                forall|j: int| 0 <= j < set@.len() ==> #[trigger] sv[j] == set@[j]@,
                forall|j: int| 0 <= j < i ==> !blocks(m, #[trigger] sv[j]),
                placed ==> p == rank_pos(kept(m, sv.take(i as int)), r) && p < kept(m, sv.take(i as int)).len()
                    && marks_view(result@) == kept(m, sv.take(i as int)).insert(p, m),
                !placed ==> rank_pos(kept(m, sv.take(i as int)), r) == kept(m, sv.take(i as int)).len()
                    && marks_view(result@) == kept(m, sv.take(i as int)),
            decreases set@.len() - i,
        {
            let other = &set[i];
            if self.eq(other) {
                proof {
                    assert(blocks(m, sv[i as int]));
                }
                return copy_marks(set);
            }
            let ghost k0 = kept(m, sv.take(i as int));
            proof {
                lemma_rank_pos(k0, r);
                lemma_kept_push(m, sv, i as int);
                lemma_rank_pos_push(k0, sv[i as int], r);
            }
            if self.mark_type.excludes(&other.mark_type) {
            } else if other.mark_type.excludes(&self.mark_type) {
                proof {
                    assert(blocks(m, sv[i as int]));
                }
                return copy_marks(set);
            } else {
                let ghost r0 = result@;
                if !placed && other.mark_type.rank > self.mark_type.rank {
                    let c = self.clone();
                    result.push(c);
                    placed = true;
                    proof {
                        p = k0.len() as int;
                        lemma_marks_view_push(r0, c);
                    }
                }
                let ghost r1 = result@;
                let c2 = other.clone();
                result.push(c2);
                proof {
                    lemma_marks_view_push(r1, c2);
                    let k1 = kept(m, sv.take(i + 1));
                    assert(k1 == k0.push(sv[i as int]));
                    if placed {
                        k1.insert_ensures(p, m);
                        if p < k0.len() {
                            k0.insert_ensures(p, m);
                        }
                        assert(marks_view(result@) =~= k1.insert(p, m));
                    } else {
                        assert(marks_view(result@) =~= k1);
                    }
                }
            }
            i = i + 1;
        }
        proof {
            assert(sv.take(sv.len() as int) =~= sv);
        }
        if !placed {
            let ghost r0 = result@;
            let c = self.clone();
            result.push(c);
            proof {
                p = kept(m, sv).len() as int;
                lemma_marks_view_push(r0, c);
            }
        }
        proof {
            assert(!blocked(m, sv));
            lemma_rank_pos(kept(m, sv), r);
            kept(m, sv).insert_ensures(p, m);
            if p < kept(m, sv).len() {
            }
            assert(marks_view(result@) =~= kept(m, sv).insert(p, m));
        }
        result
    }

    /// The marks ordered by rank (a stable sort).
    pub fn set_from(marks: &[Mark]) -> (r: Vec<Mark>)
        ensures
            marks_view(r@) == sorted_by_rank(marks_view(marks@)),
    {
        proof {
            lemma_marks_view(marks@);
        }
        let ghost sv = marks_view(marks@);
        let mut result: Vec<Mark> = Vec::new();
        let mut i: usize = 0;
        proof {
            assert(sv.take(0) =~= Seq::<MarkV>::empty());
        }
        while i < marks.len()
            invariant
                i <= marks@.len(),
                sv == marks_view(marks@),
                sv.len() == marks@.len(),
                forall|j: int| 0 <= j < marks@.len() ==> #[trigger] sv[j] == marks@[j]@,
                marks_view(result@) == sorted_by_rank(sv.take(i as int)),
            decreases marks@.len() - i,
        {
            let x = &marks[i];
            let ghost k = marks_view(result@);
            let mut q: usize = 0;
            proof {
                lemma_marks_view(result@);
                lemma_rank_pos(k, x.mark_type.rank as int);
            }
            while q < result.len() && result[q].mark_type.rank <= x.mark_type.rank
                invariant
                    k == marks_view(result@),
                    k.len() == result@.len(),
                    forall|j: int| 0 <= j < result@.len() ==> #[trigger] k[j] == result@[j]@,
                    q <= result@.len(),
                    0 <= rank_pos(k, x.mark_type.rank as int) <= k.len(),
                    forall|j: int| 0 <= j < rank_pos(k, x.mark_type.rank as int) ==> (#[trigger] k[j]).mark_type.rank <= x.mark_type.rank,
                    rank_pos(k, x.mark_type.rank as int) < k.len() ==> k[rank_pos(k, x.mark_type.rank as int)].mark_type.rank > x.mark_type.rank,
                    q <= rank_pos(k, x.mark_type.rank as int),
                decreases result@.len() - q,
            {
                assert(k[q as int] == result@[q as int]@);
                q = q + 1;
            }
            assert(q == rank_pos(k, x.mark_type.rank as int)) by {
                if q < result@.len() {
                    assert(k[q as int] == result@[q as int]@);
                }
            }
            result.insert(q, x.clone());
            proof {
                assert(sv.take(i + 1).drop_last() =~= sv.take(i as int));
                assert(marks_view(result@) =~= k.insert(q as int, sv[i as int]));
            }
            i = i + 1;
        }
        proof {
            assert(sv.take(sv.len() as int) =~= sv);
        }
        result
    }

    /// The empty mark set.
    pub fn none() -> (r: Vec<Mark>)
        ensures
            r@.len() == 0,
    {
        Vec::new()
    }
}

} // verus!
