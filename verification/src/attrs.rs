use vstd::prelude::*;

verus! {

/// An attribute value. A floating-point value is held by its IEEE 754 bit
/// pattern (`f64::to_bits`).
#[derive(Debug)]
pub enum AttrValue {
    Null,
    Bool(bool),
    Int(i64),
    Float(u64),
    Str(String),
}

/// The bit pattern is a NaN: all exponent bits set and a non-zero mantissa.
pub open spec fn float_bits_is_nan(x: u64) -> bool {
    (x & 0x7ff0_0000_0000_0000u64) == 0x7ff0_0000_0000_0000u64 && (x & 0x000f_ffff_ffff_ffffu64)
        != 0
}

/// The bit pattern is positive or negative zero.
pub open spec fn float_bits_is_zero(x: u64) -> bool {
    (x & 0x7fff_ffff_ffff_ffffu64) == 0
}

/// IEEE 754 equality of two doubles given by their bits: NaN equals nothing,
/// the two zeros are equal, and otherwise equal values have equal bits.
pub open spec fn float_bits_eq(x: u64, y: u64) -> bool {
    !float_bits_is_nan(x) && !float_bits_is_nan(y) && (x == y || (float_bits_is_zero(x)
        && float_bits_is_zero(y)))
}

/// What `==` on two attribute values means.
pub open spec fn attr_value_eq(a: AttrValue, b: AttrValue) -> bool {
    match (a, b) {
        (AttrValue::Null, AttrValue::Null) => true,
        (AttrValue::Bool(x), AttrValue::Bool(y)) => x == y,
        (AttrValue::Int(x), AttrValue::Int(y)) => x == y,
        (AttrValue::Float(x), AttrValue::Float(y)) => float_bits_eq(x, y),
        (AttrValue::Str(x), AttrValue::Str(y)) => x@ == y@,
        _ => false,
    }
}

impl AttrValue {
    /// Compares two attribute values as the model does.
    pub fn equals(&self, other: &AttrValue) -> (r: bool)
        ensures
            r == attr_value_eq(*self, *other),
    {
        match (self, other) {
            (AttrValue::Null, AttrValue::Null) => true,
            (AttrValue::Bool(x), AttrValue::Bool(y)) => *x == *y,
            (AttrValue::Int(x), AttrValue::Int(y)) => *x == *y,
            (AttrValue::Float(x), AttrValue::Float(y)) => {
                let x_nan = (*x & 0x7ff0_0000_0000_0000u64) == 0x7ff0_0000_0000_0000u64 && (*x
                    & 0x000f_ffff_ffff_ffffu64) != 0;
                let y_nan = (*y & 0x7ff0_0000_0000_0000u64) == 0x7ff0_0000_0000_0000u64 && (*y
                    & 0x000f_ffff_ffff_ffffu64) != 0;
                let x_zero = (*x & 0x7fff_ffff_ffff_ffffu64) == 0;
                let y_zero = (*y & 0x7fff_ffff_ffff_ffffu64) == 0;
                !x_nan && !y_nan && (*x == *y || (x_zero && y_zero))
            },
            (AttrValue::Str(x), AttrValue::Str(y)) => *x == *y,
            _ => false,
        }
    }
}

impl Clone for AttrValue {
    fn clone(&self) -> (r: Self)
        ensures
            r == *self,
    {
        match self {
            AttrValue::Null => AttrValue::Null,
            AttrValue::Bool(b) => AttrValue::Bool(*b),
            AttrValue::Int(i) => AttrValue::Int(*i),
            AttrValue::Float(f) => AttrValue::Float(*f),
            AttrValue::Str(s) => AttrValue::Str(s.clone()),
        }
    }
}

/// A set of attributes: a map from names to values, held as a list of
/// entries whose names are pairwise distinct.
#[derive(Debug)]
pub struct Attrs {
    entries: Vec<(String, AttrValue)>,
}

/// `b` holds an entry with the name of `e` and a value equal to that of `e`.
pub open spec fn entry_matched(e: (String, AttrValue), b: Seq<(String, AttrValue)>) -> bool {
    exists|j: int| 0 <= j < b.len() && e.0@ == b[j].0@ && attr_value_eq(e.1, b[j].1)
}

/// Two lists of entries describe equal maps: as many entries, and each entry
/// of `a` matched in `b`.
pub open spec fn entries_same(a: Seq<(String, AttrValue)>, b: Seq<(String, AttrValue)>) -> bool {
    &&& a.len() == b.len()
    &&& forall|i: int| 0 <= i < a.len() ==> #[trigger] entry_matched(a[i], b)
}

impl Attrs {
    /// The entries, in insertion order.
    pub closed spec fn entries(&self) -> Seq<(String, AttrValue)> {
        self.entries@
    }

    /// No name occurs twice.
    pub open spec fn wf(&self) -> bool {
        forall|i: int, j: int|
            0 <= i < j < self.entries().len() ==> #[trigger] self.entries()[i].0@
                != #[trigger] self.entries()[j].0@
    }

    /// The map holds name `k`.
    pub open spec fn has(&self, k: Seq<char>) -> bool {
        exists|i: int| 0 <= i < self.entries().len() && self.entries()[i].0@ == k
    }

    /// `b` holds an entry with the name of `e` and a value equal to that of `e`.
    pub open spec fn matched(e: (String, AttrValue), b: Attrs) -> bool {
        entry_matched(e, b.entries())
    }

    /// Two attribute maps are equal: the same names, and equal values under each.
    pub open spec fn same(a: Attrs, b: Attrs) -> bool {
        entries_same(a.entries(), b.entries())
    }

    /// The empty map.
    pub fn new() -> (r: Attrs)
        ensures
            r.entries().len() == 0,
            r.wf(),
    {
        Attrs { entries: Vec::new() }
    }

    /// Number of entries.
    pub fn len(&self) -> (n: usize)
        ensures
            n == self.entries().len(),
    {
        self.entries.len()
    }

    /// The index of the entry named `k`, if any.
    fn find(&self, k: &String) -> (r: Option<usize>)
        ensures
            match r {
                Some(i) => i < self.entries().len() && self.entries()[i as int].0@ == k@,
                None => !self.has(k@),
            },
    {
        let mut i: usize = 0;
        while i < self.entries.len()
            invariant
                i <= self.entries@.len(),
                forall|j: int| 0 <= j < i ==> self.entries@[j].0@ != k@,
            decreases self.entries@.len() - i,
        {
            if self.entries[i].0 == *k {
                return Some(i);
            }
            i = i + 1;
        }
        None
    }

    /// Sets the value under `k`, replacing an earlier value under that name.
    pub fn insert(&mut self, k: String, v: AttrValue)
        requires
            old(self).wf(),
        ensures
            final(self).wf(),
            final(self).has(k@),
            forall|i: int|
                0 <= i < final(self).entries().len() && final(self).entries()[i].0@ == k@
                    ==> final(self).entries()[i].1 == v,
            forall|q: Seq<char>| q != k@ ==> (final(self).has(q) <==> old(self).has(q)),
            forall|i: int|
                0 <= i < final(self).entries().len() && final(self).entries()[i].0@ != k@
                    ==> exists|j: int|
                    0 <= j < old(self).entries().len() && old(self).entries()[j]
                        == #[trigger] final(self).entries()[i],
    {
        let ghost kv = k@;
        let ghost old_e = self.entries@;
        match self.find(&k) {
            Some(i) => {
                self.entries.set(i, (k, v));
                assert(self.entries@ == old_e.update(i as int, self.entries@[i as int]));
                assert forall|a: int, b: int|
                    0 <= a < b < self.entries().len() implies #[trigger] self.entries()[a].0@
                    != #[trigger] self.entries()[b].0@ by {
                    if a == i as int {
                        assert(old_e[a].0@ == kv);
                        assert(old_e[b].0@ != old_e[a].0@);
                    } else if b == i as int {
                        assert(old_e[b].0@ == kv);
                        assert(old_e[b].0@ != old_e[a].0@);
                    } else {
                        assert(old_e[b].0@ != old_e[a].0@);
                    }
                }
                assert(self.entries()[i as int].0@ == kv);
                assert forall|q: Seq<char>| q != kv implies (self.has(q) <==> old(self).has(q)) by {
                    if old(self).has(q) {
                        let j = choose|j: int|
                            0 <= j < old(self).entries().len() && old(self).entries()[j].0@ == q;
                        assert(self.entries()[j].0@ == q);
                    }
                    if self.has(q) {
                        let j = choose|j: int|
                            0 <= j < self.entries().len() && self.entries()[j].0@ == q;
                        assert(old(self).entries()[j].0@ == q);
                    }
                }
                assert forall|a: int|
                    0 <= a < self.entries().len() && self.entries()[a].0@ == kv implies self.entries()[a].1 == v by {
                    if a != i as int {
                        assert(old_e[a].0@ == kv);
                        assert(old_e[i as int].0@ == kv);
                    }
                }
                assert forall|a: int|
                    0 <= a < self.entries().len() && self.entries()[a].0@ != kv implies exists|j: int|
                    0 <= j < old(self).entries().len() && old(self).entries()[j]
                        == #[trigger] self.entries()[a] by {
                    assert(old(self).entries()[a] == self.entries()[a]);
                }
            },
            None => {
                self.entries.push((k, v));
                let ghost n = self.entries@.len() - 1;
                assert(self.entries()[n].0@ == kv);
                assert forall|a: int, b: int|
                    0 <= a < b < self.entries().len() implies #[trigger] self.entries()[a].0@
                    != #[trigger] self.entries()[b].0@ by {
                    assert(self.entries()[a] == old_e[a]);
                    if b == n {
                        if old_e[a].0@ == kv {
                            assert(old(self).entries()[a].0@ == kv);
                            assert(old(self).has(kv));
                        }
                    } else {
                        assert(self.entries()[b] == old_e[b]);
                        assert(old(self).entries()[a].0@ != old(self).entries()[b].0@);
                    }
                }
                assert forall|q: Seq<char>| q != kv implies (self.has(q) <==> old(self).has(q)) by {
                    if old(self).has(q) {
                        let j = choose|j: int|
                            0 <= j < old(self).entries().len() && old(self).entries()[j].0@ == q;
                        assert(self.entries()[j].0@ == q);
                    }
                    if self.has(q) {
                        let j = choose|j: int|
                            0 <= j < self.entries().len() && self.entries()[j].0@ == q;
                        assert(j < n);
                        assert(old(self).entries()[j].0@ == q);
                    }
                }
                assert forall|a: int|
                    0 <= a < self.entries().len() && self.entries()[a].0@ == kv implies self.entries()[a].1 == v by {
                    if a != n {
                        assert(old_e[a].0@ == kv);
                    }
                }
                assert forall|a: int|
                    0 <= a < self.entries().len() && self.entries()[a].0@ != kv implies exists|j: int|
                    0 <= j < old(self).entries().len() && old(self).entries()[j]
                        == #[trigger] self.entries()[a] by {
                    assert(old(self).entries()[a] == self.entries()[a]);
                }
            },
        }
    }

    /// Whether `other` holds an entry with the name and an equal value of `e`.
    fn has_equal_entry(e: &(String, AttrValue), other: &Attrs) -> (r: bool)
        ensures
            r == Attrs::matched(*e, *other),
    {
        let mut j: usize = 0;
        while j < other.entries.len()
            invariant
                j <= other.entries@.len(),
                forall|b: int|
                    0 <= b < j ==> !(e.0@ == other.entries@[b].0@ && attr_value_eq(
                        e.1,
                        other.entries@[b].1,
                    )),
            decreases other.entries@.len() - j,
        {
            if e.0 == other.entries[j].0 && e.1.equals(&other.entries[j].1) {
                assert(e.0@ == other.entries()[j as int].0@);
                return true;
            }
            j = j + 1;
        }
        false
    }

    /// Compares two attribute maps as the model does.
    pub fn equals(&self, other: &Attrs) -> (r: bool)
        ensures
            r == Attrs::same(*self, *other),
    {
        if self.entries.len() != other.entries.len() {
            return false;
        }
        let mut i: usize = 0;
        while i < self.entries.len()
            invariant
                i <= self.entries@.len(),
                self.entries@.len() == other.entries@.len(),
                forall|a: int| 0 <= a < i ==> #[trigger] entry_matched(self.entries()[a], other.entries()),
            decreases self.entries@.len() - i,
        {
            let found = Attrs::has_equal_entry(&self.entries[i], other);
            assert(self.entries()[i as int] == self.entries@[i as int]);
            if !found {
                return false;
            }
            i = i + 1;
        }
        true
    }
}

impl Clone for Attrs {
    fn clone(&self) -> (r: Self)
        ensures
            r.entries() == self.entries(),
    {
        let mut v: Vec<(String, AttrValue)> = Vec::new();
        let mut i: usize = 0;
        while i < self.entries.len()
            invariant
                i <= self.entries@.len(),
                v@ == self.entries@.subrange(0, i as int),
            decreases self.entries@.len() - i,
        {
            let e = (self.entries[i].0.clone(), self.entries[i].1.clone());
            v.push(e);
            i = i + 1;
            assert(v@ =~= self.entries@.subrange(0, i as int));
        }
        assert(self.entries@.subrange(0, self.entries@.len() as int) =~= self.entries@);
        Attrs { entries: v }
    }
}

} // verus!
