//! Maps from names to values, kept in the order of the names.
use vstd::prelude::*;

use crate::text;

verus! {

/// A map from names to values. Each name occurs once, and the entries are kept
/// in ascending order of the names.
#[derive(Debug, Clone)]
pub struct NameMap<V> {
    names: Vec<String>,
    values: Vec<V>,
}

/// Names in ascending order, none twice.
pub open spec fn ascending_names(s: Seq<Seq<char>>) -> bool {
    forall|i: int, j: int| 0 <= i < j < s.len() ==> #[trigger] text::precedes(s[i], s[j])
}

/// No name comes before itself, and two names do not come before each other.
pub proof fn lemma_precedes_strict(a: Seq<char>, b: Seq<char>)
    ensures
        !text::precedes(a, a),
        text::precedes(a, b) ==> !text::precedes(b, a) && a != b,
    decreases a.len(),
{
    if a.len() > 0 {
        lemma_precedes_strict(a.drop_first(), a.drop_first());
        if b.len() > 0 {
            lemma_precedes_strict(a.drop_first(), b.drop_first());
        }
    }
}

/// Of two different names one comes before the other.
pub proof fn lemma_precedes_total(a: Seq<char>, b: Seq<char>)
    ensures
        a == b || text::precedes(a, b) || text::precedes(b, a),
    decreases a.len(),
{
    if a.len() > 0 && b.len() > 0 {
        if a.first() == b.first() {
            lemma_precedes_total(a.drop_first(), b.drop_first());
            if a.drop_first() == b.drop_first() {
                assert(a =~= seq![a.first()] + a.drop_first());
                assert(b =~= seq![b.first()] + b.drop_first());
            }
        } else {
            assert(a.first() as int != b.first() as int);
        }
    } else if a.len() == 0 && b.len() == 0 {
        assert(a =~= b);
    }
}

/// The order of names is transitive.
pub proof fn lemma_precedes_transitive(a: Seq<char>, b: Seq<char>, c: Seq<char>)
    requires
        text::precedes(a, b),
        text::precedes(b, c),
    ensures
        text::precedes(a, c),
    decreases a.len(),
{
    if a.len() > 0 && b.len() > 0 && c.len() > 0 && a.first() == b.first() && b.first()
        == c.first() {
        lemma_precedes_transitive(a.drop_first(), b.drop_first(), c.drop_first());
    }
}

impl<V> NameMap<V> {
    /// The names, in order.
    pub closed spec fn keys(&self) -> Seq<Seq<char>> {
        text::texts(self.names@)
    }

    /// The values, in the order of their names.
    pub closed spec fn vals(&self) -> Seq<V> {
        self.values@
    }

    pub open spec fn wf(&self) -> bool {
        &&& self.keys().len() == self.vals().len()
        &&& ascending_names(self.keys())
    }

    pub open spec fn view(&self) -> Map<Seq<char>, V> {
        Map::new(
            |k: Seq<char>| self.keys().contains(k),
            |k: Seq<char>| self.vals()[self.keys().index_of(k)],
        )
    }

    /// The entry at position `i` is the entry of its name.
    pub proof fn lemma_at(&self, i: int)
        requires
            self.wf(),
            0 <= i < self.keys().len(),
        ensures
            self.keys().index_of(self.keys()[i]) == i,
            self@.contains_key(self.keys()[i]),
            self@[self.keys()[i]] == self.vals()[i],
    {
        let k = self.keys().index_of(self.keys()[i]);
        lemma_precedes_strict(self.keys()[i], self.keys()[i]);
        assert(self.keys()[k] == self.keys()[i]);
    }

    /// The first `i + 1` names are the first `i` and one that is not among them.
    pub proof fn lemma_take(&self, i: int)
        requires
            self.wf(),
            0 <= i < self.keys().len(),
        ensures
            !self.keys().take(i).contains(self.keys()[i]),
            forall|n: Seq<char>| #[trigger]
                self.keys().take(i + 1).contains(n) <==> self.keys().take(i).contains(n) || n
                    == self.keys()[i],
            forall|n: Seq<char>| #[trigger]
                self.keys().take(i + 1).contains(n) ==> self@.contains_key(n),
    {
        let k = self.keys()[i];
        if self.keys().take(i).contains(k) {
            let j = self.keys().take(i).index_of(k);
            self.lemma_at(i);
            self.lemma_at(j);
            assert(self.keys()[j] == k);
        }
        assert forall|n: Seq<char>| #[trigger]
            self.keys().take(i + 1).contains(n) <==> self.keys().take(i).contains(n) || n == k by {
            if self.keys().take(i + 1).contains(n) {
                let j = self.keys().take(i + 1).index_of(n);
                if j < i {
                    assert(self.keys().take(i)[j] == n);
                }
            }
            if self.keys().take(i).contains(n) {
                let j = self.keys().take(i).index_of(n);
                assert(self.keys().take(i + 1)[j] == n);
            }
            if n == k {
                assert(self.keys().take(i + 1)[i] == n);
            }
        }
        assert forall|n: Seq<char>| #[trigger]
            self.keys().take(i + 1).contains(n) implies self@.contains_key(n) by {
            let j = self.keys().take(i + 1).index_of(n);
            assert(self.keys()[j] == n);
        }
    }

    pub fn new() -> (r: NameMap<V>)
        ensures
            r.wf(),
            r.keys().len() == 0,
            r@ == Map::<Seq<char>, V>::empty(),
    {
        let r = NameMap { names: Vec::new(), values: Vec::new() };
        assert(r@ =~= Map::<Seq<char>, V>::empty());
        r
    }

    pub fn len(&self) -> (n: usize)
        ensures
            n == self.keys().len(),
    {
        self.names.len()
    }

    /// A map of names that are in ascending order, and their values.
    pub fn from_sorted(names: Vec<String>, values: Vec<V>) -> (r: NameMap<V>)
        requires
            names@.len() == values@.len(),
            ascending_names(text::texts(names@)),
        ensures
            r.wf(),
            r.keys() == text::texts(names@),
            r.vals() == values@,
    {
        NameMap { names, values }
    }

    /// The names and the values, in the order of the names.
    pub fn into_parts(self) -> (r: (Vec<String>, Vec<V>))
        ensures
            text::texts(r.0@) == self.keys(),
            r.1@ == self.vals(),
    {
        (self.names, self.values)
    }

    /// The name at position `i`.
    pub fn name_at(&self, i: usize) -> (r: &String)
        requires
            i < self.keys().len(),
        ensures
            r@ == self.keys()[i as int],
    {
        &self.names[i]
    }

    /// The value at position `i`.
    pub fn value_at(&self, i: usize) -> (r: &V)
        requires
            self.wf(),
            i < self.keys().len(),
        ensures
            *r == self.vals()[i as int],
    {
        &self.values[i]
    }

    /// Where a name is, or would be.
    fn position(&self, key: &str) -> (i: usize)
        requires
            self.wf(),
        ensures
            i <= self.keys().len(),
            forall|j: int| 0 <= j < i ==> #[trigger] text::precedes(self.keys()[j], key@),
            forall|j: int|
                i <= j < self.keys().len() ==> !#[trigger] text::precedes(self.keys()[j], key@),
    {
        let mut lo: usize = 0;
        let mut hi: usize = self.names.len();
        while lo < hi
            invariant
                self.wf(),
                self.names@.len() == self.keys().len(),
                lo <= hi <= self.keys().len(),
                forall|j: int| 0 <= j < lo ==> #[trigger] text::precedes(self.keys()[j], key@),
                forall|j: int|
                    hi <= j < self.keys().len() ==> !#[trigger] text::precedes(
                        self.keys()[j],
                        key@,
                    ),
            decreases hi - lo,
        {
            let mid: usize = lo + (hi - lo) / 2;
            if text::text_precedes(self.names[mid].as_str(), key) {
                assert forall|j: int| 0 <= j < mid + 1 implies #[trigger] text::precedes(
                    self.keys()[j],
                    key@,
                ) by {
                    if lo <= j < mid {
                        assert(text::precedes(self.keys()[j], self.keys()[mid as int]));
                        lemma_precedes_transitive(self.keys()[j], self.keys()[mid as int], key@);
                    }
                }
                lo = mid + 1;
            } else {
                assert forall|j: int| mid <= j < self.keys().len() implies !#[trigger] text::precedes(
                    self.keys()[j],
                    key@,
                ) by {
                    if mid < j < hi && text::precedes(self.keys()[j], key@) {
                        assert(text::precedes(self.keys()[mid as int], self.keys()[j]));
                        lemma_precedes_transitive(self.keys()[mid as int], self.keys()[j], key@);
                    }
                }
                hi = mid;
            }
        }
        lo
    }

    /// A name that is in the map is where `position` looks for it.
    proof fn lemma_position(&self, key: Seq<char>, i: int)
        requires
            self.wf(),
            0 <= i <= self.keys().len(),
            forall|j: int| 0 <= j < i ==> #[trigger] text::precedes(self.keys()[j], key),
            forall|j: int|
                i <= j < self.keys().len() ==> !#[trigger] text::precedes(self.keys()[j], key),
        ensures
            self.keys().contains(key) <==> i < self.keys().len() && self.keys()[i] == key,
            forall|j: int|
                i < j < self.keys().len() ==> #[trigger] text::precedes(key, self.keys()[j]),
            i < self.keys().len() && self.keys()[i] != key ==> text::precedes(key, self.keys()[i]),
    {
        lemma_precedes_strict(key, key);
        if self.keys().contains(key) {
            let k = self.keys().index_of(key);
            assert(k >= i);
            if k > i {
                assert(text::precedes(self.keys()[i], self.keys()[k]));
            }
        }
        if i < self.keys().len() {
            lemma_precedes_total(key, self.keys()[i]);
        }
        assert forall|j: int| i < j < self.keys().len() implies #[trigger] text::precedes(
            key,
            self.keys()[j],
        ) by {
            assert(text::precedes(self.keys()[i], self.keys()[j]));
            lemma_precedes_total(key, self.keys()[j]);
            if self.keys()[j] == key {
                assert(!text::precedes(self.keys()[i], key));
            }
        }
    }

    pub fn get(&self, key: &str) -> (r: Option<&V>)
        requires
            self.wf(),
        ensures
            match r {
                Some(v) => self@.contains_key(key@) && *v == self@[key@],
                None => !self@.contains_key(key@),
            },
    {
        let i: usize = self.position(key);
        proof {
            self.lemma_position(key@, i as int);
            if i < self.keys().len() {
                self.lemma_at(i as int);
            }
        }
        if i < self.names.len() && text::same_text(self.names[i].as_str(), key) {
            Some(&self.values[i])
        } else {
            None
        }
    }

    pub fn contains_key(&self, key: &str) -> (r: bool)
        requires
            self.wf(),
        ensures
            r == self@.contains_key(key@),
    {
        self.get(key).is_some()
    }

    /// Sets the value of a name, replacing the one it had.
    pub fn insert(&mut self, key: String, value: V)
        requires
            old(self).wf(),
        ensures
            final(self).wf(),
            final(self)@ == old(self)@.insert(key@, value),
            final(self).keys().len() == old(self).keys().len() + if old(self)@.contains_key(key@) {
                0int
            } else {
                1
            },
    {
        let i: usize = self.position(key.as_str());
        let ghost before = *self;
        let ghost k = key@;
        proof {
            self.lemma_position(k, i as int);
        }
        if i < self.names.len() && text::same_text(self.names[i].as_str(), key.as_str()) {
            self.values[i] = value;
            assert(self.keys() == before.keys());
            assert(self.vals() =~= before.vals().update(i as int, value));
            assert(self@ =~= before@.insert(k, value)) by {
                before.lemma_at(i as int);
                self.lemma_at(i as int);
                assert forall|n: Seq<char>| n != k && self.keys().contains(n) implies self@[n]
                    == before@[n] by {
                    assert(self.keys().index_of(n) != i);
                }
            }
        } else {
            self.names.insert(i, key);
            self.values.insert(i, value);
            proof {
                let old_keys = before.keys();
                let new_keys = self.keys();
                assert(new_keys =~= old_keys.insert(i as int, k));
                assert forall|a: int, b: int| 0 <= a < b < new_keys.len() implies #[trigger] text::precedes(
                    new_keys[a],
                    new_keys[b],
                ) by {
                    let a0 = if a < i { a } else { a - 1 };
                    let b0 = if b < i { b } else { b - 1 };
                    if a != i && b != i {
                        assert(text::precedes(old_keys[a0], old_keys[b0]));
                    } else if a == i {
                        assert(new_keys[b] == old_keys[b0]);
                        if b0 > i {
                            assert(text::precedes(k, old_keys[b0]));
                        }
                    } else {
                        assert(text::precedes(old_keys[a], k));
                    }
                }
                assert(self@ =~= before@.insert(k, value)) by {
                    self.lemma_at(i as int);
                    assert forall|n: Seq<char>| n != k implies (self.keys().contains(n)
                        <==> before.keys().contains(n)) && (self.keys().contains(n) ==> self@[n]
                        == before@[n]) by {
                        if before.keys().contains(n) {
                            let j = before.keys().index_of(n);
                            let j1 = if j < i { j } else { j + 1 };
                            assert(self.keys()[j1] == n);
                            self.lemma_at(j1);
                        }
                        if self.keys().contains(n) {
                            let j1 = self.keys().index_of(n);
                            let j = if j1 < i { j1 } else { j1 - 1 };
                            assert(before.keys()[j] == n);
                        }
                    }
                }
            }
        }
    }

    /// Takes a name out of the map, and returns the value it had.
    pub fn remove(&mut self, key: &str) -> (r: Option<V>)
        requires
            old(self).wf(),
        ensures
            final(self).wf(),
            final(self)@ == old(self)@.remove(key@),
            final(self).keys().len() == old(self).keys().len() - if old(self)@.contains_key(key@) {
                1int
            } else {
                0
            },
            match r {
                Some(v) => old(self)@.contains_key(key@) && v == old(self)@[key@],
                None => !old(self)@.contains_key(key@),
            },
    {
        let i: usize = self.position(key);
        let ghost before = *self;
        proof {
            self.lemma_position(key@, i as int);
        }
        if i < self.names.len() && text::same_text(self.names[i].as_str(), key) {
            self.names.remove(i);
            let value = self.values.remove(i);
            proof {
                before.lemma_at(i as int);
                let old_keys = before.keys();
                let new_keys = self.keys();
                assert(new_keys =~= old_keys.remove(i as int));
                assert forall|a: int, b: int| 0 <= a < b < new_keys.len() implies #[trigger] text::precedes(
                    new_keys[a],
                    new_keys[b],
                ) by {
                    let a0 = if a < i { a } else { a + 1 };
                    let b0 = if b < i { b } else { b + 1 };
                    assert(text::precedes(old_keys[a0], old_keys[b0]));
                }
                assert(self@ =~= before@.remove(key@)) by {
                    assert(!self.keys().contains(key@)) by {
                        if self.keys().contains(key@) {
                            let j1 = self.keys().index_of(key@);
                            let j = if j1 < i { j1 } else { j1 + 1 };
                            before.lemma_at(j);
                            before.lemma_at(i as int);
                        }
                    }
                    assert forall|n: Seq<char>| n != key@ implies (self.keys().contains(n)
                        <==> before.keys().contains(n)) && (self.keys().contains(n) ==> self@[n]
                        == before@[n]) by {
                        if before.keys().contains(n) {
                            let j = before.keys().index_of(n);
                            let j1 = if j < i { j } else { j - 1 };
                            assert(self.keys()[j1] == n);
                            self.lemma_at(j1);
                        }
                        if self.keys().contains(n) {
                            let j1 = self.keys().index_of(n);
                            let j = if j1 < i { j1 } else { j1 + 1 };
                            assert(before.keys()[j] == n);
                        }
                    }
                }
            }
            Some(value)
        } else {
            assert(self@ =~= before@.remove(key@));
            None
        }
    }
}

} // verus!
