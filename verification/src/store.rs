//! Small value-keyed maps and sets, stored as vectors of entries with
//! distinct keys in insertion order. The canvas engine keys them by path and
//! tile identifiers; all consistency between related maps is enforced by the
//! callers' invariants.

use vstd::prelude::*;

verus! {

/// Keys of the engine's maps and sets: copied and compared by value.
pub trait MapKey: Copy + Sized {
    /// Exact equality test.
    fn key_eq(&self, other: &Self) -> (r: bool)
        ensures
            r == (*self == *other),
    ;
}

/// Whether no two entries share a key.
pub open spec fn distinct_keys<K, V>(s: Seq<(K, V)>) -> bool {
    forall|i: int, j: int| 0 <= i < j < s.len() ==> (#[trigger] s[i]).0 != (#[trigger] s[j]).0
}

/// The map an entry sequence stands for; a later entry would win over an
/// earlier one with the same key, but users keep keys distinct.
pub open spec fn assoc_map<K, V>(s: Seq<(K, V)>) -> Map<K, V>
    decreases s.len(),
{
    if s.len() == 0 {
        Map::empty()
    } else {
        assoc_map(s.drop_last()).insert(s.last().0, s.last().1)
    }
}

/// A key is in the map exactly when some entry holds it.
pub proof fn lemma_assoc_contains<K, V>(s: Seq<(K, V)>, k: K)
    ensures
        assoc_map(s).contains_key(k) <==> exists|i: int| 0 <= i < s.len() && (#[trigger] s[i]).0
            == k,
    decreases s.len(),
{
    if s.len() > 0 {
        lemma_assoc_contains(s.drop_last(), k);
        if s.last().0 == k {
            assert(s[s.len() - 1].0 == k);
        } else if assoc_map(s).contains_key(k) {
            let i = choose|i: int| 0 <= i < s.drop_last().len() && (#[trigger] s.drop_last()[i]).0
                == k;
            assert(s[i].0 == k);
        } else {
            assert forall|i: int| 0 <= i < s.len() implies (#[trigger] s[i]).0 != k by {
                if i < s.len() - 1 {
                    assert(s.drop_last()[i] == s[i]);
                }
            }
        }
    }
}

/// The map's domain is finite.
pub proof fn lemma_assoc_finite<K, V>(s: Seq<(K, V)>)
    ensures
        assoc_map(s).dom().finite(),
    decreases s.len(),
{
    if s.len() > 0 {
        lemma_assoc_finite(s.drop_last());
    }
}

/// With distinct keys, the entry at index `i` gives its key's value.
pub proof fn lemma_assoc_get<K, V>(s: Seq<(K, V)>, i: int)
    requires
        distinct_keys(s),
        0 <= i < s.len(),
    ensures
        assoc_map(s).contains_key(s[i].0),
        assoc_map(s)[s[i].0] == s[i].1,
    decreases s.len(),
{
    if i < s.len() - 1 {
        lemma_assoc_get(s.drop_last(), i);
        assert(s.drop_last()[i] == s[i]);
    }
}

/// Appending an entry with a fresh key inserts it into the map.
pub proof fn lemma_assoc_push<K, V>(s: Seq<(K, V)>, k: K, v: V)
    ensures
        assoc_map(s.push((k, v))) == assoc_map(s).insert(k, v),
{
    assert(s.push((k, v)).drop_last() =~= s);
}

/// With distinct keys, removing the entry at index `i` removes its key.
pub proof fn lemma_assoc_remove<K, V>(s: Seq<(K, V)>, i: int)
    requires
        distinct_keys(s),
        0 <= i < s.len(),
    ensures
        assoc_map(s.remove(i)) == assoc_map(s).remove(s[i].0),
    decreases s.len(),
{
    if i == s.len() - 1 {
        assert(s.remove(i) =~= s.drop_last());
        lemma_assoc_contains(s.drop_last(), s[i].0);
        assert forall|j: int| 0 <= j < s.drop_last().len() implies (#[trigger] s.drop_last()[j]).0
            != s[i].0 by {
            assert(s.drop_last()[j] == s[j]);
        }
        assert(!assoc_map(s.drop_last()).contains_key(s[i].0));
        assert(assoc_map(s.drop_last()).remove(s[i].0) =~= assoc_map(s.drop_last()));
        assert(assoc_map(s).remove(s[i].0) =~= assoc_map(s.drop_last()));
    } else {
        lemma_assoc_remove(s.drop_last(), i);
        assert(s.remove(i).drop_last() =~= s.drop_last().remove(i));
        assert(s.remove(i).last() == s.last());
        assert(assoc_map(s.remove(i)) == assoc_map(s.drop_last().remove(i)).insert(
            s.last().0,
            s.last().1,
        ));
        assert(s[i].0 != s.last().0);
        assert(assoc_map(s).remove(s[i].0) =~= assoc_map(s.drop_last()).remove(s[i].0).insert(
            s.last().0,
            s.last().1,
        ));
    }
}

/// A map from keys to values, stored as entries with distinct keys in
/// insertion order.
#[derive(Debug)]
pub struct VMap<K, V> {
    entries: Vec<(K, V)>,
}

impl<K, V> View for VMap<K, V> {
    type V = Map<K, V>;

    closed spec fn view(&self) -> Map<K, V> {
        assoc_map(self.entries@)
    }
}

impl<K: MapKey, V> VMap<K, V> {
    /// The entries, oldest insertion first.
    pub closed spec fn pairs(&self) -> Seq<(K, V)> {
        self.entries@
    }

    /// The entry keys are distinct.
    pub open spec fn wf(&self) -> bool {
        distinct_keys(self.pairs())
    }

    /// The view is the map the entries stand for.
    pub proof fn lemma_view(&self)
        ensures
            self@ == assoc_map(self.pairs()),
            self@.dom().finite(),
    {
        lemma_assoc_finite(self.pairs());
    }

    /// A key is in the map exactly when some entry holds it; entries give
    /// their key's value.
    pub proof fn lemma_pairs(&self)
        requires
            self.wf(),
        ensures
            forall|k: K| self@.contains_key(k) <==> exists|i: int|
                0 <= i < self.pairs().len() && (#[trigger] self.pairs()[i]).0 == k,
            forall|i: int| 0 <= i < self.pairs().len() ==> self@.contains_key(
                (#[trigger] self.pairs()[i]).0,
            ) && self@[self.pairs()[i].0] == self.pairs()[i].1,
    {
        assert forall|k: K| self@.contains_key(k) <==> exists|i: int|
            0 <= i < self.pairs().len() && (#[trigger] self.pairs()[i]).0 == k by {
            lemma_assoc_contains(self.pairs(), k);
        }
        assert forall|i: int| 0 <= i < self.pairs().len() implies self@.contains_key(
            (#[trigger] self.pairs()[i]).0,
        ) && self@[self.pairs()[i].0] == self.pairs()[i].1 by {
            lemma_assoc_get(self.pairs(), i);
        }
    }

    /// An empty map.
    pub fn new() -> (r: Self)
        ensures
            r.wf(),
            r@ == Map::<K, V>::empty(),
            r.pairs() == Seq::<(K, V)>::empty(),
    {
        VMap { entries: Vec::new() }
    }

    /// The number of entries.
    pub fn len(&self) -> (r: usize)
        ensures
            r == self.pairs().len(),
    {
        self.entries.len()
    }

    /// Whether the map has no entries.
    pub fn is_empty(&self) -> (r: bool)
        ensures
            r == (self.pairs().len() == 0),
    {
        self.entries.len() == 0
    }

    /// The entries, oldest insertion first.
    pub fn entries(&self) -> (r: &Vec<(K, V)>)
        ensures
            r@ == self.pairs(),
    {
        &self.entries
    }

    /// The index of the entry holding `k`, if any.
    fn position(&self, k: &K) -> (r: Option<usize>)
        ensures
            match r {
                Some(i) => i < self.pairs().len() && self.pairs()[i as int].0 == *k,
                None => forall|i: int| 0 <= i < self.pairs().len() ==> (#[trigger] self.pairs()[i]).0
                    != *k,
            },
    {
        let mut i: usize = 0;
        let n = self.entries.len();
        while i < n
            invariant
                0 <= i <= n,
                n == self.pairs().len(),
                forall|j: int| 0 <= j < i ==> (#[trigger] self.pairs()[j]).0 != *k,
            decreases n - i,
        {
            if self.entries[i].0.key_eq(k) {
                return Some(i);
            }
            i = i + 1;
        }
        None
    }

    /// Whether the map holds the key.
    pub fn contains(&self, k: &K) -> (r: bool)
        requires
            self.wf(),
        ensures
            r == self@.contains_key(*k),
    {
        proof {
            lemma_assoc_contains(self.pairs(), *k);
        }
        self.position(k).is_some()
    }

    /// The value under `k`, if any.
    pub fn get(&self, k: &K) -> (r: Option<&V>)
        requires
            self.wf(),
        ensures
            match r {
                Some(v) => self@.contains_key(*k) && *v == self@[*k],
                None => !self@.contains_key(*k),
            },
    {
        proof {
            lemma_assoc_contains(self.pairs(), *k);
        }
        match self.position(k) {
            Some(i) => {
                proof {
                    lemma_assoc_get(self.pairs(), i as int);
                }
                Some(&self.entries[i].1)
            }
            None => None,
        }
    }

    /// Adds an entry under a key not yet present.
    pub fn insert(&mut self, k: K, v: V)
        requires
            old(self).wf(),
            !old(self)@.contains_key(k),
        ensures
            final(self).wf(),
            final(self)@ == old(self)@.insert(k, v),
            final(self).pairs() == old(self).pairs().push((k, v)),
    {
        proof {
            lemma_assoc_contains(self.pairs(), k);
            lemma_assoc_push(self.pairs(), k, v);
        }
        self.entries.push((k, v));
    }

    /// Removes and returns the value under a present key; the other entries
    /// keep their order.
    pub fn remove(&mut self, k: &K) -> (r: V)
        requires
            old(self).wf(),
            old(self)@.contains_key(*k),
        ensures
            final(self).wf(),
            final(self)@ == old(self)@.remove(*k),
            r == old(self)@[*k],
            exists|i: int|
                {
                    &&& 0 <= i < old(self).pairs().len()
                    &&& (#[trigger] old(self).pairs()[i]) == (*k, r)
                    &&& final(self).pairs() == old(self).pairs().remove(i)
                },
    {
        proof {
            lemma_assoc_contains(self.pairs(), *k);
        }
        let i = self.position(k).unwrap();
        proof {
            lemma_assoc_get(self.pairs(), i as int);
            lemma_assoc_remove(self.pairs(), i as int);
        }
        let (_, v) = self.entries.remove(i);
        v
    }

    /// Moves all entries out, leaving the map empty.
    pub fn take_entries(&mut self) -> (r: Vec<(K, V)>)
        ensures
            r@ == old(self).pairs(),
            final(self).wf(),
            final(self)@ == Map::<K, V>::empty(),
            final(self).pairs() == Seq::<(K, V)>::empty(),
    {
        let mut out: Vec<(K, V)> = Vec::new();
        std::mem::swap(&mut out, &mut self.entries);
        out
    }

    /// Drops all entries.
    pub fn clear(&mut self)
        ensures
            final(self).wf(),
            final(self)@ == Map::<K, V>::empty(),
            final(self).pairs() == Seq::<(K, V)>::empty(),
    {
        self.entries.clear();
    }
}

/// A set of keys, stored as distinct elements in insertion order.
#[derive(Debug)]
pub struct VSet<K> {
    elems: Vec<K>,
}

impl<K> View for VSet<K> {
    type V = Set<K>;

    closed spec fn view(&self) -> Set<K> {
        self.elems@.to_set()
    }
}

impl<K: MapKey> VSet<K> {
    /// The elements, oldest insertion first.
    pub closed spec fn seq(&self) -> Seq<K> {
        self.elems@
    }

    /// The elements are distinct.
    pub open spec fn wf(&self) -> bool {
        self.seq().no_duplicates()
    }

    /// The view holds exactly the stored elements, and is finite.
    pub proof fn lemma_view(&self)
        ensures
            forall|k: K| self@.contains(k) <==> self.seq().contains(k),
            self@.finite(),
            self.wf() ==> self@.len() == self.seq().len(),
    {
        broadcast use vstd::seq_lib::seq_to_set_is_finite;

        if self.wf() {
            self.elems@.unique_seq_to_set();
        }
    }

    /// An empty set.
    pub fn new() -> (r: Self)
        ensures
            r.wf(),
            r@ == Set::<K>::empty(),
            r.seq() == Seq::<K>::empty(),
    {
        proof {
            Seq::<K>::empty().unique_seq_to_set();
        }
        VSet { elems: Vec::new() }
    }

    /// The number of elements.
    pub fn len(&self) -> (r: usize)
        ensures
            r == self.seq().len(),
    {
        self.elems.len()
    }

    /// Whether the set is empty.
    pub fn is_empty(&self) -> (r: bool)
        ensures
            r == (self.seq().len() == 0),
            r == (self@ =~= Set::<K>::empty()),
    {
        proof {
            self.lemma_view();
            if self.seq().len() > 0 {
                assert(self.seq().contains(self.seq()[0]));
            }
        }
        self.elems.len() == 0
    }

    /// The elements, oldest insertion first.
    pub fn elems(&self) -> (r: &Vec<K>)
        ensures
            r@ == self.seq(),
    {
        &self.elems
    }

    /// The index of `k`, if present.
    fn position(&self, k: &K) -> (r: Option<usize>)
        ensures
            match r {
                Some(i) => i < self.seq().len() && self.seq()[i as int] == *k,
                None => !self.seq().contains(*k),
            },
    {
        let mut i: usize = 0;
        let n = self.elems.len();
        while i < n
            invariant
                0 <= i <= n,
                n == self.seq().len(),
                forall|j: int| 0 <= j < i ==> self.seq()[j] != *k,
            decreases n - i,
    {
            if self.elems[i].key_eq(k) {
                return Some(i);
            }
            i = i + 1;
        }
        None
    }

    /// Whether the set holds `k`.
    pub fn contains(&self, k: &K) -> (r: bool)
        ensures
            r == self@.contains(*k),
    {
        proof {
            self.lemma_view();
        }
        self.position(k).is_some()
    }

    /// Adds `k`; reports whether the set changed.
    pub fn insert(&mut self, k: K) -> (r: bool)
        requires
            old(self).wf(),
        ensures
            final(self).wf(),
            final(self)@ == old(self)@.insert(k),
            r == !old(self)@.contains(k),
            final(self).seq() == if old(self)@.contains(k) {
                old(self).seq()
            } else {
                old(self).seq().push(k)
            },
    {
        proof {
            self.lemma_view();
        }
        match self.position(&k) {
            Some(_) => {
                proof {
                    assert(old(self)@.insert(k) =~= old(self)@);
                }
                false
            }
            None => {
                self.elems.push(k);
                proof {
                    assert(final(self).seq() =~= old(self).seq().push(k));
                    assert forall|x: K| final(self).seq().contains(x) implies old(self)@.insert(
                        k,
                    ).contains(x) by {
                        let j = choose|j: int|
                            0 <= j < final(self).seq().len() && final(self).seq()[j] == x;
                        if j < old(self).seq().len() {
                            assert(old(self).seq()[j] == x);
                        }
                    }
                    assert forall|x: K|
                        old(self)@.insert(k).contains(x) implies final(self).seq().contains(x) by {
                        if old(self)@.contains(x) {
                            let j = choose|j: int|
                                0 <= j < old(self).seq().len() && old(self).seq()[j] == x;
                            assert(final(self).seq()[j] == x);
                        } else {
                            assert(final(self).seq().last() == k);
                        }
                    }
                    assert(final(self)@ =~= old(self)@.insert(k));
                    assert(!old(self).seq().contains(k));
                    assert(final(self).seq().no_duplicates());
                }
                true
            }
        }
    }

    /// Removes `k`; reports whether the set changed. The other elements keep
    /// their order.
    pub fn remove(&mut self, k: &K) -> (r: bool)
        requires
            old(self).wf(),
        ensures
            final(self).wf(),
            final(self)@ == old(self)@.remove(*k),
            r == old(self)@.contains(*k),
            !old(self)@.contains(*k) ==> final(self).seq() == old(self).seq(),
            old(self)@.contains(*k) ==> exists|i: int|
                {
                    &&& 0 <= i < old(self).seq().len()
                    &&& old(self).seq()[i] == *k
                    &&& final(self).seq() == old(self).seq().remove(i)
                },
    {
        proof {
            self.lemma_view();
        }
        match self.position(k) {
            Some(i) => {
                self.elems.remove(i);
                proof {
                    old(self).seq().unique_seq_to_set();
                    final(self).seq().unique_seq_to_set();
                    assert(final(self).seq() =~= old(self).seq().remove(i as int));
                    lemma_remove_distinct(old(self).seq(), i as int);
                }
                true
            }
            None => {
                proof {
                    assert(old(self)@.remove(*k) =~= old(self)@);
                }
                false
            }
        }
    }

    /// Drops all elements.
    pub fn clear(&mut self)
        ensures
            final(self).wf(),
            final(self)@ == Set::<K>::empty(),
            final(self).seq() == Seq::<K>::empty(),
    {
        self.elems.clear();
        proof {
            assert(final(self)@ =~= Set::<K>::empty());
        }
    }

    /// Moves all elements out, leaving the set empty.
    pub fn take_elems(&mut self) -> (r: Vec<K>)
        ensures
            r@ == old(self).seq(),
            final(self).wf(),
            final(self)@ == Set::<K>::empty(),
            final(self).seq() == Seq::<K>::empty(),
    {
        let mut out: Vec<K> = Vec::new();
        std::mem::swap(&mut out, &mut self.elems);
        proof {
            assert(final(self)@ =~= Set::<K>::empty());
        }
        out
    }
}

/// Removing an element of a duplicate-free sequence removes it from the
/// sequence's set and keeps the rest distinct.
pub proof fn lemma_remove_distinct<K>(s: Seq<K>, i: int)
    requires
        s.no_duplicates(),
        0 <= i < s.len(),
    ensures
        s.remove(i).no_duplicates(),
        s.remove(i).to_set() == s.to_set().remove(s[i]),
{
    let t = s.remove(i);
    assert forall|a: int, b: int| 0 <= a < b < t.len() implies t[a] != t[b] by {
        if b < i {
        } else if a < i {
            assert(t[b] == s[b + 1]);
        } else {
            assert(t[a] == s[a + 1]);
            assert(t[b] == s[b + 1]);
        }
    }
    assert forall|k: K| t.to_set().contains(k) <==> s.to_set().remove(s[i]).contains(k) by {
        if t.to_set().contains(k) {
            let j = choose|j: int| 0 <= j < t.len() && t[j] == k;
            if j < i {
                assert(s[j] == k);
            } else {
                assert(s[j + 1] == k);
            }
            assert(s.to_set().contains(k));
            assert(k != s[i]);
        }
        if s.to_set().remove(s[i]).contains(k) {
            let j = choose|j: int| 0 <= j < s.len() && s[j] == k;
            assert(j != i);
            if j < i {
                assert(t[j] == k);
            } else {
                assert(t[j - 1] == k);
            }
            assert(t.to_set().contains(k));
        }
    }
    assert(t.to_set() =~= s.to_set().remove(s[i]));
}

} // verus!
