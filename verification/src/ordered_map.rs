//! A map whose entries are kept in the order of their keys.

use crate::order::{Key, Precedence};
use vstd::prelude::*;

verus! {

/// The keys of `s` stand in strictly increasing order.
pub open spec fn strictly_ordered<K: Key, V>(s: Seq<(K::Model, V)>) -> bool {
    forall|i: int, j: int|
        0 <= i < j < s.len() ==> K::before(#[trigger] s[i].0, #[trigger] s[j].0)
}

/// The keys of a listing.
pub open spec fn keys_of<M, V>(s: Seq<(M, V)>) -> Seq<M> {
    Seq::new(s.len(), |i: int| s[i].0)
}

/// The map that a listing with distinct keys spells out.
pub open spec fn map_of<M, V>(s: Seq<(M, V)>) -> Map<M, V> {
    Map::new(
        |m: M| keys_of(s).contains(m),
        |m: M| s[choose|i: int| 0 <= i < s.len() && (#[trigger] s[i]).0 == m].1,
    )
}

/// What is left of `m` when only the entries that `wanted` accepts stay.
pub open spec fn restricted<M, V>(m: Map<M, V>, wanted: spec_fn(M, V) -> bool) -> Map<M, V> {
    Map::new(|k: M| m.contains_key(k) && wanted(k, m[k]), |k: M| m[k])
}

/// A listing in strict order spells out a finite map with as many entries,
/// and each of its pairs is in the map.
pub proof fn lemma_map_of<K: Key, V>(s: Seq<(K::Model, V)>)
    requires
        strictly_ordered::<K, V>(s),
    ensures
        map_of(s).dom().finite(),
        map_of(s).len() == s.len(),
        forall|i: int|
            0 <= i < s.len() ==> map_of(s).contains_key((#[trigger] s[i]).0)
                && map_of(s)[s[i].0] == s[i].1,
        forall|m: K::Model| #[trigger]
            map_of(s).contains_key(m) ==> exists|i: int|
                0 <= i < s.len() && (#[trigger] s[i]).0 == m,
        forall|i: int, j: int|
            0 <= i < s.len() && 0 <= j < s.len() && (#[trigger] s[i]).0 == (#[trigger] s[j]).0
                ==> i == j,
{
    let keys = keys_of(s);
    assert forall|i: int, j: int|
        0 <= i < s.len() && 0 <= j < s.len() && (#[trigger] s[i]).0 == (
        #[trigger] s[j]).0 implies i == j by {
        K::lemma_irreflexive(s[i].0);
    }
    assert(keys.no_duplicates()) by {
        assert forall|i: int, j: int|
            0 <= i < keys.len() && 0 <= j < keys.len() && i != j implies keys[i] != keys[j] by {
            assert(s[i].0 == keys[i] && s[j].0 == keys[j]);
        }
    }
    assert(map_of(s).dom() =~= keys.to_set());
    keys.unique_seq_to_set();
    vstd::seq_lib::seq_to_set_is_finite(keys);
    assert forall|i: int| 0 <= i < s.len() implies map_of(s).contains_key((#[trigger] s[i]).0)
        && map_of(s)[s[i].0] == s[i].1 by {
        assert(keys[i] == s[i].0);
        let k = choose|k: int| 0 <= k < s.len() && (#[trigger] s[k]).0 == s[i].0;
        assert(s[k].0 == s[i].0);
    }
    assert forall|m: K::Model| #[trigger] map_of(s).contains_key(m) implies exists|i: int|
        0 <= i < s.len() && (#[trigger] s[i]).0 == m by {
        let i = choose|i: int| 0 <= i < keys.len() && keys[i] == m;
        assert(s[i].0 == m);
    }
}

/// The entries of a map, in the order of their keys, each key once.
#[derive(Debug)]
pub struct OrderedMap<K: Key, V> {
    entries: Vec<(K, V)>,
}

impl<K: Key, V> View for OrderedMap<K, V> {
    type V = Map<K::Model, V>;

    open spec fn view(&self) -> Map<K::Model, V> {
        map_of(self.listing())
    }
}

impl<K: Key, V> OrderedMap<K, V> {
    /// The entries in the order of their keys.
    pub closed spec fn listing(&self) -> Seq<(K::Model, V)> {
        Seq::new(
            self.entries@.len(),
            |i: int| (self.entries@[i].0.model(), self.entries@[i].1),
        )
    }

    #[verifier::type_invariant]
    closed spec fn ordered(&self) -> bool {
        strictly_ordered::<K, V>(self.listing())
    }

    pub fn new() -> (map: Self)
        ensures
            map@ == Map::<K::Model, V>::empty(),
            map.listing() == Seq::<(K::Model, V)>::empty(),
    {
        let map = OrderedMap { entries: Vec::new() };
        assert(map@ =~= Map::<K::Model, V>::empty());
        map
    }

    /// The number of entries.
    pub fn len(&self) -> (len: usize)
        ensures
            len == self@.len(),
            len == self.listing().len(),
            self@.dom().finite(),
            strictly_ordered::<K, V>(self.listing()),
    {
        proof {
            use_type_invariant(self);
            lemma_map_of::<K, V>(self.listing());
        }
        self.entries.len()
    }

    /// The key of the entry at position `i`.
    pub fn key_at(&self, i: usize) -> (key: &K)
        requires
            i < self.listing().len(),
        ensures
            key.model() == self.listing()[i as int].0,
    {
        &self.entries[i].0
    }

    /// The value of the entry at position `i`.
    pub fn value_at(&self, i: usize) -> (value: &V)
        requires
            i < self.listing().len(),
        ensures
            *value == self.listing()[i as int].1,
    {
        &self.entries[i].1
    }

    /// The number of entries whose keys come before `key`.
    pub fn lower_bound(&self, key: &K) -> (bound: usize)
        ensures
            bound <= self.listing().len(),
            strictly_ordered::<K, V>(self.listing()),
            forall|i: int|
                0 <= i < bound ==> K::before((#[trigger] self.listing()[i]).0, key.model()),
            forall|i: int|
                bound <= i < self.listing().len() ==> !K::before(
                    (#[trigger] self.listing()[i]).0,
                    key.model(),
                ),
    {
        proof {
            use_type_invariant(self);
        }
        let ghost s = self.listing();
        let ghost m = key.model();
        let mut low: usize = 0;
        let mut high: usize = self.entries.len();
        while low < high
            invariant
                s == self.listing(),
                m == key.model(),
                low <= high <= s.len(),
                s.len() == self.entries@.len(),
                strictly_ordered::<K, V>(s),
                forall|i: int| 0 <= i < low ==> K::before((#[trigger] s[i]).0, m),
                forall|i: int| high <= i < s.len() ==> !K::before((#[trigger] s[i]).0, m),
            decreases high - low,
        {
            let mid: usize = low + (high - low) / 2;
            assert(s[mid as int].0 == self.entries@[mid as int].0.model());
            match self.entries[mid].0.compare(key) {
                Precedence::Before => {
                    proof {
                        assert forall|i: int| 0 <= i < mid + 1 implies K::before(
                            (#[trigger] s[i]).0,
                            m,
                        ) by {
                            if i < mid {
                                K::lemma_transitive(s[i].0, s[mid as int].0, m);
                            }
                        }
                    }
                    low = mid + 1;
                },
                _ => {
                    proof {
                        assert forall|i: int| mid <= i < s.len() implies !K::before(
                            (#[trigger] s[i]).0,
                            m,
                        ) by {
                            let at = s[mid as int].0;
                            if K::before(s[i].0, m) {
                                if i > mid {
                                    K::lemma_transitive(at, s[i].0, m);
                                }
                                assert(K::before(at, m));
                                if K::before(m, at) {
                                    K::lemma_transitive(m, at, m);
                                }
                                K::lemma_irreflexive(m);
                            }
                        }
                    }
                    high = mid;
                },
            }
        }
        low
    }

    /// Whether the entry at `bound`, the lower bound of `key`, is that of `key`.
    fn holds_at(&self, bound: usize, key: &K) -> (holds: bool)
        requires
            bound <= self.listing().len(),
            strictly_ordered::<K, V>(self.listing()),
            forall|i: int|
                0 <= i < bound ==> K::before((#[trigger] self.listing()[i]).0, key.model()),
            forall|i: int|
                bound <= i < self.listing().len() ==> !K::before(
                    (#[trigger] self.listing()[i]).0,
                    key.model(),
                ),
        ensures
            holds ==> bound < self.listing().len() && self.listing()[bound as int].0
                == key.model(),
            !holds ==> forall|i: int|
                bound <= i < self.listing().len() ==> K::before(
                    key.model(),
                    (#[trigger] self.listing()[i]).0,
                ),
            holds == self@.contains_key(key.model()),
    {
        let ghost s = self.listing();
        let ghost m = key.model();
        proof {
            lemma_map_of::<K, V>(s);
            K::lemma_irreflexive(m);
        }
        let holds = if bound < self.entries.len() {
            assert(s[bound as int].0 == self.entries@[bound as int].0.model());
            match key.compare(&self.entries[bound].0) {
                Precedence::Same => true,
                _ => false,
            }
        } else {
            false
        };
        proof {
            if !holds {
                assert forall|i: int| bound <= i < s.len() implies K::before(
                    m,
                    (#[trigger] s[i]).0,
                ) by {
                    let at = s[bound as int].0;
                    K::lemma_total(m, at);
                    assert(K::before(m, at));
                    if i > bound {
                        K::lemma_transitive(m, at, s[i].0);
                    }
                }
                assert forall|i: int| 0 <= i < s.len() implies (#[trigger] s[i]).0 != m by {
                }
            }
        }
        holds
    }

    /// The value at `key`.
    pub fn get(&self, key: &K) -> (found: Option<&V>)
        ensures
            self@.dom().finite(),
            match found {
                Some(value) => self@.contains_key(key.model()) && *value == self@[key.model()],
                None => !self@.contains_key(key.model()),
            },
    {
        let bound: usize = self.lower_bound(key);
        proof {
            lemma_map_of::<K, V>(self.listing());
        }
        if self.holds_at(bound, key) {
            assert(self.listing()[bound as int].1 == self.entries@[bound as int].1);
            Some(&self.entries[bound].1)
        } else {
            None
        }
    }

    pub fn contains_key(&self, key: &K) -> (held: bool)
        ensures
            held == self@.contains_key(key.model()),
    {
        self.get(key).is_some()
    }

    /// Puts `value` at `key`, in place of what was there.
    pub fn insert(&mut self, key: K, value: V)
        ensures
            final(self)@ == old(self)@.insert(key.model(), value),
    {
        let bound: usize = self.lower_bound(&key);
        let held = self.holds_at(bound, &key);
        let ghost s = self.listing();
        let ghost m = key.model();
        let mut entries: Vec<(K, V)> = Vec::new();
        std::mem::swap(&mut entries, &mut self.entries);
        if held {
            entries[bound] = (key, value);
        } else {
            entries.insert(bound, (key, value));
        }
        proof {
            lemma_map_of::<K, V>(s);
        }
        let ghost t = Seq::new(entries@.len(), |i: int| (entries@[i].0.model(), entries@[i].1));
        proof {
            if held {
                assert(t =~= s.update(bound as int, (m, value)));
            } else {
                assert(t =~= s.insert(bound as int, (m, value)));
            }
            assert(strictly_ordered::<K, V>(t));
            lemma_map_of::<K, V>(t);
            assert(t[bound as int] == (m, value));
            assert forall|k: K::Model| #[trigger]
                map_of(t).contains_key(k) implies map_of(s).insert(m, value).contains_key(k)
                && map_of(t)[k] == map_of(s).insert(m, value)[k] by {
                let i = choose|i: int| 0 <= i < t.len() && (#[trigger] t[i]).0 == k;
                if k != m {
                    if held || i < bound {
                        assert(t[i] == s[i]);
                    } else {
                        assert(t[i] == s[i - 1]);
                    }
                }
            }
            assert forall|k: K::Model| #[trigger]
                map_of(s).contains_key(k) implies map_of(t).contains_key(k) by {
                let i = choose|i: int| 0 <= i < s.len() && (#[trigger] s[i]).0 == k;
                if held || i < bound {
                    assert(t[i].0 == s[i].0);
                } else {
                    assert(t[i + 1] == s[i]);
                }
            }
            assert(map_of(t) =~= map_of(s).insert(m, value));
        }
        self.entries = entries;
        assert(self.listing() =~= t);
    }

    /// Takes out the entry at `key` and gives back its value.
    pub fn remove(&mut self, key: &K) -> (removed: Option<V>)
        ensures
            final(self)@ == old(self)@.remove(key.model()),
            match removed {
                Some(value) => old(self)@.contains_key(key.model()) && value
                    == old(self)@[key.model()],
                None => !old(self)@.contains_key(key.model()),
            },
    {
        let bound: usize = self.lower_bound(key);
        let held = self.holds_at(bound, key);
        let ghost s = self.listing();
        let ghost m = key.model();
        proof {
            lemma_map_of::<K, V>(s);
        }
        if !held {
            assert(map_of(s).remove(m) =~= map_of(s));
            return None;
        }
        let mut entries: Vec<(K, V)> = Vec::new();
        std::mem::swap(&mut entries, &mut self.entries);
        let removed = entries.remove(bound);
        let ghost t = Seq::new(entries@.len(), |i: int| (entries@[i].0.model(), entries@[i].1));
        proof {
            assert(t =~= s.remove(bound as int));
            assert(strictly_ordered::<K, V>(t));
            lemma_map_of::<K, V>(t);
            lemma_map_of_removed::<K, V>(s, t, bound as int, bound + 1);
            assert(map_of(t) =~= map_of(s).remove(m));
        }
        self.entries = entries;
        assert(self.listing() =~= t);
        Some(removed.1)
    }

    /// Takes out the entries from position `from` up to, not including, `to`.
    pub fn remove_range(&mut self, from: usize, to: usize)
        requires
            from <= to <= old(self).listing().len(),
        ensures
            final(self).listing() == old(self).listing().take(from as int)
                + old(self).listing().skip(to as int),
            final(self)@ == old(self)@.remove_keys(
                keys_of(old(self).listing()).subrange(from as int, to as int).to_set(),
            ),
    {
        proof {
            use_type_invariant(&*self);
        }
        let ghost s = self.listing();
        let mut entries: Vec<(K, V)> = Vec::new();
        std::mem::swap(&mut entries, &mut self.entries);
        let mut tail = entries.split_off(to);
        entries.truncate(from);
        entries.append(&mut tail);
        let ghost t = Seq::new(entries@.len(), |i: int| (entries@[i].0.model(), entries@[i].1));
        proof {
            assert(t =~= s.take(from as int) + s.skip(to as int));
            assert(strictly_ordered::<K, V>(t));
            lemma_map_of::<K, V>(s);
            lemma_map_of::<K, V>(t);
            lemma_map_of_removed::<K, V>(s, t, from as int, to as int);
        }
        self.entries = entries;
        assert(self.listing() =~= t);
    }
}

impl<K: Key, V> OrderedMap<K, V> {
    /// Leaves only the entries that `keep` accepts.
    pub(crate) fn retain<F: Fn(&K, &V) -> bool>(
        &mut self,
        keep: F,
        Ghost(wanted): Ghost<spec_fn(K::Model, V) -> bool>,
    )
        requires
            forall|k: &K, v: &V| #[trigger] keep.requires((k, v)),
            forall|k: &K, v: &V, kept: bool| #[trigger]
                keep.ensures((k, v), kept) ==> kept == wanted(k.model(), *v),
        ensures
            final(self)@ == restricted(old(self)@, wanted),
    {
        proof {
            use_type_invariant(&*self);
            lemma_map_of::<K, V>(self.listing());
        }
        let ghost s = self.listing();
        let mut entries: Vec<(K, V)> = Vec::new();
        std::mem::swap(&mut entries, &mut self.entries);
        let mut kept: Vec<(K, V)> = Vec::new();
        let ghost mut t: Seq<(K::Model, V)> = Seq::empty();
        let ghost mut origin: Seq<int> = Seq::empty();
        for entry in it: entries
            invariant
                it.seq().len() == s.len(),
                forall|i: int|
                    0 <= i < s.len() ==> ((#[trigger] it.seq()[i]).0.model(), it.seq()[i].1)
                        == s[i],
                strictly_ordered::<K, V>(s),
                forall|k: &K, v: &V| #[trigger] keep.requires((k, v)),
                forall|k: &K, v: &V, b: bool| #[trigger]
                    keep.ensures((k, v), b) ==> b == wanted(k.model(), *v),
                t == Seq::new(kept@.len(), |i: int| (kept@[i].0.model(), kept@[i].1)),
                origin.len() == t.len(),
                forall|a: int|
                    0 <= a < t.len() ==> 0 <= #[trigger] origin[a] < it.index() && t[a]
                        == s[origin[a]] && wanted(t[a].0, t[a].1),
                forall|a: int, b: int|
                    0 <= a < b < t.len() ==> #[trigger] origin[a] < #[trigger] origin[b],
                forall|j: int|
                    0 <= j < it.index() && wanted((#[trigger] s[j]).0, s[j].1)
                        ==> origin.contains(j),
        {
            let ghost at = it.index() as int;
            assert((entry.0.model(), entry.1) == s[at]);
            if keep(&entry.0, &entry.1) {
                let ghost before = origin;
                kept.push(entry);
                proof {
                    t = t.push(s[at]);
                    origin = origin.push(at);
                    assert(t =~= Seq::new(kept@.len(), |i: int| (kept@[i].0.model(), kept@[i].1)));
                    assert(origin[origin.len() - 1] == at);
                    assert forall|j: int|
                        0 <= j < at + 1 && wanted((#[trigger] s[j]).0, s[j].1) implies origin.contains(
                        j,
                    ) by {
                        if j < at {
                            let a = choose|a: int| 0 <= a < before.len() && before[a] == j;
                            assert(origin[a] == j);
                        }
                    }
                }
            }
        }
        proof {
            assert forall|a: int, b: int| 0 <= a < b < t.len() implies K::before(
                #[trigger] t[a].0,
                #[trigger] t[b].0,
            ) by {
                assert(origin[a] < origin[b]);
            }
            lemma_map_of::<K, V>(t);
            assert forall|k: K::Model| #[trigger] map_of(t).contains_key(k) implies restricted(
                map_of(s),
                wanted,
            ).contains_key(k) && map_of(t)[k] == map_of(s)[k] by {
                let a = choose|a: int| 0 <= a < t.len() && (#[trigger] t[a]).0 == k;
                assert(s[origin[a]] == t[a]);
            }
            assert forall|k: K::Model| #[trigger] restricted(map_of(s), wanted).contains_key(
                k,
            ) implies map_of(t).contains_key(k) by {
                assert(map_of(s).contains_key(k));
                let j = choose|j: int| 0 <= j < s.len() && (#[trigger] s[j]).0 == k;
                assert(origin.contains(j));
                let a = choose|a: int| 0 <= a < origin.len() && origin[a] == j;
                assert(t[a].0 == k);
            }
            assert(map_of(t) =~= restricted(map_of(s), wanted));
        }
        self.entries = kept;
        assert(self.listing() =~= t);
    }
}

impl<K: Key, V: Copy> OrderedMap<K, V> {
    /// A map with the same entries.
    pub fn duplicate(&self) -> (copy: Self)
        ensures
            copy@ == self@,
            copy.listing() == self.listing(),
    {
        proof {
            use_type_invariant(self);
        }
        let mut entries: Vec<(K, V)> = Vec::new();
        for i in 0..self.entries.len()
            invariant
                entries@.len() == i,
                forall|j: int|
                    0 <= j < i ==> (#[trigger] entries@[j]).0.model() == self.entries@[j].0.model()
                        && entries@[j].1 == self.entries@[j].1,
        {
            let value: V = self.entries[i].1;
            entries.push((self.entries[i].0.duplicate(), value));
        }
        let ghost listing = Seq::new(
            entries@.len(),
            |i: int| (entries@[i].0.model(), entries@[i].1),
        );
        assert(listing =~= self.listing());
        OrderedMap { entries }
    }
}

/// A listing without the entries at positions `from` to `to` spells out the map
/// without their keys.
proof fn lemma_map_of_removed<K: Key, V>(
    s: Seq<(K::Model, V)>,
    t: Seq<(K::Model, V)>,
    from: int,
    to: int,
)
    requires
        strictly_ordered::<K, V>(s),
        strictly_ordered::<K, V>(t),
        0 <= from <= to <= s.len(),
        t == s.take(from) + s.skip(to),
    ensures
        map_of(t) == map_of(s).remove_keys(keys_of(s).subrange(from, to).to_set()),
        to == from + 1 ==> map_of(t) == map_of(s).remove(s[from].0),
{
    lemma_map_of::<K, V>(s);
    lemma_map_of::<K, V>(t);
    let gone = keys_of(s).subrange(from, to).to_set();
    assert forall|k: K::Model| #[trigger] map_of(t).contains_key(k) implies map_of(s).contains_key(
        k,
    ) && !gone.contains(k) && map_of(t)[k] == map_of(s)[k] by {
        let i = choose|i: int| 0 <= i < t.len() && (#[trigger] t[i]).0 == k;
        let o = if i < from {
            i
        } else {
            i - from + to
        };
        assert(t[i] == s[o]);
        if gone.contains(k) {
            let j = choose|j: int|
                0 <= j < to - from && #[trigger] keys_of(s).subrange(from, to)[j] == k;
            assert(s[j + from].0 == k);
        }
    }
    assert forall|k: K::Model|
        #[trigger] map_of(s).contains_key(k) && !gone.contains(k) implies map_of(
        t,
    ).contains_key(k) by {
        let i = choose|i: int| 0 <= i < s.len() && (#[trigger] s[i]).0 == k;
        if from <= i < to {
            assert(keys_of(s).subrange(from, to)[i - from] == k);
        } else if i < from {
            assert(t[i] == s[i]);
        } else {
            assert(t[i - to + from] == s[i]);
        }
    }
    assert(map_of(t) =~= map_of(s).remove_keys(gone));
    if to == from + 1 {
        assert(keys_of(s).subrange(from, to) =~= seq![s[from].0]);
        assert(gone =~= set![s[from].0]) by {
            assert(seq![s[from].0][0] == s[from].0);
        }
        assert(map_of(s).remove_keys(gone) =~= map_of(s).remove(s[from].0));
    }
}

} // verus!
