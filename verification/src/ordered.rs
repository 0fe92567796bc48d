use vstd::prelude::*;

verus! {

/// The members of `s` below `n`, in increasing order.
pub open spec fn keys_below(s: Set<u32>, n: nat) -> Seq<u32>
    decreases n,
{
    if n == 0 {
        Seq::empty()
    } else {
        let lower = keys_below(s, (n - 1) as nat);
        if n - 1 <= u32::MAX && s.contains((n - 1) as u32) {
            lower.push((n - 1) as u32)
        } else {
            lower
        }
    }
}

/// The members of a set of identifiers, in increasing order.
pub open spec fn ascending(s: Set<u32>) -> Seq<u32> {
    keys_below(s, 0x1_0000_0000)
}

/// Whether each key of a sequence is below the next one.
pub open spec fn increasing(keys: Seq<u32>) -> bool {
    forall|i: int, j: int| 0 <= i < j < keys.len() ==> keys[i] < keys[j]
}

/// `keys_below` lists exactly the members below the bound, each once, in
/// increasing order.
pub proof fn lemma_keys_below(s: Set<u32>, n: nat)
    ensures
        increasing(keys_below(s, n)),
        forall|i: int|
            0 <= i < keys_below(s, n).len() ==> s.contains(#[trigger] keys_below(s, n)[i])
                && keys_below(s, n)[i] < n,
        forall|k: u32| s.contains(k) && k < n ==> #[trigger] keys_below(s, n).contains(k),
    decreases n,
{
    if n > 0 {
        let lower = keys_below(s, (n - 1) as nat);
        lemma_keys_below(s, (n - 1) as nat);
        let all = keys_below(s, n);
        assert forall|k: u32| s.contains(k) && k < n implies #[trigger] all.contains(k) by {
            if k < n - 1 {
                assert(lower.contains(k));
                let i = choose|i: int| 0 <= i < lower.len() && lower[i] == k;
                assert(all[i] == k);
            } else {
                assert(all[all.len() - 1] == k);
            }
        }
    }
}

/// An increasing sequence that holds exactly the members below the bound is
/// the one that `keys_below` gives.
pub proof fn lemma_keys_below_unique(s: Set<u32>, n: nat, keys: Seq<u32>)
    requires
        increasing(keys),
        forall|i: int| 0 <= i < keys.len() ==> s.contains(#[trigger] keys[i]) && keys[i] < n,
        forall|k: u32| s.contains(k) && k < n ==> #[trigger] keys.contains(k),
    ensures
        keys_below(s, n) == keys,
    decreases n,
{
    if n == 0 {
        if keys.len() > 0 {
            assert(keys[0] < 0);
        }
        assert(keys =~= Seq::empty());
    } else {
        let top = (n - 1) as u32;
        if n - 1 <= u32::MAX && s.contains(top) {
            assert(keys.contains(top));
            let at = choose|i: int| 0 <= i < keys.len() && keys[i] == top;
            if at < keys.len() - 1 {
                assert(keys[at] < keys[keys.len() - 1]);
            }
            let front = keys.drop_last();
            assert forall|k: u32| s.contains(k) && k < n - 1 implies #[trigger] front.contains(k) by {
                assert(keys.contains(k));
                let i = choose|i: int| 0 <= i < keys.len() && keys[i] == k;
                assert(front[i] == k);
            }
            assert forall|i: int| 0 <= i < front.len() implies s.contains(#[trigger] front[i])
                && front[i] < n - 1 by {
                assert(keys[i] < keys[keys.len() - 1]);
            }
            lemma_keys_below_unique(s, (n - 1) as nat, front);
            assert(front.push(top) =~= keys);
        } else {
            assert forall|i: int| 0 <= i < keys.len() implies s.contains(#[trigger] keys[i])
                && keys[i] < n - 1 by {
                if keys[i] == n - 1 {
                    assert(s.contains(top));
                }
            }
            lemma_keys_below_unique(s, (n - 1) as nat, keys);
        }
    }
}

/// An increasing sequence that holds exactly the members of a set is the
/// set in increasing order.
pub proof fn lemma_ascending_unique(s: Set<u32>, keys: Seq<u32>)
    requires
        increasing(keys),
        forall|i: int| 0 <= i < keys.len() ==> s.contains(#[trigger] keys[i]),
        forall|k: u32| s.contains(k) ==> #[trigger] keys.contains(k),
    ensures
        ascending(s) == keys,
{
    lemma_keys_below_unique(s, 0x1_0000_0000, keys);
}

/// The members of a set in increasing order: each member once, and nothing
/// else.
pub proof fn lemma_ascending(s: Set<u32>)
    ensures
        increasing(ascending(s)),
        forall|i: int| 0 <= i < ascending(s).len() ==> s.contains(#[trigger] ascending(s)[i]),
        forall|k: u32| s.contains(k) ==> #[trigger] ascending(s).contains(k),
{
    lemma_keys_below(s, 0x1_0000_0000);
}

/// The keys of a sequence of entries, in its order.
pub open spec fn keys_of<V>(entries: Seq<(u32, V)>) -> Seq<u32> {
    Seq::new(entries.len(), |i: int| entries[i].0)
}

/// The map that a sequence of entries stands for.
pub open spec fn map_of<V>(entries: Seq<(u32, V)>) -> Map<u32, V>
    decreases entries.len(),
{
    if entries.len() == 0 {
        Map::empty()
    } else {
        map_of(entries.drop_last()).insert(entries.last().0, entries.last().1)
    }
}

/// With increasing keys, the map of a sequence of entries holds each entry
/// under its key and nothing else, and its keys in order are those of the
/// sequence.
pub proof fn lemma_map_of<V>(entries: Seq<(u32, V)>)
    requires
        increasing(keys_of(entries)),
    ensures
        forall|i: int|
            0 <= i < entries.len() ==> map_of(entries).contains_key(#[trigger] entries[i].0)
                && map_of(entries)[entries[i].0] == entries[i].1,
        forall|k: u32|
            map_of(entries).contains_key(k) ==> exists|i: int|
                0 <= i < entries.len() && #[trigger] entries[i].0 == k,
        ascending(map_of(entries).dom()) == keys_of(entries),
        map_of(entries).dom().finite(),
    decreases entries.len(),
{
    let keys = keys_of(entries);
    if entries.len() > 0 {
        let front = entries.drop_last();
        let last = entries.last();
        assert forall|i: int, j: int| 0 <= i < j < front.len() implies keys_of(front)[i] < keys_of(
            front,
        )[j] by {
            assert(keys[i] < keys[j]);
        }
        lemma_map_of(front);
        assert forall|i: int| 0 <= i < entries.len() implies map_of(entries).contains_key(
            #[trigger] entries[i].0,
        ) && map_of(entries)[entries[i].0] == entries[i].1 by {
            if i < entries.len() - 1 {
                assert(front[i] == entries[i]);
                assert(keys[i] < keys[entries.len() - 1]);
            }
        }
        assert forall|k: u32| map_of(entries).contains_key(k) implies exists|i: int|
            0 <= i < entries.len() && #[trigger] entries[i].0 == k by {
            if k == last.0 {
                assert(entries[entries.len() - 1].0 == k);
            } else {
                let i = choose|i: int| 0 <= i < front.len() && #[trigger] front[i].0 == k;
                assert(entries[i].0 == k);
            }
        }
    }
    assert forall|i: int| 0 <= i < keys.len() implies map_of(entries).dom().contains(
        #[trigger] keys[i],
    ) by {
        assert(map_of(entries).contains_key(entries[i].0));
    }
    assert forall|k: u32| map_of(entries).dom().contains(k) implies #[trigger] keys.contains(k) by {
        let i = choose|i: int| 0 <= i < entries.len() && #[trigger] entries[i].0 == k;
        assert(keys[i] == k);
    }
    lemma_ascending_unique(map_of(entries).dom(), keys);
}

/// Putting a new value in place of the value of an entry puts it under the
/// entry's key.
proof fn lemma_replace_entry<V>(before: Seq<(u32, V)>, at: int, value: V)
    requires
        increasing(keys_of(before)),
        0 <= at < before.len(),
    ensures
        increasing(keys_of(before.update(at, (before[at].0, value)))),
        map_of(before.update(at, (before[at].0, value))) == map_of(before).insert(before[at].0, value),
{
    let key = before[at].0;
    let after = before.update(at, (key, value));
    assert(keys_of(after) =~= keys_of(before));
    lemma_map_of(before);
    lemma_map_of(after);
    let wanted = map_of(before).insert(key, value);
    assert forall|k: u32| #[trigger] map_of(after).contains_key(k) == wanted.contains_key(k) by {
        if map_of(after).contains_key(k) {
            let i = choose|i: int| 0 <= i < after.len() && #[trigger] after[i].0 == k;
            assert(before[i].0 == k);
        }
        if wanted.contains_key(k) && k != key {
            let i = choose|i: int| 0 <= i < before.len() && #[trigger] before[i].0 == k;
            assert(after[i].0 == k);
        }
        if k == key {
            assert(after[at].0 == k);
        }
    }
    assert forall|k: u32| #[trigger] map_of(after).contains_key(k) implies map_of(after)[k]
        == wanted[k] by {
        let i = choose|i: int| 0 <= i < after.len() && #[trigger] after[i].0 == k;
        if i != at {
            assert(before[i] == after[i]);
            if i < at {
                assert(keys_of(before)[i] < keys_of(before)[at]);
            } else {
                assert(keys_of(before)[at] < keys_of(before)[i]);
            }
        }
    }
    assert(map_of(after) =~= wanted);
}

/// Putting a new entry at the place that its key has in the order puts its
/// value under its key.
proof fn lemma_insert_entry<V>(before: Seq<(u32, V)>, at: int, key: u32, value: V)
    requires
        increasing(keys_of(before)),
        0 <= at <= before.len(),
        forall|j: int| 0 <= j < at ==> (#[trigger] before[j]).0 < key,
        at < before.len() ==> before[at].0 > key,
    ensures
        increasing(keys_of(before.insert(at, (key, value)))),
        map_of(before.insert(at, (key, value))) == map_of(before).insert(key, value),
{
    let after = before.insert(at, (key, value));
    assert forall|i: int, j: int| 0 <= i < j < after.len() implies keys_of(after)[i] < keys_of(
        after,
    )[j] by {
        if j < at {
            assert(after[i] == before[i] && after[j] == before[j]);
            assert(keys_of(before)[i] < keys_of(before)[j]);
        } else if j == at {
            assert(after[i] == before[i]);
        } else if i < at {
            assert(after[i] == before[i] && after[j] == before[j - 1]);
            if i < j - 1 {
                assert(keys_of(before)[i] < keys_of(before)[j - 1]);
            }
            if at < j - 1 {
                assert(keys_of(before)[at] < keys_of(before)[j - 1]);
            }
        } else if i == at {
            assert(after[j] == before[j - 1]);
            if at < j - 1 {
                assert(keys_of(before)[at] < keys_of(before)[j - 1]);
            }
        } else {
            assert(after[i] == before[i - 1] && after[j] == before[j - 1]);
            assert(keys_of(before)[i - 1] < keys_of(before)[j - 1]);
        }
    }
    lemma_map_of(before);
    lemma_map_of(after);
    let wanted = map_of(before).insert(key, value);
    assert forall|k: u32| #[trigger] map_of(after).contains_key(k) == wanted.contains_key(k) by {
        if map_of(after).contains_key(k) {
            let i = choose|i: int| 0 <= i < after.len() && #[trigger] after[i].0 == k;
            if i < at {
                assert(before[i].0 == k);
            } else if i > at {
                assert(before[i - 1].0 == k);
            }
        }
        if wanted.contains_key(k) && k != key {
            let b = choose|b: int| 0 <= b < before.len() && #[trigger] before[b].0 == k;
            if b < at {
                assert(after[b].0 == k);
            } else {
                assert(after[b + 1].0 == k);
            }
        }
        if k == key {
            assert(after[at].0 == k);
        }
    }
    assert forall|k: u32| #[trigger] map_of(after).contains_key(k) implies map_of(after)[k]
        == wanted[k] by {
        let i = choose|i: int| 0 <= i < after.len() && #[trigger] after[i].0 == k;
        if i < at {
            assert(before[i] == after[i]);
        } else if i > at {
            assert(before[i - 1] == after[i]);
            if at < i - 1 {
                assert(keys_of(before)[at] < keys_of(before)[i - 1]);
            }
        }
    }
    assert(map_of(after) =~= wanted);
}

/// A map from identifiers to values that is walked in increasing order of
/// identifier.
#[derive(Debug, PartialEq, Eq)]
pub struct OrderedMap<V> {
    entries: Vec<(u32, V)>,
}

impl<V> View for OrderedMap<V> {
    type V = Map<u32, V>;

    closed spec fn view(&self) -> Map<u32, V> {
        map_of(self.entries@)
    }
}

impl<V: Clone> Clone for OrderedMap<V> {
    fn clone(&self) -> (copy: Self)
        ensures
            copy@.dom() == self@.dom(),
    {
        proof {
            use_type_invariant(self);
            lemma_map_of(self.entries@);
        }
        let mut entries: Vec<(u32, V)> = Vec::new();
        let mut i: usize = 0;
        while i < self.entries.len()
            invariant
                i <= self.entries@.len(),
                entries@.len() == i,
                forall|j: int| 0 <= j < i ==> (#[trigger] entries@[j]).0 == self.entries@[j].0,
            decreases self.entries@.len() - i,
        {
            entries.push((self.entries[i].0, self.entries[i].1.clone()));
            i += 1;
        }
        proof {
            assert(keys_of(entries@) =~= keys_of(self.entries@));
            lemma_map_of(entries@);
            assert(map_of(entries@).dom() =~= map_of(self.entries@).dom()) by {
                assert forall|k: u32| map_of(entries@).contains_key(k) == map_of(
                    self.entries@,
                ).contains_key(k) by {
                    if map_of(entries@).contains_key(k) {
                        let j = choose|j: int| 0 <= j < entries@.len() && #[trigger] entries@[j].0 == k;
                        assert(self.entries@[j].0 == k);
                    }
                    if map_of(self.entries@).contains_key(k) {
                        let j = choose|j: int|
                            0 <= j < self.entries@.len() && #[trigger] self.entries@[j].0 == k;
                        assert(entries@[j].0 == k);
                    }
                }
            }
        }
        OrderedMap { entries }
    }
}

impl<V> OrderedMap<V> {
    #[verifier::type_invariant]
    spec fn sorted(self) -> bool {
        increasing(keys_of(self.entries@))
    }

    /// The keys of the map, in increasing order.
    pub open spec fn keys(&self) -> Seq<u32> {
        ascending(self@.dom())
    }

    /// A map without entries.
    pub fn new() -> (m: Self)
        ensures
            m@ == Map::<u32, V>::empty(),
    {
        OrderedMap { entries: Vec::new() }
    }

    /// The number of entries.
    pub fn len(&self) -> (n: usize)
        ensures
            n == self.keys().len(),
            n == self@.dom().len(),
            self@.dom().finite(),
    {
        proof {
            use_type_invariant(self);
            lemma_map_of(self.entries@);
            lemma_ascending(self@.dom());
            self.keys().unique_seq_to_set();
            assert(self.keys().to_set() =~= self@.dom());
        }
        self.entries.len()
    }

    /// The key at a place in the increasing order.
    pub fn key_at(&self, i: usize) -> (key: u32)
        requires
            i < self.keys().len(),
        ensures
            key == self.keys()[i as int],
            self@.contains_key(key),
    {
        proof {
            use_type_invariant(self);
            lemma_map_of(self.entries@);
        }
        self.entries[i].0
    }

    /// The value at a place in the increasing order of keys.
    pub fn value_at(&self, i: usize) -> (value: &V)
        requires
            i < self.keys().len(),
        ensures
            self@.contains_key(self.keys()[i as int]),
            *value == self@[self.keys()[i as int]],
    {
        proof {
            use_type_invariant(self);
            lemma_map_of(self.entries@);
        }
        &self.entries[i].1
    }

    /// The place of the first key that is not below `key`.
    fn search(&self, key: u32) -> (at: usize)
        ensures
            at <= self.entries@.len(),
            forall|j: int| 0 <= j < at ==> (#[trigger] self.entries@[j]).0 < key,
            at < self.entries@.len() ==> self.entries@[at as int].0 >= key,
    {
        let mut at: usize = 0;
        while at < self.entries.len() && self.entries[at].0 < key
            invariant
                at <= self.entries@.len(),
                forall|j: int| 0 <= j < at ==> (#[trigger] self.entries@[j]).0 < key,
            decreases self.entries@.len() - at,
        {
            at += 1;
        }
        at
    }

    /// The place of a key in the increasing order, if the map has it.
    pub fn position(&self, key: u32) -> (place: Option<usize>)
        ensures
            match place {
                Some(i) => i < self.keys().len() && self.keys()[i as int] == key && self@.contains_key(
                    key,
                ),
                None => !self@.contains_key(key),
            },
    {
        proof {
            use_type_invariant(self);
            lemma_map_of(self.entries@);
        }
        let at = self.search(key);
        if at < self.entries.len() && self.entries[at].0 == key {
            Some(at)
        } else {
            proof {
                if self@.contains_key(key) {
                    let i = choose|i: int|
                        0 <= i < self.entries@.len() && #[trigger] self.entries@[i].0 == key;
                    if i > at {
                        assert(keys_of(self.entries@)[at as int] < keys_of(self.entries@)[i]);
                    }
                }
            }
            None
        }
    }

    /// The value under a key, if the map has it.
    pub fn get(&self, key: u32) -> (value: Option<&V>)
        ensures
            match value {
                Some(v) => self@.contains_key(key) && *v == self@[key],
                None => !self@.contains_key(key),
            },
    {
        match self.position(key) {
            Some(i) => Some(self.value_at(i)),
            None => None,
        }
    }

    /// Puts a value under a key, in place of the one that was there.
    pub fn insert(&mut self, key: u32, value: V)
        ensures
            final(self)@ == old(self)@.insert(key, value),
    {
        proof {
            use_type_invariant(&*self);
        }
        let at = self.search(key);
        let ghost before = self.entries@;
        let mut entries: Vec<(u32, V)> = Vec::new();
        core::mem::swap(&mut self.entries, &mut entries);
        if at < entries.len() && entries[at].0 == key {
            entries.set(at, (key, value));
            proof {
                lemma_replace_entry(before, at as int, value);
            }
        } else {
            entries.insert(at, (key, value));
            proof {
                lemma_insert_entry(before, at as int, key, value);
            }
        }
        core::mem::swap(&mut self.entries, &mut entries);
    }
}

} // verus!
