//! The store in memory: a map from string keys to values that remembers the
//! order in which its keys first came.

use vstd::prelude::*;
use vstd::string::StringExecFns;

verus! {

/// A key with its value.
#[derive(Debug)]
pub struct Entry<T> {
    pub key: String,
    pub value: T,
}

/// The pairs that a sequence of entries stands for.
pub open spec fn pairs_of<T>(entries: Seq<Entry<T>>) -> Seq<(Seq<char>, T)> {
    entries.map_values(|e: Entry<T>| (e.key@, e.value))
}

/// No key occurs twice.
pub open spec fn distinct_keys<T>(pairs: Seq<(Seq<char>, T)>) -> bool {
    forall|i: int, j: int| 0 <= i < j < pairs.len() ==> pairs[i].0 != pairs[j].0
}

/// The position of `key` among the pairs, or their number if it is not there.
pub open spec fn position<T>(pairs: Seq<(Seq<char>, T)>, key: Seq<char>) -> int
    decreases pairs.len(),
{
    if pairs.len() == 0 || pairs[0].0 == key {
        0
    } else {
        1 + position(pairs.drop_first(), key)
    }
}

/// The map that the pairs build when they are inserted one after another: of
/// two pairs with one key, the later one stays.
pub open spec fn map_of<T>(pairs: Seq<(Seq<char>, T)>) -> Map<Seq<char>, T>
    decreases pairs.len(),
{
    if pairs.len() == 0 {
        Map::empty()
    } else {
        map_of(pairs.drop_last()).insert(pairs.last().0, pairs.last().1)
    }
}

/// The pairs after `key` is given `value`: in place where the key is there
/// already, at the end where it is new.
pub open spec fn with_pair<T>(pairs: Seq<(Seq<char>, T)>, key: Seq<char>, value: T) -> Seq<
    (Seq<char>, T),
> {
    let at = position(pairs, key);
    if 0 <= at < pairs.len() {
        pairs.update(at, (key, value))
    } else {
        pairs.push((key, value))
    }
}

/// `position` is the least index that holds `key`, and the length where none does.
pub proof fn lemma_position<T>(pairs: Seq<(Seq<char>, T)>, key: Seq<char>)
    ensures
        0 <= position(pairs, key) <= pairs.len(),
        forall|j: int| 0 <= j < position(pairs, key) ==> pairs[j].0 != key,
        position(pairs, key) < pairs.len() ==> pairs[position(pairs, key)].0 == key,
    decreases pairs.len(),
{
    if pairs.len() == 0 || pairs[0].0 == key {
    } else {
        let rest = pairs.drop_first();
        lemma_position(rest, key);
        assert forall|j: int| 0 <= j < position(pairs, key) implies pairs[j].0 != key by {
            if j > 0 {
                assert(pairs[j] == rest[j - 1]);
            }
        }
        if position(pairs, key) < pairs.len() {
            assert(pairs[position(pairs, key)] == rest[position(rest, key)]);
        }
    }
}

/// The keys of `map_of` are the keys of the pairs; there are finitely many.
pub proof fn lemma_map_of_keys<T>(pairs: Seq<(Seq<char>, T)>)
    ensures
        map_of(pairs).dom().finite(),
        forall|k: Seq<char>| #[trigger]
            map_of(pairs).contains_key(k) <==> position(pairs, k) < pairs.len(),
    decreases pairs.len(),
{
    if pairs.len() > 0 {
        let front = pairs.drop_last();
        lemma_map_of_keys(front);
        assert forall|k: Seq<char>| #[trigger]
            map_of(pairs).contains_key(k) <==> position(pairs, k) < pairs.len() by {
            lemma_position(pairs, k);
            lemma_position(front, k);
            let p = position(pairs, k);
            let q = position(front, k);
            if q < front.len() {
                assert(pairs[q] == front[q]);
            }
            if p < front.len() {
                assert(pairs[p] == front[p]);
            }
        }
    }
}

/// With distinct keys, each pair's key is mapped to that pair's value.
pub proof fn lemma_map_of_value<T>(pairs: Seq<(Seq<char>, T)>, i: int)
    requires
        distinct_keys(pairs),
        0 <= i < pairs.len(),
    ensures
        map_of(pairs).contains_key(pairs[i].0),
        map_of(pairs)[pairs[i].0] == pairs[i].1,
    decreases pairs.len(),
{
    let front = pairs.drop_last();
    if i < pairs.len() - 1 {
        assert(distinct_keys(front)) by {
            assert forall|a: int, b: int| 0 <= a < b < front.len() implies front[a].0
                != front[b].0 by {
                assert(front[a] == pairs[a] && front[b] == pairs[b]);
            }
        }
        lemma_map_of_value(front, i);
        assert(front[i] == pairs[i]);
    }
}

/// With distinct keys, the map has as many keys as there are pairs.
pub proof fn lemma_map_of_len<T>(pairs: Seq<(Seq<char>, T)>)
    requires
        distinct_keys(pairs),
    ensures
        map_of(pairs).dom().finite(),
        map_of(pairs).dom().len() == pairs.len(),
    decreases pairs.len(),
{
    lemma_map_of_keys(pairs);
    if pairs.len() > 0 {
        let front = pairs.drop_last();
        assert(distinct_keys(front)) by {
            assert forall|a: int, b: int| 0 <= a < b < front.len() implies front[a].0
                != front[b].0 by {
                assert(front[a] == pairs[a] && front[b] == pairs[b]);
            }
        }
        lemma_map_of_len(front);
        lemma_map_of_keys(front);
        lemma_position(front, pairs.last().0);
        let q = position(front, pairs.last().0);
        if q < front.len() {
            assert(front[q] == pairs[q]);
        }
        assert(!map_of(front).contains_key(pairs.last().0));
    }
}

/// Giving `key` a `value` keeps the keys distinct and inserts into the map.
pub proof fn lemma_with_pair<T>(pairs: Seq<(Seq<char>, T)>, key: Seq<char>, value: T)
    requires
        distinct_keys(pairs),
    ensures
        distinct_keys(with_pair(pairs, key, value)),
        map_of(with_pair(pairs, key, value)) == map_of(pairs).insert(key, value),
    decreases pairs.len(),
{
    lemma_position(pairs, key);
    let at = position(pairs, key);
    let after = with_pair(pairs, key, value);
    if at < pairs.len() {
        assert(distinct_keys(after)) by {
            assert forall|a: int, b: int| 0 <= a < b < after.len() implies after[a].0
                != after[b].0 by {
                assert(after[a].0 == pairs[a].0 && after[b].0 == pairs[b].0);
            }
        }
        let front = pairs.drop_last();
        if at == pairs.len() - 1 {
            assert(after.drop_last() =~= front);
            assert(map_of(after) =~= map_of(pairs).insert(key, value));
        } else {
            assert(distinct_keys(front)) by {
                assert forall|a: int, b: int| 0 <= a < b < front.len() implies front[a].0
                    != front[b].0 by {
                    assert(front[a] == pairs[a] && front[b] == pairs[b]);
                }
            }
            lemma_position(front, key);
            assert(front[at] == pairs[at]);
            assert(position(front, key) == at) by {
                let q = position(front, key);
                if q < at {
                    assert(front[q] == pairs[q]);
                }
            }
            lemma_with_pair(front, key, value);
            assert(after.drop_last() =~= with_pair(front, key, value));
            assert(after.last() == pairs.last());
            assert(pairs.last().0 != key);
            assert(map_of(after) =~= map_of(pairs).insert(key, value));
        }
    } else {
        assert(after.drop_last() =~= pairs);
        assert(distinct_keys(after)) by {
            assert forall|a: int, b: int| 0 <= a < b < after.len() implies after[a].0
                != after[b].0 by {
                if b < pairs.len() {
                    assert(after[a] == pairs[a] && after[b] == pairs[b]);
                } else {
                    assert(after[a] == pairs[a]);
                }
            }
        }
    }
}

/// The pairs that are left when `pairs` are inserted one after another into an
/// empty store.
pub open spec fn gathered<T>(pairs: Seq<(Seq<char>, T)>) -> Seq<(Seq<char>, T)>
    decreases pairs.len(),
{
    if pairs.len() == 0 {
        Seq::empty()
    } else {
        with_pair(gathered(pairs.drop_last()), pairs.last().0, pairs.last().1)
    }
}

/// Gathering keeps the keys distinct and builds the same map as the pairs do.
pub proof fn lemma_gathered<T>(pairs: Seq<(Seq<char>, T)>)
    ensures
        distinct_keys(gathered(pairs)),
        map_of(gathered(pairs)) == map_of(pairs),
    decreases pairs.len(),
{
    if pairs.len() > 0 {
        lemma_gathered(pairs.drop_last());
        lemma_with_pair(gathered(pairs.drop_last()), pairs.last().0, pairs.last().1);
    }
}

/// Pairs whose keys are distinct are gathered as they stand.
pub proof fn lemma_gathered_distinct<T>(pairs: Seq<(Seq<char>, T)>)
    requires
        distinct_keys(pairs),
    ensures
        gathered(pairs) == pairs,
    decreases pairs.len(),
{
    if pairs.len() > 0 {
        let front = pairs.drop_last();
        assert(distinct_keys(front)) by {
            assert forall|a: int, b: int| 0 <= a < b < front.len() implies front[a].0
                != front[b].0 by {
                assert(front[a] == pairs[a] && front[b] == pairs[b]);
            }
        }
        lemma_gathered_distinct(front);
        lemma_position(front, pairs.last().0);
        let q = position(front, pairs.last().0);
        if q < front.len() {
            assert(front[q] == pairs[q]);
        }
        assert(front.push(pairs.last()) =~= pairs);
    }
}

/// A map from string keys to values of type `T`.
///
/// It keeps its entries in the order in which their keys were first inserted;
/// no key occurs twice.
#[derive(Debug)]
pub struct Store<T> {
    entries: Vec<Entry<T>>,
}

impl<T> View for Store<T> {
    type V = Map<Seq<char>, T>;

    closed spec fn view(&self) -> Map<Seq<char>, T> {
        map_of(self.pairs())
    }
}

impl<T> Store<T> {
    #[verifier::type_invariant]
    closed spec fn keys_are_distinct(&self) -> bool {
        distinct_keys(pairs_of(self.entries@))
    }

    /// The entries as pairs of key and value, in the order the store keeps them.
    pub closed spec fn pairs(&self) -> Seq<(Seq<char>, T)> {
        pairs_of(self.entries@)
    }

    /// The view is the map that the pairs build.
    pub proof fn lemma_view(&self)
        ensures
            self@ == map_of(self.pairs()),
    {
    }

    /// A store without entries.
    pub fn new() -> (store: Store<T>)
        ensures
            store.pairs() == Seq::<(Seq<char>, T)>::empty(),
            store@ == Map::<Seq<char>, T>::empty(),
    {
        let store = Store { entries: Vec::new() };
        assert(store.pairs() =~= Seq::<(Seq<char>, T)>::empty());
        store
    }

    /// The number of keys.
    pub fn len(&self) -> (n: usize)
        ensures
            n == self.pairs().len(),
            self@.dom().finite(),
            n == self@.dom().len(),
            distinct_keys(self.pairs()),
    {
        proof {
            use_type_invariant(self);
            lemma_map_of_len(self.pairs());
        }
        self.entries.len()
    }

    /// Whether the store has no key.
    pub fn is_empty(&self) -> (b: bool)
        ensures
            b == (self.pairs().len() == 0),
            b == (self@ == Map::<Seq<char>, T>::empty()),
    {
        proof {
            use_type_invariant(self);
            lemma_map_of_len(self.pairs());
            if self.pairs().len() == 0 {
                assert(self@ =~= Map::<Seq<char>, T>::empty());
            }
        }
        self.entries.len() == 0
    }

    /// The entries, in the order the store keeps them.
    pub fn entries(&self) -> (entries: &Vec<Entry<T>>)
        ensures
            pairs_of(entries@) == self.pairs(),
            distinct_keys(self.pairs()),
    {
        proof {
            use_type_invariant(self);
        }
        &self.entries
    }

    /// The entries, in the order the store kept them.
    pub fn into_entries(self) -> (entries: Vec<Entry<T>>)
        ensures
            pairs_of(entries@) == self.pairs(),
            distinct_keys(self.pairs()),
    {
        proof {
            use_type_invariant(&self);
        }
        self.entries
    }

    /// Where `key` stands among the entries, or their number if it is not there.
    fn find_key(&self, key: &String) -> (at: usize)
        ensures
            at == position(self.pairs(), key@),
            at <= self.pairs().len(),
    {
        let mut at: usize = 0;
        while at < self.entries.len() && !(self.entries[at].key == *key)
            invariant
                at <= self.entries.len(),
                forall|j: int| 0 <= j < at ==> self.pairs()[j].0 != key@,
            decreases self.entries.len() - at,
        {
            at += 1;
        }
        proof {
            lemma_position(self.pairs(), key@);
            let p = position(self.pairs(), key@);
            if at < self.entries.len() {
                assert(self.pairs()[at as int].0 == key@);
            }
        }
        at
    }

    /// The value of `key`, if the store has the key.
    pub fn get(&self, key: &str) -> (value: Option<&T>)
        ensures
            match value {
                Some(v) => self@.contains_key(key@) && *v == self@[key@],
                None => !self@.contains_key(key@),
            },
    {
        let owned = String::from_str(key);
        let at = self.find_key(&owned);
        proof {
            use_type_invariant(self);
            lemma_position(self.pairs(), key@);
            lemma_map_of_keys(self.pairs());
        }
        if at < self.entries.len() {
            proof {
                lemma_map_of_value(self.pairs(), at as int);
            }
            Some(&self.entries[at].value)
        } else {
            None
        }
    }

    /// Whether the store has `key`.
    pub fn contains_key(&self, key: &str) -> (b: bool)
        ensures
            b == self@.contains_key(key@),
    {
        self.get(key).is_some()
    }

    /// Gives `key` the value `value`, and returns the value it had before. A
    /// key that was there keeps its place; a new key goes to the end.
    pub fn insert(&mut self, key: String, value: T) -> (before: Option<T>)
        ensures
            final(self).pairs() == with_pair(old(self).pairs(), key@, value),
            final(self)@ == old(self)@.insert(key@, value),
            before == if old(self)@.contains_key(key@) {
                Some(old(self)@[key@])
            } else {
                None::<T>
            },
    {
        let at = self.find_key(&key);
        proof {
            use_type_invariant(&*self);
            lemma_position(self.pairs(), key@);
            lemma_map_of_keys(self.pairs());
            lemma_with_pair(self.pairs(), key@, value);
        }
        let ghost before_pairs = self.pairs();
        let mut entries: Vec<Entry<T>> = Vec::new();
        std::mem::swap(&mut self.entries, &mut entries);
        let before = if at < entries.len() {
            proof {
                lemma_map_of_value(before_pairs, at as int);
            }
            let previous = entries.remove(at);
            entries.insert(at, Entry { key, value });
            Some(previous.value)
        } else {
            entries.push(Entry { key, value });
            None
        };
        proof {
            assert(pairs_of(entries@) =~= with_pair(before_pairs, key@, value));
        }
        self.entries = entries;
        before
    }
}

} // verus!
