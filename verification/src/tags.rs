//! Tags: a mapping from string keys to string values.
//!
//! The mapping is held as a list of pairs in which no key occurs twice.

use vstd::prelude::*;
use vstd::std_specs::cmp::PartialEqSpecImpl;
use vstd::set_lib::lemma_subset_equality;

verus! {

/// The keys of a list of pairs, in its order.
pub open spec fn keys_of(entries: Seq<(String, String)>) -> Seq<Seq<char>> {
    entries.map_values(|e: (String, String)| e.0@)
}

/// The mapping that a list of pairs without a repeated key stands for.
pub open spec fn map_of(entries: Seq<(String, String)>) -> Map<Seq<char>, Seq<char>> {
    Map::new(
        |k: Seq<char>| keys_of(entries).contains(k),
        |k: Seq<char>| entries[keys_of(entries).index_of(k)].1@,
    )
}

/// Every pair of the list is a pair of the mapping, and the mapping has as
/// many keys as the list has pairs.
pub proof fn lemma_map_of(entries: Seq<(String, String)>)
    requires
        keys_of(entries).no_duplicates(),
    ensures
        forall|i: int|
            0 <= i < entries.len() ==> #[trigger] map_of(entries).contains_pair(
                entries[i].0@,
                entries[i].1@,
            ),
        map_of(entries).dom().finite(),
        map_of(entries).dom().len() == entries.len(),
{
    let keys = keys_of(entries);
    assert forall|i: int| 0 <= i < entries.len() implies #[trigger] map_of(entries).contains_pair(
        entries[i].0@,
        entries[i].1@,
    ) by {
        assert(keys[i] == entries[i].0@);
        assert(keys.contains(entries[i].0@));
        let j = keys.index_of(entries[i].0@);
        assert(keys[j] == keys[i]);
    }
    assert(map_of(entries).dom() =~= keys.to_set());
    keys.unique_seq_to_set();
    vstd::seq_lib::seq_to_set_is_finite(keys);
}

proof fn lemma_push(entries: Seq<(String, String)>, key: String, value: String)
    requires
        keys_of(entries).no_duplicates(),
        !keys_of(entries).contains(key@),
    ensures
        keys_of(entries.push((key, value))).no_duplicates(),
        map_of(entries.push((key, value))) == map_of(entries).insert(key@, value@),
{
    let after = entries.push((key, value));
    let keys = keys_of(entries);
    let keys_after = keys_of(after);
    assert(keys_after =~= keys.push(key@));
    assert forall|i: int, j: int|
        0 <= i < keys_after.len() && 0 <= j < keys_after.len() && i != j implies keys_after[i]
        != keys_after[j] by {
        if i < keys.len() && j < keys.len() {
            assert(keys[i] != keys[j]);
        } else if i < keys.len() {
            assert(keys[i] == keys_after[i]);
        } else {
            assert(keys[j] == keys_after[j]);
        }
    }
    lemma_map_of(entries);
    lemma_map_of(after);
    let want = map_of(entries).insert(key@, value@);
    assert forall|k: Seq<char>| map_of(after).dom().contains(k) implies want.dom().contains(
        k,
    ) && want[k] == map_of(after)[k] by {
        let i = keys_after.index_of(k);
        assert(keys_after[i] == k);
        assert(map_of(after).contains_pair(after[i].0@, after[i].1@));
        if i < keys.len() {
            assert(keys[i] == k);
            assert(map_of(entries).contains_pair(entries[i].0@, entries[i].1@));
        }
    }
    assert forall|k: Seq<char>| want.dom().contains(k) implies map_of(after).dom().contains(
        k,
    ) by {
        if k == key@ {
            assert(keys_after[keys.len() as int] == k);
        } else {
            let i = keys.index_of(k);
            assert(keys[i] == k);
            assert(keys_after[i] == k);
        }
    }
    assert(map_of(after) =~= want);
}

proof fn lemma_update(entries: Seq<(String, String)>, at: int, key: String, value: String)
    requires
        keys_of(entries).no_duplicates(),
        0 <= at < entries.len(),
        entries[at].0@ == key@,
    ensures
        keys_of(entries.update(at, (key, value))).no_duplicates(),
        map_of(entries.update(at, (key, value))) == map_of(entries).insert(key@, value@),
{
    let after = entries.update(at, (key, value));
    let keys = keys_of(entries);
    assert(keys_of(after) =~= keys);
    lemma_map_of(entries);
    lemma_map_of(after);
    let want = map_of(entries).insert(key@, value@);
    assert(keys[at] == key@);
    assert forall|k: Seq<char>| map_of(after).dom().contains(k) implies want.dom().contains(
        k,
    ) && want[k] == map_of(after)[k] by {
        let i = keys.index_of(k);
        assert(keys[i] == k);
        assert(map_of(after).contains_pair(after[i].0@, after[i].1@));
        assert(map_of(entries).contains_pair(entries[i].0@, entries[i].1@));
    }
    assert(map_of(after) =~= want);
}

/// A mapping from string keys to string values.
#[derive(Debug)]
pub struct Tags {
    entries: Vec<(String, String)>,
}

impl View for Tags {
    type V = Map<Seq<char>, Seq<char>>;

    closed spec fn view(&self) -> Map<Seq<char>, Seq<char>> {
        map_of(self.entries@)
    }
}

impl Tags {
    #[verifier::type_invariant]
    spec fn distinct_keys(&self) -> bool {
        keys_of(self.entries@).no_duplicates()
    }

    /// The empty mapping.
    pub fn new() -> (r: Tags)
        ensures
            r@ == Map::<Seq<char>, Seq<char>>::empty(),
    {
        let r = Tags { entries: Vec::new() };
        assert(r@ =~= Map::<Seq<char>, Seq<char>>::empty());
        r
    }

    /// Where the pair of `key` stands in the list.
    fn position(&self, key: &String) -> (r: Option<usize>)
        ensures
            match r {
                Some(i) => i < self.entries@.len() && self.entries@[i as int].0@ == key@,
                None => !self@.contains_key(key@),
            },
    {
        let mut i: usize = 0;
        while i < self.entries.len()
            invariant
                i <= self.entries@.len(),
                forall|j: int| 0 <= j < i ==> self.entries@[j].0@ != key@,
            decreases self.entries@.len() - i,
        {
            if self.entries[i].0 == *key {
                return Some(i);
            }
            i = i + 1;
        }
        proof {
            if keys_of(self.entries@).contains(key@) {
                let j = keys_of(self.entries@).index_of(key@);
                assert(keys_of(self.entries@)[j] == self.entries@[j].0@);
            }
        }
        None
    }

    /// Maps `key` to `value`, and returns what `key` was mapped to before.
    pub fn insert(&mut self, key: String, value: String) -> (r: Option<String>)
        ensures
            final(self)@ == old(self)@.insert(key@, value@),
            match r {
                Some(before) => old(self)@.contains_key(key@) && before@ == old(self)@[key@],
                None => !old(self)@.contains_key(key@),
            },
    {
        proof {
            use_type_invariant(&*self);
            lemma_map_of(self.entries@);
        }
        let found = self.position(&key);
        let mut entries: Vec<(String, String)> = Vec::new();
        assert(keys_of(entries@) =~= Seq::<Seq<char>>::empty());
        std::mem::swap(&mut self.entries, &mut entries);
        let ghost held = entries@;
        let before: Option<String> = match found {
            Some(i) => {
                proof {
                    lemma_update(held, i as int, key, value);
                    assert(map_of(held).contains_pair(held[i as int].0@, held[i as int].1@));
                }
                entries.push((key, value));
                let replaced = entries.swap_remove(i);
                proof {
                    assert(entries@ =~= held.update(i as int, (key, value)));
                }
                Some(replaced.1)
            },
            None => {
                proof {
                    lemma_push(held, key, value);
                }
                entries.push((key, value));
                None
            },
        };
        std::mem::swap(&mut self.entries, &mut entries);
        before
    }

    /// What `key` is mapped to.
    pub fn get(&self, key: &str) -> (r: Option<&String>)
        ensures
            match r {
                Some(value) => self@.contains_key(key@) && value@ == self@[key@],
                None => !self@.contains_key(key@),
            },
    {
        proof {
            use_type_invariant(self);
            lemma_map_of(self.entries@);
        }
        let owned: String = key.to_owned();
        match self.position(&owned) {
            Some(i) => {
                assert(self@.contains_pair(self.entries@[i as int].0@, self.entries@[i as int].1@));
                Some(&self.entries[i].1)
            },
            None => None,
        }
    }

    /// Whether `key` is mapped to anything.
    pub fn contains_key(&self, key: &str) -> (r: bool)
        ensures
            r == self@.contains_key(key@),
    {
        self.get(key).is_some()
    }

    /// The number of keys.
    pub fn len(&self) -> (r: usize)
        ensures
            r == self@.dom().len(),
            self@.dom().finite(),
    {
        proof {
            use_type_invariant(self);
            lemma_map_of(self.entries@);
        }
        self.entries.len()
    }

    /// Whether there is no key.
    pub fn is_empty(&self) -> (r: bool)
        ensures
            r == (self@.dom().len() == 0),
    {
        self.len() == 0
    }

    /// The pairs of the mapping, each once, in the order in which they are
    /// held.
    pub closed spec fn listing(&self) -> Seq<(Seq<char>, Seq<char>)> {
        self.entries@.map_values(|e: (String, String)| (e.0@, e.1@))
    }

    /// The pairs of the mapping, each once, in the order of `listing`.
    pub fn entries(&self) -> (r: &Vec<(String, String)>)
        ensures
            keys_of(r@).no_duplicates(),
            map_of(r@) == self@,
            r@.map_values(|e: (String, String)| (e.0@, e.1@)) == self.listing(),
    {
        proof {
            use_type_invariant(self);
        }
        &self.entries
    }

    /// Whether every pair of `self` is a pair of `other`.
    fn within(&self, other: &Tags) -> (r: bool)
        ensures
            r == self@.submap_of(other@),
    {
        proof {
            use_type_invariant(self);
            lemma_map_of(self.entries@);
        }
        let mut i: usize = 0;
        while i < self.entries.len()
            invariant
                i <= self.entries@.len(),
                forall|j: int|
                    0 <= j < i ==> other@.contains_pair(
                        #[trigger] self.entries@[j].0@,
                        self.entries@[j].1@,
                    ),
                forall|j: int|
                    0 <= j < self.entries@.len() ==> #[trigger] self@.contains_pair(
                        self.entries@[j].0@,
                        self.entries@[j].1@,
                    ),
            decreases self.entries@.len() - i,
        {
            let found = other.position(&self.entries[i].0);
            let same: bool = match found {
                Some(at) => {
                    proof {
                        use_type_invariant(other);
                        lemma_map_of(other.entries@);
                        assert(other@.contains_pair(
                            other.entries@[at as int].0@,
                            other.entries@[at as int].1@,
                        ));
                    }
                    other.entries[at].1 == self.entries[i].1
                },
                None => false,
            };
            if !same {
                assert(self@.contains_pair(self.entries@[i as int].0@, self.entries@[i as int].1@));
                return false;
            }
            i = i + 1;
        }
        proof {
            assert forall|k: Seq<char>| self@.dom().contains(k) implies other@.dom().contains(k)
                && self@[k] == other@[k] by {
                let j = keys_of(self.entries@).index_of(k);
                assert(keys_of(self.entries@)[j] == k);
                assert(other@.contains_pair(self.entries@[j].0@, self.entries@[j].1@));
                assert(self@.contains_pair(self.entries@[j].0@, self.entries@[j].1@));
            }
        }
        true
    }
}

impl Clone for Tags {
    fn clone(&self) -> (r: Tags)
        ensures
            r@ == self@,
    {
        proof {
            use_type_invariant(self);
        }
        let mut entries: Vec<(String, String)> = Vec::new();
        let mut i: usize = 0;
        while i < self.entries.len()
            invariant
                i <= self.entries@.len(),
                entries@ == self.entries@.take(i as int),
            decreases self.entries@.len() - i,
        {
            let key: String = self.entries[i].0.clone();
            let value: String = self.entries[i].1.clone();
            entries.push((key, value));
            proof {
                assert(entries@ =~= self.entries@.take(i + 1));
            }
            i = i + 1;
        }
        proof {
            assert(entries@ =~= self.entries@);
        }
        Tags { entries }
    }
}

impl Default for Tags {
    fn default() -> (r: Tags)
        ensures
            r@ == Map::<Seq<char>, Seq<char>>::empty(),
    {
        Tags::new()
    }
}

impl PartialEq for Tags {
    fn eq(&self, other: &Tags) -> (r: bool) {
        let same_size: bool = self.len() == other.len();
        let within: bool = self.within(other);
        proof {
            if same_size && within {
                lemma_subset_equality(self@.dom(), other@.dom());
                assert(self@ =~= other@);
            }
        }
        same_size && within
    }
}

impl PartialEqSpecImpl for Tags {
    open spec fn obeys_eq_spec() -> bool {
        true
    }

    open spec fn eq_spec(&self, other: &Tags) -> bool {
        self@ == other@
    }
}

/// Adds every pair of `from` to `to`. Where both have a key, the value of
/// `from` takes the place of the value of `to`.
pub fn merge_tags(to: &mut Tags, from: Tags)
    ensures
        final(to)@ == old(to)@.union_prefer_right(from@),
        forall|k: Seq<char>| from@.contains_key(k) ==> final(to)@.contains_pair(k, from@[k]),
        forall|k: Seq<char>|
            old(to)@.contains_key(k) && !from@.contains_key(k) ==> final(to)@.contains_pair(
                k,
                old(to)@[k],
            ),
        forall|k: Seq<char>|
            final(to)@.contains_key(k) ==> old(to)@.contains_key(k) || from@.contains_key(k),
        from@.dom().is_empty() ==> final(to)@ == old(to)@,
{
    let entries = from.entries();
    let ghost start = to@;
    let mut i: usize = 0;
    proof {
        assert(keys_of(entries@.take(0)) =~= Seq::<Seq<char>>::empty());
        assert(start.union_prefer_right(map_of(entries@.take(0))) =~= start);
    }
    while i < entries.len()
        invariant
            i <= entries@.len(),
            keys_of(entries@).no_duplicates(),
            keys_of(entries@.take(i as int)).no_duplicates(),
            to@ == start.union_prefer_right(map_of(entries@.take(i as int))),
        decreases entries@.len() - i,
    {
        let key: String = entries[i].0.clone();
        let value: String = entries[i].1.clone();
        proof {
            let before = entries@.take(i as int);
            assert(keys_of(entries@)[i as int] == entries@[i as int].0@);
            assert(!keys_of(before).contains(key@)) by {
                if keys_of(before).contains(key@) {
                    let j = keys_of(before).index_of(key@);
                    assert(keys_of(before)[j] == keys_of(entries@)[j]);
                }
            }
            lemma_push(before, entries@[i as int].0, entries@[i as int].1);
            assert(before.push(entries@[i as int]) =~= entries@.take(i + 1));
            assert(start.union_prefer_right(map_of(before)).insert(key@, value@)
                =~= start.union_prefer_right(map_of(before).insert(key@, value@)));
        }
        to.insert(key, value);
        i = i + 1;
    }
    proof {
        assert(entries@.take(i as int) =~= entries@);
        if from@.dom().is_empty() {
            assert(start.union_prefer_right(from@) =~= start);
        }
    }
}

} // verus!
