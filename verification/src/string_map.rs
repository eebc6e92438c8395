//! A map from strings to values that remembers the order in which its keys came.
use vstd::prelude::*;

verus! {

/// A map from strings to values.
///
/// The keys stand in the order in which they first came, no key stands twice, and the value of a
/// key stands at the same place as the key.
#[derive(Debug)]
pub struct StringMap<V> {
    keys: Vec<String>,
    values: Vec<V>,
}

/// The texts of some strings.
pub open spec fn texts(strings: Seq<String>) -> Seq<Seq<char>> {
    strings.map_values(|string: String| string@)
}

/// The map that takes the `i`th key to the `i`th value.
pub open spec fn zip_map<V>(keys: Seq<Seq<char>>, values: Seq<V>) -> Map<Seq<char>, V> {
    Map::new(|key: Seq<char>| keys.contains(key), |key: Seq<char>| values[keys.index_of(key)])
}

impl<V> View for StringMap<V> {
    type V = Map<Seq<char>, V>;

    open spec fn view(&self) -> Map<Seq<char>, V> {
        zip_map(self.keys(), self.values())
    }
}

/// Changing the value of one key changes the map at that key alone.
pub proof fn lemma_zip_update<V>(keys: Seq<Seq<char>>, values: Seq<V>, i: int, value: V)
    requires
        keys.no_duplicates(),
        keys.len() == values.len(),
        0 <= i < keys.len(),
    ensures
        zip_map(keys, values.update(i, value)) == zip_map(keys, values).insert(keys[i], value),
{
    assert(keys.contains(keys[i]));
    assert(zip_map(keys, values.update(i, value)) =~= zip_map(keys, values).insert(keys[i], value));
}

/// A new key at the end adds one binding.
proof fn lemma_zip_push<V>(keys: Seq<Seq<char>>, values: Seq<V>, key: Seq<char>, value: V)
    requires
        keys.no_duplicates(),
        keys.len() == values.len(),
        !keys.contains(key),
    ensures
        keys.push(key).no_duplicates(),
        zip_map(keys.push(key), values.push(value)) == zip_map(keys, values).insert(key, value),
{
    let longer = keys.push(key);
    assert forall|other: Seq<char>| longer.contains(other) <==> keys.contains(other) || other
        == key by {
        if keys.contains(other) {
            assert(longer[keys.index_of(other)] == other);
        }
        assert(longer[keys.len() as int] == key);
    }
    assert forall|other: Seq<char>| keys.contains(other) implies longer.index_of(other)
        == keys.index_of(other) by {
        assert(longer[keys.index_of(other)] == other);
    }
    assert(longer.contains(key));
    assert(zip_map(longer, values.push(value)) =~= zip_map(keys, values).insert(key, value));
}

/// Taking a key out takes its binding out.
proof fn lemma_zip_remove<V>(keys: Seq<Seq<char>>, values: Seq<V>, i: int)
    requires
        keys.no_duplicates(),
        keys.len() == values.len(),
        0 <= i < keys.len(),
    ensures
        keys.remove(i).no_duplicates(),
        zip_map(keys.remove(i), values.remove(i)) == zip_map(keys, values).remove(keys[i]),
{
    let shorter = keys.remove(i);
    assert forall|other: Seq<char>| shorter.contains(other) <==> keys.contains(other) && other
        != keys[i] by {
        if shorter.contains(other) {
            let at = shorter.index_of(other);
            assert(keys[if at < i { at } else { at + 1 }] == other);
        }
        if keys.contains(other) && other != keys[i] {
            let at = keys.index_of(other);
            assert(shorter[if at < i { at } else { at - 1 }] == other);
        }
    }
    assert forall|other: Seq<char>| shorter.contains(other) implies values.remove(
        i,
    )[#[trigger] shorter.index_of(other)] == values[keys.index_of(other)] by {
        let at = shorter.index_of(other);
        assert(keys[if at < i { at } else { at + 1 }] == other);
    }
    assert(zip_map(shorter, values.remove(i)) =~= zip_map(keys, values).remove(keys[i]));
}

impl<V> StringMap<V> {
    #[verifier::type_invariant]
    closed spec fn well_formed(&self) -> bool {
        &&& texts(self.keys@).no_duplicates()
        &&& self.keys@.len() == self.values@.len()
    }

    /// The keys, in the order in which they came.
    pub closed spec fn keys(&self) -> Seq<Seq<char>> {
        texts(self.keys@)
    }

    /// The values, in the order of their keys.
    pub closed spec fn values(&self) -> Seq<V> {
        self.values@
    }

    /// Where a key stands, its value stands too.
    pub proof fn lemma_index(&self, key: Seq<char>)
        requires
            self@.contains_key(key),
        ensures
            0 <= self.keys().index_of(key) < self.keys().len(),
            self.keys()[self.keys().index_of(key)] == key,
    {
    }

    /// The empty map.
    pub fn new() -> (map: StringMap<V>)
        ensures
            map@ == Map::<Seq<char>, V>::empty(),
            map.keys() == Seq::<Seq<char>>::empty(),
    {
        let map = StringMap { keys: Vec::new(), values: Vec::new() };
        assert(map.keys() =~= Seq::<Seq<char>>::empty());
        assert(map@ =~= Map::<Seq<char>, V>::empty());
        map
    }

    /// The number of keys.
    pub fn len(&self) -> (len: usize)
        ensures
            len == self.keys().len(),
            len == self.values().len(),
            len == self@.dom().len(),
            self.keys().no_duplicates(),
    {
        proof {
            use_type_invariant(self);
            self.keys().unique_seq_to_set();
            assert(self@.dom() =~= self.keys().to_set());
        }
        self.keys.len()
    }

    /// Whether there is no key.
    pub fn is_empty(&self) -> (empty: bool)
        ensures
            empty == (self.keys().len() == 0),
            empty == (self@ == Map::<Seq<char>, V>::empty()),
    {
        proof {
            if self.keys().len() == 0 {
                assert(self@ =~= Map::<Seq<char>, V>::empty());
            } else {
                assert(self.keys().contains(self.keys()[0]));
                assert(self@.contains_key(self.keys()[0]));
            }
        }
        self.keys.len() == 0
    }

    /// The key at place `i`.
    pub fn key_at(&self, i: usize) -> (key: &String)
        requires
            i < self.keys().len(),
        ensures
            key@ == self.keys()[i as int],
    {
        &self.keys[i]
    }

    /// The value at place `i`.
    pub fn value_at(&self, i: usize) -> (value: &V)
        requires
            i < self.keys().len(),
        ensures
            *value == self.values()[i as int],
            self@.contains_key(self.keys()[i as int]),
            *value == self@[self.keys()[i as int]],
    {
        proof {
            use_type_invariant(self);
            assert(self.keys().contains(self.keys()[i as int]));
        }
        &self.values[i]
    }

    /// The place at which `key` stands, if it stands anywhere.
    pub fn position(&self, key: &str) -> (place: Option<usize>)
        ensures
            self.keys().no_duplicates(),
            self.keys().len() == self.values().len(),
            match place {
                Some(i) => i < self.keys().len() && self.keys()[i as int] == key@,
                None => !self@.contains_key(key@),
            },
    {
        proof {
            use_type_invariant(self);
        }
        let wanted = key.to_owned();
        let mut i: usize = 0;
        while i < self.keys.len()
            invariant
                wanted@ == key@,
                self.well_formed(),
                i <= self.keys@.len(),
                forall|j: int| 0 <= j < i ==> (#[trigger] self.keys@[j])@ != key@,
            decreases self.keys@.len() - i,
        {
            if self.keys[i] == wanted {
                return Some(i);
            }
            i = i + 1;
        }
        None
    }

    /// Whether `key` has a value.
    pub fn contains_key(&self, key: &str) -> (found: bool)
        ensures
            found == self@.contains_key(key@),
    {
        match self.position(key) {
            Some(i) => {
                assert(self.keys().contains(self.keys()[i as int]));
                true
            },
            None => false,
        }
    }

    /// The value of `key`, if it has one.
    pub fn get(&self, key: &str) -> (value: Option<&V>)
        ensures
            match value {
                Some(v) => self@.contains_key(key@) && *v == self@[key@],
                None => !self@.contains_key(key@),
            },
    {
        match self.position(key) {
            Some(i) => Some(self.value_at(i)),
            None => None,
        }
    }

    /// Mutable access to the value of `key`, if it has one.
    pub fn get_mut(&mut self, key: &str) -> (value: Option<&mut V>)
        ensures
            match value {
                Some(v) => {
                    &&& old(self)@.contains_key(key@)
                    &&& *v == old(self)@[key@]
                    &&& final(self)@ == old(self)@.insert(key@, *final(v))
                    &&& final(self).keys() == old(self).keys()
                    &&& final(self).values() == old(self).values().update(
                        old(self).keys().index_of(key@),
                        *final(v),
                    )
                },
                None => !old(self)@.contains_key(key@) && *final(self) == *old(self),
            },
    {
        proof {
            use_type_invariant(&*self);
        }
        match self.position(key) {
            Some(i) => {
                assert(self.keys().contains(self.keys()[i as int]));
                proof {
                    let keys = self.keys();
                    let values = self.values();
                    assert forall|value: V|
                        zip_map(keys, #[trigger] values.update(i as int, value)) == zip_map(
                            keys,
                            values,
                        ).insert(key@, value) by {
                        lemma_zip_update(keys, values, i as int, value);
                    }
                }
                Some(&mut self.values[i])
            },
            None => None,
        }
    }

    /// Gives `key` the value `value`, in place of the one it has.
    pub fn insert(&mut self, key: String, value: V)
        ensures
            final(self)@ == old(self)@.insert(key@, value),
            final(self).keys() == (if old(self)@.contains_key(key@) {
                old(self).keys()
            } else {
                old(self).keys().push(key@)
            }),
            old(self)@.contains_key(key@) ==> final(self).values() == old(self).values().update(
                old(self).keys().index_of(key@),
                value,
            ),
            !old(self)@.contains_key(key@) ==> final(self).values() == old(self).values().push(
                value,
            ),
            final(self).keys().no_duplicates(),
            final(self).keys().len() == final(self).values().len(),
    {
        proof {
            use_type_invariant(&*self);
        }
        match self.position(key.as_str()) {
            Some(i) => {
                proof {
                    lemma_zip_update(self.keys(), self.values(), i as int, value);
                    assert(self.keys().contains(self.keys()[i as int]));
                }
                self.values[i] = value;
            },
            None => {
                proof {
                    lemma_zip_push(self.keys(), self.values(), key@, value);
                }
                let mut whole = StringMap::new();
                std::mem::swap(self, &mut whole);
                let StringMap { mut keys, mut values } = whole;
                let ghost before = texts(keys@);
                let ghost name = key@;
                keys.push(key);
                values.push(value);
                assert(texts(keys@) =~= before.push(name));
                *self = StringMap { keys, values };
            },
        }
    }

    /// Takes `key` out, and hands out the value it had.
    pub fn remove(&mut self, key: &str) -> (value: Option<V>)
        ensures
            final(self)@ == old(self)@.remove(key@),
            match value {
                Some(v) => {
                    &&& old(self)@.contains_key(key@)
                    &&& v == old(self)@[key@]
                    &&& final(self).keys() == old(self).keys().remove(
                        old(self).keys().index_of(key@),
                    )
                },
                None => !old(self)@.contains_key(key@) && final(self).keys() == old(self).keys(),
            },
            final(self).keys().no_duplicates(),
    {
        proof {
            use_type_invariant(&*self);
        }
        match self.position(key) {
            Some(i) => {
                proof {
                    lemma_zip_remove(self.keys(), self.values(), i as int);
                    assert(self.keys().contains(self.keys()[i as int]));
                }
                let mut whole = StringMap::new();
                std::mem::swap(self, &mut whole);
                let StringMap { mut keys, mut values } = whole;
                let ghost before = texts(keys@);
                keys.remove(i);
                let value = values.remove(i);
                assert(texts(keys@) =~= before.remove(i as int));
                *self = StringMap { keys, values };
                Some(value)
            },
            None => {
                assert(self@ =~= self@.remove(key@));
                None
            },
        }
    }
}

impl<V: Clone> Clone for StringMap<V> {
    fn clone(&self) -> (copy: Self)
        ensures
            copy.keys() == self.keys(),
            self.values().len() == self.keys().len(),
            copy.values().len() == self.values().len(),
            forall|i: int|
                0 <= i < self.values().len() ==> cloned::<V>(
                    #[trigger] self.values()[i],
                    copy.values()[i],
                ),
    {
        proof {
            use_type_invariant(self);
        }
        let keys = self.keys.clone();
        let values = self.values.clone();
        assert(texts(keys@) =~= texts(self.keys@));
        StringMap { keys, values }
    }
}

} // verus!
