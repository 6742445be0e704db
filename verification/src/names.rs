//! Maps from names, in the order in which the names were first inserted.
use ahash::AHashMap;
use vstd::prelude::*;

verus! {

/// `ahash::AHashMap`.
#[verifier::external_type_specification]
#[verifier::external_body]
#[verifier::reject_recursive_types(K)]
#[verifier::reject_recursive_types(V)]
#[verifier::reject_recursive_types(S)]
pub struct ExAHashMap<K, V, S>(AHashMap<K, V, S>);

/// `ahash::RandomState`, the hasher of an `AHashMap`.
#[verifier::external_type_specification]
#[verifier::external_body]
pub struct ExRandomState(ahash::RandomState);

/// What a hash map from strings holds, each key by its characters.
pub uninterp spec fn bindings(m: AHashMap<String, usize>) -> Map<Seq<char>, usize>;

/// `AHashMap::new`: a map that holds nothing.
#[verifier::external_body]
fn table_new() -> (m: AHashMap<String, usize>)
    ensures
        bindings(m) =~= Map::empty(),
{
    AHashMap::new()
}

/// `AHashMap::get`: the value that the map holds for a key.
#[verifier::external_body]
fn table_get(m: &AHashMap<String, usize>, key: &str) -> (r: Option<usize>)
    ensures
        r == bindings(*m).get(key@),
{
    m.get(key).copied()
}

/// `AHashMap::insert`: the key is bound to the value, and nothing else changes.
#[verifier::external_body]
fn table_insert(m: &mut AHashMap<String, usize>, key: String, value: usize)
    ensures
        bindings(*final(m)) == bindings(*old(m)).insert(key@, value),
{
    m.insert(key, value);
}

/// A map from names to values that remembers the order of its names.
pub struct NameMap<T> {
    index: AHashMap<String, usize>,
    entries: Vec<(String, T)>,
}

impl<T> View for NameMap<T> {
    type V = Map<Seq<char>, T>;

    closed spec fn view(&self) -> Map<Seq<char>, T> {
        Map::new(
            |name: Seq<char>| bindings(self.index).contains_key(name),
            |name: Seq<char>| self.entries@[bindings(self.index)[name] as int].1,
        )
    }
}

impl<T> NameMap<T> {
    /// The names in the order in which they were first inserted.
    pub closed spec fn names(self) -> Seq<Seq<char>> {
        Seq::new(self.entries@.len(), |i: int| self.entries@[i].0@)
    }

    /// The hash map leads from each name to its entry, and to no other.
    pub closed spec fn wf(self) -> bool {
        &&& forall|i: int|
            #![trigger self.entries@[i]]
            0 <= i < self.entries@.len() ==> bindings(self.index).contains_key(
                self.entries@[i].0@,
            ) && bindings(self.index)[self.entries@[i].0@] == i
        &&& forall|name: Seq<char>| #[trigger]
            bindings(self.index).contains_key(name) ==> bindings(self.index)[name]
                < self.entries@.len() && self.entries@[bindings(self.index)[name] as int].0@ == name
    }

    /// Every name stands once, and the names are the keys of the map.
    pub proof fn lemma_names(self)
        requires
            self.wf(),
        ensures
            self.names().no_duplicates(),
            forall|i: int| 0 <= i < self.names().len() ==> self@.contains_key(#[trigger] self.names()[i]),
            forall|name: Seq<char>| #[trigger]
                self@.contains_key(name) ==> self.names().contains(name),
            self.names().len() <= usize::MAX,
    {
        assert forall|i: int, j: int|
            0 <= i < self.names().len() && 0 <= j < self.names().len() && i
                != j implies self.names()[i] != self.names()[j] by {
            let a = self.entries@[i];
            let b = self.entries@[j];
        }
        assert forall|i: int| 0 <= i < self.names().len() implies self@.contains_key(
            #[trigger] self.names()[i],
        ) by {
            let a = self.entries@[i];
        }
        assert forall|name: Seq<char>| #[trigger] self@.contains_key(name) implies self.names().contains(
            name,
        ) by {
            assert(self.names()[bindings(self.index)[name] as int] == name);
        }
        assert(self.entries.len() == self.names().len());
    }

    /// A map without names.
    pub fn new() -> (r: Self)
        ensures
            r.wf(),
            r@ == Map::<Seq<char>, T>::empty(),
            r.names() == Seq::<Seq<char>>::empty(),
    {
        let r = NameMap { index: table_new(), entries: Vec::new() };
        assert(r@ =~= Map::<Seq<char>, T>::empty());
        assert(r.names() =~= Seq::<Seq<char>>::empty());
        r
    }

    /// The number of names.
    pub fn len(&self) -> (r: usize)
        requires
            self.wf(),
        ensures
            r == self.names().len(),
    {
        self.entries.len()
    }

    /// The value under a name.
    pub fn get(&self, name: &str) -> (r: Option<&T>)
        requires
            self.wf(),
        ensures
            self@.contains_key(name@) ==> r == Some(&self@[name@]),
            !self@.contains_key(name@) ==> r is None,
    {
        match table_get(&self.index, name) {
            Some(i) => Some(&self.entries[i].1),
            None => None,
        }
    }

    /// The position of a name in the order of the names.
    pub fn position(&self, name: &str) -> (r: Option<usize>)
        requires
            self.wf(),
        ensures
            r matches Some(i) ==> i < self.names().len() && self.names()[i as int] == name@,
            r is Some <==> self@.contains_key(name@),
    {
        table_get(&self.index, name)
    }

    /// Whether the map has a value under a name.
    pub fn contains_key(&self, name: &str) -> (r: bool)
        requires
            self.wf(),
        ensures
            r == self@.contains_key(name@),
    {
        table_get(&self.index, name).is_some()
    }

    /// The name at a position.
    pub fn name_at(&self, i: usize) -> (r: &String)
        requires
            self.wf(),
            i < self.names().len(),
        ensures
            r@ == self.names()[i as int],
            self@.contains_key(r@),
    {
        proof {
            self.lemma_names();
            assert(self@.contains_key(self.names()[i as int]));
        }
        &self.entries[i].0
    }

    /// The value under the name at a position.
    pub fn value_at(&self, i: usize) -> (r: &T)
        requires
            self.wf(),
            i < self.names().len(),
        ensures
            self@.contains_key(self.names()[i as int]),
            *r == self@[self.names()[i as int]],
    {
        proof {
            self.lemma_names();
            assert(self@.contains_key(self.names()[i as int]));
        }
        &self.entries[i].1
    }

    /// Binds a name to a value. A name that is already there keeps its place.
    pub fn insert(&mut self, name: String, value: T)
        requires
            old(self).wf(),
        ensures
            final(self).wf(),
            final(self)@ == old(self)@.insert(name@, value),
            final(self).names() == if old(self)@.contains_key(name@) {
                old(self).names()
            } else {
                old(self).names().push(name@)
            },
    {
        let ghost before = *self;
        let ghost text = name@;
        match table_get(&self.index, name.as_str()) {
            Some(i) => {
                self.entries.set(i, (name, value));
                assert(self.names() =~= before.names());
            },
            None => {
                table_insert(&mut self.index, name.clone(), self.entries.len());
                self.entries.push((name, value));
                assert(self.names() =~= before.names().push(text));
            },
        }
        assert forall|i: int|
            #![trigger self.entries@[i]]
            0 <= i < self.entries@.len() implies bindings(self.index).contains_key(
            self.entries@[i].0@,
        ) && bindings(self.index)[self.entries@[i].0@] == i by {
            if i < before.entries@.len() {
                let e = before.entries@[i];
                assert(bindings(before.index).contains_key(e.0@));
            }
        }
        assert(self@ =~= before@.insert(text, value));
    }
}

} // verus!
