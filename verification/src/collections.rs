//! Hash maps and sets of `hashbrown`, held behind wrappers whose contracts state their contents.

use vstd::prelude::*;

verus! {

/// A `hashbrown::HashMap` from pairs of indices to an index.
#[verifier::external_body]
pub struct PairIndex {
    map: hashbrown::HashMap<(usize, usize), usize>,
}

/// The entries a [`PairIndex`] holds.
pub uninterp spec fn pair_index_contents(index: PairIndex) -> Map<(usize, usize), usize>;

impl PairIndex {
    /// `hashbrown::HashMap::new`: a map with no entries.
    #[verifier::external_body]
    pub fn new() -> (index: PairIndex)
        ensures
            pair_index_contents(index).dom().is_empty(),
    {
        PairIndex { map: hashbrown::HashMap::new() }
    }

    /// `hashbrown::HashMap::get`: the value held for `key`, if any.
    #[verifier::external_body]
    pub fn get(&self, key: (usize, usize)) -> (found: Option<usize>)
        ensures
            found == pair_index_contents(*self).get(key),
    {
        self.map.get(&key).copied()
    }

    /// `hashbrown::HashMap::insert`: hold `value` for `key`, handing back the value it replaced.
    #[verifier::external_body]
    pub fn insert(&mut self, key: (usize, usize), value: usize) -> (previous: Option<usize>)
        ensures
            pair_index_contents(*final(self)) == pair_index_contents(*old(self)).insert(key, value),
            previous == pair_index_contents(*old(self)).get(key),
    {
        self.map.insert(key, value)
    }
}


/// A `hashbrown::HashMap` from pairs of indices to pairs of indices.
#[verifier::external_body]
pub struct PairMap {
    map: hashbrown::HashMap<(usize, usize), (usize, usize)>,
}

/// The entries a [`PairMap`] holds.
pub uninterp spec fn pair_map_contents(map: PairMap) -> Map<(usize, usize), (usize, usize)>;

impl PairMap {
    /// `hashbrown::HashMap::new`: a map with no entries.
    #[verifier::external_body]
    pub fn new() -> (map: PairMap)
        ensures
            pair_map_contents(map).dom().is_empty(),
    {
        PairMap { map: hashbrown::HashMap::new() }
    }

    /// `hashbrown::HashMap::get`: the value held for `key`, if any.
    #[verifier::external_body]
    pub fn get(&self, key: (usize, usize)) -> (found: Option<(usize, usize)>)
        ensures
            found == pair_map_contents(*self).get(key),
    {
        self.map.get(&key).copied()
    }

    /// `hashbrown::HashMap::insert`: hold `value` for `key`, handing back the value it replaced.
    #[verifier::external_body]
    pub fn insert(&mut self, key: (usize, usize), value: (usize, usize)) -> (previous: Option<(usize, usize)>)
        ensures
            pair_map_contents(*final(self)) == pair_map_contents(*old(self)).insert(key, value),
            previous == pair_map_contents(*old(self)).get(key),
    {
        self.map.insert(key, value)
    }
}

/// A `hashbrown::HashMap` from names to indices.
#[verifier::external_body]
pub struct NameIndex {
    map: hashbrown::HashMap<String, usize>,
}

/// The entries a [`NameIndex`] holds, each name by its characters.
pub uninterp spec fn name_index_contents(index: NameIndex) -> Map<Seq<char>, usize>;

impl NameIndex {
    /// `hashbrown::HashMap::new`: a map with no entries.
    #[verifier::external_body]
    pub fn new() -> (index: NameIndex)
        ensures
            name_index_contents(index).dom().is_empty(),
    {
        NameIndex { map: hashbrown::HashMap::new() }
    }

    /// `hashbrown::HashMap::get`: the value held for the name `key`, if any. Names are compared
    /// by their characters.
    #[verifier::external_body]
    pub fn get(&self, key: &str) -> (found: Option<usize>)
        ensures
            found == name_index_contents(*self).get(key@),
    {
        self.map.get(key).copied()
    }

    /// `hashbrown::HashMap::insert`: hold `value` for the name `key`, handing back the value it
    /// replaced.
    #[verifier::external_body]
    pub fn insert(&mut self, key: String, value: usize) -> (previous: Option<usize>)
        ensures
            name_index_contents(*final(self)) == name_index_contents(*old(self)).insert(key@, value),
            previous == name_index_contents(*old(self)).get(key@),
    {
        self.map.insert(key, value)
    }
}

/// A `hashbrown::HashSet` of pairs of indices.
#[verifier::external_body]
pub struct PairSet {
    set: hashbrown::HashSet<(usize, usize)>,
}

/// The pairs a [`PairSet`] holds.
pub uninterp spec fn pair_set_contents(set: PairSet) -> Set<(usize, usize)>;

impl PairSet {
    /// `hashbrown::HashSet::new`: a set with no pairs.
    #[verifier::external_body]
    pub fn new() -> (set: PairSet)
        ensures
            pair_set_contents(set) == Set::<(usize, usize)>::empty(),
    {
        PairSet { set: hashbrown::HashSet::new() }
    }

    /// `hashbrown::HashSet::contains`: whether the set holds `pair`.
    #[verifier::external_body]
    pub fn contains(&self, pair: (usize, usize)) -> (found: bool)
        ensures
            found == pair_set_contents(*self).contains(pair),
    {
        self.set.contains(&pair)
    }

    /// `hashbrown::HashSet::insert`: add `pair`, telling whether it was new.
    #[verifier::external_body]
    pub fn insert(&mut self, pair: (usize, usize)) -> (added: bool)
        ensures
            pair_set_contents(*final(self)) == pair_set_contents(*old(self)).insert(pair),
            added == !pair_set_contents(*old(self)).contains(pair),
    {
        self.set.insert(pair)
    }
}

/// A `hashbrown::HashSet` of names.
#[verifier::external_body]
pub struct NameSet {
    set: hashbrown::HashSet<String>,
}

/// The names a [`NameSet`] holds, each by its characters.
pub uninterp spec fn name_set_contents(set: NameSet) -> Set<Seq<char>>;

impl NameSet {
    /// `hashbrown::HashSet::new`: a set with no names.
    #[verifier::external_body]
    pub fn new() -> (set: NameSet)
        ensures
            name_set_contents(set) == Set::<Seq<char>>::empty(),
    {
        NameSet { set: hashbrown::HashSet::new() }
    }

    /// `hashbrown::HashSet::contains`: whether the set holds `name`. Names are compared by their
    /// characters.
    #[verifier::external_body]
    pub fn contains(&self, name: &str) -> (found: bool)
        ensures
            found == name_set_contents(*self).contains(name@),
    {
        self.set.contains(name)
    }

    /// `hashbrown::HashSet::insert`: add `name`, telling whether it was new. Names are compared
    /// by their characters.
    #[verifier::external_body]
    pub fn insert(&mut self, name: String) -> (added: bool)
        ensures
            name_set_contents(*final(self)) == name_set_contents(*old(self)).insert(name@),
            added == !name_set_contents(*old(self)).contains(name@),
    {
        self.set.insert(name)
    }
}

} // verus!
