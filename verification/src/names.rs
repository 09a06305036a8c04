//! Maps and sets of GraphQL names.
use vstd::hash_map::StringHashMap;
use vstd::hash_set::StringHashSet;
use vstd::prelude::*;

verus! {

/// Whether two texts hold the same characters.
pub(crate) fn same_text(a: &str, b: &str) -> (result: bool)
    ensures
        result == (a@ == b@),
{
    a.to_owned() == b.to_owned()
}

/// A map from names to values. Its view is the mathematical map; it always holds finitely many
/// names.
#[verifier::reject_recursive_types(V)]
pub struct NameMap<V> {
    map: StringHashMap<V>,
}

impl<V> View for NameMap<V> {
    type V = Map<Seq<char>, V>;

    closed spec fn view(&self) -> Map<Seq<char>, V> {
        self.map@
    }
}

/// The value that `m` holds for `name`, if it holds one.
pub open spec fn lookup<V>(m: Map<Seq<char>, V>, name: Seq<char>) -> Option<V> {
    if m.contains_key(name) {
        Some(m[name])
    } else {
        None
    }
}

impl<V> NameMap<V> {
    /// Finitely many names are mapped.
    #[verifier::type_invariant]
    pub open spec fn finite(&self) -> bool {
        self@.dom().finite()
    }

    /// The map without any name.
    pub fn new() -> (result: Self)
        ensures
            result@ == Map::<Seq<char>, V>::empty(),
    {
        NameMap { map: StringHashMap::new() }
    }

    /// Maps `name` to `value`, in place of what it was mapped to.
    pub fn insert(&mut self, name: String, value: V)
        ensures
            final(self)@ == old(self)@.insert(name@, value),
    {
        proof {
            use_type_invariant(&*self);
        }
        let mut map = StringHashMap::new();
        std::mem::swap(&mut map, &mut self.map);
        map.insert(name, value);
        self.map = map;
    }

    /// The value mapped to `name`.
    pub fn get(&self, name: &str) -> (result: Option<&V>)
        ensures
            result == match lookup(self@, name@) {
                Some(v) => Some(&v),
                None => None,
            },
    {
        self.map.get(name)
    }
}

/// A set of names.
pub struct NameSet {
    set: StringHashSet,
}

impl View for NameSet {
    type V = Set<Seq<char>>;

    closed spec fn view(&self) -> Set<Seq<char>> {
        self.set@
    }
}

impl NameSet {
    /// The set without any name.
    pub fn new() -> (result: Self)
        ensures
            result@ == Set::<Seq<char>>::empty(),
    {
        NameSet { set: StringHashSet::new() }
    }

    /// Whether the name is in the set.
    pub fn contains(&self, name: &str) -> (result: bool)
        ensures
            result == self@.contains(name@),
    {
        self.set.contains(name)
    }

    /// Adds a name, and tells whether it was not there yet.
    pub fn insert(&mut self, name: String) -> (result: bool)
        ensures
            final(self)@ == old(self)@.insert(name@),
            result == !old(self)@.contains(name@),
    {
        self.set.insert(name)
    }
}

/// The number of mapped names that are not among the names seen.
pub open spec fn unseen<V>(map: Map<Seq<char>, V>, seen: Set<Seq<char>>) -> nat {
    map.dom().difference(seen).len()
}

/// Seeing a mapped name for the first time leaves one less; seeing any other name leaves as many.
pub proof fn lemma_unseen_insert<V>(map: Map<Seq<char>, V>, seen: Set<Seq<char>>, name: Seq<char>)
    requires
        map.dom().finite(),
    ensures
        !seen.contains(name) && map.contains_key(name) ==> unseen(map, seen.insert(name))
            < unseen(map, seen),
        seen.contains(name) || !map.contains_key(name) ==> unseen(map, seen.insert(name))
            == unseen(map, seen),
{
    let left = map.dom().difference(seen);
    let then = map.dom().difference(seen.insert(name));
    if !seen.contains(name) && map.contains_key(name) {
        assert(then =~= left.remove(name));
    } else {
        assert(then =~= left);
    }
}

/// Where more names are seen, no more are left.
pub proof fn lemma_unseen_subset<V>(map: Map<Seq<char>, V>, seen: Set<Seq<char>>, more: Set<Seq<char>>)
    requires
        map.dom().finite(),
        seen.subset_of(more),
    ensures
        unseen(map, more) <= unseen(map, seen),
{
    vstd::set_lib::lemma_len_subset(
        map.dom().difference(more),
        map.dom().difference(seen),
    );
}

} // verus!
