//! The hashed collections the controls keep, and how they are written down.
//!
//! What the collections hold is named here and nowhere computed: every function states what its call
//! does to that.
use ahash::{AHashMap, AHashSet};
use vstd::prelude::*;

verus! {

/// `ahash::RandomState`, the hasher each collection is seeded with.
#[verifier::external_type_specification]
#[verifier::external_body]
pub struct ExRandomState(ahash::RandomState);

/// `ahash::AHashMap`.
#[verifier::external_type_specification]
#[verifier::external_body]
#[verifier::reject_recursive_types(K)]
#[verifier::reject_recursive_types(V)]
#[verifier::reject_recursive_types(S)]
pub struct ExAHashMap<K, V, S>(ahash::AHashMap<K, V, S>);

/// `ahash::AHashSet`.
#[verifier::external_type_specification]
#[verifier::external_body]
#[verifier::reject_recursive_types(T)]
#[verifier::reject_recursive_types(S)]
pub struct ExAHashSet<T, S>(ahash::AHashSet<T, S>);

/// `serde_json::Error`.
#[verifier::external_type_specification]
#[verifier::external_body]
pub struct ExJsonError(serde_json::Error);

/// What a map of flags by name holds.
pub uninterp spec fn flags_of(m: AHashMap<String, bool>) -> Map<Seq<char>, bool>;

/// What a set of names holds.
pub uninterp spec fn names_of(s: AHashSet<String>) -> Set<Seq<char>>;

/// The map of flags by name that a JSON text holds, `None` where it holds none.
pub uninterp spec fn flags_in(json: Seq<char>) -> Option<Map<Seq<char>, bool>>;

/// No name has a flag.
pub open spec fn unflagged() -> Map<Seq<char>, bool> {
    Map::empty()
}

/// `AHashMap::new`: an empty map.
#[verifier::external_body]
pub(crate) fn no_flags() -> (m: AHashMap<String, bool>)
    ensures
        flags_of(m) == unflagged(),
{
    AHashMap::new()
}

/// `AHashMap::get`: the flag held for a name, by equality of the names.
#[verifier::external_body]
pub(crate) fn flag(m: &AHashMap<String, bool>, name: &str) -> (r: Option<bool>)
    ensures
        match r {
            Some(b) => flags_of(*m).dom().contains(name@) && flags_of(*m)[name@] == b,
            None => !flags_of(*m).dom().contains(name@),
        },
{
    m.get(name).copied()
}

/// `AHashMap::insert`: the name is held with this flag, whatever it was held with before.
#[verifier::external_body]
pub(crate) fn set_flag(m: &mut AHashMap<String, bool>, name: String, on: bool)
    ensures
        flags_of(*final(m)) == flags_of(*old(m)).insert(name@, on),
{
    m.insert(name, on);
}

/// `HashMap::clear`, which an `AHashMap` dereferences to: nothing is held any more.
#[verifier::external_body]
pub(crate) fn drop_flags(m: &mut AHashMap<String, bool>)
    ensures
        flags_of(*final(m)) == unflagged(),
{
    m.clear();
}

/// `HashMap::is_empty`, which an `AHashMap` dereferences to: nothing is held.
#[verifier::external_body]
pub(crate) fn lacks_flags(m: &AHashMap<String, bool>) -> (r: bool)
    ensures
        r == (flags_of(*m) == unflagged()),
{
    m.is_empty()
}

/// `serde_json::from_str` into a map of flags by name: what it reads depends on the text alone.
#[verifier::external_body]
pub(crate) fn read_flags(json: &str) -> (r: Result<AHashMap<String, bool>, serde_json::Error>)
    ensures
        match r {
            Ok(m) => flags_in(json@) == Some(flags_of(m)),
            Err(_) => flags_in(json@) is None,
        },
{
    serde_json::from_str(json)
}

/// `serde_json::to_string` of a map of flags by name. Such a map always serializes, its keys being
/// strings, and what is read back from the text is the map; the order of the entries is the hasher's
/// and is left unsaid.
#[verifier::external_body]
pub(crate) fn write_flags(m: &AHashMap<String, bool>) -> (json: String)
    ensures
        flags_in(json@) == Some(flags_of(*m)),
{
    serde_json::to_string(m).expect("a map of string to bool serializes")
}

/// `AHashSet::new`: an empty set.
#[verifier::external_body]
pub(crate) fn no_names() -> (s: AHashSet<String>)
    ensures
        names_of(s) == Set::<Seq<char>>::empty(),
{
    AHashSet::new()
}

/// `HashSet::remove`, which an `AHashSet` dereferences to: the name is not held any more, and whether
/// it was is handed back.
#[verifier::external_body]
pub(crate) fn remove_name(s: &mut AHashSet<String>, name: &str) -> (r: bool)
    ensures
        r == names_of(*old(s)).contains(name@),
        names_of(*final(s)) == names_of(*old(s)).remove(name@),
{
    s.remove(name)
}

/// `HashSet::insert`, which an `AHashSet` dereferences to: the name is held.
#[verifier::external_body]
pub(crate) fn insert_name(s: &mut AHashSet<String>, name: String)
    ensures
        names_of(*final(s)) == names_of(*old(s)).insert(name@),
{
    s.insert(name);
}

/// `HashSet::contains`, which an `AHashSet` dereferences to: whether the name is held.
#[verifier::external_body]
pub(crate) fn has_name(s: &AHashSet<String>, name: &str) -> (r: bool)
    ensures
        r == names_of(*s).contains(name@),
{
    s.contains(name)
}

/// `HashSet::iter`, which an `AHashSet` dereferences to: every name once, in an order that is the
/// hasher's and is left unsaid.
#[verifier::external_body]
pub(crate) fn list_names(s: &AHashSet<String>) -> (r: Vec<String>)
    ensures
        r.deep_view().no_duplicates(),
        r.deep_view().to_set() == names_of(*s),
{
    s.iter().cloned().collect()
}

} // verus!
