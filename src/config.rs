//! The profile catalog: named layouts keyed by hardware identifier.

use indexmap::IndexMap;
use vstd::prelude::*;

verus! {

#[verifier::external_type_specification]
#[verifier::external_body]
#[verifier::reject_recursive_types(K)]
#[verifier::reject_recursive_types(V)]
#[verifier::reject_recursive_types(S)]
pub struct ExIndexMap<K, V, S>(IndexMap<K, V, S>);

/// What a display is asked to do in a layout.
#[derive(Clone, Copy, Debug, PartialEq, Eq, Structural)]
pub enum OutputMode {
    /// The display is switched off.
    Off,
    /// The display that every other one is placed against.
    Primary,
    /// The display stands to the right of the primary one.
    Secondary,
}

/// A named layout: which displays it expects and what each should do.
#[derive(Debug)]
pub struct Profile {
    /// output key -> hardware identifier (lowercase hex)
    pub outputs: IndexMap<String, String>,
    /// output key -> output mode, in the order the operations are emitted
    pub setup: IndexMap<String, OutputMode>,
}

/// The catalog of profiles, by name.
#[derive(Debug)]
pub struct Config {
    pub profiles: IndexMap<String, Profile>,
}

/// The entries of an output map (key, identifier), in insertion order.
pub uninterp spec fn output_entries(m: IndexMap<String, String>) -> Seq<(Seq<char>, Seq<char>)>;

/// The entries of a setup map (key, mode), in insertion order.
pub uninterp spec fn setup_entries(m: IndexMap<String, OutputMode>) -> Seq<(Seq<char>, OutputMode)>;

/// The entries of a catalog (name, profile), in insertion order.
pub uninterp spec fn profile_entries(m: IndexMap<String, Profile>) -> Seq<(Seq<char>, Profile)>;

/// The value stored under key `k` in a sequence of entries, if any.
pub open spec fn lookup<V>(entries: Seq<(Seq<char>, V)>, k: Seq<char>) -> Option<V> {
    if exists|i: int| 0 <= i < entries.len() && entries[i].0 == k {
        let i = choose|i: int| 0 <= i < entries.len() && entries[i].0 == k;
        Some(entries[i].1)
    } else {
        None
    }
}

/// Relies on IndexMap::get_index: the entry at position `i` in insertion
/// order, or `None` past the end.
#[verifier::external_body]
pub(crate) fn outputs_entry_at(m: &IndexMap<String, String>, i: usize) -> (r: Option<(&String, &String)>)
    ensures
        i < output_entries(*m).len() ==> r is Some && r.unwrap().0@ == output_entries(*m)[i as int].0 && r.unwrap().1@ == output_entries(*m)[i as int].1,
        i >= output_entries(*m).len() ==> r is None,
{
    m.get_index(i)
}

/// Relies on IndexMap::get_index: the entry at position `i` in insertion
/// order, or `None` past the end.
#[verifier::external_body]
pub(crate) fn setup_entry_at(m: &IndexMap<String, OutputMode>, i: usize) -> (r: Option<(&String, &OutputMode)>)
    ensures
        i < setup_entries(*m).len() ==> r is Some && r.unwrap().0@ == setup_entries(*m)[i as int].0 && *r.unwrap().1 == setup_entries(*m)[i as int].1,
        i >= setup_entries(*m).len() ==> r is None,
{
    m.get_index(i)
}

/// Relies on IndexMap::get_index: the entry at position `i` in insertion
/// order, or `None` past the end.
#[verifier::external_body]
pub(crate) fn profile_entry_at(m: &IndexMap<String, Profile>, i: usize) -> (r: Option<(&String, &Profile)>)
    ensures
        i < profile_entries(*m).len() ==> r is Some && r.unwrap().0@ == profile_entries(*m)[i as int].0 && *r.unwrap().1 == profile_entries(*m)[i as int].1,
        i >= profile_entries(*m).len() ==> r is None,
{
    m.get_index(i)
}

/// Relies on IndexMap::len: the number of entries.
#[verifier::external_body]
pub(crate) fn outputs_len(m: &IndexMap<String, String>) -> (r: usize)
    ensures
        r == output_entries(*m).len(),
{
    m.len()
}

/// Relies on IndexMap::len: the number of entries.
#[verifier::external_body]
pub(crate) fn setup_len(m: &IndexMap<String, OutputMode>) -> (r: usize)
    ensures
        r == setup_entries(*m).len(),
{
    m.len()
}

/// Relies on IndexMap::len: the number of entries.
#[verifier::external_body]
pub(crate) fn profiles_len(m: &IndexMap<String, Profile>) -> (r: usize)
    ensures
        r == profile_entries(*m).len(),
{
    m.len()
}

/// Relies on IndexMap::get_index_of: the position of the entry whose key
/// equals `k`, if there is one; keys of an `IndexMap` are unique.
#[verifier::external_body]
pub(crate) fn outputs_position(m: &IndexMap<String, String>, k: &String) -> (r: Option<usize>)
    ensures
        r is Some ==> r.unwrap() < output_entries(*m).len() && output_entries(*m)[r.unwrap() as int].0 == k@,
        r is Some ==> forall|j: int| 0 <= j < output_entries(*m).len() && output_entries(*m)[j].0 == k@ ==> j == r.unwrap(),
        r is None ==> forall|i: int| 0 <= i < output_entries(*m).len() ==> output_entries(*m)[i].0 != k@,
{
    m.get_index_of(k)
}

} // verus!
