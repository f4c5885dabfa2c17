//! Hash-indexed lookup tables, backed by `rustc_hash`, and the other calls into code
//! whose behavior is stated here rather than proved.

use std::collections::HashSet;

use rustc_hash::FxHashMap;
use vstd::prelude::*;

verus! {

/// A lookup key as plain values: its text parts and its number parts.
pub type KeyView = (Seq<Seq<char>>, Seq<u64>);

/// The text parts of a key, as character sequences.
pub open spec fn texts_of(texts: Seq<String>) -> Seq<Seq<char>> {
    texts.map_values(|text: String| text@)
}

/// The table with no entries.
pub open spec fn no_entries() -> Map<KeyView, usize> {
    Map::empty()
}

/// A table from keys made of text and number parts to dense indices.
#[verifier::external_body]
pub struct KeyIndex {
    table: FxHashMap<(Vec<String>, Vec<u64>), usize>,
}

/// The entries of a key table.
pub uninterp spec fn key_index_entries(index: KeyIndex) -> Map<KeyView, usize>;

impl KeyIndex {
    /// Creates an empty table (`FxHashMap::default`).
    #[verifier::external_body]
    pub(crate) fn new() -> (created: KeyIndex)
        ensures
            key_index_entries(created) == no_entries(),
    {
        KeyIndex { table: FxHashMap::default() }
    }

    /// Looks up a key (`HashMap::get`): the value stored under an equal key, if any.
    #[verifier::external_body]
    pub(crate) fn get(&self, texts: &Vec<String>, numbers: &Vec<u64>) -> (found: Option<usize>)
        ensures
            found is Some <==> key_index_entries(*self).contains_key((texts_of(texts@), numbers@)),
            found matches Some(value) ==> key_index_entries(*self)[(texts_of(texts@), numbers@)] == value,
    {
        self.table.get(&(texts.clone(), numbers.clone())).copied()
    }

    /// Stores a value under a key, replacing any earlier value (`HashMap::insert`).
    #[verifier::external_body]
    pub(crate) fn insert(&mut self, texts: Vec<String>, numbers: Vec<u64>, value: usize)
        ensures
            key_index_entries(*final(self)) == key_index_entries(*old(self)).insert(
                (texts_of(texts@), numbers@),
                value,
            ),
    {
        self.table.insert((texts, numbers), value);
    }
}

/// `set` holds a string with the characters of `text`.
pub open spec fn set_has_text(set: Set<String>, text: Seq<char>) -> bool {
    exists|member: String| set.contains(member) && member@ == text
}

/// Membership of a string in a standard hash set (`HashSet::contains`).
#[verifier::external_body]
pub(crate) fn string_set_contains(set: &HashSet<String>, text: &String) -> (found: bool)
    ensures
        found == set_has_text(set@, text@),
{
    set.contains(text)
}

} // verus!
