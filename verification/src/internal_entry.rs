use vstd::prelude::*;

use crate::entry::{self, Entry, VacantEntryState};

verus! {

/// The three-way result of one probe: the searched key's bucket, a vacant
/// site where the key would go, or a table with no buckets at all.
pub enum InternalEntry {
    Occupied { index: usize },
    Vacant { hash: u64, elem: VacantEntryState },
    TableIsEmpty,
}

impl InternalEntry {
    /// The bucket index, when the probe found the key.
    pub fn into_occupied_bucket(self) -> (r: Option<usize>)
        ensures
            match self {
                InternalEntry::Occupied { index } => r == Some(index),
                _ => r is None,
            },
    {
        match self {
            InternalEntry::Occupied { index } => Some(index),
            _ => None,
        }
    }

    /// Pairs the probe result with its searched key as a public entry.
    pub fn into_entry<K>(self, key: K) -> (r: Option<Entry<K>>)
        ensures
            match self {
                InternalEntry::Occupied { index } => match r {
                    Some(Entry::Occupied(e)) => e.key_opt() == Some(key) && e.index_spec()
                        == index as int,
                    _ => false,
                },
                InternalEntry::Vacant { hash, elem } => match r {
                    Some(Entry::Vacant(e)) => e.hash_spec() == hash && e.elem_spec() == elem
                        && e.key_spec() == key,
                    _ => false,
                },
                InternalEntry::TableIsEmpty => r is None,
            },
    {
        entry::from_internal(self, Some(key))
    }
}

} // verus!
