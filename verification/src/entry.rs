use vstd::prelude::*;

use crate::internal_entry::InternalEntry;

verus! {

/// Possible states of a vacant probe site.
pub enum VacantEntryState {
    /// The index is occupied, but the key to insert has precedence (it is
    /// probing further than the sitting bucket is displaced) and will kick
    /// the current one out on insertion. Fields: the index and the probe
    /// count, which becomes the incoming key's displacement there.
    NeqElem(usize, usize),
    /// The index is genuinely vacant.
    NoElem(usize),
}

/// A view into a single location in a map, which may be vacant or occupied.
pub enum Entry<K> {
    /// An occupied entry.
    Occupied(OccupiedEntry<K>),
    /// A vacant entry.
    Vacant(VacantEntry<K>),
}

/// A view into a single occupied location: the bucket's index, and the search
/// key, retained for further use until taken.
pub struct OccupiedEntry<K> {
    pub(crate) key: Option<K>,
    pub(crate) index: usize,
}

/// A view into a single vacant location: the safe hash and key that an
/// insertion would store, and the vacant site the probe found for them.
pub struct VacantEntry<K> {
    pub(crate) hash: u64,
    pub(crate) key: K,
    pub(crate) elem: VacantEntryState,
}

impl<K> OccupiedEntry<K> {
    /// The retained search key, if it has not been taken.
    pub open(crate) spec fn key_opt(self) -> Option<K> {
        self.key
    }

    /// The index of the bucket this entry names.
    pub open(crate) spec fn index_spec(self) -> int {
        self.index as int
    }

    /// A reference to the retained search key.
    pub fn key(&self) -> (r: &K)
        requires
            self.key_opt() is Some,
        ensures
            *r == self.key_opt()->0,
    {
        self.key.as_ref().unwrap()
    }

    /// Takes the retained search key out, for reuse by the caller.
    pub fn take_key(&mut self) -> (r: Option<K>)
        ensures
            r == old(self).key_opt(),
            final(self).key_opt() is None,
            final(self).index_spec() == old(self).index_spec(),
    {
        self.key.take()
    }
}

impl<K> VacantEntry<K> {
    /// The safe hash an insertion would store.
    pub open(crate) spec fn hash_spec(self) -> u64 {
        self.hash
    }

    /// The key an insertion would bind.
    pub open(crate) spec fn key_spec(self) -> K {
        self.key
    }

    /// The vacant site the probe found.
    pub open(crate) spec fn elem_spec(self) -> VacantEntryState {
        self.elem
    }

    /// A reference to the entry's key.
    pub fn key(&self) -> (r: &K)
        ensures
            *r == self.key_spec(),
    {
        &self.key
    }
}

impl<K> Entry<K> {
    /// A reference to the entry's key.
    pub fn key(&self) -> (r: &K)
        requires
            match self {
                Entry::Occupied(e) => e.key_opt() is Some,
                Entry::Vacant(_) => true,
            },
        ensures
            match self {
                Entry::Occupied(e) => Some(*r) == e.key_opt(),
                Entry::Vacant(e) => *r == e.key_spec(),
            },
    {
        match self {
            Entry::Occupied(e) => e.key(),
            Entry::Vacant(e) => e.key(),
        }
    }
}

/// Wraps a probe result into the public two-way entry view, pairing it with
/// the searched key. A probe of a table without buckets yields no entry.
pub fn from_internal<K>(internal: InternalEntry, key: Option<K>) -> (r: Option<Entry<K>>)
    requires
        internal is Vacant ==> key is Some,
    ensures
        match internal {
            InternalEntry::Occupied { index } => match r {
                Some(Entry::Occupied(e)) => e.key_opt() == key && e.index_spec() == index as int,
                _ => false,
            },
            InternalEntry::Vacant { hash, elem } => match r {
                Some(Entry::Vacant(e)) => e.hash_spec() == hash && e.elem_spec() == elem && key
                    == Some(e.key_spec()),
                _ => false,
            },
            InternalEntry::TableIsEmpty => r is None,
        },
{
    match internal {
        InternalEntry::Occupied { index } => Some(
            Entry::Occupied(OccupiedEntry { key, index }),
        ),
        InternalEntry::Vacant { hash, elem } => Some(
            Entry::Vacant(VacantEntry { hash, key: key.unwrap(), elem }),
        ),
        InternalEntry::TableIsEmpty => None,
    }
}

} // verus!
