use vstd::prelude::*;

use core::marker::PhantomData;
use vstd::arithmetic::div_mod::{
    lemma_div_is_ordered, lemma_fundamental_div_mod,
};
use vstd::arithmetic::power::{lemma_pow_positive, pow};
use vstd::arithmetic::power2::{
    is_pow2, is_pow2_equiv, is_pow2_exists, lemma2_to64, lemma_pow2_adds,
    lemma_pow2_strictly_increases, pow2,
};
use vstd::map::*;

use crate::adaptive_hashing::AdaptiveState;
use crate::entry::{Entry, OccupiedEntry, VacantEntry};
use crate::table::{pop_internal, RawTable, CAP_LIMIT, SAFE_HASH_BIT};

verus! {

// Beyond this displacement, the safeguard flags the map for remediation:
// at sane load factors such a probe sequence is overwhelmingly likely to be
// adversarial.
pub const DISPLACEMENT_THRESHOLD: usize = 128;

// Beyond this forward shift of a Robin Hood cascade, the safeguard flags the
// map for remediation as well.
pub const FORWARD_SHIFT_THRESHOLD: usize = 1024;

// The load factor threshold of remediation is the fraction 1/5 (0.2): below
// it a tripped map switches to safe hashing, at or above it the map grows.
pub const LOAD_FACTOR_DIVISOR: u64 = 5;

// Largest capacity the reserve path will pick. Remediation may double a
// table once past this, up to CAP_LIMIT.
pub const GROW_LIMIT: usize = 0x2000_0000;

// Capacity of the first allocation when a map grows out of capacity zero.
pub const INITIAL_CAPACITY: usize = 8;

/// The usable share of a capacity: the map keeps its size at or below
/// 10/11 (about 0.909) of the bucket count.
pub open spec fn usable_of(cap: int) -> int {
    cap * 10 / 11
}

/// The most entries any map can hold: the usable share of the largest
/// capacity the reserve path picks.
pub open spec fn max_usable() -> int {
    usable_of(GROW_LIMIT as int)
}

/// The usable share is properly below the capacity, and never negative.
proof fn lemma_usable_lt(cap: int)
    requires
        cap >= 0,
    ensures
        0 <= usable_of(cap),
        cap >= 1 ==> usable_of(cap) < cap,
{
    lemma_div_is_ordered(0, cap * 10, 11);
    lemma_fundamental_div_mod(cap * 10, 11);
}

/// The usable share grows with the capacity.
proof fn lemma_usable_mono(c1: int, c2: int)
    requires
        0 <= c1 <= c2,
    ensures
        usable_of(c1) <= usable_of(c2),
{
    lemma_div_is_ordered(c1 * 10, c2 * 10, 11);
}

/// A number is a power of two exactly when some pow2 value equals it.
proof fn lemma_is_pow2_form(n: int)
    ensures
        is_pow2(n) <==> exists|e: nat| pow2(e) == n,
{
    is_pow2_equiv(n);
    if is_pow2_exists(n) {
        let i = choose|i: nat| pow(2, i) == n;
        lemma_pow_positive(2, i);
        assert(pow2(i) == n);
    }
    if exists|e: nat| pow2(e) == n {
        let e = choose|e: nat| pow2(e) == n;
        lemma_pow_positive(2, e);
        assert(pow(2, e) == n);
        assert(is_pow2_exists(n));
    }
}

/// The powers of two this module deals in.
proof fn lemma_pow2_consts()
    ensures
        is_pow2(INITIAL_CAPACITY as int),
        is_pow2(GROW_LIMIT as int),
        is_pow2(CAP_LIMIT as int),
{
    lemma2_to64();
    lemma_is_pow2_form(INITIAL_CAPACITY as int);
    lemma_is_pow2_form(GROW_LIMIT as int);
    lemma_is_pow2_form(CAP_LIMIT as int);
    assert(pow2(3) == INITIAL_CAPACITY as int);
    assert(pow2(29) == GROW_LIMIT as int);
    assert(pow2(30) == CAP_LIMIT as int);
}

/// Doubling keeps a number a power of two.
proof fn lemma_pow2_double(c: int)
    requires
        is_pow2(c),
    ensures
        is_pow2(2 * c),
{
    lemma_is_pow2_form(c);
    lemma_is_pow2_form(2 * c);
    let e = choose|e: nat| pow2(e) == c;
    lemma_pow2_adds(e, 1);
    lemma2_to64();
    assert(pow2(e + 1) == pow2(e) * pow2(1));
    assert(pow2((e + 1) as nat) == 2 * c);
}

/// A power of two strictly below another is at most its half.
proof fn lemma_pow2_step(a: int, b: int)
    requires
        is_pow2(a),
        is_pow2(b),
        a < b,
    ensures
        2 * a <= b,
{
    lemma_is_pow2_form(a);
    lemma_is_pow2_form(b);
    let e1 = choose|e: nat| pow2(e) == a;
    let e2 = choose|e: nat| pow2(e) == b;
    if e1 >= e2 {
        if e1 == e2 {
            assert(a == b);
        } else {
            lemma_pow2_strictly_increases(e2, e1);
        }
        assert(false);
    }
    lemma_pow2_adds(e1, 1);
    lemma2_to64();
    assert(pow2((e1 + 1) as nat) == 2 * a);
    if e1 + 1 < e2 {
        lemma_pow2_strictly_increases((e1 + 1) as nat, e2);
    }
}

/// Computes the usable share of a capacity.
fn usable_capacity(cap: usize) -> (u: usize)
    requires
        cap <= CAP_LIMIT,
    ensures
        u as int == usable_of(cap as int),
{
    proof {
        lemma_usable_lt(cap as int);
    }
    (((cap as u64) * 10) / 11) as usize
}

/// One-shot keys: types whose hashing writes a single chunk of at most eight
/// bytes, read here as one little-endian 64-bit word. Each implementation
/// embeds its values in the word injectively, so the word stands for the key.
pub trait OneshotHash: Sized {
    /// The key's one-shot word.
    spec fn word_spec(&self) -> u64;

    /// Computes the key's one-shot word.
    fn oneshot_word(&self) -> (w: u64)
        ensures
            w == self.word_spec(),
    ;
}

impl OneshotHash for u8 {
    open spec fn word_spec(&self) -> u64 {
        *self as u64
    }

    fn oneshot_word(&self) -> u64 {
        *self as u64
    }
}

impl OneshotHash for u16 {
    open spec fn word_spec(&self) -> u64 {
        *self as u64
    }

    fn oneshot_word(&self) -> u64 {
        *self as u64
    }
}

impl OneshotHash for u32 {
    open spec fn word_spec(&self) -> u64 {
        *self as u64
    }

    fn oneshot_word(&self) -> u64 {
        *self as u64
    }
}

impl OneshotHash for u64 {
    open spec fn word_spec(&self) -> u64 {
        *self
    }

    fn oneshot_word(&self) -> u64 {
        *self
    }
}

impl OneshotHash for usize {
    open spec fn word_spec(&self) -> u64 {
        *self as u64
    }

    fn oneshot_word(&self) -> u64 {
        *self as u64
    }
}

impl OneshotHash for i8 {
    open spec fn word_spec(&self) -> u64 {
        (*self as u8) as u64
    }

    fn oneshot_word(&self) -> u64 {
        (*self as u8) as u64
    }
}

impl OneshotHash for i16 {
    open spec fn word_spec(&self) -> u64 {
        (*self as u16) as u64
    }

    fn oneshot_word(&self) -> u64 {
        (*self as u16) as u64
    }
}

impl OneshotHash for i32 {
    open spec fn word_spec(&self) -> u64 {
        (*self as u32) as u64
    }

    fn oneshot_word(&self) -> u64 {
        (*self as u32) as u64
    }
}

impl OneshotHash for i64 {
    open spec fn word_spec(&self) -> u64 {
        *self as u64
    }

    fn oneshot_word(&self) -> u64 {
        *self as u64
    }
}

impl OneshotHash for isize {
    open spec fn word_spec(&self) -> u64 {
        (*self as usize) as u64
    }

    fn oneshot_word(&self) -> u64 {
        (*self as usize) as u64
    }
}

impl OneshotHash for char {
    open spec fn word_spec(&self) -> u64 {
        (*self as u32) as u64
    }

    fn oneshot_word(&self) -> u64 {
        (*self as u32) as u64
    }
}

/// The adaptive hash map: Robin Hood storage keyed by one-shot key words,
/// under a hash-builder that starts fast and may switch once, permanently, to
/// keyed safe hashing when the safeguard trips.
pub struct HashMap<K, V> {
    table: RawTable<V>,
    hash_builder: AdaptiveState,
    _keys: PhantomData<K>,
}

impl<K: OneshotHash, V> HashMap<K, V> {
    /// The hash-builder state.
    pub closed spec fn builder(self) -> AdaptiveState {
        self.hash_builder
    }

    /// Whether the map has switched to the keyed safe hasher.
    pub open spec fn is_safe_hashing(self) -> bool {
        self.builder().is_safe()
    }

    /// Number of entries.
    pub closed spec fn spec_len(self) -> int {
        self.table.spec_size()
    }

    /// Number of buckets (the raw capacity).
    pub closed spec fn spec_raw_cap(self) -> int {
        self.table.spec_cap()
    }

    /// The map's value: key word to value.
    pub closed spec fn view(self) -> Map<u64, V> {
        self.table.view_map()
    }

    /// The storage invariant alone: a well-formed table within its load
    /// bound. It says nothing about which hasher computed the stored hashes.
    pub closed spec fn storage_ok(self) -> bool {
        &&& self.table.wf()
        &&& self.table.spec_size() <= usable_of(self.table.spec_cap())
    }

    /// The map invariant: sound storage, and every stored hash is the current
    /// hash-builder's safe hash of its bucket's key word.
    pub closed spec fn wf(self) -> bool {
        &&& self.storage_ok()
        &&& forall|k: u64|
            #[trigger] self.table.contents().contains_key(k) ==> self.table.contents()[k].0
                == self.builder().spec_hash(k)
    }

    /// A well-formed map has sound storage.
    pub proof fn lemma_wf_storage(self)
        requires
            self.wf(),
        ensures
            self.storage_ok(),
    {
    }

    /// The safe hash of a key under the current hash-builder.
    fn make_hash(&self, k: &K) -> (h: u64)
        ensures
            h == self.builder().spec_hash(k.word_spec()),
            h >= SAFE_HASH_BIT,
    {
        let w = k.oneshot_word();
        self.hash_builder.make_word_hash(w)
    }

    /// A word that no bucket pairs with its current hash is absent entirely.
    proof fn lemma_absent_word(self, w: u64)
        requires
            self.wf(),
            self.table.absent_pair(self.builder().spec_hash(w), w),
        ensures
            !self.table.has_word(w),
            !self.table.contents().contains_key(w),
            !self.view().contains_key(w),
    {
        self.table.lemma_contents();
        if self.table.has_word(w) {
            let j = choose|j: int|
                0 <= j < self.table.spec_cap() && self.table.full(j) && self.table.key_at(j) == w;
            assert(self.table.contents().contains_key(w));
            assert(self.table.contents()[self.table.key_at(j)] == (
                self.table.hash_at(j),
                self.table.val_at(j),
            ));
            assert(self.table.hash_at(j) == self.builder().spec_hash(w));
            assert(false);
        }
    }

    /// A bucket holding the word links the view to the bucket's value.
    proof fn lemma_present_word(self, index: int)
        requires
            self.wf(),
            0 <= index < self.table.spec_cap(),
            self.table.full(index),
        ensures
            self.table.contents().contains_key(self.table.key_at(index)),
            self.table.contents()[self.table.key_at(index)] == (
                self.table.hash_at(index),
                self.table.val_at(index),
            ),
            self.view().contains_key(self.table.key_at(index)),
            self.view()[self.table.key_at(index)] == self.table.val_at(index),
    {
        self.table.lemma_contents();
    }

    /// Empties the table into a fresh one of the given capacity, rehashing
    /// every key word under the current hash-builder.
    fn rehash_all(&mut self, new_cap: usize)
        requires
            old(self).table.wf(),
            new_cap == 0 || is_pow2(new_cap as int),
            new_cap <= CAP_LIMIT,
            old(self).table.spec_size() <= usable_of(new_cap as int),
        ensures
            final(self).wf(),
            final(self).view() == old(self).view(),
            final(self).spec_len() == old(self).spec_len(),
            final(self).builder() == old(self).builder(),
            final(self).spec_raw_cap() == new_cap,
    {
        let ghost old_table = self.table;
        let mut fresh: RawTable<V> = RawTable::new(new_cap);
        core::mem::swap(&mut self.table, &mut fresh);
        let mut items = fresh.take_all();
        let ghost all = items@;
        let ghost total = all.len() as int;
        proof {
            lemma_usable_lt(new_cap as int);
        }
        while items.len() > 0
            invariant
                self.hash_builder == old(self).hash_builder,
                self.table.wf(),
                self.table.spec_cap() == new_cap,
                new_cap <= CAP_LIMIT,
                usable_of(new_cap as int) < new_cap as int || new_cap == 0,
                total == all.len() as int,
                total <= usable_of(new_cap as int),
                items@.len() <= total,
                forall|a: int| 0 <= a < items@.len() ==> items@[a] == #[trigger] all[a],
                self.table.spec_size() == total - items@.len(),
                forall|a: int, b: int| 0 <= a < b < total ==> all[a].0 != all[b].0,
                forall|k: u64|
                    #[trigger] self.table.contents().contains_key(k) ==> exists|a: int|
                        items@.len() <= a < total && all[a].0 == k,
                forall|a: int|
                    items@.len() <= a < total ==> self.table.contents().contains_key(
                        #[trigger] all[a].0,
                    ) && self.table.contents()[all[a].0] == (
                        self.hash_builder.spec_hash(all[a].0),
                        all[a].1,
                    ),
            decreases items@.len(),
        {
            let ghost n0 = items@.len() as int;
            let ghost pre_seq = items@;
            let pair_opt = items.pop();
            let pair = pair_opt.unwrap();
            let kw = pair.0;
            proof {
                assert(pair == pre_seq[n0 - 1]);
                assert(pre_seq[n0 - 1] == all[n0 - 1]);
                assert(all[n0 - 1] == pair);
                assert(items@ == pre_seq.drop_last());
                assert forall|a: int| 0 <= a < items@.len() implies items@[a] == #[trigger] all[a] by {
                    assert(items@[a] == pre_seq[a]);
                }
                // the popped word is not yet in the new table
                if self.table.contents().contains_key(kw) {
                    let a = choose|a: int| n0 <= a < total && all[a].0 == kw;
                    assert(all[n0 - 1].0 != all[a].0);
                    assert(false);
                }
                self.table.lemma_contents();
                assert(!self.table.has_word(kw));
            }
            let h = self.hash_builder.make_word_hash(kw);
            let internal = self.table.search(h, kw);
            match internal {
                crate::internal_entry::InternalEntry::Vacant { hash, elem } => {
                    let ghost pre = self.table;
                    let _ = self.table.insert_at_vacant(hash, elem, kw, pair.1);
                    proof {
                        assert forall|k: u64| #[trigger]
                            self.table.contents().contains_key(k) implies exists|a: int|
                            items@.len() <= a < total && all[a].0 == k by {
                            if k == kw {
                                assert(all[n0 - 1].0 == k);
                            } else {
                                assert(pre.contents().contains_key(k));
                                let a = choose|a: int| n0 <= a < total && all[a].0 == k;
                                assert(items@.len() <= a < total && all[a].0 == k);
                            }
                        }
                    }
                },
                crate::internal_entry::InternalEntry::Occupied { index } => {
                    proof {
                        assert(self.table.has_word(kw));
                        assert(false);
                    }
                },
                crate::internal_entry::InternalEntry::TableIsEmpty => {
                    proof {
                        assert(self.table.spec_size() < total);
                        assert(false);
                    }
                },
            }
        }
        proof {
            // the rebuilt table holds exactly the old bindings
            old_table.lemma_contents();
            self.table.lemma_contents();
            assert forall|k: u64|
                #[trigger] self.table.contents().contains_key(k)
                    == old_table.contents().contains_key(k) && (
            self.table.contents().contains_key(k) ==> self.table.contents()[k].1
                == old_table.contents()[k].1) by {
                if self.table.contents().contains_key(k) {
                    let a = choose|a: int| 0 <= a < total && all[a].0 == k;
                }
                if old_table.contents().contains_key(k) {
                    let a = choose|a: int| 0 <= a < total && all[a].0 == k;
                    assert(self.table.contents().contains_key(all[a].0));
                }
            }
            assert(self.view() =~= old(self).view());
        }
    }

    /// Moves the table to the given larger-or-equal capacity, rehashing.
    fn resize(&mut self, new_cap: usize)
        requires
            old(self).wf(),
            is_pow2(new_cap as int),
            new_cap <= CAP_LIMIT,
            old(self).spec_len() <= usable_of(new_cap as int),
        ensures
            final(self).wf(),
            final(self).view() == old(self).view(),
            final(self).spec_len() == old(self).spec_len(),
            final(self).builder() == old(self).builder(),
            final(self).spec_raw_cap() == new_cap,
    {
        self.rehash_all(new_cap);
    }
}

/// Rebuilds the whole table in place, rehashing every key word under the
/// map's current hash-builder. Used right after a switch to safe hashing,
/// when the stored hashes still come from the previous hasher.
pub fn rebuild_table<K: OneshotHash, V>(map: &mut HashMap<K, V>)
    requires
        old(map).storage_ok(),
    ensures
        final(map).wf(),
        final(map).view() == old(map).view(),
        final(map).spec_len() == old(map).spec_len(),
        final(map).builder() == old(map).builder(),
        final(map).spec_raw_cap() == old(map).spec_raw_cap(),
{
    let cap = map.table_capacity();
    proof {
        map.lemma_storage_parts();
        map.table.lemma_wf_facts();
    }
    map.rehash_all(cap);
}

impl<K: OneshotHash, V> HashMap<K, V> {
    /// The raw bucket count.
    pub fn table_capacity(&self) -> (c: usize)
        ensures
            c as int == self.spec_raw_cap(),
    {
        self.table.capacity()
    }

    /// Unfolds the storage invariant for callers outside this type.
    proof fn lemma_storage_parts(self)
        requires
            self.storage_ok(),
        ensures
            self.table.wf(),
            self.table.spec_size() <= usable_of(self.table.spec_cap()),
    {
    }

    /// An empty map with no allocation.
    pub fn new() -> (m: Self)
        ensures
            m.wf(),
            m.view() == Map::<u64, V>::empty(),
            m.spec_len() == 0,
            m.spec_raw_cap() == 0,
            !m.is_safe_hashing(),
    {
        let m = HashMap {
            table: RawTable::new(0),
            hash_builder: AdaptiveState::new_for_fast_hashing(),
            _keys: PhantomData,
        };
        proof {
            m.table.lemma_contents();
            assert(m.view() =~= Map::<u64, V>::empty());
        }
        m
    }

    /// An empty map with room for n entries before any growth.
    pub fn with_capacity(n: usize) -> (m: Self)
        requires
            n as int <= max_usable(),
        ensures
            m.wf(),
            m.view() == Map::<u64, V>::empty(),
            m.spec_len() == 0,
            !m.is_safe_hashing(),
            usable_of(m.spec_raw_cap()) >= n,
            n == 0 ==> m.spec_raw_cap() == 0,
    {
        let mut m = HashMap::<K, V>::new();
        if n > 0 {
            m.reserve(n);
        }
        m
    }

    pub fn len(&self) -> (n: usize)
        ensures
            n as int == self.spec_len(),
    {
        self.table.len()
    }

    pub fn is_empty(&self) -> (b: bool)
        ensures
            b == (self.spec_len() == 0),
    {
        self.table.len() == 0
    }

    /// The usable capacity: how many entries fit before the next growth.
    pub fn capacity(&self) -> (c: usize)
        requires
            self.wf(),
        ensures
            c as int == usable_of(self.spec_raw_cap()),
    {
        proof {
            self.table.lemma_wf_facts();
        }
        usable_capacity(self.table.capacity())
    }

    /// The hash-builder, for inspection.
    pub fn hash_builder(&self) -> (hb: &AdaptiveState)
        ensures
            *hb == self.builder(),
    {
        &self.hash_builder
    }

    /// Grows the table, if needed, so that `additional` more entries fit
    /// without another allocation. Keeps every binding and the hashing mode.
    pub fn reserve(&mut self, additional: usize)
        requires
            old(self).wf(),
            old(self).spec_len() + additional <= max_usable(),
        ensures
            final(self).wf(),
            final(self).view() == old(self).view(),
            final(self).spec_len() == old(self).spec_len(),
            final(self).builder() == old(self).builder(),
            usable_of(final(self).spec_raw_cap()) >= old(self).spec_len() + additional,
            final(self).spec_raw_cap() >= old(self).spec_raw_cap(),
            usable_of(old(self).spec_raw_cap()) >= old(self).spec_len() + additional ==> final(self).spec_raw_cap() == old(self).spec_raw_cap(),
            final(self).spec_raw_cap() == old(self).spec_raw_cap() || final(self).spec_raw_cap()
                == INITIAL_CAPACITY as int || usable_of(final(self).spec_raw_cap() / 2) < old(
                self,
            ).spec_len() + additional,
    {
        let cap = self.table.capacity();
        let size = self.table.len();
        proof {
            self.table.lemma_wf_facts();
            lemma_usable_lt(GROW_LIMIT as int);
        }
        let needed = size + additional;
        let usable = usable_capacity(cap);
        if usable < needed {
            proof {
                lemma_pow2_consts();
            }
            let mut target: usize = INITIAL_CAPACITY;
            while usable_capacity(target) < needed
                invariant
                    is_pow2(target as int),
                    INITIAL_CAPACITY <= target,
                    target <= GROW_LIMIT,
                    needed as int <= max_usable(),
                    target == INITIAL_CAPACITY || usable_of(target as int / 2) < needed as int,
                decreases GROW_LIMIT - target,
            {
                proof {
                    lemma_pow2_consts();
                    if target as int == GROW_LIMIT as int {
                        assert(false);
                    }
                    lemma_pow2_step(target as int, GROW_LIMIT as int);
                    lemma_pow2_double(target as int);
                }
                target = target * 2;
            }
            proof {
                lemma_pow2_consts();
                if (cap as int) >= (target as int) {
                    lemma_usable_mono(target as int, cap as int);
                    assert(false);
                }
            }
            self.resize(target);
        }
    }
}

/// Raises the remediation flag when an insertion's final displacement passed
/// the threshold.
pub fn safeguard_insertion(displacement: usize, reduce_displacement_flag: &mut bool)
    ensures
        *final(reduce_displacement_flag) == (*old(reduce_displacement_flag) || displacement
            > DISPLACEMENT_THRESHOLD),
{
    if displacement > DISPLACEMENT_THRESHOLD {
        *reduce_displacement_flag = true;
    }
}

/// Raises the remediation flag when a Robin Hood cascade shifted buckets
/// further forward than the threshold.
pub fn safeguard_forward_shifted(forward_shift: usize, reduce_displacement_flag: &mut bool)
    ensures
        *final(reduce_displacement_flag) == (*old(reduce_displacement_flag) || forward_shift
            > FORWARD_SHIFT_THRESHOLD),
{
    if forward_shift > FORWARD_SHIFT_THRESHOLD {
        *reduce_displacement_flag = true;
    }
}

impl<K: OneshotHash, V> HashMap<K, V> {
    /// Remediation after a tripped safeguard: at a load of a fifth or more
    /// the probe sequences are long because the table is crowded, so it
    /// grows; below that, a fast-hashed map is under attack and switches
    /// permanently to keyed safe hashing, while an already-safe map grows.
    /// Growth is skipped at the capacity limit. Every binding survives.
    pub fn reduce_displacement(&mut self)
        requires
            old(self).wf(),
            old(self).spec_raw_cap() > 0,
        ensures
            final(self).wf(),
            final(self).view() == old(self).view(),
            final(self).spec_len() == old(self).spec_len(),
            final(self).is_safe_hashing() == (old(self).is_safe_hashing() || 5 * old(self).spec_len() < old(self).spec_raw_cap()),
            final(self).spec_raw_cap() == (if 5 * old(self).spec_len() >= old(self).spec_raw_cap()
                || old(self).is_safe_hashing() {
                if 2 * old(self).spec_raw_cap() <= CAP_LIMIT as int {
                    2 * old(self).spec_raw_cap()
                } else {
                    old(self).spec_raw_cap()
                }
            } else {
                old(self).spec_raw_cap()
            }),
    {
        let cap = self.table.capacity();
        let size = self.table.len();
        proof {
            self.table.lemma_wf_facts();
            lemma_usable_mono(cap as int, 2 * cap as int);
            lemma_pow2_double(cap as int);
        }
        if (size as u64) * LOAD_FACTOR_DIVISOR >= (cap as u64) {
            if cap <= CAP_LIMIT / 2 {
                self.resize(cap * 2);
            }
        } else if !self.hash_builder.uses_safe_hashing() {
            self.hash_builder.switch_to_safe_hashing();
            rebuild_table(self);
        } else {
            if cap <= CAP_LIMIT / 2 {
                self.resize(cap * 2);
            }
        }
    }

    /// Inserts the key-value binding. Returns the value the key was bound to
    /// before, if any. May grow the table, and may — after an over-displaced
    /// insertion — grow it or switch it to safe hashing; a map already under
    /// its load bound reallocates only on that remediation.
    pub fn insert(&mut self, k: K, v: V) -> (r: Option<V>)
        requires
            old(self).wf(),
            old(self).spec_len() + 1 <= max_usable(),
        ensures
            final(self).wf(),
            final(self).view() == old(self).view().insert(k.word_spec(), v),
            r == (if old(self).view().contains_key(k.word_spec()) {
                Some(old(self).view()[k.word_spec()])
            } else {
                Option::<V>::None
            }),
            final(self).spec_len() == old(self).spec_len() + (if old(self).view().contains_key(
                k.word_spec(),
            ) {
                0int
            } else {
                1
            }),
            old(self).is_safe_hashing() ==> final(self).is_safe_hashing(),
            (final(self).spec_raw_cap() != old(self).spec_raw_cap() && old(self).spec_len() + 1
                <= usable_of(old(self).spec_raw_cap())) ==> (5 * (old(self).spec_len() + 1) >= old(self).spec_raw_cap() || old(self).is_safe_hashing()),
    {
        self.reserve(1);
        let ghost reserved = *self;
        let w = k.oneshot_word();
        let h = self.hash_builder.make_word_hash(w);
        proof {
            self.table.lemma_wf_facts();
            lemma_usable_lt(self.table.spec_cap());
        }
        let internal = self.table.search(h, w);
        match internal {
            crate::internal_entry::InternalEntry::Occupied { index } => {
                proof {
                    self.lemma_present_word(index as int);
                }
                let ghost pre = *self;
                let old_v = self.table.replace_value(index, v);
                proof {
                    let ww = pre.table.key_at(index as int);
                    assert(ww == w);
                    assert forall|kk: u64| #[trigger]
                        self.table.contents().contains_key(kk) implies self.table.contents()[kk].0
                        == self.builder().spec_hash(kk) by {
                        if kk != w {
                            assert(pre.table.contents().contains_key(kk));
                        }
                    }
                    assert(self.view() =~= old(self).view().insert(w, v));
                }
                Some(old_v)
            },
            crate::internal_entry::InternalEntry::Vacant { hash, elem } => {
                proof {
                    self.lemma_absent_word(w);
                    self.table.lemma_contents();
                }
                let ghost pre = *self;
                let (d, shift) = self.table.insert_at_vacant(hash, elem, w, v);
                proof {
                    assert forall|kk: u64| #[trigger]
                        self.table.contents().contains_key(kk) implies self.table.contents()[kk].0
                        == self.builder().spec_hash(kk) by {
                        if kk != w {
                            assert(pre.table.contents().contains_key(kk));
                        }
                    }
                    assert(self.wf());
                    assert(self.view() =~= old(self).view().insert(w, v));
                }
                let ghost inserted = *self;
                let mut trip = false;
                safeguard_insertion(d, &mut trip);
                safeguard_forward_shifted(shift, &mut trip);
                if trip {
                    proof {
                        lemma_usable_lt(self.table.spec_cap());
                    }
                    self.reduce_displacement();
                }
                None
            },
            crate::internal_entry::InternalEntry::TableIsEmpty => {
                proof {
                    lemma_usable_lt(0);
                    assert(false);
                }
                vstd::pervasive::unreached()
            },
        }
    }

    /// A shared reference to the value bound to the key, if any.
    pub fn get(&self, k: &K) -> (r: Option<&V>)
        requires
            self.wf(),
        ensures
            match r {
                Some(v) => self.view().contains_key(k.word_spec()) && *v == self.view()[
                    k.word_spec()],
                None => !self.view().contains_key(k.word_spec()),
            },
    {
        proof {
            self.table.lemma_wf_facts();
            lemma_usable_lt(self.table.spec_cap());
        }
        let w = k.oneshot_word();
        let h = self.hash_builder.make_word_hash(w);
        match self.table.search(h, w) {
            crate::internal_entry::InternalEntry::Occupied { index } => {
                proof {
                    self.lemma_present_word(index as int);
                }
                Some(self.table.value_ref(index))
            },
            crate::internal_entry::InternalEntry::Vacant { .. } => {
                proof {
                    self.lemma_absent_word(w);
                }
                None
            },
            crate::internal_entry::InternalEntry::TableIsEmpty => {
                proof {
                    self.table.lemma_contents();
                    assert(!self.table.has_word(w));
                }
                None
            },
        }
    }

    /// Whether the key is bound.
    pub fn contains_key(&self, k: &K) -> (r: bool)
        requires
            self.wf(),
        ensures
            r == self.view().contains_key(k.word_spec()),
    {
        self.get(k).is_some()
    }

    /// Removes the key's binding and returns its value, if any.
    pub fn remove(&mut self, k: &K) -> (r: Option<V>)
        requires
            old(self).wf(),
        ensures
            final(self).wf(),
            final(self).view() == old(self).view().remove(k.word_spec()),
            r == (if old(self).view().contains_key(k.word_spec()) {
                Some(old(self).view()[k.word_spec()])
            } else {
                Option::<V>::None
            }),
            final(self).spec_len() == old(self).spec_len() - (if old(self).view().contains_key(
                k.word_spec(),
            ) {
                1int
            } else {
                0
            }),
            final(self).builder() == old(self).builder(),
            final(self).spec_raw_cap() == old(self).spec_raw_cap(),
    {
        proof {
            self.table.lemma_wf_facts();
            lemma_usable_lt(self.table.spec_cap());
        }
        let w = k.oneshot_word();
        let h = self.hash_builder.make_word_hash(w);
        match self.table.search(h, w) {
            crate::internal_entry::InternalEntry::Occupied { index } => {
                proof {
                    self.lemma_present_word(index as int);
                }
                let ghost pre = *self;
                let removed = pop_internal(&mut self.table, index);
                proof {
                    assert forall|kk: u64| #[trigger]
                        self.table.contents().contains_key(kk) implies self.table.contents()[kk].0
                        == self.builder().spec_hash(kk) by {
                        assert(pre.table.contents().contains_key(kk));
                    }
                    lemma_usable_lt(pre.table.spec_cap());
                    assert(self.view() =~= old(self).view().remove(w));
                }
                Some(removed.1)
            },
            crate::internal_entry::InternalEntry::Vacant { .. } => {
                proof {
                    self.lemma_absent_word(w);
                    assert(self.view() =~= old(self).view().remove(w));
                }
                None
            },
            crate::internal_entry::InternalEntry::TableIsEmpty => {
                proof {
                    self.table.lemma_contents();
                    assert(!self.table.has_word(w));
                    assert(self.view() =~= old(self).view().remove(w));
                }
                None
            },
        }
    }

    /// Drops every binding; the allocation and the hashing mode stay.
    pub fn clear(&mut self)
        requires
            old(self).wf(),
        ensures
            final(self).wf(),
            final(self).view() == Map::<u64, V>::empty(),
            final(self).spec_len() == 0,
            final(self).builder() == old(self).builder(),
            final(self).spec_raw_cap() == old(self).spec_raw_cap(),
    {
        self.table.clear();
        proof {
            self.table.lemma_wf_facts();
            lemma_usable_lt(self.table.spec_cap());
            assert(self.view() =~= Map::<u64, V>::empty());
        }
    }

    /// The displacements of the stored entries, in bucket order.
    pub closed spec fn disp_seq(self) -> Seq<usize> {
        self.table.disp_seq()
    }

    /// Appends, for each stored entry in bucket order, its displacement: a
    /// diagnostic picture of the probe-length distribution.
    pub fn stats(&self, out: &mut Vec<usize>)
        requires
            self.wf(),
        ensures
            final(out)@ == old(out)@ + self.disp_seq(),
    {
        self.table.stats(out)
    }

    /// What `stats` reports stays bounded: one entry per stored binding, and
    /// the cumulative sum of displacements is at most the number of entries —
    /// hence also the raw capacity — times the largest displacement observed.
    pub proof fn lemma_stats_bound(self)
        requires
            self.wf(),
        ensures
            self.disp_seq().len() == self.spec_len(),
            crate::table::sum_of(self.disp_seq()) <= self.spec_len() * crate::table::max_of(
                self.disp_seq(),
            ),
            crate::table::sum_of(self.disp_seq()) <= self.spec_raw_cap() * crate::table::max_of(
                self.disp_seq(),
            ),
    {
        self.table.lemma_stats_bound();
    }

    /// Checks the stored invariants bucket by bucket — every stored hash
    /// nonzero with its high bit set, displacements never decreasing by more
    /// than one along occupied runs — and reports whether all hold. A
    /// well-formed map always reports true.
    pub fn check_invariants(&self) -> (b: bool)
        requires
            self.wf(),
        ensures
            b,
    {
        self.table.check_invariants()
    }
}

/// The hook by which safeguarded maps expose their remediation: maps with an
/// adaptively hashed key type watch probe displacements and reduce them when
/// they grow suspicious; other maps would leave both methods inert.
pub trait SafeguardedSearch {
    /// When remediation may run.
    spec fn safeguard_ready(&self) -> bool;

    /// Restores short probe sequences after a tripped safeguard.
    fn reduce_displacement(&mut self)
        requires
            old(self).safeguard_ready(),
    ;

    /// Whether this map watches probe displacements at all.
    fn is_safeguarded() -> bool;
}

impl<K: OneshotHash, V> SafeguardedSearch for HashMap<K, V> {
    open spec fn safeguard_ready(&self) -> bool {
        self.wf() && self.spec_raw_cap() > 0
    }

    fn reduce_displacement(&mut self) {
        HashMap::reduce_displacement(self);
    }

    fn is_safeguarded() -> bool {
        true
    }
}

impl<K: OneshotHash, V> HashMap<K, V> {
    /// What an occupied-entry token asserts of this map: its index names a
    /// full bucket, and a retained key's word is that bucket's key word.
    pub closed spec fn occupied_valid(self, e: OccupiedEntry<K>) -> bool {
        &&& 0 <= e.index_spec() < self.spec_raw_cap()
        &&& self.table.full(e.index_spec())
        &&& match e.key_opt() {
            Some(kk) => kk.word_spec() == self.table.key_at(e.index_spec()),
            None => true,
        }
    }

    /// The key word of the bucket an occupied entry names.
    pub closed spec fn occupied_word(self, e: OccupiedEntry<K>) -> u64 {
        self.table.key_at(e.index_spec())
    }

    /// What a vacant-entry token asserts of this map: its hash is the current
    /// safe hash of its key's word, the site it names is a sound vacant site
    /// for that hash, and the word is absent.
    pub closed spec fn vacant_valid(self, e: VacantEntry<K>) -> bool {
        &&& e.hash_spec() == self.builder().spec_hash(e.key_spec().word_spec())
        &&& e.hash_spec() >= SAFE_HASH_BIT
        &&& self.table.vacant_ok(e.hash_spec(), e.elem_spec())
        &&& !self.table.has_word(e.key_spec().word_spec())
        &&& !self.view().contains_key(e.key_spec().word_spec())
    }

    /// Probes once for the key, first making room for one insertion, and
    /// returns the occupied or vacant view of the key's location.
    pub fn entry(&mut self, k: K) -> (e: Entry<K>)
        requires
            old(self).wf(),
            old(self).spec_len() + 1 <= max_usable(),
        ensures
            final(self).wf(),
            final(self).view() == old(self).view(),
            final(self).spec_len() == old(self).spec_len(),
            final(self).builder() == old(self).builder(),
            final(self).spec_len() < usable_of(final(self).spec_raw_cap()),
            match e {
                Entry::Occupied(oe) => final(self).occupied_valid(oe) && oe.key_opt() == Some(k)
                    && final(self).occupied_word(oe) == k.word_spec() && old(
                    self,
                ).view().contains_key(k.word_spec()),
                Entry::Vacant(ve) => final(self).vacant_valid(ve) && ve.key_spec() == k && !old(
                    self,
                ).view().contains_key(k.word_spec()),
            },
    {
        self.reserve(1);
        proof {
            self.table.lemma_wf_facts();
            lemma_usable_lt(self.table.spec_cap());
            lemma_usable_lt(0);
        }
        let w = k.oneshot_word();
        let h = self.hash_builder.make_word_hash(w);
        let internal = self.table.search(h, w);
        proof {
            match internal {
                crate::internal_entry::InternalEntry::Occupied { index } => {
                    self.lemma_present_word(index as int);
                },
                crate::internal_entry::InternalEntry::Vacant { .. } => {
                    self.lemma_absent_word(w);
                },
                crate::internal_entry::InternalEntry::TableIsEmpty => {
                    assert(false);
                },
            }
        }
        match crate::entry::from_internal(internal, Some(k)) {
            Some(e) => e,
            None => {
                proof {
                    assert(false);
                }
                vstd::pervasive::unreached()
            },
        }
    }

    /// A shared reference to the value of an occupied entry's bucket.
    pub fn occupied_get(&self, e: &OccupiedEntry<K>) -> (r: &V)
        requires
            self.wf(),
            self.occupied_valid(*e),
        ensures
            self.view().contains_key(self.occupied_word(*e)),
            *r == self.view()[self.occupied_word(*e)],
    {
        proof {
            self.lemma_present_word(e.index_spec());
        }
        self.table.value_ref(e.index)
    }

    /// Sets the value of an occupied entry's bucket and returns the old one.
    pub fn occupied_insert(&mut self, e: &OccupiedEntry<K>, v: V) -> (r: V)
        requires
            old(self).wf(),
            old(self).occupied_valid(*e),
        ensures
            final(self).wf(),
            final(self).view() == old(self).view().insert(old(self).occupied_word(*e), v),
            r == old(self).view()[old(self).occupied_word(*e)],
            final(self).spec_len() == old(self).spec_len(),
            final(self).builder() == old(self).builder(),
            final(self).spec_raw_cap() == old(self).spec_raw_cap(),
            final(self).occupied_valid(*e),
            final(self).occupied_word(*e) == old(self).occupied_word(*e),
    {
        proof {
            self.lemma_present_word(e.index_spec());
        }
        let ghost pre = *self;
        let old_v = self.table.replace_value(e.index, v);
        proof {
            let ww = pre.table.key_at(e.index_spec());
            assert forall|kk: u64| #[trigger]
                self.table.contents().contains_key(kk) implies self.table.contents()[kk].0
                == self.builder().spec_hash(kk) by {
                if kk != ww {
                    assert(pre.table.contents().contains_key(kk));
                }
            }
            assert(self.view() =~= old(self).view().insert(ww, v));
        }
        old_v
    }

    /// Takes the value out of an occupied entry's bucket, removing the
    /// binding and restoring the Robin Hood invariant.
    pub fn occupied_remove(&mut self, e: OccupiedEntry<K>) -> (r: V)
        requires
            old(self).wf(),
            old(self).occupied_valid(e),
        ensures
            final(self).wf(),
            final(self).view() == old(self).view().remove(old(self).occupied_word(e)),
            r == old(self).view()[old(self).occupied_word(e)],
            final(self).spec_len() == old(self).spec_len() - 1,
            final(self).builder() == old(self).builder(),
            final(self).spec_raw_cap() == old(self).spec_raw_cap(),
    {
        proof {
            self.lemma_present_word(e.index_spec());
            self.table.lemma_wf_facts();
            lemma_usable_lt(self.table.spec_cap());
        }
        let ghost pre = *self;
        let removed = pop_internal(&mut self.table, e.index);
        proof {
            assert forall|kk: u64| #[trigger]
                self.table.contents().contains_key(kk) implies self.table.contents()[kk].0
                == self.builder().spec_hash(kk) by {
                assert(pre.table.contents().contains_key(kk));
            }
            assert(self.view() =~= old(self).view().remove(pre.table.key_at(e.index_spec())));
        }
        removed.1
    }

    /// Sets the value of a vacant entry with the entry's key, Robin Hood
    /// shifting as needed, and runs the displacement safeguard afterwards.
    pub fn vacant_insert(&mut self, e: VacantEntry<K>, v: V)
        requires
            old(self).wf(),
            old(self).vacant_valid(e),
            old(self).spec_len() < usable_of(old(self).spec_raw_cap()),
        ensures
            final(self).wf(),
            final(self).view() == old(self).view().insert(e.key_spec().word_spec(), v),
            final(self).spec_len() == old(self).spec_len() + 1,
            old(self).is_safe_hashing() ==> final(self).is_safe_hashing(),
    {
        let VacantEntry { hash, key, elem } = e;
        let w = key.oneshot_word();
        proof {
            self.table.lemma_wf_facts();
            lemma_usable_lt(self.table.spec_cap());
        }
        let ghost pre = *self;
        let (d, shift) = self.table.insert_at_vacant(hash, elem, w, v);
        proof {
            assert forall|kk: u64| #[trigger]
                self.table.contents().contains_key(kk) implies self.table.contents()[kk].0
                == self.builder().spec_hash(kk) by {
                if kk != w {
                    assert(pre.table.contents().contains_key(kk));
                }
            }
            assert(self.wf());
            assert(self.view() =~= old(self).view().insert(w, v));
        }
        let mut trip = false;
        safeguard_insertion(d, &mut trip);
        safeguard_forward_shifted(shift, &mut trip);
        if trip {
            self.reduce_displacement();
        }
    }

    /// Ensures a value is in the entry: an occupied entry keeps its value,
    /// a vacant one receives the default.
    pub fn or_insert(&mut self, e: Entry<K>, default: V)
        requires
            old(self).wf(),
            match e {
                Entry::Occupied(oe) => old(self).occupied_valid(oe),
                Entry::Vacant(ve) => old(self).vacant_valid(ve) && old(self).spec_len()
                    < usable_of(old(self).spec_raw_cap()),
            },
        ensures
            final(self).wf(),
            final(self).view() == (match e {
                Entry::Occupied(_) => old(self).view(),
                Entry::Vacant(ve) => old(self).view().insert(ve.key_spec().word_spec(), default),
            }),
            old(self).is_safe_hashing() ==> final(self).is_safe_hashing(),
    {
        match e {
            Entry::Occupied(_) => (),
            Entry::Vacant(ve) => self.vacant_insert(ve, default),
        }
    }

    /// Consumes the map and hands out every surviving (key word, value)
    /// binding exactly once.
    pub fn into_items(self) -> (r: Vec<(u64, V)>)
        requires
            self.wf(),
        ensures
            r@.len() == self.spec_len(),
            forall|a: int, b: int| 0 <= a < b < r@.len() ==> r@[a].0 != r@[b].0,
            forall|a: int|
                0 <= a < r@.len() ==> self.view().contains_key(#[trigger] r@[a].0) && self.view()[
                    r@[a].0] == r@[a].1,
            forall|k: u64|
                #[trigger] self.view().contains_key(k) ==> exists|a: int|
                    0 <= a < r@.len() && r@[a].0 == k,
    {
        let ghost orig = self;
        let HashMap { table, hash_builder: _, _keys } = self;
        let items = table.take_all();
        proof {
            assert forall|k: u64| #[trigger] orig.view().contains_key(k) implies exists|a: int|
                0 <= a < items@.len() && items@[a].0 == k by {
                assert(orig.table.contents().contains_key(k));
            }
        }
        items
    }

    /// The load bound, as every operation leaves it: the map never holds
    /// more entries than the usable share of its capacity.
    pub proof fn lemma_load_bound(self)
        requires
            self.wf(),
        ensures
            self.spec_len() <= usable_of(self.spec_raw_cap()),
    {
    }

    /// The length reported by `len` counts exactly the keys of the view.
    pub proof fn lemma_len_is_view_len(self)
        requires
            self.wf(),
        ensures
            self.view().dom().finite(),
            self.view().dom().len() == self.spec_len(),
    {
        self.table.lemma_contents();
        assert(self.view().dom() =~= self.table.contents().dom());
    }
}

/// Size accounting: inserting a fresh key grows the key set by one, inserting
/// a bound key leaves it, and removing shrinks it by one exactly when the key
/// was bound — so over any sequence of operations the map's length is the
/// number of keys inserted and not since removed, counting only the last
/// insertion of each key.
pub proof fn lemma_size_accounting<V>(m: Map<u64, V>, k: u64, v: V)
    requires
        m.dom().finite(),
    ensures
        m.insert(k, v).dom().finite(),
        m.insert(k, v).dom().len() == m.dom().len() + (if m.contains_key(k) {
            0int
        } else {
            1
        }),
        m.remove(k).dom().finite(),
        m.remove(k).dom().len() == m.dom().len() - (if m.contains_key(k) {
            1int
        } else {
            0
        }),
{
    assert(m.insert(k, v).dom() =~= m.dom().insert(k));
    assert(m.remove(k).dom() =~= m.dom().remove(k));
}

/// Round trip: after inserting (k, v) the key reads back as v; removing the
/// key then yields it absent, exactly as if it had never been inserted.
pub proof fn lemma_round_trip<V>(m: Map<u64, V>, k: u64, v: V)
    ensures
        m.insert(k, v).contains_key(k),
        m.insert(k, v)[k] == v,
        !m.insert(k, v).remove(k).contains_key(k),
        m.insert(k, v).remove(k) == m.remove(k),
{
    assert(m.insert(k, v).remove(k) =~= m.remove(k));
}

} // verus!
