use vstd::prelude::*;

use vstd::arithmetic::power2::is_pow2;
use vstd::map::*;
use vstd::pervasive::VecAdditionalExecFns;

use crate::entry::VacantEntryState;
use crate::internal_entry::InternalEntry;

verus! {

/// A stored hash always has this bit set, so a stored hash is never zero and
/// the zero word can serve as the "empty bucket" marker.
pub const SAFE_HASH_BIT: u64 = 0x8000_0000_0000_0000;

/// Largest number of buckets the table will ever hold.
pub const CAP_LIMIT: usize = 0x4000_0000;

/// The Robin Hood open-addressing storage engine: three parallel arrays of
/// equal length `capacity` holding, for each bucket, its 64-bit safe hash
/// (zero marks an empty bucket), its 64-bit key word, and its value. A
/// bucket's key and value slots are meaningful only while the bucket is full.
pub struct RawTable<V> {
    hashes: Vec<u64>,
    keys: Vec<u64>,
    values: Vec<Option<V>>,
    size: usize,
}

impl<V> RawTable<V> {
    /// Number of buckets.
    pub closed spec fn spec_cap(self) -> int {
        self.hashes@.len() as int
    }

    /// Number of full buckets.
    pub closed spec fn spec_size(self) -> int {
        self.size as int
    }

    /// Whether the bucket at index i is full.
    pub closed spec fn full(self, i: int) -> bool {
        self.hashes@[i] != 0
    }

    pub closed spec fn hash_at(self, i: int) -> u64 {
        self.hashes@[i]
    }

    pub closed spec fn key_at(self, i: int) -> u64 {
        self.keys@[i]
    }

    pub closed spec fn val_at(self, i: int) -> V {
        self.values@[i]->0
    }

    /// The home index of hash h: `h mod capacity`.
    pub closed spec fn ideal(self, h: u64) -> int {
        (h as int) % self.spec_cap()
    }

    /// Cyclic distance from index `from` forward to index `to`.
    pub closed spec fn dist(self, from: int, to: int) -> int {
        if to >= from {
            to - from
        } else {
            to - from + self.spec_cap()
        }
    }

    /// The index s steps forward of a (both in range).
    pub closed spec fn addi(self, a: int, s: int) -> int {
        if a + s < self.spec_cap() {
            a + s
        } else {
            a + s - self.spec_cap()
        }
    }

    /// The index s steps backward of a (both in range).
    pub closed spec fn subi(self, a: int, s: int) -> int {
        if a - s >= 0 {
            a - s
        } else {
            a - s + self.spec_cap()
        }
    }

    /// Displacement of the full bucket at index i: its cyclic distance from
    /// the home index of its stored hash.
    pub closed spec fn disp(self, i: int) -> int {
        self.dist(self.ideal(self.hash_at(i)), i)
    }

    pub closed spec fn prev_of(self, i: int) -> int {
        if i == 0 {
            self.spec_cap() - 1
        } else {
            i - 1
        }
    }

    pub closed spec fn next_of(self, i: int) -> int {
        if i + 1 == self.spec_cap() {
            0
        } else {
            i + 1
        }
    }

    /// Number of full buckets with index below n.
    pub closed spec fn count_full(self, n: int) -> int
        decreases n,
    {
        if n <= 0 {
            0
        } else {
            self.count_full(n - 1) + if self.full(n - 1) {
                1int
            } else {
                0int
            }
        }
    }

    /// The Robin Hood adjacency condition at bucket i: a displaced bucket
    /// stands right of a bucket that is at most one step less displaced.
    pub closed spec fn rh_at(self, i: int) -> bool {
        (self.full(i) && self.disp(i) > 0) ==> (self.full(self.prev_of(i)) && self.disp(i)
            <= self.disp(self.prev_of(i)) + 1)
    }

    /// The three arrays agree in length.
    pub closed spec fn basic(self) -> bool {
        &&& self.keys@.len() == self.hashes@.len()
        &&& self.values@.len() == self.hashes@.len()
    }

    /// No two full buckets hold the same key word.
    pub closed spec fn keys_unique(self) -> bool {
        forall|i: int, j: int|
            #![trigger self.key_at(i), self.key_at(j)]
            0 <= i < self.spec_cap() && 0 <= j < self.spec_cap() && i != j && self.full(i)
                && self.full(j) ==> self.key_at(i) != self.key_at(j)
    }

    /// The table invariant: well-formed arrays, a power-of-two (or zero)
    /// capacity, an accurate size, hash-as-occupancy marker with the high bit
    /// set, unique keys, and the Robin Hood adjacency condition everywhere.
    pub closed spec fn wf(self) -> bool {
        &&& self.basic()
        &&& self.spec_cap() == 0 || is_pow2(self.spec_cap())
        &&& self.spec_cap() <= CAP_LIMIT as int
        &&& self.size as int == self.count_full(self.spec_cap())
        &&& forall|i: int|
            0 <= i < self.spec_cap() ==> (#[trigger] self.full(i) <==> self.values@[i] is Some)
        &&& forall|i: int|
            0 <= i < self.spec_cap() && #[trigger] self.full(i) ==> self.hash_at(i)
                >= SAFE_HASH_BIT
        &&& self.keys_unique()
        &&& forall|i: int| 0 <= i < self.spec_cap() ==> #[trigger] self.rh_at(i)
    }

    /// Everything the table holds, as a map from key word to the pair of the
    /// stored hash and the value.
    pub closed spec fn contents_upto(self, n: int) -> Map<u64, (u64, V)>
        decreases n,
    {
        if n <= 0 {
            Map::empty()
        } else if self.full(n - 1) {
            self.contents_upto(n - 1).insert(
                self.key_at(n - 1),
                (self.hash_at(n - 1), self.val_at(n - 1)),
            )
        } else {
            self.contents_upto(n - 1)
        }
    }

    pub closed spec fn contents(self) -> Map<u64, (u64, V)> {
        self.contents_upto(self.spec_cap())
    }

    /// The key-to-value map the table represents.
    pub open spec fn view_map(self) -> Map<u64, V> {
        Map::new(
            |k: u64| self.contents().contains_key(k),
            |k: u64| self.contents()[k].1,
        )
    }

    /// Some full bucket holds the key word k.
    pub open spec fn has_word(self, k: u64) -> bool {
        exists|j: int| 0 <= j < self.spec_cap() && self.full(j) && self.key_at(j) == k
    }

    /// No full bucket holds both the hash h and the key word k.
    pub open spec fn absent_pair(self, h: u64, k: u64) -> bool {
        forall|j: int|
            0 <= j < self.spec_cap() && #[trigger] self.full(j) ==> !(self.hash_at(j) == h
                && self.key_at(j) == k)
    }
}

/// 1 for a true condition, 0 for a false one.
pub open spec fn b2i(b: bool) -> int {
    if b {
        1
    } else {
        0
    }
}

impl<V> RawTable<V> {
    /// Bucket counts lie between 0 and n; a count of n means every bucket
    /// below n is full, and a full ring has count equal to its length.
    proof fn lemma_count_bounds(self, n: int)
        ensures
            0 <= self.count_full(n),
            n >= 0 ==> self.count_full(n) <= n,
            n >= 0 && self.count_full(n) == n ==> forall|i: int| 0 <= i < n ==> self.full(i),
            (forall|i: int| 0 <= i < n ==> self.full(i)) ==> self.count_full(n) == (if n <= 0 {
                0int
            } else {
                n
            }),
        decreases n,
    {
        if n > 0 {
            self.lemma_count_bounds(n - 1);
        }
    }

    /// A full bucket contributes one to any count that covers it.
    proof fn lemma_count_one(self, i: int, n: int)
        requires
            0 <= i < n,
            self.full(i),
        ensures
            self.count_full(n) >= 1,
        decreases n,
    {
        self.lemma_count_bounds(n - 1);
        if i < n - 1 {
            self.lemma_count_one(i, n - 1);
        }
    }

    /// If the size is short of the capacity, some bucket is empty.
    proof fn lemma_exists_empty(self)
        requires
            self.size as int == self.count_full(self.spec_cap()),
            self.spec_size() < self.spec_cap(),
        ensures
            exists|e: int| 0 <= e < self.spec_cap() && !self.full(e),
    {
        if !(exists|e: int| 0 <= e < self.spec_cap() && !self.full(e)) {
            assert(forall|i: int| 0 <= i < self.spec_cap() ==> self.full(i));
            self.lemma_count_bounds(self.spec_cap());
            assert(false);
        }
    }

    /// How a count changes when two tables agree on fullness everywhere below
    /// n except possibly at two indices.
    proof fn lemma_count_change(pre: Self, post: Self, a: int, b: int, n: int)
        requires
            forall|j: int| 0 <= j < n && j != a && j != b ==> (pre.full(j) <==> post.full(j)),
        ensures
            post.count_full(n) == pre.count_full(n) + (if 0 <= a < n {
                b2i(post.full(a)) - b2i(pre.full(a))
            } else {
                0int
            }) + (if 0 <= b < n && b != a {
                b2i(post.full(b)) - b2i(pre.full(b))
            } else {
                0int
            }),
        decreases n,
    {
        if n > 0 {
            Self::lemma_count_change(pre, post, a, b, n - 1);
        }
    }

    /// What the contents map up to n holds: exactly the keys of the full
    /// buckets below n, each bound to its bucket's hash and value, with as
    /// many keys as there are full buckets.
    proof fn lemma_contents_upto(self, n: int)
        requires
            self.keys_unique(),
            n <= self.spec_cap(),
        ensures
            forall|k: u64|
                #[trigger] self.contents_upto(n).contains_key(k) <==> exists|i: int|
                    0 <= i < n && self.full(i) && self.key_at(i) == k,
            forall|i: int|
                0 <= i < n && #[trigger] self.full(i) ==> self.contents_upto(n)[self.key_at(i)]
                    == (self.hash_at(i), self.val_at(i)),
            self.contents_upto(n).dom().finite(),
            self.contents_upto(n).dom().len() == self.count_full(n),
        decreases n,
    {
        if n <= 0 {
        } else {
            self.lemma_contents_upto(n - 1);
            if self.full(n - 1) {
                assert(!self.contents_upto(n - 1).contains_key(self.key_at(n - 1)));
                assert forall|k: u64| #[trigger]
                    self.contents_upto(n).contains_key(k) implies exists|i: int|
                    0 <= i < n && self.full(i) && self.key_at(i) == k by {
                    if k == self.key_at(n - 1) {
                        assert(self.full(n - 1) && self.key_at(n - 1) == k);
                    }
                }
            }
        }
    }

    /// The public face of the characterization: under the table invariant,
    /// the contents map holds exactly the words of the full buckets, bound to
    /// their stored hash and value, and counts exactly `size` keys.
    pub proof fn lemma_contents(self)
        requires
            self.wf(),
        ensures
            forall|k: u64| #[trigger] self.contents().contains_key(k) <==> self.has_word(k),
            forall|i: int|
                0 <= i < self.spec_cap() && #[trigger] self.full(i)
                    ==> self.contents().contains_key(self.key_at(i)) && self.contents()[self.key_at(
                    i,
                )] == (self.hash_at(i), self.val_at(i)),
            self.contents().dom().finite(),
            self.contents().dom().len() == self.spec_size(),
    {
        self.lemma_contents_upto(self.spec_cap());
    }

    /// The Robin Hood invariant, as every mutation leaves it: a full bucket
    /// displaced from its home stands right of a full bucket that is at most
    /// one step less displaced, so displacements never fall by more than one
    /// along any occupied run.
    pub proof fn lemma_robin_hood_invariant(self, i: int)
        requires
            self.wf(),
            0 <= i < self.spec_cap(),
            self.full(i),
            self.disp(i) > 0,
        ensures
            self.full(self.prev_of(i)),
            self.disp(i) <= self.disp(self.prev_of(i)) + 1,
    {
        assert(self.rh_at(i));
    }

    /// The safe-hash marker, as every mutation leaves it: every stored hash
    /// has its high bit set, so no stored hash is the zero "empty" marker.
    pub proof fn lemma_safe_hash_marker(self, i: int)
        requires
            self.wf(),
            0 <= i < self.spec_cap(),
            self.full(i),
        ensures
            self.hash_at(i) >= SAFE_HASH_BIT,
            self.hash_at(i) != 0,
    {
    }

    /// Plain consequences of the table invariant, for callers that cannot see
    /// inside it.
    pub proof fn lemma_wf_facts(self)
        requires
            self.wf(),
        ensures
            self.spec_cap() == 0 || is_pow2(self.spec_cap()),
            self.spec_cap() <= CAP_LIMIT as int,
            0 <= self.spec_size() <= self.spec_cap(),
            self.spec_cap() == 0 ==> self.spec_size() == 0,
    {
        self.lemma_count_bounds(self.spec_cap());
    }

    /// Allocates a table of the given capacity with every bucket empty.
    pub fn new(capacity: usize) -> (t: Self)
        requires
            capacity == 0 || is_pow2(capacity as int),
            capacity <= CAP_LIMIT,
        ensures
            t.wf(),
            t.spec_cap() == capacity,
            t.spec_size() == 0,
            t.contents() == Map::<u64, (u64, V)>::empty(),
    {
        let mut hashes: Vec<u64> = Vec::new();
        let mut keys: Vec<u64> = Vec::new();
        let mut values: Vec<Option<V>> = Vec::new();
        let mut i: usize = 0;
        while i < capacity
            invariant
                i <= capacity,
                hashes@.len() == i,
                keys@.len() == i,
                values@.len() == i,
                forall|j: int| 0 <= j < i ==> hashes@[j] == 0,
                forall|j: int| 0 <= j < i ==> values@[j] is None,
            decreases capacity - i,
        {
            hashes.push(0);
            keys.push(0);
            values.push(None);
            i = i + 1;
        }
        let t = RawTable { hashes, keys, values, size: 0 };
        proof {
            t.lemma_all_empty(capacity as int);
        }
        t
    }

    /// A table whose buckets below n are all empty has an empty contents map
    /// and a zero count there.
    proof fn lemma_all_empty(self, n: int)
        requires
            forall|j: int| 0 <= j < n ==> !self.full(j),
        ensures
            self.count_full(n) == 0,
            self.contents_upto(n) == Map::<u64, (u64, V)>::empty(),
        decreases n,
    {
        if n > 0 {
            self.lemma_all_empty(n - 1);
        }
    }

    pub fn capacity(&self) -> (c: usize)
        ensures
            c as int == self.spec_cap(),
    {
        self.hashes.len()
    }

    pub fn len(&self) -> (s: usize)
        ensures
            s as int == self.spec_size(),
    {
        self.size
    }

    /// Cyclic distance between two indices, walked forward.
    fn distance(&self, from: usize, to: usize) -> (d: usize)
        requires
            0 < self.spec_cap() <= CAP_LIMIT as int,
            from < self.spec_cap(),
            to < self.spec_cap(),
        ensures
            d as int == self.dist(from as int, to as int),
    {
        let cap = self.hashes.len();
        if to >= from {
            to - from
        } else {
            to + (cap - from)
        }
    }

    /// Home index of a hash.
    fn home_index(&self, h: u64) -> (r: usize)
        requires
            0 < self.spec_cap() <= CAP_LIMIT as int,
        ensures
            r as int == self.ideal(h),
            r < self.spec_cap(),
    {
        let cap = self.hashes.len();
        let home = h % (cap as u64);
        home as usize
    }

    /// Displacement of the bucket at index i.
    fn bucket_displacement(&self, i: usize) -> (d: usize)
        requires
            0 < self.spec_cap() <= CAP_LIMIT as int,
            i < self.spec_cap(),
        ensures
            d as int == self.disp(i as int),
    {
        let h = self.hashes[i];
        let home = self.home_index(h);
        self.distance(home, i)
    }

    /// The probe at step s from home index a saw a full bucket at least as
    /// displaced as the step count, and it was not the searched (h, k).
    spec fn visited_ok(self, a: int, s: int, h: u64, k: u64) -> bool {
        let j = self.addi(a, s);
        &&& self.full(j)
        &&& self.disp(j) >= s
        &&& !(self.hash_at(j) == h && self.key_at(j) == k)
    }

    /// The probe walk from the home index of h up to (not including) the
    /// bucket at cyclic distance d saw only full buckets, each displaced at
    /// least as far as the walk had come: the walk could not have stopped
    /// earlier.
    pub open spec fn probe_run_ok(self, h: u64, d: int) -> bool {
        forall|s: int|
            0 <= s < d ==> #[trigger] self.full(self.addi(self.ideal(h), s)) && self.disp(
                self.addi(self.ideal(h), s),
            ) >= s
    }

    /// What a probe guarantees of a vacant site it returns for hash h: the
    /// site's displacement for the incoming key, the adjacency facts that
    /// make an insertion there preserve the Robin Hood invariant, and that no
    /// earlier bucket of the probe walk could have taken the key.
    pub open spec fn vacant_ok(self, h: u64, elem: VacantEntryState) -> bool {
        match elem {
            VacantEntryState::NoElem(i) => {
                let d = self.dist(self.ideal(h), i as int);
                &&& (i as int) < self.spec_cap()
                &&& !self.full(i as int)
                &&& (d == 0 || (self.full(self.prev_of(i as int)) && self.disp(
                    self.prev_of(i as int),
                ) + 1 >= d))
                &&& self.probe_run_ok(h, d)
            },
            VacantEntryState::NeqElem(i, p) => {
                &&& (i as int) < self.spec_cap()
                &&& self.full(i as int)
                &&& p as int == self.dist(self.ideal(h), i as int)
                &&& self.disp(i as int) < p as int
                &&& self.full(self.prev_of(i as int))
                &&& self.disp(self.prev_of(i as int)) + 1 >= p as int
                &&& self.probe_run_ok(h, p as int)
            },
        }
    }

    /// Walking back from a full bucket, step by step up to its displacement,
    /// every bucket is full and at most one step less displaced per step.
    proof fn lemma_back_run(self, j: int, s: int)
        requires
            self.wf(),
            0 < self.spec_cap(),
            0 <= j < self.spec_cap(),
            self.full(j),
            0 <= s <= self.disp(j),
        ensures
            0 <= self.subi(j, s) < self.spec_cap(),
            self.full(self.subi(j, s)),
            self.disp(self.subi(j, s)) >= self.disp(j) - s,
        decreases s,
    {
        if s > 0 {
            self.lemma_back_run(j, s - 1);
            let j1 = self.subi(j, s - 1);
            assert(self.rh_at(j1));
            assert(self.prev_of(j1) == self.subi(j, s));
        }
    }

    /// When a probe from the home index of h stops after p steps — at an
    /// empty bucket or at one displaced less than the step count — and none
    /// of the visited buckets was the searched pair, the pair is nowhere.
    proof fn lemma_absent_from_stop(self, h: u64, k: u64, p: int, i: int)
        requires
            self.wf(),
            0 < self.spec_cap(),
            0 <= i < self.spec_cap(),
            self.dist(self.ideal(h), i) == p,
            !self.full(i) || self.disp(i) < p,
            forall|s: int| 0 <= s < p ==> self.visited_ok(self.ideal(h), s, h, k),
        ensures
            self.absent_pair(h, k),
    {
        let a = self.ideal(h);
        assert forall|j: int|
            0 <= j < self.spec_cap() && #[trigger] self.full(j) implies !(self.hash_at(j) == h
            && self.key_at(j) == k) by {
            if self.hash_at(j) == h && self.key_at(j) == k {
                let q = self.disp(j);
                assert(self.ideal(self.hash_at(j)) == a);
                assert(q == self.dist(a, j));
                if q < p {
                    assert(self.visited_ok(a, q, h, k));
                    assert(self.addi(a, q) == j);
                } else {
                    self.lemma_back_run(j, q - p);
                    assert(self.subi(j, q - p) == i);
                }
            }
        }
    }

    /// One probe for the pair (h, k): the bucket that holds it, or the vacant
    /// site where it would go, or nothing in a table without buckets.
    pub fn search(&self, h: u64, k: u64) -> (r: InternalEntry)
        requires
            self.wf(),
            h >= SAFE_HASH_BIT,
            self.spec_cap() == 0 || self.spec_size() < self.spec_cap(),
        ensures
            match r {
                InternalEntry::TableIsEmpty => self.spec_cap() == 0,
                InternalEntry::Occupied { index } => {
                    &&& self.spec_cap() > 0
                    &&& (index as int) < self.spec_cap()
                    &&& self.full(index as int)
                    &&& self.hash_at(index as int) == h
                    &&& self.key_at(index as int) == k
                },
                InternalEntry::Vacant { hash, elem } => {
                    &&& self.spec_cap() > 0
                    &&& hash == h
                    &&& self.vacant_ok(h, elem)
                    &&& self.absent_pair(h, k)
                },
            },
    {
        let cap = self.hashes.len();
        if cap == 0 {
            return InternalEntry::TableIsEmpty;
        }
        proof {
            self.lemma_exists_empty();
        }
        let ghost ee: int = choose|x: int| 0 <= x < self.spec_cap() && !self.full(x);
        let home = self.home_index(h);
        let mut i = home;
        let mut p: usize = 0;
        loop
            invariant
                self.wf(),
                h >= SAFE_HASH_BIT,
                cap == self.spec_cap(),
                0 < cap,
                0 <= ee < cap,
                !self.full(ee),
                home as int == self.ideal(h),
                (home as int) < cap,
                (i as int) < cap,
                p as int == self.dist(home as int, i as int),
                (p as int) <= self.dist(home as int, ee),
                forall|s: int| 0 <= s < p ==> self.visited_ok(home as int, s, h, k),
            decreases self.dist(home as int, ee) - p,
        {
            if self.hashes[i] == 0 {
                proof {
                    self.lemma_absent_from_stop(h, k, p as int, i as int);
                    if p > 0 {
                        assert(self.visited_ok(home as int, p as int - 1, h, k));
                        assert(self.addi(home as int, p as int - 1) == self.prev_of(i as int));
                    }
                    assert forall|s: int|
                        0 <= s < p implies #[trigger] self.full(self.addi(self.ideal(h), s))
                        && self.disp(self.addi(self.ideal(h), s)) >= s by {
                        assert(self.visited_ok(home as int, s, h, k));
                    }
                }
                return InternalEntry::Vacant { hash: h, elem: VacantEntryState::NoElem(i) };
            }
            let d = self.bucket_displacement(i);
            if d < p {
                proof {
                    self.lemma_absent_from_stop(h, k, p as int, i as int);
                    assert(self.visited_ok(home as int, p as int - 1, h, k));
                    assert(self.addi(home as int, p as int - 1) == self.prev_of(i as int));
                    assert forall|s: int|
                        0 <= s < p implies #[trigger] self.full(self.addi(self.ideal(h), s))
                        && self.disp(self.addi(self.ideal(h), s)) >= s by {
                        assert(self.visited_ok(home as int, s, h, k));
                    }
                }
                return InternalEntry::Vacant { hash: h, elem: VacantEntryState::NeqElem(i, p) };
            }
            if self.hashes[i] == h && self.keys[i] == k {
                return InternalEntry::Occupied { index: i };
            }
            proof {
                assert(self.addi(home as int, p as int) == i as int);
                assert(i as int != ee);
                assert((p as int) < self.dist(home as int, ee));
                assert forall|s: int| 0 <= s < p + 1 implies self.visited_ok(
                    home as int,
                    s,
                    h,
                    k,
                ) by {
                    if s == p as int {
                        assert(self.addi(home as int, s) == i as int);
                    }
                }
            }
            i = if i + 1 == cap {
                0
            } else {
                i + 1
            };
            p = p + 1;
        }
    }

    /// The two tables agree on the bucket at index j.
    spec fn slot_eq(pre: Self, post: Self, j: int) -> bool {
        &&& (pre.full(j) <==> post.full(j))
        &&& post.hash_at(j) == pre.hash_at(j)
        &&& post.key_at(j) == pre.key_at(j)
        &&& post.values@[j] == pre.values@[j]
    }

    /// The two tables have equal capacity and agree on every bucket except
    /// possibly those at indices a and b.
    spec fn same_except(pre: Self, post: Self, a: int, b: int) -> bool {
        &&& pre.basic()
        &&& post.basic()
        &&& post.spec_cap() == pre.spec_cap()
        &&& forall|j: int|
            0 <= j < pre.spec_cap() && j != a && j != b ==> #[trigger] Self::slot_eq(pre, post, j)
    }

    /// How the contents map changes when exactly one bucket changes: the old
    /// binding (if the bucket was full) leaves, the new one (if it is full
    /// now) enters.
    proof fn lemma_contents_one_slot(pre: Self, post: Self, i: int)
        requires
            pre.keys_unique(),
            0 <= i < pre.spec_cap(),
            Self::same_except(pre, post, i, i),
            post.full(i) ==> (!pre.has_word(post.key_at(i)) || (pre.full(i) && pre.key_at(i)
                == post.key_at(i))),
        ensures
            post.keys_unique(),
            pre.full(i) && post.full(i) ==> post.contents() == pre.contents().remove(
                pre.key_at(i),
            ).insert(post.key_at(i), (post.hash_at(i), post.val_at(i))),
            pre.full(i) && !post.full(i) ==> post.contents() == pre.contents().remove(
                pre.key_at(i),
            ),
            !pre.full(i) && post.full(i) ==> post.contents() == pre.contents().insert(
                post.key_at(i),
                (post.hash_at(i), post.val_at(i)),
            ),
            !pre.full(i) && !post.full(i) ==> post.contents() == pre.contents(),
    {
        let cap = pre.spec_cap();
        assert forall|a: int, b: int|
            0 <= a < cap && 0 <= b < cap && a != b && post.full(a) && post.full(
                b,
            ) implies post.key_at(a) != post.key_at(b) by {
            if a != i && b != i {
                assert(Self::slot_eq(pre, post, a));
                assert(Self::slot_eq(pre, post, b));
                assert(pre.key_at(a) != pre.key_at(b));
            } else if a == i {
                assert(Self::slot_eq(pre, post, b));
                if post.key_at(b) == post.key_at(i) {
                    if pre.full(i) && pre.key_at(i) == post.key_at(i) {
                        assert(pre.key_at(b) != pre.key_at(i));
                    } else {
                        assert(pre.full(b) && pre.key_at(b) == post.key_at(i));
                        assert(pre.has_word(post.key_at(i)));
                    }
                }
            } else {
                assert(Self::slot_eq(pre, post, a));
                if post.key_at(a) == post.key_at(i) {
                    if pre.full(i) && pre.key_at(i) == post.key_at(i) {
                        assert(pre.key_at(a) != pre.key_at(i));
                    } else {
                        assert(pre.full(a) && pre.key_at(a) == post.key_at(i));
                        assert(pre.has_word(post.key_at(i)));
                    }
                }
            }
        }
        pre.lemma_contents_upto(cap);
        post.lemma_contents_upto(cap);
        let kn = post.key_at(i);
        let ko = pre.key_at(i);
        if pre.full(i) && post.full(i) {
            let rhs = pre.contents().remove(ko).insert(kn, (post.hash_at(i), post.val_at(i)));
            assert forall|kk: u64| #[trigger]
                post.contents().contains_key(kk) == rhs.contains_key(kk) && (
                post.contents().contains_key(kk) ==> post.contents()[kk] == rhs[kk]) by {
                if post.contents().contains_key(kk) {
                    let j = choose|j: int|
                        0 <= j < cap && post.full(j) && post.key_at(j) == kk;
                    if j == i {
                        assert(rhs.contains_key(kk));
                        assert(post.contents()[kk] == (post.hash_at(i), post.val_at(i)));
                    } else {
                        assert(Self::slot_eq(pre, post, j));
                        assert(pre.full(j) && pre.key_at(j) == kk);
                        assert(pre.contents().contains_key(kk));
                        if kk == ko {
                            assert(pre.key_at(j) != pre.key_at(i));
                            assert(false);
                        }
                        if kk == kn {
                            assert(post.key_at(j) != post.key_at(i));
                            assert(false);
                        }
                        assert(rhs[kk] == pre.contents()[kk]);
                        assert(post.contents()[kk] == (post.hash_at(j), post.val_at(j)));
                        assert(pre.contents()[kk] == (pre.hash_at(j), pre.val_at(j)));
                    }
                }
                if rhs.contains_key(kk) {
                    if kk == kn {
                        assert(post.full(i) && post.key_at(i) == kk);
                        assert(post.contents().contains_key(kk));
                    } else {
                        assert(pre.contents().contains_key(kk) && kk != ko);
                        let j = choose|j: int|
                            0 <= j < cap && pre.full(j) && pre.key_at(j) == kk;
                        assert(j != i);
                        assert(Self::slot_eq(pre, post, j));
                        assert(post.full(j) && post.key_at(j) == kk);
                        assert(post.contents().contains_key(kk));
                    }
                }
            }
            assert(post.contents() =~= rhs);
        }
        if pre.full(i) && !post.full(i) {
            let rhs = pre.contents().remove(ko);
            assert forall|kk: u64| #[trigger]
                post.contents().contains_key(kk) == rhs.contains_key(kk) && (
                post.contents().contains_key(kk) ==> post.contents()[kk] == rhs[kk]) by {
                if post.contents().contains_key(kk) {
                    let j = choose|j: int|
                        0 <= j < cap && post.full(j) && post.key_at(j) == kk;
                    assert(j != i);
                    assert(Self::slot_eq(pre, post, j));
                    assert(pre.contents().contains_key(kk));
                    if kk == ko {
                        assert(pre.key_at(j) != pre.key_at(i));
                        assert(false);
                    }
                    assert(post.contents()[kk] == (post.hash_at(j), post.val_at(j)));
                    assert(pre.contents()[kk] == (pre.hash_at(j), pre.val_at(j)));
                }
                if rhs.contains_key(kk) {
                    let j = choose|j: int|
                        0 <= j < cap && pre.full(j) && pre.key_at(j) == kk;
                    assert(j != i);
                    assert(Self::slot_eq(pre, post, j));
                    assert(post.contents().contains_key(kk));
                }
            }
            assert(post.contents() =~= rhs);
        }
        if !pre.full(i) && post.full(i) {
            let rhs = pre.contents().insert(kn, (post.hash_at(i), post.val_at(i)));
            assert forall|kk: u64| #[trigger]
                post.contents().contains_key(kk) == rhs.contains_key(kk) && (
                post.contents().contains_key(kk) ==> post.contents()[kk] == rhs[kk]) by {
                if post.contents().contains_key(kk) {
                    let j = choose|j: int|
                        0 <= j < cap && post.full(j) && post.key_at(j) == kk;
                    if j == i {
                        assert(rhs.contains_key(kk));
                        assert(post.contents()[kk] == (post.hash_at(i), post.val_at(i)));
                    } else {
                        assert(Self::slot_eq(pre, post, j));
                        assert(pre.contents().contains_key(kk));
                        if kk == kn {
                            assert(pre.has_word(kk));
                            assert(false);
                        }
                        assert(post.contents()[kk] == (post.hash_at(j), post.val_at(j)));
                        assert(pre.contents()[kk] == (pre.hash_at(j), pre.val_at(j)));
                    }
                }
                if rhs.contains_key(kk) {
                    if kk == kn {
                        assert(post.full(i) && post.key_at(i) == kk);
                        assert(post.contents().contains_key(kk));
                    } else {
                        let j = choose|j: int|
                            0 <= j < cap && pre.full(j) && pre.key_at(j) == kk;
                        assert(j != i);
                        assert(Self::slot_eq(pre, post, j));
                        assert(post.contents().contains_key(kk));
                    }
                }
            }
            assert(post.contents() =~= rhs);
        }
        if !pre.full(i) && !post.full(i) {
            assert forall|kk: u64| #[trigger]
                post.contents().contains_key(kk) == pre.contents().contains_key(kk) && (
                post.contents().contains_key(kk) ==> post.contents()[kk]
                    == pre.contents()[kk]) by {
                if post.contents().contains_key(kk) {
                    let j = choose|j: int|
                        0 <= j < cap && post.full(j) && post.key_at(j) == kk;
                    assert(j != i);
                    assert(Self::slot_eq(pre, post, j));
                    assert(pre.contents().contains_key(kk));
                    assert(post.contents()[kk] == (post.hash_at(j), post.val_at(j)));
                }
                if pre.contents().contains_key(kk) {
                    let j = choose|j: int|
                        0 <= j < cap && pre.full(j) && pre.key_at(j) == kk;
                    assert(j != i);
                    assert(Self::slot_eq(pre, post, j));
                    assert(post.contents().contains_key(kk));
                }
            }
            assert(post.contents() =~= pre.contents());
        }
    }

    /// Moving a bucket's triple from index nx into the empty index x leaves
    /// the contents map unchanged.
    proof fn lemma_contents_move(pre: Self, post: Self, x: int, nx: int)
        requires
            pre.keys_unique(),
            0 <= x < pre.spec_cap(),
            0 <= nx < pre.spec_cap(),
            x != nx,
            Self::same_except(pre, post, x, nx),
            !pre.full(x),
            pre.full(nx),
            post.full(x),
            !post.full(nx),
            post.hash_at(x) == pre.hash_at(nx),
            post.key_at(x) == pre.key_at(nx),
            post.val_at(x) == pre.val_at(nx),
        ensures
            post.keys_unique(),
            post.contents() == pre.contents(),
    {
        let cap = pre.spec_cap();
        assert forall|a: int, b: int|
            0 <= a < cap && 0 <= b < cap && a != b && post.full(a) && post.full(
                b,
            ) implies post.key_at(a) != post.key_at(b) by {
            if a != x && b != x {
                assert(Self::slot_eq(pre, post, a));
                assert(Self::slot_eq(pre, post, b));
                assert(pre.key_at(a) != pre.key_at(b));
            } else if a == x {
                assert(Self::slot_eq(pre, post, b));
                assert(pre.key_at(b) != pre.key_at(nx));
            } else {
                assert(Self::slot_eq(pre, post, a));
                assert(pre.key_at(a) != pre.key_at(nx));
            }
        }
        pre.lemma_contents_upto(cap);
        post.lemma_contents_upto(cap);
        assert forall|kk: u64| #[trigger]
            post.contents().contains_key(kk) == pre.contents().contains_key(kk) && (
            post.contents().contains_key(kk) ==> post.contents()[kk] == pre.contents()[kk]) by {
            if post.contents().contains_key(kk) {
                let j = choose|j: int| 0 <= j < cap && post.full(j) && post.key_at(j) == kk;
                if j == x {
                    assert(pre.full(nx) && pre.key_at(nx) == kk);
                    assert(pre.contents().contains_key(kk));
                    assert(post.contents()[kk] == (post.hash_at(x), post.val_at(x)));
                    assert(pre.contents()[kk] == (pre.hash_at(nx), pre.val_at(nx)));
                } else {
                    assert(j != nx);
                    assert(Self::slot_eq(pre, post, j));
                    assert(pre.contents().contains_key(kk));
                    assert(post.contents()[kk] == (post.hash_at(j), post.val_at(j)));
                    assert(pre.contents()[kk] == (pre.hash_at(j), pre.val_at(j)));
                }
            }
            if pre.contents().contains_key(kk) {
                let j = choose|j: int| 0 <= j < cap && pre.full(j) && pre.key_at(j) == kk;
                if j == nx {
                    assert(post.full(x) && post.key_at(x) == kk);
                    assert(post.contents().contains_key(kk));
                } else {
                    assert(j != x);
                    assert(Self::slot_eq(pre, post, j));
                    assert(post.contents().contains_key(kk));
                }
            }
        }
        assert(post.contents() =~= pre.contents());
    }

    /// Writes the triple into the empty bucket at index i. The caller
    /// guarantees the Robin Hood adjacency at the site.
    fn put_slot(&mut self, i: usize, h: u64, k: u64, v: V)
        requires
            old(self).wf(),
            (i as int) < old(self).spec_cap(),
            !old(self).full(i as int),
            h >= SAFE_HASH_BIT,
            !old(self).has_word(k),
            ({
                let d = old(self).dist(old(self).ideal(h), i as int);
                d == 0 || (old(self).full(old(self).prev_of(i as int)) && old(self).disp(
                    old(self).prev_of(i as int),
                ) + 1 >= d)
            }),
        ensures
            final(self).wf(),
            final(self).spec_cap() == old(self).spec_cap(),
            final(self).spec_size() == old(self).spec_size() + 1,
            final(self).contents() == old(self).contents().insert(k, (h, v)),
            final(self).full(i as int),
            final(self).key_at(i as int) == k,
            final(self).hash_at(i as int) == h,
            final(self).val_at(i as int) == v,
            Self::same_except(*old(self), *final(self), i as int, i as int),
    {
        let ghost pre = *self;
        proof {
            pre.lemma_count_bounds(pre.spec_cap());
        }
        self.hashes.set(i, h);
        self.keys.set(i, k);
        self.values.set(i, Some(v));
        proof {
            Self::lemma_count_change(pre, *self, i as int, i as int, pre.spec_cap());
        }
        self.size = self.size + 1;
        proof {
            let cap = pre.spec_cap();
            let ii = i as int;
            Self::lemma_count_change(pre, *self, ii, ii, cap);
            assert forall|j: int|
                0 <= j < cap implies ((self.full(j) <==> self.values@[j] is Some) && (self.full(j)
                ==> self.hash_at(j) >= SAFE_HASH_BIT)) by {
                if j != ii {
                    assert(pre.full(j) <==> pre.values@[j] is Some);
                    assert(pre.full(j) ==> pre.hash_at(j) >= SAFE_HASH_BIT);
                }
            }
            assert forall|j: int| 0 <= j < cap implies self.rh_at(j) by {
                if j == ii {
                    if self.disp(ii) > 0 {
                        assert(self.prev_of(ii) != ii);
                        assert(Self::slot_eq(pre, *self, self.prev_of(ii)));
                    }
                } else {
                    assert(Self::slot_eq(pre, *self, j));
                    if self.full(j) && self.disp(j) > 0 {
                        assert(pre.rh_at(j));
                        if self.prev_of(j) == ii {
                            assert(pre.disp(j) == 0 || pre.full(ii));
                        } else {
                            assert(Self::slot_eq(pre, *self, self.prev_of(j)));
                        }
                    }
                }
            }
            Self::lemma_contents_one_slot(pre, *self, ii);
        }
    }

    /// Swaps the incoming triple with the full bucket at index i (the
    /// incoming key probes further than the sitting one is displaced) and
    /// hands the displaced triple back.
    fn swap_slot(&mut self, i: usize, h: u64, k: u64, v: V) -> (r: (u64, u64, V))
        requires
            old(self).wf(),
            (i as int) < old(self).spec_cap(),
            old(self).full(i as int),
            h >= SAFE_HASH_BIT,
            !old(self).has_word(k),
            old(self).dist(old(self).ideal(h), i as int) > old(self).disp(i as int),
            old(self).full(old(self).prev_of(i as int)),
            old(self).disp(old(self).prev_of(i as int)) + 1 >= old(self).dist(
                old(self).ideal(h),
                i as int,
            ),
        ensures
            final(self).wf(),
            final(self).spec_cap() == old(self).spec_cap(),
            final(self).spec_size() == old(self).spec_size(),
            final(self).contents() == old(self).contents().remove(
                old(self).key_at(i as int),
            ).insert(k, (h, v)),
            r.0 == old(self).hash_at(i as int),
            r.1 == old(self).key_at(i as int),
            r.2 == old(self).val_at(i as int),
            final(self).full(i as int),
            final(self).key_at(i as int) == k,
            final(self).hash_at(i as int) == h,
            final(self).val_at(i as int) == v,
            !final(self).has_word(r.1),
            r.0 >= SAFE_HASH_BIT,
            Self::same_except(*old(self), *final(self), i as int, i as int),
    {
        let ghost pre = *self;
        let oh = self.hashes[i];
        let ok = self.keys[i];
        self.hashes.set(i, h);
        self.keys.set(i, k);
        let ov = self.values[i].take();
        self.values.set(i, Some(v));
        proof {
            Self::lemma_count_change(pre, *self, i as int, i as int, pre.spec_cap());
            let cap = pre.spec_cap();
            let ii = i as int;
            let d = pre.dist(pre.ideal(h), ii);
            assert(self.disp(ii) == d);
            assert forall|j: int|
                0 <= j < cap implies ((self.full(j) <==> self.values@[j] is Some) && (self.full(j)
                ==> self.hash_at(j) >= SAFE_HASH_BIT)) by {
                if j != ii {
                    assert(pre.full(j) <==> pre.values@[j] is Some);
                    assert(pre.full(j) ==> pre.hash_at(j) >= SAFE_HASH_BIT);
                }
            }
            assert forall|j: int| 0 <= j < cap implies self.rh_at(j) by {
                if j == ii {
                    assert(self.prev_of(ii) != ii);
                    assert(Self::slot_eq(pre, *self, self.prev_of(ii)));
                } else {
                    assert(Self::slot_eq(pre, *self, j));
                    if self.full(j) && self.disp(j) > 0 {
                        assert(pre.rh_at(j));
                        if self.prev_of(j) == ii {
                            assert(pre.disp(j) <= pre.disp(ii) + 1);
                        } else {
                            assert(Self::slot_eq(pre, *self, self.prev_of(j)));
                        }
                    }
                }
            }
            Self::lemma_contents_one_slot(pre, *self, ii);
            // the displaced key is now nowhere in the table
            assert forall|j: int|
                0 <= j < cap && self.full(j) implies self.key_at(j) != ok by {
                if j == ii {
                    assert(pre.has_word(ok));
                } else {
                    assert(Self::slot_eq(pre, *self, j));
                    if pre.key_at(j) == ok {
                        assert(pre.key_at(j) != pre.key_at(ii));
                    }
                }
            }
        }
        (oh, ok, ov.unwrap())
    }
}

/// Robin Hood insertion at a steal site: the incoming triple takes the
/// bucket, and the displaced triple is carried forward — stealing again from
/// any bucket less displaced than itself — until it lands in an empty bucket.
/// Returns the forward shift: how far the cascade travelled from the steal
/// site to the bucket that finally received the last displaced triple.
pub fn robin_hood<V>(
    table: &mut RawTable<V>,
    index: usize,
    probe: usize,
    hash: u64,
    key: u64,
    value: V,
) -> (shift: usize)
    requires
        old(table).wf(),
        hash >= SAFE_HASH_BIT,
        old(table).vacant_ok(hash, VacantEntryState::NeqElem(index, probe)),
        !old(table).has_word(key),
        old(table).spec_size() < old(table).spec_cap(),
    ensures
        final(table).wf(),
        final(table).spec_cap() == old(table).spec_cap(),
        final(table).spec_size() == old(table).spec_size() + 1,
        final(table).contents() == old(table).contents().insert(key, (hash, value)),
        1 <= shift as int,
        (shift as int) < old(table).spec_cap(),
{
    let ghost orig = *table;
    proof {
        table.lemma_exists_empty();
        orig.lemma_contents();
    }
    let ghost ee: int = choose|x: int| 0 <= x < table.spec_cap() && !table.full(x);
    let cap = table.capacity();
    let (mut ch, mut ck, mut cv) = table.swap_slot(index, hash, key, value);
    proof {
        assert(orig.contents().contains_key(ck));
        assert(orig.contents()[ck] == (ch, cv));
        assert(table.contents().insert(ck, (ch, cv)) =~= orig.contents().insert(
            key,
            (hash, value),
        ));
        assert(table.disp(index as int) == probe as int);
        // the run behind the displaced triple is full
        let a = table.ideal(ch);
        let dd = orig.disp(index as int);
        assert(table.dist(a, table.next_of(index as int)) == dd + 1);
        assert forall|s: int| 0 <= s < dd + 1 implies #[trigger] table.full(
            table.addi(a, s),
        ) by {
            if s == dd {
                assert(table.addi(a, s) == index as int);
            } else {
                orig.lemma_back_run(index as int, dd - s);
                assert(orig.subi(index as int, dd - s) == orig.addi(a, s));
                assert(RawTable::slot_eq(orig, *table, orig.addi(a, s)));
                assert(table.full(table.addi(a, s)));
            }
        }
    }
    let mut x = if index + 1 == cap {
        0
    } else {
        index + 1
    };
    let mut shift: usize = 1;
    proof {
        assert(x as int == table.next_of(index as int));
        assert(ee != index as int);
        assert(RawTable::slot_eq(orig, *table, ee));
    }
    loop
        invariant
            orig == *old(table),
            table.wf(),
            cap == table.spec_cap(),
            table.spec_cap() == orig.spec_cap(),
            table.spec_size() == orig.spec_size(),
            0 < cap,
            ch >= SAFE_HASH_BIT,
            0 <= ee < cap,
            !table.full(ee),
            (x as int) < cap,
            (index as int) < cap,
            !table.has_word(ck),
            table.contents().insert(ck, (ch, cv)) == orig.contents().insert(key, (hash, value)),
            ({
                let dcx = table.dist(table.ideal(ch), x as int);
                dcx == 0 || (table.full(table.prev_of(x as int)) && table.disp(
                    table.prev_of(x as int),
                ) + 1 >= dcx)
            }),
            forall|s: int|
                0 <= s < table.dist(table.ideal(ch), x as int) ==> #[trigger] table.full(
                    table.addi(table.ideal(ch), s),
                ),
            shift as int == table.dist(index as int, x as int),
            1 <= shift as int,
            (shift as int) <= table.dist(index as int, ee),
        decreases table.dist(x as int, ee),
    {
        if table.hashes[x] == 0 {
            table.put_slot(x, ch, ck, cv);
            proof {
                assert(table.contents() =~= orig.contents().insert(key, (hash, value)));
            }
            return shift;
        }
        let dj = table.bucket_displacement(x);
        let home_c = table.home_index(ch);
        let dc = table.distance(home_c, x);
        proof {
            // the carried triple has not wrapped: the run behind it is full,
            // but the bucket ee is empty
            let a = table.ideal(ch);
            if table.dist(a, ee) < dc as int {
                assert(table.full(table.addi(a, table.dist(a, ee))));
                assert(table.addi(a, table.dist(a, ee)) == ee);
                assert(false);
            }
            assert(table.addi(a, dc as int) == x as int);
            if table.dist(a, ee) == dc as int {
                assert(false);
            }
        }
        if dj < dc {
            let ghost pre = *table;
            let (nh, nk, nv) = table.swap_slot(x, ch, ck, cv);
            proof {
                pre.lemma_contents();
                assert(ee != x as int);
                assert(RawTable::slot_eq(pre, *table, ee));
                assert(pre.contents().contains_key(nk));
                assert(pre.contents()[nk] == (nh, nv));
                assert(table.contents().insert(nk, (nh, nv)) =~= pre.contents().insert(
                    ck,
                    (ch, cv),
                ));
                // run of full buckets behind the newly carried triple
                let a2 = table.ideal(nh);
                assert(table.disp(x as int) == dc as int);
                assert(pre.disp(x as int) == dj as int);
                assert(pre.ideal(nh) == a2);
                assert(table.dist(a2, x as int) == dj as int);
                assert forall|s: int|
                    0 <= s < table.dist(a2, table.next_of(x as int)) implies #[trigger] table.full(
                    table.addi(a2, s),
                ) by {
                    assert(table.dist(a2, table.next_of(x as int)) == dj as int + 1);
                    if s == dj as int {
                        assert(table.addi(a2, s) == x as int);
                    } else {
                        pre.lemma_back_run(x as int, dj - s);
                        assert(pre.subi(x as int, dj - s) == pre.addi(a2, s));
                        assert(RawTable::slot_eq(pre, *table, pre.addi(a2, s)));
                        assert(table.full(table.addi(a2, s)));
                    }
                }
            }
            ch = nh;
            ck = nk;
            cv = nv;
        } else {
            proof {
                let a = table.ideal(ch);
                assert(table.addi(a, dc as int) == x as int);
                assert forall|s: int|
                    0 <= s < table.dist(a, table.next_of(x as int)) implies #[trigger] table.full(
                    table.addi(a, s),
                ) by {
                    assert(table.dist(a, table.next_of(x as int)) == dc as int + 1);
                    if s == dc as int {
                        assert(table.addi(a, s) == x as int);
                    }
                }
            }
        }
        proof {
            assert(x as int != ee);
            assert((shift as int) < table.dist(index as int, ee));
        }
        x = if x + 1 == cap {
            0
        } else {
            x + 1
        };
        shift = shift + 1;
    }
}

/// Removes the full bucket at `index` and restores the Robin Hood invariant
/// by moving each following displaced bucket back one step, stopping at the
/// first empty or undisplaced bucket. Returns the removed key word and value.
pub fn pop_internal<V>(table: &mut RawTable<V>, index: usize) -> (r: (u64, V))
    requires
        old(table).wf(),
        (index as int) < old(table).spec_cap(),
        old(table).full(index as int),
        old(table).spec_size() < old(table).spec_cap(),
    ensures
        final(table).wf(),
        final(table).spec_cap() == old(table).spec_cap(),
        final(table).spec_size() == old(table).spec_size() - 1,
        final(table).contents() == old(table).contents().remove(old(table).key_at(index as int)),
        r.0 == old(table).key_at(index as int),
        r.1 == old(table).val_at(index as int),
{
    let ghost orig = *table;
    let cap = table.capacity();
    let k0 = table.keys[index];
    let ov = table.values[index].take();
    table.hashes.set(index, 0);
    proof {
        orig.lemma_count_one(index as int, orig.spec_cap());
    }
    table.size = table.size - 1;
    proof {
        let ii = index as int;
        RawTable::lemma_count_change(orig, *table, ii, ii, orig.spec_cap());
        assert forall|j: int|
            0 <= j < cap implies ((table.full(j) <==> table.values@[j] is Some) && (table.full(j)
            ==> table.hash_at(j) >= SAFE_HASH_BIT)) by {
            if j != ii {
                assert(orig.full(j) <==> orig.values@[j] is Some);
                assert(orig.full(j) ==> orig.hash_at(j) >= SAFE_HASH_BIT);
            }
        }
        assert forall|a: int, b: int|
            0 <= a < cap && 0 <= b < cap && a != b && table.full(a) && table.full(
                b,
            ) implies table.key_at(a) != table.key_at(b) by {
            assert(a != ii && b != ii);
            assert(RawTable::slot_eq(orig, *table, a));
            assert(RawTable::slot_eq(orig, *table, b));
        }
        RawTable::lemma_contents_one_slot(orig, *table, ii);
        assert forall|i: int|
            0 <= i < cap && i != table.next_of(ii) implies table.rh_at(i) by {
            if table.full(i) && table.disp(i) > 0 {
                assert(orig.rh_at(i));
                assert(RawTable::slot_eq(orig, *table, i));
                assert(table.prev_of(i) != ii);
                assert(RawTable::slot_eq(orig, *table, table.prev_of(i)));
            }
        }
        let nx0 = table.next_of(ii);
        if table.full(nx0) && table.disp(nx0) > 0 {
            assert(nx0 != ii);
            assert(RawTable::slot_eq(orig, *table, nx0));
            assert(orig.rh_at(nx0));
            assert(orig.rh_at(ii));
            if orig.disp(ii) > 0 {
                assert(orig.prev_of(ii) != ii);
                if orig.prev_of(ii) != nx0 {
                    assert(RawTable::slot_eq(orig, *table, orig.prev_of(ii)));
                }
            }
        }
        assert(table.hole_ok(ii));
        table.lemma_two_empty(ii);
    }
    let ghost e2: int = choose|e: int|
        0 <= e < table.spec_cap() && e != index as int && !table.full(e);
    let mut x = index;
    loop
        invariant
            orig == *old(table),
            table.hole_ok(x as int),
            cap == table.spec_cap(),
            table.spec_cap() == orig.spec_cap(),
            table.spec_size() == orig.spec_size() - 1,
            table.contents() == orig.contents().remove(orig.key_at(index as int)),
            (x as int) < cap,
            0 < cap,
            0 <= e2 < cap,
            e2 != x as int,
            !table.full(e2),
        ensures
            orig == *old(table),
            table.hole_ok(x as int),
            cap == table.spec_cap(),
            table.spec_cap() == orig.spec_cap(),
            table.spec_size() == orig.spec_size() - 1,
            table.contents() == orig.contents().remove(orig.key_at(index as int)),
            (x as int) < cap,
            !table.full(table.next_of(x as int)) || table.disp(table.next_of(x as int)) == 0,
        decreases table.dist(x as int, e2),
    {
        let nx = if x + 1 == cap {
            0
        } else {
            x + 1
        };
        if table.hashes[nx] == 0 {
            break;
        }
        let d = table.bucket_displacement(nx);
        if d == 0 {
            break;
        }
        let ghost pre = *table;
        let mh = table.hashes[nx];
        let mk = table.keys[nx];
        let mv = table.values[nx].take();
        table.hashes.set(x, mh);
        table.keys.set(x, mk);
        table.values.set(x, mv);
        table.hashes.set(nx, 0);
        proof {
            let xi = x as int;
            let ni = nx as int;
            assert(ni == pre.next_of(xi));
            assert(xi != ni);
            RawTable::lemma_count_change(pre, *table, xi, ni, cap as int);
            assert forall|j: int|
                0 <= j < cap implies ((table.full(j) <==> table.values@[j] is Some) && (
            table.full(j) ==> table.hash_at(j) >= SAFE_HASH_BIT)) by {
                if j != xi && j != ni {
                    assert(pre.full(j) <==> pre.values@[j] is Some);
                    assert(pre.full(j) ==> pre.hash_at(j) >= SAFE_HASH_BIT);
                }
            }
            RawTable::lemma_contents_move(pre, *table, xi, ni);
            assert(table.disp(xi) == d - 1);
            assert forall|i: int|
                0 <= i < cap && i != table.next_of(ni) implies table.rh_at(i) by {
                if table.full(i) && table.disp(i) > 0 {
                    if i == xi {
                        if d - 1 > 0 {
                            assert(pre.disp(ni) <= 1 || (pre.full(pre.prev_of(xi)) && pre.disp(
                                pre.prev_of(xi),
                            ) + 2 >= pre.disp(ni)));
                            assert(table.prev_of(xi) != ni);
                            assert(RawTable::slot_eq(pre, *table, table.prev_of(xi)));
                        }
                    } else {
                        assert(i != ni);
                        assert(pre.rh_at(i));
                        assert(RawTable::slot_eq(pre, *table, i));
                        if table.prev_of(i) != xi {
                            assert(table.prev_of(i) != ni);
                            assert(RawTable::slot_eq(pre, *table, table.prev_of(i)));
                        }
                    }
                }
            }
            let nni = table.next_of(ni);
            if table.full(nni) && table.disp(nni) > 0 {
                assert(nni != ni);
                if nni != xi {
                    assert(RawTable::slot_eq(pre, *table, nni));
                    assert(pre.rh_at(nni));
                }
            }
            assert(table.hole_ok(ni));
            assert(RawTable::slot_eq(pre, *table, e2));
        }
        x = nx;
    }
    proof {
        assert forall|i: int| 0 <= i < cap implies table.rh_at(i) by {
            if i != table.next_of(x as int) {
                assert(table.hole_ok(x as int));
            }
        }
        assert(table.wf());
    }
    (k0, ov.unwrap())
}

impl<V> RawTable<V> {
    /// Inserts the triple at a vacant site that a probe for `hash` returned,
    /// Robin-Hood-shifting displaced buckets if the site is a steal. Returns
    /// the displacement the new key ends up with and the forward shift of the
    /// cascade (zero when the site was genuinely empty).
    pub fn insert_at_vacant(&mut self, hash: u64, elem: VacantEntryState, key: u64, value: V) -> (r:
        (usize, usize))
        requires
            old(self).wf(),
            hash >= SAFE_HASH_BIT,
            old(self).vacant_ok(hash, elem),
            !old(self).has_word(key),
            old(self).spec_size() < old(self).spec_cap(),
        ensures
            final(self).wf(),
            final(self).spec_cap() == old(self).spec_cap(),
            final(self).spec_size() == old(self).spec_size() + 1,
            final(self).contents() == old(self).contents().insert(key, (hash, value)),
            r.0 as int == (match elem {
                VacantEntryState::NoElem(i) => old(self).dist(old(self).ideal(hash), i as int),
                VacantEntryState::NeqElem(_, p) => p as int,
            }),
            (r.1 as int) < old(self).spec_cap(),
            elem is NoElem ==> r.1 == 0,
    {
        match elem {
            VacantEntryState::NoElem(i) => {
                let home = self.home_index(hash);
                let d = self.distance(home, i);
                self.put_slot(i, hash, key, value);
                (d, 0)
            },
            VacantEntryState::NeqElem(i, p) => {
                let shift = robin_hood(self, i, p, hash, key, value);
                (p, shift)
            },
        }
    }

    /// The state of the backward-shift loop of a removal: the invariant holds
    /// everywhere except that the bucket right of the hole at x may still be
    /// displaced, and then the bucket left of the hole is rich enough to
    /// receive it.
    spec fn hole_ok(self, x: int) -> bool {
        &&& self.basic()
        &&& (self.spec_cap() == 0 || is_pow2(self.spec_cap()))
        &&& self.spec_cap() <= CAP_LIMIT as int
        &&& self.size as int == self.count_full(self.spec_cap())
        &&& 0 <= x < self.spec_cap()
        &&& !self.full(x)
        &&& forall|i: int|
            0 <= i < self.spec_cap() ==> (#[trigger] self.full(i) <==> self.values@[i] is Some)
        &&& forall|i: int|
            0 <= i < self.spec_cap() && #[trigger] self.full(i) ==> self.hash_at(i)
                >= SAFE_HASH_BIT
        &&& self.keys_unique()
        &&& forall|i: int|
            0 <= i < self.spec_cap() && i != self.next_of(x) ==> #[trigger] self.rh_at(i)
        &&& (self.full(self.next_of(x)) && self.disp(self.next_of(x)) > 0 ==> (self.disp(
            self.next_of(x),
        ) <= 1 || (self.full(self.prev_of(x)) && self.disp(self.prev_of(x)) + 2 >= self.disp(
            self.next_of(x),
        ))))
    }

    /// A ring with all buckets full but one has a count one short of its
    /// length.
    proof fn lemma_count_all_but_one(self, x: int, n: int)
        requires
            0 <= x < n,
            !self.full(x),
            forall|i: int| 0 <= i < n && i != x ==> self.full(i),
        ensures
            self.count_full(n) == n - 1,
        decreases n,
    {
        if x == n - 1 {
            self.lemma_count_bounds(n - 1);
        } else {
            self.lemma_count_all_but_one(x, n - 1);
        }
    }

    /// A table at least two short of its capacity has an empty bucket besides
    /// the given one.
    proof fn lemma_two_empty(self, x: int)
        requires
            self.size as int == self.count_full(self.spec_cap()),
            self.spec_size() <= self.spec_cap() - 2,
            0 <= x < self.spec_cap(),
            !self.full(x),
        ensures
            exists|e: int| 0 <= e < self.spec_cap() && e != x && !self.full(e),
    {
        if !(exists|e: int| 0 <= e < self.spec_cap() && e != x && !self.full(e)) {
            assert(forall|i: int| 0 <= i < self.spec_cap() && i != x ==> self.full(i));
            self.lemma_count_all_but_one(x, self.spec_cap());
            assert(false);
        }
    }

    /// A shared reference to the value of the full bucket at index i.
    pub fn value_ref(&self, i: usize) -> (v: &V)
        requires
            self.wf(),
            i < self.spec_cap(),
            self.full(i as int),
        ensures
            *v == self.val_at(i as int),
    {
        self.values[i].as_ref().unwrap()
    }

    /// Replaces the value of the full bucket at index i, returning the old
    /// value. Hash and key stay; no bucket moves.
    pub fn replace_value(&mut self, i: usize, v: V) -> (r: V)
        requires
            old(self).wf(),
            i < old(self).spec_cap(),
            old(self).full(i as int),
        ensures
            final(self).wf(),
            final(self).spec_cap() == old(self).spec_cap(),
            final(self).spec_size() == old(self).spec_size(),
            final(self).contents() == old(self).contents().insert(
                old(self).key_at(i as int),
                (old(self).hash_at(i as int), v),
            ),
            r == old(self).val_at(i as int),
            final(self).full(i as int),
            final(self).key_at(i as int) == old(self).key_at(i as int),
            final(self).hash_at(i as int) == old(self).hash_at(i as int),
            final(self).val_at(i as int) == v,
    {
        let ghost pre = *self;
        let ov = self.values[i].take();
        self.values.set(i, Some(v));
        proof {
            let cap = pre.spec_cap();
            let ii = i as int;
            RawTable::lemma_count_change(pre, *self, ii, ii, cap);
            assert forall|j: int|
                0 <= j < cap implies ((self.full(j) <==> self.values@[j] is Some) && (self.full(j)
                ==> self.hash_at(j) >= SAFE_HASH_BIT)) by {
                if j != ii {
                    assert(pre.full(j) <==> pre.values@[j] is Some);
                    assert(pre.full(j) ==> pre.hash_at(j) >= SAFE_HASH_BIT);
                }
            }
            assert forall|j: int| 0 <= j < cap implies self.rh_at(j) by {
                assert(pre.rh_at(j));
            }
            RawTable::lemma_contents_one_slot(pre, *self, ii);
            assert(pre.contents().remove(pre.key_at(ii)).insert(
                pre.key_at(ii),
                (pre.hash_at(ii), v),
            ) =~= pre.contents().insert(pre.key_at(ii), (pre.hash_at(ii), v)));
        }
        ov.unwrap()
    }

    /// Empties every bucket, keeping the allocation.
    pub fn clear(&mut self)
        requires
            old(self).wf(),
        ensures
            final(self).wf(),
            final(self).spec_cap() == old(self).spec_cap(),
            final(self).spec_size() == 0,
            final(self).contents() == Map::<u64, (u64, V)>::empty(),
    {
        let cap = self.hashes.len();
        let mut i: usize = 0;
        while i < cap
            invariant
                old(self).wf(),
                i <= cap,
                cap == self.spec_cap(),
                self.spec_cap() == old(self).spec_cap(),
                self.basic(),
                self.keys@.len() == old(self).keys@.len(),
                forall|j: int| 0 <= j < i ==> self.hashes@[j] == 0 && self.values@[j] is None,
            decreases cap - i,
        {
            self.hashes.set(i, 0);
            self.values.set(i, None);
            i = i + 1;
        }
        self.size = 0;
        proof {
            self.lemma_all_empty(cap as int);
            assert forall|j: int| 0 <= j < cap implies self.rh_at(j) by {
                assert(!self.full(j));
            }
        }
    }

    /// The (key word, value) pairs of the full buckets below n, in bucket
    /// order.
    pub closed spec fn extracted_upto(self, n: int) -> Seq<(u64, V)>
        decreases n,
    {
        if n <= 0 {
            Seq::empty()
        } else if self.full(n - 1) {
            self.extracted_upto(n - 1).push((self.key_at(n - 1), self.val_at(n - 1)))
        } else {
            self.extracted_upto(n - 1)
        }
    }

    /// Entry a of the extracted sequence below n comes from some full bucket.
    spec fn extracted_entry_ok(self, n: int, a: int) -> bool {
        exists|j: int|
            0 <= j < n && self.full(j) && self.key_at(j) == self.extracted_upto(n)[a].0
                && self.val_at(j) == self.extracted_upto(n)[a].1
    }

    /// The full bucket at j appears in the extracted sequence below n.
    spec fn extracted_covers(self, n: int, j: int) -> bool {
        exists|a: int|
            0 <= a < self.extracted_upto(n).len() && (#[trigger] self.extracted_upto(n)[a]).0
                == self.key_at(j)
    }

    /// The extracted sequence lists each full bucket's pair exactly once.
    proof fn lemma_extracted(self, n: int)
        requires
            self.keys_unique(),
            n <= self.spec_cap(),
        ensures
            n >= 0 ==> self.extracted_upto(n).len() == self.count_full(n),
            forall|a: int|
                0 <= a < self.extracted_upto(n).len() ==> #[trigger] self.extracted_entry_ok(n, a),
            forall|j: int| 0 <= j < n && self.full(j) ==> #[trigger] self.extracted_covers(n, j),
            forall|a: int, b: int|
                0 <= a < b < self.extracted_upto(n).len() ==> self.extracted_upto(n)[a].0
                    != self.extracted_upto(n)[b].0,
        decreases n,
    {
        if n > 0 {
            self.lemma_extracted(n - 1);
            assert forall|a: int|
                0 <= a < self.extracted_upto(n).len() implies #[trigger] self.extracted_entry_ok(
                n,
                a,
            ) by {
                if self.full(n - 1) && a == self.extracted_upto(n).len() - 1 {
                    assert(self.extracted_upto(n)[a] == (self.key_at(n - 1), self.val_at(n - 1)));
                    assert(0 <= n - 1 < n && self.full(n - 1) && self.key_at(n - 1)
                        == self.extracted_upto(n)[a].0 && self.val_at(n - 1)
                        == self.extracted_upto(n)[a].1);
                } else {
                    assert(self.extracted_upto(n)[a] == self.extracted_upto(n - 1)[a]);
                    assert(self.extracted_entry_ok(n - 1, a));
                    let j = choose|j: int|
                        0 <= j < n - 1 && self.full(j) && self.key_at(j) == self.extracted_upto(
                            n - 1,
                        )[a].0 && self.val_at(j) == self.extracted_upto(n - 1)[a].1;
                    assert(0 <= j < n && self.full(j) && self.key_at(j) == self.extracted_upto(
                        n,
                    )[a].0 && self.val_at(j) == self.extracted_upto(n)[a].1);
                }
            }
            assert forall|j: int|
                0 <= j < n && self.full(j) implies #[trigger] self.extracted_covers(n, j) by {
                if j == n - 1 {
                    let a = self.extracted_upto(n).len() - 1;
                    assert((#[trigger] self.extracted_upto(n)[a]).0 == self.key_at(n - 1));
                } else {
                    assert(self.extracted_covers(n - 1, j));
                    let a = choose|a: int|
                        0 <= a < self.extracted_upto(n - 1).len() && (
                        #[trigger] self.extracted_upto(n - 1)[a]).0 == self.key_at(j);
                    assert(self.extracted_upto(n)[a] == self.extracted_upto(n - 1)[a]);
                    assert(0 <= a < self.extracted_upto(n).len() && (
                    #[trigger] self.extracted_upto(n)[a]).0 == self.key_at(j));
                }
            }
            assert forall|a: int, b: int|
                0 <= a < b < self.extracted_upto(n).len() implies self.extracted_upto(n)[a].0
                != self.extracted_upto(n)[b].0 by {
                assert(self.extracted_upto(n)[a] == self.extracted_upto(n - 1)[a]);
                if self.full(n - 1) && b == self.extracted_upto(n).len() - 1 {
                    assert(self.extracted_entry_ok(n - 1, a));
                    let j = choose|j: int|
                        0 <= j < n - 1 && self.full(j) && self.key_at(j) == self.extracted_upto(
                            n - 1,
                        )[a].0 && self.val_at(j) == self.extracted_upto(n - 1)[a].1;
                    assert(self.key_at(j) != self.key_at(n - 1));
                } else {
                    assert(self.extracted_upto(n)[b] == self.extracted_upto(n - 1)[b]);
                }
            }
        }
    }

    /// Consumes the table and hands out every (key word, value) pair it held,
    /// each surviving pair exactly once.
    pub fn take_all(self) -> (r: Vec<(u64, V)>)
        requires
            self.wf(),
        ensures
            r@.len() == self.spec_size(),
            forall|a: int, b: int| 0 <= a < b < r@.len() ==> r@[a].0 != r@[b].0,
            forall|a: int|
                0 <= a < r@.len() ==> #[trigger] self.contents().contains_key(r@[a].0)
                    && self.contents()[r@[a].0].1 == r@[a].1,
            forall|k: u64|
                #[trigger] self.contents().contains_key(k) ==> exists|a: int|
                    0 <= a < r@.len() && r@[a].0 == k,
    {
        let ghost orig = self;
        let mut me = self;
        let cap = me.hashes.len();
        let mut out: Vec<(u64, V)> = Vec::new();
        let mut i: usize = 0;
        proof {
            assert(out@ =~= orig.extracted_upto(0));
        }
        while i < cap
            invariant
                orig.wf(),
                i <= cap,
                cap == orig.spec_cap(),
                me.hashes@ == orig.hashes@,
                me.keys@ == orig.keys@,
                me.values@.len() == orig.values@.len(),
                forall|j: int| i <= j < cap ==> me.values@[j] == orig.values@[j],
                out@ == orig.extracted_upto(i as int),
            decreases cap - i,
        {
            if me.hashes[i] != 0 {
                proof {
                    assert(orig.full(i as int));
                }
                let k = me.keys[i];
                let v = me.values[i].take();
                out.push((k, v.unwrap()));
            }
            proof {
                assert(out@ =~= orig.extracted_upto(i as int + 1));
            }
            i = i + 1;
        }
        proof {
            let n = cap as int;
            orig.lemma_extracted(n);
            orig.lemma_contents_upto(orig.spec_cap());
            assert forall|a: int|
                0 <= a < out@.len() implies #[trigger] orig.contents().contains_key(out@[a].0)
                && orig.contents()[out@[a].0].1 == out@[a].1 by {
                assert(orig.extracted_entry_ok(n, a));
                let j = choose|j: int|
                    0 <= j < n && orig.full(j) && orig.key_at(j) == orig.extracted_upto(n)[a].0
                        && orig.val_at(j) == orig.extracted_upto(n)[a].1;
                assert(orig.contents()[orig.key_at(j)] == (orig.hash_at(j), orig.val_at(j)));
            }
            assert forall|k: u64| #[trigger] orig.contents().contains_key(k) implies exists|a: int|
                0 <= a < out@.len() && out@[a].0 == k by {
                let j = choose|j: int| 0 <= j < n && orig.full(j) && orig.key_at(j) == k;
                assert(orig.extracted_covers(n, j));
                let a = choose|a: int|
                    0 <= a < orig.extracted_upto(n).len() && (#[trigger] orig.extracted_upto(
                        n,
                    )[a]).0 == orig.key_at(j);
                assert(0 <= a < out@.len() && out@[a].0 == k);
            }
        }
        out
    }

    /// The displacements of the full buckets, in bucket order.
    pub closed spec fn disp_seq_upto(self, n: int) -> Seq<usize>
        decreases n,
    {
        if n <= 0 {
            Seq::empty()
        } else if self.full(n - 1) {
            self.disp_seq_upto(n - 1).push(self.disp(n - 1) as usize)
        } else {
            self.disp_seq_upto(n - 1)
        }
    }

    pub closed spec fn disp_seq(self) -> Seq<usize> {
        self.disp_seq_upto(self.spec_cap())
    }

    /// Appends, for each full bucket in bucket order, its displacement. A
    /// diagnostic accessor: the output describes probe-length distribution.
    pub fn stats(&self, out: &mut Vec<usize>)
        requires
            self.wf(),
        ensures
            final(out)@ == old(out)@ + self.disp_seq(),
    {
        let cap = self.hashes.len();
        let mut i: usize = 0;
        proof {
            assert(out@ =~= old(out)@ + self.disp_seq_upto(0));
        }
        while i < cap
            invariant
                self.wf(),
                i <= cap,
                cap == self.spec_cap(),
                out@ == old(out)@ + self.disp_seq_upto(i as int),
            decreases cap - i,
        {
            if self.hashes[i] != 0 {
                let d = self.bucket_displacement(i);
                out.push(d);
            }
            proof {
                assert(out@ =~= old(out)@ + self.disp_seq_upto(i as int + 1));
            }
            i = i + 1;
        }
    }

    /// The displacement sequence has one entry per full bucket.
    proof fn lemma_disp_seq_len(self, n: int)
        requires
            n >= 0,
        ensures
            self.disp_seq_upto(n).len() == self.count_full(n),
        decreases n,
    {
        if n > 0 {
            self.lemma_disp_seq_len(n - 1);
        }
    }

    /// What `stats` reports is bounded: there are exactly `size` entries, and
    /// their cumulative sum is at most the number of entries — hence also the
    /// capacity — times the largest displacement observed.
    pub proof fn lemma_stats_bound(self)
        requires
            self.wf(),
        ensures
            self.disp_seq().len() == self.spec_size(),
            sum_of(self.disp_seq()) <= self.spec_size() * max_of(self.disp_seq()),
            sum_of(self.disp_seq()) <= self.spec_cap() * max_of(self.disp_seq()),
    {
        self.lemma_disp_seq_len(self.spec_cap());
        lemma_sum_le_len_times_max(self.disp_seq());
        self.lemma_count_bounds(self.spec_cap());
        assert(self.spec_size() * max_of(self.disp_seq()) <= self.spec_cap() * max_of(
            self.disp_seq(),
        )) by (nonlinear_arith)
            requires
                self.spec_size() <= self.spec_cap(),
                0 <= max_of(self.disp_seq()),
        ;
    }

    /// Walks the table and checks the stored invariants — every stored hash
    /// nonzero with its high bit set, and the Robin Hood adjacency condition
    /// at every full bucket — reporting whether all hold. Under the table
    /// invariant this always reports true; it exists so that running code can
    /// observe the checked conditions directly.
    pub fn check_invariants(&self) -> (b: bool)
        requires
            self.wf(),
        ensures
            b,
    {
        let cap = self.hashes.len();
        let mut i: usize = 0;
        while i < cap
            invariant
                self.wf(),
                i <= cap,
                cap == self.spec_cap(),
            decreases cap - i,
        {
            if self.hashes[i] != 0 {
                proof {
                    assert(self.full(i as int));
                }
                if self.hashes[i] < SAFE_HASH_BIT {
                    proof {
                        assert(false);
                    }
                    return false;
                }
                let d = self.bucket_displacement(i);
                if d > 0 {
                    let prev = if i == 0 {
                        cap - 1
                    } else {
                        i - 1
                    };
                    proof {
                        assert(self.rh_at(i as int));
                        assert(prev as int == self.prev_of(i as int));
                    }
                    if self.hashes[prev] == 0 {
                        proof {
                            assert(false);
                        }
                        return false;
                    }
                    let dp = self.bucket_displacement(prev);
                    if d > dp + 1 {
                        proof {
                            assert(false);
                        }
                        return false;
                    }
                }
            }
            i = i + 1;
        }
        true
    }
}

/// The sum of a sequence of displacements.
pub open spec fn sum_of(s: Seq<usize>) -> int
    decreases s.len(),
{
    if s.len() == 0 {
        0
    } else {
        sum_of(s.drop_last()) + s.last()
    }
}

/// The largest entry of a sequence of displacements (zero when empty).
pub open spec fn max_of(s: Seq<usize>) -> int
    decreases s.len(),
{
    if s.len() == 0 {
        0
    } else if s.last() as int >= max_of(s.drop_last()) {
        s.last() as int
    } else {
        max_of(s.drop_last())
    }
}

/// The sum of a sequence is at most its length times its largest entry.
pub proof fn lemma_sum_le_len_times_max(s: Seq<usize>)
    ensures
        0 <= max_of(s),
        sum_of(s) <= s.len() * max_of(s),
    decreases s.len(),
{
    if s.len() > 0 {
        lemma_sum_le_len_times_max(s.drop_last());
        assert((s.len() - 1) * max_of(s.drop_last()) <= (s.len() - 1) * max_of(s) && (s.len() - 1)
            * max_of(s) + max_of(s) == s.len() * max_of(s)) by (nonlinear_arith)
            requires
                max_of(s.drop_last()) <= max_of(s),
                s.len() >= 1,
        ;
    }
}

} // verus!
