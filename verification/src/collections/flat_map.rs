//! Bounded hash map from `usize` keys to `usize` values, using open
//! addressing and linear probing over a flat table that stores each key next
//! to its value.
//!
//! Key `0` marks an empty cell and key `usize::MAX` a removed one (a
//! tombstone); neither can be used as a key. A key's probe sequence starts at
//! the cell that the FNV-1a hash of its bytes, in the machine's byte order,
//! selects, and visits every cell once, wrapping around the table.
//!
//! A lookup walks the probe sequence until it finds the key or an empty cell.
//! An insert walks it once in the same way, remembering the first tombstone
//! it passes: a stored key has its value updated in place, and an absent key
//! takes the first free cell (tombstone or empty) on its probe sequence. Each
//! key is therefore stored in at most one cell, and the
//! table behaves as a map from keys to values with at most `capacity` keys.

use vstd::prelude::*;
use vstd::arithmetic::power2::pow2;
use crate::collections::ring::{lemma_offset_of_slot, lemma_offsets_distinct, lemma_slot_full_turn, slot_of};

verus! {

/// Key of a cell that has never held an entry.
pub const EMPTY: usize = 0;

/// Key of a cell whose entry was removed.
pub const TOMBSTONE: usize = usize::MAX;

/// FNV-1a offset basis for 64-bit hashes.
pub const FNV_OFFSET_BASIS: u64 = 0xcbf29ce484222325;

/// FNV-1a prime for 64-bit hashes.
pub const FNV_PRIME: u64 = 0x100000001b3;

/// The 64-bit FNV-1a digest of a byte string.
pub open spec fn fnv1a_digest(bytes: Seq<u8>) -> u64
    decreases bytes.len(),
{
    if bytes.len() == 0 {
        FNV_OFFSET_BASIS
    } else {
        vstd::wrapping::u64_specs::wrapping_mul(
            fnv1a_digest(bytes.drop_last()) ^ (bytes.last() as u64),
            FNV_PRIME,
        )
    }
}

/// The bytes of `x`, least significant first.
pub open spec fn le_bytes(x: usize) -> Seq<u8> {
    Seq::new((usize::BITS / 8) as nat, |i: int| ((x as int / pow2((8 * i) as nat) as int) % 256) as u8)
}

/// A key that the map can hold.
pub open spec fn is_valid_key(key: usize) -> bool {
    key != EMPTY && key != TOMBSTONE
}

/// A cell whose key an insert may take over.
pub open spec fn is_free(key: usize) -> bool {
    key == EMPTY || key == TOMBSTONE
}

/// The first cell, probing from step `t` of the sequence that starts at cell
/// `s`, that is free or holds `key`. For an absent key it is the cell that an
/// insert takes.
spec fn claim_from(cells: Seq<(usize, usize)>, s: int, key: usize, t: nat) -> Option<int>
    decreases cells.len() - t,
{
    if t >= cells.len() {
        None
    } else {
        let c = slot_of(s + t, cells.len() as int);
        if is_free(cells[c].0) || cells[c].0 == key {
            Some(c)
        } else {
            claim_from(cells, s, key, t + 1)
        }
    }
}

/// The cell where a lookup of `key` finds it, probing from step `t` of the
/// sequence that starts at cell `s`; the lookup gives up at an empty cell.
spec fn find_from(cells: Seq<(usize, usize)>, s: int, key: usize, t: nat) -> Option<int>
    decreases cells.len() - t,
{
    if t >= cells.len() {
        None
    } else {
        let c = slot_of(s + t, cells.len() as int);
        if cells[c].0 == key {
            Some(c)
        } else if cells[c].0 == EMPTY {
            None
        } else {
            find_from(cells, s, key, t + 1)
        }
    }
}

/// The bytes of `key` in the machine's byte order.
///
/// Specifies `usize::to_ne_bytes`, whose documentation promises the memory
/// representation in native byte order; every target is either little- or
/// big-endian, so the bytes are those of `key` least significant first, or
/// that sequence reversed. Which of the two depends on the machine and is not
/// stated.
#[verifier::external_body]
fn native_bytes(key: usize) -> (bytes: Vec<u8>)
    ensures
        bytes@ == le_bytes(key) || bytes@ == le_bytes(key).reverse(),
{
    key.to_ne_bytes().to_vec()
}

/// FNV-1a hash of a byte string.
pub fn fnv1a(bytes: &[u8]) -> (hash: u64)
    ensures
        hash == fnv1a_digest(bytes@),
{
    let mut hash: u64 = FNV_OFFSET_BASIS;
    let mut i: usize = 0;
    while i < bytes.len()
        invariant
            i <= bytes@.len(),
            hash == fnv1a_digest(bytes@.subrange(0, i as int)),
        decreases bytes@.len() - i,
    {
        proof {
            let next = bytes@.subrange(0, i + 1);
            assert(next.drop_last() =~= bytes@.subrange(0, i as int));
            assert(next.last() == bytes@[i as int]);
        }
        hash = hash ^ (bytes[i] as u64);
        hash = hash.wrapping_mul(FNV_PRIME);
        i = i + 1;
    }
    proof {
        assert(bytes@.subrange(0, bytes@.len() as int) =~= bytes@);
    }
    hash
}


/// The FNV-1a hash of `key`'s bytes, least significant first when
/// `little_endian` holds and most significant first otherwise, cut to
/// `usize`.
pub open spec fn key_hash(key: usize, little_endian: bool) -> usize {
    fnv1a_digest(if little_endian { le_bytes(key) } else { le_bytes(key).reverse() }) as usize
}

/// The map holds at most `cap` keys; inserting a new key fails once it holds
/// `cap` keys, and inserting an invalid key always fails. An existing key's
/// value is replaced.
pub open spec fn map_insert(m: Map<usize, usize>, cap: nat, key: usize, value: usize) -> (Map<usize, usize>, bool) {
    if is_valid_key(key) && (m.dom().contains(key) || m.len() < cap) {
        (m.insert(key, value), true)
    } else {
        (m, false)
    }
}

/// The value stored for `key`, if any.
pub open spec fn map_get(m: Map<usize, usize>, key: usize) -> Option<usize> {
    if m.dom().contains(key) {
        Some(m[key])
    } else {
        None
    }
}

/// Removing `key`: it leaves the map, and the result tells whether it was
/// there.
pub open spec fn map_remove(m: Map<usize, usize>, key: usize) -> (Map<usize, usize>, bool) {
    (m.remove(key), m.dom().contains(key))
}

/// The valid keys stored in the first `n` cells.
spec fn keys_in(cells: Seq<(usize, usize)>, n: int) -> Set<usize> {
    Set::new(|k: usize| is_valid_key(k) && exists|c: int| 0 <= c < n && cells[c].0 == k)
}

/// A cell that holds `key`.
spec fn cell_of(cells: Seq<(usize, usize)>, key: usize) -> int {
    choose|c: int| 0 <= c < cells.len() && cells[c].0 == key
}

/// The entries of a table: each stored valid key with its value.
spec fn entries(cells: Seq<(usize, usize)>) -> Map<usize, usize> {
    keys_in(cells, cells.len() as int).mk_map(|k: usize| cells[cell_of(cells, k)].1)
}

/// No valid key is stored in two cells.
spec fn unique_keys(cells: Seq<(usize, usize)>) -> bool {
    forall|i: int, j: int|
        0 <= i < cells.len() && 0 <= j < cells.len() && is_valid_key(#[trigger] cells[i].0) && cells[i].0
            == (#[trigger] cells[j]).0 ==> i == j
}

/// The number of cells among the first `n` that hold a valid key.
spec fn live_count(cells: Seq<(usize, usize)>, n: nat) -> nat
    decreases n,
{
    if n == 0 {
        0
    } else {
        live_count(cells, (n - 1) as nat) + if is_valid_key(cells[n - 1].0) {
            1nat
        } else {
            0nat
        }
    }
}

/// Every stored key is found by a lookup that probes from that key's own
/// start cell, as `start` gives it.
spec fn is_consistent(cells: Seq<(usize, usize)>, start: spec_fn(usize) -> int) -> bool {
    forall|c: int|
        0 <= c < cells.len() && is_valid_key(#[trigger] cells[c].0) ==> find_from(
            cells,
            start(cells[c].0),
            cells[c].0,
            0,
        ) == Some(c)
}

/// The bytes of `key` in the given byte order.
fn key_bytes(key: usize, little_endian: bool) -> (bytes: Vec<u8>)
    ensures
        bytes@ == if little_endian {
            le_bytes(key)
        } else {
            le_bytes(key).reverse()
        },
{
    let n: usize = (usize::BITS / 8) as usize;
    let mut le: Vec<u8> = Vec::new();
    let mut rest: usize = key;
    let mut i: usize = 0;
    proof {
        vstd::arithmetic::power2::lemma2_to64();
        assert(pow2((8 * 0int) as nat) == 1);
        assert(key as int / 1 == key as int);
    }
    while i < n
        invariant
            i <= n,
            n == usize::BITS / 8,
            le@.len() == i,
            rest as int == key as int / pow2((8 * i) as nat) as int,
            forall|j: int| 0 <= j < i ==> le@[j] == le_bytes(key)[j],
        decreases n - i,
    {
        proof {
            vstd::arithmetic::power2::lemma2_to64();
            vstd::arithmetic::power2::lemma_pow2_pos((8 * i) as nat);
            vstd::arithmetic::power2::lemma_pow2_adds((8 * i) as nat, 8);
            assert((8 * i) as nat + 8 == (8 * (i + 1)) as nat);
            vstd::arithmetic::div_mod::lemma_div_denominator(key as int, pow2((8 * i) as nat) as int, 256);
        }
        le.push((rest % 256) as u8);
        rest = rest / 256;
        i = i + 1;
    }
    proof {
        assert(le@ =~= le_bytes(key));
    }
    if little_endian {
        return le;
    }
    let mut be: Vec<u8> = Vec::new();
    let mut j: usize = n;
    while j > 0
        invariant
            j <= n,
            le@.len() == n,
            be@.len() == n - j,
            forall|m: int| 0 <= m < n - j ==> be@[m] == le@[n - 1 - m],
        decreases j,
    {
        j = j - 1;
        be.push(le[j]);
    }
    proof {
        assert(be@ =~= le@.reverse());
    }
    be
}

/// FNV-1a hash of a key's bytes in the given byte order.
fn hash_key(key: usize, little_endian: bool) -> (hash: usize)
    ensures
        hash == key_hash(key, little_endian),
{
    let bytes = key_bytes(key, little_endian);
    let digest = fnv1a(bytes.as_slice());
    digest as usize
}

/// Where a walk along a key's probe sequence ended.
enum Probe {
    /// The cell that holds the key.
    Found(usize),
    /// The key is absent; the first free cell on its probe sequence.
    Free(usize),
    /// The key is absent and no cell is free.
    Full,
}

/// Bounded hash map with open addressing and linear probing.
pub struct FlatLockFreeMap {
    table: Vec<usize>,
    capacity: usize,
    little_endian: bool,
}

impl FlatLockFreeMap {
    /// The number of cells, which bounds the number of keys.
    pub closed spec fn capacity(&self) -> nat {
        self.capacity as nat
    }

    /// Whether keys are hashed least significant byte first: the byte order
    /// of the machine, recorded when the map was created.
    pub closed spec fn hashes_little_endian(&self) -> bool {
        self.little_endian
    }

    /// The cells of the table, each a key and its value.
    closed spec fn cells(&self) -> Seq<(usize, usize)> {
        Seq::new(self.capacity as nat, |c: int| (self.table@[2 * c], self.table@[2 * c + 1]))
    }

    /// The cell where `key`'s probe sequence starts.
    closed spec fn start(&self, key: usize) -> int {
        slot_of(key_hash(key, self.little_endian) as int, self.capacity as int)
    }

    /// The map's invariant: the table is laid out in pairs, and every stored
    /// key is found by a lookup from its own start cell.
    pub closed spec fn wf(&self) -> bool {
        &&& self.table@.len() == 2 * self.capacity
        &&& self.capacity <= usize::MAX / 2
        &&& is_consistent(self.cells(), |k: usize| self.start(k))
    }

    /// The stored entries: each key with its value.
    pub closed spec fn view(&self) -> Map<usize, usize> {
        entries(self.cells())
    }

    /// Creates an empty map with `capacity` cells.
    pub fn new(capacity: usize) -> (map: Self)
        requires
            capacity <= usize::MAX / 2,
        ensures
            map.wf(),
            map.capacity() == capacity,
            map@ == Map::<usize, usize>::empty(),
    {
        let probe = native_bytes(1);
        proof {
            vstd::arithmetic::power2::lemma2_to64();
            vstd::arithmetic::power2::lemma2_to64_rest();
            let n = (usize::BITS / 8) as int;
            assert(n == 4 || n == 8);
            assert(pow2((8 * 0int) as nat) == 1);
            assert(le_bytes(1)[0] == 1);
            assert(le_bytes(1).reverse()[0] == le_bytes(1)[n - 1]);
            let p = pow2((8 * (n - 1)) as nat) as int;
            assert(p > 1) by {
                if n == 4 {
                    assert((8 * (n - 1)) as nat == 24);
                } else {
                    assert((8 * (n - 1)) as nat == 56);
                }
            }
            vstd::arithmetic::div_mod::lemma_basic_div(1, p);
            assert(le_bytes(1)[n - 1] == 0);
        }
        let little_endian = probe[0] == 1;
        let mut table: Vec<usize> = Vec::with_capacity(capacity * 2);
        let mut i: usize = 0;
        while i < capacity * 2
            invariant
                i <= capacity * 2,
                capacity <= usize::MAX / 2,
                table@.len() == i,
                forall|j: int| 0 <= j < i ==> #[trigger] table@[j] == EMPTY,
            decreases capacity * 2 - i,
        {
            table.push(EMPTY);
            i = i + 1;
        }
        let map = FlatLockFreeMap { table, capacity, little_endian };
        proof {
            assert(keys_in(map.cells(), capacity as int) =~= Set::<usize>::empty());
            assert(map@ =~= Map::<usize, usize>::empty());
        }
        map
    }

    /// Whether this map hashes keys least significant byte first.
    pub fn is_little_endian(&self) -> (little_endian: bool)
        ensures
            little_endian == self.hashes_little_endian(),
    {
        self.little_endian
    }

    /// Lookups from a key's start cell agree with the entries.
    proof fn lemma_lookup(&self, key: usize)
        requires
            self.wf(),
            is_valid_key(key),
        ensures
            find_from(self.cells(), self.start(key), key, 0) is Some <==> self@.dom().contains(key),
            find_from(self.cells(), self.start(key), key, 0) is Some ==> {
                let c = find_from(self.cells(), self.start(key), key, 0)->Some_0;
                &&& 0 <= c < self.capacity
                &&& self.cells()[c].0 == key
                &&& self@[key] == self.cells()[c].1
            },
    {
        let cells = self.cells();
        let f = find_from(cells, self.start(key), key, 0);
        lemma_consistent_unique(cells, |k: usize| self.start(k));
        if self@.dom().contains(key) {
            let c = choose|c: int| 0 <= c < cells.len() as int && cells[c].0 == key;
            assert(is_valid_key(cells[c].0));
        }
        if f is Some {
            lemma_find_cell(cells, self.start(key), key, 0);
            let d = f->Some_0;
            assert(keys_in(cells, cells.len() as int).contains(key));
            let c = cell_of(cells, key);
            assert(is_valid_key(cells[c].0));
        }
    }

    /// The number of entries is the number of cells holding a key; the map
    /// has room for a new key exactly when some cell is free.
    proof fn lemma_size(&self)
        requires
            self.wf(),
        ensures
            self@.len() <= self.capacity,
            self@.len() < self.capacity <==> exists|c: int|
                0 <= c < self.capacity && #[trigger] is_free(self.cells()[c].0),
    {
        let cells = self.cells();
        lemma_consistent_unique(cells, |k: usize| self.start(k));
        lemma_keys_count(cells, cells.len());
        lemma_live_count(cells, cells.len());
    }

    /// The cell where `key` is stored, if it is.
    fn find_cell(&self, key: usize) -> (cell: Option<usize>)
        requires
            self.wf(),
            self.capacity > 0,
            is_valid_key(key),
        ensures
            cell is Some <==> find_from(self.cells(), self.start(key), key, 0) is Some,
            cell is Some ==> cell->Some_0 == find_from(self.cells(), self.start(key), key, 0)->Some_0,
    {
        let hash = hash_key(key, self.little_endian);
        let ghost cells = self.cells();
        let ghost cap = self.capacity as int;
        let ghost s = slot_of(hash as int, cap);
        let mut index = (hash % self.capacity) * 2;
        let start_index = index;
        let ghost mut t: nat = 0;
        proof {
            vstd::arithmetic::div_mod::lemma_mod_twice(hash as int, cap);
        }
        loop
            invariant
                self.wf(),
                self.cells() == cells,
                self.capacity == cap,
                cap > 0,
                is_valid_key(key),
                s == self.start(key),
                0 <= s < cap,
                start_index == 2 * s,
                t < cap,
                index == 2 * slot_of(s + t, cap),
                find_from(cells, s, key, 0) == find_from(cells, s, key, t),
            decreases cap - t,
        {
            let ghost c = slot_of(s + t, cap);
            proof {
                vstd::arithmetic::div_mod::lemma_mod_bound(s + t, cap);
                assert(cells[c] == (self.table@[index as int], self.table@[index + 1]));
            }
            let current_key = self.table[index];
            if current_key == key {
                return Some(index / 2);
            } else if current_key == EMPTY {
                return None;
            }
            proof {
                lemma_next_index(s, t as int, cap);
            }
            index = (index + 2) % (self.capacity * 2);
            proof {
                t = t + 1;
                lemma_wrap_to_start(s, t as int, cap);
            }
            if index == start_index {
                return None;
            }
        }
    }

    /// Walks `key`'s probe sequence once: to the cell that holds the key, or
    /// to the first empty cell, remembering the first tombstone on the way.
    /// Reports the key's cell, or else the first free cell, or that there is
    /// none.
    fn probe(&self, key: usize) -> (outcome: Probe)
        requires
            self.wf(),
            self.capacity > 0,
            is_valid_key(key),
        ensures
            match outcome {
                Probe::Found(c) => find_from(self.cells(), self.start(key), key, 0) == Some(c as int),
                Probe::Free(c) => find_from(self.cells(), self.start(key), key, 0) is None && claim_from(
                    self.cells(),
                    self.start(key),
                    key,
                    0,
                ) == Some(c as int),
                Probe::Full => find_from(self.cells(), self.start(key), key, 0) is None && claim_from(
                    self.cells(),
                    self.start(key),
                    key,
                    0,
                ) is None,
            },
    {
        let hash = hash_key(key, self.little_endian);
        let ghost cells = self.cells();
        let ghost cap = self.capacity as int;
        let ghost s = slot_of(hash as int, cap);
        let mut index = (hash % self.capacity) * 2;
        let start_index = index;
        let mut first_free: Option<usize> = None;
        let ghost mut t: nat = 0;
        proof {
            vstd::arithmetic::div_mod::lemma_mod_twice(hash as int, cap);
        }
        loop
            invariant
                self.wf(),
                self.cells() == cells,
                self.capacity == cap,
                cap > 0,
                is_valid_key(key),
                s == self.start(key),
                0 <= s < cap,
                start_index == 2 * s,
                t < cap,
                index == 2 * slot_of(s + t, cap),
                find_from(cells, s, key, 0) == find_from(cells, s, key, t),
                first_free is None ==> claim_from(cells, s, key, 0) == claim_from(cells, s, key, t),
                first_free is Some ==> claim_from(cells, s, key, 0) == Some(first_free->Some_0 as int),
            decreases cap - t,
        {
            let ghost c = slot_of(s + t, cap);
            proof {
                vstd::arithmetic::div_mod::lemma_mod_bound(s + t, cap);
                assert(cells[c] == (self.table@[index as int], self.table@[index + 1]));
            }
            let current_key = self.table[index];
            if current_key == key {
                return Probe::Found(index / 2);
            } else if current_key == EMPTY {
                return match first_free {
                    Some(free) => Probe::Free(free),
                    None => Probe::Free(index / 2),
                };
            } else if current_key == TOMBSTONE && first_free.is_none() {
                first_free = Some(index / 2);
            }
            proof {
                lemma_next_index(s, t as int, cap);
            }
            index = (index + 2) % (self.capacity * 2);
            proof {
                t = t + 1;
                lemma_wrap_to_start(s, t as int, cap);
            }
            if index == start_index {
                return match first_free {
                    Some(free) => Probe::Free(free),
                    None => Probe::Full,
                };
            }
        }
    }

    /// Inserts a key-value pair, replacing the value of a key already
    /// present. Returns false if the map is full or the key is invalid (`0`
    /// or `usize::MAX`).
    pub fn insert(&mut self, key: usize, value: usize) -> (inserted: bool)
        requires
            old(self).wf(),
            old(self).capacity() > 0 || !is_valid_key(key),
        ensures
            final(self).wf(),
            final(self).capacity() == old(self).capacity(),
            final(self).hashes_little_endian() == old(self).hashes_little_endian(),
            (final(self)@, inserted) == map_insert(old(self)@, old(self).capacity(), key, value),
    {
        if key == EMPTY || key == TOMBSTONE {
            return false;
        }
        let ghost cells = self.cells();
        let ghost start = |k: usize| self.start(k);
        proof {
            self.lemma_lookup(key);
            self.lemma_size();
            lemma_consistent_unique(cells, start);
        }
        match self.probe(key) {
            Probe::Found(c) => {
                self.table.set(2 * c + 1, value);
                proof {
                    let after = cells.update(c as int, (key, value));
                    assert(self.cells() =~= after);
                    assert(start == |k: usize| self.start(k));
                    lemma_value_update_consistent(cells, start, c as int, value);
                    lemma_consistent_unique(after, start);
                    lemma_entries_update(cells, c as int, (key, value));
                    assert(old(self)@.remove(key).insert(key, value) =~= old(self)@.insert(key, value));
                }
                true
            },
            Probe::Free(c) => {
                proof {
                    lemma_claim_cell(cells, old(self).start(key), key, 0);
                }
                self.table.set(2 * c, key);
                self.table.set(2 * c + 1, value);
                proof {
                    let s = old(self).start(key);
                    lemma_claim_cell(cells, s, key, 0);
                    assert(!is_valid_key(cells[c as int].0)) by {
                        if is_valid_key(cells[c as int].0) {
                            assert(cells[c as int].0 == key);
                            assert(old(self)@.dom().contains(key));
                        }
                    }
                    let after = cells.update(c as int, (key, value));
                    assert(self.cells() =~= after);
                    assert(start == |k: usize| self.start(k));
                    lemma_claim_consistent(cells, start, key, value);
                    lemma_consistent_unique(after, start);
                    lemma_entries_update(cells, c as int, (key, value));
                    assert(is_free(old(self).cells()[c as int].0));
                }
                true
            },
            Probe::Full => {
                proof {
                    let s = old(self).start(key);
                    let cap = self.capacity as int;
                    lemma_claim_none(cells, s, key, 0);
                    assert forall|d: int| 0 <= d < cap implies !is_free(#[trigger] cells[d].0) by {
                        let u = lemma_offset_of_slot(s, d, cap);
                        assert(slot_of(s + u, cap) == d);
                    }
                }
                false
            },
        }
    }

    /// Retrieves the value associated with the key; `None` if it is not
    /// stored.
    pub fn get(&self, key: usize) -> (value: Option<usize>)
        requires
            self.wf(),
            self.capacity() > 0 || !is_valid_key(key),
        ensures
            value == map_get(self@, key),
    {
        if key == EMPTY || key == TOMBSTONE {
            proof {
                lemma_entries_valid(self.cells(), key);
            }
            return None;
        }
        proof {
            self.lemma_lookup(key);
        }
        match self.find_cell(key) {
            Some(c) => {
                proof {
                    assert(self.cells()[c as int] == (self.table@[2 * c as int], self.table@[2 * c + 1]));
                }
                Some(self.table[2 * c + 1])
            },
            None => None,
        }
    }

    /// Removes a key-value pair by replacing the key with a tombstone.
    /// Returns whether the key was stored.
    pub fn remove(&mut self, key: usize) -> (removed: bool)
        requires
            old(self).wf(),
            old(self).capacity() > 0 || !is_valid_key(key),
        ensures
            final(self).wf(),
            final(self).capacity() == old(self).capacity(),
            final(self).hashes_little_endian() == old(self).hashes_little_endian(),
            (final(self)@, removed) == map_remove(old(self)@, key),
    {
        if key == EMPTY || key == TOMBSTONE {
            proof {
                lemma_entries_valid(self.cells(), key);
                assert(old(self)@.remove(key) =~= old(self)@);
            }
            return false;
        }
        let ghost cells = self.cells();
        let ghost start = |k: usize| self.start(k);
        proof {
            self.lemma_lookup(key);
            lemma_consistent_unique(cells, start);
        }
        match self.find_cell(key) {
            Some(c) => {
                self.table.set(2 * c, TOMBSTONE);
                proof {
                    let after = cells.update(c as int, (TOMBSTONE, cells[c as int].1));
                    assert(self.cells() =~= after);
                    assert(start == |k: usize| self.start(k));
                    lemma_remove_consistent(cells, start, key);
                    lemma_consistent_unique(after, start);
                    lemma_entries_update(cells, c as int, (TOMBSTONE, cells[c as int].1));
                }
                true
            },
            None => {
                proof {
                    assert(old(self)@.remove(key) =~= old(self)@);
                }
                false
            },
        }
    }
}

/// The cell an insert claims is in the table and is free or already holds
/// the key.
proof fn lemma_claim_cell(cells: Seq<(usize, usize)>, s: int, key: usize, t: nat)
    requires
        claim_from(cells, s, key, t) is Some,
    ensures
        0 <= claim_from(cells, s, key, t)->Some_0 < cells.len(),
        is_free(cells[claim_from(cells, s, key, t)->Some_0].0)
            || cells[claim_from(cells, s, key, t)->Some_0].0 == key,
    decreases cells.len() - t,
{
    vstd::arithmetic::div_mod::lemma_mod_bound(s + t, cells.len() as int);
    let c = slot_of(s + t, cells.len() as int);
    if !(is_free(cells[c].0) || cells[c].0 == key) {
        lemma_claim_cell(cells, s, key, t + 1);
    }
}

/// A lookup from any step before the claimed cell walks past the same
/// occupied cells and stops at the claimed one.
proof fn lemma_find_claimed(cells: Seq<(usize, usize)>, s: int, key: usize, value: usize, t: nat)
    requires
        is_valid_key(key),
        claim_from(cells, s, key, t) is Some,
    ensures
        find_from(cells.update(claim_from(cells, s, key, t)->Some_0, (key, value)), s, key, t)
            == claim_from(cells, s, key, t),
    decreases cells.len() - t,
{
    let target = claim_from(cells, s, key, t)->Some_0;
    lemma_claim_cell(cells, s, key, t);
    vstd::arithmetic::div_mod::lemma_mod_bound(s + t, cells.len() as int);
    let c = slot_of(s + t, cells.len() as int);
    if !(is_free(cells[c].0) || cells[c].0 == key) {
        lemma_find_claimed(cells, s, key, value, t + 1);
    }
}

/// A lookup only ever reports a cell that holds the key.
proof fn lemma_find_cell(cells: Seq<(usize, usize)>, s: int, key: usize, t: nat)
    requires
        find_from(cells, s, key, t) is Some,
    ensures
        0 <= find_from(cells, s, key, t)->Some_0 < cells.len(),
        cells[find_from(cells, s, key, t)->Some_0].0 == key,
    decreases cells.len() - t,
{
    vstd::arithmetic::div_mod::lemma_mod_bound(s + t, cells.len() as int);
    let c = slot_of(s + t, cells.len() as int);
    if cells[c].0 != key && cells[c].0 != EMPTY {
        lemma_find_cell(cells, s, key, t + 1);
    }
}

/// An insert finds no cell from step `t` on exactly when every later step of
/// the probe sequence meets a cell that holds another key.
proof fn lemma_claim_none(cells: Seq<(usize, usize)>, s: int, key: usize, t: nat)
    ensures
        claim_from(cells, s, key, t) is None <==> forall|u: int|
            t <= u < cells.len() ==> {
                let c = #[trigger] slot_of(s + u, cells.len() as int);
                !is_free(cells[c].0) && cells[c].0 != key
            },
    decreases cells.len() - t,
{
    if t < cells.len() {
        lemma_claim_none(cells, s, key, t + 1);
        assert(s + t == s + (t as int));
    }
}

/// A lookup that reaches its key's cell still reaches it after another cell
/// gets a key that is neither empty nor the one looked up.
proof fn lemma_find_stable(cells: Seq<(usize, usize)>, s: int, key: usize, t: nat, c: int, entry: (usize, usize))
    requires
        find_from(cells, s, key, t) is Some,
        c != find_from(cells, s, key, t)->Some_0,
        entry.0 != key,
        entry.0 != EMPTY,
        0 <= c < cells.len(),
    ensures
        find_from(cells.update(c, entry), s, key, t) == find_from(cells, s, key, t),
    decreases cells.len() - t,
{
    vstd::arithmetic::div_mod::lemma_mod_bound(s + t, cells.len() as int);
    let u = slot_of(s + t, cells.len() as int);
    if cells[u].0 != key && cells[u].0 != EMPTY {
        lemma_find_stable(cells, s, key, t + 1, c, entry);
    }
}


/// In a consistent table each key is stored in at most one cell.
proof fn lemma_consistent_unique(cells: Seq<(usize, usize)>, start: spec_fn(usize) -> int)
    requires
        is_consistent(cells, start),
    ensures
        unique_keys(cells),
{
    assert forall|i: int, j: int|
        0 <= i < cells.len() && 0 <= j < cells.len() && is_valid_key(#[trigger] cells[i].0) && cells[i].0
            == (#[trigger] cells[j]).0 implies i == j by {
        assert(is_valid_key(cells[j].0));
    }
}

/// Only valid keys are entries.
proof fn lemma_entries_valid(cells: Seq<(usize, usize)>, key: usize)
    requires
        !is_valid_key(key),
    ensures
        !entries(cells).dom().contains(key),
{
}

/// The valid keys of the first `n` cells are as many as the cells that hold
/// one, when no key is stored twice.
proof fn lemma_keys_count(cells: Seq<(usize, usize)>, n: nat)
    requires
        unique_keys(cells),
        n <= cells.len(),
    ensures
        keys_in(cells, n as int).finite(),
        keys_in(cells, n as int).len() == live_count(cells, n),
    decreases n,
{
    if n == 0 {
        assert(keys_in(cells, 0) =~= Set::<usize>::empty());
    } else {
        let m = (n - 1) as nat;
        lemma_keys_count(cells, m);
        let k = cells[m as int].0;
        if is_valid_key(k) {
            assert(keys_in(cells, n as int) =~= keys_in(cells, m as int).insert(k));
            assert(!keys_in(cells, m as int).contains(k)) by {
                if keys_in(cells, m as int).contains(k) {
                    let c = choose|c: int| 0 <= c < m && cells[c].0 == k;
                    assert(is_valid_key(cells[m as int].0));
                }
            }
        } else {
            assert(keys_in(cells, n as int) =~= keys_in(cells, m as int));
        }
    }
}

/// At most every cell holds a key, and all of them do exactly when none is
/// free.
proof fn lemma_live_count(cells: Seq<(usize, usize)>, n: nat)
    requires
        n <= cells.len(),
    ensures
        live_count(cells, n) <= n,
        live_count(cells, n) < n <==> exists|c: int| 0 <= c < n && #[trigger] is_free(cells[c].0),
    decreases n,
{
    if n > 0 {
        let m = (n - 1) as nat;
        lemma_live_count(cells, m);
        if live_count(cells, m) < m {
            let c = choose|c: int| 0 <= c < m && #[trigger] is_free(cells[c].0);
            assert(0 <= c < n && is_free(cells[c].0));
        }
        if is_free(cells[m as int].0) {
            assert(is_free(cells[m as int].0));
        }
    }
}

/// Setting one cell removes that cell's old key from the entries, if it held
/// a valid one, and adds the new key with its value, if valid.
proof fn lemma_entries_update(cells: Seq<(usize, usize)>, c: int, entry: (usize, usize))
    requires
        0 <= c < cells.len(),
        unique_keys(cells),
        unique_keys(cells.update(c, entry)),
    ensures
        entries(cells.update(c, entry)) == ({
            let removed = if is_valid_key(cells[c].0) {
                entries(cells).remove(cells[c].0)
            } else {
                entries(cells)
            };
            if is_valid_key(entry.0) {
                removed.insert(entry.0, entry.1)
            } else {
                removed
            }
        }),
{
    let after = cells.update(c, entry);
    let n = cells.len() as int;
    let removed = if is_valid_key(cells[c].0) {
        entries(cells).remove(cells[c].0)
    } else {
        entries(cells)
    };
    let expected = if is_valid_key(entry.0) {
        removed.insert(entry.0, entry.1)
    } else {
        removed
    };
    assert forall|k: usize| entries(after).dom().contains(k) <==> expected.dom().contains(k) by {
        if entries(after).dom().contains(k) && k != entry.0 {
            let d = choose|d: int| 0 <= d < n && after[d].0 == k;
            assert(d != c);
            assert(cells[d].0 == k);
            if is_valid_key(cells[c].0) && k == cells[c].0 {
                assert(is_valid_key(cells[d].0));
            }
        }
        if expected.dom().contains(k) && k != entry.0 {
            let d = choose|d: int| 0 <= d < n && cells[d].0 == k;
            assert(d != c);
            assert(after[d].0 == k);
        }
        if is_valid_key(entry.0) && k == entry.0 {
            assert(after[c].0 == k);
        }
    }
    assert forall|k: usize| #[trigger] entries(after).dom().contains(k) implies entries(after)[k] == expected[k] by {
        let d = cell_of(after, k);
        assert(is_valid_key(after[d].0));
        if k == entry.0 {
            assert(is_valid_key(after[c].0));
            assert(d == c);
        } else {
            assert(d != c);
            let e = cell_of(cells, k);
            assert(cells[d].0 == k);
            assert(is_valid_key(cells[e].0));
            assert(is_valid_key(cells[d].0));
            assert(d == e);
        }
    }
    assert(entries(after) =~= expected);
}

/// A lookup depends only on the keys of the cells.
proof fn lemma_find_same_keys(
    cells: Seq<(usize, usize)>,
    other: Seq<(usize, usize)>,
    s: int,
    key: usize,
    t: nat,
)
    requires
        cells.len() == other.len(),
        forall|i: int| 0 <= i < cells.len() ==> (#[trigger] cells[i]).0 == other[i].0,
    ensures
        find_from(cells, s, key, t) == find_from(other, s, key, t),
    decreases cells.len() - t,
{
    if t < cells.len() {
        vstd::arithmetic::div_mod::lemma_mod_bound(s + t, cells.len() as int);
        lemma_find_same_keys(cells, other, s, key, t + 1);
    }
}

/// Changing one cell's value keeps the table consistent.
proof fn lemma_value_update_consistent(
    cells: Seq<(usize, usize)>,
    start: spec_fn(usize) -> int,
    c: int,
    value: usize,
)
    requires
        is_consistent(cells, start),
        0 <= c < cells.len(),
    ensures
        is_consistent(cells.update(c, (cells[c].0, value)), start),
{
    let after = cells.update(c, (cells[c].0, value));
    assert forall|d: int| 0 <= d < after.len() && is_valid_key(#[trigger] after[d].0) implies find_from(
        after,
        start(after[d].0),
        after[d].0,
        0,
    ) == Some(d) by {
        assert(after[d].0 == cells[d].0);
        assert(is_valid_key(cells[d].0));
        lemma_find_same_keys(cells, after, start(cells[d].0), cells[d].0, 0);
    }
}

/// Storing an absent key in the first free cell of its probe sequence keeps
/// the table consistent.
proof fn lemma_claim_consistent(cells: Seq<(usize, usize)>, start: spec_fn(usize) -> int, key: usize, value: usize)
    requires
        is_consistent(cells, start),
        is_valid_key(key),
        claim_from(cells, start(key), key, 0) is Some,
        forall|d: int| 0 <= d < cells.len() ==> (#[trigger] cells[d]).0 != key,
    ensures
        is_consistent(cells.update(claim_from(cells, start(key), key, 0)->Some_0, (key, value)), start),
{
    let s = start(key);
    lemma_claim_cell(cells, s, key, 0);
    let c = claim_from(cells, s, key, 0)->Some_0;
    let after = cells.update(c, (key, value));
    lemma_find_claimed(cells, s, key, value, 0);
    assert forall|d: int| 0 <= d < after.len() && is_valid_key(#[trigger] after[d].0) implies find_from(
        after,
        start(after[d].0),
        after[d].0,
        0,
    ) == Some(d) by {
        if d != c {
            let k = cells[d].0;
            assert(is_valid_key(k));
            lemma_find_stable(cells, start(k), k, 0, c, (key, value));
        }
    }
}

/// Turning a stored key's cell into a tombstone keeps the table consistent.
proof fn lemma_remove_consistent(cells: Seq<(usize, usize)>, start: spec_fn(usize) -> int, key: usize)
    requires
        is_consistent(cells, start),
        find_from(cells, start(key), key, 0) is Some,
    ensures
        is_consistent(
            cells.update(
                find_from(cells, start(key), key, 0)->Some_0,
                (TOMBSTONE, cells[find_from(cells, start(key), key, 0)->Some_0].1),
            ),
            start,
        ),
{
    let s = start(key);
    lemma_find_cell(cells, s, key, 0);
    lemma_consistent_unique(cells, start);
    let c = find_from(cells, s, key, 0)->Some_0;
    let after = cells.update(c, (TOMBSTONE, cells[c].1));
    assert forall|d: int| 0 <= d < after.len() && is_valid_key(#[trigger] after[d].0) implies find_from(
        after,
        start(after[d].0),
        after[d].0,
        0,
    ) == Some(d) by {
        let k = cells[d].0;
        assert(is_valid_key(k));
        assert(d != c);
        lemma_find_stable(cells, start(k), k, 0, c, (TOMBSTONE, cells[c].1));
    }
}

/// Get after insert: once an insert of `key -> value` succeeds, a lookup of
/// `key` returns `value`.
pub proof fn lemma_get_after_insert(m: Map<usize, usize>, cap: nat, key: usize, value: usize)
    requires
        map_insert(m, cap, key, value).1,
    ensures
        map_get(map_insert(m, cap, key, value).0, key) == Some(value),
{
}

/// Get after remove: after removing `key`, a lookup finds nothing.
pub proof fn lemma_get_after_remove(m: Map<usize, usize>, key: usize)
    ensures
        map_get(map_remove(m, key).0, key) is None,
{
}

/// Inserting or removing one key does not change what a lookup of any other
/// key returns.
pub proof fn lemma_other_keys_unaffected(m: Map<usize, usize>, cap: nat, key: usize, value: usize, other: usize)
    requires
        other != key,
    ensures
        map_get(map_insert(m, cap, key, value).0, other) == map_get(m, other),
        map_get(map_remove(m, key).0, other) == map_get(m, other),
{
}

/// Remove reports success exactly for the keys that a lookup finds.
pub proof fn lemma_remove_iff_found(m: Map<usize, usize>, key: usize)
    ensures
        map_remove(m, key).1 <==> map_get(m, key) is Some,
{
}

/// An insert of a valid key fails only when the map is full and the key is
/// new; a failed insert changes nothing.
pub proof fn lemma_insert_fails_only_when_full(m: Map<usize, usize>, cap: nat, key: usize, value: usize)
    requires
        is_valid_key(key),
    ensures
        !map_insert(m, cap, key, value).1 <==> !m.dom().contains(key) && m.len() >= cap,
        !map_insert(m, cap, key, value).1 ==> map_insert(m, cap, key, value).0 == m,
{
}

/// The map never holds more keys than its capacity, nor an invalid key.
pub proof fn lemma_within_capacity(map: &FlatLockFreeMap)
    requires
        map.wf(),
    ensures
        map@.len() <= map.capacity(),
        forall|k: usize| #[trigger] map@.dom().contains(k) ==> is_valid_key(k),
{
    map.lemma_size();
}

/// Advancing the table index by one cell, wrapping at the end of the table,
/// moves to the next step of the probe sequence.
proof fn lemma_next_index(s: int, t: int, cap: int)
    requires
        cap > 0,
    ensures
        (2 * slot_of(s + t, cap) + 2) % (2 * cap) == 2 * slot_of(s + t + 1, cap),
{
    let c = slot_of(s + t, cap);
    vstd::arithmetic::div_mod::lemma_mod_bound(s + t, cap);
    vstd::arithmetic::div_mod::lemma_add_mod_noop_right(1, s + t, cap);
    assert(1 + (s + t) == s + t + 1);
    if c + 1 < cap {
        vstd::arithmetic::div_mod::lemma_small_mod((c + 1) as nat, cap as nat);
        vstd::arithmetic::div_mod::lemma_small_mod((2 * c + 2) as nat, (2 * cap) as nat);
    } else {
        vstd::arithmetic::div_mod::lemma_mod_self_0(cap);
        vstd::arithmetic::div_mod::lemma_mod_self_0(2 * cap);
    }
}

/// The probe sequence comes back to its starting cell exactly after visiting
/// every cell.
proof fn lemma_wrap_to_start(s: int, t: int, cap: int)
    requires
        0 <= s < cap,
        1 <= t <= cap,
    ensures
        (slot_of(s + t, cap) == s) <==> t == cap,
{
    vstd::arithmetic::div_mod::lemma_small_mod(s as nat, cap as nat);
    assert(s + 0 == s);
    if t == cap {
        lemma_slot_full_turn(s, cap);
    } else if slot_of(s + t, cap) == s {
        lemma_offsets_distinct(s, t, 0, cap);
    }
}

} // verus!
