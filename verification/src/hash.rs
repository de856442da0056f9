//! Sparse edge storage: an open-addressing hash table keyed by the pair
//! (source, destination), and the graph that keeps its edges in it.
//!
//! A key is looked for from its probe start onwards, slot after slot and
//! around the end of the table, until it is found or an empty slot is met. A
//! deleted entry leaves a tombstone behind, so that the keys that were
//! entered past it are still found.
use crate::model::{ascending_where, GraphModel};
use crate::tally::{
    count_where, lemma_count_below_len, lemma_count_le, lemma_count_none, lemma_count_prefix,
    lemma_count_update,
};
use crate::{EdgeMeta, Graph, GraphError, NodeOp};
use vstd::prelude::*;

verus! {

/// The number of slots of a table made by `new`.
pub const DEFAULT_CAPACITY: usize = 256;

/// The table grows before an entry would fill more than
/// `MAX_LOAD_NUMERATOR / MAX_LOAD_DENOMINATOR` of its slots: three quarters.
pub const MAX_LOAD_NUMERATOR: usize = 3;

/// The denominator of the largest load, see `MAX_LOAD_NUMERATOR`.
pub const MAX_LOAD_DENOMINATOR: usize = 4;

/// A table that grows gets this many times the slots it had.
pub const GROW_FACTOR: usize = 2;

/// The odd multiplier that combines the two hashes of a key.
pub const PRIME_OF_MATHS: usize = 97;

/// Source index, destination index.
pub type IndexPair = (usize, usize);

/// The shift and mix hash of a machine word: each step spreads the bits of the
/// word over the whole of it, with wrapping additions.
pub open spec fn mix(input: usize) -> usize {
    let key = (!input).wrapping_add(input << 21usize);
    let key = key ^ (key >> 24usize);
    let key = key.wrapping_add(key << 3usize).wrapping_add(key << 8usize);
    let key = key ^ (key >> 14usize);
    let key = key.wrapping_add(key << 2usize).wrapping_add(key << 4usize);
    let key = key ^ (key >> 28usize);
    key.wrapping_add(key << 31usize)
}

/// The slot at which the search for `key` begins in a table of `capacity`
/// slots.
pub open spec fn probe_start(key: IndexPair, capacity: usize) -> usize {
    (PRIME_OF_MATHS.wrapping_mul(mix(key.0)).wrapping_add(PRIME_OF_MATHS).wrapping_add(
        mix(key.1),
    ) % capacity) as usize
}

/// The hash of a machine word.
#[inline(always)]
pub fn hash_usize(input: usize) -> (hash: usize)
    ensures
        hash == mix(input),
{
    let mut key = input;
    key = (!key).wrapping_add(key << 21);  // key = (key << 21) - key - 1;
    key = key ^ (key >> 24);
    key = key.wrapping_add(key << 3).wrapping_add(key << 8);  // key * 265
    key = key ^ (key >> 14);
    key = key.wrapping_add(key << 2).wrapping_add(key << 4);  // key * 21
    key = key ^ (key >> 28);
    key.wrapping_add(key << 31)
}

/// What a slot of the table holds.
#[derive(Clone, Copy)]
pub enum Slot {
    /// Nothing, and nothing ever since the table was built.
    Empty,
    /// A live entry.
    Occupied(EdgeMeta<usize>),
    /// What is left of a deleted entry.
    Tombstone,
}

/// The slot that lies `step` slots past `start`, around the end of the table.
pub open spec fn slot_at(start: int, step: int, capacity: int) -> int {
    if start + step < capacity {
        start + step
    } else {
        start + step - capacity
    }
}

/// The number of slots from `start` to `slot`, around the end of the table.
pub open spec fn steps_to(start: int, slot: int, capacity: int) -> int {
    if slot >= start {
        slot - start
    } else {
        slot + capacity - start
    }
}

/// The slot is not empty.
pub open spec fn in_use(slot: Slot) -> bool {
    !(slot is Empty)
}

/// The predicate that counts the slots in use.
pub open spec fn is_used() -> spec_fn(Slot) -> bool {
    |slot: Slot| in_use(slot)
}

/// The predicate that counts the live entries.
pub open spec fn is_live() -> spec_fn(Slot) -> bool {
    |slot: Slot| slot is Occupied
}

/// The number of live entries in the slots.
pub open spec fn live(table: Seq<Slot>) -> nat {
    count_where(table, is_live())
}

/// The slot holds the live entry of `key`.
pub open spec fn holds_key(slot: Slot, key: IndexPair) -> bool {
    slot matches Slot::Occupied(meta) && (meta.source, meta.destination) == key
}

/// No slot is empty between the probe start of `key` and `slot`, so a search
/// for `key` gets as far as `slot`.
pub open spec fn probe_reaches(table: Seq<Slot>, key: IndexPair, slot: int) -> bool {
    forall|step: int|
        0 <= step < steps_to(probe_start(key, table.len() as usize) as int, slot, table.len() as int)
            ==> in_use(
            #[trigger] table[slot_at(
                probe_start(key, table.len() as usize) as int,
                step,
                table.len() as int,
            )],
        )
}

/// Every slot between the probe start of `key` and `slot` holds a live entry,
/// so `slot` is the first on the way that could take an entry for `key`.
pub open spec fn probe_passes(table: Seq<Slot>, key: IndexPair, slot: int) -> bool {
    forall|step: int|
        0 <= step < steps_to(probe_start(key, table.len() as usize) as int, slot, table.len() as int)
            ==> (#[trigger] table[slot_at(
            probe_start(key, table.len() as usize) as int,
            step,
            table.len() as int,
        )]) is Occupied
}

/// The slot that an entry for `key` takes: the slot that holds the key, or,
/// where none does, the first on the way from the probe start of the key that
/// holds no live entry. That is the first tombstone if the search passes one,
/// and else the empty slot at which it ends.
pub open spec fn site(table: Seq<Slot>, key: IndexPair) -> int {
    if exists|at: int| 0 <= at < table.len() && holds_key(#[trigger] table[at], key) {
        choose|at: int| 0 <= at < table.len() && holds_key(#[trigger] table[at], key)
    } else {
        choose|at: int|
            0 <= at < table.len() && !((#[trigger] table[at]) is Occupied) && probe_passes(
                table,
                key,
                at,
            )
    }
}

/// The slots after `key` was entered with `weight`.
pub open spec fn written(table: Seq<Slot>, key: IndexPair, weight: usize) -> Seq<Slot> {
    table.update(
        site(table, key),
        Slot::Occupied(EdgeMeta { source: key.0, destination: key.1, weight }),
    )
}

/// The slots after `key` was deleted: a tombstone where its entry was.
pub open spec fn erased(table: Seq<Slot>, key: IndexPair) -> Seq<Slot> {
    if exists|at: int| 0 <= at < table.len() && holds_key(#[trigger] table[at], key) {
        table.update(site(table, key), Slot::Tombstone)
    } else {
        table
    }
}

/// The slots after the keys `(i, node)` and `(node, i)` were deleted, in this
/// order, for every `i` below `n` in turn.
pub open spec fn erased_around(table: Seq<Slot>, node: usize, n: nat) -> Seq<Slot>
    decreases n,
{
    if n == 0 {
        table
    } else {
        erased(
            erased(erased_around(table, node, (n - 1) as nat), ((n - 1) as usize, node)),
            (node, (n - 1) as usize),
        )
    }
}

/// The slots of a table without entries.
pub open spec fn blank_table(capacity: nat) -> Seq<Slot> {
    Seq::new(capacity, |i: int| Slot::Empty)
}

/// The slots of a table of `capacity` slots into which the live entries among
/// the first `n` slots of `table` were entered, in the order of their slots.
pub open spec fn rehashed(table: Seq<Slot>, n: nat, capacity: nat) -> Seq<Slot>
    decreases n,
{
    if n == 0 {
        blank_table(capacity)
    } else {
        let before = rehashed(table, (n - 1) as nat, capacity);
        match table[n - 1] {
            Slot::Occupied(meta) => written(before, (meta.source, meta.destination), meta.weight),
            _ => before,
        }
    }
}

/// What holds of the slots of a table with the live entries `contents`, of
/// which `count` are in use: one slot at least is empty, every live entry is
/// in `contents` with its weight and can be reached from its probe start,
/// every key of `contents` has a live entry, and no key has two.
#[verifier::opaque]
pub open spec fn table_inv(table: Seq<Slot>, count: usize, contents: Map<IndexPair, usize>) -> bool {
    &&& 0 < table.len() <= usize::MAX
    &&& count == count_where(table, is_used())
    &&& count < table.len()
    &&& forall|i: int|
        0 <= i < table.len() ==> ((#[trigger] table[i]) matches Slot::Occupied(meta) ==> {
            &&& contents.contains_key((meta.source, meta.destination))
            &&& contents[(meta.source, meta.destination)] == meta.weight
            &&& probe_reaches(table, (meta.source, meta.destination), i)
        })
    &&& forall|key: IndexPair| #[trigger]
        contents.contains_key(key) ==> exists|i: int|
            0 <= i < table.len() && holds_key(#[trigger] table[i], key)
    &&& forall|i: int, j: int|
        0 <= i < table.len() && 0 <= j < table.len() && i != j ==> !((
        #[trigger] table[i]) matches Slot::Occupied(a) && (#[trigger] table[j]) matches Slot::Occupied(
            b,
        ) && (a.source, a.destination) == (b.source, b.destination))
}

/// The largest number of slots in use that a table of `capacity` slots may
/// have after an entry is added.
pub open spec fn load_limit(capacity: usize) -> int {
    (MAX_LOAD_NUMERATOR * capacity) / (MAX_LOAD_DENOMINATOR as int)
}

/// A hash table from pairs of indices to weights.
pub struct PairHashTable {
    count: usize,
    table: Vec<Slot>,
    contents: Ghost<Map<IndexPair, usize>>,
}

impl PairHashTable {
    /// The live entries: the weight of every key that is in the table.
    pub closed spec fn view(&self) -> Map<IndexPair, usize> {
        self.contents@
    }

    /// The slots as they are.
    pub closed spec fn layout(&self) -> Seq<Slot> {
        self.table@
    }

    /// The number of slots.
    pub closed spec fn slots(&self) -> nat {
        self.table@.len()
    }

    /// The number of slots in use, by live entries and by tombstones.
    pub closed spec fn in_use(&self) -> nat {
        self.count as nat
    }

    /// The representation is consistent.
    pub closed spec fn wf(&self) -> bool {
        table_inv(self.table@, self.count, self.contents@)
    }

    /// The slots after an entry was taken: where the entry would fill more than
    /// three quarters of the slots, the live entries are first entered anew in
    /// a table of twice the slots.
    pub open spec fn with_entry(&self, key: IndexPair, weight: usize) -> Seq<Slot> {
        written(
            if self.in_use() + 1 <= load_limit(self.slots() as usize) {
                self.layout()
            } else {
                rehashed(self.layout(), self.slots(), (self.slots() * GROW_FACTOR) as nat)
            },
            key,
            weight,
        )
    }

    /// The number of slots after an entry was taken: twice as many where the
    /// entry would fill more than three quarters of them.
    pub open spec fn slots_with_entry(&self) -> int {
        if self.in_use() + 1 <= load_limit(self.slots() as usize) {
            self.slots() as int
        } else {
            self.slots() * GROW_FACTOR
        }
    }

    /// The table can take an entry: it need not grow for it, or it can.
    pub open spec fn has_room(&self) -> bool {
        self.in_use() + 1 <= load_limit(self.slots() as usize) || self.slots() * GROW_FACTOR
            <= usize::MAX
    }

    /// What a consistent table promises: it has a slot, and one more than are
    /// in use.
    pub proof fn lemma_wf(&self)
        requires
            self.wf(),
        ensures
            self.in_use() < self.slots() <= usize::MAX,
            self.slots() == self.layout().len(),
            self.in_use() == count_where(self.layout(), is_used()),
            forall|key: IndexPair|
                self@.contains_key(key) <==> exists|at: int|
                    0 <= at < self.layout().len() && holds_key(#[trigger] self.layout()[at], key),
            forall|at: int|
                0 <= at < self.layout().len() ==> ((#[trigger] self.layout()[at]) matches Slot::Occupied(
                    meta,
                ) ==> self@.contains_key((meta.source, meta.destination)) && self@[(
                    meta.source,
                    meta.destination,
                )] == meta.weight),
    {
        reveal(table_inv);
        assert forall|key: IndexPair|
            self@.contains_key(key) <==> exists|at: int|
                0 <= at < self.layout().len() && holds_key(#[trigger] self.layout()[at], key) by {
            if exists|at: int|
                0 <= at < self.layout().len() && holds_key(#[trigger] self.layout()[at], key) {
                let at = choose|at: int|
                    0 <= at < self.layout().len() && holds_key(#[trigger] self.layout()[at], key);
                assert(self.table@[at] is Occupied);
            }
        }
    }

    /// There are as many live entries in the slots as the table has keys.
    pub proof fn lemma_live_count(&self)
        requires
            self.wf(),
        ensures
            self@.dom().finite(),
            self@.dom().len() == live(self.layout()),
    {
        reveal(table_inv);
        lemma_keys_counted(self.table@, self.table@.len());
        assert(keys_below(self.table@, self.table@.len()) =~= self@.dom()) by {
            assert forall|key: IndexPair| self@.dom().contains(key) implies keys_below(
                self.table@,
                self.table@.len(),
            ).contains(key) by {
                let at = choose|at: int|
                    0 <= at < self.table@.len() && holds_key(#[trigger] self.table@[at], key);
                assert(holds_key(self.table@[at], key));
            }
            assert forall|key: IndexPair|
                keys_below(self.table@, self.table@.len()).contains(
                    key,
                ) implies self@.dom().contains(key) by {
                let at = choose|at: int|
                    0 <= at < self.table@.len() && holds_key(#[trigger] self.table@[at], key);
                assert(self.table@[at] is Occupied);
            }
        }
        assert(self.table@.take(self.table@.len() as int) =~= self.table@);
    }

    /// The slots in use are counted.
    proof fn lemma_counted(&self)
        requires
            self.wf(),
        ensures
            self.count < self.table@.len() <= usize::MAX,
            self.count == count_where(self.table@, is_used()),
    {
        reveal(table_inv);
    }

    /// A table with 256 slots and no entries.
    pub fn new() -> (table: Self)
        ensures
            table.wf(),
            table@ == Map::<IndexPair, usize>::empty(),
            table.slots() == DEFAULT_CAPACITY,
            table.in_use() == 0,
            table.layout() == blank_table(DEFAULT_CAPACITY as nat),
    {
        Self::with_capacity(DEFAULT_CAPACITY)
    }

    /// A table with `capacity` slots and no entries. A table needs a slot that
    /// stays empty, so a capacity of 0 gives a table with one slot.
    pub fn with_capacity(capacity: usize) -> (table: Self)
        ensures
            table.wf(),
            table@ == Map::<IndexPair, usize>::empty(),
            table.slots() == (if capacity == 0 {
                1
            } else {
                capacity
            }),
            table.in_use() == 0,
            table.layout() == blank_table(table.slots()),
    {
        let slots = if capacity == 0 {
            1
        } else {
            capacity
        };
        let mut table: Vec<Slot> = Vec::new();
        let mut i: usize = 0;
        while i < slots
            invariant
                i <= slots,
                table@.len() == i,
                forall|j: int| 0 <= j < i ==> (#[trigger] table@[j]) is Empty,
            decreases slots - i,
        {
            table.push(Slot::Empty);
            i = i + 1;
        }
        proof {
            lemma_count_none(table@, is_used());
            reveal(table_inv);
            assert(table@ =~= blank_table(slots as nat));
        }
        PairHashTable { count: 0, table, contents: Ghost(Map::empty()) }
    }

    /// The number of slots in use.
    pub fn count(&self) -> (count: usize)
        ensures
            count == self.in_use(),
    {
        self.count
    }

    /// The number of slots.
    pub fn capacity(&self) -> (capacity: usize)
        ensures
            capacity == self.slots(),
    {
        self.table.len()
    }

    /// The slot at which the search for `key` begins.
    #[inline(always)]
    fn index_calc(&self, key: IndexPair) -> (index: usize)
        requires
            self.table@.len() > 0,
        ensures
            index == probe_start(key, self.table@.len() as usize),
            index < self.table@.len(),
    {
        PRIME_OF_MATHS.wrapping_mul(hash_usize(key.0)).wrapping_add(PRIME_OF_MATHS).wrapping_add(
            hash_usize(key.1),
        ) % self.table.len()
    }

    /// Some slot is empty, and the search for `key` meets one.
    proof fn lemma_search_ends(&self, key: IndexPair) -> (stop: int)
        requires
            self.wf(),
        ensures
            0 <= stop < self.table@.len(),
            self.table@[slot_at(
                probe_start(key, self.table@.len() as usize) as int,
                stop,
                self.table@.len() as int,
            )] is Empty,
    {
        reveal(table_inv);
        lemma_count_below_len(self.table@, is_used());
        let at = choose|at: int| 0 <= at < self.table@.len() && !in_use(#[trigger] self.table@[at]);
        steps_to(probe_start(key, self.table@.len() as usize) as int, at, self.table@.len() as int)
    }

    /// Where the search for `key` has passed `step` slots without finding the
    /// key, and the next slot is empty, the key is not in the table.
    proof fn lemma_not_found(&self, key: IndexPair, step: int)
        requires
            self.wf(),
            0 <= step < self.table@.len(),
            forall|before: int|
                0 <= before < step ==> !holds_key(
                    #[trigger] self.table@[slot_at(
                        probe_start(key, self.table@.len() as usize) as int,
                        before,
                        self.table@.len() as int,
                    )],
                    key,
                ),
            self.table@[slot_at(
                probe_start(key, self.table@.len() as usize) as int,
                step,
                self.table@.len() as int,
            )] is Empty,
        ensures
            !self@.contains_key(key),
    {
        reveal(table_inv);
        if self@.contains_key(key) {
            let capacity = self.table@.len() as int;
            let start = probe_start(key, self.table@.len() as usize) as int;
            let at = choose|at: int| 0 <= at < capacity && holds_key(#[trigger] self.table@[at], key);
            let far = steps_to(start, at, capacity);
            assert(slot_at(start, far, capacity) == at);
            assert(probe_reaches(self.table@, key, at));
            if far < step {
                assert(!holds_key(self.table@[slot_at(start, far, capacity)], key));
            } else {
                assert(in_use(self.table@[slot_at(start, step, capacity)]));
            }
        }
    }

    /// Where a slot holds the live entry of `key`, the key is in the table
    /// with the weight of that entry.
    proof fn lemma_found(&self, key: IndexPair, at: int)
        requires
            self.wf(),
            0 <= at < self.table@.len(),
            holds_key(self.table@[at], key),
        ensures
            self@.contains_key(key),
            self.table@[at] matches Slot::Occupied(meta) && meta.weight == self@[key],
    {
        reveal(table_inv);
    }

    /// The slot that holds the live entry of `key`, or the empty slot at which
    /// the search for it ends.
    fn index_of(&self, key: IndexPair) -> (index: usize)
        requires
            self.wf(),
        ensures
            index < self.table@.len(),
            self@.contains_key(key) ==> holds_key(self.table@[index as int], key),
            !self@.contains_key(key) ==> self.table@[index as int] is Empty && probe_reaches(
                self.table@,
                key,
                index as int,
            ),
    {
        proof {
            self.lemma_wf();
        }
        let mut index = self.index_calc(key);
        let capacity = self.table.len();
        let ghost start = index as int;
        let ghost mut step: int = 0;
        let ghost stop = self.lemma_search_ends(key);
        loop
            invariant
                self.wf(),
                capacity == self.table@.len(),
                start == probe_start(key, capacity),
                0 <= start < capacity,
                0 <= step <= stop < capacity,
                index == slot_at(start, step, capacity as int),
                self.table@[slot_at(start, stop, capacity as int)] is Empty,
                forall|before: int|
                    0 <= before < step ==> !holds_key(
                        #[trigger] self.table@[slot_at(start, before, capacity as int)],
                        key,
                    ) && in_use(self.table@[slot_at(start, before, capacity as int)]),
            decreases stop - step,
        {
            match &self.table[index] {
                Slot::Occupied(entry) => {
                    let pair = entry.key_pair();
                    if pair.0 == key.0 && pair.1 == key.1 {
                        proof {
                            self.lemma_found(key, index as int);
                        }
                        return index;
                    }
                },
                Slot::Tombstone => {},
                Slot::Empty => {
                    proof {
                        self.lemma_not_found(key, step);
                    }
                    return index;
                },
            }
            index = (index + 1) % capacity;
            proof {
                step = step + 1;
                if slot_at(start, step - 1, capacity as int) + 1 == capacity {
                    vstd::arithmetic::div_mod::lemma_mod_self_0(capacity as int);
                } else {
                    vstd::arithmetic::div_mod::lemma_small_mod(
                        (slot_at(start, step - 1, capacity as int) + 1) as nat,
                        capacity as nat,
                    );
                }
            }
        }
    }

    /// The slot that holds the live entry of `key`, or the slot that an entry
    /// for it is to take: the first tombstone that the search for it passes,
    /// or the empty slot at which the search ends.
    fn index_of_insertion(&self, key: IndexPair) -> (index: usize)
        requires
            self.wf(),
        ensures
            index < self.table@.len(),
            self@.contains_key(key) ==> holds_key(self.table@[index as int], key),
            !self@.contains_key(key) ==> !(self.table@[index as int] is Occupied) && probe_passes(
                self.table@,
                key,
                index as int,
            ),
    {
        proof {
            self.lemma_wf();
        }
        let mut index = self.index_calc(key);
        let capacity = self.table.len();
        let mut tombstone: Option<usize> = None;
        let ghost start = index as int;
        let ghost mut step: int = 0;
        let ghost stop = self.lemma_search_ends(key);
        loop
            invariant
                self.wf(),
                capacity == self.table@.len(),
                start == probe_start(key, capacity),
                0 <= start < capacity,
                0 <= step <= stop < capacity,
                index == slot_at(start, step, capacity as int),
                self.table@[slot_at(start, stop, capacity as int)] is Empty,
                forall|before: int|
                    0 <= before < step ==> !holds_key(
                        #[trigger] self.table@[slot_at(start, before, capacity as int)],
                        key,
                    ) && in_use(self.table@[slot_at(start, before, capacity as int)]),
                tombstone matches Some(seen) ==> seen < capacity && self.table@[seen as int]
                    is Tombstone && steps_to(start, seen as int, capacity as int) < step
                    && probe_passes(self.table@, key, seen as int),
                tombstone is None ==> forall|before: int|
                    0 <= before < step ==> (#[trigger] self.table@[slot_at(
                        start,
                        before,
                        capacity as int,
                    )]) is Occupied,
            decreases stop - step,
        {
            match &self.table[index] {
                Slot::Occupied(entry) => {
                    let pair = entry.key_pair();
                    if pair.0 == key.0 && pair.1 == key.1 {
                        proof {
                            self.lemma_found(key, index as int);
                        }
                        return index;
                    }
                },
                Slot::Tombstone => {
                    // If found a tombstone, keep track of its index.
                    if tombstone.is_none() {
                        tombstone = Some(index);
                    }
                },
                Slot::Empty => {
                    proof {
                        self.lemma_not_found(key, step);
                    }
                    if let Some(tombstone) = tombstone {
                        return tombstone;
                    } else {
                        return index;
                    }
                },
            }
            index = (index + 1) % capacity;
            proof {
                step = step + 1;
                if slot_at(start, step - 1, capacity as int) + 1 == capacity {
                    vstd::arithmetic::div_mod::lemma_mod_self_0(capacity as int);
                } else {
                    vstd::arithmetic::div_mod::lemma_small_mod(
                        (slot_at(start, step - 1, capacity as int) + 1) as nat,
                        capacity as nat,
                    );
                }
            }
        }
    }

    /// Enters `key` with `weight`, or overwrites the weight that it has, in a
    /// table that has a slot to spare. Returns whether the key was in the
    /// table.
    fn place(&mut self, key: IndexPair, weight: usize) -> (had: bool)
        requires
            old(self).wf(),
            old(self).count + 1 < old(self).table@.len(),
        ensures
            final(self).wf(),
            final(self)@ == old(self)@.insert(key, weight),
            had == old(self)@.contains_key(key),
            final(self).table@.len() == old(self).table@.len(),
            final(self).count == old(self).count || (final(self).count == old(self).count + 1
                && !had),
            final(self).table@ == written(old(self).table@, key, weight),
            0 <= site(old(self).table@, key) < old(self).table@.len(),
            !had ==> !(old(self).table@[site(old(self).table@, key)] is Occupied),
            final(self).count == old(self).count + (if old(self).table@[site(
                old(self).table@,
                key,
            )] is Empty {
                1int
            } else {
                0int
            }),
    {
        proof {
            self.lemma_wf();
        }
        let index = self.index_of_insertion(key);
        let (had_edge, fresh) = match &self.table[index] {
            Slot::Occupied(_) => (true, false),
            Slot::Tombstone => (false, false),
            Slot::Empty => (false, true),
        };
        if fresh {
            self.count += 1;
        }
        let entry = Slot::Occupied(EdgeMeta { source: key.0, destination: key.1, weight });
        self.table[index] = entry;
        proof {
            self.contents@ = self.contents@.insert(key, weight);
            lemma_site(old(self).table@, old(self).count, old(self).contents@, key, index as int);
            lemma_entry_written(
                old(self).table@,
                old(self).count,
                old(self).contents@,
                index as int,
                key,
                weight,
            );
        }
        had_edge
    }

    /// Enters `key` with `weight`, or overwrites the weight that it has.
    /// Returns whether the key was in the table.
    ///
    /// Where the entry might fill more than three quarters of the slots, the
    /// table first gets twice as many slots, and the live entries are entered
    /// anew: they keep their weights, and what was deleted stays deleted. The
    /// call fails where the table would have to grow and twice its slots are
    /// more than a machine word counts.
    pub fn insert(&mut self, key: IndexPair, weight: usize) -> (r: Result<bool, GraphError>)
        requires
            old(self).wf(),
        ensures
            final(self).wf(),
            r is Ok <==> old(self).has_room(),
            r matches Ok(had) ==> had == old(self)@.contains_key(key) && final(self)@
                == old(self)@.insert(key, weight),
            r is Ok ==> final(self).slots() == old(self).slots_with_entry(),
            r is Ok ==> final(self).in_use() <= old(self).in_use() + 1,
            r is Ok ==> final(self).layout() == old(self).with_entry(key, weight),
            r matches Err(e) ==> e == GraphError::CapacityExceeded && final(self)@ == old(self)@
                && final(self).layout() == old(self).layout() && final(self).in_use() == old(
                self,
            ).in_use() && final(self).slots() == old(self).slots(),
    {
        proof {
            self.lemma_wf();
        }
        let capacity = self.table.len();
        let limit = (capacity / MAX_LOAD_DENOMINATOR) * MAX_LOAD_NUMERATOR + ((capacity
            % MAX_LOAD_DENOMINATOR) * MAX_LOAD_NUMERATOR) / MAX_LOAD_DENOMINATOR;
        assert(limit == load_limit(capacity));
        if self.count + 1 > limit {
            if capacity > usize::MAX / GROW_FACTOR {
                return Err(GraphError::CapacityExceeded);
            }
            let new_capacity = capacity * GROW_FACTOR;
            proof {
                self.lemma_counted();
                lemma_count_le(self.table@, is_live(), is_used());
            }
            let _ = self.resize(new_capacity);
        }
        Ok(self.place(key, weight))
    }

    /// Deletes the entry of `key`: its slot keeps a tombstone. Returns whether
    /// the key was in the table.
    pub fn delete(&mut self, key: IndexPair) -> (found: bool)
        requires
            old(self).wf(),
        ensures
            final(self).wf(),
            found == old(self)@.contains_key(key),
            final(self)@ == old(self)@.remove(key),
            final(self).slots() == old(self).slots(),
            final(self).in_use() == old(self).in_use(),
            final(self).layout() == erased(old(self).layout(), key),
    {
        if self.count == 0 {
            proof {
                lemma_unused_table(self.table@, self.count, self.contents@);
                assert(self@.remove(key) =~= self@);
                self.lemma_wf();
            }
            return false;
        }
        let index = self.index_of_insertion(key);
        proof {
            lemma_site(self.table@, self.count, self.contents@, key, index as int);
        }

        let index = if let Slot::Occupied(_) = &self.table[index] {
            Some(index)
        } else {
            None
        };

        if let Some(index) = index {
            self.table[index] = Slot::Tombstone;
            proof {
                self.contents@ = self.contents@.remove(key);
                lemma_entry_deleted(
                    old(self).table@,
                    old(self).count,
                    old(self).contents@,
                    index as int,
                    key,
                );
            }
            true
        } else {
            proof {
                assert(self@.remove(key) =~= self@);
            }
            false
        }
    }

    /// The entry of `key`, if the key is in the table.
    pub fn get(&self, key: IndexPair) -> (r: Option<&EdgeMeta<usize>>)
        requires
            self.wf(),
        ensures
            r is Some <==> self@.contains_key(key),
            r matches Some(meta) ==> *meta == (EdgeMeta {
                source: key.0,
                destination: key.1,
                weight: self@[key],
            }),
    {
        let index = self.index_of(key);
        proof {
            if self@.contains_key(key) {
                self.lemma_found(key, index as int);
            }
        }
        if let Slot::Occupied(entry) = &self.table[index] {
            Some(entry)
        } else {
            None
        }
    }

    /// A key has one live entry at most.
    proof fn lemma_one_slot(&self, key: IndexPair, i: int, j: int)
        requires
            self.wf(),
            0 <= i < self.table@.len(),
            0 <= j < self.table@.len(),
            holds_key(self.table@[i], key),
            holds_key(self.table@[j], key),
        ensures
            i == j,
    {
        reveal(table_inv);
    }

    /// Moves the live entries to a fresh table of `capacity` slots, in the
    /// order of their slots. Every live entry keeps its weight; the tombstones
    /// are left behind, so what was deleted stays deleted and only the live
    /// entries are in use afterwards.
    ///
    /// Fails, and changes nothing, where `capacity` slots would not leave one
    /// empty beside the live entries.
    pub fn resize(&mut self, capacity: usize) -> (r: Result<(), GraphError>)
        requires
            old(self).wf(),
        ensures
            final(self).wf(),
            final(self)@ == old(self)@,
            r is Ok <==> live(old(self).layout()) < capacity,
            r is Ok <==> old(self)@.dom().len() < capacity,
            r is Ok ==> final(self).in_use() == old(self)@.dom().len(),
            r is Ok ==> final(self).slots() == capacity && final(self).in_use() == live(
                old(self).layout(),
            ) && final(self).layout() == rehashed(
                old(self).layout(),
                old(self).slots(),
                capacity as nat,
            ),
            r matches Err(e) ==> e == GraphError::CapacityExceeded && final(self).layout() == old(
                self,
            ).layout() && final(self).in_use() == old(self).in_use() && final(self).slots() == old(
                self,
            ).slots(),
    {
        proof {
            self.lemma_counted();
            self.lemma_live_count();
        }
        let mut entries: usize = 0;
        let mut k: usize = 0;
        while k < self.table.len()
            invariant
                k <= self.table@.len() <= usize::MAX,
                entries == live(self.table@.take(k as int)),
                entries <= k,
            decreases self.table@.len() - k,
        {
            proof {
                assert(self.table@.take(k + 1).drop_last() =~= self.table@.take(k as int));
            }
            if let Slot::Occupied(_) = &self.table[k] {
                entries = entries + 1;
            }
            k = k + 1;
        }
        proof {
            assert(self.table@.take(k as int) =~= self.table@);
        }
        if entries >= capacity {
            return Err(GraphError::CapacityExceeded);
        }
        let mut new_table = Self::with_capacity(capacity);
        let mut i: usize = 0;
        while i < self.table.len()
            invariant
                i <= self.table@.len(),
                self.wf(),
                *self == *old(self),
                new_table.wf(),
                new_table.table@.len() == capacity,
                new_table.table@ == rehashed(self.table@, i as nat, capacity as nat),
                new_table.count == live(self.table@.take(i as int)),
                live(self.table@) < capacity,
                forall|j: int|
                    0 <= j < new_table.table@.len() ==> !((#[trigger] new_table.table@[j])
                        is Tombstone),
                forall|key: IndexPair| #[trigger]
                    new_table@.contains_key(key) <==> exists|j: int|
                        0 <= j < i && holds_key(#[trigger] self.table@[j], key),
                forall|key: IndexPair| #[trigger]
                    new_table@.contains_key(key) ==> new_table@[key] == self@[key],
            decreases self.table@.len() - i,
        {
            proof {
                assert(self.table@.take(i + 1).drop_last() =~= self.table@.take(i as int));
                lemma_count_prefix(self.table@, is_live(), i + 1);
            }
            if let Slot::Occupied(entry) = &self.table[i] {
                let ghost before = new_table@;
                let ghost slots_before = new_table.table@;
                let pair = entry.key_pair();
                proof {
                    if before.contains_key(pair) {
                        let j = choose|j: int|
                            0 <= j < i && holds_key(#[trigger] self.table@[j], pair);
                        self.lemma_one_slot(pair, i as int, j);
                    }
                }
                new_table.place(pair, entry.weight);
                proof {
                    self.lemma_found(pair, i as int);
                    assert(!(slots_before[site(slots_before, pair)] is Tombstone));
                    assert forall|key: IndexPair| #[trigger]
                        new_table@.contains_key(key) <==> exists|j: int|
                            0 <= j < i + 1 && holds_key(#[trigger] self.table@[j], key) by {
                        if key == pair {
                            assert(holds_key(self.table@[i as int], key));
                        } else {
                            if before.contains_key(key) {
                                let j = choose|j: int|
                                    0 <= j < i && holds_key(#[trigger] self.table@[j], key);
                                assert(holds_key(self.table@[j], key));
                            }
                            if exists|j: int|
                                0 <= j < i + 1 && holds_key(#[trigger] self.table@[j], key) {
                                let j = choose|j: int|
                                    0 <= j < i + 1 && holds_key(#[trigger] self.table@[j], key);
                                assert(j < i);
                            }
                        }
                    }
                }
            } else {
                proof {
                    assert forall|key: IndexPair| #[trigger]
                        new_table@.contains_key(key) <==> exists|j: int|
                            0 <= j < i + 1 && holds_key(#[trigger] self.table@[j], key) by {
                        if new_table@.contains_key(key) {
                            let j = choose|j: int|
                                0 <= j < i && holds_key(#[trigger] self.table@[j], key);
                            assert(holds_key(self.table@[j], key));
                        }
                        if exists|j: int|
                            0 <= j < i + 1 && holds_key(#[trigger] self.table@[j], key) {
                            let j = choose|j: int|
                                0 <= j < i + 1 && holds_key(#[trigger] self.table@[j], key);
                            assert(j < i);
                        }
                    }
                }
            }
            i = i + 1;
        }
        proof {
            reveal(table_inv);
            assert(self.table@.take(i as int) =~= self.table@);
            assert forall|key: IndexPair| new_table@.contains_key(key) == self@.contains_key(
                key,
            ) by {
                if new_table@.contains_key(key) {
                    let j = choose|j: int| 0 <= j < i && holds_key(#[trigger] self.table@[j], key);
                    self.lemma_found(key, j);
                }
                if self@.contains_key(key) {
                    let j = choose|j: int|
                        0 <= j < self.table@.len() && holds_key(#[trigger] self.table@[j], key);
                    assert(holds_key(self.table@[j], key));
                }
            }
            assert(new_table@ =~= self@);
        }
        self.count = new_table.count;
        self.table = new_table.table;
        proof {
            self.contents@ = new_table.contents@;
        }
        Ok(())
    }
}

/// The keys that have a live entry among the first `n` slots.
pub open spec fn keys_below(table: Seq<Slot>, n: nat) -> Set<IndexPair> {
    Set::new(|key: IndexPair| exists|at: int| 0 <= at < n && holds_key(#[trigger] table[at], key))
}

/// Where no key has two live entries, the first `n` slots hold as many keys as
/// live entries.
proof fn lemma_keys_counted(table: Seq<Slot>, n: nat)
    requires
        n <= table.len(),
        forall|i: int, j: int|
            0 <= i < table.len() && 0 <= j < table.len() && i != j ==> !((
            #[trigger] table[i]) matches Slot::Occupied(a) && (#[trigger] table[j]) matches Slot::Occupied(
                b,
            ) && (a.source, a.destination) == (b.source, b.destination)),
    ensures
        keys_below(table, n).finite(),
        keys_below(table, n).len() == live(table.take(n as int)),
    decreases n,
{
    if n == 0 {
        assert(keys_below(table, 0) =~= Set::<IndexPair>::empty());
        assert(table.take(0).len() == 0);
    } else {
        let m = (n - 1) as nat;
        lemma_keys_counted(table, m);
        assert(table.take(n as int).drop_last() =~= table.take(m as int));
        assert(table.take(n as int).last() == table[m as int]);
        match table[m as int] {
            Slot::Occupied(meta) => {
                let key = (meta.source, meta.destination);
                assert(holds_key(table[m as int], key));
                assert(!keys_below(table, m).contains(key)) by {
                    if keys_below(table, m).contains(key) {
                        let at = choose|at: int| 0 <= at < m && holds_key(#[trigger] table[at], key);
                        assert(table[at] is Occupied);
                    }
                }
                assert(keys_below(table, n) =~= keys_below(table, m).insert(key)) by {
                    assert forall|other: IndexPair|
                        keys_below(table, n).contains(other) implies keys_below(table, m).insert(
                        key,
                    ).contains(other) by {
                        let at = choose|at: int|
                            0 <= at < n && holds_key(#[trigger] table[at], other);
                        if at < m {
                            assert(holds_key(table[at], other));
                        }
                    }
                    assert forall|other: IndexPair|
                        keys_below(table, m).insert(key).contains(other) implies keys_below(
                        table,
                        n,
                    ).contains(other) by {
                        if other != key {
                            let at = choose|at: int|
                                0 <= at < m && holds_key(#[trigger] table[at], other);
                            assert(holds_key(table[at], other));
                        }
                    }
                }
            },
            _ => {
                assert(keys_below(table, n) =~= keys_below(table, m)) by {
                    assert forall|other: IndexPair|
                        keys_below(table, n).contains(other) implies keys_below(table, m).contains(
                        other,
                    ) by {
                        let at = choose|at: int|
                            0 <= at < n && holds_key(#[trigger] table[at], other);
                        assert(at < m);
                        assert(holds_key(table[at], other));
                    }
                    assert forall|other: IndexPair|
                        keys_below(table, m).contains(other) implies keys_below(table, n).contains(
                        other,
                    ) by {
                        let at = choose|at: int|
                            0 <= at < m && holds_key(#[trigger] table[at], other);
                        assert(holds_key(table[at], other));
                    }
                }
            },
        }
    }
}

/// The slot that `index_of_insertion` gives for a key is the site of the key.
proof fn lemma_site(
    table: Seq<Slot>,
    count: usize,
    contents: Map<IndexPair, usize>,
    key: IndexPair,
    at: int,
)
    requires
        table_inv(table, count, contents),
        0 <= at < table.len(),
        contents.contains_key(key) ==> holds_key(table[at], key),
        !contents.contains_key(key) ==> !(table[at] is Occupied) && probe_passes(table, key, at),
    ensures
        site(table, key) == at,
        contents.contains_key(key) <==> exists|i: int|
            0 <= i < table.len() && holds_key(#[trigger] table[i], key),
{
    reveal(table_inv);
    let capacity = table.len() as int;
    let start = probe_start(key, table.len() as usize) as int;
    if contents.contains_key(key) {
        let other = site(table, key);
        assert(holds_key(table[other], key));
    } else {
        assert forall|i: int| 0 <= i < table.len() implies !holds_key(#[trigger] table[i], key) by {
            if holds_key(table[i], key) {
                assert(table[i] is Occupied);
            }
        }
        let other = site(table, key);
        assert(!(table[other] is Occupied) && probe_passes(table, key, other));
        let near = steps_to(start, at, capacity);
        let far = steps_to(start, other, capacity);
        assert(slot_at(start, near, capacity) == at);
        assert(slot_at(start, far, capacity) == other);
        if far < near {
            assert(table[slot_at(start, far, capacity)] is Occupied);
        }
        if near < far {
            assert(table[slot_at(start, near, capacity)] is Occupied);
        }
    }
}

/// A table of which no slot is in use has no entries.
proof fn lemma_unused_table(table: Seq<Slot>, count: usize, contents: Map<IndexPair, usize>)
    requires
        table_inv(table, count, contents),
        count == 0,
    ensures
        forall|key: IndexPair| !contents.contains_key(key),
{
    reveal(table_inv);
    assert forall|key: IndexPair| !contents.contains_key(key) by {
        if contents.contains_key(key) {
            let at = choose|at: int| 0 <= at < table.len() && holds_key(#[trigger] table[at], key);
            lemma_count_update(table, at, Slot::Empty, is_used());
        }
    }
}

/// Writing the live entry of `key` into the slot that `index_of_insertion`
/// gave for it keeps the table consistent.
proof fn lemma_entry_written(
    table: Seq<Slot>,
    count: usize,
    contents: Map<IndexPair, usize>,
    at: int,
    key: IndexPair,
    weight: usize,
)
    requires
        table_inv(table, count, contents),
        count + 1 < table.len(),
        0 <= at < table.len(),
        contents.contains_key(key) ==> holds_key(table[at], key),
        !contents.contains_key(key) ==> !(table[at] is Occupied) && probe_passes(table, key, at),
    ensures
        table_inv(
            table.update(
                at,
                Slot::Occupied(EdgeMeta { source: key.0, destination: key.1, weight }),
            ),
            if table[at] is Empty {
                (count + 1) as usize
            } else {
                count
            },
            contents.insert(key, weight),
        ),
{
    reveal(table_inv);
    if !contents.contains_key(key) {
        assert(probe_reaches(table, key, at)) by {
            let start = probe_start(key, table.len() as usize) as int;
            assert forall|step: int|
                0 <= step < steps_to(start, at, table.len() as int) implies in_use(
                #[trigger] table[slot_at(start, step, table.len() as int)],
            ) by {
                assert(table[slot_at(start, step, table.len() as int)] is Occupied);
            }
        }
    }
    let entry = Slot::Occupied(EdgeMeta { source: key.0, destination: key.1, weight });
    let after = table.update(at, entry);
    let new_contents = contents.insert(key, weight);
    lemma_count_update(table, at, entry, is_used());
    assert forall|i: int| 0 <= i < after.len() implies ((#[trigger] after[i]) matches Slot::Occupied(
        meta,
    ) ==> {
        &&& new_contents.contains_key((meta.source, meta.destination))
        &&& new_contents[(meta.source, meta.destination)] == meta.weight
        &&& probe_reaches(after, (meta.source, meta.destination), i)
    }) by {
        if let Slot::Occupied(meta) = after[i] {
            let this = (meta.source, meta.destination);
            let start = probe_start(this, table.len() as usize) as int;
            if i == at {
                if contents.contains_key(key) {
                    assert(probe_reaches(table, key, at));
                }
            } else {
                assert(table[i] == after[i]);
                assert(probe_reaches(table, this, i));
                if this == key {
                    assert(contents.contains_key(key));
                    assert(holds_key(table[at], key));
                }
            }
            assert forall|step: int|
                0 <= step < steps_to(start, i, table.len() as int) implies in_use(
                #[trigger] after[slot_at(start, step, table.len() as int)],
            ) by {
                assert(in_use(table[slot_at(start, step, table.len() as int)]));
            }
        }
    }
    assert forall|other: IndexPair| #[trigger]
        new_contents.contains_key(other) implies exists|i: int|
        0 <= i < after.len() && holds_key(#[trigger] after[i], other) by {
        if other == key {
            assert(holds_key(after[at], other));
        } else {
            let i = choose|i: int| 0 <= i < table.len() && holds_key(#[trigger] table[i], other);
            assert(i != at) by {
                if i == at {
                    assert(table[at] is Occupied);
                    assert(contents.contains_key(key));
                }
            }
            assert(holds_key(after[i], other));
        }
    }
    assert forall|i: int, j: int|
        0 <= i < after.len() && 0 <= j < after.len() && i != j implies !((
    #[trigger] after[i]) matches Slot::Occupied(a) && (#[trigger] after[j]) matches Slot::Occupied(
        b,
    ) && (a.source, a.destination) == (b.source, b.destination)) by {
        if i == at && holds_key(table[j], key) {
            assert(table[j] == after[j]);
            assert(contents.contains_key(key));
        }
        if j == at && holds_key(table[i], key) {
            assert(table[i] == after[i]);
            assert(contents.contains_key(key));
        }
        if i != at && j != at {
            assert(table[i] == after[i] && table[j] == after[j]);
        }
    }
}

/// Leaving a tombstone in the slot of the live entry of `key` keeps the table
/// consistent.
proof fn lemma_entry_deleted(
    table: Seq<Slot>,
    count: usize,
    contents: Map<IndexPair, usize>,
    at: int,
    key: IndexPair,
)
    requires
        table_inv(table, count, contents),
        0 <= at < table.len(),
        table[at] is Occupied,
        contents.contains_key(key) ==> holds_key(table[at], key),
        !contents.contains_key(key) ==> !(table[at] is Occupied),
    ensures
        contents.contains_key(key),
        table_inv(table.update(at, Slot::Tombstone), count, contents.remove(key)),
{
    reveal(table_inv);
    let after = table.update(at, Slot::Tombstone);
    let new_contents = contents.remove(key);
    lemma_count_update(table, at, Slot::Tombstone, is_used());
    assert forall|i: int| 0 <= i < after.len() implies ((#[trigger] after[i]) matches Slot::Occupied(
        meta,
    ) ==> {
        &&& new_contents.contains_key((meta.source, meta.destination))
        &&& new_contents[(meta.source, meta.destination)] == meta.weight
        &&& probe_reaches(after, (meta.source, meta.destination), i)
    }) by {
        if let Slot::Occupied(meta) = after[i] {
            let this = (meta.source, meta.destination);
            let start = probe_start(this, table.len() as usize) as int;
            assert(table[i] == after[i]);
            assert(probe_reaches(table, this, i));
            assert forall|step: int|
                0 <= step < steps_to(start, i, table.len() as int) implies in_use(
                #[trigger] after[slot_at(start, step, table.len() as int)],
            ) by {
                assert(in_use(table[slot_at(start, step, table.len() as int)]));
            }
        }
    }
    assert forall|other: IndexPair| #[trigger]
        new_contents.contains_key(other) implies exists|i: int|
        0 <= i < after.len() && holds_key(#[trigger] after[i], other) by {
        let i = choose|i: int| 0 <= i < table.len() && holds_key(#[trigger] table[i], other);
        assert(holds_key(after[i], other));
    }
    assert forall|i: int, j: int|
        0 <= i < after.len() && 0 <= j < after.len() && i != j implies !((
    #[trigger] after[i]) matches Slot::Occupied(a) && (#[trigger] after[j]) matches Slot::Occupied(
        b,
    ) && (a.source, a.destination) == (b.source, b.destination)) by {
        if i != at && j != at {
            assert(table[i] == after[i] && table[j] == after[j]);
        }
    }
}

/// A directed graph that keeps its edges in a hash table. Looking up or
/// changing one edge takes a few probes; listing the neighbours of a node
/// takes a probe for every node of the graph.
pub struct HashGraph {
    count: usize,
    nodes: Vec<u64>,
    edges: PairHashTable,
}

impl HashGraph {
    /// The table that holds the edges.
    pub closed spec fn table(&self) -> PairHashTable {
        self.edges
    }

    /// The table is consistent, and its entries are the edges of the graph.
    pub proof fn lemma_table(&self)
        requires
            self.wf(),
        ensures
            self.table().wf(),
            self.table()@ == self@.edges,
    {
    }

    /// A graph without nodes and edges, with a table of 256 slots.
    pub fn new() -> (graph: Self)
        ensures
            graph.wf(),
            graph.edge_room(),
            graph.table().layout() == blank_table(DEFAULT_CAPACITY as nat),
            graph.table().slots() == DEFAULT_CAPACITY,
            graph.table().in_use() == 0,
            graph@ == GraphModel::<u64, usize>::empty(),
    {
        Self::with_capacity(DEFAULT_CAPACITY)
    }

    /// A graph without nodes and edges, with a table of `size` slots.
    pub fn with_capacity(size: usize) -> (graph: Self)
        ensures
            graph.wf(),
            size <= usize::MAX / GROW_FACTOR ==> graph.edge_room(),
            graph.table().layout() == blank_table(
                if size == 0 {
                    1
                } else {
                    size as nat
                },
            ),
            graph.table().slots() == (if size == 0 {
                1
            } else {
                size
            }),
            graph.table().in_use() == 0,
            graph@ == GraphModel::<u64, usize>::empty(),
    {
        let graph = HashGraph {
            count: 0,
            nodes: Vec::with_capacity(size),
            edges: PairHashTable::with_capacity(size),
        };
        proof {
            assert(graph.nodes@ =~= Seq::<u64>::empty());
        }
        graph
    }

    /// The neighbours of `node_index` among the nodes below the node count:
    /// those that it points to, or, with `incoming`, those that point to it.
    fn neighbours(&self, node_index: usize, incoming: bool) -> (out: Vec<usize>)
        requires
            self.wf(),
        ensures
            out@ == (if incoming {
                self@.incoming(node_index)
            } else {
                self@.outgoing(node_index)
            }),
    {
        let mut out: Vec<usize> = Vec::new();
        let ghost keep = |other: usize|
            self@.edges.contains_key(
                if incoming {
                    (other, node_index)
                } else {
                    (node_index, other)
                },
            );
        let mut i: usize = 0;
        while i < self.count
            invariant
                self.wf(),
                i <= self.count,
                keep == |other: usize|
                    self@.edges.contains_key(
                        if incoming {
                            (other, node_index)
                        } else {
                            (node_index, other)
                        },
                    ),
                out@ == ascending_where(i as nat, keep),
            decreases self.count - i,
        {
            let key = if incoming {
                (i, node_index)
            } else {
                (node_index, i)
            };
            if self.edges.get(key).is_some() {
                out.push(i);
            }
            i = i + 1;
        }
        proof {
            if incoming {
                crate::model::lemma_ascending_where_agree(
                    self.count as nat,
                    keep,
                    |from: usize| self@.edges.contains_key((from, node_index)),
                );
            } else {
                crate::model::lemma_ascending_where_agree(
                    self.count as nat,
                    keep,
                    |to: usize| self@.edges.contains_key((node_index, to)),
                );
            }
        }
        out
    }
}

/// Edges carry a weight of any size, 0 included; `add_edge` gives the weight 1.
/// Node values can be read and nodes can be removed; `set_node` is not
/// offered. The node count has no bound but that of a machine word.
impl Graph<u64, usize> for HashGraph {
    closed spec fn view(&self) -> GraphModel<u64, usize> {
        GraphModel { count: self.count as nat, nodes: self.nodes@, edges: self.edges@ }
    }

    closed spec fn wf(&self) -> bool {
        self.edges.wf()
    }

    open spec fn node_limit(&self) -> nat {
        usize::MAX as nat
    }

    open spec fn edge_room(&self) -> bool {
        self.table().has_room()
    }

    open spec fn default_weight() -> usize {
        1
    }

    open spec fn makes_edge(weight: usize) -> bool {
        true
    }

    open spec fn offers(op: NodeOp) -> bool {
        op is GetNode || op is RemoveNode
    }

    open spec fn vacant() -> u64 {
        0
    }

    proof fn lemma_wf(&self) {
        vstd::std_specs::vec::axiom_spec_len(&self.nodes);
    }

    fn add_edge(&mut self, from: usize, to: usize) -> (r: Result<bool, GraphError>)
        ensures
            final(self).table().layout() == (if r is Ok {
                old(self).table().with_entry((from, to), 1)
            } else {
                old(self).table().layout()
            }),
            final(self).table().slots() == (if r is Ok {
                old(self).table().slots_with_entry()
            } else {
                old(self).table().slots() as int
            }),
            r is Ok ==> final(self).table().in_use() <= old(self).table().in_use() + 1,
            r is Err ==> final(self).table().in_use() == old(self).table().in_use(),
    {
        if from >= self.count || to >= self.count {
            return Err(GraphError::IndexOutOfRange);
        }
        self.edges.insert((from, to), 1)
    }

    fn remove_edge(&mut self, from: usize, to: usize) -> (r: Result<bool, GraphError>)
        ensures
            final(self).table().layout() == (if r is Ok {
                erased(old(self).table().layout(), (from, to))
            } else {
                old(self).table().layout()
            }),
            final(self).table().slots() == old(self).table().slots(),
            final(self).table().in_use() == old(self).table().in_use(),
    {
        if from >= self.count || to >= self.count {
            return Err(GraphError::IndexOutOfRange);
        }
        Ok(self.edges.delete((from, to)))
    }

    fn has_edge(&self, from: usize, to: usize) -> (r: Result<bool, GraphError>) {
        if from >= self.count || to >= self.count {
            return Err(GraphError::IndexOutOfRange);
        }
        Ok(self.edges.get((from, to)).is_some())
    }

    fn get_edge(&self, from: usize, to: usize) -> (r: Result<Option<EdgeMeta<usize>>, GraphError>) {
        if from >= self.count || to >= self.count {
            return Err(GraphError::IndexOutOfRange);
        }
        if let Some(edge) = self.edges.get((from, to)) {
            Ok(Some(*edge))
        } else {
            Ok(None)
        }
    }

    fn outgoing_edges_of(&self, node_index: usize) -> (r: Result<Vec<usize>, GraphError>) {
        if node_index >= self.count {
            return Err(GraphError::IndexOutOfRange);
        }
        Ok(self.neighbours(node_index, false))
    }

    fn incoming_edges_of(&self, node_index: usize) -> (r: Result<Vec<usize>, GraphError>) {
        if node_index >= self.count {
            return Err(GraphError::IndexOutOfRange);
        }
        Ok(self.neighbours(node_index, true))
    }

    fn push_node(&mut self, value: u64) -> (r: Result<usize, GraphError>)
        ensures
            final(self).table() == old(self).table(),
    {
        if self.count == usize::MAX {
            return Err(GraphError::CapacityExceeded);
        }
        self.count += 1;
        self.nodes.push(value);
        Ok(self.nodes.len() - 1)
    }

    fn set_node(&mut self, _node_index: usize, _value: u64) -> (r: Result<(), GraphError>)
        ensures
            final(self).table() == old(self).table(),
    {
        Err(GraphError::UnsupportedOperation)
    }

    fn get_node(&self, node_index: usize) -> (r: Result<&u64, GraphError>) {
        if node_index >= self.count || node_index >= self.nodes.len() {
            return Err(GraphError::IndexOutOfRange);
        }
        Ok(&self.nodes[node_index])
    }

    fn remove_node(&mut self, node_index: usize) -> (r: Result<u64, GraphError>)
        ensures
            final(self).table().layout() == (if r is Ok {
                erased_around(old(self).table().layout(), node_index, old(self)@.count)
            } else {
                old(self).table().layout()
            }),
            final(self).table().slots() == old(self).table().slots(),
            final(self).table().in_use() == old(self).table().in_use(),
    {
        if node_index >= self.count || node_index >= self.nodes.len() {
            return Err(GraphError::IndexOutOfRange);
        }
        let ghost before = self@;
        let mut i: usize = 0;
        while i < self.count
            invariant
                self.wf(),
                i <= self.count,
                self.count == old(self).count,
                self.nodes == old(self).nodes,
                self.edges.slots() == old(self).edges.slots(),
                self.edges.in_use() == old(self).edges.in_use(),
                self.edges.layout() == erased_around(
                    old(self).edges.layout(),
                    node_index,
                    i as nat,
                ),
                before == old(self)@,
                self@.edges == before.edges.remove_keys(
                    Set::new(
                        |pair: (usize, usize)|
                            (pair.0 < i && pair.1 == node_index) || (pair.0 == node_index && pair.1
                                < i),
                    ),
                ),
            decreases self.count - i,
        {
            let ghost edges = self@.edges;
            self.edges.delete((i, node_index));
            self.edges.delete((node_index, i));
            proof {
                assert(self@.edges =~= before.edges.remove_keys(
                    Set::new(
                        |pair: (usize, usize)|
                            (pair.0 < i + 1 && pair.1 == node_index) || (pair.0 == node_index
                                && pair.1 < i + 1),
                    ),
                ));
            }
            i = i + 1;
        }

        let val = self.nodes[node_index];

        self.nodes[node_index] = 0;

        proof {
            assert(self@.edges =~= before.without_edges_of(node_index).edges);
        }
        Ok(val)
    }

    fn node_count(&self) -> (count: usize) {
        self.count
    }

    fn set_count(&mut self, count: usize) -> (r: Result<(), GraphError>)
        ensures
            final(self).table() == old(self).table(),
    {
        self.count = count;
        Ok(())
    }

    fn set_edge(&mut self, from_to: (usize, usize), weight: usize) -> (r: Result<
        bool,
        GraphError,
    >)
        ensures
            final(self).table().layout() == (if r is Ok {
                old(self).table().with_entry(from_to, weight)
            } else {
                old(self).table().layout()
            }),
            final(self).table().slots() == (if r is Ok {
                old(self).table().slots_with_entry()
            } else {
                old(self).table().slots() as int
            }),
            r is Ok ==> final(self).table().in_use() <= old(self).table().in_use() + 1,
            r is Err ==> final(self).table().in_use() == old(self).table().in_use(),
    {
        if from_to.0 >= self.count || from_to.1 >= self.count {
            return Err(GraphError::IndexOutOfRange);
        }
        self.edges.insert(from_to, weight)
    }
}

} // verus!
