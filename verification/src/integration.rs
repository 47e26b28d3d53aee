use vstd::prelude::*;
use vstd::std_specs::vec::vec_index_mut;

use crate::errors::ReplayError;
use crate::metadata_storage::MetadataStorage;
use crate::sumtree::MAX_CAPACITY;
use crate::sumtree::SumTree;
use crate::sumtree::sample_index;
use crate::sumtree::sum_weights;

verus! {

/// One sampling table: a sum tree over priority weights together with the
/// binding of each leaf slot to the item identifier it currently serves, if
/// any.  An unbound slot always carries weight zero.
pub struct Table {
    tree: SumTree,
    slots: Vec<Option<u64>>,
}

/// Per-slot statement of `cleared`: a slot bound to `id` before is unbound
/// with weight zero after; every other slot keeps its binding and weight.
pub open spec fn cleared_at(before: Table, after: Table, id: u64, s: int) -> bool {
    if before.slots_spec()[s] == Some(id) {
        after.slots_spec()[s] is None && after.weights()[s] == 0
    } else {
        after.slots_spec()[s] == before.slots_spec()[s] && after.weights()[s]
            == before.weights()[s]
    }
}

/// Relation between a table before and after every binding of `id` was
/// cleared in one logical step.
pub open spec fn cleared(before: Table, after: Table, id: u64) -> bool {
    &&& after.slots_spec().len() == before.slots_spec().len()
    &&& after.weights().len() == before.weights().len()
    &&& forall|s: int| 0 <= s < before.slots_spec().len() ==> #[trigger] cleared_at(
        before,
        after,
        id,
        s,
    )
}

impl Table {
    /// The current leaf weights, one per slot.
    pub closed spec fn weights(&self) -> Seq<u64> {
        self.tree@
    }

    /// The current slot bindings: `Some(id)` when the slot serves item `id`.
    pub closed spec fn slots_spec(&self) -> Seq<Option<u64>> {
        self.slots@
    }

    /// The number of leaf slots.
    pub open spec fn capacity_spec(&self) -> int {
        self.slots_spec().len() as int
    }

    /// The table's total mass.
    pub open spec fn total_spec(&self) -> int {
        sum_weights(self.weights())
    }

    /// Table invariant: the binding vector matches the tree's slots, and an
    /// unbound slot carries weight zero.
    pub closed spec fn wf(&self) -> bool {
        &&& self.tree.wf()
        &&& self.slots@.len() == self.tree.capacity_spec()
        &&& self.tree@.len() == self.slots@.len()
        &&& forall|s: int|
            0 <= s < self.slots@.len() && (#[trigger] self.slots@[s]) is None ==> self.tree@[s]
                == 0
    }

    /// A fresh table: all slots unbound, all weights zero.
    fn new(capacity: usize) -> (r: Table)
        requires
            1 <= capacity <= MAX_CAPACITY,
        ensures
            r.wf(),
            r.capacity_spec() == capacity,
            r.weights().len() == capacity as int,
            forall|s: int| 0 <= s < capacity ==> r.weights()[s] == 0,
            forall|s: int| 0 <= s < capacity ==> r.slots_spec()[s] is None,
            r.total_spec() == 0,
    {
        let tree = SumTree::new(capacity);
        let mut slots: Vec<Option<u64>> = Vec::new();
        while slots.len() < capacity
            invariant
                slots@.len() <= capacity,
                forall|i: int| 0 <= i < slots@.len() ==> (#[trigger] slots@[i]) is None,
            decreases capacity - slots@.len(),
        {
            slots.push(None);
        }
        Table { tree, slots }
    }

    /// Binds `slot` to item `id` with the given starting weight.
    fn bind(&mut self, slot: usize, id: u64, weight: u64) -> (r: Result<(), ReplayError>)
        requires
            old(self).wf(),
            slot < old(self).capacity_spec() ==> old(self).total_spec() - old(self).weights()[
                slot as int
            ] + weight <= u64::MAX,
        ensures
            final(self).wf(),
            slot >= old(self).capacity_spec() ==> r == Err::<(), ReplayError>(
                ReplayError::IndexOutOfRange,
            ) && *final(self) == *old(self),
            slot < old(self).capacity_spec() ==> r == Ok::<(), ReplayError>(()) && final(self).slots_spec() == old(self).slots_spec().update(slot as int, Some(id)) && final(self).weights() == old(self).weights().update(slot as int, weight),
    {
        if slot >= self.slots.len() {
            return Err(ReplayError::IndexOutOfRange);
        }
        match self.tree.set(slot, weight) {
            Ok(()) => {
                self.slots.set(slot, Some(id));
                Ok(())
            },
            Err(_) => {
                proof {
                    assert(false);
                }
                Err(ReplayError::IndexOutOfRange)
            },
        }
    }

    /// Updates the weight of a bound slot.
    fn set_weight(&mut self, slot: usize, weight: u64) -> (r: Result<(), ReplayError>)
        requires
            old(self).wf(),
            slot < old(self).capacity_spec() ==> old(self).total_spec() - old(self).weights()[
                slot as int
            ] + weight <= u64::MAX,
        ensures
            final(self).wf(),
            slot >= old(self).capacity_spec() ==> r == Err::<(), ReplayError>(
                ReplayError::IndexOutOfRange,
            ) && *final(self) == *old(self),
            slot < old(self).capacity_spec() && old(self).slots_spec()[slot as int] is None ==> r
                == Err::<(), ReplayError>(ReplayError::NotFound) && *final(self) == *old(self),
            slot < old(self).capacity_spec() && old(self).slots_spec()[slot as int] is Some ==> r
                == Ok::<(), ReplayError>(()) && final(self).slots_spec() == old(self).slots_spec()
                && final(self).weights() == old(self).weights().update(slot as int, weight),
    {
        if slot >= self.slots.len() {
            return Err(ReplayError::IndexOutOfRange);
        }
        let bound = match self.slots[slot] {
            Some(_) => true,
            None => false,
        };
        if !bound {
            return Err(ReplayError::NotFound);
        }
        match self.tree.set(slot, weight) {
            Ok(()) => Ok(()),
            Err(_) => {
                proof {
                    assert(false);
                }
                Err(ReplayError::IndexOutOfRange)
            },
        }
    }

    /// Unbinds every slot currently bound to `id`, zeroing its weight.
    fn clear_item(&mut self, id: u64)
        requires
            old(self).wf(),
        ensures
            final(self).wf(),
            cleared(*old(self), *final(self), id),
    {
        let n = self.slots.len();
        let mut s: usize = 0;
        while s < n
            invariant
                self.wf(),
                n == self.slots@.len(),
                self.slots@.len() == old(self).slots@.len(),
                self.weights().len() == old(self).weights().len(),
                0 <= s <= n,
                forall|j: int| 0 <= j < s ==> #[trigger] cleared_at(*old(self), *self, id, j),
                forall|j: int|
                    s <= j < n ==> (#[trigger] self.slots@[j]) == old(self).slots@[j]
                        && self.weights()[j] == old(self).weights()[j],
            decreases n - s,
        {
            let ghost pre = *self;
            let bound_here = match self.slots[s] {
                Some(i) => i == id,
                None => false,
            };
            if bound_here {
                proof {
                    self.tree.lemma_total_bounds();
                }
                match self.tree.set(s, 0) {
                    Ok(()) => {},
                    Err(_) => {
                        proof {
                            assert(false);
                        }
                    },
                }
                self.slots.set(s, None);
            }
            proof {
                assert forall|j: int| 0 <= j < s + 1 implies #[trigger] cleared_at(
                    *old(self),
                    *self,
                    id,
                    j,
                ) by {
                    if j < s {
                        assert(cleared_at(*old(self), pre, id, j));
                        assert(self.slots@[j] == pre.slots@[j]);
                        assert(self.weights()[j] == pre.weights()[j]);
                    } else {
                        assert(pre.slots@[j] == old(self).slots@[j]);
                        assert(pre.weights()[j] == old(self).weights()[j]);
                    }
                }
                assert forall|j: int|
                    s + 1 <= j < n implies self.slots@[j] == old(self).slots@[j]
                    && self.weights()[j] == old(self).weights()[j] by {
                    assert(pre.slots@[j] == old(self).slots@[j]);
                    assert(pre.weights()[j] == old(self).weights()[j]);
                }
            }
            s = s + 1;
        }
    }

    /// The total mass.
    fn total(&self) -> (r: u64)
        requires
            self.wf(),
        ensures
            r as int == self.total_spec(),
    {
        self.tree.total()
    }
}

/// The integration layer: the record store together with the sampling tables
/// over it.
///
/// It keeps the coordination contract between the two: every bound slot
/// refers to a live record, and when a record's last reference is released
/// (or the record is force-removed) every slot bound to it is zero-weighted
/// and unbound in the same logical step, ready for reuse.
pub struct ReplayEngine<M> {
    storage: MetadataStorage<M>,
    tables: Vec<Table>,
}

impl<M> ReplayEngine<M> {
    /// The record store.
    pub closed spec fn storage_spec(&self) -> MetadataStorage<M> {
        self.storage
    }

    /// The sampling tables.
    pub closed spec fn tables_spec(&self) -> Seq<Table> {
        self.tables@
    }

    /// Every table satisfies its own invariant.
    pub closed spec fn tables_wf(&self) -> bool {
        forall|t: int| 0 <= t < self.tables@.len() ==> (#[trigger] self.tables@[t]).wf()
    }

    /// Every bound slot refers to a live record.
    pub closed spec fn bindings_live(&self) -> bool {
        forall|t: int, s: int|
            0 <= t < self.tables@.len() && 0 <= s < self.tables@[t].slots_spec().len() ==> ((
            #[trigger] self.tables@[t].slots_spec()[s]) matches Some(i)
                ==> self.storage.contains_spec(i))
    }

    /// Engine invariant.
    pub closed spec fn wf(&self) -> bool {
        &&& self.storage_spec().wf()
        &&& self.tables_wf()
        &&& self.bindings_live()
    }

    /// An empty engine: no records, no tables.
    pub fn new() -> (r: ReplayEngine<M>)
        ensures
            r.wf(),
            r.storage_spec().len_spec() == 0,
            r.storage_spec().next_id_spec() == 0,
            r.tables_spec().len() == 0,
    {
        ReplayEngine { storage: MetadataStorage::new(), tables: Vec::new() }
    }

    /// Adds a sampling table with the given slot capacity and returns its
    /// index.  The new table starts with all slots unbound and weight zero.
    pub fn add_table(&mut self, capacity: usize) -> (r: usize)
        requires
            old(self).wf(),
            1 <= capacity <= MAX_CAPACITY,
        ensures
            final(self).wf(),
            final(self).storage_spec() == old(self).storage_spec(),
            r == old(self).tables_spec().len(),
            final(self).tables_spec().len() == old(self).tables_spec().len() + 1,
            forall|t: int|
                0 <= t < old(self).tables_spec().len() ==> final(self).tables_spec()[t] == old(self).tables_spec()[t],
            final(self).tables_spec()[r as int].capacity_spec() == capacity,
            final(self).tables_spec()[r as int].total_spec() == 0,
            forall|s: int|
                0 <= s < capacity ==> final(self).tables_spec()[r as int].weights()[s] == 0,
            forall|s: int|
                0 <= s < capacity ==> final(self).tables_spec()[r as int].slots_spec()[s] is None,
    {
        let idx = self.tables.len();
        let table = Table::new(capacity);
        self.tables.push(table);
        idx
    }

    /// The number of sampling tables.
    pub fn num_tables(&self) -> (r: usize)
        ensures
            r == self.tables_spec().len(),
    {
        self.tables.len()
    }

    /// Inserts a new record; slot assignment is a separate, explicit step.
    pub fn insert(&mut self, metadata: M) -> (r: Result<u64, ReplayError>)
        requires
            old(self).wf(),
            old(self).storage_spec().next_id_spec() < u64::MAX,
        ensures
            final(self).wf(),
            final(self).tables_spec() == old(self).tables_spec(),
            old(self).storage_spec().at_capacity() ==> r == Err::<u64, ReplayError>(
                ReplayError::CapacityExceeded,
            ) && final(self).storage_spec() == old(self).storage_spec(),
            !old(self).storage_spec().at_capacity() ==> {
                let id = old(self).storage_spec().next_id_spec();
                &&& r == Ok::<u64, ReplayError>(id)
                &&& !old(self).storage_spec().contains_spec(id)
                &&& final(self).storage_spec().contains_spec(id)
                &&& final(self).storage_spec().metadata_of(id) == metadata
                &&& final(self).storage_spec().count_of(id) == 1
                &&& final(self).storage_spec().items_spec() == old(self).storage_spec().items_spec().insert(
                    id,
                    final(self).storage_spec().items_spec()[id],
                )
                &&& final(self).storage_spec().len_spec() == old(self).storage_spec().len_spec()
                    + 1
                &&& final(self).storage_spec().next_id_spec() == id + 1
            },
    {
        self.storage.insert(metadata)
    }

    /// Looks up the metadata of a live record.
    pub fn get(&self, id: u64) -> (r: Result<&M, ReplayError>)
        requires
            self.wf(),
        ensures
            self.storage_spec().contains_spec(id) ==> r is Ok && r->Ok_0
                == self.storage_spec().metadata_of(id),
            !self.storage_spec().contains_spec(id) ==> r == Err::<&M, ReplayError>(
                ReplayError::NotFound,
            ),
    {
        self.storage.get(id)
    }

    /// Whether a record is currently live.
    pub fn contains(&self, id: u64) -> (r: bool)
        requires
            self.wf(),
        ensures
            r == self.storage_spec().contains_spec(id),
    {
        self.storage.contains(id)
    }

    /// The number of live records.
    pub fn len(&self) -> (r: usize)
        requires
            self.wf(),
        ensures
            r == self.storage_spec().len_spec(),
    {
        self.storage.len()
    }

    /// The identifier the next insertion will allocate.
    pub fn next_id(&self) -> (r: u64)
        ensures
            r == self.storage_spec().next_id_spec(),
    {
        self.storage.next_id()
    }

    /// The current reference count of a live record.
    pub fn ref_count_of(&self, id: u64) -> (r: Result<u64, ReplayError>)
        requires
            self.wf(),
        ensures
            self.storage_spec().contains_spec(id) ==> r == Ok::<u64, ReplayError>(
                self.storage_spec().count_of(id),
            ),
            !self.storage_spec().contains_spec(id) ==> r == Err::<u64, ReplayError>(
                ReplayError::NotFound,
            ),
    {
        match self.storage.get_item(id) {
            Ok(item) => Ok(item.ref_count()),
            Err(e) => Err(e),
        }
    }

    /// Replaces the metadata of a live record.
    pub fn update_metadata(&mut self, id: u64, metadata: M) -> (r: Result<(), ReplayError>)
        requires
            old(self).wf(),
        ensures
            final(self).wf(),
            final(self).tables_spec() == old(self).tables_spec(),
            !old(self).storage_spec().contains_spec(id) ==> r == Err::<(), ReplayError>(
                ReplayError::NotFound,
            ) && final(self).storage_spec().items_spec() == old(self).storage_spec().items_spec(),
            old(self).storage_spec().contains_spec(id) ==> r == Ok::<(), ReplayError>(()) && final(self).storage_spec().contains_spec(id) && final(self).storage_spec().metadata_of(id)
                == metadata && final(self).storage_spec().count_of(id) == old(self).storage_spec().count_of(id) && final(self).storage_spec().len_spec() == old(self).storage_spec().len_spec(),
    {
        let r = self.storage.update_metadata(id, metadata);
        proof {
            if old(self).storage.contains_spec(id) {
                assert forall|t: int, s: int|
                    0 <= t < self.tables@.len() && 0 <= s
                        < self.tables@[t].slots_spec().len() implies ((
                #[trigger] self.tables@[t].slots_spec()[s]) matches Some(i)
                    ==> self.storage.contains_spec(i)) by {
                    let so = self.tables@[t].slots_spec()[s];
                    if so is Some {
                        assert(old(self).storage.contains_spec(so->0));
                    }
                }
            }
        }
        r
    }

    /// Attaches one more owner to a live record; returns the new count.
    pub fn add_reference(&mut self, id: u64) -> (r: Result<u64, ReplayError>)
        requires
            old(self).wf(),
            old(self).storage_spec().contains_spec(id) ==> old(self).storage_spec().count_of(id)
                < u64::MAX,
        ensures
            final(self).wf(),
            final(self).tables_spec() == old(self).tables_spec(),
            !old(self).storage_spec().contains_spec(id) ==> r == Err::<u64, ReplayError>(
                ReplayError::NotFound,
            ) && final(self).storage_spec().items_spec() == old(self).storage_spec().items_spec(),
            old(self).storage_spec().contains_spec(id) ==> r == Ok::<u64, ReplayError>(
                (old(self).storage_spec().count_of(id) + 1) as u64,
            ) && final(self).storage_spec().contains_spec(id) && final(self).storage_spec().count_of(id) == old(self).storage_spec().count_of(id) + 1 && final(self).storage_spec().metadata_of(id) == old(self).storage_spec().metadata_of(id) && final(self).storage_spec().len_spec() == old(self).storage_spec().len_spec(),
    {
        let r = self.storage.add_reference(id);
        proof {
            if old(self).storage.contains_spec(id) {
                assert forall|t: int, s: int|
                    0 <= t < self.tables@.len() && 0 <= s
                        < self.tables@[t].slots_spec().len() implies ((
                #[trigger] self.tables@[t].slots_spec()[s]) matches Some(i)
                    ==> self.storage.contains_spec(i)) by {
                    let so = self.tables@[t].slots_spec()[s];
                    if so is Some {
                        assert(old(self).storage.contains_spec(so->0));
                    }
                }
            }
        }
        r
    }

    /// Binds a slot of one table to a live record with a starting weight.
    /// Slot assignment is deliberately separate from `insert`: an item may be
    /// shared by zero, one, or several tables.
    pub fn bind_slot(&mut self, table: usize, slot: usize, id: u64, weight: u64) -> (r: Result<
        (),
        ReplayError,
    >)
        requires
            old(self).wf(),
            table < old(self).tables_spec().len() && slot < old(self).tables_spec()[
                table as int
            ].capacity_spec() ==> old(self).tables_spec()[table as int].total_spec() - old(self).tables_spec()[table as int].weights()[slot as int] + weight <= u64::MAX,
        ensures
            final(self).wf(),
            final(self).storage_spec() == old(self).storage_spec(),
            table >= old(self).tables_spec().len() ==> r == Err::<(), ReplayError>(
                ReplayError::IndexOutOfRange,
            ) && final(self).tables_spec() == old(self).tables_spec(),
            table < old(self).tables_spec().len() && slot >= old(self).tables_spec()[
                table as int
            ].capacity_spec() ==> r == Err::<(), ReplayError>(ReplayError::IndexOutOfRange)
                && final(self).tables_spec() == old(self).tables_spec(),
            table < old(self).tables_spec().len() && slot < old(self).tables_spec()[
                table as int
            ].capacity_spec() && !old(self).storage_spec().contains_spec(id) ==> r == Err::<
                (),
                ReplayError,
            >(ReplayError::NotFound) && final(self).tables_spec() == old(self).tables_spec(),
            table < old(self).tables_spec().len() && slot < old(self).tables_spec()[
                table as int
            ].capacity_spec() && old(self).storage_spec().contains_spec(id) ==> {
                &&& r == Ok::<(), ReplayError>(())
                &&& final(self).tables_spec() == old(self).tables_spec().update(
                    table as int,
                    final(self).tables_spec()[table as int],
                )
                &&& final(self).tables_spec()[table as int].slots_spec() == old(self).tables_spec()[table as int].slots_spec().update(slot as int, Some(id))
                &&& final(self).tables_spec()[table as int].weights() == old(self).tables_spec()[
                    table as int
                ].weights().update(slot as int, weight)
            },
    {
        if table >= self.tables.len() {
            return Err(ReplayError::IndexOutOfRange);
        }
        proof {
            assert(self.tables@[table as int].wf());
        }
        let cap = self.tables[table].slots.len();
        if slot >= cap {
            return Err(ReplayError::IndexOutOfRange);
        }
        if !self.storage.contains(id) {
            return Err(ReplayError::NotFound);
        }
        let tab = vec_index_mut(&mut self.tables, table);
        let res = tab.bind(slot, id, weight);
        proof {
            assert(res is Ok);
            assert forall|t: int| 0 <= t < self.tables@.len() implies (
            #[trigger] self.tables@[t]).wf() by {
                if t != table as int {
                    assert(self.tables@[t] == old(self).tables@[t]);
                }
            }
            assert forall|t: int, s: int|
                0 <= t < self.tables@.len() && 0 <= s
                    < self.tables@[t].slots_spec().len() implies ((
            #[trigger] self.tables@[t].slots_spec()[s]) matches Some(i)
                ==> self.storage.contains_spec(i)) by {
                let so = self.tables@[t].slots_spec()[s];
                if so is Some {
                    if t == table as int && s == slot as int {
                        assert(so == Some(id));
                    } else {
                        assert(old(self).tables@[t].slots_spec()[s] == so);
                        assert(old(self).storage.contains_spec(so->0));
                    }
                }
            }
        }
        match res {
            Ok(()) => Ok(()),
            Err(_) => {
                proof {
                    assert(false);
                }
                Err(ReplayError::IndexOutOfRange)
            },
        }
    }

    /// Updates the priority weight of a bound slot.
    pub fn set_weight(&mut self, table: usize, slot: usize, weight: u64) -> (r: Result<
        (),
        ReplayError,
    >)
        requires
            old(self).wf(),
            table < old(self).tables_spec().len() && slot < old(self).tables_spec()[
                table as int
            ].capacity_spec() ==> old(self).tables_spec()[table as int].total_spec() - old(self).tables_spec()[table as int].weights()[slot as int] + weight <= u64::MAX,
        ensures
            final(self).wf(),
            final(self).storage_spec() == old(self).storage_spec(),
            table >= old(self).tables_spec().len() ==> r == Err::<(), ReplayError>(
                ReplayError::IndexOutOfRange,
            ) && final(self).tables_spec() == old(self).tables_spec(),
            table < old(self).tables_spec().len() && slot >= old(self).tables_spec()[
                table as int
            ].capacity_spec() ==> r == Err::<(), ReplayError>(ReplayError::IndexOutOfRange)
                && final(self).tables_spec() == old(self).tables_spec(),
            table < old(self).tables_spec().len() && slot < old(self).tables_spec()[
                table as int
            ].capacity_spec() && old(self).tables_spec()[table as int].slots_spec()[
                slot as int
            ] is None ==> r == Err::<(), ReplayError>(ReplayError::NotFound) && final(self).tables_spec() == old(self).tables_spec(),
            table < old(self).tables_spec().len() && slot < old(self).tables_spec()[
                table as int
            ].capacity_spec() && old(self).tables_spec()[table as int].slots_spec()[
                slot as int
            ] is Some ==> {
                &&& r == Ok::<(), ReplayError>(())
                &&& final(self).tables_spec() == old(self).tables_spec().update(
                    table as int,
                    final(self).tables_spec()[table as int],
                )
                &&& final(self).tables_spec()[table as int].slots_spec() == old(self).tables_spec()[table as int].slots_spec()
                &&& final(self).tables_spec()[table as int].weights() == old(self).tables_spec()[
                    table as int
                ].weights().update(slot as int, weight)
            },
    {
        if table >= self.tables.len() {
            return Err(ReplayError::IndexOutOfRange);
        }
        proof {
            assert(self.tables@[table as int].wf());
        }
        let tab = vec_index_mut(&mut self.tables, table);
        let res = tab.set_weight(slot, weight);
        proof {
            if res is Err {
                assert(self.tables@ =~= old(self).tables@);
            }
            assert forall|t: int| 0 <= t < self.tables@.len() implies (
            #[trigger] self.tables@[t]).wf() by {
                if t != table as int {
                    assert(self.tables@[t] == old(self).tables@[t]);
                }
            }
            assert forall|t: int, s: int|
                0 <= t < self.tables@.len() && 0 <= s
                    < self.tables@[t].slots_spec().len() implies ((
            #[trigger] self.tables@[t].slots_spec()[s]) matches Some(i)
                ==> self.storage.contains_spec(i)) by {
                let so = self.tables@[t].slots_spec()[s];
                if so is Some {
                    assert(old(self).tables@[t].slots_spec()[s] == so);
                    assert(old(self).storage.contains_spec(so->0));
                }
            }
        }
        res
    }

    /// The total mass of one table.
    pub fn total(&self, table: usize) -> (r: Result<u64, ReplayError>)
        requires
            self.wf(),
        ensures
            table >= self.tables_spec().len() ==> r == Err::<u64, ReplayError>(
                ReplayError::IndexOutOfRange,
            ),
            table < self.tables_spec().len() ==> r is Ok && r->Ok_0 as int == self.tables_spec()[
                table as int
            ].total_spec(),
    {
        if table >= self.tables.len() {
            return Err(ReplayError::IndexOutOfRange);
        }
        proof {
            assert(self.tables@[table as int].wf());
        }
        Ok(self.tables[table].total())
    }

    /// Reads the weight of one slot of one table.
    pub fn weight_of(&self, table: usize, slot: usize) -> (r: Result<u64, ReplayError>)
        requires
            self.wf(),
        ensures
            table >= self.tables_spec().len() ==> r == Err::<u64, ReplayError>(
                ReplayError::IndexOutOfRange,
            ),
            table < self.tables_spec().len() && slot >= self.tables_spec()[
                table as int
            ].capacity_spec() ==> r == Err::<u64, ReplayError>(ReplayError::IndexOutOfRange),
            table < self.tables_spec().len() && slot < self.tables_spec()[
                table as int
            ].capacity_spec() ==> r == Ok::<u64, ReplayError>(
                self.tables_spec()[table as int].weights()[slot as int],
            ),
    {
        if table >= self.tables.len() {
            return Err(ReplayError::IndexOutOfRange);
        }
        proof {
            assert(self.tables@[table as int].wf());
        }
        self.tables[table].tree.get(slot)
    }

    /// Reads which item, if any, a slot of a table is bound to.
    pub fn item_at(&self, table: usize, slot: usize) -> (r: Result<Option<u64>, ReplayError>)
        requires
            self.wf(),
        ensures
            table >= self.tables_spec().len() ==> r == Err::<Option<u64>, ReplayError>(
                ReplayError::IndexOutOfRange,
            ),
            table < self.tables_spec().len() && slot >= self.tables_spec()[
                table as int
            ].capacity_spec() ==> r == Err::<Option<u64>, ReplayError>(
                ReplayError::IndexOutOfRange,
            ),
            table < self.tables_spec().len() && slot < self.tables_spec()[
                table as int
            ].capacity_spec() ==> r == Ok::<Option<u64>, ReplayError>(
                self.tables_spec()[table as int].slots_spec()[slot as int],
            ),
    {
        if table >= self.tables.len() {
            return Err(ReplayError::IndexOutOfRange);
        }
        proof {
            assert(self.tables@[table as int].wf());
        }
        let tab = &self.tables[table];
        if slot >= tab.slots.len() {
            return Err(ReplayError::IndexOutOfRange);
        }
        Ok(tab.slots[slot])
    }

    /// Draws an item from one table with probability proportional to its
    /// slot weight: the slot whose cumulative interval contains `u` is
    /// resolved through the binding to a live item identifier.  An input at
    /// or past the total mass is clamped to the last unit of mass.
    pub fn sample(&self, table: usize, u: u64) -> (r: Result<u64, ReplayError>)
        requires
            self.wf(),
        ensures
            table >= self.tables_spec().len() ==> r == Err::<u64, ReplayError>(
                ReplayError::IndexOutOfRange,
            ),
            table < self.tables_spec().len() ==> {
                let tab = self.tables_spec()[table as int];
                &&& (tab.total_spec() == 0 <==> r == Err::<u64, ReplayError>(
                    ReplayError::EmptyTree,
                ))
                &&& tab.total_spec() > 0 ==> {
                    let u0 = if u < tab.total_spec() {
                        u as int
                    } else {
                        tab.total_spec() - 1
                    };
                    let s = sample_index(tab.weights(), u0);
                    &&& r is Ok
                    &&& tab.slots_spec()[s] == Some(r->Ok_0)
                    &&& self.storage_spec().contains_spec(r->Ok_0)
                    &&& tab.weights()[s] > 0
                }
            },
    {
        if table >= self.tables.len() {
            return Err(ReplayError::IndexOutOfRange);
        }
        proof {
            assert(self.tables@[table as int].wf());
        }
        let tab = &self.tables[table];
        proof {
            assert(*tab == self.tables@[table as int]);
            assert(tab.wf());
            tab.tree.lemma_total_bounds();
        }
        match tab.tree.sample(u) {
            Ok(s) => {
                proof {
                    assert((s as int) < tab.slots@.len());
                    if tab.slots@[s as int] is None {
                        assert(tab.tree@[s as int] == 0);
                        assert(false);
                    }
                }
                match tab.slots[s] {
                    Some(id) => {
                        proof {
                            assert(self.tables@[table as int].slots_spec()[s as int] == Some(id));
                        }
                        Ok(id)
                    },
                    None => {
                        proof {
                            assert(false);
                        }
                        Err(ReplayError::NotFound)
                    },
                }
            },
            Err(_) => Err(ReplayError::EmptyTree),
        }
    }

    /// Clears every table slot bound to `id`, zero-weighting it and marking
    /// it free.
    fn clear_bindings(&mut self, id: u64)
        requires
            old(self).tables_wf(),
        ensures
            final(self).tables_wf(),
            final(self).storage_spec() == old(self).storage_spec(),
            final(self).tables_spec().len() == old(self).tables_spec().len(),
            forall|t: int|
                0 <= t < old(self).tables_spec().len() ==> #[trigger] cleared(
                    old(self).tables_spec()[t],
                    final(self).tables_spec()[t],
                    id,
                ),
    {
        let n = self.tables.len();
        let mut t: usize = 0;
        while t < n
            invariant
                n == self.tables@.len(),
                self.tables@.len() == old(self).tables@.len(),
                self.storage == old(self).storage,
                0 <= t <= n,
                old(self).tables_wf(),
                forall|j: int|
                    0 <= j < t ==> #[trigger] cleared(old(self).tables@[j], self.tables@[j], id)
                        && self.tables@[j].wf(),
                forall|j: int| t <= j < n ==> (#[trigger] self.tables@[j]) == old(self).tables@[j],
            decreases n - t,
        {
            let ghost pre = self.tables@;
            proof {
                assert(self.tables@[t as int] == old(self).tables@[t as int]);
                assert((old(self).tables@[t as int]).wf());
            }
            let tab = vec_index_mut(&mut self.tables, t);
            tab.clear_item(id);
            proof {
                assert forall|j: int|
                    0 <= j < t + 1 implies #[trigger] cleared(
                    old(self).tables@[j],
                    self.tables@[j],
                    id,
                ) && self.tables@[j].wf() by {
                    if j < t {
                        assert(self.tables@[j] == pre[j]);
                        assert(cleared(old(self).tables@[j], pre[j], id));
                        assert(pre[j].wf());
                    }
                }
                assert forall|j: int|
                    t + 1 <= j < n implies (#[trigger] self.tables@[j]) == old(self).tables@[j] by {
                    assert(self.tables@[j] == pre[j]);
                }
            }
            t = t + 1;
        }
        proof {
            assert forall|j: int| 0 <= j < self.tables@.len() implies (
            #[trigger] self.tables@[j]).wf() by {
                assert(cleared(old(self).tables@[j], self.tables@[j], id));
            }
        }
    }

    /// Releases one owner of a record and returns the new count.  When the
    /// count reaches zero, the record is removed and every table slot bound
    /// to it is zero-weighted and unbound in the same call, ready for reuse;
    /// there is no state in which the record is gone but a slot still
    /// carries its weight.
    pub fn release_reference(&mut self, id: u64) -> (r: Result<u64, ReplayError>)
        requires
            old(self).wf(),
        ensures
            final(self).wf(),
            final(self).storage_spec().next_id_spec() == old(self).storage_spec().next_id_spec(),
            !old(self).storage_spec().contains_spec(id) ==> r == Err::<u64, ReplayError>(
                ReplayError::NotFound,
            ) && final(self).storage_spec().items_spec() == old(self).storage_spec().items_spec()
                && final(self).tables_spec() == old(self).tables_spec(),
            old(self).storage_spec().contains_spec(id) && old(self).storage_spec().count_of(id) > 1
                ==> {
                &&& r == Ok::<u64, ReplayError>((old(self).storage_spec().count_of(id) - 1) as u64)
                &&& final(self).storage_spec().contains_spec(id)
                &&& final(self).storage_spec().count_of(id) == old(self).storage_spec().count_of(
                    id,
                ) - 1
                &&& final(self).storage_spec().metadata_of(id) == old(self).storage_spec().metadata_of(id)
                &&& final(self).storage_spec().len_spec() == old(self).storage_spec().len_spec()
                &&& final(self).tables_spec() == old(self).tables_spec()
            },
            old(self).storage_spec().contains_spec(id) && old(self).storage_spec().count_of(id)
                == 1 ==> {
                &&& r == Ok::<u64, ReplayError>(0)
                &&& !final(self).storage_spec().contains_spec(id)
                &&& final(self).storage_spec().items_spec() == old(self).storage_spec().items_spec().remove(id)
                &&& final(self).storage_spec().len_spec() == old(self).storage_spec().len_spec()
                    - 1
                &&& final(self).tables_spec().len() == old(self).tables_spec().len()
                &&& forall|t: int|
                    0 <= t < old(self).tables_spec().len() ==> #[trigger] cleared(
                        old(self).tables_spec()[t],
                        final(self).tables_spec()[t],
                        id,
                    )
            },
    {
        proof {
            old(self).storage.lemma_wf_counts();
        }
        let res = self.storage.release_reference(id);
        let removed = match res {
            Ok(c) => c == 0,
            Err(_) => false,
        };
        if removed {
            self.clear_bindings(id);
            proof {
                assert forall|t: int, s: int|
                    0 <= t < self.tables@.len() && 0 <= s
                        < self.tables@[t].slots_spec().len() implies ((
                #[trigger] self.tables@[t].slots_spec()[s]) matches Some(i)
                    ==> self.storage.contains_spec(i)) by {
                    let so = self.tables@[t].slots_spec()[s];
                    if so is Some {
                        assert(cleared(old(self).tables@[t], self.tables@[t], id));
                        assert(cleared_at(old(self).tables@[t], self.tables@[t], id, s));
                        assert(old(self).tables@[t].slots_spec()[s] == so);
                        assert(old(self).storage.contains_spec(so->0));
                        assert(so->0 != id);
                    }
                }
            }
        } else {
            proof {
                assert forall|t: int, s: int|
                    0 <= t < self.tables@.len() && 0 <= s
                        < self.tables@[t].slots_spec().len() implies ((
                #[trigger] self.tables@[t].slots_spec()[s]) matches Some(i)
                    ==> self.storage.contains_spec(i)) by {
                    let so = self.tables@[t].slots_spec()[s];
                    if so is Some {
                        assert(old(self).storage.contains_spec(so->0));
                    }
                }
            }
        }
        res
    }

    /// Forced removal of a record regardless of its reference count, for
    /// administrative eviction.  Every table slot bound to the record is
    /// zero-weighted and unbound in the same call.
    pub fn remove(&mut self, id: u64) -> (r: Result<(), ReplayError>)
        requires
            old(self).wf(),
        ensures
            final(self).wf(),
            final(self).storage_spec().next_id_spec() == old(self).storage_spec().next_id_spec(),
            !old(self).storage_spec().contains_spec(id) ==> r == Err::<(), ReplayError>(
                ReplayError::NotFound,
            ) && final(self).storage_spec().items_spec() == old(self).storage_spec().items_spec()
                && final(self).tables_spec() == old(self).tables_spec(),
            old(self).storage_spec().contains_spec(id) ==> {
                &&& r == Ok::<(), ReplayError>(())
                &&& !final(self).storage_spec().contains_spec(id)
                &&& final(self).storage_spec().items_spec() == old(self).storage_spec().items_spec().remove(id)
                &&& final(self).storage_spec().len_spec() == old(self).storage_spec().len_spec()
                    - 1
                &&& final(self).tables_spec().len() == old(self).tables_spec().len()
                &&& forall|t: int|
                    0 <= t < old(self).tables_spec().len() ==> #[trigger] cleared(
                        old(self).tables_spec()[t],
                        final(self).tables_spec()[t],
                        id,
                    )
            },
    {
        let res = self.storage.remove(id);
        match res {
            Ok(()) => {
                self.clear_bindings(id);
                proof {
                    assert forall|t: int, s: int|
                        0 <= t < self.tables@.len() && 0 <= s
                            < self.tables@[t].slots_spec().len() implies ((
                    #[trigger] self.tables@[t].slots_spec()[s]) matches Some(i)
                        ==> self.storage.contains_spec(i)) by {
                        let so = self.tables@[t].slots_spec()[s];
                        if so is Some {
                            assert(cleared(old(self).tables@[t], self.tables@[t], id));
                            assert(cleared_at(old(self).tables@[t], self.tables@[t], id, s));
                            assert(old(self).tables@[t].slots_spec()[s] == so);
                            assert(old(self).storage.contains_spec(so->0));
                            assert(so->0 != id);
                        }
                    }
                }
                Ok(())
            },
            Err(e) => Err(e),
        }
    }
}

} // verus!
