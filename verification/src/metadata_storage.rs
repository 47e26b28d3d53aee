use std::collections::HashMap;
use vstd::prelude::*;

use crate::errors::ReplayError;
use crate::ref_count::RefCount;

verus! {

broadcast use
    vstd::std_specs::hash::group_hash_axioms,
    vstd::set::group_set_axioms,
    vstd::map::group_map_axioms,
;

/// One stored record: an identity, the caller-supplied metadata payload, and
/// the reference count that coordinates the record's lifetime.
pub struct Item<M> {
    id: u64,
    metadata: M,
    refs: RefCount,
}

impl<M> Item<M> {
    /// The identifier the record was stored under.
    pub closed spec fn id_spec(&self) -> u64 {
        self.id
    }

    /// The metadata payload.
    pub closed spec fn metadata_spec(&self) -> M {
        self.metadata
    }

    /// The current number of owners of the record.
    pub closed spec fn count_spec(&self) -> u64 {
        self.refs.count_spec()
    }

    /// Reads the record's identifier.
    pub fn id(&self) -> (r: u64)
        ensures
            r == self.id_spec(),
    {
        self.id
    }

    /// Borrows the metadata payload.
    pub fn metadata(&self) -> (r: &M)
        ensures
            r == self.metadata_spec(),
    {
        &self.metadata
    }

    /// Reads the current reference count.
    pub fn ref_count(&self) -> (r: u64)
        ensures
            r == self.count_spec(),
    {
        self.refs.get()
    }
}

/// The authoritative record store: maps item identifiers to metadata records
/// and coordinates removal with reference lifetime.  A record is removed
/// exactly when its reference count reaches zero (or by forced `remove`), so
/// every stored record holds a count of at least one.
pub struct MetadataStorage<M> {
    items: HashMap<u64, Item<M>>,
    next_id: u64,
    max_items: Option<usize>,
}

impl<M> MetadataStorage<M> {
    /// The records currently stored, keyed by identifier.
    pub closed spec fn items_spec(&self) -> Map<u64, Item<M>> {
        self.items@
    }

    /// Whether a record is stored under `id`.
    pub open spec fn contains_spec(&self, id: u64) -> bool {
        self.items_spec().contains_key(id)
    }

    /// The metadata stored under `id`.
    pub open spec fn metadata_of(&self, id: u64) -> M {
        self.items_spec()[id].metadata_spec()
    }

    /// The reference count of the record stored under `id`.
    pub open spec fn count_of(&self, id: u64) -> u64 {
        self.items_spec()[id].count_spec()
    }

    /// The identifier the next insertion will use.
    pub closed spec fn next_id_spec(&self) -> u64 {
        self.next_id
    }

    /// The configured maximum number of items, if one was set.
    pub closed spec fn max_items_spec(&self) -> Option<usize> {
        self.max_items
    }

    /// The number of live records.
    pub open spec fn len_spec(&self) -> nat {
        self.items_spec().len()
    }

    /// Whether an insertion would exceed the configured maximum.
    pub open spec fn at_capacity(&self) -> bool {
        match self.max_items_spec() {
            Some(m) => self.len_spec() >= m,
            None => false,
        }
    }

    /// Store invariant: identifiers are assigned monotonically and never
    /// reused, every record sits under its own identifier, and every stored
    /// record is owned by at least one reference.
    pub closed spec fn wf(&self) -> bool {
        &&& forall|id: u64|
            #[trigger] self.items@.contains_key(id) ==> self.items@[id].id_spec() == id
                && self.items@[id].count_spec() >= 1 && id < self.next_id
        &&& match self.max_items {
            Some(m) => self.items@.len() <= m,
            None => true,
        }
    }

    /// Every stored record is owned by at least one reference: records are
    /// removed exactly when their count reaches zero.
    pub proof fn lemma_wf_counts(&self)
        requires
            self.wf(),
        ensures
            forall|id: u64| #[trigger] self.contains_spec(id) ==> 1 <= self.count_of(id),
    {
        assert forall|id: u64| #[trigger] self.contains_spec(id) implies 1 <= self.count_of(
            id,
        ) by {
            if self.contains_spec(id) {
                assert(self.items@.contains_key(id));
            }
        }
    }

    /// Creates an empty store without a maximum item count.
    pub fn new() -> (r: MetadataStorage<M>)
        ensures
            r.wf(),
            r.items_spec() == Map::<u64, Item<M>>::empty(),
            r.len_spec() == 0,
            r.next_id_spec() == 0,
            r.max_items_spec() is None,
    {
        let r = MetadataStorage { items: HashMap::new(), next_id: 0, max_items: None };
        proof {
            assert(r.items@.dom() =~= Set::<u64>::empty());
        }
        r
    }

    /// Creates an empty store that holds at most `max` items at a time.
    pub fn with_max_items(max: usize) -> (r: MetadataStorage<M>)
        ensures
            r.wf(),
            r.items_spec() == Map::<u64, Item<M>>::empty(),
            r.len_spec() == 0,
            r.next_id_spec() == 0,
            r.max_items_spec() == Some(max),
    {
        let r = MetadataStorage { items: HashMap::new(), next_id: 0, max_items: Some(max) };
        proof {
            assert(r.items@.dom() =~= Set::<u64>::empty());
        }
        r
    }

    /// Inserts a new record: allocates the next identifier, attaches a fresh
    /// reference count of one, and stores the metadata.  Fails only when a
    /// configured maximum item count is already reached.
    pub fn insert(&mut self, metadata: M) -> (r: Result<u64, ReplayError>)
        requires
            old(self).wf(),
            old(self).next_id_spec() < u64::MAX,
        ensures
            final(self).wf(),
            final(self).max_items_spec() == old(self).max_items_spec(),
            old(self).at_capacity() ==> r == Err::<u64, ReplayError>(ReplayError::CapacityExceeded)
                && *final(self) == *old(self),
            !old(self).at_capacity() ==> {
                let id = old(self).next_id_spec();
                &&& r == Ok::<u64, ReplayError>(id)
                &&& !old(self).contains_spec(id)
                &&& final(self).contains_spec(id)
                &&& final(self).metadata_of(id) == metadata
                &&& final(self).count_of(id) == 1
                &&& final(self).items_spec() == old(self).items_spec().insert(
                    id,
                    final(self).items_spec()[id],
                )
                &&& final(self).len_spec() == old(self).len_spec() + 1
                &&& final(self).next_id_spec() == id + 1
            },
    {
        match self.max_items {
            Some(m) => {
                if self.items.len() >= m {
                    return Err(ReplayError::CapacityExceeded);
                }
            },
            None => {},
        }
        let id = self.next_id;
        self.next_id = self.next_id + 1;
        let item = Item { id, metadata, refs: RefCount::new(1) };
        self.items.insert(id, item);
        Ok(id)
    }

    /// Whether a record is currently stored under `id`.
    pub fn contains(&self, id: u64) -> (r: bool)
        requires
            self.wf(),
        ensures
            r == self.contains_spec(id),
    {
        self.items.contains_key(&id)
    }

    /// Looks up the metadata stored under `id`.
    pub fn get(&self, id: u64) -> (r: Result<&M, ReplayError>)
        requires
            self.wf(),
        ensures
            self.contains_spec(id) ==> r is Ok && r->Ok_0 == self.metadata_of(id),
            !self.contains_spec(id) ==> r == Err::<&M, ReplayError>(ReplayError::NotFound),
    {
        match self.items.get(&id) {
            Some(item) => Ok(item.metadata()),
            None => Err(ReplayError::NotFound),
        }
    }

    /// Looks up the full record stored under `id`, including its identifier
    /// and reference count.
    pub fn get_item(&self, id: u64) -> (r: Result<&Item<M>, ReplayError>)
        requires
            self.wf(),
        ensures
            self.contains_spec(id) ==> r is Ok && r->Ok_0.id_spec() == id
                && r->Ok_0.metadata_spec() == self.metadata_of(id) && r->Ok_0.count_spec()
                == self.count_of(id),
            !self.contains_spec(id) ==> r == Err::<&Item<M>, ReplayError>(ReplayError::NotFound),
    {
        match self.items.get(&id) {
            Some(item) => Ok(item),
            None => Err(ReplayError::NotFound),
        }
    }

    /// Replaces the metadata stored under `id`; the reference count is not
    /// affected.
    pub fn update_metadata(&mut self, id: u64, metadata: M) -> (r: Result<(), ReplayError>)
        requires
            old(self).wf(),
        ensures
            final(self).wf(),
            !old(self).contains_spec(id) ==> r == Err::<(), ReplayError>(ReplayError::NotFound)
                && final(self).items_spec() == old(self).items_spec()
                && final(self).next_id_spec() == old(self).next_id_spec()
                && final(self).max_items_spec() == old(self).max_items_spec(),
            old(self).contains_spec(id) ==> {
                &&& r == Ok::<(), ReplayError>(())
                &&& final(self).contains_spec(id)
                &&& final(self).metadata_of(id) == metadata
                &&& final(self).count_of(id) == old(self).count_of(id)
                &&& final(self).items_spec() == old(self).items_spec().insert(
                    id,
                    final(self).items_spec()[id],
                )
                &&& final(self).len_spec() == old(self).len_spec()
                &&& final(self).next_id_spec() == old(self).next_id_spec()
                &&& final(self).max_items_spec() == old(self).max_items_spec()
            },
    {
        match self.items.remove(&id) {
            Some(item) => {
                let new_item = Item { id: item.id, metadata, refs: item.refs };
                self.items.insert(id, new_item);
                proof {
                    assert(self.items@ =~= old(self).items@.insert(id, self.items@[id]));
                    assert(self.items@.dom() =~= old(self).items@.dom().insert(id));
                    assert(old(self).items@.dom().insert(id) =~= old(self).items@.dom());
                }
                Ok(())
            },
            None => {
                proof {
                    assert(self.items@ =~= old(self).items@);
                }
                Err(ReplayError::NotFound)
            },
        }
    }

    /// Attaches one more owner to the record under `id` and returns the new
    /// count.
    pub fn add_reference(&mut self, id: u64) -> (r: Result<u64, ReplayError>)
        requires
            old(self).wf(),
            old(self).contains_spec(id) ==> old(self).count_of(id) < u64::MAX,
        ensures
            final(self).wf(),
            !old(self).contains_spec(id) ==> r == Err::<u64, ReplayError>(ReplayError::NotFound)
                && final(self).items_spec() == old(self).items_spec()
                && final(self).next_id_spec() == old(self).next_id_spec()
                && final(self).max_items_spec() == old(self).max_items_spec(),
            old(self).contains_spec(id) ==> {
                &&& r == Ok::<u64, ReplayError>((old(self).count_of(id) + 1) as u64)
                &&& final(self).contains_spec(id)
                &&& final(self).metadata_of(id) == old(self).metadata_of(id)
                &&& final(self).count_of(id) == old(self).count_of(id) + 1
                &&& final(self).items_spec() == old(self).items_spec().insert(
                    id,
                    final(self).items_spec()[id],
                )
                &&& final(self).len_spec() == old(self).len_spec()
                &&& final(self).next_id_spec() == old(self).next_id_spec()
                &&& final(self).max_items_spec() == old(self).max_items_spec()
            },
    {
        match self.items.remove(&id) {
            Some(mut item) => {
                let c = item.refs.increment();
                self.items.insert(id, item);
                proof {
                    assert(self.items@ =~= old(self).items@.insert(id, self.items@[id]));
                    assert(self.items@.dom() =~= old(self).items@.dom().insert(id));
                    assert(old(self).items@.dom().insert(id) =~= old(self).items@.dom());
                }
                Ok(c)
            },
            None => {
                proof {
                    assert(self.items@ =~= old(self).items@);
                }
                Err(ReplayError::NotFound)
            },
        }
    }

    /// Releases one owner of the record under `id` and returns the new count.
    /// When the count reaches zero the record is removed in the same step:
    /// there is no state in which the count is zero but the record is still
    /// retrievable.
    pub fn release_reference(&mut self, id: u64) -> (r: Result<u64, ReplayError>)
        requires
            old(self).wf(),
        ensures
            final(self).wf(),
            !old(self).contains_spec(id) ==> r == Err::<u64, ReplayError>(ReplayError::NotFound)
                && final(self).items_spec() == old(self).items_spec()
                && final(self).next_id_spec() == old(self).next_id_spec()
                && final(self).max_items_spec() == old(self).max_items_spec(),
            old(self).contains_spec(id) && old(self).count_of(id) == 1 ==> {
                &&& r == Ok::<u64, ReplayError>(0)
                &&& !final(self).contains_spec(id)
                &&& final(self).items_spec() == old(self).items_spec().remove(id)
                &&& final(self).len_spec() == old(self).len_spec() - 1
                &&& final(self).next_id_spec() == old(self).next_id_spec()
                &&& final(self).max_items_spec() == old(self).max_items_spec()
            },
            old(self).contains_spec(id) && old(self).count_of(id) > 1 ==> {
                &&& r == Ok::<u64, ReplayError>((old(self).count_of(id) - 1) as u64)
                &&& final(self).contains_spec(id)
                &&& final(self).metadata_of(id) == old(self).metadata_of(id)
                &&& final(self).count_of(id) == old(self).count_of(id) - 1
                &&& final(self).items_spec() == old(self).items_spec().insert(
                    id,
                    final(self).items_spec()[id],
                )
                &&& final(self).len_spec() == old(self).len_spec()
                &&& final(self).next_id_spec() == old(self).next_id_spec()
                &&& final(self).max_items_spec() == old(self).max_items_spec()
            },
    {
        match self.items.remove(&id) {
            Some(mut item) => {
                match item.refs.decrement() {
                    Ok(c) => {
                        if c == 0 {
                            proof {
                                assert(self.items@.dom() =~= old(self).items@.dom().remove(id));
                            }
                            Ok(0)
                        } else {
                            self.items.insert(id, item);
                            proof {
                                assert(self.items@ =~= old(self).items@.insert(
                                    id,
                                    self.items@[id],
                                ));
                                assert(self.items@.dom() =~= old(self).items@.dom().insert(id));
                                assert(old(self).items@.dom().insert(id) =~= old(
                                    self,
                                ).items@.dom());
                            }
                            Ok(c)
                        }
                    },
                    Err(_) => {
                        proof {
                            assert(false);
                        }
                        Err(ReplayError::Underflow)
                    },
                }
            },
            None => {
                proof {
                    assert(self.items@ =~= old(self).items@);
                }
                Err(ReplayError::NotFound)
            },
        }
    }

    /// Forced removal regardless of the reference count, for administrative
    /// eviction.
    pub fn remove(&mut self, id: u64) -> (r: Result<(), ReplayError>)
        requires
            old(self).wf(),
        ensures
            final(self).wf(),
            !old(self).contains_spec(id) ==> r == Err::<(), ReplayError>(ReplayError::NotFound)
                && final(self).items_spec() == old(self).items_spec()
                && final(self).next_id_spec() == old(self).next_id_spec()
                && final(self).max_items_spec() == old(self).max_items_spec(),
            old(self).contains_spec(id) ==> {
                &&& r == Ok::<(), ReplayError>(())
                &&& !final(self).contains_spec(id)
                &&& final(self).items_spec() == old(self).items_spec().remove(id)
                &&& final(self).len_spec() == old(self).len_spec() - 1
                &&& final(self).next_id_spec() == old(self).next_id_spec()
                &&& final(self).max_items_spec() == old(self).max_items_spec()
            },
    {
        match self.items.remove(&id) {
            Some(_) => {
                proof {
                    assert(self.items@.dom() =~= old(self).items@.dom().remove(id));
                }
                Ok(())
            },
            None => {
                proof {
                    assert(self.items@ =~= old(self).items@);
                }
                Err(ReplayError::NotFound)
            },
        }
    }

    /// The identifier the next insertion will allocate.
    pub fn next_id(&self) -> (r: u64)
        ensures
            r == self.next_id_spec(),
    {
        self.next_id
    }

    /// The number of live records.
    pub fn len(&self) -> (r: usize)
        requires
            self.wf(),
        ensures
            r == self.len_spec(),
    {
        self.items.len()
    }
}

} // verus!
