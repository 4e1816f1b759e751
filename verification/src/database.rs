//! The database as one value: an in-memory store or a persistent one
//! behind the same operations.

use crate::entity::{reconstruct_entity, reconstruct_model, Entity, Reconstruction};
use crate::errors::{ErrorModel, StoreError};
use crate::index_types::{IndexStats, OpModel};
use crate::index_worker::room_made;
use crate::memory::MemoryStore;
use crate::path::{Path, Seg};
use crate::persistent::{indexable_paths, PersistentStore};
use crate::store::{is_substrate_error, lists_map, under_prefix, Endpoints, Store};
use crate::value::{Value, ValueModel};
use vstd::prelude::*;

verus! {

/// The store behind a database.
pub enum Backing {
    /// Endpoints held in memory
    Memory(MemoryStore),
    /// Endpoints held on disk, with their indexes
    Persistent(PersistentStore),
}

/// Main API for Hyperion database
pub struct Hyperion {
    store: Backing,
}

impl Hyperion {
    /// Whether the database keeps its endpoints on disk.
    pub closed spec fn is_persistent(&self) -> bool {
        self.store is Persistent
    }

    /// The counters of the index worker of a persistent database.
    pub closed spec fn index_counters(&self) -> IndexStats
        recommends
            self.is_persistent(),
    {
        self.store->Persistent_0.counters()
    }

    /// The index operations that wait for the worker, oldest first; none
    /// in a database in memory, which has no worker.
    pub closed spec fn pending(&self) -> Seq<OpModel> {
        match self.store {
            Backing::Memory(_) => Seq::empty(),
            Backing::Persistent(store) => store.pending(),
        }
    }

    /// Whether the index worker takes operations: a database on disk
    /// until its worker is shut down.
    pub closed spec fn indexing(&self) -> bool {
        match self.store {
            Backing::Memory(_) => false,
            Backing::Persistent(store) => store.indexing(),
        }
    }

    /// The number of failures of the substrate that the index worker of
    /// the database has met; none for a database in memory.
    pub closed spec fn index_faults(&self) -> nat {
        match self.store {
            Backing::Memory(_) => 0,
            Backing::Persistent(store) => store.fault_count(),
        }
    }

    /// Whether the indexes, once the operations that wait are applied, hold
    /// the stored paths that can be indexed. The listings of a database in
    /// memory are made from the endpoints themselves.
    pub closed spec fn in_step(&self) -> bool {
        match self.store {
            Backing::Memory(_) => true,
            Backing::Persistent(store) => store.in_step(),
        }
    }

    /// The paths that listings and queries see once nothing waits for the
    /// index worker: of a database in memory all stored paths, of one on
    /// disk those that can be indexed.
    pub closed spec fn visible_paths(&self) -> Set<Seq<Seg>> {
        match self.store {
            Backing::Memory(_) => self.endpoints().dom(),
            Backing::Persistent(_) => indexable_paths(self.endpoints()),
        }
    }

    /// Create a new in-memory database instance
    pub fn new_in_memory() -> (r: Self)
        ensures
            r.valid(),
            r.infallible(),
            !r.is_persistent(),
            r.in_step(),
            r.index_faults() == 0,
            !r.indexing(),
            r.pending() == Seq::<OpModel>::empty(),
            r.endpoints() == Map::<Seq<Seg>, ValueModel>::empty(),
    {
        Hyperion { store: Backing::Memory(MemoryStore::new()) }
    }

    /// Create a new persistent database instance at the given place
    pub fn new_persistent(place: &str) -> (r: Result<Self, StoreError>)
        ensures
            match r {
                Ok(db) => db.valid() && db.is_persistent() && !db.infallible() && db.indexing()
                    && db.pending() == Seq::<OpModel>::empty() && (db.index_faults() == 0
                    ==> db.in_step()),
                Err(e) => is_substrate_error(e@),
            },
    {
        match PersistentStore::open(place) {
            Ok(store) => Ok(Hyperion { store: Backing::Persistent(store) }),
            Err(e) => Err(e),
        }
    }

    /// Apply the operations that wait for the index worker. As long as the
    /// worker has met no failure, listings and queries then see what is
    /// stored.
    pub fn settle(&mut self)
        requires
            old(self).valid(),
        ensures
            final(self).valid(),
            final(self).endpoints() == old(self).endpoints(),
            final(self).infallible() == old(self).infallible(),
            final(self).is_persistent() == old(self).is_persistent(),
            final(self).indexing() == old(self).indexing(),
            final(self).pending() == Seq::<OpModel>::empty(),
            final(self).index_faults() >= old(self).index_faults(),
            old(self).in_step() && final(self).index_faults() == old(self).index_faults() && old(self).index_faults() < usize::MAX ==> final(self).in_step()
                && final(self).indexed() == final(self).visible_paths() && final(self).matchable()
                == final(self).visible_paths(),
    {
        match &mut self.store {
            Backing::Memory(_) => {},
            Backing::Persistent(store) => store.drain(),
        }
    }

    /// Reconstruct an entity from its endpoints
    pub fn get_entity(&self, prefix: &Path) -> (r: Result<Entity, StoreError>)
        requires
            self.valid(),
        ensures
            match r {
                Ok(entity) => exists|endpoints: Seq<(Seq<Seg>, ValueModel)>|
                    #![trigger reconstruct_model(prefix@, endpoints)]
                    lists_map(endpoints, under_prefix(self.endpoints(), prefix@))
                        && reconstruct_model(prefix@, endpoints) == Reconstruction::Entity(
                        entity@,
                    ),
                Err(e) => if e@ is NotFound {
                    e@ == ErrorModel::NotFound(prefix@) && under_prefix(self.endpoints(), prefix@)
                        == Map::<Seq<Seg>, ValueModel>::empty()
                } else if e@ is InvalidOperation {
                    exists|endpoints: Seq<(Seq<Seg>, ValueModel)>|
                        #![trigger reconstruct_model(prefix@, endpoints)]
                        lists_map(endpoints, under_prefix(self.endpoints(), prefix@))
                            && reconstruct_model(prefix@, endpoints) == Reconstruction::Conflict
                } else {
                    is_substrate_error(e@) && !self.infallible()
                },
            },
    {
        match &self.store {
            Backing::Memory(store) => reconstruct_entity(store, prefix),
            Backing::Persistent(store) => reconstruct_entity(store, prefix),
        }
    }

    /// Get index statistics (only available for persistent store)
    pub fn index_stats(&self) -> (r: Option<IndexStats>)
        ensures
            match r {
                Some(stats) => self.is_persistent() && stats == self.index_counters(),
                None => !self.is_persistent(),
            },
    {
        match &self.store {
            Backing::Memory(_) => None,
            Backing::Persistent(store) => Some(store.index_stats()),
        }
    }
}

impl Store for Hyperion {
    closed spec fn endpoints(&self) -> Endpoints {
        match self.store {
            Backing::Memory(store) => store.endpoints(),
            Backing::Persistent(store) => store.endpoints(),
        }
    }

    closed spec fn indexed(&self) -> Set<Seq<Seg>> {
        match self.store {
            Backing::Memory(store) => store.indexed(),
            Backing::Persistent(store) => store.indexed(),
        }
    }

    closed spec fn matchable(&self) -> Set<Seq<Seg>> {
        match self.store {
            Backing::Memory(store) => store.matchable(),
            Backing::Persistent(store) => store.matchable(),
        }
    }

    closed spec fn infallible(&self) -> bool {
        match self.store {
            Backing::Memory(store) => store.infallible(),
            Backing::Persistent(store) => store.infallible(),
        }
    }

    closed spec fn valid(&self) -> bool {
        match self.store {
            Backing::Memory(store) => store.valid(),
            Backing::Persistent(store) => store.valid(),
        }
    }

    fn set(&mut self, path: Path, value: Value) -> (r: Result<(), StoreError>) {
        match &mut self.store {
            Backing::Memory(store) => store.set(path, value),
            Backing::Persistent(store) => store.set(path, value),
        }
    }

    fn get(&self, path: &Path) -> (r: Result<Value, StoreError>) {
        match &self.store {
            Backing::Memory(store) => store.get(path),
            Backing::Persistent(store) => store.get(path),
        }
    }

    fn delete(&mut self, path: &Path) -> (r: Result<(), StoreError>) {
        match &mut self.store {
            Backing::Memory(store) => store.delete(path),
            Backing::Persistent(store) => store.delete(path),
        }
    }

    fn path_exists(&self, path: &Path) -> (r: Result<bool, StoreError>) {
        match &self.store {
            Backing::Memory(store) => store.path_exists(path),
            Backing::Persistent(store) => store.path_exists(path),
        }
    }

    fn list_prefix(&self, prefix: &Path) -> (r: Result<Vec<Path>, StoreError>) {
        match &self.store {
            Backing::Memory(store) => store.list_prefix(prefix),
            Backing::Persistent(store) => store.list_prefix(prefix),
        }
    }

    fn get_prefix(&self, prefix: &Path) -> (r: Result<Vec<(Path, Value)>, StoreError>) {
        match &self.store {
            Backing::Memory(store) => store.get_prefix(prefix),
            Backing::Persistent(store) => store.get_prefix(prefix),
        }
    }

    fn query(&self, pattern: &Path) -> (r: Result<Vec<(Path, Value)>, StoreError>) {
        match &self.store {
            Backing::Memory(store) => store.query(pattern),
            Backing::Persistent(store) => store.query(pattern),
        }
    }

    fn count(&self) -> (r: Result<usize, StoreError>) {
        match &self.store {
            Backing::Memory(store) => store.count(),
            Backing::Persistent(store) => store.count(),
        }
    }

    fn count_prefix(&self, prefix: &Path) -> (r: Result<usize, StoreError>) {
        match &self.store {
            Backing::Memory(store) => store.count_prefix(prefix),
            Backing::Persistent(store) => store.count_prefix(prefix),
        }
    }

    fn flush(&mut self) -> (r: Result<(), StoreError>)
        ensures
            final(self).is_persistent() == old(self).is_persistent(),
            final(self).indexing() == old(self).indexing(),
            final(self).index_faults() >= old(self).index_faults(),
            !old(self).is_persistent() ==> r is Ok,
            final(self).pending() == (if r is Ok && old(self).indexing() {
                room_made(old(self).pending()).push(
                    OpModel::Flush,
                )
            } else if r is Ok {
                room_made(old(self).pending())
            } else {
                old(self).pending()
            }),
            old(self).in_step() && final(self).index_faults() == old(self).index_faults() && old(self).index_faults() < usize::MAX ==> final(self).in_step(),
    {
        match &mut self.store {
            Backing::Memory(store) => store.flush(),
            Backing::Persistent(store) => store.flush(),
        }
    }
}

} // verus!
