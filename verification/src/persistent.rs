//! The persistent store: endpoints in a tree of the key-value substrate,
//! with the index system beside it.
//!
//! A write goes to the tree at once and puts an operation into the queue
//! of the index worker. Listings and queries with wildcards see what the
//! indexes hold; they see every write once the queue is drained.

use crate::codec::{
    decode_path, decode_value, encode_path, encode_value, lemma_path_bytes_injective,
    lemma_path_bytes_read, lemma_read_path_bytes, path_bytes, path_storable, read_path,
    read_value,
};
use crate::errors::{internal_error, invalid_operation, not_found, ErrorModel, StoreError};
use crate::index_key::indexable;
use crate::index_system::IndexSystem;
use crate::index_types::{IndexStats, OpModel};
use crate::index_worker::{
    applied_counters, apply_op, replay, replay_counters, rest_after, room_counters, room_made,
    submitted_counters,
};
use crate::kv::{
    default_tree, entries_model, kv_flush, kv_get, kv_insert, kv_remove, open_db, open_temporary_db, open_tree,
    scan_all, substrate_error, tree_map,
};
use crate::memory::{lemma_lists_set_len, lemma_paths_of_pairs};
use crate::path::{path_starts_with, Path, Seg};
use crate::store::{
    empty_delete_message, empty_set_message, is_substrate_error, lists_map, pairs_model,
    paths_model, paths_under, query_result, under_prefix, Endpoints, Store,
};
use crate::text::text_of;
use crate::value::{Value, ValueModel};
use vstd::prelude::*;

verus! {

/// The endpoints that the entries of the data tree write: each path that
/// can be written, whose bytes are a key and whose value reads as a value.
pub open spec fn stored(entries: Map<Seq<u8>, Seq<u8>>) -> Endpoints {
    Map::new(
        |p: Seq<Seg>|
            path_storable(p) && entries.dom().contains(path_bytes(p)) && read_value(
                entries[path_bytes(p)],
            ) is Some,
        |p: Seq<Seg>| read_value(entries[path_bytes(p)])->0,
    )
}

/// The stored paths that can be indexed.
pub open spec fn indexable_paths(all: Endpoints) -> Set<Seq<Seg>> {
    all.dom().filter(|p: Seq<Seg>| indexable(p))
}

/// Setting the value of a key to the bytes of a value sets the endpoint.
pub proof fn lemma_stored_insert(entries: Map<Seq<u8>, Seq<u8>>, p: Seq<Seg>, v: ValueModel, bytes: Seq<u8>)
    requires
        path_storable(p),
        read_value(bytes) == Some(v),
    ensures
        stored(entries.insert(path_bytes(p), bytes)) == stored(entries).insert(p, v),
{
    let after = entries.insert(path_bytes(p), bytes);
    assert forall|q: Seq<Seg>| stored(after).dom().contains(q) == stored(entries).insert(
        p,
        v,
    ).dom().contains(q) by {
        if path_storable(q) && path_bytes(q) == path_bytes(p) {
            lemma_path_bytes_injective(p, q);
        }
    }
    assert forall|q: Seq<Seg>| stored(after).dom().contains(q) implies stored(after)[q]
        == stored(entries).insert(p, v)[q] by {
        if path_bytes(q) == path_bytes(p) {
            lemma_path_bytes_injective(p, q);
        }
    }
    assert(stored(after) =~= stored(entries).insert(p, v));
}

/// Removing a key removes the endpoint.
pub proof fn lemma_stored_remove(entries: Map<Seq<u8>, Seq<u8>>, p: Seq<Seg>)
    requires
        path_storable(p),
    ensures
        stored(entries.remove(path_bytes(p))) == stored(entries).remove(p),
{
    let after = entries.remove(path_bytes(p));
    assert forall|q: Seq<Seg>| stored(after).dom().contains(q) == stored(entries).remove(
        p,
    ).dom().contains(q) by {
        if path_storable(q) && path_bytes(q) == path_bytes(p) {
            lemma_path_bytes_injective(p, q);
        }
    }
    assert(stored(after) =~= stored(entries).remove(p));
}

/// The endpoints under a prefix among the entries of the data tree.
fn select_stored(entries: &Vec<(Vec<u8>, Vec<u8>)>, prefix: &Path, Ghost(all): Ghost<
    Map<Seq<u8>, Seq<u8>>,
>) -> (r: Vec<(Path, Value)>)
    requires
        lists_map(entries_model(entries@), all),
    ensures
        lists_map(pairs_model(r@), under_prefix(stored(all), prefix@)),
{
    let ghost listed = entries_model(entries@);
    let mut out: Vec<(Path, Value)> = Vec::new();
    let ghost mut source: Seq<int> = Seq::empty();
    let mut i: usize = 0;
    while i < entries.len()
        invariant
            i <= entries.len(),
            listed == entries_model(entries@),
            lists_map(listed, all),
            source.len() == out.len(),
            forall|a: int| 0 <= a < source.len() ==> 0 <= #[trigger] source[a] < i,
            forall|a: int, b: int|
                0 <= a < b < source.len() ==> #[trigger] source[a] < #[trigger] source[b],
            forall|a: int|
                0 <= a < out.len() ==> read_path(listed[source[a]].0) == Some(
                    (#[trigger] out@[a]).0@,
                ) && read_value(listed[source[a]].1) == Some(out@[a].1@) && path_starts_with(
                    out@[a].0@,
                    prefix@,
                ),
            forall|j: int|
                0 <= j < i && read_path((#[trigger] listed[j]).0) is Some && read_value(
                    listed[j].1,
                ) is Some && path_starts_with(read_path(listed[j].0)->0, prefix@) ==> exists|
                    a: int,
                | 0 <= a < source.len() && #[trigger] source[a] == j,
        decreases entries.len() - i,
    {
        assert(listed[i as int] == (entries@[i as int].0@, entries@[i as int].1@));
        match decode_path(&entries[i].0) {
            Some(path) => {
                if path.starts_with(prefix) {
                    match decode_value(&entries[i].1) {
                        Some(value) => {
                            let ghost before = source;
                            out.push((path, value));
                            proof {
                                source = source.push(i as int);
                                assert forall|j: int|
                                    0 <= j < i + 1 && read_path((#[trigger] listed[j]).0) is Some
                                        && read_value(listed[j].1) is Some && path_starts_with(
                                        read_path(listed[j].0)->0,
                                        prefix@,
                                    ) implies exists|a: int|
                                    0 <= a < source.len() && #[trigger] source[a] == j by {
                                    if j < i {
                                        let a = choose|a: int|
                                            0 <= a < before.len() && #[trigger] before[a] == j;
                                        assert(source[a] == j);
                                    } else {
                                        assert(source[before.len() as int] == j);
                                    }
                                }
                            }
                        },
                        None => {},
                    }
                }
            },
            None => {},
        }
        i += 1;
    }
    proof {
        let m = pairs_model(out@);
        let want = under_prefix(stored(all), prefix@);
        assert forall|a: int, b: int| 0 <= a < b < m.len() implies m[a].0 != m[b].0 by {
            assert(source[a] < source[b]);
            assert(read_path(listed[source[a]].0) == Some(out@[a].0@));
            assert(read_path(listed[source[b]].0) == Some(out@[b].0@));
            lemma_path_bytes_read(listed[source[a]].0);
            lemma_path_bytes_read(listed[source[b]].0);
            assert(listed[source[a]].0 != listed[source[b]].0);
        }
        assert forall|a: int| 0 <= a < m.len() implies want.contains_pair(
            (#[trigger] m[a]).0,
            m[a].1,
        ) by {
            let j = source[a];
            assert(read_path(listed[j].0) == Some(out@[a].0@));
            lemma_path_bytes_read(listed[j].0);
            assert(all.contains_pair(listed[j].0, listed[j].1));
        }
        assert forall|p: Seq<Seg>| want.dom().contains(p) implies exists|a: int|
            0 <= a < m.len() && (#[trigger] m[a]).0 == p by {
            let k = path_bytes(p);
            assert(all.dom().contains(k));
            let j = choose|j: int| 0 <= j < listed.len() && (#[trigger] listed[j]).0 == k;
            assert(all.contains_pair(listed[j].0, listed[j].1));
            lemma_read_path_bytes(p);
            let a = choose|a: int| 0 <= a < source.len() && #[trigger] source[a] == j;
            assert(m[a].0 == p);
        }
    }
    out
}

/// What a look at the data tree finds under the key of a path.
enum Fetched {
    /// The value of the endpoint.
    Found(Value),
    /// No entry.
    Absent,
    /// An entry whose bytes write no value.
    Unreadable,
}

/// The message of the error for a rebuild of the indexes after the index
/// worker was shut down.
pub open spec fn rebuild_refused_message() -> Seq<char> {
    "Cannot rebuild indexes: index worker is shut down"@
}

/// What a write has done to the index side of a store. A write that
/// succeeded has handed its operation to the index worker, after room was
/// made in a full queue; where the worker takes no operations, nothing was
/// handed over. A write that failed has left the queue, the indexes, the
/// counters and the faults as they were.
pub open spec fn index_side(
    before: PersistentStore,
    after: PersistentStore,
    op: OpModel,
    done: bool,
) -> bool {
    &&& after.indexing() == before.indexing()
    &&& after.fault_count() >= before.fault_count()
    &&& if done {
        &&& after.pending() == (if before.indexing() {
            room_made(before.pending()).push(op)
        } else {
            room_made(before.pending())
        })
        &&& after.fault_count() == before.fault_count() && before.fault_count() < usize::MAX
            ==> after.counters() == (if before.indexing() {
            submitted_counters(op, room_counters(before.pending(), before.counters()))
        } else {
            room_counters(before.pending(), before.counters())
        })
    } else {
        &&& after.pending() == before.pending()
        &&& after.indexed() == before.indexed()
        &&& after.matchable() == before.matchable()
        &&& after.counters() == before.counters()
        &&& after.fault_count() == before.fault_count()
    }
}

/// A persistent store for the database
pub struct PersistentStore {
    /// The database of the substrate
    db: sled::Db,
    /// The tree of the endpoints
    data: sled::Tree,
    /// The index system
    index_system: IndexSystem,
}

impl PersistentStore {
    /// The operations that wait for the index worker, first come first.
    pub closed spec fn pending(&self) -> Seq<OpModel> {
        self.index_system.pending()
    }

    /// The number of failures of the substrate that the index worker met.
    pub closed spec fn fault_count(&self) -> nat {
        self.index_system.fault_count()
    }

    /// Whether the index worker takes operations.
    pub closed spec fn indexing(&self) -> bool {
        self.index_system.accepting()
    }

    /// Whether the indexes follow the endpoints: once the operations that
    /// wait are applied, each index holds exactly the stored paths that
    /// can be indexed.
    pub open spec fn in_step(&self) -> bool {
        &&& replay(self.pending(), self.indexed()) == indexable_paths(self.endpoints())
        &&& replay(self.pending(), self.matchable()) == indexable_paths(self.endpoints())
    }

    /// Open the store in a database of the substrate and build the indexes
    /// anew from the endpoints.
    fn open_in(db: sled::Db) -> (r: Result<Self, StoreError>)
        ensures
            match r {
                Ok(store) => store.valid() && store.indexing() && store.pending()
                    == Seq::<OpModel>::empty() && (store.fault_count() == 0 ==> store.in_step()),
                Err(e) => is_substrate_error(e@),
            },
    {
        let data = default_tree(&db);
        let prefix_tree = match open_tree(&db, "prefix_index") {
            Ok(tree) => tree,
            Err(e) => {
                return Err(substrate_error("Failed to open index tree", &e));
            },
        };
        let single_tree = match open_tree(&db, "wildcard_index_single") {
            Ok(tree) => tree,
            Err(e) => {
                return Err(substrate_error("Failed to open single wildcard tree", &e));
            },
        };
        let multi_tree = match open_tree(&db, "wildcard_index_multi") {
            Ok(tree) => tree,
            Err(e) => {
                return Err(substrate_error("Failed to open multi wildcard tree", &e));
            },
        };
        let index_system = IndexSystem::new(prefix_tree, single_tree, multi_tree);
        let mut store = PersistentStore { db, data, index_system };
        match store.rebuild_indexes() {
            Ok(()) => Ok(store),
            Err(e) => Err(e),
        }
    }

    /// Open the store at a place in the file system.
    pub fn open(place: &str) -> (r: Result<Self, StoreError>)
        ensures
            match r {
                Ok(store) => store.valid() && store.indexing() && store.pending()
                    == Seq::<OpModel>::empty() && (store.fault_count() == 0 ==> store.in_step()),
                Err(e) => is_substrate_error(e@),
            },
    {
        match open_db(place) {
            Ok(db) => PersistentStore::open_in(db),
            Err(e) => Err(substrate_error("Failed to open database", &e)),
        }
    }

    /// Open a store that is removed when it is dropped.
    pub fn open_temporary() -> (r: Result<Self, StoreError>)
        ensures
            match r {
                Ok(store) => store.valid() && store.indexing() && store.pending()
                    == Seq::<OpModel>::empty() && (store.fault_count() == 0 ==> store.in_step()),
                Err(e) => is_substrate_error(e@),
            },
    {
        match open_temporary_db() {
            Ok(db) => PersistentStore::open_in(db),
            Err(e) => Err(substrate_error("Failed to open database", &e)),
        }
    }

    /// Build the indexes anew: what waits is applied, both indexes are
    /// emptied, and every stored path is added again. A store whose index
    /// worker was shut down refuses, and nothing changes.
    pub fn rebuild_indexes(&mut self) -> (r: Result<(), StoreError>)
        ensures
            final(self).endpoints() == old(self).endpoints(),
            final(self).indexing() == old(self).indexing(),
            final(self).fault_count() >= old(self).fault_count(),
            match r {
                Ok(()) => old(self).indexing() && final(self).pending() == Seq::<OpModel>::empty()
                    && (final(self).fault_count() == old(self).fault_count() && old(self).fault_count() < usize::MAX ==> final(self).in_step()),
                Err(e) => if old(self).indexing() {
                    is_substrate_error(e@)
                } else {
                    &&& e@ == ErrorModel::Internal(rebuild_refused_message())
                    &&& final(self).pending() == old(self).pending()
                    &&& final(self).indexed() == old(self).indexed()
                    &&& final(self).matchable() == old(self).matchable()
                    &&& final(self).counters() == old(self).counters()
                    &&& final(self).fault_count() == old(self).fault_count()
                },
            },
    {
        if !self.index_system.is_accepting() {
            return Err(internal_error("Cannot rebuild indexes: index worker is shut down"));
        }
        self.index_system.drain();
        match self.index_system.clear() {
            Ok(()) => {},
            Err(e) => {
                return Err(e);
            },
        }
        let entries = match scan_all(&self.data) {
            Ok(entries) => entries,
            Err(e) => {
                return Err(substrate_error("Failed to iterate database", &e));
            },
        };
        let ghost all = tree_map(self.data);
        let ghost listed = entries_model(entries@);
        let ghost faults0 = self.fault_count();
        let mut i: usize = 0;
        assert(replay(self.pending(), self.indexed()) == Set::<Seq<Seg>>::empty());
        assert(replay(self.pending(), self.matchable()) == Set::<Seq<Seg>>::empty());
        while i < entries.len()
            invariant
                i <= entries.len(),
                listed == entries_model(entries@),
                lists_map(listed, all),
                all == tree_map(self.data),
                self.indexing(),
                self.fault_count() >= faults0,
                faults0 >= old(self).fault_count(),
                self.fault_count() == old(self).fault_count() && old(self).fault_count()
                    < usize::MAX ==> replay(self.pending(), self.indexed()) == rebuilt(
                    listed,
                    i as int,
                ) && replay(self.pending(), self.matchable()) == rebuilt(listed, i as int),
            decreases entries.len() - i,
        {
            assert(listed[i as int] == (entries@[i as int].0@, entries@[i as int].1@));
            match decode_path(&entries[i].0) {
                Some(path) => {
                    if decode_value(&entries[i].1).is_some() {
                        let _ = self.index_system.add_path(path);
                    }
                },
                None => {},
            }
            i += 1;
        }
        self.index_system.drain();
        proof {
            if self.fault_count() == old(self).fault_count() && old(self).fault_count()
                < usize::MAX {
                lemma_rebuilt_all(listed, all);
                assert(replay(Seq::<OpModel>::empty(), self.indexed()) == self.indexed());
                assert(replay(Seq::<OpModel>::empty(), self.matchable()) == self.matchable());
            }
        }
        Ok(())
    }

    /// Apply the operations that wait for the index worker.
    pub fn drain(&mut self)
        ensures
            final(self).fault_count() == old(self).fault_count() && old(self).fault_count()
                < usize::MAX ==> final(self).counters() == replay_counters(
                old(self).pending(),
                old(self).counters(),
            ),
            final(self).endpoints() == old(self).endpoints(),
            final(self).pending() == Seq::<OpModel>::empty(),
            final(self).indexing() == old(self).indexing(),
            final(self).fault_count() >= old(self).fault_count(),
            old(self).in_step() && final(self).fault_count() == old(self).fault_count() && old(self).fault_count() < usize::MAX ==> final(self).in_step()
                && final(self).indexed() == indexable_paths(final(self).endpoints()) && final(self).matchable() == indexable_paths(final(self).endpoints()),
    {
        self.index_system.drain();
        proof {
            assert(replay(Seq::<OpModel>::empty(), self.indexed()) == self.indexed());
            assert(replay(Seq::<OpModel>::empty(), self.matchable()) == self.matchable());
        }
    }

    /// Apply the operation that waited longest for the index worker.
    /// Hands back whether there was one.
    pub fn process_next(&mut self) -> (r: bool)
        ensures
            final(self).fault_count() == old(self).fault_count() && old(self).fault_count()
                < usize::MAX ==> final(self).counters() == (if old(self).pending().len() > 0 {
                applied_counters(old(self).pending()[0], old(self).counters())
            } else {
                old(self).counters()
            }),
            final(self).endpoints() == old(self).endpoints(),
            r == (old(self).pending().len() > 0),
            final(self).pending() == rest_after(old(self).pending()),
            final(self).indexing() == old(self).indexing(),
            r && old(self).pending()[0] is Shutdown ==> !final(self).indexing(),
            final(self).fault_count() >= old(self).fault_count(),
            old(self).in_step() && final(self).fault_count() == old(self).fault_count() && old(self).fault_count() < usize::MAX ==> final(self).in_step(),
    {
        let ghost pending0 = self.pending();
        let ghost listed0 = self.indexed();
        let ghost matched0 = self.matchable();
        let r = self.index_system.process_next();
        proof {
            if r {
                assert(replay(pending0, listed0) == replay(
                    rest_after(pending0),
                    apply_op(pending0[0], listed0),
                ));
                assert(replay(pending0, matched0) == replay(
                    rest_after(pending0),
                    apply_op(pending0[0], matched0),
                ));
            }
        }
        r
    }

    /// Look under the key of a path in the data tree.
    fn fetch(&self, path: &Path) -> (r: Result<Fetched, StoreError>)
        ensures
            match r {
                Ok(Fetched::Found(value)) => self.endpoints().contains_pair(path@, value@),
                Ok(_) => !self.endpoints().dom().contains(path@),
                Err(e) => e@ is Internal,
            },
    {
        let key = encode_path(path);
        match kv_get(&self.data, &key) {
            Ok(Some(bytes)) => {
                match decode_value(&bytes) {
                    Some(value) => Ok(Fetched::Found(value)),
                    None => Ok(Fetched::Unreadable),
                }
            },
            Ok(None) => Ok(Fetched::Absent),
            Err(e) => Err(substrate_error("Failed to retrieve data", &e)),
        }
    }

    /// The counters of the index worker.
    pub closed spec fn counters(&self) -> IndexStats {
        self.index_system.counters()
    }

    /// The counters of the index worker.
    pub fn index_stats(&self) -> (r: IndexStats)
        ensures
            r == self.counters(),
    {
        self.index_system.stats()
    }

    /// The number of operations that wait for the index worker.
    pub fn pending_operations(&self) -> (r: usize)
        ensures
            r == self.pending().len(),
    {
        self.index_system.pending_len()
    }

    /// The number of failures of the substrate that the index worker met.
    pub fn index_faults(&self) -> (r: usize)
        ensures
            r == self.fault_count(),
    {
        self.index_system.fault_total()
    }

    /// Shut the index worker down: what waits is applied, and later writes
    /// are no longer indexed.
    pub fn shutdown(&mut self)
        ensures
            final(self).endpoints() == old(self).endpoints(),
            !final(self).indexing(),
            final(self).pending() == Seq::<OpModel>::empty(),
            final(self).fault_count() >= old(self).fault_count(),
            final(self).fault_count() == old(self).fault_count() && old(self).fault_count()
                < usize::MAX ==> final(self).indexed() == replay(
                old(self).pending(),
                old(self).indexed(),
            ) && final(self).matchable() == replay(old(self).pending(), old(self).matchable())
                && final(self).counters() == replay_counters(
                old(self).pending(),
                old(self).counters(),
            ),
            old(self).in_step() && final(self).fault_count() == old(self).fault_count() && old(self).fault_count() < usize::MAX ==> final(self).in_step()
                && final(self).indexed() == indexable_paths(final(self).endpoints()) && final(self).matchable() == indexable_paths(final(self).endpoints()),
    {
        self.index_system.shutdown();
        proof {
            assert(replay(Seq::<OpModel>::empty(), self.indexed()) == self.indexed());
            assert(replay(Seq::<OpModel>::empty(), self.matchable()) == self.matchable());
        }
    }

    /// Whether the index worker takes operations.
    pub fn is_indexing(&self) -> (r: bool)
        ensures
            r == self.indexing(),
    {
        self.index_system.is_accepting()
    }

    /// Set a value at the given path, and have the path indexed.
    pub fn put(&mut self, path: Path, value: Value) -> (r: Result<(), StoreError>)
        ensures
            index_side(*old(self), *final(self), OpModel::Add(path@), r is Ok),
            final(self).indexing() == old(self).indexing(),
            final(self).fault_count() >= old(self).fault_count(),
            match r {
                Ok(()) => path@.len() > 0 && final(self).endpoints() == old(self).endpoints().insert(
                    path@,
                    value@,
                ) && (old(self).in_step() && old(self).indexing() && final(self).fault_count() == old(self).fault_count() && old(self).fault_count() < usize::MAX
                    ==> final(self).in_step()),
                Err(e) => if path@.len() == 0 {
                    e@ == ErrorModel::InvalidOperation(empty_set_message()) && final(self).endpoints()
                        == old(self).endpoints()
                } else {
                    is_substrate_error(e@)
                },
            },
    {
        if path.is_empty() {
            return Err(invalid_operation("Cannot set value at empty path"));
        }
        let key = encode_path(&path);
        let bytes = encode_value(&value);
        let ghost before = tree_map(self.data);
        match kv_insert(&mut self.data, &key, &bytes) {
            Ok(_) => {},
            Err(e) => {
                return Err(substrate_error("Failed to insert data", &e));
            },
        }
        proof {
            lemma_stored_insert(before, path@, value@, bytes@);
        }
        let ghost all0 = stored(before);
        let ghost all1 = stored(tree_map(self.data));
        let _ = self.index_system.add_path(path);
        proof {
            assert(indexable_paths(all1) =~= apply_op(OpModel::Add(path@), indexable_paths(all0)));
        }
        Ok(())
    }

    /// Delete the value at the given path, and have the path taken out of
    /// the indexes.
    pub fn take(&mut self, path: &Path) -> (r: Result<(), StoreError>)
        ensures
            index_side(*old(self), *final(self), OpModel::Remove(path@), r is Ok),
            final(self).indexing() == old(self).indexing(),
            final(self).fault_count() >= old(self).fault_count(),
            match r {
                Ok(()) => path@.len() > 0 && old(self).endpoints().dom().contains(path@) && final(self).endpoints() == old(self).endpoints().remove(path@) && (old(self).in_step()
                    && old(self).indexing() && final(self).fault_count() == old(self).fault_count() && old(self).fault_count() < usize::MAX ==> final(self).in_step()),
                Err(e) => if path@.len() == 0 {
                    e@ == ErrorModel::InvalidOperation(empty_delete_message()) && final(self).endpoints() == old(self).endpoints()
                } else if e@ is NotFound {
                    e@ == ErrorModel::NotFound(path@) && !old(self).endpoints().dom().contains(
                        path@,
                    ) && final(self).endpoints() == old(self).endpoints()
                } else {
                    is_substrate_error(e@)
                },
            },
    {
        if path.is_empty() {
            return Err(invalid_operation("Cannot delete value at empty path"));
        }
        let key = encode_path(path);
        let ghost before = tree_map(self.data);
        let removed = match kv_remove(&mut self.data, &key) {
            Ok(removed) => removed,
            Err(e) => {
                return Err(substrate_error("Failed to delete data", &e));
            },
        };
        proof {
            lemma_stored_remove(before, path@);
        }
        match removed {
            None => {
                assert(tree_map(self.data) =~= before);
                Err(not_found(path))
            },
            Some(bytes) => {
                if decode_value(&bytes).is_none() {
                    return Err(
                        StoreError::DeserializationError(text_of("Failed to deserialize value")),
                    );
                }
                let ghost all0 = stored(before);
                let ghost all1 = stored(tree_map(self.data));
                let _ = self.index_system.remove_path(path.clone());
                proof {
                    assert(indexable_paths(all1) =~= apply_op(
                        OpModel::Remove(path@),
                        indexable_paths(all0),
                    ));
                }
                Ok(())
            },
        }
    }
}

/// The paths that can be indexed among those that the first `n` entries
/// write together with a value.
pub open spec fn rebuilt(listed: Seq<(Seq<u8>, Seq<u8>)>, n: int) -> Set<Seq<Seg>> {
    Set::new(
        |p: Seq<Seg>|
            indexable(p) && exists|j: int|
                0 <= j < n && read_path((#[trigger] listed[j]).0) == Some(p) && read_value(
                    listed[j].1,
                ) is Some,
    )
}

/// The paths that all the entries write are the stored paths.
pub proof fn lemma_rebuilt_all(listed: Seq<(Seq<u8>, Seq<u8>)>, all: Map<Seq<u8>, Seq<u8>>)
    requires
        lists_map(listed, all),
    ensures
        rebuilt(listed, listed.len() as int) == indexable_paths(stored(all)),
{
    let left = rebuilt(listed, listed.len() as int);
    let right = indexable_paths(stored(all));
    assert forall|p: Seq<Seg>| left.contains(p) == right.contains(p) by {
        if left.contains(p) {
            let j = choose|j: int|
                0 <= j < listed.len() && read_path((#[trigger] listed[j]).0) == Some(p)
                    && read_value(listed[j].1) is Some;
            lemma_path_bytes_read(listed[j].0);
            assert(all.contains_pair(listed[j].0, listed[j].1));
        }
        if right.contains(p) {
            let k = path_bytes(p);
            let j = choose|j: int| 0 <= j < listed.len() && (#[trigger] listed[j]).0 == k;
            assert(all.contains_pair(listed[j].0, listed[j].1));
            lemma_read_path_bytes(p);
        }
    }
    assert(left =~= right);
}

impl Store for PersistentStore {
    closed spec fn endpoints(&self) -> Endpoints {
        stored(tree_map(self.data))
    }

    closed spec fn indexed(&self) -> Set<Seq<Seg>> {
        self.index_system.listed()
    }

    closed spec fn matchable(&self) -> Set<Seq<Seg>> {
        self.index_system.matched()
    }

    open spec fn infallible(&self) -> bool {
        false
    }

    open spec fn valid(&self) -> bool {
        true
    }

    fn set(&mut self, path: Path, value: Value) -> (r: Result<(), StoreError>)
        ensures
            index_side(*old(self), *final(self), OpModel::Add(path@), r is Ok),
            r is Ok && old(self).in_step() && old(self).indexing() && final(self).fault_count() == old(self).fault_count() && old(self).fault_count() < usize::MAX
                ==> final(self).in_step(),
    {
        self.put(path, value)
    }

    fn get(&self, path: &Path) -> (r: Result<Value, StoreError>) {
        if path.is_empty() {
            return Err(invalid_operation("Cannot get value at empty path"));
        }
        match self.fetch(path) {
            Ok(Fetched::Found(value)) => Ok(value),
            Ok(Fetched::Absent) => Err(not_found(path)),
            Ok(Fetched::Unreadable) => Err(
                StoreError::DeserializationError(text_of("Failed to deserialize value")),
            ),
            Err(e) => Err(e),
        }
    }

    fn delete(&mut self, path: &Path) -> (r: Result<(), StoreError>)
        ensures
            index_side(*old(self), *final(self), OpModel::Remove(path@), r is Ok),
            r is Ok && old(self).in_step() && old(self).indexing() && final(self).fault_count() == old(self).fault_count() && old(self).fault_count() < usize::MAX
                ==> final(self).in_step(),
    {
        self.take(path)
    }

    fn path_exists(&self, path: &Path) -> (r: Result<bool, StoreError>) {
        if path.is_empty() {
            return Err(invalid_operation("Cannot check empty path"));
        }
        match self.fetch(path) {
            Ok(Fetched::Found(_)) => Ok(true),
            Ok(_) => Ok(false),
            Err(e) => Err(e),
        }
    }

    fn list_prefix(&self, prefix: &Path) -> (r: Result<Vec<Path>, StoreError>) {
        self.index_system.find_by_prefix(prefix)
    }

    fn get_prefix(&self, prefix: &Path) -> (r: Result<Vec<(Path, Value)>, StoreError>) {
        let entries = match scan_all(&self.data) {
            Ok(entries) => entries,
            Err(e) => {
                return Err(substrate_error("Failed to iterate database", &e));
            },
        };
        Ok(select_stored(&entries, prefix, Ghost(tree_map(self.data))))
    }

    fn query(&self, pattern: &Path) -> (r: Result<Vec<(Path, Value)>, StoreError>) {
        let mut out: Vec<(Path, Value)> = Vec::new();
        if !pattern.has_wildcards() {
            match self.fetch(pattern) {
                Ok(Fetched::Found(value)) => {
                    out.push((pattern.clone(), value));
                    assert(pairs_model(out@)[0] == (pattern@, value@));
                },
                Ok(_) => {},
                Err(e) => {
                    return Err(e);
                },
            }
            return Ok(out);
        }
        let found = match self.index_system.find_by_pattern(pattern) {
            Ok(found) => found,
            Err(e) => {
                return Err(e);
            },
        };
        let ghost listed = paths_model(found@);
        let ghost want = query_result(self.endpoints(), self.matchable(), pattern@);
        let ghost mut source: Seq<int> = Seq::empty();
        let mut i: usize = 0;
        while i < found.len()
            invariant
                i <= found.len(),
                listed == paths_model(found@),
                listed.no_duplicates(),
                source.len() == out.len(),
                forall|a: int| 0 <= a < source.len() ==> 0 <= #[trigger] source[a] < i,
                forall|a: int, b: int|
                    0 <= a < b < source.len() ==> #[trigger] source[a] < #[trigger] source[b],
                forall|a: int|
                    0 <= a < out.len() ==> (#[trigger] out@[a]).0@ == listed[source[a]]
                        && self.endpoints().contains_pair(out@[a].0@, out@[a].1@),
                forall|j: int|
                    0 <= j < i && self.endpoints().dom().contains(#[trigger] listed[j])
                        ==> exists|a: int| 0 <= a < source.len() && #[trigger] source[a] == j,
            decreases found.len() - i,
        {
            assert(listed[i as int] == found@[i as int]@);
            match self.fetch(&found[i]) {
                Ok(Fetched::Found(value)) => {
                    let ghost before = source;
                    out.push((found[i].clone(), value));
                    proof {
                        source = source.push(i as int);
                        assert forall|j: int|
                            0 <= j < i + 1 && self.endpoints().dom().contains(
                                #[trigger] listed[j],
                            ) implies exists|a: int|
                            0 <= a < source.len() && #[trigger] source[a] == j by {
                            if j < i {
                                let a = choose|a: int|
                                    0 <= a < before.len() && #[trigger] before[a] == j;
                                assert(source[a] == j);
                            } else {
                                assert(source[before.len() as int] == j);
                            }
                        }
                    }
                },
                Ok(_) => {},
                Err(e) => {
                    return Err(e);
                },
            }
            i += 1;
        }
        proof {
            let m = pairs_model(out@);
            assert forall|a: int, b: int| 0 <= a < b < m.len() implies m[a].0 != m[b].0 by {
                assert(source[a] < source[b]);
                assert(out@[a].0@ == listed[source[a]]);
                assert(out@[b].0@ == listed[source[b]]);
                assert(listed[source[a]] != listed[source[b]]);
            }
            assert forall|a: int| 0 <= a < m.len() implies want.contains_pair(
                (#[trigger] m[a]).0,
                m[a].1,
            ) by {
                assert(out@[a].0@ == listed[source[a]]);
                assert(listed.contains(listed[source[a]]));
            }
            assert forall|p: Seq<Seg>| want.dom().contains(p) implies exists|a: int|
                0 <= a < m.len() && (#[trigger] m[a]).0 == p by {
                assert(listed.contains(p));
                let j = choose|j: int| 0 <= j < listed.len() && listed[j] == p;
                let a = choose|a: int| 0 <= a < source.len() && #[trigger] source[a] == j;
                assert(m[a].0 == p);
            }
        }
        Ok(out)
    }

    fn count(&self) -> (r: Result<usize, StoreError>) {
        let root = Path::new();
        match self.get_prefix(&root) {
            Ok(pairs) => {
                proof {
                    let listed = pairs_model(pairs@);
                    let all = self.endpoints();
                    assert(under_prefix(all, root@) =~= all);
                    lemma_paths_of_pairs(listed, all);
                    let keys = listed.map_values(|e: (Seq<Seg>, ValueModel)| e.0);
                    lemma_lists_set_len(keys, all.dom());
                }
                Ok(pairs.len())
            },
            Err(e) => Err(e),
        }
    }

    fn count_prefix(&self, prefix: &Path) -> (r: Result<usize, StoreError>) {
        match self.list_prefix(prefix) {
            Ok(paths) => {
                proof {
                    lemma_lists_set_len(paths_model(paths@), paths_under(self.indexed(), prefix@));
                }
                Ok(paths.len())
            },
            Err(e) => Err(e),
        }
    }

    fn flush(&mut self) -> (r: Result<(), StoreError>)
        ensures
            final(self).indexing() == old(self).indexing(),
            final(self).fault_count() >= old(self).fault_count(),
            final(self).pending() == (if r is Ok {
                if old(self).indexing() {
                    room_made(old(self).pending()).push(
                        OpModel::Flush,
                    )
                } else {
                    room_made(old(self).pending())
                }
            } else {
                old(self).pending()
            }),
            old(self).in_step() && final(self).fault_count() == old(self).fault_count() && old(self).fault_count() < usize::MAX ==> final(self).in_step(),
    {
        match kv_flush(&self.data) {
            Ok(()) => {},
            Err(e) => {
                return Err(substrate_error("Failed to flush database", &e));
            },
        }
        let _ = self.index_system.flush();
        Ok(())
    }
}

} // verus!
