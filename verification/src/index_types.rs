//! What the index layer is made of: the operations that the worker
//! carries, its counters, and what every index promises.

use crate::errors::{ErrorModel, StoreError};
use crate::index_key::indexable;
use crate::path::{Path, Seg};
use crate::store::{is_substrate_error, lists_set, paths_matching, paths_model, paths_under};
use vstd::prelude::*;

verus! {

/// The mathematical model of an index operation.
pub enum OpModel {
    /// Add a path to the indexes.
    Add(Seq<Seg>),
    /// Remove a path from the indexes.
    Remove(Seq<Seg>),
    /// A barrier: nothing to do.
    Flush,
    /// Stop the worker: what waits behind it is dropped.
    Shutdown,
}

/// An operation of the index worker
#[derive(Debug, PartialEq)]
pub enum IndexOp {
    /// Add a path to the indexes
    Add(Path),
    /// Remove a path from the indexes
    Remove(Path),
    /// A barrier in the queue
    Flush,
    /// Stop the worker: what waits behind it is dropped
    Shutdown,
}

impl View for IndexOp {
    type V = OpModel;

    open spec fn view(&self) -> OpModel {
        match self {
            IndexOp::Add(path) => OpModel::Add(path@),
            IndexOp::Remove(path) => OpModel::Remove(path@),
            IndexOp::Flush => OpModel::Flush,
            IndexOp::Shutdown => OpModel::Shutdown,
        }
    }
}

/// Counters of the index worker
#[derive(Debug, Clone, Copy, PartialEq, Eq, Structural)]
pub struct IndexStats {
    /// Number of operations applied
    pub total_operations: usize,
    /// Number of add operations applied
    pub total_adds: usize,
    /// Number of remove operations applied
    pub total_removes: usize,
    /// Number of operations waiting
    pub pending_operations: usize,
}

impl Default for IndexStats {
    fn default() -> (r: Self)
        ensures
            r == (IndexStats {
                total_operations: 0,
                total_adds: 0,
                total_removes: 0,
                pending_operations: 0,
            }),
    {
        IndexStats { total_operations: 0, total_adds: 0, total_removes: 0, pending_operations: 0 }
    }
}

/// The message of the error for a path that cannot be indexed.
pub open spec fn not_indexable_message() -> Seq<char> {
    "Path cannot be indexed"@
}

/// What every index promises.
///
/// An index holds a set of paths. Only a path that can be indexed is ever
/// added; any other is refused and nothing changes.
pub trait IndexImplementation {
    /// The paths in the index.
    spec fn paths(&self) -> Set<Seq<Seg>>;

    /// Add a path to the index.
    fn add_path(&mut self, path: &Path) -> (r: Result<(), StoreError>)
        ensures
            match r {
                Ok(()) => indexable(path@) && final(self).paths() == old(self).paths().insert(path@),
                Err(e) => if e@ is InvalidOperation {
                    !indexable(path@) && e@ == ErrorModel::InvalidOperation(not_indexable_message())
                        && final(self).paths() == old(self).paths()
                } else {
                    indexable(path@) && is_substrate_error(e@)
                },
            },
    ;

    /// Remove a path from the index.
    fn remove_path(&mut self, path: &Path) -> (r: Result<(), StoreError>)
        ensures
            match r {
                Ok(()) => final(self).paths() == old(self).paths().remove(path@),
                Err(e) => indexable(path@) && is_substrate_error(e@),
            },
    ;

    /// Find the paths in the index that start with a prefix.
    fn find_by_prefix(&self, prefix: &Path) -> (r: Result<Vec<Path>, StoreError>)
        ensures
            match r {
                Ok(found) => lists_set(paths_model(found@), paths_under(self.paths(), prefix@)),
                Err(e) => is_substrate_error(e@),
            },
    ;

    /// Find the paths in the index that match a pattern.
    fn find_by_pattern(&self, pattern: &Path) -> (r: Result<Vec<Path>, StoreError>)
        ensures
            match r {
                Ok(found) => lists_set(paths_model(found@), paths_matching(self.paths(), pattern@)),
                Err(e) => is_substrate_error(e@),
            },
    ;

    /// Empty the index.
    fn clear(&mut self) -> (r: Result<(), StoreError>)
        ensures
            match r {
                Ok(()) => final(self).paths() == Set::<Seq<Seg>>::empty(),
                Err(e) => is_substrate_error(e@),
            },
    ;

    /// The name of the implementation.
    fn name(&self) -> (r: &'static str)
    ;
}

} // verus!
