//! A batcher for index operations: additions and removals of paths are
//! gathered, an addition and a removal of the same path cancel each other,
//! and what is left is applied to the index in one go.

use crate::errors::{ErrorModel, StoreError};
use crate::index_key::indexable;
use crate::index_types::not_indexable_message;
use crate::path::{Path, Seg};
use crate::prefix_index::PrefixIndex;
use crate::store::{is_substrate_error, lists_set, paths_model, paths_under};
use crate::wildcard_index::WildcardIndex;
use vstd::prelude::*;

verus! {

/// A point in time of the monotonic clock of the standard library.
#[verifier::external_type_specification]
#[verifier::external_body]
pub struct ExInstant(std::time::Instant);

/// `std::time::Instant::now` gives the current point in time. Nothing is
/// claimed of it: it depends on the clock.
#[verifier::external_body]
fn clock_now() -> (r: std::time::Instant) {
    std::time::Instant::now()
}

/// `std::time::Instant::elapsed` gives the time that has passed since a
/// point in time. Nothing is claimed of it: it depends on the clock.
#[verifier::external_body]
fn elapsed_since(since: &std::time::Instant) -> (r: std::time::Duration) {
    since.elapsed()
}

/// `std::time::Duration::as_millis` gives a span of time in whole
/// milliseconds. Nothing is claimed of the number.
#[verifier::external_body]
fn whole_millis(span: &std::time::Duration) -> (r: u128) {
    span.as_millis()
}

/// A number of milliseconds as far as sixty-four bits hold it.
pub open spec fn clamped(millis: u128) -> u64 {
    if millis > u64::MAX {
        u64::MAX
    } else {
        millis as u64
    }
}

/// A number of milliseconds in sixty-four bits; the largest number where
/// they are too many for that.
pub fn clamp_millis(millis: u128) -> (r: u64)
    ensures
        r == clamped(millis),
{
    if millis > 0xffff_ffff_ffff_ffffu128 {
        u64::MAX
    } else {
        millis as u64
    }
}

/// The whole milliseconds that have passed since a point in time; the
/// largest number where they are too many for one. The number depends on
/// the clock.
fn elapsed_millis(since: &std::time::Instant) -> (r: u64) {
    let span = elapsed_since(since);
    let millis = whole_millis(&span);
    clamp_millis(millis)
}

/// Operation type for batched index operations
#[derive(Debug, Clone, Copy, PartialEq, Eq, Structural)]
pub enum BatchOperation {
    /// Add a path to the index
    Add,
    /// Remove a path from the index
    Remove,
}

/// Configuration for the index batcher
#[derive(Debug, Clone, Copy, PartialEq, Eq, Structural)]
pub struct BatcherConfig {
    /// Maximum number of operations to accumulate before flushing
    pub max_operations: usize,
    /// Maximum time to wait before flushing (in milliseconds)
    pub max_delay_ms: u64,
    /// Whether to flush automatically when thresholds are reached
    pub auto_flush: bool,
}

impl Default for BatcherConfig {
    fn default() -> (r: Self)
        ensures
            r == (BatcherConfig { max_operations: 1500, max_delay_ms: 1500, auto_flush: true }),
    {
        BatcherConfig { max_operations: 1500, max_delay_ms: 1500, auto_flush: true }
    }
}

/// Statistics for the batcher
#[derive(Debug, Clone, Copy, PartialEq, Eq, Structural)]
pub struct BatcherStats {
    /// Total number of operations added to the batcher
    pub total_operations: usize,
    /// Total number of batches flushed
    pub total_batches: usize,
    /// Total number of add operations
    pub total_adds: usize,
    /// Total number of remove operations
    pub total_removes: usize,
    /// Total number of operations eliminated by conflict resolution
    pub eliminated_operations: usize,
}

impl Default for BatcherStats {
    fn default() -> (r: Self)
        ensures
            r == (BatcherStats {
                total_operations: 0,
                total_batches: 0,
                total_adds: 0,
                total_removes: 0,
                eliminated_operations: 0,
            }),
    {
        BatcherStats {
            total_operations: 0,
            total_batches: 0,
            total_adds: 0,
            total_removes: 0,
            eliminated_operations: 0,
        }
    }
}

/// The interface of a path index that a batcher can feed.
pub trait PathIndex {
    /// The paths in the index.
    spec fn indexed(&self) -> Set<Seq<Seg>>;

    /// Whether the index cannot fail once it has accepted a path.
    spec fn steady(&self) -> bool;

    /// Add a path to the index
    fn add_path(&mut self, path: &Path) -> (r: Result<(), StoreError>)
        ensures
            final(self).steady() == old(self).steady(),
            match r {
                Ok(()) => final(self).indexed() == old(self).indexed().insert(path@),
                Err(_) => old(self).steady() ==> final(self).indexed() == old(self).indexed(),
            },
    ;

    /// Remove a path from the index
    fn remove_path(&mut self, path: &Path) -> (r: Result<(), StoreError>)
        ensures
            final(self).steady() == old(self).steady(),
            match r {
                Ok(()) => final(self).indexed() == old(self).indexed().remove(path@),
                Err(_) => !old(self).steady(),
            },
    ;

    /// Find all paths that start with a prefix
    fn find_prefix(&self, prefix: &Path) -> (r: Result<Vec<Path>, StoreError>)
        ensures
            match r {
                Ok(found) => lists_set(paths_model(found@), paths_under(self.indexed(), prefix@)),
                Err(_) => !self.steady(),
            },
    ;

    /// Clear the entire index
    fn clear(&mut self) -> (r: Result<(), StoreError>)
        ensures
            final(self).steady() == old(self).steady(),
            match r {
                Ok(()) => final(self).indexed() == Set::<Seq<Seg>>::empty(),
                Err(_) => !old(self).steady(),
            },
    ;
}

impl PathIndex for PrefixIndex {
    open spec fn indexed(&self) -> Set<Seq<Seg>> {
        crate::index_types::IndexImplementation::paths(self)
    }

    open spec fn steady(&self) -> bool {
        false
    }

    fn add_path(&mut self, path: &Path) -> (r: Result<(), StoreError>)
        ensures
            match r {
                Ok(()) => indexable(path@) && final(self).indexed() == old(self).indexed().insert(
                    path@,
                ),
                Err(e) => if e@ is InvalidOperation {
                    !indexable(path@) && e@ == ErrorModel::InvalidOperation(not_indexable_message())
                        && final(self).indexed() == old(self).indexed()
                } else {
                    indexable(path@) && is_substrate_error(e@)
                },
            },
    {
        crate::index_types::IndexImplementation::add_path(self, path)
    }

    fn remove_path(&mut self, path: &Path) -> (r: Result<(), StoreError>)
        ensures
            match r {
                Ok(()) => final(self).indexed() == old(self).indexed().remove(path@),
                Err(e) => indexable(path@) && is_substrate_error(e@),
            },
    {
        crate::index_types::IndexImplementation::remove_path(self, path)
    }

    fn find_prefix(&self, prefix: &Path) -> (r: Result<Vec<Path>, StoreError>)
        ensures
            match r {
                Ok(found) => lists_set(paths_model(found@), paths_under(self.indexed(), prefix@)),
                Err(e) => is_substrate_error(e@),
            },
    {
        crate::index_types::IndexImplementation::find_by_prefix(self, prefix)
    }

    fn clear(&mut self) -> (r: Result<(), StoreError>)
        ensures
            match r {
                Ok(()) => final(self).indexed() == Set::<Seq<Seg>>::empty(),
                Err(e) => is_substrate_error(e@),
            },
    {
        crate::index_types::IndexImplementation::clear(self)
    }
}

impl PathIndex for WildcardIndex {
    open spec fn indexed(&self) -> Set<Seq<Seg>> {
        crate::index_types::IndexImplementation::paths(self)
    }

    open spec fn steady(&self) -> bool {
        false
    }

    fn add_path(&mut self, path: &Path) -> (r: Result<(), StoreError>)
        ensures
            match r {
                Ok(()) => indexable(path@) && final(self).indexed() == old(self).indexed().insert(
                    path@,
                ),
                Err(e) => if e@ is InvalidOperation {
                    !indexable(path@) && e@ == ErrorModel::InvalidOperation(not_indexable_message())
                        && final(self).indexed() == old(self).indexed()
                } else {
                    indexable(path@) && is_substrate_error(e@)
                },
            },
    {
        crate::index_types::IndexImplementation::add_path(self, path)
    }

    fn remove_path(&mut self, path: &Path) -> (r: Result<(), StoreError>)
        ensures
            match r {
                Ok(()) => final(self).indexed() == old(self).indexed().remove(path@),
                Err(e) => indexable(path@) && is_substrate_error(e@),
            },
    {
        crate::index_types::IndexImplementation::remove_path(self, path)
    }

    fn find_prefix(&self, prefix: &Path) -> (r: Result<Vec<Path>, StoreError>)
        ensures
            match r {
                Ok(found) => lists_set(paths_model(found@), paths_under(self.indexed(), prefix@)),
                Err(e) => is_substrate_error(e@),
            },
    {
        crate::index_types::IndexImplementation::find_by_prefix(self, prefix)
    }

    fn clear(&mut self) -> (r: Result<(), StoreError>)
        ensures
            match r {
                Ok(()) => final(self).indexed() == Set::<Seq<Seg>>::empty(),
                Err(e) => is_substrate_error(e@),
            },
    {
        crate::index_types::IndexImplementation::clear(self)
    }
}

/// The models of a list of pending operations, in order.
pub open spec fn pending_model(v: Seq<(Path, BatchOperation)>) -> Seq<(Seq<Seg>, BatchOperation)> {
    v.map_values(|e: (Path, BatchOperation)| (e.0@, e.1))
}

/// The position of the pending operation on a path, or the number of
/// pending operations where there is none.
pub open spec fn pending_position(pending: Seq<(Seq<Seg>, BatchOperation)>, path: Seq<Seg>) -> int
    decreases pending.len(),
{
    if pending.len() == 0 {
        0
    } else if pending[0].0 == path {
        0
    } else {
        1 + pending_position(pending.skip(1), path)
    }
}

/// What is pending after an operation on a path came in: an operation
/// that undoes the pending operation on the path takes that one out; any
/// other takes its place, or is put last where nothing was pending on the
/// path.
pub open spec fn with_operation(
    pending: Seq<(Seq<Seg>, BatchOperation)>,
    path: Seq<Seg>,
    operation: BatchOperation,
) -> Seq<(Seq<Seg>, BatchOperation)> {
    let at = pending_position(pending, path);
    if at < pending.len() {
        if pending[at].1 != operation {
            pending.remove(at)
        } else {
            pending.update(at, (path, operation))
        }
    } else {
        pending.push((path, operation))
    }
}

/// The counters after an operation on a path came in.
pub open spec fn stats_with_operation(
    stats: BatcherStats,
    pending: Seq<(Seq<Seg>, BatchOperation)>,
    path: Seq<Seg>,
    operation: BatchOperation,
) -> BatcherStats {
    let at = pending_position(pending, path);
    let cancels = at < pending.len() && pending[at].1 != operation;
    let bump = |n: usize|
        if n < usize::MAX {
            (n + 1) as usize
        } else {
            n
        };
    BatcherStats {
        total_operations: bump(stats.total_operations),
        total_batches: stats.total_batches,
        total_adds: if !cancels && operation == BatchOperation::Add {
            bump(stats.total_adds)
        } else {
            stats.total_adds
        },
        total_removes: if !cancels && operation == BatchOperation::Remove {
            bump(stats.total_removes)
        } else {
            stats.total_removes
        },
        eliminated_operations: if cancels {
            bump(stats.eliminated_operations)
        } else {
            stats.eliminated_operations
        },
    }
}

/// The paths of an index after the pending removals were applied to it.
pub open spec fn after_removals(paths: Set<Seq<Seg>>, pending: Seq<(Seq<Seg>, BatchOperation)>) -> Set<
    Seq<Seg>,
>
    decreases pending.len(),
{
    if pending.len() == 0 {
        paths
    } else {
        let before = after_removals(paths, pending.drop_last());
        if pending.last().1 == BatchOperation::Remove {
            before.remove(pending.last().0)
        } else {
            before
        }
    }
}

/// The paths of an index after the pending additions were applied to it.
pub open spec fn after_additions(paths: Set<Seq<Seg>>, pending: Seq<(Seq<Seg>, BatchOperation)>) -> Set<
    Seq<Seg>,
>
    decreases pending.len(),
{
    if pending.len() == 0 {
        paths
    } else {
        let before = after_additions(paths, pending.drop_last());
        if pending.last().1 == BatchOperation::Add {
            before.insert(pending.last().0)
        } else {
            before
        }
    }
}

/// Whether a flush is due: flushing by itself is on, something is
/// pending, and either the pending operations have reached their largest
/// number or the first of them has waited as long as it may.
pub open spec fn flush_is_due(config: BatcherConfig, pending: nat, waited: Option<u64>) -> bool {
    config.auto_flush && pending > 0 && (pending >= config.max_operations || (waited matches Some(
        ms,
    ) && ms >= config.max_delay_ms))
}

/// Whether no path has two operations among the pending ones.
pub open spec fn paths_distinct(pending: Seq<(Seq<Seg>, BatchOperation)>) -> bool {
    forall|i: int, j: int|
        0 <= i < pending.len() && 0 <= j < pending.len() && i != j ==> (#[trigger] pending[i]).0 != (
        #[trigger] pending[j]).0
}

/// Before the position of a path no operation is on the path, and the
/// operation at the position is.
pub proof fn lemma_pending_position(pending: Seq<(Seq<Seg>, BatchOperation)>, path: Seq<Seg>)
    ensures
        0 <= pending_position(pending, path) <= pending.len(),
        pending_position(pending, path) < pending.len() ==> pending[pending_position(
            pending,
            path,
        )].0 == path,
        forall|j: int| 0 <= j < pending_position(pending, path) ==> (#[trigger] pending[j]).0 != path,
    decreases pending.len(),
{
    if pending.len() > 0 && pending[0].0 != path {
        let rest = pending.skip(1);
        lemma_pending_position(rest, path);
        assert forall|j: int| 0 <= j < pending_position(pending, path) implies (
        #[trigger] pending[j]).0 != path by {
            if j > 0 {
                assert(rest[j - 1] == pending[j]);
            }
        }
    }
}

/// Where no path has two operations, none has two after one more
/// operation came in.
pub proof fn lemma_with_operation_distinct(
    pending: Seq<(Seq<Seg>, BatchOperation)>,
    path: Seq<Seg>,
    operation: BatchOperation,
)
    requires
        paths_distinct(pending),
    ensures
        paths_distinct(with_operation(pending, path, operation)),
{
    lemma_pending_position(pending, path);
    let at = pending_position(pending, path);
    let after = with_operation(pending, path, operation);
    assert forall|i: int, j: int|
        0 <= i < after.len() && 0 <= j < after.len() && i != j implies (#[trigger] after[i]).0 != (
        #[trigger] after[j]).0 by {
        if at < pending.len() {
            if pending[at].1 != operation {
                let a = if i < at { i } else { i + 1 };
                let b = if j < at { j } else { j + 1 };
                assert(after[i] == pending[a]);
                assert(after[j] == pending[b]);
            } else {
                assert(after[i].0 == pending[i].0);
                assert(after[j].0 == pending[j].0);
            }
        } else {
            if i < pending.len() && j < pending.len() {
                assert(after[i] == pending[i]);
                assert(after[j] == pending[j]);
            } else if i < pending.len() {
                assert(after[i] == pending[i]);
            } else {
                assert(after[j] == pending[j]);
            }
        }
    }
}

/// The pending operations of a batcher: at most one on each path, in the
/// order in which the paths came in.
pub struct PendingOperations {
    entries: Vec<(Path, BatchOperation)>,
}

impl PendingOperations {
    #[verifier::type_invariant]
    spec fn one_per_path(self) -> bool {
        paths_distinct(pending_model(self.entries@))
    }

    /// The operations, in order.
    pub closed spec fn model(&self) -> Seq<(Seq<Seg>, BatchOperation)> {
        pending_model(self.entries@)
    }

    /// No operations.
    pub fn new() -> (r: Self)
        ensures
            r.model() == Seq::<(Seq<Seg>, BatchOperation)>::empty(),
    {
        let entries: Vec<(Path, BatchOperation)> = Vec::new();
        assert(pending_model(entries@) =~= Seq::<(Seq<Seg>, BatchOperation)>::empty());
        PendingOperations { entries }
    }

    /// The number of operations. No path has two of them.
    pub fn len(&self) -> (r: usize)
        ensures
            r == self.model().len(),
            paths_distinct(self.model()),
    {
        proof {
            use_type_invariant(self);
        }
        self.entries.len()
    }

    /// The position of the operation on a path, or the number of
    /// operations where there is none.
    pub fn position(&self, path: &Path) -> (r: usize)
        ensures
            r == pending_position(self.model(), path@),
            r <= self.model().len(),
            r < self.model().len() ==> self.model()[r as int].0 == path@,
    {
        let ghost all = self.model();
        let mut i: usize = 0;
        assert(all.skip(0) == all);
        while i < self.entries.len()
            invariant
                i <= self.entries.len(),
                all == self.model(),
                pending_position(all, path@) == i + pending_position(all.skip(i as int), path@),
            decreases self.entries.len() - i,
        {
            let ghost rest = all.skip(i as int);
            assert(rest.len() > 0 && rest[0] == all[i as int]);
            assert(all[i as int].0 == self.entries@[i as int].0@);
            if self.entries[i].0.same_as(path) {
                return i;
            }
            assert(rest.skip(1) == all.skip(i + 1));
            i += 1;
        }
        assert(all.skip(i as int).len() == 0);
        i
    }

    /// The operation at a position.
    pub fn operation_at(&self, at: usize) -> (r: &BatchOperation)
        requires
            at < self.model().len(),
        ensures
            *r == self.model()[at as int].1,
    {
        assert(self.model()[at as int].1 == self.entries@[at as int].1);
        &self.entries[at].1
    }

    /// Take in an operation on a path: it cancels, replaces or joins what
    /// is there. Hands back whether it cancelled an operation.
    pub fn take_in(&mut self, path: Path, operation: BatchOperation) -> (cancels: bool)
        ensures
            final(self).model() == with_operation(old(self).model(), path@, operation),
            paths_distinct(final(self).model()),
            cancels == (pending_position(old(self).model(), path@) < old(self).model().len()
                && old(self).model()[pending_position(old(self).model(), path@)].1 != operation),
    {
        proof {
            use_type_invariant(&*self);
            lemma_with_operation_distinct(self.model(), path@, operation);
        }
        let ghost before = self.model();
        let at = self.position(&path);
        let mut cancels = false;
        let mut entries: Vec<(Path, BatchOperation)> = Vec::new();
        assert(pending_model(entries@) =~= Seq::<(Seq<Seg>, BatchOperation)>::empty());
        std::mem::swap(&mut self.entries, &mut entries);
        assert(pending_model(entries@) == before);
        if at < entries.len() {
            let (_, waiting) = entries.remove(at);
            assert(waiting == before[at as int].1);
            if waiting != operation {
                cancels = true;
                assert(pending_model(entries@) =~= before.remove(at as int));
            } else {
                entries.insert(at, (path, operation));
                assert(pending_model(entries@) =~= before.update(at as int, (path@, operation)));
            }
        } else {
            entries.push((path, operation));
            assert(pending_model(entries@) =~= before.push((path@, operation)));
        }
        std::mem::swap(&mut self.entries, &mut entries);
        cancels
    }

    /// Take all the operations out, in order.
    pub fn take_all(&mut self) -> (r: Vec<(Path, BatchOperation)>)
        ensures
            pending_model(r@) == old(self).model(),
            paths_distinct(old(self).model()),
            final(self).model() == Seq::<(Seq<Seg>, BatchOperation)>::empty(),
    {
        proof {
            use_type_invariant(&*self);
        }
        let mut entries: Vec<(Path, BatchOperation)> = Vec::new();
        assert(pending_model(entries@) =~= Seq::<(Seq<Seg>, BatchOperation)>::empty());
        std::mem::swap(&mut self.entries, &mut entries);
        entries
    }
}

/// A batcher for index operations
pub struct IndexBatcher<I: PathIndex> {
    /// The index
    index: I,
    /// Batched operations, at most one on each path
    pending_operations: PendingOperations,
    /// Configuration
    config: BatcherConfig,
    /// Time of the first pending operation
    first_op_time: Option<std::time::Instant>,
    /// Statistics
    stats: BatcherStats,
}

impl<I: PathIndex> IndexBatcher<I> {
    /// The pending operations, in the order in which their paths came in.
    pub closed spec fn pending(&self) -> Seq<(Seq<Seg>, BatchOperation)> {
        self.pending_operations.model()
    }

    /// The paths in the index.
    pub closed spec fn index_paths(&self) -> Set<Seq<Seg>> {
        self.index.indexed()
    }

    /// Whether the index cannot fail.
    pub closed spec fn index_steady(&self) -> bool {
        self.index.steady()
    }

    /// The counters.
    pub closed spec fn counters(&self) -> BatcherStats {
        self.stats
    }

    /// The time that was noted for the first pending operation, if one was
    /// noted since the last flush.
    pub closed spec fn started_at(&self) -> Option<std::time::Instant> {
        self.first_op_time
    }

    /// The configuration.
    pub closed spec fn settings(&self) -> BatcherConfig {
        self.config
    }

    /// Create a new index batcher
    pub fn new(index: I, config: BatcherConfig) -> (r: Self)
        ensures
            r.pending() == Seq::<(Seq<Seg>, BatchOperation)>::empty(),
            paths_distinct(r.pending()),
            r.index_paths() == index.indexed(),
            r.index_steady() == index.steady(),
            r.settings() == config,
            r.started_at() is None,
            r.counters() == (BatcherStats {
                total_operations: 0,
                total_batches: 0,
                total_adds: 0,
                total_removes: 0,
                eliminated_operations: 0,
            }),
    {
        let r = IndexBatcher {
            index,
            pending_operations: PendingOperations::new(),
            config,
            first_op_time: None,
            stats: BatcherStats {
                total_operations: 0,
                total_batches: 0,
                total_adds: 0,
                total_removes: 0,
                eliminated_operations: 0,
            },
        };
        assert(r.pending() =~= Seq::<(Seq<Seg>, BatchOperation)>::empty());
        r
    }

    /// Create a new index batcher
    pub fn new_mutex(index: I, config: BatcherConfig) -> (r: Self)
        ensures
            r.pending() == Seq::<(Seq<Seg>, BatchOperation)>::empty(),
            paths_distinct(r.pending()),
            r.index_paths() == index.indexed(),
            r.index_steady() == index.steady(),
            r.settings() == config,
            r.started_at() is None,
            r.counters() == (BatcherStats {
                total_operations: 0,
                total_batches: 0,
                total_adds: 0,
                total_removes: 0,
                eliminated_operations: 0,
            }),
    {
        IndexBatcher::new(index, config)
    }

    /// Create a new index batcher
    pub fn new_rwlock(index: I, config: BatcherConfig) -> (r: Self)
        ensures
            r.pending() == Seq::<(Seq<Seg>, BatchOperation)>::empty(),
            paths_distinct(r.pending()),
            r.index_paths() == index.indexed(),
            r.index_steady() == index.steady(),
            r.settings() == config,
            r.started_at() is None,
            r.counters() == (BatcherStats {
                total_operations: 0,
                total_batches: 0,
                total_adds: 0,
                total_removes: 0,
                eliminated_operations: 0,
            }),
    {
        IndexBatcher::new(index, config)
    }

    /// The position of the pending operation on a path.
    fn position(&self, path: &Path) -> (r: usize)
        ensures
            r == pending_position(self.pending(), path@),
            r <= self.pending().len(),
            r < self.pending().len() ==> self.pending()[r as int].0 == path@,
    {
        self.pending_operations.position(path)
    }

    /// Take in an operation on a path: it cancels, replaces or joins what
    /// is pending, and is counted.
    fn take_in(&mut self, path: Path, operation: BatchOperation)
        ensures
            final(self).pending() == with_operation(old(self).pending(), path@, operation),
            final(self).counters() == stats_with_operation(
                old(self).counters(),
                old(self).pending(),
                path@,
                operation,
            ),
            final(self).index_paths() == old(self).index_paths(),
            final(self).index_steady() == old(self).index_steady(),
            final(self).settings() == old(self).settings(),
            final(self).started_at() == old(self).started_at(),
            paths_distinct(final(self).pending()),
    {
        let cancels = self.pending_operations.take_in(path, operation);
        if self.stats.total_operations < usize::MAX {
            self.stats.total_operations = self.stats.total_operations + 1;
        }
        if cancels {
            if self.stats.eliminated_operations < usize::MAX {
                self.stats.eliminated_operations = self.stats.eliminated_operations + 1;
            }
        } else {
            match operation {
                BatchOperation::Add => {
                    if self.stats.total_adds < usize::MAX {
                        self.stats.total_adds = self.stats.total_adds + 1;
                    }
                },
                BatchOperation::Remove => {
                    if self.stats.total_removes < usize::MAX {
                        self.stats.total_removes = self.stats.total_removes + 1;
                    }
                },
            }
        }
    }

    /// Note the time of the first pending operation: where no time is
    /// noted yet, the current time is; a time that is noted stays.
    fn record_operation_time(&mut self)
        ensures
            final(self).started_at() is Some,
            old(self).started_at() is Some ==> final(self).started_at() == old(self).started_at(),
            final(self).pending() == old(self).pending(),
            final(self).counters() == old(self).counters(),
            final(self).index_paths() == old(self).index_paths(),
            final(self).index_steady() == old(self).index_steady(),
            final(self).settings() == old(self).settings(),
    {
        if self.first_op_time.is_none() {
            self.first_op_time = Some(clock_now());
        }
    }

    /// Whether a flush is due, given how long the first pending operation
    /// has waited.
    pub fn should_flush_after(&self, waited: Option<u64>) -> (r: bool)
        ensures
            r == flush_is_due(self.settings(), self.pending().len(), waited),
    {
        if !self.config.auto_flush || self.pending_operations.len() == 0 {
            return false;
        }
        if self.pending_operations.len() >= self.config.max_operations {
            return true;
        }
        match waited {
            Some(ms) => ms >= self.config.max_delay_ms,
            None => false,
        }
    }

    /// Whether a flush is due now.
    fn should_flush(&self) -> (r: bool)
        ensures
            r ==> self.settings().auto_flush && self.pending().len() > 0,
            self.settings().auto_flush && self.pending().len() > 0 && self.pending().len()
                >= self.settings().max_operations ==> r,
            self.started_at() is None ==> r == flush_is_due(
                self.settings(),
                self.pending().len(),
                None,
            ),
    {
        let waited = match &self.first_op_time {
            Some(start) => Some(elapsed_millis(start)),
            None => None,
        };
        self.should_flush_after(waited)
    }

    /// Add a path to the batch for addition to the index. Where a flush is
    /// then due, the batch is flushed.
    pub fn batch_add(&mut self, path: Path) -> (r: Result<(), StoreError>)
        ensures
            paths_distinct(final(self).pending()),
            final(self).settings() == old(self).settings(),
            final(self).index_steady() == old(self).index_steady(),
            changed_by(*old(self), *final(self), path@, BatchOperation::Add, r is Ok),
    {
        self.batch(path, BatchOperation::Add)
    }

    /// Add a path to the batch for removal from the index. Where a flush
    /// is then due, the batch is flushed.
    pub fn batch_remove(&mut self, path: Path) -> (r: Result<(), StoreError>)
        ensures
            paths_distinct(final(self).pending()),
            final(self).settings() == old(self).settings(),
            final(self).index_steady() == old(self).index_steady(),
            changed_by(*old(self), *final(self), path@, BatchOperation::Remove, r is Ok),
    {
        self.batch(path, BatchOperation::Remove)
    }

    /// Take in an operation and flush where that is due.
    fn batch(&mut self, path: Path, operation: BatchOperation) -> (r: Result<(), StoreError>)
        ensures
            paths_distinct(final(self).pending()),
            final(self).settings() == old(self).settings(),
            final(self).index_steady() == old(self).index_steady(),
            changed_by(*old(self), *final(self), path@, operation, r is Ok),
    {
        self.record_operation_time();
        self.take_in(path, operation);
        if self.should_flush() {
            self.flush()
        } else {
            Ok(())
        }
    }

    /// Apply all pending operations to the index: first the removals,
    /// whose failures are passed over, then the additions, of which the
    /// first failure ends the flush. Nothing is pending afterwards.
    pub fn flush(&mut self) -> (r: Result<(), StoreError>)
        ensures
            paths_distinct(old(self).pending()),
            paths_distinct(final(self).pending()),
            final(self).settings() == old(self).settings(),
            final(self).index_steady() == old(self).index_steady(),
            final(self).pending() == Seq::<(Seq<Seg>, BatchOperation)>::empty(),
            final(self).started_at() == (if old(self).pending().len() > 0 && r is Ok {
                None
            } else {
                old(self).started_at()
            }),
            old(self).pending().len() == 0 ==> r is Ok && final(self).counters() == old(self).counters() && final(self).index_paths() == old(self).index_paths(),
            r is Err ==> exists|i: int|
                0 <= i < old(self).pending().len() && (#[trigger] old(self).pending()[i]).1
                    == BatchOperation::Add,
            old(self).pending().len() > 0 && r is Ok ==> final(self).counters() == (BatcherStats {
                total_batches: if old(self).counters().total_batches < usize::MAX {
                    (old(self).counters().total_batches + 1) as usize
                } else {
                    old(self).counters().total_batches
                },
                ..old(self).counters()
            }),
            r is Ok ==> forall|i: int|
                0 <= i < old(self).pending().len() && (#[trigger] old(self).pending()[i]).1
                    == BatchOperation::Add ==> final(self).index_paths().contains(
                    old(self).pending()[i].0,
                ),
            r is Ok && old(self).index_steady() ==> final(self).index_paths() == after_additions(
                after_removals(old(self).index_paths(), old(self).pending()),
                old(self).pending(),
            ),
    {
        if self.pending_operations.len() == 0 {
            return Ok(());
        }
        let ghost all = self.pending();
        let ghost paths0 = self.index_paths();
        let batch = self.pending_operations.take_all();
        assert(pending_model(batch@) =~= all);
        assert(self.pending() =~= Seq::<(Seq<Seg>, BatchOperation)>::empty());
        let mut i: usize = 0;
        assert(all.take(0).len() == 0);
        while i < batch.len()
            invariant
                i <= batch.len(),
                all == pending_model(batch@),
                paths_distinct(all),
                self.settings() == old(self).settings(),
                self.index_steady() == old(self).index_steady(),
                self.counters() == old(self).counters(),
                self.started_at() == old(self).started_at(),
                self.pending() == Seq::<(Seq<Seg>, BatchOperation)>::empty(),
                self.index_steady() ==> self.index_paths() == after_removals(
                    paths0,
                    all.take(i as int),
                ),
            decreases batch.len() - i,
        {
            proof {
                let next = all.take(i + 1);
                assert(next.drop_last() == all.take(i as int));
                assert(next.last() == all[i as int]);
                assert(all[i as int] == (batch@[i as int].0@, batch@[i as int].1));
            }
            match batch[i].1 {
                BatchOperation::Remove => {
                    let _ = self.index.remove_path(&batch[i].0);
                },
                BatchOperation::Add => {},
            }
            i += 1;
        }
        assert(all.take(i as int) == all);
        let ghost paths1 = self.index_paths();
        let mut k: usize = 0;
        while k < batch.len()
            invariant
                k <= batch.len(),
                all == pending_model(batch@),
                paths_distinct(all),
                all == old(self).pending(),
                all.len() > 0,
                self.settings() == old(self).settings(),
                self.index_steady() == old(self).index_steady(),
                self.counters() == old(self).counters(),
                self.started_at() == old(self).started_at(),
                self.pending() == Seq::<(Seq<Seg>, BatchOperation)>::empty(),
                self.index_steady() ==> paths1 == after_removals(paths0, all),
                self.index_steady() ==> self.index_paths() == after_additions(
                    paths1,
                    all.take(k as int),
                ),
                forall|j: int|
                    0 <= j < k && (#[trigger] all[j]).1 == BatchOperation::Add
                        ==> self.index_paths().contains(all[j].0),
            decreases batch.len() - k,
        {
            proof {
                let next = all.take(k + 1);
                assert(next.drop_last() == all.take(k as int));
                assert(next.last() == all[k as int]);
                assert(all[k as int] == (batch@[k as int].0@, batch@[k as int].1));
            }
            match batch[k].1 {
                BatchOperation::Add => {
                    match self.index.add_path(&batch[k].0) {
                        Ok(()) => {},
                        Err(e) => {
                            return Err(e);
                        },
                    }
                },
                BatchOperation::Remove => {},
            }
            k += 1;
        }
        assert(all.take(k as int) == all);
        self.first_op_time = None;
        if self.stats.total_batches < usize::MAX {
            self.stats.total_batches = self.stats.total_batches + 1;
        }
        Ok(())
    }

    /// Get the current statistics
    pub fn stats(&self) -> (r: BatcherStats)
        ensures
            r == self.counters(),
    {
        self.stats
    }

    /// Get the number of pending operations
    pub fn pending_count(&self) -> (r: usize)
        ensures
            r == self.pending().len(),
            paths_distinct(self.pending()),
    {
        self.pending_operations.len()
    }

    /// Check if a specific path has a pending operation
    pub fn has_pending(&self, path: &Path) -> (r: bool)
        ensures
            r == (pending_position(self.pending(), path@) < self.pending().len()),
    {
        self.position(path) < self.pending_operations.len()
    }

    /// Get the type of pending operation for a path (if any)
    pub fn pending_operation(&self, path: &Path) -> (r: Option<&BatchOperation>)
        ensures
            match r {
                Some(operation) => pending_position(self.pending(), path@) < self.pending().len()
                    && *operation == self.pending()[pending_position(self.pending(), path@)].1,
                None => pending_position(self.pending(), path@) >= self.pending().len(),
            },
    {
        let at = self.position(path);
        if at < self.pending_operations.len() {
            Some(self.pending_operations.operation_at(at))
        } else {
            None
        }
    }

    /// The index that the batcher feeds.
    pub fn index(&self) -> (r: &I)
        ensures
            r.indexed() == self.index_paths(),
            r.steady() == self.index_steady(),
    {
        &self.index
    }
}

/// How a batcher has changed after an operation on a path came in. The
/// operation was taken in and counted. Either that was all and the call
/// succeeded; or a flush was due, and nothing is pending any more.
pub open spec fn changed_by<I: PathIndex>(
    before: IndexBatcher<I>,
    after: IndexBatcher<I>,
    path: Seq<Seg>,
    operation: BatchOperation,
    succeeded: bool,
) -> bool {
    let taken = with_operation(before.pending(), path, operation);
    let counted = stats_with_operation(before.counters(), before.pending(), path, operation);
    ||| {
        &&& succeeded
        &&& after.pending() == taken
        &&& after.counters() == counted
        &&& after.index_paths() == before.index_paths()
        &&& !(before.settings().auto_flush && taken.len() > 0 && taken.len()
            >= before.settings().max_operations)
    }
    ||| {
        &&& before.settings().auto_flush
        &&& taken.len() > 0
        &&& after.pending() == Seq::<(Seq<Seg>, BatchOperation)>::empty()
        &&& succeeded ==> after.counters() == (BatcherStats {
            total_batches: if counted.total_batches < usize::MAX {
                (counted.total_batches + 1) as usize
            } else {
                counted.total_batches
            },
            ..counted
        }) && forall|i: int|
            0 <= i < taken.len() && (#[trigger] taken[i]).1 == BatchOperation::Add
                ==> after.index_paths().contains(taken[i].0)
        &&& succeeded && before.index_steady() ==> after.index_paths() == after_additions(
            after_removals(before.index_paths(), taken),
            taken,
        )
    }
}

} // verus!
