//! The index worker: a bounded queue of index operations, taken one at a
//! time in the order in which they came, and the counters of what was done.

use crate::errors::{internal_error, ErrorModel, StoreError};
use crate::index_key::indexable;
use crate::index_types::{IndexOp, IndexStats, OpModel};
use crate::path::Seg;
use vstd::prelude::*;

verus! {

/// The number of operations that the queue of a worker can hold.
pub const QUEUE_CAPACITY: usize = 1000;

/// Whether a shutdown is among the operations.
pub open spec fn has_shutdown(ops: Seq<OpModel>) -> bool {
    exists|i: int| 0 <= i < ops.len() && (#[trigger] ops[i]) is Shutdown
}

/// What waits after the first of the operations was taken: the others; but
/// nothing after a shutdown, which drops what waits behind it.
pub open spec fn rest_after(ops: Seq<OpModel>) -> Seq<OpModel> {
    if ops.len() == 0 || ops[0] is Shutdown {
        Seq::empty()
    } else {
        ops.skip(1)
    }
}

/// What an operation does to the set of paths of an index: a path that can
/// be indexed is added, a path is removed, and the other operations change
/// nothing.
pub open spec fn apply_op(op: OpModel, paths: Set<Seq<Seg>>) -> Set<Seq<Seg>> {
    match op {
        OpModel::Add(path) => if indexable(path) {
            paths.insert(path)
        } else {
            paths
        },
        OpModel::Remove(path) => paths.remove(path),
        OpModel::Flush => paths,
        OpModel::Shutdown => paths,
    }
}

/// What operations do to the set of paths of an index when they are
/// applied from first to last. A shutdown ends it: what stands behind it is
/// not applied.
pub open spec fn replay(ops: Seq<OpModel>, paths: Set<Seq<Seg>>) -> Set<Seq<Seg>>
    decreases ops.len(),
{
    if ops.len() == 0 {
        paths
    } else {
        replay(rest_after(ops), apply_op(ops[0], paths))
    }
}

/// The counters after an operation was applied without a failure of the
/// substrate: an addition of a path that can be indexed and any removal
/// are counted; the other operations are not.
pub open spec fn applied_counters(op: OpModel, stats: IndexStats) -> IndexStats {
    match op {
        OpModel::Add(path) => if indexable(path) {
            counted(stats, true)
        } else {
            stats
        },
        OpModel::Remove(_) => counted(stats, false),
        OpModel::Flush => stats,
        OpModel::Shutdown => stats,
    }
}

/// The counters after operations were applied from first to last. A
/// shutdown ends it: what stands behind it is not counted.
pub open spec fn replay_counters(ops: Seq<OpModel>, stats: IndexStats) -> IndexStats
    decreases ops.len(),
{
    if ops.len() == 0 {
        stats
    } else {
        replay_counters(rest_after(ops), applied_counters(ops[0], stats))
    }
}

/// The counters after an operation was submitted: an addition or a
/// removal is one more operation pending.
pub open spec fn submitted_counters(op: OpModel, stats: IndexStats) -> IndexStats {
    IndexStats {
        pending_operations: if (op is Add || op is Remove) && stats.pending_operations
            < usize::MAX {
            (stats.pending_operations + 1) as usize
        } else {
            stats.pending_operations
        },
        ..stats
    }
}

/// What waits after room was made for a submission: while the queue is
/// full, the operation that waited longest is taken.
pub open spec fn room_made(ops: Seq<OpModel>) -> Seq<OpModel>
    decreases ops.len(),
{
    if ops.len() < QUEUE_CAPACITY {
        ops
    } else {
        room_made(rest_after(ops))
    }
}

/// The counters after room was made for a submission, where the substrate
/// did not fail.
pub open spec fn room_counters(ops: Seq<OpModel>, stats: IndexStats) -> IndexStats
    decreases ops.len(),
{
    if ops.len() < QUEUE_CAPACITY {
        stats
    } else {
        room_counters(rest_after(ops), applied_counters(ops[0], stats))
    }
}

/// What is left of operations without a shutdown holds none.
pub proof fn lemma_rest_without_shutdown(ops: Seq<OpModel>)
    requires
        !has_shutdown(ops),
    ensures
        !has_shutdown(rest_after(ops)),
        !has_shutdown(room_made(ops)),
    decreases ops.len(),
{
    let rest = rest_after(ops);
    if has_shutdown(rest) {
        let i = choose|i: int| 0 <= i < rest.len() && (#[trigger] rest[i]) is Shutdown;
        assert(ops[i + 1] is Shutdown);
    }
    if ops.len() >= QUEUE_CAPACITY {
        lemma_rest_without_shutdown(rest);
    }
}

/// A shutdown among all but the first of the operations is one among the
/// operations.
pub proof fn lemma_rest_without_shutdown_of(ops: Seq<OpModel>)
    ensures
        ops.len() > 0 && has_shutdown(ops.skip(1)) ==> has_shutdown(ops),
{
    if ops.len() > 0 && has_shutdown(ops.skip(1)) {
        let rest = ops.skip(1);
        let i = choose|i: int| 0 <= i < rest.len() && (#[trigger] rest[i]) is Shutdown;
        assert(ops[i + 1] is Shutdown);
    }
}

/// One more operation behind operations without a shutdown: a shutdown is
/// then among them exactly if the new one is one.
pub proof fn lemma_push_shutdown(ops: Seq<OpModel>, op: OpModel)
    requires
        !has_shutdown(ops),
    ensures
        has_shutdown(ops.push(op)) == (op is Shutdown),
{
    let all = ops.push(op);
    if op is Shutdown {
        assert(all[ops.len() as int] is Shutdown);
    } else if has_shutdown(all) {
        let i = choose|i: int| 0 <= i < all.len() && (#[trigger] all[i]) is Shutdown;
        assert(ops[i] is Shutdown);
    }
}

/// Counting operations without a shutdown and then one more is counting
/// all of them.
pub proof fn lemma_replay_counters_push(ops: Seq<OpModel>, op: OpModel, stats: IndexStats)
    requires
        !has_shutdown(ops),
    ensures
        replay_counters(ops.push(op), stats) == applied_counters(op, replay_counters(ops, stats)),
    decreases ops.len(),
{
    let all = ops.push(op);
    if ops.len() == 0 {
        assert(rest_after(all) =~= Seq::<OpModel>::empty());
        assert(all[0] == op);
        assert(replay_counters(rest_after(all), applied_counters(op, stats)) == applied_counters(
            op,
            stats,
        ));
    } else {
        assert(all[0] == ops[0]);
        assert(!(ops[0] is Shutdown));
        assert(rest_after(all) =~= rest_after(ops).push(op));
        lemma_rest_without_shutdown(ops);
        lemma_replay_counters_push(rest_after(ops), op, applied_counters(ops[0], stats));
    }
}

/// Applying operations without a shutdown and then one more is applying
/// all of them.
pub proof fn lemma_replay_push(ops: Seq<OpModel>, op: OpModel, paths: Set<Seq<Seg>>)
    requires
        !has_shutdown(ops),
    ensures
        replay(ops.push(op), paths) == apply_op(op, replay(ops, paths)),
    decreases ops.len(),
{
    let all = ops.push(op);
    if ops.len() == 0 {
        assert(rest_after(all) =~= Seq::<OpModel>::empty());
        assert(all[0] == op);
        assert(replay(rest_after(all), apply_op(op, paths)) == apply_op(op, paths));
        assert(replay(ops, paths) == paths);
    } else {
        assert(all[0] == ops[0]);
        assert(!(ops[0] is Shutdown));
        assert(rest_after(all) =~= rest_after(ops).push(op));
        lemma_rest_without_shutdown(ops);
        lemma_replay_push(rest_after(ops), op, apply_op(ops[0], paths));
        assert(replay(all, paths) == replay(rest_after(all), apply_op(all[0], paths)));
        assert(replay(ops, paths) == replay(rest_after(ops), apply_op(ops[0], paths)));
    }
}

/// The models of the operations in a queue, in order.
pub open spec fn ops_model(queue: Seq<IndexOp>) -> Seq<OpModel> {
    queue.map_values(|op: IndexOp| op@)
}

/// The message of the error for a submission to a worker that has not
/// been started.
pub open spec fn not_started_message() -> Seq<char> {
    "Index worker not started"@
}

/// The message of the error for a submission to a worker that was shut
/// down.
pub open spec fn stopped_message() -> Seq<char> {
    "Failed to send operation to index worker"@
}

/// The queue and the counters of the index worker
pub struct IndexWorker {
    /// The operations that wait, first come first
    queue: Vec<IndexOp>,
    /// Whether the worker was started
    started: bool,
    /// Whether the worker was shut down
    stopped: bool,
    /// The counters
    stats: IndexStats,
}

impl IndexWorker {
    /// A shutdown waits only in a worker that takes no more submissions.
    #[verifier::type_invariant]
    spec fn orderly(self) -> bool {
        has_shutdown(ops_model(self.queue@)) ==> self.stopped
    }

    /// The operations that wait, first come first.
    pub closed spec fn pending(&self) -> Seq<OpModel> {
        ops_model(self.queue@)
    }

    /// Whether the worker takes submissions.
    pub closed spec fn accepting(&self) -> bool {
        self.started && !self.stopped
    }

    /// Whether the worker was started.
    pub closed spec fn was_started(&self) -> bool {
        self.started
    }

    /// Whether the worker was shut down.
    pub closed spec fn was_stopped(&self) -> bool {
        self.stopped
    }

    /// The counters.
    pub closed spec fn counters(&self) -> IndexStats {
        self.stats
    }

    /// Create a new worker: not started, nothing waiting, all counters at
    /// zero.
    pub fn new() -> (r: Self)
        ensures
            r.pending() == Seq::<OpModel>::empty(),
            !r.accepting(),
            !r.was_started(),
            !r.was_stopped(),
            r.counters() == (IndexStats {
                total_operations: 0,
                total_adds: 0,
                total_removes: 0,
                pending_operations: 0,
            }),
    {
        let r = IndexWorker {
            queue: Vec::new(),
            started: false,
            stopped: false,
            stats: IndexStats {
                total_operations: 0,
                total_adds: 0,
                total_removes: 0,
                pending_operations: 0,
            },
        };
        assert(r.pending() =~= Seq::<OpModel>::empty());
        r
    }

    /// Start the worker. A worker that was shut down stays shut down.
    pub fn start(&mut self)
        ensures
            final(self).pending() == old(self).pending(),
            final(self).counters() == old(self).counters(),
            final(self).was_started(),
            final(self).was_stopped() == old(self).was_stopped(),
            final(self).accepting() == !old(self).was_stopped(),
    {
        proof {
            use_type_invariant(&*self);
        }
        self.started = true;
    }

    /// Whether the queue has room for one more operation. No shutdown
    /// waits in a worker that takes submissions.
    pub fn has_room(&self) -> (r: bool)
        ensures
            r == (self.pending().len() < QUEUE_CAPACITY),
            has_shutdown(self.pending()) ==> !self.accepting(),
    {
        proof {
            use_type_invariant(self);
        }
        self.queue.len() < QUEUE_CAPACITY
    }

    /// Whether the worker takes submissions.
    pub fn is_accepting(&self) -> (r: bool)
        ensures
            r == self.accepting(),
    {
        self.started && !self.stopped
    }

    /// The number of operations that wait.
    pub fn queue_len(&self) -> (r: usize)
        ensures
            r == self.pending().len(),
    {
        self.queue.len()
    }

    /// Submit an operation: it is put behind the operations that wait, and
    /// an addition or a removal is counted as pending. A shutdown that is
    /// submitted ends the taking of submissions at once. A worker that was
    /// not started or was shut down refuses, and nothing changes.
    pub fn submit_operation(&mut self, op: IndexOp) -> (r: Result<(), StoreError>)
        requires
            old(self).pending().len() < QUEUE_CAPACITY,
        ensures
            final(self).was_started() == old(self).was_started(),
            match r {
                Ok(()) => {
                    &&& old(self).accepting()
                    &&& !has_shutdown(old(self).pending())
                    &&& final(self).accepting() == !(op@ is Shutdown)
                    &&& final(self).pending() == old(self).pending().push(op@)
                    &&& final(self).counters() == submitted_counters(op@, old(self).counters())
                },
                Err(e) => {
                    &&& !old(self).accepting()
                    &&& e@ == ErrorModel::Internal(
                        if old(self).was_started() {
                            stopped_message()
                        } else {
                            not_started_message()
                        },
                    )
                    &&& *final(self) == *old(self)
                },
            },
    {
        proof {
            use_type_invariant(&*self);
        }
        if !self.started {
            return Err(internal_error("Index worker not started"));
        }
        if self.stopped {
            return Err(internal_error("Failed to send operation to index worker"));
        }
        let counted = match &op {
            IndexOp::Add(_) => true,
            IndexOp::Remove(_) => true,
            _ => false,
        };
        let closing = match &op {
            IndexOp::Shutdown => true,
            _ => false,
        };
        if counted && self.stats.pending_operations < usize::MAX {
            self.stats.pending_operations = self.stats.pending_operations + 1;
        }
        let ghost before = self.queue@;
        if closing {
            self.stopped = true;
        }
        let mut queue: Vec<IndexOp> = Vec::new();
        assert(!has_shutdown(ops_model(queue@)));
        std::mem::swap(&mut self.queue, &mut queue);
        queue.push(op);
        proof {
            lemma_push_shutdown(ops_model(before), op@);
            assert(ops_model(queue@) =~= ops_model(before).push(op@));
        }
        std::mem::swap(&mut self.queue, &mut queue);
        Ok(())
    }

    /// Take the operation that waited longest. A shutdown that is taken
    /// drops what waits behind it.
    pub fn next_operation(&mut self) -> (r: Option<IndexOp>)
        ensures
            final(self).counters() == old(self).counters(),
            final(self).accepting() == old(self).accepting(),
            final(self).was_started() == old(self).was_started(),
            final(self).was_stopped() == old(self).was_stopped(),
            match r {
                Some(op) => old(self).pending().len() > 0 && op@ == old(self).pending()[0]
                    && final(self).pending() == rest_after(old(self).pending()) && (op@
                    is Shutdown ==> !final(self).accepting()),
                None => old(self).pending().len() == 0 && *final(self) == *old(self),
            },
    {
        proof {
            use_type_invariant(&*self);
        }
        if self.queue.len() == 0 {
            return None;
        }
        let ghost before = self.queue@;
        let closing = match &self.queue[0] {
            IndexOp::Shutdown => true,
            _ => false,
        };
        assert(ops_model(before)[0] == before[0]@);
        proof {
            lemma_rest_without_shutdown_of(ops_model(before));
        }
        let mut queue: Vec<IndexOp> = Vec::new();
        assert(!has_shutdown(ops_model(queue@)));
        std::mem::swap(&mut self.queue, &mut queue);
        let op = queue.remove(0);
        assert(ops_model(queue@) =~= ops_model(before).skip(1));
        if closing {
            queue.clear();
            assert(ops_model(queue@) =~= Seq::<OpModel>::empty());
        }
        std::mem::swap(&mut self.queue, &mut queue);
        Some(op)
    }

    /// Count an addition or a removal that at least one index has applied.
    pub fn record_applied(&mut self, addition: bool)
        ensures
            final(self).pending() == old(self).pending(),
            final(self).accepting() == old(self).accepting(),
            final(self).was_started() == old(self).was_started(),
            final(self).counters() == counted(old(self).counters(), addition),
    {
        proof {
            use_type_invariant(&*self);
        }
        self.stats = count_applied(self.stats, addition);
    }

    /// Shut the worker down: it takes no more submissions.
    pub fn close(&mut self)
        ensures
            final(self).pending() == old(self).pending(),
            final(self).counters() == old(self).counters(),
            final(self).was_started() == old(self).was_started(),
            !final(self).accepting(),
    {
        proof {
            use_type_invariant(&*self);
        }
        self.stopped = true;
    }

    /// The counters as they stand.
    pub fn get_stats(&self) -> (r: IndexStats)
        ensures
            r == self.counters(),
    {
        self.stats
    }
}

/// The counters after an addition or a removal was applied: one more
/// operation, one more of its kind, and one operation fewer pending, as
/// far as the counters go.
pub open spec fn counted(stats: IndexStats, addition: bool) -> IndexStats {
    IndexStats {
        total_operations: if stats.total_operations < usize::MAX {
            (stats.total_operations + 1) as usize
        } else {
            stats.total_operations
        },
        total_adds: if addition && stats.total_adds < usize::MAX {
            (stats.total_adds + 1) as usize
        } else {
            stats.total_adds
        },
        total_removes: if !addition && stats.total_removes < usize::MAX {
            (stats.total_removes + 1) as usize
        } else {
            stats.total_removes
        },
        pending_operations: if stats.pending_operations > 0 {
            (stats.pending_operations - 1) as usize
        } else {
            0
        },
    }
}

/// The counters after an addition or a removal was applied.
pub fn count_applied(stats: IndexStats, addition: bool) -> (r: IndexStats)
    ensures
        r == counted(stats, addition),
{
    IndexStats {
        total_operations: if stats.total_operations < usize::MAX {
            stats.total_operations + 1
        } else {
            stats.total_operations
        },
        total_adds: if addition && stats.total_adds < usize::MAX {
            stats.total_adds + 1
        } else {
            stats.total_adds
        },
        total_removes: if !addition && stats.total_removes < usize::MAX {
            stats.total_removes + 1
        } else {
            stats.total_removes
        },
        pending_operations: if stats.pending_operations > 0 {
            stats.pending_operations - 1
        } else {
            0
        },
    }
}

} // verus!
