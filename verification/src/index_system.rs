//! The index system: the prefix index and the wildcard index, fed by one
//! worker. Every change of the indexes goes through the worker's queue and
//! is applied to both indexes, one operation at a time, in the order of
//! submission. A failure of one index does not keep the operation from the
//! other.

use crate::errors::StoreError;
use crate::index_types::{IndexImplementation, IndexOp, IndexStats, OpModel};
use crate::index_worker::{
    apply_op, applied_counters, replay, replay_counters, rest_after, room_counters, room_made,
    submitted_counters, IndexWorker,
};
use crate::kv::tree_map;
use crate::path::{path_has_wildcards, Path, Seg};
use crate::prefix_index::{keyed_paths, PrefixIndex};
use crate::store::{is_substrate_error, lists_set, paths_matching, paths_model, paths_under};
use crate::wildcard_index::{posted_paths, WildcardIndex};
use vstd::prelude::*;

verus! {

/// The unified index system
pub struct IndexSystem {
    /// The index for searches by prefix
    prefix_index: PrefixIndex,
    /// The index for searches with wildcards
    wildcard_index: WildcardIndex,
    /// The worker that carries the operations
    worker: IndexWorker,
    /// The number of failures of the substrate met while operations were
    /// applied
    faults: usize,
}

/// The number of faults after one more was met.
pub open spec fn one_more_fault(faults: nat) -> nat {
    if faults < usize::MAX {
        faults + 1
    } else {
        faults
    }
}

/// What taking the operation that waited longest has done, where the
/// prefix index did not fail exactly if `first` and the wildcard index
/// exactly if `second`. An index that did not fail holds what the
/// operation makes of what it held. The operation is counted where at
/// least one index did not fail. One fault is counted where an index
/// failed.
pub open spec fn step_done(before: IndexSystem, after: IndexSystem, first: bool, second: bool) -> bool {
    let op = before.pending()[0];
    &&& before.pending().len() > 0
    &&& after.pending() == rest_after(before.pending())
    &&& first ==> after.listed() == apply_op(op, before.listed())
    &&& second ==> after.matched() == apply_op(op, before.matched())
    &&& after.counters() == (if first || second {
        applied_counters(op, before.counters())
    } else {
        before.counters()
    })
    &&& after.fault_count() == (if first && second {
        before.fault_count()
    } else {
        one_more_fault(before.fault_count())
    })
}

/// Whether taking the operation that waited longest may have led from one
/// state to the other.
pub open spec fn step_taken(before: IndexSystem, after: IndexSystem) -> bool {
    exists|first: bool, second: bool| #[trigger] step_done(before, after, first, second)
}

/// Whether each of the states but the last led to the next by taking the
/// operation that waited longest.
pub open spec fn steps_done(states: Seq<IndexSystem>) -> bool {
    forall|i: int|
        0 <= i < states.len() - 1 ==> step_taken(#[trigger] states[i], states[i + 1])
}

impl IndexSystem {
    /// The paths that the prefix index holds.
    pub closed spec fn listed(&self) -> Set<Seq<Seg>> {
        self.prefix_index.paths()
    }

    /// The paths that the wildcard index holds.
    pub closed spec fn matched(&self) -> Set<Seq<Seg>> {
        self.wildcard_index.paths()
    }

    /// The operations that wait, first come first.
    pub closed spec fn pending(&self) -> Seq<OpModel> {
        self.worker.pending()
    }

    /// Whether operations can be submitted.
    pub closed spec fn accepting(&self) -> bool {
        self.worker.accepting()
    }

    /// The number of failures of the substrate met so far.
    pub closed spec fn fault_count(&self) -> nat {
        self.faults as nat
    }

    /// The counters of the worker.
    pub closed spec fn counters(&self) -> IndexStats {
        self.worker.counters()
    }

    /// Create the index system over its three trees, with a started worker
    /// and nothing waiting. Each tree must be handed over once: what is
    /// said of an index holds as long as nothing else writes to its trees.
    pub fn new(prefix_tree: sled::Tree, single_tree: sled::Tree, multi_tree: sled::Tree) -> (r:
        Self)
        ensures
            r.listed() == keyed_paths(tree_map(prefix_tree)),
            r.matched() == posted_paths(tree_map(single_tree), tree_map(multi_tree)),
            r.pending() == Seq::<OpModel>::empty(),
            r.accepting(),
            r.fault_count() == 0,
    {
        let prefix_index = PrefixIndex::new(prefix_tree);
        let wildcard_index = WildcardIndex::new(single_tree, multi_tree);
        proof {
            prefix_index.lemma_paths();
            wildcard_index.lemma_paths();
        }
        let mut worker = IndexWorker::new();
        worker.start();
        IndexSystem { prefix_index, wildcard_index, worker, faults: 0 }
    }

    /// Count a failure of the substrate.
    fn note_fault(&mut self)
        ensures
            final(self).listed() == old(self).listed(),
            final(self).matched() == old(self).matched(),
            final(self).pending() == old(self).pending(),
            final(self).accepting() == old(self).accepting(),
            final(self).counters() == old(self).counters(),
            final(self).fault_count() == one_more_fault(old(self).fault_count()),
            final(self).fault_count() >= old(self).fault_count(),
    {
        if self.faults < usize::MAX {
            self.faults = self.faults + 1;
        }
    }

    /// Take the operation that waited longest and apply it to both
    /// indexes, the prefix index first; a failure of one index does not
    /// keep the operation from the other. Hands back whether there was an
    /// operation. A shutdown that is taken drops what waits behind it, and
    /// the worker takes no more submissions. An index that did not fail
    /// holds what the operation makes of what it held; the operation is
    /// counted where at least one index applied it; a failure is counted
    /// as a fault.
    pub fn process_next(&mut self) -> (r: bool)
        ensures
            r == (old(self).pending().len() > 0),
            final(self).accepting() == old(self).accepting(),
            final(self).fault_count() >= old(self).fault_count(),
            final(self).pending() == rest_after(old(self).pending()),
            r && old(self).pending()[0] is Shutdown ==> !final(self).accepting(),
            !r ==> *final(self) == *old(self),
            r ==> step_taken(*old(self), *final(self)),
            r && final(self).fault_count() == old(self).fault_count() && old(self).fault_count()
                < usize::MAX ==> final(self).listed() == apply_op(
                old(self).pending()[0],
                old(self).listed(),
            ) && final(self).matched() == apply_op(old(self).pending()[0], old(self).matched())
                && final(self).counters() == applied_counters(
                old(self).pending()[0],
                old(self).counters(),
            ),
    {
        let op = match self.worker.next_operation() {
            Some(op) => op,
            None => {
                assert(rest_after(old(self).pending()) =~= old(self).pending());
                return false;
            },
        };
        match op {
            IndexOp::Add(path) => {
                let first = self.prefix_index.add_path(&path);
                let second = self.wildcard_index.add_path(&path);
                let mut success = false;
                let mut fault = false;
                let mut first_held = true;
                let mut second_held = true;
                match first {
                    Ok(()) => {
                        success = true;
                    },
                    Err(e) => {
                        match e {
                            StoreError::InvalidOperation(_) => {},
                            _ => {
                                fault = true;
                                first_held = false;
                            },
                        }
                    },
                }
                match second {
                    Ok(()) => {
                        success = true;
                    },
                    Err(e) => {
                        match e {
                            StoreError::InvalidOperation(_) => {},
                            _ => {
                                fault = true;
                                second_held = false;
                            },
                        }
                    },
                }
                if success {
                    self.worker.record_applied(true);
                }
                if fault {
                    self.note_fault();
                }
                assert(step_done(*old(self), *self, first_held, second_held));
            },
            IndexOp::Remove(path) => {
                let first = self.prefix_index.remove_path(&path);
                let second = self.wildcard_index.remove_path(&path);
                let success = first.is_ok() || second.is_ok();
                let fault = first.is_err() || second.is_err();
                if success {
                    self.worker.record_applied(false);
                }
                if fault {
                    self.note_fault();
                }
                assert(step_done(*old(self), *self, first.is_ok(), second.is_ok()));
            },
            IndexOp::Flush => {
                assert(step_done(*old(self), *self, true, true));
            },
            IndexOp::Shutdown => {
                assert(step_done(*old(self), *self, true, true));
            },
        }
        true
    }

    /// Apply all the operations that wait, up to a shutdown, which drops
    /// what waits behind it. The operations are taken one after the other.
    /// Where the substrate did not fail, each index then holds what the
    /// operations, applied from first to last, make of what it held.
    pub fn drain(&mut self)
        ensures
            final(self).pending() == Seq::<OpModel>::empty(),
            final(self).accepting() == old(self).accepting(),
            final(self).fault_count() >= old(self).fault_count(),
            exists|states: Seq<IndexSystem>|
                #![trigger steps_done(states)]
                states.len() >= 1 && states[0] == *old(self) && states.last() == *final(self)
                    && steps_done(states),
            final(self).fault_count() == old(self).fault_count() && old(self).fault_count()
                < usize::MAX ==> final(self).listed() == replay(
                old(self).pending(),
                old(self).listed(),
            ) && final(self).matched() == replay(old(self).pending(), old(self).matched())
                && final(self).counters() == replay_counters(
                old(self).pending(),
                old(self).counters(),
            ),
    {
        let ghost mut states: Seq<IndexSystem> = seq![*self];
        loop
            invariant
                self.accepting() == old(self).accepting(),
                self.fault_count() >= old(self).fault_count(),
                states.len() >= 1,
                states[0] == *old(self),
                states.last() == *self,
                steps_done(states),
                self.fault_count() == old(self).fault_count() && old(self).fault_count()
                    < usize::MAX ==> replay(self.pending(), self.listed()) == replay(
                    old(self).pending(),
                    old(self).listed(),
                ) && replay(self.pending(), self.matched()) == replay(
                    old(self).pending(),
                    old(self).matched(),
                ) && replay_counters(self.pending(), self.counters()) == replay_counters(
                    old(self).pending(),
                    old(self).counters(),
                ),
            decreases self.pending().len(),
        {
            let ghost before = *self;
            let ghost before_pending = self.pending();
            let ghost before_listed = self.listed();
            let ghost before_matched = self.matched();
            let ghost before_counters = self.counters();
            if !self.process_next() {
                assert(self.pending() =~= Seq::<OpModel>::empty());
                assert(*self == before) by {
                    assert(self.pending() == before.pending());
                }
                return ;
            }
            proof {
                let longer = states.push(*self);
                assert(step_taken(before, *self));
                assert forall|i: int| 0 <= i < longer.len() - 1 implies step_taken(
                    #[trigger] longer[i],
                    longer[i + 1],
                ) by {
                    if i < states.len() - 1 {
                        assert(longer[i] == states[i]);
                        assert(longer[i + 1] == states[i + 1]);
                        assert(step_taken(states[i], states[i + 1]));
                    } else {
                        assert(longer[i] == before);
                        assert(longer[i + 1] == *self);
                    }
                }
                assert(steps_done(longer));
                states = longer;
                assert(replay_counters(before_pending, before_counters) == replay_counters(
                    rest_after(before_pending),
                    applied_counters(before_pending[0], before_counters),
                ));
                assert(replay(before_pending, before_listed) == replay(
                    rest_after(before_pending),
                    apply_op(before_pending[0], before_listed),
                ));
                assert(replay(before_pending, before_matched) == replay(
                    rest_after(before_pending),
                    apply_op(before_pending[0], before_matched),
                ));
            }
        }
    }

    /// Submit an operation to the worker. Where the queue is full, the
    /// operation that waited longest is applied first to make room. A
    /// shutdown that is submitted ends the taking of submissions at once;
    /// a worker that takes none refuses.
    pub fn submit(&mut self, op: IndexOp) -> (r: Result<(), StoreError>)
        ensures
            final(self).fault_count() >= old(self).fault_count(),
            final(self).accepting() == (old(self).accepting() && !(op@ is Shutdown)),
            r is Ok <==> old(self).accepting(),
            r is Err ==> r->Err_0@ is Internal,
            final(self).pending() == (if r is Ok {
                room_made(old(self).pending()).push(op@)
            } else {
                room_made(old(self).pending())
            }),
            final(self).fault_count() == old(self).fault_count() && old(self).fault_count()
                < usize::MAX ==> {
                &&& replay(final(self).pending(), final(self).listed()) == (if r is Ok {
                    apply_op(op@, replay(old(self).pending(), old(self).listed()))
                } else {
                    replay(old(self).pending(), old(self).listed())
                })
                &&& replay(final(self).pending(), final(self).matched()) == (if r is Ok {
                    apply_op(op@, replay(old(self).pending(), old(self).matched()))
                } else {
                    replay(old(self).pending(), old(self).matched())
                })
                &&& final(self).counters() == (if r is Ok {
                    submitted_counters(
                        op@,
                        room_counters(old(self).pending(), old(self).counters()),
                    )
                } else {
                    room_counters(old(self).pending(), old(self).counters())
                })
            },
    {
        while !self.worker.has_room()
            invariant
                room_made(self.pending()) == room_made(old(self).pending()),
                self.accepting() == old(self).accepting(),
                self.fault_count() >= old(self).fault_count(),
                self.fault_count() == old(self).fault_count() && old(self).fault_count()
                    < usize::MAX ==> replay(self.pending(), self.listed()) == replay(
                    old(self).pending(),
                    old(self).listed(),
                ) && replay(self.pending(), self.matched()) == replay(
                    old(self).pending(),
                    old(self).matched(),
                ) && room_counters(self.pending(), self.counters()) == room_counters(
                    old(self).pending(),
                    old(self).counters(),
                ),
            decreases self.pending().len(),
        {
            let ghost pending0 = self.pending();
            let ghost listed0 = self.listed();
            let ghost matched0 = self.matched();
            let ghost counters0 = self.counters();
            self.process_next();
            proof {
                assert(replay(pending0, listed0) == replay(
                    rest_after(pending0),
                    apply_op(pending0[0], listed0),
                ));
                assert(replay(pending0, matched0) == replay(
                    rest_after(pending0),
                    apply_op(pending0[0], matched0),
                ));
                assert(room_made(pending0) == room_made(rest_after(pending0)));
                assert(room_counters(pending0, counters0) == room_counters(
                    rest_after(pending0),
                    applied_counters(pending0[0], counters0),
                ));
            }
        }
        let ghost pending1 = self.pending();
        let has_room = self.worker.has_room();
        proof {
            assert(room_made(pending1) == pending1);
            assert(room_counters(pending1, self.counters()) == self.counters());
            if self.accepting() {
                crate::index_worker::lemma_replay_push(pending1, op@, self.listed());
                crate::index_worker::lemma_replay_push(pending1, op@, self.matched());
            }
        }
        self.worker.submit_operation(op)
    }

    /// Add a path to the indexes, by way of the worker.
    pub fn add_path(&mut self, path: Path) -> (r: Result<(), StoreError>)
        ensures
            final(self).pending() == (if r is Ok {
                room_made(old(self).pending()).push(OpModel::Add(path@))
            } else {
                room_made(old(self).pending())
            }),
            final(self).fault_count() == old(self).fault_count() && old(self).fault_count()
                < usize::MAX ==> final(self).counters() == (if r is Ok {
                submitted_counters(
                    OpModel::Add(path@),
                    room_counters(old(self).pending(), old(self).counters()),
                )
            } else {
                room_counters(old(self).pending(), old(self).counters())
            }),
            final(self).fault_count() >= old(self).fault_count(),
            r is Ok <==> old(self).accepting(),
            final(self).accepting() == old(self).accepting(),
            final(self).fault_count() == old(self).fault_count() && old(self).fault_count()
                < usize::MAX ==> replay(final(self).pending(), final(self).listed()) == (if r
                is Ok {
                apply_op(OpModel::Add(path@), replay(old(self).pending(), old(self).listed()))
            } else {
                replay(old(self).pending(), old(self).listed())
            }) && replay(final(self).pending(), final(self).matched()) == (if r is Ok {
                apply_op(OpModel::Add(path@), replay(old(self).pending(), old(self).matched()))
            } else {
                replay(old(self).pending(), old(self).matched())
            }),
    {
        self.submit(IndexOp::Add(path))
    }

    /// Remove a path from the indexes, by way of the worker.
    pub fn remove_path(&mut self, path: Path) -> (r: Result<(), StoreError>)
        ensures
            final(self).pending() == (if r is Ok {
                room_made(old(self).pending()).push(OpModel::Remove(path@))
            } else {
                room_made(old(self).pending())
            }),
            final(self).fault_count() == old(self).fault_count() && old(self).fault_count()
                < usize::MAX ==> final(self).counters() == (if r is Ok {
                submitted_counters(
                    OpModel::Remove(path@),
                    room_counters(old(self).pending(), old(self).counters()),
                )
            } else {
                room_counters(old(self).pending(), old(self).counters())
            }),
            final(self).fault_count() >= old(self).fault_count(),
            r is Ok <==> old(self).accepting(),
            final(self).accepting() == old(self).accepting(),
            final(self).fault_count() == old(self).fault_count() && old(self).fault_count()
                < usize::MAX ==> replay(final(self).pending(), final(self).listed()) == (if r
                is Ok {
                apply_op(OpModel::Remove(path@), replay(old(self).pending(), old(self).listed()))
            } else {
                replay(old(self).pending(), old(self).listed())
            }) && replay(final(self).pending(), final(self).matched()) == (if r is Ok {
                apply_op(
                    OpModel::Remove(path@),
                    replay(old(self).pending(), old(self).matched()),
                )
            } else {
                replay(old(self).pending(), old(self).matched())
            }),
    {
        self.submit(IndexOp::Remove(path))
    }

    /// Put a barrier into the queue.
    pub fn flush(&mut self) -> (r: Result<(), StoreError>)
        ensures
            final(self).pending() == (if r is Ok {
                room_made(old(self).pending()).push(OpModel::Flush)
            } else {
                room_made(old(self).pending())
            }),
            final(self).fault_count() == old(self).fault_count() && old(self).fault_count()
                < usize::MAX ==> final(self).counters() == (if r is Ok {
                submitted_counters(
                    OpModel::Flush,
                    room_counters(old(self).pending(), old(self).counters()),
                )
            } else {
                room_counters(old(self).pending(), old(self).counters())
            }),
            final(self).fault_count() >= old(self).fault_count(),
            r is Ok <==> old(self).accepting(),
            final(self).accepting() == old(self).accepting(),
            final(self).fault_count() == old(self).fault_count() && old(self).fault_count()
                < usize::MAX ==> replay(final(self).pending(), final(self).listed()) == replay(
                old(self).pending(),
                old(self).listed(),
            ) && replay(final(self).pending(), final(self).matched()) == replay(
                old(self).pending(),
                old(self).matched(),
            ),
    {
        self.submit(IndexOp::Flush)
    }

    /// Find the paths in the prefix index that start with a prefix.
    pub fn find_by_prefix(&self, prefix: &Path) -> (r: Result<Vec<Path>, StoreError>)
        ensures
            match r {
                Ok(found) => lists_set(paths_model(found@), paths_under(self.listed(), prefix@)),
                Err(e) => is_substrate_error(e@),
            },
    {
        self.prefix_index.find_by_prefix(prefix)
    }

    /// Find the indexed paths that match a pattern: a pattern without
    /// wildcards is looked up in the prefix index, any other in the
    /// wildcard index.
    pub fn find_by_pattern(&self, pattern: &Path) -> (r: Result<Vec<Path>, StoreError>)
        ensures
            match r {
                Ok(found) => lists_set(
                    paths_model(found@),
                    paths_matching(
                        if path_has_wildcards(pattern@) {
                            self.matched()
                        } else {
                            self.listed()
                        },
                        pattern@,
                    ),
                ),
                Err(e) => is_substrate_error(e@),
            },
    {
        if !pattern.has_wildcards() {
            self.prefix_index.find_by_pattern(pattern)
        } else {
            self.wildcard_index.find_by_pattern(pattern)
        }
    }

    /// Empty both indexes and the queue's effect on them: used before the
    /// indexes are built anew.
    pub fn clear(&mut self) -> (r: Result<(), StoreError>)
        ensures
            final(self).pending() == old(self).pending(),
            final(self).accepting() == old(self).accepting(),
            final(self).fault_count() == old(self).fault_count(),
            match r {
                Ok(()) => final(self).listed() == Set::<Seq<Seg>>::empty() && final(self).matched()
                    == Set::<Seq<Seg>>::empty(),
                Err(e) => is_substrate_error(e@),
            },
    {
        match self.prefix_index.clear() {
            Ok(()) => {},
            Err(e) => {
                return Err(e);
            },
        }
        self.wildcard_index.clear()
    }

    /// Whether operations can be submitted.
    pub fn is_accepting(&self) -> (r: bool)
        ensures
            r == self.accepting(),
    {
        self.worker.is_accepting()
    }

    /// The counters of the worker.
    pub fn stats(&self) -> (r: IndexStats)
        ensures
            r == self.counters(),
    {
        self.worker.get_stats()
    }

    /// The number of operations that wait.
    pub fn pending_len(&self) -> (r: usize)
        ensures
            r == self.pending().len(),
    {
        self.worker.queue_len()
    }

    /// The number of failures of the substrate met so far.
    pub fn fault_total(&self) -> (r: usize)
        ensures
            r == self.fault_count(),
    {
        self.faults
    }

    /// Shut the index system down: what waits is applied, and no more
    /// operations are taken.
    pub fn shutdown(&mut self)
        ensures
            !final(self).accepting(),
            final(self).pending() == Seq::<OpModel>::empty(),
            final(self).fault_count() >= old(self).fault_count(),
            final(self).fault_count() == old(self).fault_count() && old(self).fault_count()
                < usize::MAX ==> final(self).listed() == replay(
                old(self).pending(),
                old(self).listed(),
            ) && final(self).matched() == replay(old(self).pending(), old(self).matched())
                && final(self).counters() == replay_counters(
                old(self).pending(),
                old(self).counters(),
            ),
    {
        self.drain();
        self.worker.close();
    }
}

} // verus!
