use hyperion::index_batcher::{
    clamp_millis, BatchOperation, BatcherConfig, BatcherStats, IndexBatcher, PathIndex,
};
use hyperion::path::Path;
use hyperion::prefix_index::PrefixIndex;
use std::str::FromStr;

fn fresh_index() -> PrefixIndex {
    let db = sled::Config::new().temporary(true).open().unwrap();
    PrefixIndex::new(db.open_tree("prefix_index").unwrap())
}

fn manual() -> BatcherConfig {
    BatcherConfig { max_operations: 1500, max_delay_ms: 1500, auto_flush: false }
}

fn path(text: &str) -> Path {
    Path::from_str(text).unwrap()
}

#[test]
fn batcher_defaults() {
    let config = BatcherConfig::default();
    assert_eq!(config.max_operations, 1500);
    assert_eq!(config.max_delay_ms, 1500);
    assert!(config.auto_flush);
    assert_eq!(
        BatcherStats::default(),
        BatcherStats {
            total_operations: 0,
            total_batches: 0,
            total_adds: 0,
            total_removes: 0,
            eliminated_operations: 0,
        }
    );
}

#[test]
fn batcher_holds_operations_until_flushed() {
    let mut batcher = IndexBatcher::new(fresh_index(), manual());
    batcher.batch_add(path("users.u1.name")).unwrap();
    batcher.batch_add(path("users.u2.name")).unwrap();
    assert_eq!(batcher.pending_count(), 2);
    assert!(batcher.has_pending(&path("users.u1.name")));
    assert!(!batcher.has_pending(&path("users.u3.name")));
    assert_eq!(batcher.pending_operation(&path("users.u2.name")), Some(&BatchOperation::Add));
    assert_eq!(batcher.pending_operation(&path("users.u3.name")), None);
    assert!(batcher.index().find_prefix(&path("users")).unwrap().is_empty());

    batcher.flush().unwrap();
    assert_eq!(batcher.pending_count(), 0);
    let found = batcher.index().find_prefix(&path("users")).unwrap();
    assert_eq!(found.len(), 2);
    assert!(found.contains(&path("users.u1.name")));
    assert!(found.contains(&path("users.u2.name")));
    assert_eq!(
        batcher.stats(),
        BatcherStats {
            total_operations: 2,
            total_batches: 1,
            total_adds: 2,
            total_removes: 0,
            eliminated_operations: 0,
        }
    );
}

#[test]
fn batcher_cancels_opposite_operations() {
    let mut batcher = IndexBatcher::new_mutex(fresh_index(), manual());
    batcher.batch_add(path("a.b")).unwrap();
    batcher.batch_remove(path("a.b")).unwrap();
    assert_eq!(batcher.pending_count(), 0);
    assert!(!batcher.has_pending(&path("a.b")));
    assert_eq!(
        batcher.stats(),
        BatcherStats {
            total_operations: 2,
            total_batches: 0,
            total_adds: 1,
            total_removes: 0,
            eliminated_operations: 1,
        }
    );

    batcher.batch_remove(path("a.c")).unwrap();
    batcher.batch_add(path("a.c")).unwrap();
    assert_eq!(batcher.pending_count(), 0);
    assert_eq!(batcher.stats().eliminated_operations, 2);
    assert_eq!(batcher.stats().total_removes, 1);
}

#[test]
fn batcher_keeps_one_operation_per_path() {
    let mut batcher = IndexBatcher::new_rwlock(fresh_index(), manual());
    batcher.batch_add(path("a.b")).unwrap();
    batcher.batch_add(path("a.b")).unwrap();
    assert_eq!(batcher.pending_count(), 1);
    assert_eq!(batcher.stats().total_adds, 2);
    assert_eq!(batcher.stats().total_operations, 2);
    assert_eq!(batcher.stats().eliminated_operations, 0);
}

#[test]
fn batcher_flush_removes_then_adds() {
    let mut index = fresh_index();
    index.add_path(&path("old.one")).unwrap();
    index.add_path(&path("old.two")).unwrap();
    let mut batcher = IndexBatcher::new(index, manual());
    batcher.batch_remove(path("old.one")).unwrap();
    batcher.batch_add(path("old.three")).unwrap();
    batcher.flush().unwrap();
    let found = batcher.index().find_prefix(&path("old")).unwrap();
    assert_eq!(found.len(), 2);
    assert!(found.contains(&path("old.two")));
    assert!(found.contains(&path("old.three")));
    assert_eq!(batcher.stats().total_batches, 1);
}

#[test]
fn batcher_flush_of_nothing_counts_no_batch() {
    let mut batcher = IndexBatcher::new(fresh_index(), manual());
    batcher.flush().unwrap();
    assert_eq!(batcher.stats().total_batches, 0);
}

#[test]
fn batcher_flushes_by_itself_at_the_limit() {
    let config = BatcherConfig { max_operations: 2, max_delay_ms: 3_600_000, auto_flush: true };
    let mut batcher = IndexBatcher::new(fresh_index(), config);
    batcher.batch_add(path("k.one")).unwrap();
    assert_eq!(batcher.pending_count(), 1);
    batcher.batch_add(path("k.two")).unwrap();
    assert_eq!(batcher.pending_count(), 0);
    assert_eq!(batcher.stats().total_batches, 1);
    assert_eq!(batcher.index().find_prefix(&path("k")).unwrap().len(), 2);
}

#[test]
fn batcher_flush_is_due_by_count_or_by_time() {
    let config = BatcherConfig { max_operations: 3, max_delay_ms: 100, auto_flush: true };
    let mut batcher = IndexBatcher::new(fresh_index(), config);
    assert!(!batcher.should_flush_after(Some(5000)));
    batcher.batch_add(path("k.one")).unwrap();
    if batcher.pending_count() == 1 {
        assert!(!batcher.should_flush_after(None));
        assert!(!batcher.should_flush_after(Some(99)));
        assert!(batcher.should_flush_after(Some(100)));
    }
    let mut quiet = IndexBatcher::new(fresh_index(), manual());
    quiet.batch_add(path("k.one")).unwrap();
    assert!(!quiet.should_flush_after(Some(5000)));
}

#[test]
fn batcher_flush_fails_on_a_path_the_index_refuses() {
    let mut batcher = IndexBatcher::new(fresh_index(), manual());
    let mut odd = Path::new();
    odd.push("a:b");
    batcher.batch_add(odd).unwrap();
    assert!(batcher.flush().is_err());
    assert_eq!(batcher.pending_count(), 0);
}

#[test]
fn milliseconds_are_clamped_to_sixty_four_bits() {
    assert_eq!(clamp_millis(0), 0);
    assert_eq!(clamp_millis(1500), 1500);
    assert_eq!(clamp_millis(u64::MAX as u128), u64::MAX);
    assert_eq!(clamp_millis(u64::MAX as u128 + 1), u64::MAX);
    assert_eq!(clamp_millis(u128::MAX), u64::MAX);
}

#[test]
fn index_refuses_a_path_it_cannot_hold() {
    let mut index = fresh_index();
    let mut odd = Path::new();
    odd.push("a:b");
    assert!(index.add_path(&odd).is_err());
    assert!(index.remove_path(&odd).is_ok());
    index.add_path(&path("k.one")).unwrap();
    assert_eq!(index.find_prefix(&path("k")).unwrap(), vec![path("k.one")]);
    index.clear().unwrap();
    assert!(index.find_prefix(&path("k")).unwrap().is_empty());
}
