use hyperion::errors::StoreError;
use hyperion::index_key::{index_key_of, is_indexable, path_of_key};
use hyperion::index_system::IndexSystem;
use hyperion::index_types::{IndexImplementation, IndexOp, IndexStats};
use hyperion::index_worker::IndexWorker;
use hyperion::path::{Path, PathSegment};
use hyperion::prefix_index::PrefixIndex;
use hyperion::wildcard_index::{structural_key_of, WildcardIndex};
use std::str::FromStr;

fn temporary_db() -> sled::Db {
    sled::Config::new().temporary(true).open().unwrap()
}

fn prefix_index(db: &sled::Db) -> PrefixIndex {
    PrefixIndex::new(db.open_tree("prefix_index").unwrap())
}

fn wildcard_index(db: &sled::Db) -> WildcardIndex {
    WildcardIndex::new(
        db.open_tree("wildcard_single").unwrap(),
        db.open_tree("wildcard_multi").unwrap(),
    )
}

#[test]
fn test_persistent_prefix_index() {
    // Create a database at a place of its own
    let db_path = format!("/tmp/hyperion-test-{}", uuid::Uuid::new_v4());

    // Open the database
    let db = sled::open(&db_path).unwrap();

    {
        let mut index = prefix_index(&db);

        // Add some paths
        let path1 = Path::from_str("users.u-123456.username").unwrap();
        let path2 = Path::from_str("users.u-123456.email").unwrap();
        let path3 = Path::from_str("users.u-123456.profile.bio").unwrap();
        let path4 = Path::from_str("posts.p-789012.title").unwrap();

        index.add_path(&path1).unwrap();
        index.add_path(&path2).unwrap();
        index.add_path(&path3).unwrap();
        index.add_path(&path4).unwrap();

        // Test finding by exact prefix
        let user_prefix = Path::from_str("users.u-123456").unwrap();
        let user_results = index.find_by_prefix(&user_prefix).unwrap();

        assert_eq!(user_results.len(), 3);
        assert!(user_results.iter().any(|p| p == &path1));
        assert!(user_results.iter().any(|p| p == &path2));
        assert!(user_results.iter().any(|p| p == &path3));

        // Test finding by another prefix
        let posts_prefix = Path::from_str("posts").unwrap();
        let posts_results = index.find_by_prefix(&posts_prefix).unwrap();

        assert_eq!(posts_results.len(), 1);
        assert!(posts_results.iter().any(|p| p == &path4));

        // Test removing a path
        index.remove_path(&path1).unwrap();

        let user_results_after = index.find_by_prefix(&user_prefix).unwrap();
        assert_eq!(user_results_after.len(), 2);
        assert!(!user_results_after.iter().any(|p| p == &path1));
    }
    db.flush().unwrap();
    drop(db);

    // Reopen the database to test persistence
    {
        let db_reopened = sled::Config::new().path(&db_path).temporary(true).open().unwrap();
        let index = prefix_index(&db_reopened);

        // Check if index was persisted
        let user_prefix = Path::from_str("users.u-123456").unwrap();
        let user_results = index.find_by_prefix(&user_prefix).unwrap();

        // We removed one path, so should have 2 results
        assert_eq!(user_results.len(), 2);

        let posts_prefix = Path::from_str("posts").unwrap();
        let posts_results = index.find_by_prefix(&posts_prefix).unwrap();

        assert_eq!(posts_results.len(), 1);
    }
}

#[test]
fn test_wildcard_index_single() {
    let db = temporary_db();

    let mut index = wildcard_index(&db);

    // Add paths to the index
    let path1 = Path::from_str("users.u-123456.username").unwrap();
    let path2 = Path::from_str("users.u-789012.username").unwrap();
    let path3 = Path::from_str("users.u-123456.email").unwrap();
    let path4 = Path::from_str("posts.p-789012.title").unwrap();

    index.add_path(&path1).unwrap();
    index.add_path(&path2).unwrap();
    index.add_path(&path3).unwrap();
    index.add_path(&path4).unwrap();

    // Test single wildcard patterns
    let pattern1 = Path::from_str("users.*.username").unwrap();
    let results1 = index.find_by_pattern(&pattern1).unwrap();

    assert_eq!(results1.len(), 2);
    assert!(results1.iter().any(|p| p == &path1));
    assert!(results1.iter().any(|p| p == &path2));

    let pattern2 = Path::from_str("users.u-123456.*").unwrap();
    let results2 = index.find_by_pattern(&pattern2).unwrap();

    assert_eq!(results2.len(), 2);
    assert!(results2.iter().any(|p| p == &path1));
    assert!(results2.iter().any(|p| p == &path3));
}

#[test]
fn test_wildcard_index_multi() {
    let db = temporary_db();

    let mut index = wildcard_index(&db);

    // Add paths to the index
    let path1 = Path::from_str("users.u-123456.profile.bio").unwrap();
    let path2 = Path::from_str("users.u-789012.profile.bio").unwrap();
    let path3 = Path::from_str("users.u-123456.bio").unwrap();
    let path4 = Path::from_str("posts.p-789012.content.bio").unwrap();

    index.add_path(&path1).unwrap();
    index.add_path(&path2).unwrap();
    index.add_path(&path3).unwrap();
    index.add_path(&path4).unwrap();

    // Test multi-level wildcard patterns
    let pattern1 = Path::from_str("users.**.bio").unwrap();
    let results1 = index.find_by_pattern(&pattern1).unwrap();

    assert_eq!(results1.len(), 3);
    assert!(results1.iter().any(|p| p == &path1));
    assert!(results1.iter().any(|p| p == &path2));
    assert!(results1.iter().any(|p| p == &path3));

    let pattern2 = Path::from_str("**.content.bio").unwrap();
    let results2 = index.find_by_pattern(&pattern2).unwrap();

    assert_eq!(results2.len(), 1);
    assert!(results2.iter().any(|p| p == &path4));
}

#[test]
fn test_wildcard_index_remove() {
    let db = temporary_db();

    let mut index = wildcard_index(&db);

    // Add paths to the index
    let path1 = Path::from_str("users.u-123456.username").unwrap();
    let path2 = Path::from_str("users.u-789012.username").unwrap();

    index.add_path(&path1).unwrap();
    index.add_path(&path2).unwrap();

    // Test before removal
    let pattern = Path::from_str("users.*.username").unwrap();
    let results_before = index.find_by_pattern(&pattern).unwrap();
    assert_eq!(results_before.len(), 2);

    // Remove one path
    index.remove_path(&path1).unwrap();

    // Test after removal
    let results_after = index.find_by_pattern(&pattern).unwrap();
    assert_eq!(results_after.len(), 1);
    assert!(results_after.iter().any(|p| p == &path2));
}

fn p(text: &str) -> Path {
    Path::from_str(text).unwrap()
}

fn sorted(paths: Vec<Path>) -> Vec<String> {
    let mut texts: Vec<String> = paths.iter().map(|p| p.to_string()).collect();
    texts.sort();
    texts
}

#[test]
fn index_keys_join_with_colons() {
    assert_eq!(index_key_of(&p("users.u1.name")), b"users:u1:name".to_vec());
    assert_eq!(index_key_of(&p("t[3].*")), b"t:[3]:*".to_vec());
    assert_eq!(index_key_of(&Path::new()), Vec::<u8>::new());
    assert_eq!(path_of_key(&b"users:u1:name".to_vec()), Some(p("users.u1.name")));
    assert_eq!(path_of_key(&b"a.b:[2]".to_vec()).unwrap().len(), 2);
    assert_eq!(path_of_key(&b"a:[007]".to_vec()), None);
    assert_eq!(path_of_key(&vec![0xff, 0xfe]), None);
    assert!(is_indexable(&p("users.u1.name")));
    assert!(is_indexable(&p("a.[4].**")));
    assert!(!is_indexable(&Path::new()));
    let with_colon = Path::from_segments(vec![PathSegment::new("a:b")]);
    assert!(!is_indexable(&with_colon));
    let star_name = Path::from_segments(vec![PathSegment::named("*".to_string())]);
    assert!(!is_indexable(&star_name));
}

#[test]
fn structural_keys() {
    assert_eq!(
        structural_key_of(&p("users.*.name")),
        b"len=3:0=users:1=*:2=name".to_vec()
    );
    assert_eq!(structural_key_of(&Path::new()), b"len=0".to_vec());
    assert_eq!(structural_key_of(&p("a.[12]")), b"len=2:0=a:1=[12]".to_vec());
}

#[test]
fn prefix_index_finds_exactly_the_paths_under_a_prefix() {
    let db = temporary_db();
    let mut index = prefix_index(&db);
    for text in ["users.u1.name", "users.u1.email", "users.u2.name", "users-x.y", "users", "userz.a"] {
        index.add_path(&p(text)).unwrap();
    }
    assert_eq!(
        sorted(index.find_by_prefix(&p("users")).unwrap()),
        vec!["users", "users.u1.email", "users.u1.name", "users.u2.name"]
    );
    assert_eq!(
        sorted(index.find_by_prefix(&p("users.u1")).unwrap()),
        vec!["users.u1.email", "users.u1.name"]
    );
    assert_eq!(index.find_by_prefix(&Path::new()).unwrap().len(), 6);
    assert_eq!(
        sorted(index.find_by_prefix(&p("users.*.name")).unwrap()),
        vec!["users.u1.name", "users.u2.name"]
    );
    assert_eq!(
        sorted(index.find_by_pattern(&p("users.*.name")).unwrap()),
        vec!["users.u1.name", "users.u2.name"]
    );
    assert_eq!(sorted(index.find_by_pattern(&p("users")).unwrap()), vec!["users"]);
    assert!(index.find_by_pattern(&p("users.u1")).unwrap().is_empty());
    assert_eq!(index.contains(&p("users.u1.name")), Ok(true));
    assert_eq!(index.contains(&p("users.u1")), Ok(false));
    assert_eq!(index.name(), "PrefixIndex");
    index.clear().unwrap();
    assert!(index.find_by_prefix(&Path::new()).unwrap().is_empty());
}

#[test]
fn indexes_refuse_what_cannot_be_indexed() {
    let db = temporary_db();
    let mut prefix = prefix_index(&db);
    let mut wildcard = wildcard_index(&db);
    let with_colon = Path::from_segments(vec![PathSegment::new("a:b")]);
    let refused = Err(StoreError::InvalidOperation("Path cannot be indexed".to_string()));
    assert_eq!(prefix.add_path(&with_colon), refused);
    assert_eq!(wildcard.add_path(&with_colon), refused);
    assert_eq!(prefix.add_path(&Path::new()), refused);
    assert_eq!(wildcard.add_path(&Path::new()), refused);
    prefix.add_path(&p("a.b")).unwrap();
    assert_eq!(prefix.remove_path(&with_colon), Ok(()));
    assert_eq!(wildcard.remove_path(&with_colon), Ok(()));
    assert_eq!(sorted(prefix.find_by_prefix(&Path::new()).unwrap()), vec!["a.b"]);
    assert!(wildcard.find_by_prefix(&Path::new()).unwrap().is_empty());
}

#[test]
fn wildcard_index_patterns_of_every_shape() {
    let db = temporary_db();
    let mut index = wildcard_index(&db);
    for text in [
        "users.u1.profile.bio",
        "users.u2.bio",
        "posts.p1.bio",
        "users.u1.name",
        "users.u2.name",
        "a",
    ] {
        index.add_path(&p(text)).unwrap();
    }
    index.add_path(&p("users.u2.name")).unwrap();
    assert_eq!(
        sorted(index.find_by_pattern(&p("users.**.bio")).unwrap()),
        vec!["users.u1.profile.bio", "users.u2.bio"]
    );
    assert_eq!(
        sorted(index.find_by_pattern(&p("users.**")).unwrap()),
        vec!["users.u1.name", "users.u1.profile.bio", "users.u2.bio", "users.u2.name"]
    );
    assert_eq!(index.find_by_pattern(&p("**")).unwrap().len(), 6);
    assert_eq!(
        sorted(index.find_by_pattern(&p("**.bio")).unwrap()),
        vec!["posts.p1.bio", "users.u1.profile.bio", "users.u2.bio"]
    );
    assert_eq!(
        sorted(index.find_by_pattern(&p("**.*.bio")).unwrap()),
        vec!["posts.p1.bio", "users.u1.profile.bio", "users.u2.bio"]
    );
    assert_eq!(
        sorted(index.find_by_pattern(&p("users.**.profile.**")).unwrap()),
        vec!["users.u1.profile.bio"]
    );
    assert_eq!(
        sorted(index.find_by_pattern(&p("*.*.bio")).unwrap()),
        vec!["posts.p1.bio", "users.u2.bio"]
    );
    assert_eq!(
        sorted(index.find_by_pattern(&p("users.*.name")).unwrap()),
        vec!["users.u1.name", "users.u2.name"]
    );
    assert_eq!(sorted(index.find_by_pattern(&p("*")).unwrap()), vec!["a"]);
    assert_eq!(sorted(index.find_by_pattern(&p("users.u2.bio")).unwrap()), vec!["users.u2.bio"]);
    assert!(index.find_by_pattern(&p("users.u3.bio")).unwrap().is_empty());
    assert_eq!(
        sorted(index.find_by_prefix(&p("users.u1")).unwrap()),
        vec!["users.u1.name", "users.u1.profile.bio"]
    );
    assert_eq!(index.name(), "WildcardIndex");
    index.remove_path(&p("users.u2.bio")).unwrap();
    assert_eq!(
        sorted(index.find_by_pattern(&p("users.**.bio")).unwrap()),
        vec!["users.u1.profile.bio"]
    );
    index.clear().unwrap();
    assert!(index.find_by_pattern(&p("**")).unwrap().is_empty());
}

#[test]
fn worker_queue_and_counters() {
    let mut worker = IndexWorker::new();
    assert_eq!(
        worker.submit_operation(IndexOp::Flush),
        Err(StoreError::Internal("Index worker not started".to_string()))
    );
    worker.start();
    assert!(worker.has_room());
    worker.submit_operation(IndexOp::Add(p("a"))).unwrap();
    worker.submit_operation(IndexOp::Flush).unwrap();
    worker.submit_operation(IndexOp::Remove(p("a"))).unwrap();
    assert_eq!(worker.queue_len(), 3);
    assert_eq!(worker.get_stats().pending_operations, 2);
    assert_eq!(worker.next_operation(), Some(IndexOp::Add(p("a"))));
    worker.record_applied(true);
    assert_eq!(worker.next_operation(), Some(IndexOp::Flush));
    assert_eq!(worker.next_operation(), Some(IndexOp::Remove(p("a"))));
    worker.record_applied(false);
    assert_eq!(worker.next_operation(), None);
    assert_eq!(
        worker.get_stats(),
        IndexStats { total_operations: 2, total_adds: 1, total_removes: 1, pending_operations: 0 }
    );
    worker.record_applied(false);
    assert_eq!(worker.get_stats().pending_operations, 0);
    worker.close();
    assert_eq!(
        worker.submit_operation(IndexOp::Flush),
        Err(StoreError::Internal("Failed to send operation to index worker".to_string()))
    );
    assert_eq!(IndexStats::default().total_operations, 0);
}

#[test]
fn index_system_applies_operations_in_order() {
    let db = temporary_db();
    let mut system = IndexSystem::new(
        db.open_tree("p").unwrap(),
        db.open_tree("s").unwrap(),
        db.open_tree("m").unwrap(),
    );
    system.add_path(p("users.u1.name")).unwrap();
    system.add_path(p("users.u1.name")).unwrap();
    system.remove_path(p("users.u1.name")).unwrap();
    system.add_path(p("users.u2.name")).unwrap();
    system.flush().unwrap();
    assert_eq!(system.pending_len(), 5);
    assert!(system.find_by_prefix(&p("users")).unwrap().is_empty());
    assert!(system.process_next());
    assert_eq!(sorted(system.find_by_prefix(&p("users")).unwrap()), vec!["users.u1.name"]);
    system.drain();
    assert_eq!(system.pending_len(), 0);
    assert!(!system.process_next());
    assert_eq!(sorted(system.find_by_prefix(&p("users")).unwrap()), vec!["users.u2.name"]);
    assert_eq!(sorted(system.find_by_pattern(&p("users.*.name")).unwrap()), vec!["users.u2.name"]);
    assert_eq!(sorted(system.find_by_pattern(&p("users.u2.name")).unwrap()), vec!["users.u2.name"]);
    assert_eq!(system.fault_total(), 0);
    assert_eq!(
        system.stats(),
        IndexStats { total_operations: 4, total_adds: 3, total_removes: 1, pending_operations: 0 }
    );
    system.shutdown();
    assert!(matches!(system.add_path(p("x")), Err(StoreError::Internal(_))));
    system.clear().unwrap();
    assert!(system.find_by_prefix(&Path::new()).unwrap().is_empty());
}

#[test]
fn index_system_makes_room_in_a_full_queue() {
    let db = temporary_db();
    let mut system = IndexSystem::new(
        db.open_tree("p").unwrap(),
        db.open_tree("s").unwrap(),
        db.open_tree("m").unwrap(),
    );
    for i in 0..1005 {
        system.add_path(p(&format!("n.k{}", i % 3))).unwrap();
    }
    assert_eq!(system.pending_len(), 1000);
    system.drain();
    assert_eq!(sorted(system.find_by_prefix(&p("n")).unwrap()), vec!["n.k0", "n.k1", "n.k2"]);
}

#[test]
fn index_system_counts_what_an_index_applied() {
    let db = temporary_db();
    let mut system = IndexSystem::new(
        db.open_tree("p").unwrap(),
        db.open_tree("s").unwrap(),
        db.open_tree("m").unwrap(),
    );
    let mut odd = Path::new();
    odd.push("a:b");
    system.add_path(odd).unwrap();
    system.add_path(Path::from_str("a.b").unwrap()).unwrap();
    assert_eq!(
        system.stats(),
        IndexStats { total_operations: 0, total_adds: 0, total_removes: 0, pending_operations: 2 }
    );
    assert_eq!(system.pending_len(), 2);
    assert!(system.process_next());
    assert_eq!(
        system.stats(),
        IndexStats { total_operations: 0, total_adds: 0, total_removes: 0, pending_operations: 2 }
    );
    system.flush().unwrap();
    system.drain();
    assert_eq!(
        system.stats(),
        IndexStats { total_operations: 1, total_adds: 1, total_removes: 0, pending_operations: 1 }
    );
    assert_eq!(system.fault_total(), 0);
}

#[test]
fn a_shutdown_ends_the_taking_of_operations() {
    let db = temporary_db();
    let mut system = IndexSystem::new(
        db.open_tree("p").unwrap(),
        db.open_tree("s").unwrap(),
        db.open_tree("m").unwrap(),
    );
    system.add_path(p("a.b")).unwrap();
    system.submit(IndexOp::Shutdown).unwrap();
    assert!(!system.is_accepting());
    assert!(matches!(system.add_path(p("a.c")), Err(StoreError::Internal(_))));
    assert!(matches!(system.submit(IndexOp::Flush), Err(StoreError::Internal(_))));
    assert!(matches!(system.submit(IndexOp::Shutdown), Err(StoreError::Internal(_))));
    assert_eq!(system.pending_len(), 2);
    assert!(system.process_next());
    assert_eq!(sorted(system.find_by_prefix(&p("a")).unwrap()), vec!["a.b"]);
    assert!(system.process_next());
    assert_eq!(system.pending_len(), 0);
    assert!(!system.process_next());
    assert!(!system.is_accepting());
    assert_eq!(sorted(system.find_by_prefix(&p("a")).unwrap()), vec!["a.b"]);
}

#[test]
fn worker_queue_in_order() {
    let mut worker = IndexWorker::new();
    assert!(!worker.is_accepting());
    assert!(matches!(worker.submit_operation(IndexOp::Flush), Err(StoreError::Internal(_))));
    worker.start();
    assert!(worker.is_accepting());
    worker.submit_operation(IndexOp::Add(p("a"))).unwrap();
    worker.submit_operation(IndexOp::Shutdown).unwrap();
    assert!(!worker.is_accepting());
    assert!(matches!(worker.submit_operation(IndexOp::Add(p("b"))), Err(StoreError::Internal(_))));
    assert_eq!(worker.queue_len(), 2);
    assert_eq!(worker.next_operation(), Some(IndexOp::Add(p("a"))));
    assert_eq!(worker.next_operation(), Some(IndexOp::Shutdown));
    assert_eq!(worker.next_operation(), None);
    assert_eq!(worker.get_stats().pending_operations, 1);
}
