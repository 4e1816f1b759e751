use hyperion::errors::StoreError;
use hyperion::memory::MemoryStore;
use hyperion::path::Path;
use hyperion::store::Store;
use hyperion::value::Value;
use std::str::FromStr;

#[test]
fn test_set_get() {
    let mut store = MemoryStore::new();

    let path = Path::from_str("users.u-123456.username").unwrap();
    let value = Value::String("alice".to_string());

    store.set(path.clone(), value.clone()).unwrap();

    let retrieved = store.get(&path).unwrap();
    assert_eq!(retrieved, value);
}

#[test]
fn test_delete() {
    let mut store = MemoryStore::new();

    let path = Path::from_str("users.u-123456.username").unwrap();
    let value = Value::String("alice".to_string());

    store.set(path.clone(), value).unwrap();
    assert!(store.path_exists(&path).unwrap());

    store.delete(&path).unwrap();
    assert!(!store.path_exists(&path).unwrap());

    // Should return NotFound error when trying to get deleted path
    assert!(matches!(store.get(&path), Err(StoreError::NotFound(_))));
}

#[test]
fn test_list_prefix() {
    let mut store = MemoryStore::new();

    // Add several paths under the same prefix
    store.set(Path::from_str("users.u-123456.username").unwrap(), Value::String("alice".to_string())).unwrap();
    store.set(Path::from_str("users.u-123456.email").unwrap(), Value::String("alice@example.com".to_string())).unwrap();
    store.set(Path::from_str("users.u-123456.profile.bio").unwrap(), Value::String("Software developer".to_string())).unwrap();

    // Add a path with a different prefix
    store.set(Path::from_str("posts.p-789012.title").unwrap(), Value::String("Hello World".to_string())).unwrap();

    let prefix = Path::from_str("users.u-123456").unwrap();
    let paths = store.list_prefix(&prefix).unwrap();

    assert_eq!(paths.len(), 3);
    assert!(paths.iter().all(|p| p.starts_with(&prefix)));

    // Count should match
    assert_eq!(store.count_prefix(&prefix).unwrap(), 3);
    assert_eq!(store.count().unwrap(), 4);
}

#[test]
fn test_query_single_wildcard() {
    let mut store = MemoryStore::new();

    // Add several user emails
    store.set(Path::from_str("users.u-123456.email").unwrap(), Value::String("alice@example.com".to_string())).unwrap();
    store.set(Path::from_str("users.u-789012.email").unwrap(), Value::String("bob@example.com".to_string())).unwrap();
    store.set(Path::from_str("users.u-345678.email").unwrap(), Value::String("charlie@example.com".to_string())).unwrap();

    // Add some other user data
    store.set(Path::from_str("users.u-123456.username").unwrap(), Value::String("alice".to_string())).unwrap();

    // Query all user emails
    let pattern = Path::from_str("users.*.email").unwrap();
    let results = store.query(&pattern).unwrap();

    assert_eq!(results.len(), 3);

    // All results should be email values
    for (path, value) in &results {
        assert!(path.to_string().ends_with(".email"));
        assert!(value.is_string());
    }
}

#[test]
fn test_query_multi_wildcard() {
    let mut store = MemoryStore::new();

    // Add nested bio fields at different levels
    store.set(Path::from_str("users.u-123456.bio").unwrap(), Value::String("Alice's bio".to_string())).unwrap();
    store.set(Path::from_str("users.u-789012.profile.bio").unwrap(), Value::String("Bob's bio".to_string())).unwrap();
    store.set(Path::from_str("users.u-345678.profile.details.bio").unwrap(), Value::String("Charlie's bio".to_string())).unwrap();

    // Add some non-bio fields
    store.set(Path::from_str("users.u-123456.email").unwrap(), Value::String("alice@example.com".to_string())).unwrap();

    // Query all bio fields at any level
    let pattern = Path::from_str("users.**.bio").unwrap();
    let results = store.query(&pattern).unwrap();

    assert_eq!(results.len(), 3);

    // All results should be bio values
    for (path, _) in &results {
        assert!(path.to_string().ends_with(".bio"));
    }
}

fn p(text: &str) -> Path {
    Path::from_str(text).unwrap()
}

fn s(text: &str) -> Value {
    Value::String(text.to_string())
}

fn sorted(paths: Vec<Path>) -> Vec<String> {
    let mut texts: Vec<String> = paths.iter().map(|p| p.to_string()).collect();
    texts.sort();
    texts
}

fn sorted_pairs(pairs: Vec<(Path, Value)>) -> Vec<(String, String)> {
    let mut texts: Vec<(String, String)> =
        pairs.iter().map(|(p, v)| (p.to_string(), v.to_string())).collect();
    texts.sort();
    texts
}

#[test]
fn memory_store_refuses_the_empty_path() {
    let mut store = MemoryStore::new();
    let empty = Path::new();
    assert_eq!(
        store.set(empty.clone(), Value::Null),
        Err(StoreError::InvalidOperation("Cannot set value at empty path".to_string()))
    );
    assert_eq!(
        store.get(&empty),
        Err(StoreError::InvalidOperation("Cannot get value at empty path".to_string()))
    );
    assert_eq!(
        store.delete(&empty),
        Err(StoreError::InvalidOperation("Cannot delete value at empty path".to_string()))
    );
    assert_eq!(
        store.path_exists(&empty),
        Err(StoreError::InvalidOperation("Cannot check empty path".to_string()))
    );
    assert_eq!(store.count().unwrap(), 0);
}

#[test]
fn memory_store_delete_of_missing_path() {
    let mut store = MemoryStore::new();
    store.set(p("a.b"), Value::Integer(1)).unwrap();
    assert_eq!(store.delete(&p("a.c")), Err(StoreError::NotFound(p("a.c"))));
    assert_eq!(store.get(&p("a.c")), Err(StoreError::NotFound(p("a.c"))));
    assert_eq!(store.count().unwrap(), 1);
}

#[test]
fn memory_store_round_trip_scalar() {
    let mut store = MemoryStore::new();
    store.set(p("users.u1.name"), s("alice")).unwrap();
    assert_eq!(store.get(&p("users.u1.name")).unwrap(), s("alice"));
    store.delete(&p("users.u1.name")).unwrap();
    assert_eq!(store.get(&p("users.u1.name")), Err(StoreError::NotFound(p("users.u1.name"))));
}

#[test]
fn memory_store_set_replaces() {
    let mut store = MemoryStore::new();
    store.set(p("a"), Value::Integer(1)).unwrap();
    store.set(p("b"), Value::Integer(2)).unwrap();
    store.set(p("a"), Value::Integer(3)).unwrap();
    assert_eq!(store.get(&p("a")).unwrap(), Value::Integer(3));
    assert_eq!(store.get(&p("b")).unwrap(), Value::Integer(2));
    assert_eq!(store.count().unwrap(), 2);
    store.flush().unwrap();
    assert_eq!(store.count().unwrap(), 2);
}

#[test]
fn memory_store_prefix_listing() {
    let mut store = MemoryStore::new();
    store.set(p("users.u1.name"), s("alice")).unwrap();
    store.set(p("users.u1.email"), s("a@x")).unwrap();
    store.set(p("users.u2.name"), s("bob")).unwrap();
    assert_eq!(
        sorted(store.list_prefix(&p("users.u1")).unwrap()),
        vec!["users.u1.email", "users.u1.name"]
    );
    assert_eq!(
        sorted_pairs(store.get_prefix(&p("users.u1")).unwrap()),
        vec![
            ("users.u1.email".to_string(), "\"a@x\"".to_string()),
            ("users.u1.name".to_string(), "\"alice\"".to_string())
        ]
    );
    assert_eq!(store.list_prefix(&Path::new()).unwrap().len(), 3);
    assert_eq!(store.count_prefix(&p("users")).unwrap(), 3);
    assert_eq!(store.count_prefix(&p("posts")).unwrap(), 0);
}

#[test]
fn memory_store_wildcard_queries() {
    let mut store = MemoryStore::new();
    store.set(p("users.u1.name"), s("alice")).unwrap();
    store.set(p("users.u1.email"), s("a@x")).unwrap();
    store.set(p("users.u2.name"), s("bob")).unwrap();
    assert_eq!(
        sorted_pairs(store.query(&p("users.*.name")).unwrap()),
        vec![
            ("users.u1.name".to_string(), "\"alice\"".to_string()),
            ("users.u2.name".to_string(), "\"bob\"".to_string())
        ]
    );
    let mut other = MemoryStore::new();
    other.set(p("users.u1.profile.bio"), s("dev")).unwrap();
    other.set(p("users.u2.bio"), s("ds")).unwrap();
    other.set(p("posts.p1.bio"), s("x")).unwrap();
    assert_eq!(
        sorted_pairs(other.query(&p("users.**.bio")).unwrap()),
        vec![
            ("users.u1.profile.bio".to_string(), "\"dev\"".to_string()),
            ("users.u2.bio".to_string(), "\"ds\"".to_string())
        ]
    );
    assert_eq!(
        sorted_pairs(other.query(&p("users.u2.bio")).unwrap()),
        vec![("users.u2.bio".to_string(), "\"ds\"".to_string())]
    );
    assert!(other.query(&p("users.u3.bio")).unwrap().is_empty());
}
