use hyperion::entity::{reconstruct_entity, Entity};
use hyperion::errors::StoreError;
use hyperion::number::Number;
use hyperion::path::{Path, PathSegment};
use hyperion::persistent::PersistentStore;
use hyperion::store::Store;
use hyperion::value::Value;
use std::str::FromStr;

fn p(text: &str) -> Path {
    Path::from_str(text).unwrap()
}

fn s(text: &str) -> Value {
    Value::String(text.to_string())
}

fn sorted(paths: Vec<Path>) -> Vec<String> {
    let mut texts: Vec<String> = paths.iter().map(|p| p.to_string()).collect();
    texts.sort();
    texts
}

fn sorted_pairs(pairs: Vec<(Path, Value)>) -> Vec<(String, String)> {
    let mut texts: Vec<(String, String)> =
        pairs.iter().map(|(p, v)| (p.to_string(), v.to_string())).collect();
    texts.sort();
    texts
}

fn pair(path: &str, value: &str) -> (String, String) {
    (path.to_string(), format!("\"{}\"", value))
}

#[test]
fn persistent_round_trip_scalar() {
    let mut store = PersistentStore::open_temporary().unwrap();
    store.set(p("users.u1.name"), s("alice")).unwrap();
    assert_eq!(store.get(&p("users.u1.name")).unwrap(), s("alice"));
    assert_eq!(store.path_exists(&p("users.u1.name")), Ok(true));
    store.delete(&p("users.u1.name")).unwrap();
    assert_eq!(store.get(&p("users.u1.name")), Err(StoreError::NotFound(p("users.u1.name"))));
    assert_eq!(store.path_exists(&p("users.u1.name")), Ok(false));
}

#[test]
fn persistent_prefix_listing_after_drain() {
    let mut store = PersistentStore::open_temporary().unwrap();
    store.set(p("users.u1.name"), s("alice")).unwrap();
    store.set(p("users.u1.email"), s("a@x")).unwrap();
    store.set(p("users.u2.name"), s("bob")).unwrap();
    assert!(store.list_prefix(&p("users.u1")).unwrap().is_empty());
    assert_eq!(store.pending_operations(), 3);
    store.flush().unwrap();
    store.drain();
    assert_eq!(store.pending_operations(), 0);
    assert_eq!(store.index_faults(), 0);
    assert_eq!(
        sorted(store.list_prefix(&p("users.u1")).unwrap()),
        vec!["users.u1.email", "users.u1.name"]
    );
    assert_eq!(store.count_prefix(&p("users")).unwrap(), 3);
    assert_eq!(store.count().unwrap(), 3);
    for text in ["users.u1.name", "users.u1.email", "users.u2.name"] {
        let path = p(text);
        for k in 0..=path.len() {
            let found = store.list_prefix(&path.prefix(k)).unwrap();
            assert!(found.iter().any(|q| q == &path));
        }
    }
}

#[test]
fn persistent_single_wildcard_query() {
    let mut store = PersistentStore::open_temporary().unwrap();
    store.set(p("users.u1.name"), s("alice")).unwrap();
    store.set(p("users.u1.email"), s("a@x")).unwrap();
    store.set(p("users.u2.name"), s("bob")).unwrap();
    store.flush().unwrap();
    store.drain();
    assert_eq!(
        sorted_pairs(store.query(&p("users.*.name")).unwrap()),
        vec![pair("users.u1.name", "alice"), pair("users.u2.name", "bob")]
    );
}

#[test]
fn persistent_multi_wildcard_query() {
    let mut store = PersistentStore::open_temporary().unwrap();
    store.set(p("users.u1.profile.bio"), s("dev")).unwrap();
    store.set(p("users.u2.bio"), s("ds")).unwrap();
    store.set(p("posts.p1.bio"), s("x")).unwrap();
    store.flush().unwrap();
    store.drain();
    assert_eq!(
        sorted_pairs(store.query(&p("users.**.bio")).unwrap()),
        vec![pair("users.u1.profile.bio", "dev"), pair("users.u2.bio", "ds")]
    );
    assert_eq!(
        sorted_pairs(store.query(&p("users.u2.bio")).unwrap()),
        vec![pair("users.u2.bio", "ds")]
    );
}

#[test]
fn persistent_entity_with_array() {
    let mut store = PersistentStore::open_temporary().unwrap();
    store.set(p("users.u1.name"), s("alice")).unwrap();
    store.set(p("users.u1.tags[0]"), s("rust")).unwrap();
    store.set(p("users.u1.tags[1]"), s("db")).unwrap();
    let entity = reconstruct_entity(&store, &p("users.u1")).unwrap();
    assert_eq!(entity.field("name"), Some(&Entity::String("alice".to_string())));
    assert_eq!(
        entity.field("tags"),
        Some(&Entity::Array(vec![
            Entity::String("rust".to_string()),
            Entity::String("db".to_string())
        ]))
    );
    match &entity {
        Entity::Object(fields) => assert_eq!(fields.len(), 2),
        _ => panic!("Expected object entity"),
    }
}

#[test]
fn persistent_store_refuses_the_empty_path() {
    let mut store = PersistentStore::open_temporary().unwrap();
    let empty = Path::new();
    assert_eq!(
        store.set(empty.clone(), Value::Null),
        Err(StoreError::InvalidOperation("Cannot set value at empty path".to_string()))
    );
    assert_eq!(
        store.get(&empty),
        Err(StoreError::InvalidOperation("Cannot get value at empty path".to_string()))
    );
    assert_eq!(
        store.delete(&empty),
        Err(StoreError::InvalidOperation("Cannot delete value at empty path".to_string()))
    );
    assert_eq!(
        store.path_exists(&empty),
        Err(StoreError::InvalidOperation("Cannot check empty path".to_string()))
    );
    assert_eq!(store.delete(&p("missing")), Err(StoreError::NotFound(p("missing"))));
    assert_eq!(store.pending_operations(), 0);
}

#[test]
fn persistent_store_keeps_every_kind_of_value() {
    let mut store = PersistentStore::open_temporary().unwrap();
    let values = vec![
        Value::Null,
        Value::Boolean(true),
        Value::Boolean(false),
        Value::Integer(0),
        Value::Integer(-1),
        Value::Integer(i64::MIN),
        Value::Integer(i64::MAX),
        Value::Float(Number::parse("3.14").unwrap()),
        Value::Float(Number::parse("NaN").unwrap()),
        Value::Float(Number::parse("-inf").unwrap()),
        s(""),
        s("héllo \"wörld\""),
        Value::Binary(vec![0, 1, 2, 255], None),
        Value::Binary(Vec::new(), Some("image/jpeg".to_string())),
        Value::Reference(p("users.u-1.tags[3].*")),
        Value::Reference(Path::new()),
    ];
    for (i, value) in values.iter().enumerate() {
        store.set(p(&format!("v.k{}", i)), value.clone()).unwrap();
    }
    for (i, value) in values.iter().enumerate() {
        assert_eq!(&store.get(&p(&format!("v.k{}", i))).unwrap(), value);
    }
    assert_eq!(store.count().unwrap(), values.len());
    assert_eq!(store.get_prefix(&p("v")).unwrap().len(), values.len());
    assert!(store.get_prefix(&p("w")).unwrap().is_empty());
}

#[test]
fn persistent_store_tells_odd_paths_apart() {
    let mut store = PersistentStore::open_temporary().unwrap();
    let with_colon = Path::from_segments(vec![PathSegment::new("a:b")]);
    let with_dot = Path::from_segments(vec![PathSegment::new("a.b")]);
    let star_name = Path::from_segments(vec![PathSegment::named("*".to_string())]);
    store.set(with_colon.clone(), Value::Integer(1)).unwrap();
    store.set(with_dot.clone(), Value::Integer(2)).unwrap();
    store.set(p("a.b"), Value::Integer(3)).unwrap();
    store.set(star_name.clone(), Value::Integer(4)).unwrap();
    store.set(p("*"), Value::Integer(5)).unwrap();
    assert_eq!(store.get(&with_colon).unwrap(), Value::Integer(1));
    assert_eq!(store.get(&with_dot).unwrap(), Value::Integer(2));
    assert_eq!(store.get(&p("a.b")).unwrap(), Value::Integer(3));
    assert_eq!(store.get(&star_name).unwrap(), Value::Integer(4));
    assert_eq!(store.get(&p("*")).unwrap(), Value::Integer(5));
    assert_eq!(store.count().unwrap(), 5);
    store.drain();
    assert_eq!(store.index_faults(), 0);
    assert_eq!(store.list_prefix(&Path::new()).unwrap().len(), 3);
}

#[test]
fn persistent_store_follows_sets_and_deletes_in_order() {
    let mut store = PersistentStore::open_temporary().unwrap();
    store.set(p("k.a"), Value::Integer(1)).unwrap();
    store.set(p("k.a"), Value::Integer(2)).unwrap();
    store.delete(&p("k.a")).unwrap();
    store.set(p("k.b"), Value::Integer(3)).unwrap();
    assert!(store.process_next());
    assert_eq!(sorted(store.list_prefix(&p("k")).unwrap()), vec!["k.a"]);
    store.drain();
    assert_eq!(sorted(store.list_prefix(&p("k")).unwrap()), vec!["k.b"]);
    assert_eq!(sorted_pairs(store.query(&p("k.*")).unwrap()), vec![("k.b".to_string(), "3".to_string())]);
    let stats = store.index_stats();
    assert_eq!(stats.total_adds, 3);
    assert_eq!(stats.total_removes, 1);
    assert_eq!(stats.total_operations, 4);
    assert_eq!(stats.pending_operations, 0);
    assert!(!store.process_next());
}

#[test]
fn persistent_store_rebuilds_its_indexes_on_open() {
    let place = format!("/tmp/hyperion-test-{}", uuid::Uuid::new_v4());
    {
        let mut store = PersistentStore::open(&place).unwrap();
        store.set(p("users.u1.name"), s("alice")).unwrap();
        store.set(p("users.u2.name"), s("bob")).unwrap();
        store.flush().unwrap();
    }
    {
        let mut store = PersistentStore::open(&place).unwrap();
        assert_eq!(store.pending_operations(), 0);
        assert_eq!(
            sorted(store.list_prefix(&p("users")).unwrap()),
            vec!["users.u1.name", "users.u2.name"]
        );
        assert_eq!(store.query(&p("users.*.name")).unwrap().len(), 2);
        assert_eq!(store.get(&p("users.u2.name")).unwrap(), s("bob"));
        store.shutdown();
        store.set(p("users.u3.name"), s("carol")).unwrap();
        store.drain();
        assert_eq!(store.list_prefix(&p("users")).unwrap().len(), 2);
        store.delete(&p("users.u1.name")).unwrap();
        store.delete(&p("users.u2.name")).unwrap();
        store.delete(&p("users.u3.name")).unwrap();
        store.flush().unwrap();
    }
    let _ = sled::Config::new().path(&place).temporary(true).open();
}

#[test]
fn persistent_store_reports_a_value_it_cannot_read() {
    let place = format!("/tmp/hyperion-test-{}", uuid::Uuid::new_v4());
    {
        let db = sled::open(&place).unwrap();
        let key = hyperion::codec::encode_path(&p("users.u1.name"));
        db.insert(key, vec![250u8, 1, 2]).unwrap();
        let good = hyperion::codec::encode_path(&p("users.u2.name"));
        db.insert(good, hyperion::codec::encode_value(&s("bob"))).unwrap();
        db.flush().unwrap();
    }
    let mut store = PersistentStore::open(&place).unwrap();
    store.drain();
    assert!(matches!(
        store.get(&p("users.u1.name")),
        Err(StoreError::DeserializationError(_))
    ));
    assert_eq!(store.get(&p("users.u2.name")), Ok(s("bob")));
    assert_eq!(store.path_exists(&p("users.u2.name")), Ok(true));
}

#[test]
fn persistent_store_reports_what_failed_with_the_engine() {
    match PersistentStore::open("/proc/hyperion-no-such-place/db") {
        Err(StoreError::Internal(message)) => {
            assert!(message.starts_with("Failed to open database: "), "{}", message);
            assert!(message.len() > "Failed to open database: ".len());
        }
        Err(other) => panic!("{:?}", other),
        Ok(_) => panic!("a database was opened where none can be"),
    }
}

#[test]
fn persistent_store_keeps_endpoints_in_the_default_tree() {
    let place = format!("/tmp/hyperion-test-{}", uuid::Uuid::new_v4());
    {
        let mut store = PersistentStore::open(&place).unwrap();
        store.set(p("users.u1.name"), s("alice")).unwrap();
        store.flush().unwrap();
        store.drain();
    }
    let db = sled::open(&place).unwrap();
    let key = hyperion::codec::encode_path(&p("users.u1.name"));
    let bytes = db.get(key).unwrap().unwrap();
    assert_eq!(bytes.to_vec(), hyperion::codec::encode_value(&s("alice")));
    assert_eq!(db.len(), 1);
}

#[test]
fn persistent_store_shutdown_applies_what_waits() {
    let mut store = PersistentStore::open_temporary().unwrap();
    store.set(p("users.u1.name"), s("alice")).unwrap();
    store.set(p("users.u2.name"), s("bob")).unwrap();
    store.delete(&p("users.u2.name")).unwrap();
    assert!(store.is_indexing());
    assert_eq!(store.pending_operations(), 3);
    store.shutdown();
    assert!(!store.is_indexing());
    assert_eq!(store.pending_operations(), 0);
    assert_eq!(sorted(store.list_prefix(&p("users")).unwrap()), vec!["users.u1.name"]);
    assert_eq!(store.query(&p("users.*.name")).unwrap().len(), 1);
    let stats = store.index_stats();
    assert_eq!(stats.total_adds, 2);
    assert_eq!(stats.total_removes, 1);
    assert_eq!(stats.pending_operations, 0);

    store.set(p("users.u3.name"), s("carol")).unwrap();
    assert_eq!(store.pending_operations(), 0);
    assert_eq!(store.get(&p("users.u3.name")), Ok(s("carol")));
    assert!(matches!(store.rebuild_indexes(), Err(StoreError::Internal(_))));
    assert_eq!(sorted(store.list_prefix(&p("users")).unwrap()), vec!["users.u1.name"]);
}

#[test]
fn persistent_store_failed_writes_hand_nothing_to_the_worker() {
    let mut store = PersistentStore::open_temporary().unwrap();
    store.set(p("users.u1.name"), s("alice")).unwrap();
    store.drain();
    let before = store.index_stats();
    assert!(matches!(store.set(Path::new(), s("x")), Err(StoreError::InvalidOperation(_))));
    assert!(matches!(store.delete(&Path::new()), Err(StoreError::InvalidOperation(_))));
    assert_eq!(store.delete(&p("users.u9.name")), Err(StoreError::NotFound(p("users.u9.name"))));
    assert_eq!(store.pending_operations(), 0);
    assert_eq!(store.index_stats(), before);
    assert_eq!(store.count(), Ok(1));
}
