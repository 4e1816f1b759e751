use hyperion::database::Hyperion;
use hyperion::entity::Entity;
use hyperion::errors::StoreError;
use hyperion::path::Path;
use hyperion::store::Store;
use hyperion::value::Value;
use std::str::FromStr;

fn path(text: &str) -> Path {
    Path::from_str(text).unwrap()
}

fn text(value: &str) -> Value {
    Value::String(value.to_string())
}

fn fill(db: &mut Hyperion) {
    db.set(path("users.u-123456.username"), text("alice")).unwrap();
    db.set(path("users.u-123456.email"), text("alice@example.com")).unwrap();
    db.set(path("users.u-123456.active"), Value::Boolean(true)).unwrap();
    db.set(path("users.u-654321.email"), text("bob@example.com")).unwrap();
}

fn check_filled(db: &mut Hyperion) {
    db.settle();
    assert_eq!(db.get(&path("users.u-123456.username")).unwrap(), text("alice"));
    assert_eq!(db.count().unwrap(), 4);
    assert_eq!(db.count_prefix(&path("users.u-123456")).unwrap(), 3);
    assert!(db.path_exists(&path("users.u-654321.email")).unwrap());
    assert!(!db.path_exists(&path("users.u-654321.username")).unwrap());

    let listed = db.list_prefix(&path("users.u-123456")).unwrap();
    assert_eq!(listed.len(), 3);
    assert!(listed.contains(&path("users.u-123456.active")));

    let mut emails = db.query(&path("users.*.email")).unwrap();
    emails.sort_by_key(|(p, _)| p.to_string());
    assert_eq!(
        emails,
        vec![
            (path("users.u-123456.email"), text("alice@example.com")),
            (path("users.u-654321.email"), text("bob@example.com")),
        ]
    );

    let user = db.get_entity(&path("users.u-123456")).unwrap();
    assert_eq!(user.field("username"), Some(&Entity::String("alice".to_string())));
    assert_eq!(user.field("active"), Some(&Entity::Boolean(true)));

    db.delete(&path("users.u-654321.email")).unwrap();
    assert_eq!(db.count().unwrap(), 3);
    assert!(matches!(db.get(&path("users.u-654321.email")), Err(StoreError::NotFound(_))));
    assert!(matches!(db.get_entity(&path("users.u-654321")), Err(StoreError::NotFound(_))));
    assert!(matches!(db.set(Path::new(), Value::Null), Err(StoreError::InvalidOperation(_))));
    db.flush().unwrap();
}

#[test]
fn database_in_memory() {
    let mut db = Hyperion::new_in_memory();
    assert_eq!(db.count().unwrap(), 0);
    assert_eq!(db.index_stats(), None);
    fill(&mut db);
    check_filled(&mut db);
}

#[test]
fn database_on_disk() {
    let place = format!("/tmp/hyperion-db-test-{}", uuid::Uuid::new_v4());
    {
        let mut db = Hyperion::new_persistent(&place).unwrap();
        assert!(db.index_stats().is_some());
        fill(&mut db);
        check_filled(&mut db);
    }
    {
        let mut db = Hyperion::new_persistent(&place).unwrap();
        db.settle();
        assert_eq!(db.count().unwrap(), 3);
        assert_eq!(db.get(&path("users.u-123456.username")).unwrap(), text("alice"));
        assert_eq!(db.list_prefix(&path("users")).unwrap().len(), 3);
    }
}
