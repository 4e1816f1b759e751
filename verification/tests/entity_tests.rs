use hyperion::entity::{
    entity_from_endpoints, entity_to_value, get_remaining_segments, insert_into_entity,
    reconstruct_entity, Entity,
};
use hyperion::errors::StoreError;
use hyperion::memory::MemoryStore;
use hyperion::number::Number;
use hyperion::path::Path;
use hyperion::store::Store;
use hyperion::value::Value;
use std::str::FromStr;

#[test]
fn test_basic_entity_reconstruction() {
    let mut store = MemoryStore::new();

    // Add several paths under the same prefix
    store.set(Path::from_str("users.u-123456.username").unwrap(), Value::String("alice".to_string())).unwrap();
    store.set(Path::from_str("users.u-123456.email").unwrap(), Value::String("alice@example.com".to_string())).unwrap();
    store.set(Path::from_str("users.u-123456.active").unwrap(), Value::Boolean(true)).unwrap();

    let prefix = Path::from_str("users.u-123456").unwrap();
    let entity = reconstruct_entity(&store, &prefix).unwrap();

    if let Entity::Object(map) = &entity {
        assert_eq!(map.len(), 3);

        if let Some(Entity::String(username)) = entity.field("username") {
            assert_eq!(username, "alice");
        } else {
            panic!("Username not found or wrong type");
        }

        if let Some(Entity::String(email)) = entity.field("email") {
            assert_eq!(email, "alice@example.com");
        } else {
            panic!("Email not found or wrong type");
        }

        if let Some(Entity::Boolean(active)) = entity.field("active") {
            assert!(active);
        } else {
            panic!("Active flag not found or wrong type");
        }
    } else {
        panic!("Expected object entity");
    }
}

#[test]
fn test_nested_entity_reconstruction() {
    let mut store = MemoryStore::new();

    store.set(Path::from_str("users.u-123456.username").unwrap(), Value::String("alice".to_string())).unwrap();
    store.set(Path::from_str("users.u-123456.profile.bio").unwrap(), Value::String("Software developer".to_string())).unwrap();
    store.set(Path::from_str("users.u-123456.profile.location").unwrap(), Value::String("San Francisco, CA".to_string())).unwrap();

    let prefix = Path::from_str("users.u-123456").unwrap();
    let entity = reconstruct_entity(&store, &prefix).unwrap();

    if let Entity::Object(map) = &entity {
        assert_eq!(map.len(), 2); // username and profile

        if let Some(profile_entity) = entity.field("profile") {
            if let Entity::Object(profile) = profile_entity {
                assert_eq!(profile.len(), 2); // bio and location

                if let Some(Entity::String(bio)) = profile_entity.field("bio") {
                    assert_eq!(bio, "Software developer");
                } else {
                    panic!("Bio not found or wrong type");
                }

                if let Some(Entity::String(location)) = profile_entity.field("location") {
                    assert_eq!(location, "San Francisco, CA");
                } else {
                    panic!("Location not found or wrong type");
                }
            } else {
                panic!("Profile not found or wrong type");
            }
        } else {
            panic!("Profile not found or wrong type");
        }
    } else {
        panic!("Expected object entity");
    }
}

#[test]
fn test_array_entity_reconstruction() {
    let mut store = MemoryStore::new();

    store.set(Path::from_str("users.u-123456.username").unwrap(), Value::String("alice".to_string())).unwrap();
    store.set(Path::from_str("users.u-123456.tags[0]").unwrap(), Value::String("developer".to_string())).unwrap();
    store.set(Path::from_str("users.u-123456.tags[1]").unwrap(), Value::String("rust".to_string())).unwrap();
    store.set(Path::from_str("users.u-123456.tags[2]").unwrap(), Value::String("databases".to_string())).unwrap();

    let prefix = Path::from_str("users.u-123456").unwrap();
    let entity = reconstruct_entity(&store, &prefix).unwrap();

    if let Entity::Object(map) = &entity {
        assert_eq!(map.len(), 2); // username and tags

        if let Some(Entity::Array(tags)) = entity.field("tags") {
            assert_eq!(tags.len(), 3);

            if let Entity::String(tag0) = &tags[0] {
                assert_eq!(tag0, "developer");
            } else {
                panic!("First tag not found or wrong type");
            }

            if let Entity::String(tag1) = &tags[1] {
                assert_eq!(tag1, "rust");
            } else {
                panic!("Second tag not found or wrong type");
            }

            if let Entity::String(tag2) = &tags[2] {
                assert_eq!(tag2, "databases");
            } else {
                panic!("Third tag not found or wrong type");
            }
        } else {
            panic!("Tags not found or wrong type");
        }
    } else {
        panic!("Expected object entity");
    }
}

fn p(text: &str) -> Path {
    Path::from_str(text).unwrap()
}

fn s(text: &str) -> Value {
    Value::String(text.to_string())
}

fn es(text: &str) -> Entity {
    Entity::String(text.to_string())
}

#[test]
fn entity_with_array_in_insertion_order() {
    let endpoints = vec![
        (p("users.u1.name"), s("alice")),
        (p("users.u1.tags[0]"), s("rust")),
        (p("users.u1.tags[1]"), s("db")),
    ];
    let entity = entity_from_endpoints(&p("users.u1"), endpoints).unwrap();
    assert_eq!(
        entity,
        Entity::Object(vec![
            ("name".to_string(), es("alice")),
            ("tags".to_string(), Entity::Array(vec![es("rust"), es("db")])),
        ])
    );
    assert_eq!(entity.to_text(), "{\"name\":\"alice\",\"tags\":[\"rust\",\"db\"]}");
    assert_eq!(
        entity_to_value(entity),
        s("{\"name\":\"alice\",\"tags\":[\"rust\",\"db\"]}")
    );
}

#[test]
fn no_endpoints_make_no_entity() {
    assert_eq!(
        entity_from_endpoints(&p("users.u1"), Vec::new()),
        Err(StoreError::NotFound(p("users.u1")))
    );
    let store = MemoryStore::new();
    assert_eq!(reconstruct_entity(&store, &p("users")), Err(StoreError::NotFound(p("users"))));
}

#[test]
fn one_endpoint_at_the_prefix_is_a_scalar() {
    let entity = entity_from_endpoints(&p("a.b"), vec![(p("a.b"), Value::Integer(7))]).unwrap();
    assert_eq!(entity, Entity::Integer(7));
    assert_eq!(entity_to_value(entity), Value::Integer(7));
    let mut store = MemoryStore::new();
    store.set(p("a.b"), Value::Boolean(false)).unwrap();
    assert_eq!(reconstruct_entity(&store, &p("a.b")).unwrap(), Entity::Boolean(false));
}

#[test]
fn sparse_array_is_padded_with_nulls() {
    let entity = entity_from_endpoints(&p("x"), vec![(p("x.list[2]"), Value::Integer(1))]).unwrap();
    assert_eq!(
        entity,
        Entity::Object(vec![(
            "list".to_string(),
            Entity::Array(vec![Entity::Null, Entity::Null, Entity::Integer(1)])
        )])
    );
    assert_eq!(entity.to_text(), "{\"list\":[null,null,1]}");
    assert_eq!(entity.field("list").unwrap().item(2), Some(&Entity::Integer(1)));
    assert_eq!(entity.field("list").unwrap().item(3), None);
    assert_eq!(entity.field("nothing"), None);
    assert_eq!(entity.item(0), None);
}

#[test]
fn objects_inside_arrays() {
    let entity = entity_from_endpoints(
        &p("x"),
        vec![
            (p("x.rows[1].name"), s("b")),
            (p("x.rows[0].name"), s("a")),
            (p("x.rows[1].size"), Value::Integer(2)),
        ],
    )
    .unwrap();
    assert_eq!(
        entity.to_text(),
        "{\"rows\":[{\"name\":\"a\"},{\"name\":\"b\",\"size\":2}]}"
    );
}

#[test]
fn kind_conflicts_are_refused() {
    let object_then_array = entity_from_endpoints(
        &p("x"),
        vec![(p("x.a.b"), Value::Integer(1)), (p("x.a[0]"), Value::Integer(2))],
    );
    assert!(matches!(object_then_array, Err(StoreError::InvalidOperation(_))));
    let array_then_object = entity_from_endpoints(
        &p("x"),
        vec![(p("x.a[0]"), Value::Integer(2)), (p("x.a.b"), Value::Integer(1))],
    );
    assert!(matches!(array_then_object, Err(StoreError::InvalidOperation(_))));
    let scalar_then_object = entity_from_endpoints(
        &p("x"),
        vec![(p("x.a"), Value::Integer(2)), (p("x.a.b"), Value::Integer(1))],
    );
    assert!(matches!(scalar_then_object, Err(StoreError::InvalidOperation(_))));
    let index_at_the_root = entity_from_endpoints(
        &p("x"),
        vec![(p("x.[0]"), Value::Integer(2)), (p("x.a"), Value::Integer(1))],
    );
    assert!(matches!(index_at_the_root, Err(StoreError::InvalidOperation(_))));
    let value_at_the_prefix = entity_from_endpoints(
        &p("x"),
        vec![(p("x"), Value::Integer(2)), (p("x.a"), Value::Integer(1))],
    );
    assert!(matches!(value_at_the_prefix, Err(StoreError::InvalidOperation(_))));
    let largest_index = insert_into_entity(
        Entity::Null,
        &Path::from_segments(vec![hyperion::path::PathSegment::index(usize::MAX)]),
        0,
        Value::Null,
    );
    assert!(matches!(largest_index, Err(StoreError::InvalidOperation(_))));
}

#[test]
fn null_slots_give_way() {
    let entity = entity_from_endpoints(
        &p("x"),
        vec![(p("x.a"), Value::Null), (p("x.a.b"), Value::Integer(1))],
    )
    .unwrap();
    assert_eq!(entity.to_text(), "{\"a\":{\"b\":1}}");
    let later_scalar = entity_from_endpoints(
        &p("x"),
        vec![(p("x.a.b"), Value::Integer(1)), (p("x.a"), Value::Integer(5))],
    )
    .unwrap();
    assert_eq!(later_scalar.to_text(), "{\"a\":5}");
}

#[test]
fn endpoints_outside_the_prefix_are_passed_over() {
    let entity = entity_from_endpoints(
        &p("x"),
        vec![(p("y.a"), Value::Integer(1)), (p("x.b"), Value::Integer(2))],
    )
    .unwrap();
    assert_eq!(entity.to_text(), "{\"b\":2}");
}

#[test]
fn entity_text_of_scalars() {
    assert_eq!(Entity::Null.to_text(), "null");
    assert_eq!(Entity::Boolean(true).to_text(), "true");
    assert_eq!(Entity::Integer(-3).to_text(), "-3");
    assert_eq!(Entity::Float(Number::parse("2.5").unwrap()).to_text(), "2.5");
    assert_eq!(es("q\"").to_text(), "\"q\\\"\"");
    assert_eq!(Entity::Binary(vec![1], None).to_text(), "[binary data]");
    assert_eq!(Entity::Binary(vec![1], Some("a/b".to_string())).to_text(), "[binary data: a/b]");
    assert_eq!(Entity::Reference(p("a.b")).to_text(), "@a.b");
    assert_eq!(Entity::Object(Vec::new()).to_text(), "{}");
    assert_eq!(Entity::Array(Vec::new()).to_text(), "[]");
    assert_eq!(Entity::from(Value::Integer(4)), Entity::Integer(4));
    assert_eq!(Entity::from(s("t")), es("t"));
}

#[test]
fn reconstruction_holds_each_endpoint_at_its_remainder() {
    let mut store = MemoryStore::new();
    store.set(p("users.u1.name"), s("alice")).unwrap();
    store.set(p("users.u1.profile.bio"), s("hello")).unwrap();
    store.set(p("users.u1.tags[0]"), s("a")).unwrap();
    store.set(p("users.u1.tags[1]"), Value::Integer(7)).unwrap();
    store.set(p("users.u2.name"), s("bob")).unwrap();

    let prefix = p("users.u1");
    let entity = reconstruct_entity(&store, &prefix).unwrap();

    for (path, value) in store.get_prefix(&prefix).unwrap() {
        assert_eq!(entity.scalar_at(&path, prefix.len()), Some(value));
    }
    assert_eq!(entity.scalar_at(&p("name"), 0), Some(s("alice")));
    assert_eq!(entity.scalar_at(&p("tags[1]"), 0), Some(Value::Integer(7)));
    assert_eq!(entity.scalar_at(&p("tags[2]"), 0), None);
    assert_eq!(entity.scalar_at(&p("profile"), 0), None);
    assert_eq!(entity.scalar_at(&p("profile.bio.more"), 0), None);
    assert_eq!(entity.scalar_at(&p("missing"), 0), None);
    assert_eq!(entity.scalar_at(&p("name"), 1), None);
}

#[test]
fn pretty_text_of_scalars() {
    assert_eq!(Entity::Null.to_string_pretty(0), "null");
    assert_eq!(Entity::Boolean(true).to_string_pretty(4), "true");
    assert_eq!(Entity::Integer(-12).to_string_pretty(0), "-12");
    assert_eq!(es("a \"b\"").to_string_pretty(0), "\"a \"b\"\"");
    assert_eq!(Entity::Binary(vec![1, 2], None).to_string_pretty(0), "[binary data]");
    assert_eq!(
        Entity::Binary(vec![1, 2], Some("image/png".to_string())).to_string_pretty(0),
        "[binary data: image/png]"
    );
    assert_eq!(Entity::Reference(p("a.b")).to_string_pretty(0), "@a.b");
}

#[test]
fn pretty_text_of_empty_containers() {
    assert_eq!(Entity::Object(Vec::new()).to_string_pretty(0), "{}");
    assert_eq!(Entity::Array(Vec::new()).to_string_pretty(6), "[]");
}

#[test]
fn pretty_text_of_nested_entities() {
    let entity = Entity::Object(vec![
        ("name".to_string(), es("alice")),
        ("tags".to_string(), Entity::Array(vec![es("a"), Entity::Integer(2)])),
        ("profile".to_string(), Entity::Object(vec![("age".to_string(), Entity::Integer(30))])),
    ]);
    let expected = "{\n  \"name\": \"alice\",\n  \"tags\": [\n    \"a\",\n    2\n  ],\n  \"profile\": {\n    \"age\": 30\n  }\n}";
    assert_eq!(entity.to_string_pretty(0), expected);
    let shifted = "[\n     1\n   ]";
    assert_eq!(Entity::Array(vec![Entity::Integer(1)]).to_string_pretty(3), shifted);
}

#[test]
fn remaining_segments_behind_a_prefix() {
    let path = p("users.u1.tags[3].*");
    assert_eq!(get_remaining_segments(&path, &p("users.u1")), vec!["tags", "[3]", "*"]);
    assert_eq!(get_remaining_segments(&path, &path), Vec::<String>::new());
    assert_eq!(get_remaining_segments(&path, &Path::new()).len(), 5);
}

#[test]
fn null_leaves_of_full_arrays_are_endpoints() {
    let mut store = MemoryStore::new();
    store.set(p("x.list[0]"), Value::Null).unwrap();
    store.set(p("x.list[1]"), Value::Integer(1)).unwrap();
    store.set(p("x.list[2].name"), s("c")).unwrap();
    let prefix = p("x");
    let entity = reconstruct_entity(&store, &prefix).unwrap();
    assert_eq!(entity.scalar_at(&p("list[0]"), 0), Some(Value::Null));
    assert_eq!(entity.scalar_at(&p("list[1]"), 0), Some(Value::Integer(1)));
    assert_eq!(entity.scalar_at(&p("list[2]"), 0), None);
    assert_eq!(entity.scalar_at(&p("list[2].name"), 0), Some(s("c")));
    assert_eq!(entity.scalar_at(&p("list[3]"), 0), None);
    assert_eq!(store.get(&p("x.list[0]")), Ok(Value::Null));

    // With a gap the placeholder is found, and it is no endpoint.
    let mut sparse = MemoryStore::new();
    sparse.set(p("x.list[1]"), Value::Integer(1)).unwrap();
    let entity = reconstruct_entity(&sparse, &prefix).unwrap();
    assert_eq!(entity.scalar_at(&p("list[0]"), 0), Some(Value::Null));
    assert!(matches!(sparse.get(&p("x.list[0]")), Err(StoreError::NotFound(_))));
}
