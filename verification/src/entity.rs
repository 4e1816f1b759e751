//! Entities: nested views rebuilt from the endpoints under a prefix.
//!
//! An entity is never stored. It is folded, on demand, from the endpoints
//! whose path starts with a prefix: what is left of each path behind the
//! prefix says where in a tree of objects and arrays the value belongs.

use crate::errors::{invalid_operation, not_found, ErrorModel, StoreError};
use crate::number::Number;
use crate::path::{path_starts_with, seg_text, Path, Seg};
use crate::store::{is_substrate_error, lists_map, pairs_model, under_prefix, Store};
use crate::text::{push_quoted, push_str, quoted, string_of};
use crate::value::{value_text, Value, ValueModel};
use vstd::prelude::*;

verus! {

/// The mathematical model of an entity.
pub enum EntityModel {
    /// A scalar value.
    Scalar(ValueModel),
    /// An object: named fields in the order in which they were first set.
    Object(Seq<(Seq<char>, EntityModel)>),
    /// An array.
    Array(Seq<EntityModel>),
}

/// The entity that stands for nothing: the null scalar.
pub open spec fn null_model() -> EntityModel {
    EntityModel::Scalar(ValueModel::Null)
}

/// The position of the first field named `key`, or the number of fields
/// where there is none.
pub open spec fn field_position(fields: Seq<(Seq<char>, EntityModel)>, key: Seq<char>) -> int
    decreases fields.len(),
{
    if fields.len() == 0 {
        0
    } else if fields[0].0 == key {
        0
    } else {
        1 + field_position(fields.skip(1), key)
    }
}

/// The items of an array, with null placeholders added behind them until
/// position `k` exists.
pub open spec fn padded(items: Seq<EntityModel>, k: int) -> Seq<EntityModel> {
    if k < items.len() {
        items
    } else {
        items + Seq::new((k + 1 - items.len()) as nat, |i: int| null_model())
    }
}

/// The entity that results from putting the value `v` at the place that the
/// segments `r` name inside `slot`; nothing where the kinds conflict.
///
/// With no segment left, the slot becomes the scalar. An index segment
/// wants an array in the slot; a null slot becomes an empty array. The
/// array is padded with nulls up to the index and the rest of the segments
/// is followed into that item. Any other segment wants an object in the
/// slot; a null slot becomes an empty object. The rest of the segments is
/// followed into the field of that name, which is added behind the others
/// if it is new. An index that is the largest machine word is refused.
pub open spec fn insert_model(slot: EntityModel, r: Seq<Seg>, v: ValueModel) -> Option<
    EntityModel,
>
    decreases r.len(),
{
    if r.len() == 0 {
        Some(EntityModel::Scalar(v))
    } else {
        match r[0] {
            Seg::Index(k) => {
                let items = match slot {
                    EntityModel::Array(items) => Some(items),
                    EntityModel::Scalar(ValueModel::Null) => Some(Seq::empty()),
                    _ => None,
                };
                if items is Some && k < usize::MAX {
                    let all = padded(items->0, k as int);
                    match insert_model(all[k as int], r.skip(1), v) {
                        Some(child) => Some(EntityModel::Array(all.update(k as int, child))),
                        None => None,
                    }
                } else {
                    None
                }
            },
            other => {
                let key = seg_text(other);
                let fields = match slot {
                    EntityModel::Object(fields) => Some(fields),
                    EntityModel::Scalar(ValueModel::Null) => Some(Seq::empty()),
                    _ => None,
                };
                if fields is Some {
                    let all = fields->0;
                    let at = field_position(all, key);
                    let child = if at < all.len() {
                        all[at].1
                    } else {
                        null_model()
                    };
                    match insert_model(child, r.skip(1), v) {
                        Some(child) => Some(
                            EntityModel::Object(
                                if at < all.len() {
                                    all.update(at, (key, child))
                                } else {
                                    all.push((key, child))
                                },
                            ),
                        ),
                        None => None,
                    }
                } else {
                    None
                }
            },
        }
    }
}

/// What one endpoint does to the root while an entity is folded: an
/// endpoint outside the prefix is passed over; one at the prefix itself is
/// refused; any other is put at the place that the rest of its path names.
pub open spec fn fold_step(
    root: EntityModel,
    prefix: Seq<Seg>,
    endpoint: (Seq<Seg>, ValueModel),
) -> Option<EntityModel> {
    if !path_starts_with(endpoint.0, prefix) {
        Some(root)
    } else if endpoint.0.len() == prefix.len() {
        None
    } else {
        insert_model(root, endpoint.0.skip(prefix.len() as int), endpoint.1)
    }
}

/// The root after the endpoints have been folded into it from first to
/// last; nothing where one of them was refused.
pub open spec fn fold_endpoints(
    root: EntityModel,
    prefix: Seq<Seg>,
    endpoints: Seq<(Seq<Seg>, ValueModel)>,
) -> Option<EntityModel>
    decreases endpoints.len(),
{
    if endpoints.len() == 0 {
        Some(root)
    } else {
        match fold_endpoints(root, prefix, endpoints.drop_last()) {
            Some(before) => fold_step(before, prefix, endpoints.last()),
            None => None,
        }
    }
}

/// How a reconstruction ends.
pub enum Reconstruction {
    /// There are no endpoints.
    NotFound,
    /// An endpoint was refused.
    Conflict,
    /// The entity.
    Entity(EntityModel),
}

/// The entity at `prefix` that the endpoints make. No endpoints make none.
/// One endpoint at the prefix itself makes a scalar. Otherwise the
/// endpoints are folded into an empty object.
pub open spec fn reconstruct_model(prefix: Seq<Seg>, endpoints: Seq<(Seq<Seg>, ValueModel)>) ->
    Reconstruction {
    if endpoints.len() == 0 {
        Reconstruction::NotFound
    } else if endpoints.len() == 1 && endpoints[0].0 == prefix {
        Reconstruction::Entity(EntityModel::Scalar(endpoints[0].1))
    } else {
        match fold_endpoints(EntityModel::Object(Seq::empty()), prefix, endpoints) {
            Some(root) => Reconstruction::Entity(root),
            None => Reconstruction::Conflict,
        }
    }
}

/// The text of an entity: a scalar as a value is shown; an object as
/// `{"name":text,...}`; an array as `[text,...]`.
pub open spec fn entity_text(m: EntityModel) -> Seq<char>
    decreases m, 0nat,
{
    match m {
        EntityModel::Scalar(v) => value_text(v),
        EntityModel::Object(fields) => seq!['{'] + fields_text(fields, fields.len()) + seq!['}'],
        EntityModel::Array(items) => seq!['['] + items_text(items, items.len()) + seq![']'],
    }
}

/// The text of the first `n` fields of an object: each as its quoted name,
/// a `:` and the text of what it holds, with a `,` between two fields.
pub open spec fn fields_text(fields: Seq<(Seq<char>, EntityModel)>, n: nat) -> Seq<char>
    decreases fields, n,
{
    if n == 0 || n > fields.len() {
        Seq::empty()
    } else {
        let separator = if n == 1 {
            Seq::<char>::empty()
        } else {
            seq![',']
        };
        fields_text(fields, (n - 1) as nat) + separator + quoted(fields[n - 1].0) + seq![':']
            + entity_text(fields[n - 1].1)
    }
}

/// The text of the first `n` items of an array, with a `,` between two
/// items.
pub open spec fn items_text(items: Seq<EntityModel>, n: nat) -> Seq<char>
    decreases items, n,
{
    if n == 0 || n > items.len() {
        Seq::empty()
    } else {
        let separator = if n == 1 {
            Seq::<char>::empty()
        } else {
            seq![',']
        };
        items_text(items, (n - 1) as nat) + separator + entity_text(items[n - 1])
    }
}

/// The value that carries an entity: a scalar is the value itself, an
/// object or an array is carried as its text.
pub open spec fn carried_value(m: EntityModel) -> ValueModel {
    match m {
        EntityModel::Scalar(v) => v,
        _ => ValueModel::String(entity_text(m)),
    }
}

/// A reconstructed entity from the database
#[derive(Debug, PartialEq)]
pub enum Entity {
    /// Null value
    Null,
    /// Boolean value
    Boolean(bool),
    /// Integer value
    Integer(i64),
    /// Floating point value
    Float(Number),
    /// String value
    String(String),
    /// Binary data with optional MIME type
    Binary(Vec<u8>, Option<String>),
    /// Reference to another path
    Reference(Path),
    /// Object with named fields, in the order in which they were first set
    Object(Vec<(String, Entity)>),
    /// Array of values
    Array(Vec<Entity>),
}

/// The model of an entity.
pub open spec fn entity_model(e: Entity) -> EntityModel
    decreases e,
{
    match e {
        Entity::Null => EntityModel::Scalar(ValueModel::Null),
        Entity::Boolean(b) => EntityModel::Scalar(ValueModel::Boolean(b)),
        Entity::Integer(i) => EntityModel::Scalar(ValueModel::Integer(i as int)),
        Entity::Float(n) => EntityModel::Scalar(ValueModel::Float(n@)),
        Entity::String(s) => EntityModel::Scalar(ValueModel::String(s@)),
        Entity::Binary(data, mime) => EntityModel::Scalar(
            ValueModel::Binary(
                data@,
                match mime {
                    Some(m) => Some(m@),
                    None => None,
                },
            ),
        ),
        Entity::Reference(p) => EntityModel::Scalar(ValueModel::Reference(p@)),
        Entity::Object(fields) => EntityModel::Object(
            Seq::new(
                fields@.len(),
                |i: int|
                    if 0 <= i < fields@.len() {
                        (fields@[i].0@, entity_model(fields@[i].1))
                    } else {
                        (Seq::empty(), null_model())
                    },
            ),
        ),
        Entity::Array(items) => EntityModel::Array(
            Seq::new(
                items@.len(),
                |i: int|
                    if 0 <= i < items@.len() {
                        entity_model(items@[i])
                    } else {
                        null_model()
                    },
            ),
        ),
    }
}

impl View for Entity {
    type V = EntityModel;

    open spec fn view(&self) -> EntityModel {
        entity_model(*self)
    }
}

/// The models of the items of an array, in order.
pub open spec fn items_model(items: Seq<Entity>) -> Seq<EntityModel> {
    Seq::new(items.len(), |i: int| items[i]@)
}

/// The models of the fields of an object, in order.
pub open spec fn fields_model(fields: Seq<(String, Entity)>) -> Seq<(Seq<char>, EntityModel)> {
    Seq::new(fields.len(), |i: int| (fields[i].0@, fields[i].1@))
}

/// The model of an array is the array of the models of its items.
pub proof fn lemma_array_view(items: Vec<Entity>)
    ensures
        Entity::Array(items)@ == EntityModel::Array(items_model(items@)),
{
    let e = Entity::Array(items);
    assert(e@ is Array);
    let listed = e@->Array_0;
    assert(listed.len() == items@.len());
    assert forall|i: int| 0 <= i < listed.len() implies listed[i] == items_model(items@)[i] by {
        assert(listed[i] == entity_model(items@[i]));
    }
    assert(listed =~= items_model(items@));
}

/// The model of an object is the list of the models of its fields.
pub proof fn lemma_object_view(fields: Vec<(String, Entity)>)
    ensures
        Entity::Object(fields)@ == EntityModel::Object(fields_model(fields@)),
{
    let e = Entity::Object(fields);
    assert(e@ is Object);
    let listed = e@->Object_0;
    assert(listed.len() == fields@.len());
    assert forall|i: int| 0 <= i < listed.len() implies listed[i] == fields_model(fields@)[i] by {
        assert(listed[i] == (fields@[i].0@, entity_model(fields@[i].1)));
    }
    assert(listed =~= fields_model(fields@));
}

impl From<Value> for Entity {
    fn from(value: Value) -> (r: Self) {
        match value {
            Value::Null => Entity::Null,
            Value::Boolean(b) => Entity::Boolean(b),
            Value::Integer(i) => Entity::Integer(i),
            Value::Float(f) => Entity::Float(f),
            Value::String(s) => Entity::String(s),
            Value::Binary(data, mime) => Entity::Binary(data, mime),
            Value::Reference(path) => Entity::Reference(path),
        }
    }
}

impl vstd::std_specs::convert::FromSpecImpl<Value> for Entity {
    open spec fn obeys_from_spec() -> bool {
        true
    }

    open spec fn from_spec(value: Value) -> Self {
        match value {
            Value::Null => Entity::Null,
            Value::Boolean(b) => Entity::Boolean(b),
            Value::Integer(i) => Entity::Integer(i),
            Value::Float(f) => Entity::Float(f),
            Value::String(s) => Entity::String(s),
            Value::Binary(data, mime) => Entity::Binary(data, mime),
            Value::Reference(path) => Entity::Reference(path),
        }
    }
}

/// The scalar entity that a value makes.
pub fn scalar_entity(value: Value) -> (r: Entity)
    ensures
        r@ == EntityModel::Scalar(value@),
{
    match value {
        Value::Null => Entity::Null,
        Value::Boolean(b) => Entity::Boolean(b),
        Value::Integer(i) => Entity::Integer(i),
        Value::Float(f) => Entity::Float(f),
        Value::String(s) => Entity::String(s),
        Value::Binary(data, mime) => Entity::Binary(data, mime),
        Value::Reference(path) => Entity::Reference(path),
    }
}

/// The position of the first field named `key`.
fn find_field(fields: &Vec<(String, Entity)>, key: &String) -> (r: usize)
    ensures
        r == field_position(fields_model(fields@), key@),
        r <= fields.len(),
{
    let ghost all = fields_model(fields@);
    let mut i: usize = 0;
    assert(all.skip(0) == all);
    while i < fields.len()
        invariant
            i <= fields.len(),
            all == fields_model(fields@),
            field_position(all, key@) == i + field_position(all.skip(i as int), key@),
        decreases fields.len() - i,
    {
        let ghost rest = all.skip(i as int);
        assert(rest.len() > 0 && rest[0] == all[i as int]);
        if fields[i].0 == *key {
            return i;
        }
        assert(rest.skip(1) == all.skip(i + 1));
        i += 1;
    }
    assert(all.skip(i as int).len() == 0);
    i
}

/// Puts `value` at the place that the segments `path[from..]` name inside
/// `slot`, and gives back the slot as it is then.
pub fn insert_into_entity(slot: Entity, path: &Path, from: usize, value: Value) -> (r: Result<
    Entity,
    StoreError,
>)
    requires
        from <= path@.len(),
    ensures
        match r {
            Ok(e) => insert_model(slot@, path@.skip(from as int), value@) == Some(e@),
            Err(e) => insert_model(slot@, path@.skip(from as int), value@) is None && e@
                is InvalidOperation,
        },
    decreases path@.len() - from,
{
    let ghost rest = path@.skip(from as int);
    let length = path.len();
    let segment = match path.segment(from) {
        None => {
            assert(rest.len() == 0);
            return Ok(scalar_entity(value));
        },
        Some(segment) => segment,
    };
    assert(rest.len() > 0 && rest[0] == segment@);
    assert(rest.skip(1) == path@.skip(from + 1));
    match segment.as_index() {
        Some(k) => {
            let mut items = match slot {
                Entity::Array(items) => {
                    proof {
                        lemma_array_view(items);
                    }
                    items
                },
                Entity::Null => Vec::new(),
                _ => {
                    return Err(invalid_operation("Cannot insert at path: expected array"));
                },
            };
            if k == usize::MAX {
                return Err(invalid_operation("Cannot insert at path: index too large"));
            }
            let ghost start = items_model(items@);
            assert(items_model(Seq::<Entity>::empty()) =~= Seq::<EntityModel>::empty());
            while items.len() <= k
                invariant
                    k < usize::MAX,
                    items_model(items@).len() == items.len(),
                    start.len() <= items.len(),
                    items.len() <= k + 1 || items.len() == start.len(),
                    forall|i: int| 0 <= i < start.len() ==> items_model(items@)[i] == start[i],
                    forall|i: int|
                        start.len() <= i < items.len() ==> items_model(items@)[i] == null_model(),
                decreases k + 1 - items.len(),
            {
                let ghost before = items@;
                items.push(Entity::Null);
                proof {
                    assert(Entity::Null@ == null_model());
                    assert(items_model(items@) =~= items_model(before).push(null_model()));
                }
            }
            let ghost all = padded(start, k as int);
            assert(items_model(items@) =~= all);
            let child = items.remove(k);
            assert(child@ == all[k as int]);
            let ghost without = items@;
            match insert_into_entity(child, path, from + 1, value) {
                Ok(new_child) => {
                    items.insert(k, new_child);
                    proof {
                        lemma_array_view(items);
                        assert(items_model(items@) =~= all.update(k as int, new_child@));
                    }
                    Ok(Entity::Array(items))
                },
                Err(e) => Err(e),
            }
        },
        None => {
            let key = segment.as_str();
            let mut fields = match slot {
                Entity::Object(fields) => {
                    proof {
                        lemma_object_view(fields);
                    }
                    fields
                },
                Entity::Null => Vec::new(),
                _ => {
                    return Err(invalid_operation("Cannot insert at path: expected object"));
                },
            };
            let ghost all = fields_model(fields@);
            assert(fields_model(Seq::<(String, Entity)>::empty()) =~= Seq::<
                (Seq<char>, EntityModel),
            >::empty());
            let at = find_field(&fields, &key);
            if at < fields.len() {
                let (old_key, child) = fields.remove(at);
                assert(child@ == all[at as int].1);
                match insert_into_entity(child, path, from + 1, value) {
                    Ok(new_child) => {
                        fields.insert(at, (key, new_child));
                        proof {
                            lemma_object_view(fields);
                            assert(fields_model(fields@) =~= all.update(
                                at as int,
                                (key@, new_child@),
                            ));
                        }
                        Ok(Entity::Object(fields))
                    },
                    Err(e) => Err(e),
                }
            } else {
                match insert_into_entity(Entity::Null, path, from + 1, value) {
                    Ok(new_child) => {
                        fields.push((key, new_child));
                        proof {
                            lemma_object_view(fields);
                            assert(fields_model(fields@) =~= all.push((key@, new_child@)));
                        }
                        Ok(Entity::Object(fields))
                    },
                    Err(e) => Err(e),
                }
            }
        },
    }
}

/// The entity at `prefix` that the given endpoints make.
pub fn entity_from_endpoints(prefix: &Path, endpoints: Vec<(Path, Value)>) -> (r: Result<
    Entity,
    StoreError,
>)
    ensures
        match reconstruct_model(prefix@, pairs_model(endpoints@)) {
            Reconstruction::NotFound => r is Err && r->Err_0@ == ErrorModel::NotFound(prefix@),
            Reconstruction::Conflict => r is Err && r->Err_0@ is InvalidOperation,
            Reconstruction::Entity(m) => r is Ok && r->Ok_0@ == m,
        },
{
    let ghost all = pairs_model(endpoints@);
    let mut queue = endpoints;
    if queue.len() == 0 {
        return Err(not_found(prefix));
    }
    if queue.len() == 1 && queue[0].0.same_as(prefix) {
        let (path, value) = queue.remove(0);
        return Ok(scalar_entity(value));
    }
    let fresh: Vec<(String, Entity)> = Vec::new();
    proof {
        lemma_object_view(fresh);
    }
    let mut root = Entity::Object(fresh);
    proof {
        assert(fields_model(Seq::<(String, Entity)>::empty()) =~= Seq::<
            (Seq<char>, EntityModel),
        >::empty());
    }
    let total = queue.len();
    let mut done: usize = 0;
    assert(all.take(0).len() == 0);
    assert(all.skip(0) == all);
    while queue.len() > 0
        invariant
            done + queue.len() == total,
            total == all.len(),
            all == pairs_model(endpoints@),
            pairs_model(queue@) == all.skip(done as int),
            all.len() > 0,
            !(all.len() == 1 && all[0].0 == prefix@),
            fold_endpoints(EntityModel::Object(Seq::empty()), prefix@, all.take(done as int))
                == Some(root@),
        decreases queue.len(),
    {
        let ghost next = all.take(done + 1);
        let ghost listed = queue@;
        let (path, value) = queue.remove(0);
        let ghost start = EntityModel::Object(Seq::empty());
        proof {
            assert(next.drop_last() == all.take(done as int));
            assert(all.skip(done as int)[0] == all[done as int]);
            assert(pairs_model(listed)[0] == (path@, value@));
            assert(next.last() == (path@, value@));
            assert forall|i: int| 0 <= i < queue@.len() implies pairs_model(queue@)[i]
                == all.skip(done + 1)[i] by {
                assert(queue@[i] == listed[i + 1]);
                assert(pairs_model(listed)[i + 1] == all.skip(done as int)[i + 1]);
            }
            assert(pairs_model(queue@) =~= all.skip(done + 1));
            assert(fold_endpoints(start, prefix@, next) == fold_step(root@, prefix@, next.last()));
        }
        done += 1;
        if path.starts_with(prefix) {
            if path.len() == prefix.len() {
                proof {
                    lemma_fold_refused(
                        EntityModel::Object(Seq::empty()),
                        prefix@,
                        all,
                        done as int,
                    );
                }
                return Err(invalid_operation("Empty segments"));
            }
            match insert_into_entity(root, &path, prefix.len(), value) {
                Ok(new_root) => {
                    root = new_root;
                },
                Err(e) => {
                    proof {
                        lemma_fold_refused(
                            EntityModel::Object(Seq::empty()),
                            prefix@,
                            all,
                            done as int,
                        );
                    }
                    return Err(e);
                },
            }
        }
    }
    assert(all.take(done as int) == all);
    Ok(root)
}

/// Once a fold has been refused, more endpoints do not mend it.
pub proof fn lemma_fold_refused(
    root: EntityModel,
    prefix: Seq<Seg>,
    endpoints: Seq<(Seq<Seg>, ValueModel)>,
    k: int,
)
    requires
        0 <= k <= endpoints.len(),
        fold_endpoints(root, prefix, endpoints.take(k)) is None,
    ensures
        fold_endpoints(root, prefix, endpoints) is None,
    decreases endpoints.len() - k,
{
    if k == endpoints.len() {
        assert(endpoints.take(k) == endpoints);
    } else {
        assert(endpoints.drop_last().take(k) == endpoints.take(k));
        lemma_fold_refused(root, prefix, endpoints.drop_last(), k);
    }
}

/// The texts of the segments of a path behind a prefix of it.
pub open spec fn remaining_texts(path: Seq<Seg>, prefix: Seq<Seg>) -> Seq<Seq<char>> {
    path.skip(prefix.len() as int).map_values(|s: Seg| seg_text(s))
}

/// Get the remaining path segments after the prefix, as texts.
pub fn get_remaining_segments(path: &Path, prefix: &Path) -> (r: Vec<String>)
    requires
        prefix@.len() <= path@.len(),
    ensures
        r@.map_values(|s: String| s@) == remaining_texts(path@, prefix@),
{
    let from = prefix.len();
    let ghost want = remaining_texts(path@, prefix@);
    let mut out: Vec<String> = Vec::new();
    let mut i: usize = from;
    assert(out@.map_values(|s: String| s@) =~= want.take(0));
    while i < path.len()
        invariant
            from <= i <= path@.len(),
            from == prefix@.len(),
            want == remaining_texts(path@, prefix@),
            out@.map_values(|s: String| s@) == want.take(i - from),
        decreases path@.len() - i,
    {
        let ghost listed = out@.map_values(|s: String| s@);
        match path.segment(i) {
            Some(segment) => {
                let text = segment.as_str();
                assert(text@ == want[i - from]);
                out.push(text);
                assert(out@.map_values(|s: String| s@) =~= listed.push(text@));
                assert(listed.push(want[i - from]) =~= want.take(i - from + 1));
            },
            None => {},
        }
        i += 1;
    }
    assert(want.take(i - from) == want);
    out
}

/// Reconstruct an entity from the endpoints of a store under a prefix.
pub fn reconstruct_entity<S: Store>(store: &S, prefix: &Path) -> (r: Result<Entity, StoreError>)
    requires
        store.valid(),
    ensures
        match r {
            Ok(entity) => exists|endpoints: Seq<(Seq<Seg>, ValueModel)>|
                #![trigger reconstruct_model(prefix@, endpoints)]
                lists_map(endpoints, under_prefix(store.endpoints(), prefix@)) && reconstruct_model(
                    prefix@,
                    endpoints,
                ) == Reconstruction::Entity(entity@),
            Err(e) => if e@ is NotFound {
                e@ == ErrorModel::NotFound(prefix@) && under_prefix(store.endpoints(), prefix@)
                    == Map::<Seq<Seg>, ValueModel>::empty()
            } else if e@ is InvalidOperation {
                exists|endpoints: Seq<(Seq<Seg>, ValueModel)>|
                    #![trigger reconstruct_model(prefix@, endpoints)]
                    lists_map(endpoints, under_prefix(store.endpoints(), prefix@))
                        && reconstruct_model(prefix@, endpoints) == Reconstruction::Conflict
            } else {
                is_substrate_error(e@) && !store.infallible()
            },
        },
{
    let endpoints = match store.get_prefix(prefix) {
        Ok(endpoints) => endpoints,
        Err(e) => {
            return Err(e);
        },
    };
    let ghost listed = pairs_model(endpoints@);
    let r = entity_from_endpoints(prefix, endpoints);
    proof {
        let want = under_prefix(store.endpoints(), prefix@);
        match reconstruct_model(prefix@, listed) {
            Reconstruction::NotFound => {
                assert(listed.len() == 0);
                assert(want =~= Map::<Seq<Seg>, ValueModel>::empty());
            },
            _ => {},
        }
    }
    r
}

/// Appends the text of an entity to `out`.
pub fn push_entity_text(entity: &Entity, out: &mut Vec<char>)
    ensures
        final(out)@ == old(out)@ + entity_text(entity@),
    decreases entity@,
{
    match entity {
        Entity::Object(fields) => {
            proof {
                lemma_object_view(*fields);
            }
            let ghost models = fields_model(fields@);
            out.push('{');
            let mut i: usize = 0;
            while i < fields.len()
                invariant
                    i <= fields.len(),
                    entity@ == EntityModel::Object(models),
                    models == fields_model(fields@),
                    out@ == old(out)@ + seq!['{'] + fields_text(models, i as nat),
                decreases fields.len() - i,
            {
                let ghost before = out@;
                if i > 0 {
                    out.push(',');
                }
                push_quoted(out, fields[i].0.as_str());
                out.push(':');
                proof {
                    assert(models[i as int] == (fields@[i as int].0@, fields@[i as int].1@));
                    assert(decreases_to!(entity@ => entity@->Object_0));
                    assert(decreases_to!(entity@->Object_0 => entity@->Object_0[i as int]));
                    assert(decreases_to!(entity@->Object_0[i as int] => entity@->Object_0[i as int].1));
                    assert(decreases_to!(entity@ => fields@[i as int].1@));
                }
                push_entity_text(&fields[i].1, out);
                proof {
                    let separator = if i == 0 {
                        Seq::<char>::empty()
                    } else {
                        seq![',']
                    };
                    assert(models[i as int] == (fields@[i as int].0@, fields@[i as int].1@));
                    assert(out@ == before + separator + quoted(models[i as int].0) + seq![':']
                        + entity_text(models[i as int].1));
                    assert(out@ == old(out)@ + seq!['{'] + (fields_text(models, i as nat)
                        + separator + quoted(models[i as int].0) + seq![':'] + entity_text(
                        models[i as int].1,
                    )));
                }
                i += 1;
            }
            out.push('}');
            assert(out@ == old(out)@ + (seq!['{'] + fields_text(models, models.len()) + seq!['}']));
        },
        Entity::Array(items) => {
            proof {
                lemma_array_view(*items);
            }
            let ghost models = items_model(items@);
            out.push('[');
            let mut i: usize = 0;
            while i < items.len()
                invariant
                    i <= items.len(),
                    entity@ == EntityModel::Array(models),
                    models == items_model(items@),
                    out@ == old(out)@ + seq!['['] + items_text(models, i as nat),
                decreases items.len() - i,
            {
                let ghost before = out@;
                if i > 0 {
                    out.push(',');
                }
                proof {
                    assert(models[i as int] == items@[i as int]@);
                    assert(decreases_to!(entity@ => entity@->Array_0));
                    assert(decreases_to!(entity@->Array_0 => entity@->Array_0[i as int]));
                    assert(decreases_to!(entity@ => items@[i as int]@));
                }
                push_entity_text(&items[i], out);
                proof {
                    let separator = if i == 0 {
                        Seq::<char>::empty()
                    } else {
                        seq![',']
                    };
                    assert(models[i as int] == items@[i as int]@);
                    assert(out@ == before + separator + entity_text(models[i as int]));
                    assert(out@ == old(out)@ + seq!['['] + (items_text(models, i as nat)
                        + separator + entity_text(models[i as int])));
                }
                i += 1;
            }
            out.push(']');
            assert(out@ == old(out)@ + (seq!['['] + items_text(models, models.len()) + seq![']']));
        },
        Entity::Null => Value::Null.push_text(out),
        Entity::Boolean(b) => Value::Boolean(*b).push_text(out),
        Entity::Integer(i) => Value::Integer(*i).push_text(out),
        Entity::Float(n) => n.push_text(out),
        Entity::String(s) => push_quoted(out, s.as_str()),
        Entity::Binary(data, mime) => {
            match mime {
                Some(m) => {
                    push_str(out, "[binary data: ");
                    push_str(out, m.as_str());
                    push_str(out, "]");
                    assert(out@ == old(out)@ + ("[binary data: "@ + m@ + "]"@));
                },
                None => push_str(out, "[binary data]"),
            }
        },
        Entity::Reference(p) => {
            push_str(out, "@");
            let text = p.to_string();
            push_str(out, text.as_str());
            assert(out@ == old(out)@ + ("@"@ + crate::path::path_text(p@)));
        },
    }
}

impl Entity {
    /// The field of the given name, where the entity is an object that
    /// has one.
    pub fn field(&self, name: &str) -> (r: Option<&Entity>)
        ensures
            match self@ {
                EntityModel::Object(fields) => if field_position(fields, name@) < fields.len() {
                    r is Some && r->0@ == fields[field_position(fields, name@)].1
                } else {
                    r is None
                },
                _ => r is None,
            },
    {
        match self {
            Entity::Object(fields) => {
                proof {
                    lemma_object_view(*fields);
                }
                let key = crate::text::text_of(name);
                let at = find_field(fields, &key);
                if at < fields.len() {
                    Some(&fields[at].1)
                } else {
                    None
                }
            },
            Entity::Array(items) => {
                proof {
                    lemma_array_view(*items);
                }
                None
            },
            _ => None,
        }
    }

    /// The item at the given position, where the entity is an array that
    /// has one.
    pub fn item(&self, index: usize) -> (r: Option<&Entity>)
        ensures
            match self@ {
                EntityModel::Array(items) => if index < items.len() {
                    r is Some && r->0@ == items[index as int]
                } else {
                    r is None
                },
                _ => r is None,
            },
    {
        match self {
            Entity::Array(items) => {
                proof {
                    lemma_array_view(*items);
                }
                if index < items.len() {
                    Some(&items[index])
                } else {
                    None
                }
            },
            Entity::Object(fields) => {
                proof {
                    lemma_object_view(*fields);
                }
                None
            },
            _ => None,
        }
    }

    /// The scalar to which the segments `path[from..]` lead inside the
    /// entity, if they lead to one.
    pub fn scalar_at(&self, path: &Path, from: usize) -> (r: Option<Value>)
        requires
            from <= path@.len(),
        ensures
            match r {
                Some(value) => crate::entity_laws::entity_holds(
                    self@,
                    path@.skip(from as int),
                    value@,
                ),
                None => forall|v: ValueModel|
                    !crate::entity_laws::entity_holds(self@, path@.skip(from as int), v),
            },
        decreases path@.len() - from,
    {
        let ghost rest = path@.skip(from as int);
        let length = path.len();
        let segment = match path.segment(from) {
            None => {
                assert(rest.len() == 0);
                return match self {
                    Entity::Null => Some(Value::Null),
                    Entity::Boolean(b) => Some(Value::Boolean(*b)),
                    Entity::Integer(i) => Some(Value::Integer(*i)),
                    Entity::Float(n) => Some(Value::Float(n.clone())),
                    Entity::String(s) => Some(Value::String(s.clone())),
                    Entity::Binary(data, mime) => Some(
                        Value::Binary(
                            data.clone(),
                            match mime {
                                Some(m) => Some(m.clone()),
                                None => None,
                            },
                        ),
                    ),
                    Entity::Reference(p) => Some(Value::Reference(p.clone())),
                    Entity::Object(fields) => {
                        proof {
                            lemma_object_view(*fields);
                        }
                        None
                    },
                    Entity::Array(items) => {
                        proof {
                            lemma_array_view(*items);
                        }
                        None
                    },
                };
            },
            Some(segment) => segment,
        };
        assert(rest.len() > 0 && rest[0] == segment@);
        assert(rest.skip(1) == path@.skip(from + 1));
        match segment.as_index() {
            Some(k) => {
                assert(rest[0] == Seg::Index(k as nat));
                match self.item(k) {
                    Some(child) => {
                        let found = child.scalar_at(path, from + 1);
                        proof {
                            assert forall|v: ValueModel|
                                crate::entity_laws::entity_holds(self@, rest, v)
                                    == crate::entity_laws::entity_holds(child@, rest.skip(1), v) by {}
                        }
                        found
                    },
                    None => {
                        assert forall|v: ValueModel|
                            !crate::entity_laws::entity_holds(self@, rest, v) by {}
                        None
                    },
                }
            },
            None => {
                let key = segment.as_str();
                assert(!(rest[0] is Index));
                match self.field(key.as_str()) {
                    Some(child) => {
                        let found = child.scalar_at(path, from + 1);
                        proof {
                            assert forall|v: ValueModel|
                                crate::entity_laws::entity_holds(self@, rest, v)
                                    == crate::entity_laws::entity_holds(child@, rest.skip(1), v) by {}
                        }
                        found
                    },
                    None => {
                        assert forall|v: ValueModel|
                            !crate::entity_laws::entity_holds(self@, rest, v) by {}
                        None
                    },
                }
            },
        }
    }

    /// The text of the entity.
    pub fn to_text(&self) -> (r: String)
        ensures
            r@ == entity_text(self@),
    {
        let mut out: Vec<char> = Vec::new();
        push_entity_text(self, &mut out);
        assert(Seq::<char>::empty() + entity_text(self@) == entity_text(self@));
        string_of(&out)
    }
}

/// The value that carries an entity: a scalar is the value itself, an
/// object or an array is carried as its text.
pub fn entity_to_value(entity: Entity) -> (r: Value)
    ensures
        r@ == carried_value(entity@),
{
    match entity {
        Entity::Null => Value::Null,
        Entity::Boolean(b) => Value::Boolean(b),
        Entity::Integer(i) => Value::Integer(i),
        Entity::Float(f) => Value::Float(f),
        Entity::String(s) => Value::String(s),
        Entity::Binary(data, mime) => Value::Binary(data, mime),
        Entity::Reference(path) => Value::Reference(path),
        other => Value::String(other.to_text()),
    }
}

} // verus!
