//! Laws of entity reconstruction: what is found in an entity after values
//! have been put into it.

use crate::entity::{
    field_position, fold_endpoints, fold_step, insert_model, null_model, padded,
    reconstruct_model, EntityModel, Reconstruction,
};
use crate::path::{path_starts_with, seg_text, Seg};
use crate::path_laws::lemma_starts_with_own_prefix;
use crate::value::ValueModel;
use vstd::prelude::*;

verus! {

/// Whether following the segments `r` inside the entity leads to the
/// scalar `v`: an index leads into the item of an array, any other segment
/// into the field of an object that has the text of the segment as its
/// name.
pub open spec fn entity_holds(m: EntityModel, r: Seq<Seg>, v: ValueModel) -> bool
    decreases r.len(),
{
    if r.len() == 0 {
        m == EntityModel::Scalar(v)
    } else {
        match r[0] {
            Seg::Index(k) => m matches EntityModel::Array(items) && k < items.len()
                && entity_holds(items[k as int], r.skip(1), v),
            other => m matches EntityModel::Object(fields) && field_position(
                fields,
                seg_text(other),
            ) < fields.len() && entity_holds(
                fields[field_position(fields, seg_text(other))].1,
                r.skip(1),
                v,
            ),
        }
    }
}

/// Whether every segment is a name or an index.
pub open spec fn is_concrete(r: Seq<Seg>) -> bool {
    forall|i: int| 0 <= i < r.len() ==> (#[trigger] r[i]) is Named || r[i] is Index
}

/// Whether `a` is made of the first segments of `b`.
pub open spec fn is_head_of(a: Seq<Seg>, b: Seq<Seg>) -> bool {
    a.len() <= b.len() && b.take(a.len() as int) == a
}

/// Whether neither of the two is made of the first segments of the other.
pub open spec fn lie_apart(a: Seq<Seg>, b: Seq<Seg>) -> bool {
    !is_head_of(a, b) && !is_head_of(b, a)
}

/// The position of a field is within the fields or just behind them; the
/// field there has the name, and no field before it has.
pub proof fn lemma_field_position(fields: Seq<(Seq<char>, EntityModel)>, key: Seq<char>)
    ensures
        0 <= field_position(fields, key) <= fields.len(),
        field_position(fields, key) < fields.len() ==> fields[field_position(fields, key)].0
            == key,
        forall|j: int| 0 <= j < field_position(fields, key) ==> (#[trigger] fields[j]).0 != key,
    decreases fields.len(),
{
    if fields.len() > 0 && fields[0].0 != key {
        let rest = fields.skip(1);
        lemma_field_position(rest, key);
        let at = field_position(rest, key);
        if at < rest.len() {
            assert(rest[at] == fields[at + 1]);
        }
        assert forall|j: int| 0 <= j < at + 1 implies (#[trigger] fields[j]).0 != key by {
            if j > 0 {
                assert(rest[j - 1] == fields[j]);
            }
        }
    }
}

/// The first field of a name is where the position of the name is.
pub proof fn lemma_field_found(fields: Seq<(Seq<char>, EntityModel)>, key: Seq<char>, at: int)
    requires
        0 <= at <= fields.len(),
        at < fields.len() ==> fields[at].0 == key,
        forall|j: int| 0 <= j < at ==> (#[trigger] fields[j]).0 != key,
    ensures
        field_position(fields, key) == at,
{
    lemma_field_position(fields, key);
    let found = field_position(fields, key);
    if found < at {
        assert(fields[found].0 != key);
    }
    if at < found {
        assert(fields[at].0 != key);
    }
}

/// No two values are found at the same place.
pub proof fn lemma_holds_one_value(m: EntityModel, r: Seq<Seg>, v: ValueModel, w: ValueModel)
    requires
        entity_holds(m, r, v),
        entity_holds(m, r, w),
    ensures
        v == w,
    decreases r.len(),
{
    if r.len() > 0 {
        match r[0] {
            Seg::Index(k) => {
                lemma_holds_one_value(m->Array_0[k as int], r.skip(1), v, w);
            },
            other => {
                let fields = m->Object_0;
                lemma_holds_one_value(
                    fields[field_position(fields, seg_text(other))].1,
                    r.skip(1),
                    v,
                    w,
                );
            },
        }
    }
}

/// A value that was put at a place is found there.
pub proof fn lemma_insert_then_holds(slot: EntityModel, r: Seq<Seg>, v: ValueModel)
    requires
        insert_model(slot, r, v) is Some,
    ensures
        entity_holds(insert_model(slot, r, v)->0, r, v),
    decreases r.len(),
{
    if r.len() > 0 {
        let after = insert_model(slot, r, v)->0;
        match r[0] {
            Seg::Index(k) => {
                let items = match slot {
                    EntityModel::Array(items) => items,
                    _ => Seq::empty(),
                };
                let all = padded(items, k as int);
                lemma_insert_then_holds(all[k as int], r.skip(1), v);
                let child = insert_model(all[k as int], r.skip(1), v)->0;
                assert(after == EntityModel::Array(all.update(k as int, child)));
            },
            other => {
                let key = seg_text(other);
                let all = match slot {
                    EntityModel::Object(fields) => fields,
                    _ => Seq::empty(),
                };
                let at = field_position(all, key);
                lemma_field_position(all, key);
                let before = if at < all.len() {
                    all[at].1
                } else {
                    null_model()
                };
                lemma_insert_then_holds(before, r.skip(1), v);
                let child = insert_model(before, r.skip(1), v)->0;
                let fields = if at < all.len() {
                    all.update(at, (key, child))
                } else {
                    all.push((key, child))
                };
                assert(after == EntityModel::Object(fields));
                assert forall|j: int| 0 <= j < at implies (#[trigger] fields[j]).0 != key by {
                    assert(fields[j] == all[j]);
                }
                lemma_field_found(fields, key, at);
            },
        }
    }
}

/// Two places that lie apart both have a first segment; where they have
/// the same, what follows it lies apart too.
pub proof fn lemma_apart_tails(a: Seq<Seg>, b: Seq<Seg>)
    requires
        lie_apart(a, b),
    ensures
        a.len() > 0,
        b.len() > 0,
        a[0] == b[0] ==> lie_apart(a.skip(1), b.skip(1)),
{
    if a.len() == 0 {
        assert(b.take(0) =~= a);
    }
    if b.len() == 0 {
        assert(a.take(0) =~= b);
    }
    if a[0] == b[0] {
        let x = a.skip(1);
        let y = b.skip(1);
        if is_head_of(x, y) {
            assert(b.take(a.len() as int) =~= a) by {
                assert forall|i: int| 0 <= i < a.len() implies b.take(a.len() as int)[i]
                    == a[i] by {
                    if i > 0 {
                        assert(y.take(x.len() as int)[i - 1] == x[i - 1]);
                    }
                }
            }
        }
        if is_head_of(y, x) {
            assert(a.take(b.len() as int) =~= b) by {
                assert forall|i: int| 0 <= i < b.len() implies a.take(b.len() as int)[i]
                    == b[i] by {
                    if i > 0 {
                        assert(x.take(y.len() as int)[i - 1] == y[i - 1]);
                    }
                }
            }
        }
    }
}

/// What follows the first segments of concrete segments is concrete.
pub proof fn lemma_concrete_tail(r: Seq<Seg>)
    requires
        is_concrete(r),
        r.len() > 0,
    ensures
        is_concrete(r.skip(1)),
{
    assert forall|i: int| 0 <= i < r.skip(1).len() implies (#[trigger] r.skip(1)[i]) is Named
        || r.skip(1)[i] is Index by {
        assert(r.skip(1)[i] == r[i + 1]);
    }
}

/// In the null scalar nothing is found but, at the scalar itself, null.
pub proof fn lemma_null_holds_only_null(r: Seq<Seg>, w: ValueModel)
    ensures
        entity_holds(null_model(), r, w) ==> w == ValueModel::Null && r.len() == 0,
{
}

/// Putting a value at one place leaves what is found at the places that
/// lie apart from it: what was found there is still found, and what is
/// found there and is not null was found before.
pub proof fn lemma_insert_keeps_others(
    slot: EntityModel,
    r: Seq<Seg>,
    v: ValueModel,
    other: Seq<Seg>,
    w: ValueModel,
)
    requires
        insert_model(slot, r, v) is Some,
        is_concrete(r),
        is_concrete(other),
        lie_apart(r, other),
    ensures
        entity_holds(slot, other, w) ==> entity_holds(insert_model(slot, r, v)->0, other, w),
        entity_holds(insert_model(slot, r, v)->0, other, w) && w != ValueModel::Null
            ==> entity_holds(slot, other, w),
    decreases r.len(),
{
    lemma_apart_tails(r, other);
    lemma_concrete_tail(r);
    lemma_concrete_tail(other);
    let after = insert_model(slot, r, v)->0;
    let rest = r.skip(1);
    let other_rest = other.skip(1);
    match r[0] {
        Seg::Index(k) => {
            let items = match slot {
                EntityModel::Array(items) => items,
                _ => Seq::empty(),
            };
            let all = padded(items, k as int);
            let child = insert_model(all[k as int], rest, v)->0;
            let grown = all.update(k as int, child);
            assert(after == EntityModel::Array(grown));
            match other[0] {
                Seg::Index(k2) => {
                    if k2 == k {
                        lemma_insert_keeps_others(all[k as int], rest, v, other_rest, w);
                        assert(grown[k as int] == child);
                        if k < items.len() {
                            assert(all[k as int] == items[k as int]);
                        } else {
                            assert(all[k as int] == null_model());
                            lemma_null_holds_only_null(other_rest, w);
                        }
                    } else {
                        if k2 < grown.len() {
                            assert(grown[k2 as int] == all[k2 as int]);
                            if k2 < items.len() {
                                assert(all[k2 as int] == items[k2 as int]);
                            } else {
                                assert(all[k2 as int] == null_model());
                                lemma_null_holds_only_null(other_rest, w);
                            }
                        }
                    }
                },
                _ => {},
            }
        },
        Seg::Named(name) => {
            let key = seg_text(r[0]);
            let all = match slot {
                EntityModel::Object(fields) => fields,
                _ => Seq::empty(),
            };
            let at = field_position(all, key);
            lemma_field_position(all, key);
            let before = if at < all.len() {
                all[at].1
            } else {
                null_model()
            };
            let child = insert_model(before, rest, v)->0;
            let fields = if at < all.len() {
                all.update(at, (key, child))
            } else {
                all.push((key, child))
            };
            assert(after == EntityModel::Object(fields));
            assert forall|j: int| 0 <= j < at implies (#[trigger] fields[j]).0 != key by {
                assert(fields[j] == all[j]);
            }
            lemma_field_found(fields, key, at);
            match other[0] {
                Seg::Named(name2) => {
                    let key2 = seg_text(other[0]);
                    if key2 == key {
                        lemma_insert_keeps_others(before, rest, v, other_rest, w);
                        assert(fields[at].1 == child);
                        if at >= all.len() {
                            lemma_null_holds_only_null(other_rest, w);
                        }
                    } else {
                        let at2 = field_position(all, key2);
                        lemma_field_position(all, key2);
                        if at2 < all.len() {
                            assert(fields[at2] == all[at2]);
                            assert forall|j: int| 0 <= j < at2 implies (#[trigger] fields[j]).0
                                != key2 by {
                                if j != at {
                                    assert(fields[j] == all[j]);
                                }
                            }
                            lemma_field_found(fields, key2, at2);
                        } else {
                            assert forall|j: int| 0 <= j < fields.len() implies (
                            #[trigger] fields[j]).0 != key2 by {
                                if j < all.len() && j != at {
                                    assert(fields[j] == all[j]);
                                }
                            }
                            lemma_field_found(fields, key2, fields.len() as int);
                        }
                    }
                },
                _ => {},
            }
        },
        _ => {},
    }
}

/// Behind a place at which a value was put, nothing is found.
pub proof fn lemma_nothing_behind(
    slot: EntityModel,
    r: Seq<Seg>,
    v: ValueModel,
    other: Seq<Seg>,
    w: ValueModel,
)
    requires
        insert_model(slot, r, v) is Some,
        is_concrete(r),
        is_concrete(other),
        is_head_of(r, other),
        r.len() < other.len(),
    ensures
        !entity_holds(insert_model(slot, r, v)->0, other, w),
    decreases r.len(),
{
    let after = insert_model(slot, r, v)->0;
    if r.len() > 0 {
        lemma_concrete_tail(r);
        lemma_concrete_tail(other);
        let rest = r.skip(1);
        let other_rest = other.skip(1);
        assert(other.take(r.len() as int)[0] == r[0]);
        assert(other_rest.take(rest.len() as int) =~= rest) by {
            assert forall|i: int| 0 <= i < rest.len() implies other_rest.take(rest.len() as int)[i]
                == rest[i] by {
                assert(other.take(r.len() as int)[i + 1] == r[i + 1]);
            }
        }
        match r[0] {
            Seg::Index(k) => {
                let items = match slot {
                    EntityModel::Array(items) => items,
                    _ => Seq::empty(),
                };
                let all = padded(items, k as int);
                lemma_nothing_behind(all[k as int], rest, v, other_rest, w);
                let child = insert_model(all[k as int], rest, v)->0;
                assert(after == EntityModel::Array(all.update(k as int, child)));
            },
            Seg::Named(name) => {
                let key = seg_text(r[0]);
                let all = match slot {
                    EntityModel::Object(fields) => fields,
                    _ => Seq::empty(),
                };
                let at = field_position(all, key);
                lemma_field_position(all, key);
                let before = if at < all.len() {
                    all[at].1
                } else {
                    null_model()
                };
                lemma_nothing_behind(before, rest, v, other_rest, w);
                let child = insert_model(before, rest, v)->0;
                let fields = if at < all.len() {
                    all.update(at, (key, child))
                } else {
                    all.push((key, child))
                };
                assert(after == EntityModel::Object(fields));
                assert forall|j: int| 0 <= j < at implies (#[trigger] fields[j]).0 != key by {
                    assert(fields[j] == all[j]);
                }
                lemma_field_found(fields, key, at);
            },
            _ => {},
        }
    }
}

/// Before a place at which a value was put, nothing is found.
pub proof fn lemma_nothing_before(
    slot: EntityModel,
    r: Seq<Seg>,
    v: ValueModel,
    other: Seq<Seg>,
    w: ValueModel,
)
    requires
        insert_model(slot, r, v) is Some,
        is_concrete(r),
        is_concrete(other),
        is_head_of(other, r),
        other.len() < r.len(),
    ensures
        !entity_holds(insert_model(slot, r, v)->0, other, w),
    decreases r.len(),
{
    let after = insert_model(slot, r, v)->0;
    lemma_concrete_tail(r);
    let rest = r.skip(1);
    if other.len() > 0 {
        lemma_concrete_tail(other);
        let other_rest = other.skip(1);
        assert(r.take(other.len() as int)[0] == other[0]);
        assert(rest.take(other_rest.len() as int) =~= other_rest) by {
            assert forall|i: int| 0 <= i < other_rest.len() implies rest.take(
                other_rest.len() as int,
            )[i] == other_rest[i] by {
                assert(r.take(other.len() as int)[i + 1] == other[i + 1]);
            }
        }
        match r[0] {
            Seg::Index(k) => {
                let items = match slot {
                    EntityModel::Array(items) => items,
                    _ => Seq::empty(),
                };
                let all = padded(items, k as int);
                lemma_nothing_before(all[k as int], rest, v, other_rest, w);
                let child = insert_model(all[k as int], rest, v)->0;
                assert(after == EntityModel::Array(all.update(k as int, child)));
            },
            Seg::Named(name) => {
                let key = seg_text(r[0]);
                let all = match slot {
                    EntityModel::Object(fields) => fields,
                    _ => Seq::empty(),
                };
                let at = field_position(all, key);
                lemma_field_position(all, key);
                let before = if at < all.len() {
                    all[at].1
                } else {
                    null_model()
                };
                lemma_nothing_before(before, rest, v, other_rest, w);
                let child = insert_model(before, rest, v)->0;
                let fields = if at < all.len() {
                    all.update(at, (key, child))
                } else {
                    all.push((key, child))
                };
                assert(after == EntityModel::Object(fields));
                assert forall|j: int| 0 <= j < at implies (#[trigger] fields[j]).0 != key by {
                    assert(fields[j] == all[j]);
                }
                lemma_field_found(fields, key, at);
            },
            _ => {},
        }
    }
}

/// What is left of the path of the endpoint at position `i` behind the
/// first `n` segments.
pub open spec fn remainder(endpoints: Seq<(Seq<Seg>, ValueModel)>, i: int, n: int) -> Seq<Seg> {
    endpoints[i].0.skip(n)
}

/// Whether the endpoints can be told apart inside an entity at the prefix:
/// each path begins with the segments of the prefix and goes on behind
/// them with names and indexes, and of what is left of two paths behind
/// the prefix neither is made of the first segments of the other.
pub open spec fn endpoints_are_tidy(prefix: Seq<Seg>, endpoints: Seq<(Seq<Seg>, ValueModel)>) -> bool {
    &&& forall|i: int|
        0 <= i < endpoints.len() ==> (#[trigger] endpoints[i]).0.len() > prefix.len()
            && endpoints[i].0.take(prefix.len() as int) == prefix && is_concrete(
            endpoints[i].0.skip(prefix.len() as int),
        )
    &&& forall|i: int, j: int|
        0 <= i < endpoints.len() && 0 <= j < endpoints.len() && i != j ==> lie_apart(
            #[trigger] remainder(endpoints, i, prefix.len() as int),
            #[trigger] remainder(endpoints, j, prefix.len() as int),
        )
}

/// Whether some endpoint has the remainder `r` and the value `w`.
pub open spec fn is_endpoint(
    prefix: Seq<Seg>,
    endpoints: Seq<(Seq<Seg>, ValueModel)>,
    r: Seq<Seg>,
    w: ValueModel,
) -> bool {
    exists|i: int|
        0 <= i < endpoints.len() && #[trigger] remainder(endpoints, i, prefix.len() as int) == r
            && endpoints[i].1 == w
}

/// In what tidy endpoints are folded into, each endpoint is found at the
/// place that is left of its path behind the prefix; and whatever is found
/// at names and indexes and is not null is an endpoint or was in the root
/// before.
pub proof fn lemma_fold_holds_endpoints(
    root: EntityModel,
    prefix: Seq<Seg>,
    endpoints: Seq<(Seq<Seg>, ValueModel)>,
)
    requires
        endpoints_are_tidy(prefix, endpoints),
        fold_endpoints(root, prefix, endpoints) is Some,
    ensures
        forall|i: int|
            0 <= i < endpoints.len() ==> entity_holds(
                fold_endpoints(root, prefix, endpoints)->0,
                #[trigger] remainder(endpoints, i, prefix.len() as int),
                endpoints[i].1,
            ),
        forall|r: Seq<Seg>, w: ValueModel|
            is_concrete(r) && w != ValueModel::Null && #[trigger] entity_holds(
                fold_endpoints(root, prefix, endpoints)->0,
                r,
                w,
            ) ==> is_endpoint(prefix, endpoints, r, w) || entity_holds(root, r, w),
    decreases endpoints.len(),
{
    let n = prefix.len() as int;
    let after = fold_endpoints(root, prefix, endpoints)->0;
    if endpoints.len() > 0 {
        let shorter = endpoints.drop_last();
        let last = endpoints.last();
        let at = endpoints.len() - 1;
        assert(endpoints[at] == last);
        assert forall|i: int| 0 <= i < shorter.len() implies (#[trigger] shorter[i]).0.len()
            > prefix.len() && shorter[i].0.take(n) == prefix && is_concrete(
            shorter[i].0.skip(n),
        ) by {
            assert(shorter[i] == endpoints[i]);
        }
        assert forall|i: int, j: int|
            0 <= i < shorter.len() && 0 <= j < shorter.len() && i != j implies lie_apart(
            #[trigger] remainder(shorter, i, n),
            #[trigger] remainder(shorter, j, n),
        ) by {
            assert(remainder(shorter, i, n) == remainder(endpoints, i, n));
            assert(remainder(shorter, j, n) == remainder(endpoints, j, n));
        }
        lemma_fold_holds_endpoints(root, prefix, shorter);
        let before = fold_endpoints(root, prefix, shorter)->0;
        let place = last.0.skip(n);
        assert(place == remainder(endpoints, at, n));
        lemma_starts_with_own_prefix(last.0, n);
        assert(fold_step(before, prefix, last) == insert_model(before, place, last.1));
        assert(after == insert_model(before, place, last.1)->0);
        lemma_insert_then_holds(before, place, last.1);
        assert forall|i: int| 0 <= i < endpoints.len() implies entity_holds(
            after,
            #[trigger] remainder(endpoints, i, n),
            endpoints[i].1,
        ) by {
            if i < at {
                let other = remainder(endpoints, i, n);
                assert(other == remainder(shorter, i, n));
                assert(shorter[i] == endpoints[i]);
                assert(lie_apart(remainder(endpoints, at, n), remainder(endpoints, i, n)));
                lemma_insert_keeps_others(before, place, last.1, other, endpoints[i].1);
            }
        }
        assert forall|r: Seq<Seg>, w: ValueModel|
            is_concrete(r) && w != ValueModel::Null && #[trigger] entity_holds(
                after,
                r,
                w,
            ) implies is_endpoint(prefix, endpoints, r, w) || entity_holds(root, r, w) by {
            if is_head_of(place, r) {
                if place.len() == r.len() {
                    assert(r.take(place.len() as int) == r);
                    lemma_holds_one_value(after, r, w, last.1);
                    assert(remainder(endpoints, at, n) == r && endpoints[at].1 == w);
                } else {
                    lemma_nothing_behind(before, place, last.1, r, w);
                }
            } else if is_head_of(r, place) {
                if r.len() == place.len() {
                    assert(place.take(r.len() as int) == place);
                    assert(r.take(place.len() as int) == r);
                }
                lemma_nothing_before(before, place, last.1, r, w);
            } else {
                lemma_insert_keeps_others(before, place, last.1, r, w);
                assert(entity_holds(before, r, w));
                if is_endpoint(prefix, shorter, r, w) {
                    let i = choose|i: int|
                        0 <= i < shorter.len() && #[trigger] remainder(shorter, i, n) == r
                            && shorter[i].1 == w;
                    assert(shorter[i] == endpoints[i]);
                    assert(remainder(endpoints, i, n) == r && endpoints[i].1 == w);
                }
            }
        }
    }
}

/// Reconstruction gives back what was put in: in the entity that tidy
/// endpoints make at a prefix, each endpoint is found at the place that is
/// left of its path behind the prefix; and whatever is found in the entity
/// at names and indexes and is not null is one of the endpoints.
pub proof fn lemma_reconstruction_holds_endpoints(
    prefix: Seq<Seg>,
    endpoints: Seq<(Seq<Seg>, ValueModel)>,
    entity: EntityModel,
)
    requires
        endpoints_are_tidy(prefix, endpoints),
        reconstruct_model(prefix, endpoints) == Reconstruction::Entity(entity),
    ensures
        forall|i: int|
            0 <= i < endpoints.len() ==> entity_holds(
                entity,
                #[trigger] remainder(endpoints, i, prefix.len() as int),
                endpoints[i].1,
            ),
        forall|r: Seq<Seg>, w: ValueModel|
            is_concrete(r) && w != ValueModel::Null && #[trigger] entity_holds(entity, r, w)
                ==> is_endpoint(prefix, endpoints, r, w),
{
    let root = EntityModel::Object(Seq::empty());
    assert(endpoints[0].0.len() > prefix.len());
    lemma_fold_holds_endpoints(root, prefix, endpoints);
    assert forall|r: Seq<Seg>, w: ValueModel| !entity_holds(root, r, w) by {
        if r.len() > 0 {
            crate::entity_laws::lemma_field_position(Seq::empty(), seg_text(r[0]));
        }
    }
}

/// One endpoint at the prefix itself is reconstructed as the scalar of its
/// value: the value is found there, at no segments, and nothing else is
/// found in it.
pub proof fn lemma_reconstruction_of_one_scalar(prefix: Seq<Seg>, value: ValueModel)
    ensures
        reconstruct_model(prefix, seq![(prefix, value)]) == Reconstruction::Entity(
            EntityModel::Scalar(value),
        ),
        forall|r: Seq<Seg>, w: ValueModel| #[trigger]
            entity_holds(EntityModel::Scalar(value), r, w) <==> r.len() == 0 && w == value,
{
    let endpoints = seq![(prefix, value)];
    assert(endpoints.len() == 1 && endpoints[0] == (prefix, value));
}

/// Whether every index among the segments is smaller than the largest
/// machine word.
pub open spec fn indexes_fit(r: Seq<Seg>) -> bool {
    forall|i: int| 0 <= i < r.len() ==> ((#[trigger] r[i]) matches Seg::Index(n) ==> n < usize::MAX)
}

/// Whether two runs of segments ask for the same kind of slot wherever
/// they have gone the same way: behind equal first segments, both go on
/// with an index or neither does.
pub open spec fn same_kinds(a: Seq<Seg>, b: Seq<Seg>) -> bool {
    forall|k: int|
        #![trigger a.take(k)]
        0 <= k < a.len() && k < b.len() && a.take(k) == b.take(k) ==> (a[k] is Index) == (b[k]
            is Index)
}

/// Whether the slot has room for a value at the place that the segments
/// name: as far as the slot goes along the segments, an index meets an
/// array or null, and any other segment an object or null.
pub open spec fn has_room_for(m: EntityModel, r: Seq<Seg>) -> bool
    decreases r.len(),
{
    if r.len() == 0 {
        true
    } else {
        match r[0] {
            Seg::Index(k) => match m {
                EntityModel::Array(items) => k >= items.len() || has_room_for(
                    items[k as int],
                    r.skip(1),
                ),
                EntityModel::Scalar(ValueModel::Null) => true,
                _ => false,
            },
            other => match m {
                EntityModel::Object(fields) => {
                    let at = field_position(fields, seg_text(other));
                    at >= fields.len() || has_room_for(fields[at].1, r.skip(1))
                },
                EntityModel::Scalar(ValueModel::Null) => true,
                _ => false,
            },
        }
    }
}

/// Whether the endpoints ask for no slot in two kinds: behind the prefix
/// each goes on with a name, two that have gone the same way go on with
/// the same kind of segment, and every index is smaller than the largest
/// machine word.
pub open spec fn endpoints_agree(prefix: Seq<Seg>, endpoints: Seq<(Seq<Seg>, ValueModel)>) -> bool {
    &&& forall|i: int|
        0 <= i < endpoints.len() ==> indexes_fit(
            #[trigger] remainder(endpoints, i, prefix.len() as int),
        ) && !(remainder(endpoints, i, prefix.len() as int)[0] is Index)
    &&& forall|i: int, j: int|
        0 <= i < endpoints.len() && 0 <= j < endpoints.len() ==> same_kinds(
            #[trigger] remainder(endpoints, i, prefix.len() as int),
            #[trigger] remainder(endpoints, j, prefix.len() as int),
        )
}

/// What follows the first of segments whose indexes fit has indexes that
/// fit.
pub proof fn lemma_indexes_fit_tail(r: Seq<Seg>)
    requires
        indexes_fit(r),
        r.len() > 0,
    ensures
        indexes_fit(r.skip(1)),
        r[0] matches Seg::Index(n) ==> n < usize::MAX,
{
    assert forall|i: int| 0 <= i < r.skip(1).len() implies ((#[trigger] r.skip(1)[i]) matches Seg::Index(
        n,
    ) ==> n < usize::MAX) by {
        assert(r.skip(1)[i] == r[i + 1]);
    }
    assert(r[0] == r[0]);
}

/// Two runs of segments of the same kinds that begin with the same
/// segment go on with the same kinds.
pub proof fn lemma_same_kinds_tail(a: Seq<Seg>, b: Seq<Seg>)
    requires
        same_kinds(a, b),
        a.len() > 0,
        b.len() > 0,
    ensures
        (a[0] is Index) == (b[0] is Index),
        a[0] == b[0] ==> same_kinds(a.skip(1), b.skip(1)),
{
    assert(a.take(0) =~= b.take(0));
    if a[0] == b[0] {
        let x = a.skip(1);
        let y = b.skip(1);
        assert forall|k: int|
            #![trigger x.take(k)]
            0 <= k < x.len() && k < y.len() && x.take(k) == y.take(k) implies (x[k] is Index) == (
            y[k] is Index) by {
            assert(a.take(k + 1) =~= b.take(k + 1)) by {
                assert forall|i: int| 0 <= i < k + 1 implies (#[trigger] a.take(k + 1)[i]) == b.take(
                    k + 1,
                )[i] by {
                    if i > 0 {
                        assert(x.take(k)[i - 1] == y.take(k)[i - 1]);
                    }
                }
            }
            assert(x[k] == a[k + 1] && y[k] == b[k + 1]);
        }
    }
}

/// The null slot has room for every place.
pub proof fn lemma_null_has_room(r: Seq<Seg>)
    ensures
        has_room_for(null_model(), r),
{
}

/// Where the slot has room and the indexes fit, the value can be put.
pub proof fn lemma_room_lets_insert(m: EntityModel, r: Seq<Seg>, v: ValueModel)
    requires
        has_room_for(m, r),
        indexes_fit(r),
    ensures
        insert_model(m, r, v) is Some,
    decreases r.len(),
{
    if r.len() > 0 {
        lemma_indexes_fit_tail(r);
        let rest = r.skip(1);
        match r[0] {
            Seg::Index(k) => {
                let items = match m {
                    EntityModel::Array(items) => items,
                    _ => Seq::empty(),
                };
                let all = padded(items, k as int);
                if k < items.len() {
                    assert(all[k as int] == items[k as int]);
                } else {
                    assert(all[k as int] == null_model());
                    lemma_null_has_room(rest);
                }
                lemma_room_lets_insert(all[k as int], rest, v);
            },
            other => {
                let key = seg_text(other);
                let all = match m {
                    EntityModel::Object(fields) => fields,
                    _ => Seq::empty(),
                };
                let at = field_position(all, key);
                lemma_field_position(all, key);
                let before = if at < all.len() {
                    all[at].1
                } else {
                    null_model()
                };
                if at >= all.len() {
                    lemma_null_has_room(rest);
                }
                lemma_room_lets_insert(before, rest, v);
            },
        }
    }
}

/// Putting a value at one place leaves the room for another place that
/// lies apart from it and asks for the same kinds of slots.
pub proof fn lemma_room_is_kept(
    m: EntityModel,
    r: Seq<Seg>,
    v: ValueModel,
    q: Seq<Seg>,
)
    requires
        insert_model(m, r, v) is Some,
        has_room_for(m, q),
        is_concrete(r),
        is_concrete(q),
        lie_apart(r, q),
        same_kinds(r, q),
    ensures
        has_room_for(insert_model(m, r, v)->0, q),
    decreases r.len(),
{
    lemma_apart_tails(r, q);
    lemma_concrete_tail(r);
    lemma_concrete_tail(q);
    lemma_same_kinds_tail(r, q);
    let after = insert_model(m, r, v)->0;
    let rest = r.skip(1);
    let q_rest = q.skip(1);
    match r[0] {
        Seg::Index(k) => {
            let items = match m {
                EntityModel::Array(items) => items,
                _ => Seq::empty(),
            };
            let all = padded(items, k as int);
            let child = insert_model(all[k as int], rest, v)->0;
            let grown = all.update(k as int, child);
            assert(after == EntityModel::Array(grown));
            match q[0] {
                Seg::Index(k2) => {
                    if k2 == k {
                        if k < items.len() {
                            assert(all[k as int] == items[k as int]);
                        } else {
                            assert(all[k as int] == null_model());
                            lemma_null_has_room(q_rest);
                        }
                        lemma_room_is_kept(all[k as int], rest, v, q_rest);
                        assert(grown[k as int] == child);
                    } else if k2 < grown.len() {
                        assert(grown[k2 as int] == all[k2 as int]);
                        if k2 < items.len() {
                            assert(all[k2 as int] == items[k2 as int]);
                        } else {
                            assert(all[k2 as int] == null_model());
                            lemma_null_has_room(q_rest);
                        }
                    }
                },
                _ => {},
            }
        },
        Seg::Named(name) => {
            let key = seg_text(r[0]);
            let all = match m {
                EntityModel::Object(fields) => fields,
                _ => Seq::empty(),
            };
            let at = field_position(all, key);
            lemma_field_position(all, key);
            let before = if at < all.len() {
                all[at].1
            } else {
                null_model()
            };
            let child = insert_model(before, rest, v)->0;
            let fields = if at < all.len() {
                all.update(at, (key, child))
            } else {
                all.push((key, child))
            };
            assert(after == EntityModel::Object(fields));
            assert forall|j: int| 0 <= j < at implies (#[trigger] fields[j]).0 != key by {
                assert(fields[j] == all[j]);
            }
            lemma_field_found(fields, key, at);
            match q[0] {
                Seg::Named(name2) => {
                    let key2 = seg_text(q[0]);
                    if key2 == key {
                        if at >= all.len() {
                            lemma_null_has_room(q_rest);
                        }
                        lemma_room_is_kept(before, rest, v, q_rest);
                        assert(fields[at].1 == child);
                    } else {
                        let at2 = field_position(all, key2);
                        lemma_field_position(all, key2);
                        if at2 < all.len() {
                            assert(fields[at2] == all[at2]);
                            assert forall|j: int| 0 <= j < at2 implies (#[trigger] fields[j]).0
                                != key2 by {
                                if j != at {
                                    assert(fields[j] == all[j]);
                                }
                            }
                            lemma_field_found(fields, key2, at2);
                        } else {
                            assert forall|j: int| 0 <= j < fields.len() implies (
                            #[trigger] fields[j]).0 != key2 by {
                                if j < all.len() && j != at {
                                    assert(fields[j] == all[j]);
                                }
                            }
                            lemma_field_found(fields, key2, fields.len() as int);
                        }
                    }
                },
                _ => {},
            }
        },
        _ => {},
    }
}

/// Tidy endpoints that agree can all be folded into a root that has room
/// for each of them; and what they are folded into has room for every
/// other place that lies apart from theirs and agrees with them.
pub proof fn lemma_fold_keeps_room(
    root: EntityModel,
    prefix: Seq<Seg>,
    endpoints: Seq<(Seq<Seg>, ValueModel)>,
    q: Seq<Seg>,
)
    requires
        endpoints_are_tidy(prefix, endpoints),
        endpoints_agree(prefix, endpoints),
        forall|i: int|
            0 <= i < endpoints.len() ==> has_room_for(
                root,
                #[trigger] remainder(endpoints, i, prefix.len() as int),
            ),
        has_room_for(root, q),
        is_concrete(q),
        forall|i: int|
            0 <= i < endpoints.len() ==> lie_apart(
                #[trigger] remainder(endpoints, i, prefix.len() as int),
                q,
            ) && same_kinds(remainder(endpoints, i, prefix.len() as int), q),
    ensures
        fold_endpoints(root, prefix, endpoints) is Some,
        has_room_for(fold_endpoints(root, prefix, endpoints)->0, q),
    decreases endpoints.len(),
{
    if endpoints.len() > 0 {
        let n = prefix.len() as int;
        let shorter = endpoints.drop_last();
        let last = endpoints.len() - 1;
        let place = remainder(endpoints, last, n);
        lemma_subset_tidy(prefix, endpoints);
        assert forall|i: int| 0 <= i < shorter.len() implies has_room_for(
            root,
            #[trigger] remainder(shorter, i, n),
        ) && lie_apart(remainder(shorter, i, n), q) && same_kinds(remainder(shorter, i, n), q)
            && lie_apart(remainder(shorter, i, n), place) && same_kinds(
            remainder(shorter, i, n),
            place,
        ) by {
            assert(shorter[i] == endpoints[i]);
            assert(remainder(shorter, i, n) == remainder(endpoints, i, n));
            assert(lie_apart(remainder(endpoints, i, n), remainder(endpoints, last, n)));
            assert(same_kinds(remainder(endpoints, i, n), remainder(endpoints, last, n)));
        }
        assert(is_concrete(place) && has_room_for(root, place) && indexes_fit(place)) by {
            assert(endpoints[last].0.len() > prefix.len());
        }
        lemma_fold_keeps_room(root, prefix, shorter, q);
        lemma_fold_keeps_room(root, prefix, shorter, place);
        let before = fold_endpoints(root, prefix, shorter)->0;
        lemma_room_lets_insert(before, place, endpoints.last().1);
        assert(endpoints.last() == endpoints[last]);
        assert(endpoints[last].0.len() > prefix.len());
        if path_starts_with(endpoints.last().0, prefix) {
            assert(lie_apart(remainder(endpoints, last, n), q));
            assert(same_kinds(remainder(endpoints, last, n), q));
            lemma_room_is_kept(before, place, endpoints.last().1, q);
        }
    }
}

/// Tidy endpoints without the last are tidy and agree as the endpoints
/// do.
pub proof fn lemma_subset_tidy(prefix: Seq<Seg>, endpoints: Seq<(Seq<Seg>, ValueModel)>)
    requires
        endpoints.len() > 0,
        endpoints_are_tidy(prefix, endpoints),
    ensures
        endpoints_are_tidy(prefix, endpoints.drop_last()),
        endpoints_agree(prefix, endpoints) ==> endpoints_agree(prefix, endpoints.drop_last()),
{
    let n = prefix.len() as int;
    let shorter = endpoints.drop_last();
    assert forall|i: int| 0 <= i < shorter.len() implies (#[trigger] shorter[i]).0.len()
        > prefix.len() && shorter[i].0.take(n) == prefix && is_concrete(shorter[i].0.skip(n)) by {
        assert(shorter[i] == endpoints[i]);
    }
    assert forall|i: int, j: int|
        0 <= i < shorter.len() && 0 <= j < shorter.len() && i != j implies lie_apart(
        #[trigger] remainder(shorter, i, n),
        #[trigger] remainder(shorter, j, n),
    ) by {
        assert(remainder(shorter, i, n) == remainder(endpoints, i, n));
        assert(remainder(shorter, j, n) == remainder(endpoints, j, n));
    }
    if endpoints_agree(prefix, endpoints) {
        assert forall|i: int| 0 <= i < shorter.len() implies indexes_fit(
            #[trigger] remainder(shorter, i, n),
        ) && !(remainder(shorter, i, n)[0] is Index) by {
            assert(remainder(shorter, i, n) == remainder(endpoints, i, n));
        }
        assert forall|i: int, j: int|
            0 <= i < shorter.len() && 0 <= j < shorter.len() implies same_kinds(
            #[trigger] remainder(shorter, i, n),
            #[trigger] remainder(shorter, j, n),
        ) by {
            assert(remainder(shorter, i, n) == remainder(endpoints, i, n));
            assert(remainder(shorter, j, n) == remainder(endpoints, j, n));
        }
    }
}

/// Reconstruction succeeds on endpoints that can be told apart and ask for
/// no slot in two kinds: tidy endpoints that agree, at least one of them,
/// always make an entity.
pub proof fn lemma_reconstruction_succeeds(
    prefix: Seq<Seg>,
    endpoints: Seq<(Seq<Seg>, ValueModel)>,
)
    requires
        endpoints.len() > 0,
        endpoints_are_tidy(prefix, endpoints),
        endpoints_agree(prefix, endpoints),
    ensures
        reconstruct_model(prefix, endpoints) is Entity,
{
    let n = prefix.len() as int;
    let root = EntityModel::Object(Seq::empty());
    let shorter = endpoints.drop_last();
    let last = endpoints.len() - 1;
    let place = remainder(endpoints, last, n);
    assert(endpoints[0].0.len() > prefix.len());
    assert(endpoints[last].0.len() > prefix.len());
    lemma_subset_tidy(prefix, endpoints);
    assert forall|i: int| 0 <= i < endpoints.len() implies has_room_for(
        root,
        #[trigger] remainder(endpoints, i, n),
    ) by {
        let r = remainder(endpoints, i, n);
        assert(endpoints[i].0.len() > prefix.len());
        assert(!(r[0] is Index));
        assert(field_position(Seq::<(Seq<char>, EntityModel)>::empty(), seg_text(r[0])) == 0);
    }
    assert forall|i: int| 0 <= i < shorter.len() implies has_room_for(
        root,
        #[trigger] remainder(shorter, i, n),
    ) && lie_apart(remainder(shorter, i, n), place) && same_kinds(remainder(shorter, i, n), place) by {
        assert(shorter[i] == endpoints[i]);
        assert(remainder(shorter, i, n) == remainder(endpoints, i, n));
        assert(lie_apart(remainder(endpoints, i, n), remainder(endpoints, last, n)));
        assert(same_kinds(remainder(endpoints, i, n), remainder(endpoints, last, n)));
    }
    assert(has_room_for(root, place) && is_concrete(place) && indexes_fit(place));
    lemma_fold_keeps_room(root, prefix, shorter, place);
    let before = fold_endpoints(root, prefix, shorter)->0;
    lemma_room_lets_insert(before, place, endpoints.last().1);
    assert(endpoints.last() == endpoints[last]);
}

/// Whether putting a value at `r` may have put a null placeholder at `q`:
/// `q` goes the way of `r` up to an index of `r` and ends there with a
/// smaller index.
pub open spec fn pads(r: Seq<Seg>, q: Seq<Seg>) -> bool {
    &&& 1 <= q.len() <= r.len()
    &&& q.drop_last() == r.take(q.len() - 1)
    &&& q.last() is Index
    &&& r[q.len() - 1] is Index
    &&& q.last()->Index_0 < r[q.len() - 1]->Index_0
}

/// Whether a null found at `q` may come from the value `v` put at `r`: it
/// is that value, or a placeholder in front of it.
pub open spec fn null_source(r: Seq<Seg>, v: ValueModel, q: Seq<Seg>) -> bool {
    (r == q && v == ValueModel::Null) || pads(r, q)
}

/// Whether a null found at `q` may come from one of the endpoints.
pub open spec fn null_comes_from(
    prefix: Seq<Seg>,
    endpoints: Seq<(Seq<Seg>, ValueModel)>,
    q: Seq<Seg>,
) -> bool {
    exists|i: int|
        0 <= i < endpoints.len() && null_source(
            #[trigger] remainder(endpoints, i, prefix.len() as int),
            endpoints[i].1,
            q,
        )
}

/// Whether the arrays that the endpoints make have no gaps: wherever an
/// endpoint goes through an index, some endpoint goes through each
/// smaller index of the same array.
pub open spec fn arrays_are_full(prefix: Seq<Seg>, endpoints: Seq<(Seq<Seg>, ValueModel)>) -> bool {
    forall|i: int, q: Seq<Seg>|
        0 <= i < endpoints.len() && #[trigger] pads(
            remainder(endpoints, i, prefix.len() as int),
            q,
        ) ==> exists|j: int|
            0 <= j < endpoints.len() && is_head_of(
                q,
                #[trigger] remainder(endpoints, j, prefix.len() as int),
            )
}

/// A placeholder behind a common first segment is a placeholder of the
/// whole.
pub proof fn lemma_pads_behind(r: Seq<Seg>, q: Seq<Seg>)
    requires
        r.len() > 0,
        q.len() > 0,
        r[0] == q[0],
        pads(r.skip(1), q.skip(1)),
    ensures
        pads(r, q),
{
    let x = r.skip(1);
    let y = q.skip(1);
    assert(q.last() == y.last());
    assert(r[q.len() - 1] == x[y.len() - 1]);
    assert(q.drop_last() =~= r.take(q.len() - 1)) by {
        assert forall|i: int| 0 <= i < q.len() - 1 implies (#[trigger] q.drop_last()[i]) == r.take(
            q.len() - 1,
        )[i] by {
            if i > 0 {
                assert(y.drop_last()[i - 1] == x.take(y.len() - 1)[i - 1]);
            }
        }
    }
}

/// Where a scalar is found, nothing is found behind it: of two places at
/// which values are found, one made of the first segments of the other is
/// the other.
pub proof fn lemma_leaf_ends(m: EntityModel, q: Seq<Seg>, w: ValueModel, r: Seq<Seg>, v: ValueModel)
    requires
        entity_holds(m, q, w),
        entity_holds(m, r, v),
        is_head_of(q, r),
    ensures
        q == r,
    decreases q.len(),
{
    if q.len() == 0 {
        assert(q =~= r);
    } else {
        assert(r.take(q.len() as int)[0] == q[0]);
        let x = q.skip(1);
        let y = r.skip(1);
        assert(y.take(x.len() as int) =~= x) by {
            assert forall|i: int| 0 <= i < x.len() implies (#[trigger] y.take(x.len() as int)[i])
                == x[i] by {
                assert(r.take(q.len() as int)[i + 1] == q[i + 1]);
            }
        }
        match q[0] {
            Seg::Index(k) => {
                lemma_leaf_ends(m->Array_0[k as int], x, w, y, v);
            },
            other => {
                let fields = m->Object_0;
                lemma_leaf_ends(fields[field_position(fields, seg_text(other))].1, x, w, y, v);
            },
        }
        assert(q =~= r) by {
            assert forall|i: int| 0 <= i < q.len() implies q[i] == r[i] by {
                if i > 0 {
                    assert(x[i - 1] == y[i - 1]);
                }
            }
        }
    }
}

/// Two runs of segments with the same first segment and the same rest are
/// the same.
pub proof fn lemma_same_from_tails(q: Seq<Seg>, r: Seq<Seg>)
    requires
        q.len() > 0,
        r.len() > 0,
        q[0] == r[0],
        q.skip(1) == r.skip(1),
    ensures
        q == r,
{
    let x = q.skip(1);
    let y = r.skip(1);
    assert(x.len() == q.len() - 1);
    assert(y.len() == r.len() - 1);
    assert forall|i: int| 0 <= i < q.len() implies q[i] == r[i] by {
        if i > 0 {
            assert(x[i - 1] == q[i]);
            assert(y[i - 1] == r[i]);
        }
    }
    assert(q =~= r);
}

/// A null that is found after a value was put was found before, or is the
/// value that was put, or is a placeholder in front of it.
pub proof fn lemma_null_after_insert(m: EntityModel, r: Seq<Seg>, v: ValueModel, q: Seq<Seg>)
    requires
        insert_model(m, r, v) is Some,
        is_concrete(r),
        is_concrete(q),
        entity_holds(insert_model(m, r, v)->0, q, ValueModel::Null),
    ensures
        entity_holds(m, q, ValueModel::Null) || null_source(r, v, q),
    decreases r.len(),
{
    let after = insert_model(m, r, v)->0;
    let nothing = ValueModel::Null;
    if r.len() == 0 {
        if q.len() == 0 {
            assert(q =~= r);
        }
    } else if q.len() > 0 {
        lemma_concrete_tail(r);
        lemma_concrete_tail(q);
        assert(r[0] is Named || r[0] is Index);
        assert(q[0] is Named || q[0] is Index);
        let rest = r.skip(1);
        let q_rest = q.skip(1);
        match r[0] {
            Seg::Index(k) => {
                let items = match m {
                    EntityModel::Array(items) => items,
                    _ => Seq::empty(),
                };
                let all = padded(items, k as int);
                let child = insert_model(all[k as int], rest, v)->0;
                let grown = all.update(k as int, child);
                assert(after == EntityModel::Array(grown));
                match q[0] {
                    Seg::Index(k2) => {
                        if k2 == k {
                            assert(grown[k as int] == child);
                            lemma_null_after_insert(all[k as int], rest, v, q_rest);
                            if entity_holds(all[k as int], q_rest, nothing) {
                                if k < items.len() {
                                    assert(all[k as int] == items[k as int]);
                                } else {
                                    assert(all[k as int] == null_model());
                                    lemma_null_holds_only_null(q_rest, nothing);
                                    assert(entity_holds(grown[k as int], q_rest, nothing));
                                    assert(child == null_model());
                                    assert(rest.len() == 0);
                                    assert(rest =~= q_rest);
                                    lemma_same_from_tails(q, r);
                                }
                            } else if rest == q_rest && v == nothing {
                                lemma_same_from_tails(q, r);
                            } else {
                                lemma_pads_behind(r, q);
                            }
                        } else {
                            assert(grown[k2 as int] == all[k2 as int]);
                            if k2 < items.len() {
                                assert(all[k2 as int] == items[k2 as int]);
                            } else {
                                assert(all[k2 as int] == null_model());
                                lemma_null_holds_only_null(q_rest, nothing);
                                assert(q.drop_last() =~= r.take(0));
                                assert(q.last() == q[0]);
                                assert(pads(r, q));
                            }
                        }
                    },
                    _ => {},
                }
            },
            Seg::Named(name) => {
                let key = seg_text(r[0]);
                let all = match m {
                    EntityModel::Object(fields) => fields,
                    _ => Seq::empty(),
                };
                let at = field_position(all, key);
                lemma_field_position(all, key);
                let before = if at < all.len() {
                    all[at].1
                } else {
                    null_model()
                };
                let child = insert_model(before, rest, v)->0;
                let fields = if at < all.len() {
                    all.update(at, (key, child))
                } else {
                    all.push((key, child))
                };
                assert(after == EntityModel::Object(fields));
                assert forall|j: int| 0 <= j < at implies (#[trigger] fields[j]).0 != key by {
                    assert(fields[j] == all[j]);
                }
                lemma_field_found(fields, key, at);
                match q[0] {
                    Seg::Named(name2) => {
                        let key2 = seg_text(q[0]);
                        if key2 == key {
                            assert(q[0] == r[0]);
                            assert(fields[at].1 == child);
                            lemma_null_after_insert(before, rest, v, q_rest);
                            if entity_holds(before, q_rest, nothing) {
                                if at >= all.len() {
                                    lemma_null_holds_only_null(q_rest, nothing);
                                    assert(entity_holds(fields[at].1, q_rest, nothing));
                                    assert(child == null_model());
                                    assert(rest.len() == 0);
                                    assert(rest =~= q_rest);
                                    lemma_same_from_tails(q, r);
                                }
                            } else if rest == q_rest && v == nothing {
                                lemma_same_from_tails(q, r);
                            } else {
                                lemma_pads_behind(r, q);
                            }
                        } else {
                            let at2 = field_position(all, key2);
                            lemma_field_position(all, key2);
                            if at2 < all.len() {
                                assert(fields[at2] == all[at2]);
                                assert forall|j: int| 0 <= j < at2 implies (#[trigger] fields[j]).0
                                    != key2 by {
                                    if j != at {
                                        assert(fields[j] == all[j]);
                                    }
                                }
                                lemma_field_found(fields, key2, at2);
                            } else {
                                assert forall|j: int| 0 <= j < fields.len() implies (
                                #[trigger] fields[j]).0 != key2 by {
                                    if j < all.len() && j != at {
                                        assert(fields[j] == all[j]);
                                    }
                                }
                                lemma_field_found(fields, key2, fields.len() as int);
                            }
                        }
                    },
                    _ => {},
                }
            },
            _ => {},
        }
    }
}

/// A null that is found in what tidy endpoints were folded into was in the
/// root already or comes from one of the endpoints.
pub proof fn lemma_fold_null_leaves(
    root: EntityModel,
    prefix: Seq<Seg>,
    endpoints: Seq<(Seq<Seg>, ValueModel)>,
    q: Seq<Seg>,
)
    requires
        endpoints_are_tidy(prefix, endpoints),
        fold_endpoints(root, prefix, endpoints) is Some,
        is_concrete(q),
        entity_holds(fold_endpoints(root, prefix, endpoints)->0, q, ValueModel::Null),
    ensures
        entity_holds(root, q, ValueModel::Null) || null_comes_from(prefix, endpoints, q),
    decreases endpoints.len(),
{
    if endpoints.len() > 0 {
        let n = prefix.len() as int;
        let shorter = endpoints.drop_last();
        let last = endpoints.len() - 1;
        let place = remainder(endpoints, last, n);
        lemma_subset_tidy(prefix, endpoints);
        assert(endpoints.last() == endpoints[last]);
        assert(endpoints[last].0.len() > prefix.len());
        let before = fold_endpoints(root, prefix, shorter)->0;
        let came = if path_starts_with(endpoints.last().0, prefix) {
            lemma_null_after_insert(before, place, endpoints.last().1, q);
            entity_holds(before, q, ValueModel::Null)
        } else {
            true
        };
        if came {
            lemma_fold_null_leaves(root, prefix, shorter, q);
            if null_comes_from(prefix, shorter, q) {
                let i = choose|i: int|
                    0 <= i < shorter.len() && null_source(
                        #[trigger] remainder(shorter, i, n),
                        shorter[i].1,
                        q,
                    );
                assert(shorter[i] == endpoints[i]);
                assert(null_source(remainder(endpoints, i, n), endpoints[i].1, q));
            }
        } else {
            assert(null_source(remainder(endpoints, last, n), endpoints[last].1, q));
        }
    }
}

/// Where the arrays have no gaps, every null that is found in the entity
/// that tidy endpoints make is one of the endpoints.
pub proof fn lemma_null_leaves_are_endpoints(
    prefix: Seq<Seg>,
    endpoints: Seq<(Seq<Seg>, ValueModel)>,
    entity: EntityModel,
    q: Seq<Seg>,
)
    requires
        endpoints_are_tidy(prefix, endpoints),
        arrays_are_full(prefix, endpoints),
        reconstruct_model(prefix, endpoints) == Reconstruction::Entity(entity),
        is_concrete(q),
        entity_holds(entity, q, ValueModel::Null),
    ensures
        is_endpoint(prefix, endpoints, q, ValueModel::Null),
{
    let n = prefix.len() as int;
    let root = EntityModel::Object(Seq::empty());
    assert(endpoints[0].0.len() > prefix.len());
    lemma_fold_null_leaves(root, prefix, endpoints, q);
    lemma_reconstruction_holds_endpoints(prefix, endpoints, entity);
    assert(!entity_holds(root, q, ValueModel::Null)) by {
        if q.len() > 0 {
            lemma_field_position(Seq::empty(), seg_text(q[0]));
        }
    }
    let i = choose|i: int|
        0 <= i < endpoints.len() && null_source(
            #[trigger] remainder(endpoints, i, n),
            endpoints[i].1,
            q,
        );
    if pads(remainder(endpoints, i, n), q) {
        let j = choose|j: int|
            0 <= j < endpoints.len() && is_head_of(q, #[trigger] remainder(endpoints, j, n));
        assert(entity_holds(entity, remainder(endpoints, j, n), endpoints[j].1));
        lemma_leaf_ends(entity, q, ValueModel::Null, remainder(endpoints, j, n), endpoints[j].1);
        lemma_holds_one_value(entity, q, ValueModel::Null, endpoints[j].1);
    }
}

/// Reconstruction gives back what was put in: the entity that tidy
/// endpoints without gaps in their arrays make holds each endpoint at the
/// place that is left of its path behind the prefix, and whatever is found
/// in it at names and indexes is one of the endpoints.
pub proof fn lemma_reconstruction_gives_back(
    prefix: Seq<Seg>,
    endpoints: Seq<(Seq<Seg>, ValueModel)>,
    entity: EntityModel,
)
    requires
        endpoints_are_tidy(prefix, endpoints),
        arrays_are_full(prefix, endpoints),
        reconstruct_model(prefix, endpoints) == Reconstruction::Entity(entity),
    ensures
        forall|i: int|
            0 <= i < endpoints.len() ==> entity_holds(
                entity,
                #[trigger] remainder(endpoints, i, prefix.len() as int),
                endpoints[i].1,
            ),
        forall|r: Seq<Seg>, w: ValueModel|
            is_concrete(r) && #[trigger] entity_holds(entity, r, w) ==> is_endpoint(
                prefix,
                endpoints,
                r,
                w,
            ),
{
    lemma_reconstruction_holds_endpoints(prefix, endpoints, entity);
    assert forall|r: Seq<Seg>, w: ValueModel|
        is_concrete(r) && #[trigger] entity_holds(entity, r, w) implies is_endpoint(
        prefix,
        endpoints,
        r,
        w,
    ) by {
        if w == ValueModel::Null {
            lemma_null_leaves_are_endpoints(prefix, endpoints, entity, r);
        }
    }
}

} // verus!
