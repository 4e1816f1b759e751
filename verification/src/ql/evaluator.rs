//! The evaluation of expressions against a store.

use crate::entity::{
    carried_value, entity_text, entity_to_value, items_model, lemma_array_view,
    reconstruct_entity, reconstruct_model, Entity, EntityModel, Reconstruction,
};
use crate::errors::{invalid_operation, not_found, ErrorModel, StoreError};
use crate::number::{int_order, number_of_int, number_order, Number, Order};
use crate::path::{classify, parse_text, seg_text, Path, PathSegment, Seg};
use crate::ql::ast::{
    mirrored, ComparisonOperator, Condition, Expression, LogicalOperator, WhereClause,
};
use crate::seq_laws::lemma_filter_members;
use crate::store::{
    empty_get_message, is_substrate_error, lists_map, pairs_model, paths_under, query_result, under_prefix, Store,
};
use crate::text::{chars_of, push_str, string_of, text_of};
use crate::value::{values_equal, Value, ValueModel};
use vstd::prelude::*;

verus! {

/// How two texts stand to each other in the order of the dictionary, by
/// the code points of their characters.
pub open spec fn text_order(a: Seq<char>, b: Seq<char>) -> Order
    decreases a.len(),
{
    if a.len() == 0 && b.len() == 0 {
        Order::Equal
    } else if a.len() == 0 {
        Order::Less
    } else if b.len() == 0 {
        Order::Greater
    } else if (a[0] as u32) < (b[0] as u32) {
        Order::Less
    } else if (a[0] as u32) > (b[0] as u32) {
        Order::Greater
    } else {
        text_order(a.skip(1), b.skip(1))
    }
}

/// Whether two values can be ordered, and how they then stand to each
/// other. Integers and floats are ordered as numbers, among themselves and
/// with each other; a float that is not a number stands in no order to
/// anything. Strings are ordered as texts. Nothing else can be ordered.
pub open spec fn value_order(l: ValueModel, r: ValueModel) -> Option<Option<Order>> {
    match (l, r) {
        (ValueModel::Integer(a), ValueModel::Integer(b)) => Some(Some(int_order(a, b))),
        (ValueModel::Float(a), ValueModel::Float(b)) => Some(number_order(a, b)),
        (ValueModel::Integer(a), ValueModel::Float(b)) => Some(
            number_order(number_of_int(a), b),
        ),
        (ValueModel::Float(a), ValueModel::Integer(b)) => Some(
            number_order(a, number_of_int(b)),
        ),
        (ValueModel::String(a), ValueModel::String(b)) => Some(Some(text_order(a, b))),
        _ => None,
    }
}

/// Whether the comparison `op` holds of two values that stand in the given
/// order; of two values that stand in no order, no comparison holds.
pub open spec fn order_satisfies(order: Option<Order>, op: ComparisonOperator) -> bool {
    match order {
        Some(o) => match op {
            ComparisonOperator::LessThan => o == Order::Less,
            ComparisonOperator::LessThanOrEqual => o != Order::Greater,
            ComparisonOperator::GreaterThan => o == Order::Greater,
            ComparisonOperator::GreaterThanOrEqual => o != Order::Less,
            ComparisonOperator::Equal => o == Order::Equal,
            ComparisonOperator::NotEqual => o != Order::Equal,
        },
        None => false,
    }
}

/// The result of a comparison; nothing where the values cannot be
/// compared. Equality and inequality are defined for all values; the
/// ordering comparisons for values that can be ordered.
pub open spec fn comparison(l: ValueModel, op: ComparisonOperator, r: ValueModel) -> Option<bool> {
    match op {
        ComparisonOperator::Equal => Some(values_equal(l, r)),
        ComparisonOperator::NotEqual => Some(!values_equal(l, r)),
        _ => match value_order(l, r) {
            Some(order) => Some(order_satisfies(order, op)),
            None => None,
        },
    }
}

/// How two texts stand to each other in the order of the dictionary.
pub fn order_texts(a: &str, b: &str) -> (r: Order)
    ensures
        r == text_order(a@, b@),
{
    let x = chars_of(a);
    let y = chars_of(b);
    let mut i: usize = 0;
    assert(x@.skip(0) == x@ && y@.skip(0) == y@);
    while i < x.len() && i < y.len()
        invariant
            i <= x.len(),
            i <= y.len(),
            x@ == a@,
            y@ == b@,
            text_order(a@, b@) == text_order(x@.skip(i as int), y@.skip(i as int)),
        decreases x.len() - i,
    {
        let ghost xs = x@.skip(i as int);
        let ghost ys = y@.skip(i as int);
        assert(xs[0] == x@[i as int] && ys[0] == y@[i as int]);
        assert(xs.skip(1) == x@.skip(i + 1) && ys.skip(1) == y@.skip(i + 1));
        let p = x[i] as u32;
        let q = y[i] as u32;
        if p < q {
            return Order::Less;
        }
        if p > q {
            return Order::Greater;
        }
        i += 1;
    }
    if i < y.len() {
        Order::Less
    } else if i < x.len() {
        Order::Greater
    } else {
        Order::Equal
    }
}

/// How two integers stand to each other.
pub fn order_ints(a: i64, b: i64) -> (r: Order)
    ensures
        r == int_order(a as int, b as int),
{
    if a < b {
        Order::Less
    } else if a == b {
        Order::Equal
    } else {
        Order::Greater
    }
}

/// Whether the comparison holds of two values that stand in the given
/// order.
pub fn satisfies(order: Option<Order>, op: ComparisonOperator) -> (r: bool)
    ensures
        r == order_satisfies(order, op),
{
    match order {
        Some(o) => match op {
            ComparisonOperator::LessThan => matches!(o, Order::Less),
            ComparisonOperator::LessThanOrEqual => !matches!(o, Order::Greater),
            ComparisonOperator::GreaterThan => matches!(o, Order::Greater),
            ComparisonOperator::GreaterThanOrEqual => !matches!(o, Order::Less),
            ComparisonOperator::Equal => matches!(o, Order::Equal),
            ComparisonOperator::NotEqual => !matches!(o, Order::Equal),
        },
        None => false,
    }
}

/// The message of the error for a comparison of values that cannot be
/// compared.
pub open spec fn incomparable_message() -> Seq<char> {
    "Cannot compare values of these types"@
}

/// Compare two values. Values that cannot be ordered are refused by the
/// ordering comparisons.
pub fn compare_values(left: &Value, operator: ComparisonOperator, right: &Value) -> (r: Result<
    bool,
    StoreError,
>)
    ensures
        match r {
            Ok(b) => comparison(left@, operator, right@) == Some(b),
            Err(e) => comparison(left@, operator, right@) is None && e@
                == crate::errors::ErrorModel::InvalidOperation(incomparable_message()),
        },
{
    match operator {
        ComparisonOperator::Equal => {
            return Ok(left.same_as(right));
        },
        ComparisonOperator::NotEqual => {
            return Ok(!left.same_as(right));
        },
        _ => {},
    }
    let order: Option<Order> = match (left, right) {
        (Value::Integer(a), Value::Integer(b)) => Some(order_ints(*a, *b)),
        (Value::Float(a), Value::Float(b)) => a.order(b),
        (Value::Integer(a), Value::Float(b)) => Number::from_int(*a).order(b),
        (Value::Float(a), Value::Integer(b)) => a.order(&Number::from_int(*b)),
        (Value::String(a), Value::String(b)) => Some(order_texts(a.as_str(), b.as_str())),
        _ => {
            return Err(invalid_operation("Cannot compare values of these types"));
        },
    };
    Ok(satisfies(order, operator))
}

/// The texts of a list of strings, in order.
pub open spec fn names_model(v: Seq<String>) -> Seq<Seq<char>> {
    v.map_values(|s: String| s@)
}

/// What a condition asks of the entities under the base path: the
/// segments behind `their`, the comparison, and the literal to compare
/// with. A condition with the literal on the left asks the mirrored
/// comparison. Any other condition asks nothing that can be answered.
pub open spec fn their_condition(condition: Condition) -> Option<
    (Seq<Seq<char>>, ComparisonOperator, ValueModel),
> {
    match (*condition.left, *condition.right) {
        (Expression::TheirPath(segments), Expression::Literal(value)) => Some(
            (names_model(segments@), condition.operator, value@),
        ),
        (Expression::Literal(value), Expression::TheirPath(segments)) => Some(
            (names_model(segments@), mirrored(condition.operator), value@),
        ),
        _ => None,
    }
}

/// The message of the error for a condition that does not compare a
/// `their` path with a literal.
pub open spec fn bad_condition_message() -> Seq<char> {
    "Where conditions must compare 'their' paths with literal values"@
}

/// A copy of a list of strings.
fn copy_names(names: &Vec<String>) -> (r: Vec<String>)
    ensures
        names_model(r@) == names_model(names@),
{
    let mut out: Vec<String> = Vec::new();
    let mut i: usize = 0;
    while i < names.len()
        invariant
            i <= names.len(),
            out.len() == i,
            forall|k: int| 0 <= k < i ==> (#[trigger] out@[k])@ == names@[k]@,
        decreases names.len() - i,
    {
        out.push(names[i].clone());
        i += 1;
    }
    assert(names_model(out@) =~= names_model(names@));
    out
}

/// What a condition asks of the entities under the base path.
pub fn extract_condition_if_their(condition: &Condition) -> (r: Result<
    (Vec<String>, ComparisonOperator, Value),
    StoreError,
>)
    ensures
        match r {
            Ok(asked) => their_condition(*condition) == Some(
                (names_model(asked.0@), asked.1, asked.2@),
            ),
            Err(e) => their_condition(*condition) is None && e@ == ErrorModel::InvalidOperation(
                bad_condition_message(),
            ),
        },
{
    match (&*condition.left, &*condition.right) {
        (Expression::TheirPath(segments), Expression::Literal(value)) => Ok(
            (copy_names(segments), condition.operator, value.clone()),
        ),
        (Expression::Literal(value), Expression::TheirPath(segments)) => Ok(
            (copy_names(segments), condition.operator.mirror(), value.clone()),
        ),
        _ => Err(
            invalid_operation("Where conditions must compare 'their' paths with literal values"),
        ),
    }
}

/// What the conditions of a where clause ask, first condition first. The
/// logical operators between the conditions are not looked at: all the
/// conditions have to hold.
pub fn extract_their_conditions(where_clause: &WhereClause) -> (r: Result<
    Vec<(Vec<String>, ComparisonOperator, Value)>,
    StoreError,
>)
    ensures
        match r {
            Ok(asked) => {
                &&& asked.len() == 1 + where_clause.additional_conditions.len()
                &&& their_condition(where_clause.first_condition) == Some(
                    (names_model(asked@[0].0@), asked@[0].1, asked@[0].2@),
                )
                &&& forall|i: int|
                    0 <= i < where_clause.additional_conditions.len() ==> their_condition(
                        (#[trigger] where_clause.additional_conditions@[i]).1,
                    ) == Some(
                        (names_model(asked@[i + 1].0@), asked@[i + 1].1, asked@[i + 1].2@),
                    )
            },
            Err(e) => {
                &&& e@ == ErrorModel::InvalidOperation(bad_condition_message())
                &&& (their_condition(where_clause.first_condition) is None || exists|i: int|
                    0 <= i < where_clause.additional_conditions.len() && their_condition(
                        (#[trigger] where_clause.additional_conditions@[i]).1,
                    ) is None)
            },
        },
{
    let mut out: Vec<(Vec<String>, ComparisonOperator, Value)> = Vec::new();
    match extract_condition_if_their(&where_clause.first_condition) {
        Ok(asked) => {
            out.push(asked);
        },
        Err(e) => {
            return Err(e);
        },
    }
    let mut i: usize = 0;
    while i < where_clause.additional_conditions.len()
        invariant
            i <= where_clause.additional_conditions.len(),
            out.len() == i + 1,
            their_condition(where_clause.first_condition) == Some(
                (names_model(out@[0].0@), out@[0].1, out@[0].2@),
            ),
            forall|k: int|
                0 <= k < i ==> their_condition(
                    (#[trigger] where_clause.additional_conditions@[k]).1,
                ) == Some((names_model(out@[k + 1].0@), out@[k + 1].1, out@[k + 1].2@)),
        decreases where_clause.additional_conditions.len() - i,
    {
        match extract_condition_if_their(&where_clause.additional_conditions[i].1) {
            Ok(asked) => {
                out.push(asked);
            },
            Err(e) => {
                return Err(e);
            },
        }
        i += 1;
    }
    Ok(out)
}

/// The position of a text in a list of strings, if it is there.
fn name_position(names: &Vec<String>, name: &String) -> (r: Option<usize>)
    ensures
        match r {
            Some(i) => i < names.len() && names@[i as int]@ == name@,
            None => !names_model(names@).contains(name@),
        },
{
    let mut i: usize = 0;
    while i < names.len()
        invariant
            i <= names.len(),
            forall|k: int| 0 <= k < i ==> (#[trigger] names@[k])@ != name@,
        decreases names.len() - i,
    {
        if names[i] == *name {
            return Some(i);
        }
        i += 1;
    }
    proof {
        let models = names_model(names@);
        if models.contains(name@) {
            let k = choose|k: int| 0 <= k < models.len() && models[k] == name@;
            assert(names@[k]@ == name@);
        }
    }
    None
}

/// Whether the endpoint at position `i` of the results names an entity
/// under the base path and holds a value of which the comparison with the
/// literal holds.
pub open spec fn names_entity(
    results: Seq<(Seq<Seg>, ValueModel)>,
    i: int,
    base_len: int,
    op: ComparisonOperator,
    literal: ValueModel,
) -> bool {
    &&& 0 <= i < results.len()
    &&& comparison(results[i].1, op, literal) == Some(true)
    &&& base_len < results[i].0.len()
}

/// The names of the entities under the base path for which the comparison
/// with the literal holds: for each endpoint of the results whose value
/// compares so, the text of the segment behind the base path. Each name
/// is listed once. A value that cannot be compared with the literal is
/// refused.
pub fn matching_ids(
    base_len: usize,
    results: &Vec<(Path, Value)>,
    operator: ComparisonOperator,
    literal: &Value,
) -> (r: Result<Vec<String>, StoreError>)
    ensures
        match r {
            Ok(ids) => {
                &&& names_model(ids@).no_duplicates()
                &&& forall|t: Seq<char>|
                    #![trigger names_model(ids@).contains(t)]
                    names_model(ids@).contains(t) <==> exists|i: int|
                        #![trigger pairs_model(results@)[i]]
                        names_entity(pairs_model(results@), i, base_len as int, operator, literal@)
                            && seg_text(pairs_model(results@)[i].0[base_len as int]) == t
                &&& forall|i: int|
                    0 <= i < results.len() ==> comparison(
                        (#[trigger] pairs_model(results@)[i]).1,
                        operator,
                        literal@,
                    ) is Some
            },
            Err(e) => {
                &&& e@ == ErrorModel::InvalidOperation(incomparable_message())
                &&& exists|i: int|
                    0 <= i < results.len() && comparison(
                        (#[trigger] pairs_model(results@)[i]).1,
                        operator,
                        literal@,
                    ) is None
            },
        },
{
    let ghost all = pairs_model(results@);
    let mut ids: Vec<String> = Vec::new();
    let mut i: usize = 0;
    while i < results.len()
        invariant
            i <= results.len(),
            all == pairs_model(results@),
            names_model(ids@).no_duplicates(),
            forall|t: Seq<char>|
                #![trigger names_model(ids@).contains(t)]
                names_model(ids@).contains(t) <==> exists|k: int|
                    #![trigger all[k]]
                    k < i && names_entity(all, k, base_len as int, operator, literal@) && seg_text(
                        all[k].0[base_len as int],
                    ) == t,
            forall|k: int| 0 <= k < i ==> comparison((#[trigger] all[k]).1, operator, literal@) is Some,
        decreases results.len() - i,
    {
        assert(all[i as int] == (results@[i as int].0@, results@[i as int].1@));
        let holds = match compare_values(&results[i].1, operator, literal) {
            Ok(holds) => holds,
            Err(e) => {
                assert(comparison(all[i as int].1, operator, literal@) is None);
                return Err(e);
            },
        };
        let ghost before = names_model(ids@);
        let mut added = false;
        let ghost mut name: Seq<char> = Seq::empty();
        let ghost mut known = false;
        if holds {
            match results[i].0.segment(base_len) {
                Some(segment) => {
                    let id = segment.as_str();
                    proof {
                        name = id@;
                    }
                    match name_position(&ids, &id) {
                        None => {
                            ids.push(id);
                            added = true;
                        },
                        Some(at) => {
                            proof {
                                known = true;
                                assert(before[at as int] == name);
                                assert(before.contains(name));
                            }
                        },
                    }
                },
                None => {},
            }
        }
        proof {
            let after = names_model(ids@);
            let here = names_entity(all, i as int, base_len as int, operator, literal@);
            assert(here == (added || known));
            assert(here ==> name == seg_text(all[i as int].0[base_len as int]));
            assert(known ==> before.contains(name));
            if added {
                assert(after =~= before.push(name));
                assert forall|a: int, b: int|
                    0 <= a < after.len() && 0 <= b < after.len() && a != b implies after[a]
                    != after[b] by {
                    if a < before.len() && b < before.len() {
                        assert(before[a] != before[b]);
                    } else if a < before.len() {
                        assert(before.contains(before[a]));
                    } else {
                        assert(before.contains(before[b]));
                    }
                }
            } else {
                assert(after =~= before);
            }
            assert forall|t: Seq<char>| #[trigger]
                after.contains(t) <==> exists|k: int|
                    #![trigger all[k]]
                    k < i + 1 && names_entity(all, k, base_len as int, operator, literal@)
                        && seg_text(all[k].0[base_len as int]) == t by {
                let was = exists|k: int|
                    #![trigger all[k]]
                    k < i && names_entity(all, k, base_len as int, operator, literal@) && seg_text(
                        all[k].0[base_len as int],
                    ) == t;
                assert(before.contains(t) <==> was);
                if after.contains(t) {
                    let a = choose|a: int| 0 <= a < after.len() && after[a] == t;
                    if a < before.len() {
                        assert(before[a] == t);
                        assert(before.contains(t));
                        let k = choose|k: int|
                            #![trigger all[k]]
                            k < i && names_entity(all, k, base_len as int, operator, literal@)
                                && seg_text(all[k].0[base_len as int]) == t;
                        assert(k < i + 1 && names_entity(
                            all,
                            k,
                            base_len as int,
                            operator,
                            literal@,
                        ) && seg_text(all[k].0[base_len as int]) == t);
                    } else {
                        assert(t == name);
                        assert(here && seg_text(all[i as int].0[base_len as int]) == t);
                    }
                }
                if exists|k: int|
                    #![trigger all[k]]
                    k < i + 1 && names_entity(all, k, base_len as int, operator, literal@)
                        && seg_text(all[k].0[base_len as int]) == t {
                    let k = choose|k: int|
                        #![trigger all[k]]
                        k < i + 1 && names_entity(all, k, base_len as int, operator, literal@)
                            && seg_text(all[k].0[base_len as int]) == t;
                    if k < i {
                        assert(was);
                        assert(before.contains(t));
                        let a = choose|a: int| 0 <= a < before.len() && before[a] == t;
                        assert(after[a] == t);
                    } else {
                        assert(k == i);
                        assert(t == name);
                        if added {
                            assert(after[before.len() as int] == t);
                        } else {
                            assert(before.contains(t));
                        }
                    }
                }
            }
        }
        i += 1;
    }
    Ok(ids)
}

/// The names of the first list that are also in the second, in the order
/// of the first.
pub fn intersect_ids(first: &Vec<String>, second: &Vec<String>) -> (r: Vec<String>)
    ensures
        names_model(r@) == names_model(first@).filter(
            |t: Seq<char>| names_model(second@).contains(t),
        ),
{
    let ghost all = names_model(first@);
    let ghost keep = |t: Seq<char>| names_model(second@).contains(t);
    let mut out: Vec<String> = Vec::new();
    let mut i: usize = 0;
    proof {
        reveal(Seq::filter);
        assert(all.take(0).filter(keep) =~= Seq::<Seq<char>>::empty());
        assert(names_model(out@) =~= Seq::<Seq<char>>::empty());
    }
    while i < first.len()
        invariant
            i <= first.len(),
            all == names_model(first@),
            keep == (|t: Seq<char>| names_model(second@).contains(t)),
            names_model(out@) == all.take(i as int).filter(keep),
        decreases first.len() - i,
    {
        let ghost head = all.take(i as int);
        proof {
            assert(all.take(i + 1) == head.push(all[i as int]));
            assert(all[i as int] == first@[i as int]@);
            crate::seq_laws::lemma_filter_push(head, all[i as int], keep);
        }
        if name_position(second, &first[i]).is_some() {
            let ghost listed = names_model(out@);
            out.push(first[i].clone());
            assert(names_model(out@) =~= listed.push(first@[i as int]@));
            assert(names_model(second@).contains(first@[i as int]@)) by {
                let k = name_position_witness(second@, first@[i as int]@);
            }
        }
        i += 1;
    }
    assert(all.take(i as int) == all);
    out
}

/// A position at which a text stands in a list of strings that holds it.
proof fn name_position_witness(names: Seq<String>, name: Seq<char>) -> (k: int)
    requires
        exists|i: int| 0 <= i < names.len() && (#[trigger] names[i])@ == name,
    ensures
        0 <= k < names.len(),
        names_model(names)[k] == name,
        names_model(names).contains(name),
{
    let k = choose|i: int| 0 <= i < names.len() && (#[trigger] names[i])@ == name;
    assert(names_model(names)[k] == name);
    k
}

/// The path made of a base path and, behind it, the segments that the
/// given texts denote.
pub open spec fn extended(base: Seq<Seg>, texts: Seq<Seq<char>>) -> Seq<Seg> {
    base + texts.map_values(|t: Seq<char>| classify(t))
}

/// The path made of a base path and, behind it, the segments that the
/// given texts denote.
fn extend_path(base: &Path, texts: &Vec<String>) -> (r: Path)
    ensures
        r@ == extended(base@, names_model(texts@)),
{
    let mut path = base.clone();
    let mut i: usize = 0;
    assert(names_model(texts@).take(0).map_values(|t: Seq<char>| classify(t)) =~= Seq::<
        Seg,
    >::empty());
    assert(base@ + Seq::<Seg>::empty() == base@);
    while i < texts.len()
        invariant
            i <= texts.len(),
            path@ == extended(base@, names_model(texts@).take(i as int)),
        decreases texts.len() - i,
    {
        path.push(texts[i].as_str());
        i += 1;
        proof {
            let all = names_model(texts@);
            assert(all.take(i as int) == all.take(i - 1).push(texts@[i - 1]@));
            assert(extended(base@, all.take(i as int)) =~= extended(
                base@,
                all.take(i - 1),
            ).push(classify(texts@[i - 1]@)));
        }
    }
    assert(names_model(texts@).take(i as int) == names_model(texts@));
    path
}

/// The pattern that finds, for the entities under a base path, the
/// endpoints that a `their` path names: the base path, `*` for the entity,
/// and the segments of the `their` path.
pub open spec fn their_pattern(base: Seq<Seg>, their: Seq<Seq<char>>) -> Seq<Seg> {
    extended(base.push(Seg::Single), their)
}

/// What holds of every text that writes a time in UTC as RFC 3339 does: it
/// has at least the twenty-five characters of date, `T`, time of day and
/// offset, and it ends with the offset `+00:00`.
pub open spec fn is_utc_stamp(text: Seq<char>) -> bool {
    text.len() >= 25 && text.skip(text.len() - 6) == seq!['+', '0', '0', ':', '0', '0']
}

/// The current time in UTC as an RFC 3339 text, by `chrono::Utc::now` and
/// `chrono::DateTime::to_rfc3339`. Which time it writes depends on the
/// clock. The text has the year in four digits or more, month, day, `T`,
/// hours, minutes and seconds in two digits each, a fraction of the second
/// where there is one, and the offset of UTC written `+00:00`.
#[verifier::external_body]
fn current_time_text() -> (r: String)
    ensures
        is_utc_stamp(r@),
{
    chrono::Utc::now().to_rfc3339()
}

/// A fresh random identifier in its hyphenated form, by
/// `uuid::Uuid::new_v4`: thirty-six characters.
#[verifier::external_body]
fn fresh_identifier_text() -> (r: String)
    ensures
        r@.len() == 36,
{
    uuid::Uuid::new_v4().to_string()
}

/// The height of an expression: how deep function calls are nested in it.
pub open spec fn call_depth(e: Expression) -> nat
    decreases e, 0nat,
{
    match e {
        Expression::FunctionCall { name, arguments } => 1 + arguments_depth(
            arguments@,
            arguments@.len(),
        ),
        _ => 0,
    }
}

/// The largest height among the first `n` arguments.
pub open spec fn arguments_depth(arguments: Seq<Expression>, n: nat) -> nat
    decreases arguments, n,
{
    if n == 0 || n > arguments.len() {
        0
    } else {
        let rest = arguments_depth(arguments, (n - 1) as nat);
        let last = call_depth(arguments[n - 1]);
        if last > rest {
            last
        } else {
            rest
        }
    }
}

/// Each argument is less high than the call.
pub proof fn lemma_argument_depth(arguments: Seq<Expression>, n: nat, i: int)
    requires
        0 <= i < n <= arguments.len(),
    ensures
        call_depth(arguments[i]) <= arguments_depth(arguments, n),
    decreases n,
{
    if i < n - 1 {
        lemma_argument_depth(arguments, (n - 1) as nat, i);
    }
}

/// The message of the error for `their` outside a where clause.
pub open spec fn their_outside_message() -> Seq<char> {
    "'their' can only be used in a 'where' clause"@
}

/// The message of the error for a filter on something that is no path.
pub open spec fn filter_base_message() -> Seq<char> {
    "Filtering is currently only supported on path expressions"@
}

/// What a filter on the entities under a path may give: the text of the
/// array of the entities of which all the conditions hold, each once,
/// whatever logical operator stands between the conditions; or, where a
/// condition does not compare a `their` path with a literal, or where a
/// value cannot be compared as asked, the report of that. An entity of
/// which all the conditions hold is left out only where it cannot be
/// reconstructed.
pub open spec fn filtered_outcome<S: Store>(
    store: S,
    base: Seq<Seg>,
    where_clause: WhereClause,
    r: Result<Value, StoreError>,
) -> bool {
    match r {
        Ok(value) => {
            &&& forall|i: int|
                0 <= i < clause_conditions(where_clause).len() ==> (
                #[trigger] clause_conditions(where_clause)[i]) is Some
            &&& exists|names: Seq<Seq<char>>, entities: Seq<EntityModel>|
                #![trigger names.no_duplicates(), entity_text(EntityModel::Array(entities))]
                {
                    &&& names.no_duplicates()
                    &&& forall|t: Seq<char>|
                        #![trigger names.contains(t)]
                        names.contains(t) <==> qualifies_for_all(
                            store,
                            base,
                            clause_conditions(where_clause),
                            t,
                        )
                    &&& reconstructs(store, base, names, entities)
                    &&& value@ == ValueModel::String(
                        entity_text(EntityModel::Array(entities)),
                    )
                }
        },
        Err(e) => if exists|i: int|
            0 <= i < clause_conditions(where_clause).len() && (
            #[trigger] clause_conditions(where_clause)[i]) is None {
            e@ == ErrorModel::InvalidOperation(bad_condition_message())
        } else if e@ == ErrorModel::InvalidOperation(incomparable_message()) {
            exists|i: int|
                0 <= i < clause_conditions(where_clause).len() && !comparable(
                    store,
                    base,
                    (#[trigger] clause_conditions(where_clause)[i])->0,
                )
        } else {
            is_substrate_error(e@) && !store.infallible()
        },
    }
}

/// The message of the error for a function that is not known.
pub open spec fn unknown_function_message(name: Seq<char>) -> Seq<char> {
    "Unknown function: "@ + name
}

/// What the call of a function on the values of its arguments may give:
/// `count` what counting gives, `now` a string that writes a time in UTC,
/// `uuid` a string of thirty-six characters; any other name is refused.
pub open spec fn call_outcome<S: Store>(
    store: S,
    name: Seq<char>,
    arguments: Seq<ValueModel>,
    r: Result<Value, StoreError>,
) -> bool {
    if name == "count"@ {
        count_outcome(store, arguments, r)
    } else if name == "now"@ {
        r is Ok && r->Ok_0@ is String && is_utc_stamp(r->Ok_0@->String_0)
    } else if name == "uuid"@ {
        r is Ok && r->Ok_0@ is String && r->Ok_0@->String_0.len() == 36
    } else {
        r is Err && r->Err_0@ == ErrorModel::InvalidOperation(unknown_function_message(name))
    }
}

/// What the evaluation of an expression on a store may give.
///
/// A literal gives its value. A path gives the value of the endpoint
/// there, else the entity under it carried as a value, else the report
/// that it was not found. A `their` path is refused. A function call has
/// its arguments evaluated from left to right: the first that fails ends
/// the evaluation with its error; where none fails, the function is called
/// on their values. A filter is evaluated on a path only.
pub open spec fn evaluated<S: Store>(store: S, e: Expression, r: Result<Value, StoreError>) -> bool
    decreases e, 0nat,
{
    match e {
        Expression::Literal(value) => r is Ok && r->Ok_0@ == value@,
        Expression::TheirPath(_) => r is Err && r->Err_0@ == ErrorModel::InvalidOperation(
            their_outside_message(),
        ),
        Expression::Path(path) => path_outcome(store, path@, r),
        Expression::Filtered { base, where_clause } => match *base {
            Expression::Path(path) => filtered_outcome(store, path@, where_clause, r),
            _ => r is Err && r->Err_0@ == ErrorModel::InvalidOperation(filter_base_message()),
        },
        Expression::FunctionCall { name, arguments } => exists|values: Seq<Value>|
            #![trigger value_models(values)]
            {
                &&& value_models(values).len() <= arguments@.len()
                &&& arguments_evaluated(store, arguments@, values, values.len())
                &&& if values.len() == arguments@.len() {
                    call_outcome(store, name@, value_models(values), r)
                } else {
                    r is Err && evaluated(store, arguments@[values.len() as int], r)
                }
            },
    }
}

/// Whether the first `n` arguments may evaluate to the first `n` values.
pub open spec fn arguments_evaluated<S: Store>(
    store: S,
    arguments: Seq<Expression>,
    values: Seq<Value>,
    n: nat,
) -> bool
    decreases arguments, n,
{
    if n == 0 {
        true
    } else if n > arguments.len() || n > values.len() {
        false
    } else {
        arguments_evaluated(store, arguments, values, (n - 1) as nat) && evaluated(
            store,
            arguments[n - 1],
            Ok(values[n - 1]),
        )
    }
}

/// Whether the first arguments may evaluate to the first values depends
/// on those values only.
pub proof fn lemma_arguments_evaluated_more<S: Store>(
    store: S,
    arguments: Seq<Expression>,
    fewer: Seq<Value>,
    more: Seq<Value>,
    n: nat,
)
    requires
        n <= fewer.len() <= more.len(),
        forall|i: int| 0 <= i < n ==> fewer[i] == more[i],
        arguments_evaluated(store, arguments, fewer, n),
    ensures
        arguments_evaluated(store, arguments, more, n),
    decreases n,
{
    if n > 0 {
        lemma_arguments_evaluated_more(store, arguments, fewer, more, (n - 1) as nat);
    }
}

/// Context for expression evaluation
pub struct EvaluationContext<'a, S: Store> {
    /// The database store
    pub store: &'a S,
}

impl<'a, S: Store> EvaluationContext<'a, S> {
    /// Create a new evaluation context
    pub fn new(store: &'a S) -> (r: Self)
        ensures
            r.store == store,
    {
        EvaluationContext { store }
    }

    /// Evaluate an expression in this context.
    ///
    /// A literal is its value. A path is the value of the endpoint there;
    /// where there is none, it is the entity under the path, carried as a
    /// value; where there is none either, the path is reported as not
    /// found. A `their` path is refused. A function call has its arguments
    /// evaluated from left to right and is then carried out. A filtered
    /// expression finds the entities under a path of which all the
    /// conditions hold.
    pub fn evaluate(&self, expr: &Expression) -> (r: Result<Value, StoreError>)
        requires
            self.store.valid(),
        ensures
            evaluated(*self.store, *expr, r),
        decreases call_depth(*expr),
    {
        match expr {
            Expression::Literal(value) => Ok(value.clone()),
            Expression::Path(path) => self.evaluate_path(path),
            Expression::TheirPath(_) => Err(
                invalid_operation("'their' can only be used in a 'where' clause"),
            ),
            Expression::FunctionCall { name, arguments } => {
                let mut values: Vec<Value> = Vec::new();
                let mut i: usize = 0;
                while i < arguments.len()
                    invariant
                        i <= arguments.len(),
                        values@.len() == i,
                        self.store.valid(),
                        *expr == (Expression::FunctionCall { name: *name, arguments: *arguments }),
                        arguments_evaluated(*self.store, arguments@, values@, i as nat),
                    decreases arguments.len() - i,
                {
                    proof {
                        lemma_argument_depth(arguments@, arguments@.len(), i as int);
                    }
                    match self.evaluate(&arguments[i]) {
                        Ok(value) => {
                            let ghost before = values@;
                            values.push(value);
                            proof {
                                lemma_arguments_evaluated_more(
                                    *self.store,
                                    arguments@,
                                    before,
                                    values@,
                                    i as nat,
                                );
                            }
                        },
                        Err(e) => {
                            let failed: Result<Value, StoreError> = Err(e);
                            proof {
                                assert(evaluated(*self.store, arguments@[i as int], failed));
                                assert(value_models(values@).len() == i);
                            }
                            return failed;
                        },
                    }
                    i += 1;
                }
                let r = self.call_function(name.as_str(), &values);
                proof {
                    assert(value_models(values@).len() == arguments@.len());
                }
                r
            },
            Expression::Filtered { base, where_clause } => {
                match &**base {
                    Expression::Path(path) => self.evaluate_filtered_expression(path, where_clause),
                    _ => Err(
                        invalid_operation(
                            "Filtering is currently only supported on path expressions",
                        ),
                    ),
                }
            },
        }
    }

    /// The value of a path: the value of the endpoint there, or the entity
    /// under the path, carried as a value.
    pub fn evaluate_path(&self, path: &Path) -> (r: Result<Value, StoreError>)
        requires
            self.store.valid(),
        ensures
            path_outcome(*self.store, path@, r),
    {
        match self.store.get(path) {
            Ok(value) => Ok(value),
            Err(e) => {
                match e {
                    StoreError::NotFound(_) => {
                        match reconstruct_entity(self.store, path) {
                            Ok(entity) => Ok(entity_to_value(entity)),
                            Err(failure) => {
                                proof {
                                    if failure@ is NotFound {
                                        let none = Seq::<(Seq<Seg>, ValueModel)>::empty();
                                        assert(lists_map(
                                            none,
                                            under_prefix(self.store.endpoints(), path@),
                                        ));
                                        assert(!(reconstruct_model(path@, none) is Entity));
                                    }
                                }
                                Err(not_found(path))
                            },
                        }
                    },
                    other => Err(other),
                }
            },
        }
    }

    /// Carry out the built-in function of the given name on the values of
    /// its arguments: `count` with the text of a path counts the indexed
    /// paths under it, `now` gives the current time, `uuid` a fresh
    /// identifier. Any other name is refused.
    pub fn call_function(&self, name: &str, arguments: &Vec<Value>) -> (r: Result<
        Value,
        StoreError,
    >)
        requires
            self.store.valid(),
        ensures
            call_outcome(*self.store, name@, value_models(arguments@), r),
    {
        proof {
            reveal_strlit("count");
            reveal_strlit("now");
            reveal_strlit("uuid");
            assert("count"@.len() == 5 && "now"@.len() == 3 && "uuid"@.len() == 4);
        }
        let n = text_of(name);
        let count = text_of("count");
        let now = text_of("now");
        let uuid = text_of("uuid");
        if n == count {
            self.function_count(arguments)
        } else if n == now {
            let text = current_time_text();
            Ok(Value::String(text))
        } else if n == uuid {
            let text = fresh_identifier_text();
            Ok(Value::String(text))
        } else {
            let mut message: Vec<char> = Vec::new();
            push_str(&mut message, "Unknown function: ");
            push_str(&mut message, name);
            let message = string_of(&message);
            Err(invalid_operation(message.as_str()))
        }
    }

    /// Count the indexed paths under the path whose text is the only
    /// argument.
    pub fn function_count(&self, arguments: &Vec<Value>) -> (r: Result<Value, StoreError>)
        requires
            self.store.valid(),
        ensures
            count_outcome(*self.store, value_models(arguments@), r),
    {
        if arguments.len() != 1 {
            return Err(invalid_operation("count() function requires exactly one argument"));
        }
        assert(value_models(arguments@)[0] == arguments@[0]@);
        match &arguments[0] {
            Value::String(text) => {
                let path = match Path::parse(text.as_str()) {
                    Ok(path) => path,
                    Err(e) => {
                        return Err(StoreError::PathError(e));
                    },
                };
                match self.store.count_prefix(&path) {
                    Ok(n) => {
                        if n as u64 > 0x7fff_ffff_ffff_ffffu64 {
                            Err(invalid_operation("count() result is too large"))
                        } else {
                            Ok(Value::Integer(n as i64))
                        }
                    },
                    Err(e) => Err(e),
                }
            },
            _ => Err(invalid_operation("count() function requires a path string argument")),
        }
    }

    /// Find the entities under a path of which all the conditions of a
    /// where clause hold, and give them back as the text of an array.
    ///
    /// Each condition compares a `their` path with a literal. For each
    /// condition, the endpoints that the `their` path names under the
    /// entities of the base path are queried, and the entities whose value
    /// compares as asked are kept. The entities kept for all the
    /// conditions are reconstructed, whether `&&` or `||` stands between
    /// the conditions; one that has no entity to reconstruct is passed
    /// over.
    pub fn evaluate_filtered_expression(&self, base: &Path, where_clause: &WhereClause) -> (r:
        Result<Value, StoreError>)
        requires
            self.store.valid(),
        ensures
            filtered_outcome(*self.store, base@, *where_clause, r),
    {
        let ghost conditions = clause_conditions(*where_clause);
        let asked = match extract_their_conditions(where_clause) {
            Ok(asked) => asked,
            Err(e) => {
                proof {
                    if their_condition(where_clause.first_condition) is None {
                        assert(conditions[0] is None);
                    } else {
                        let k = choose|k: int|
                            0 <= k < where_clause.additional_conditions.len() && their_condition(
                                (#[trigger] where_clause.additional_conditions@[k]).1,
                            ) is None;
                        assert(conditions[k + 1] is None);
                    }
                }
                return Err(e);
            },
        };
        proof {
            assert forall|i: int| 0 <= i < conditions.len() implies (#[trigger] conditions[i])
                == Some((names_model(asked@[i].0@), asked@[i].1, asked@[i].2@)) by {
                if i > 0 {
                    assert(their_condition(where_clause.additional_conditions@[i - 1].1) == Some(
                        (names_model(asked@[i].0@), asked@[i].1, asked@[i].2@),
                    ));
                }
            }
        }
        let mut ids: Vec<String> = Vec::new();
        let mut i: usize = 0;
        while i < asked.len()
            invariant
                i <= asked.len(),
                self.store.valid(),
                conditions == clause_conditions(*where_clause),
                asked.len() == conditions.len(),
                asked.len() >= 1,
                forall|k: int|
                    0 <= k < conditions.len() ==> (#[trigger] conditions[k]) == Some(
                        (names_model(asked@[k].0@), asked@[k].1, asked@[k].2@),
                    ),
                names_model(ids@).no_duplicates(),
                i > 0 ==> forall|t: Seq<char>|
                    #![trigger names_model(ids@).contains(t)]
                    names_model(ids@).contains(t) <==> qualifies_for_all(
                        *self.store,
                        base@,
                        conditions.take(i as int),
                        t,
                    ),
                i == 0 ==> ids@.len() == 0,
            decreases asked.len() - i,
        {
            let mut stem = base.clone();
            stem.push_segment(PathSegment::single_wildcard());
            let pattern = extend_path(&stem, &asked[i].0);
            let ghost condition = conditions[i as int]->0;
            assert(pattern@ == their_pattern(base@, condition.0));
            let results = match self.store.query(&pattern) {
                Ok(results) => results,
                Err(e) => {
                    return Err(e);
                },
            };
            let ghost listed = pairs_model(results@);
            let ghost found_in = query_result(
                self.store.endpoints(),
                self.store.matchable(),
                pattern@,
            );
            let found = match matching_ids(base.len(), &results, asked[i].1, &asked[i].2) {
                Ok(found) => found,
                Err(e) => {
                    proof {
                        let k = choose|k: int|
                            0 <= k < results.len() && comparison(
                                (#[trigger] listed[k]).1,
                                asked@[i as int].1,
                                asked@[i as int].2@,
                            ) is None;
                        assert(found_in.contains_pair(listed[k].0, listed[k].1));
                        assert(!comparable(*self.store, base@, condition));
                        assert(!(exists|j: int|
                            0 <= j < conditions.len() && (#[trigger] conditions[j]) is None));
                    }
                    return Err(e);
                },
            };
            proof {
                assert forall|t: Seq<char>| #[trigger]
                    names_model(found@).contains(t) <==> qualifies(
                        *self.store,
                        base@,
                        condition,
                        t,
                    ) by {
                    if names_model(found@).contains(t) {
                        let k = choose|k: int|
                            #![trigger listed[k]]
                            names_entity(listed, k, base@.len() as int, condition.1, condition.2)
                                && seg_text(listed[k].0[base@.len() as int]) == t;
                        assert(found_in.contains_pair(listed[k].0, listed[k].1));
                    }
                    if qualifies(*self.store, base@, condition, t) {
                        let (q, v) = choose|q: Seq<Seg>, v: ValueModel|
                            #![trigger found_in.contains_pair(q, v)]
                            found_in.contains_pair(q, v) && comparison(v, condition.1, condition.2)
                                == Some(true) && base@.len() < q.len() && seg_text(
                                q[base@.len() as int],
                            ) == t;
                        let k = choose|k: int| 0 <= k < listed.len() && (#[trigger] listed[k]).0 == q;
                        assert(found_in.contains_pair(listed[k].0, listed[k].1));
                        assert(names_entity(
                            listed,
                            k,
                            base@.len() as int,
                            condition.1,
                            condition.2,
                        ));
                    }
                }
            }
            let ghost before = names_model(ids@);
            let ghost done = conditions.take(i as int);
            let ghost next = conditions.take(i + 1);
            if i == 0 {
                ids = found;
            } else {
                ids = intersect_ids(&ids, &found);
                proof {
                    lemma_filter_members(
                        before,
                        |t: Seq<char>| names_model(found@).contains(t),
                    );
                }
            }
            proof {
                assert(next == done.push(conditions[i as int]));
                assert forall|t: Seq<char>| #[trigger]
                    names_model(ids@).contains(t) <==> qualifies_for_all(
                        *self.store,
                        base@,
                        next,
                        t,
                    ) by {
                    let here = qualifies(*self.store, base@, condition, t);
                    if qualifies_for_all(*self.store, base@, next, t) {
                        assert(next[i as int] == conditions[i as int]);
                        assert(here);
                        assert forall|k: int| 0 <= k < done.len() implies (
                        #[trigger] done[k]) is Some && qualifies(
                            *self.store,
                            base@,
                            done[k]->0,
                            t,
                        ) by {
                            assert(next[k] == done[k]);
                        }
                    }
                    if (i == 0 || qualifies_for_all(*self.store, base@, done, t)) && here {
                        assert forall|k: int| 0 <= k < next.len() implies (
                        #[trigger] next[k]) is Some && qualifies(
                            *self.store,
                            base@,
                            next[k]->0,
                            t,
                        ) by {
                            if k < i {
                                assert(next[k] == done[k]);
                            }
                        }
                    }
                }
            }
            i += 1;
        }
        assert(conditions.take(i as int) == conditions);
        let ghost names = names_model(ids@);
        let mut entities: Vec<Entity> = Vec::new();
        let mut k: usize = 0;
        assert(items_model(entities@) =~= Seq::<EntityModel>::empty());
        assert(names.take(0).len() == 0);
        while k < ids.len()
            invariant
                k <= ids.len(),
                self.store.valid(),
                names == names_model(ids@),
                reconstructs(*self.store, base@, names.take(k as int), items_model(entities@)),
            decreases ids.len() - k,
        {
            let mut place = base.clone();
            place.push(ids[k].as_str());
            let ghost head = names.take(k as int);
            let ghost next = names.take(k + 1);
            let ghost listed = items_model(entities@);
            proof {
                assert(next.drop_last() == head);
                assert(next.last() == ids@[k as int]@);
            }
            match reconstruct_entity(self.store, &place) {
                Ok(entity) => {
                    let ghost made = entity@;
                    entities.push(entity);
                    proof {
                        let grown = items_model(entities@);
                        assert(grown =~= listed.push(made));
                        assert(grown.drop_last() == listed);
                        assert(entity_at(*self.store, base@.push(classify(next.last())), made));
                    }
                },
                Err(failure) => {
                    proof {
                        let at = base@.push(classify(next.last()));
                        assert(place@ == at);
                        if failure@ is NotFound {
                            let none = Seq::<(Seq<Seg>, ValueModel)>::empty();
                            assert(lists_map(none, under_prefix(self.store.endpoints(), at)));
                            assert(!(reconstruct_model(at, none) is Entity));
                        }
                        assert(no_entity_at(*self.store, at));
                    }
                },
            }
            k += 1;
        }
        assert(names.take(k as int) == names);
        let array = Entity::Array(entities);
        proof {
            lemma_array_view(array->Array_0);
        }
        let text = array.to_text();
        Ok(Value::String(text))
    }
}

/// What the conditions of a where clause ask, first condition first;
/// nothing for a condition that asks nothing that can be answered.
pub open spec fn clause_conditions(where_clause: WhereClause) -> Seq<
    Option<(Seq<Seq<char>>, ComparisonOperator, ValueModel)>,
> {
    seq![their_condition(where_clause.first_condition)] + where_clause.additional_conditions@.map_values(
        |c: (LogicalOperator, Condition)| their_condition(c.1),
    )
}

/// Whether the entity of the given name under the base path meets what a
/// condition asks: the query for the `their` path of the condition finds
/// an endpoint that lies under the entity and whose value compares with
/// the literal as asked.
pub open spec fn qualifies<S: Store>(
    store: S,
    base: Seq<Seg>,
    asked: (Seq<Seq<char>>, ComparisonOperator, ValueModel),
    name: Seq<char>,
) -> bool {
    exists|p: Seq<Seg>, v: ValueModel|
        #![trigger query_result(store.endpoints(), store.matchable(), their_pattern(base, asked.0)).contains_pair(p, v)]
        query_result(
            store.endpoints(),
            store.matchable(),
            their_pattern(base, asked.0),
        ).contains_pair(p, v) && comparison(v, asked.1, asked.2) == Some(true) && base.len()
            < p.len() && seg_text(p[base.len() as int]) == name
}

/// Whether every value that the query for the `their` path of a condition
/// finds can be compared with the literal as asked.
pub open spec fn comparable<S: Store>(
    store: S,
    base: Seq<Seg>,
    asked: (Seq<Seq<char>>, ComparisonOperator, ValueModel),
) -> bool {
    forall|p: Seq<Seg>, v: ValueModel|
        #![trigger query_result(store.endpoints(), store.matchable(), their_pattern(base, asked.0)).contains_pair(p, v)]
        query_result(
            store.endpoints(),
            store.matchable(),
            their_pattern(base, asked.0),
        ).contains_pair(p, v) ==> comparison(v, asked.1, asked.2) is Some
}

/// Whether the entity of the given name meets what all the conditions ask.
pub open spec fn qualifies_for_all<S: Store>(
    store: S,
    base: Seq<Seg>,
    conditions: Seq<Option<(Seq<Seq<char>>, ComparisonOperator, ValueModel)>>,
    name: Seq<char>,
) -> bool {
    forall|i: int|
        0 <= i < conditions.len() ==> (#[trigger] conditions[i]) is Some && qualifies(
            store,
            base,
            conditions[i]->0,
            name,
        )
}

/// Whether `m` is an entity that some listing of the endpoints under
/// `place` makes.
pub open spec fn entity_at<S: Store>(store: S, place: Seq<Seg>, m: EntityModel) -> bool {
    exists|endpoints: Seq<(Seq<Seg>, ValueModel)>|
        #![trigger reconstruct_model(place, endpoints)]
        lists_map(endpoints, under_prefix(store.endpoints(), place)) && reconstruct_model(
            place,
            endpoints,
        ) == Reconstruction::Entity(m)
}

/// Whether a name may be passed over: some listing of the endpoints under
/// `place` makes no entity, because there are none or because their kinds
/// conflict; or the store can fail.
pub open spec fn no_entity_at<S: Store>(store: S, place: Seq<Seg>) -> bool {
    ||| !store.infallible()
    ||| exists|endpoints: Seq<(Seq<Seg>, ValueModel)>|
        #![trigger reconstruct_model(place, endpoints)]
        lists_map(endpoints, under_prefix(store.endpoints(), place)) && !(reconstruct_model(
            place,
            endpoints,
        ) is Entity)
}

/// Whether the entities are the reconstructions of the entities of the
/// given names under the base path, in the order of the names: each name
/// gives its entity, and is passed over only where it has none.
pub open spec fn reconstructs<S: Store>(
    store: S,
    base: Seq<Seg>,
    names: Seq<Seq<char>>,
    entities: Seq<EntityModel>,
) -> bool
    decreases names.len(),
{
    if names.len() == 0 {
        entities.len() == 0
    } else {
        ||| (no_entity_at(store, base.push(classify(names.last()))) && reconstructs(
            store,
            base,
            names.drop_last(),
            entities,
        ))
        ||| (entities.len() > 0 && entity_at(
            store,
            base.push(classify(names.last())),
            entities.last(),
        ) && reconstructs(store, base, names.drop_last(), entities.drop_last()))
    }
}

/// The models of a list of values, in order.
pub open spec fn value_models(v: Seq<Value>) -> Seq<ValueModel> {
    v.map_values(|x: Value| x@)
}

/// What the evaluation of a path may give: the value of the endpoint at
/// the path; or, where there is no endpoint, the value that carries the
/// entity made of some listing of the endpoints under the path; or, where
/// there is neither, the report that the path was not found.
pub open spec fn path_outcome<S: Store>(store: S, path: Seq<Seg>, r: Result<Value, StoreError>) -> bool {
    match r {
        Ok(value) => {
            ||| store.endpoints().contains_pair(path, value@)
            ||| (path.len() > 0 && !store.endpoints().dom().contains(path) && exists|
                endpoints: Seq<(Seq<Seg>, ValueModel)>,
            |
                #![trigger reconstruct_model(path, endpoints)]
                lists_map(endpoints, under_prefix(store.endpoints(), path)) && (reconstruct_model(
                    path,
                    endpoints,
                ) matches Reconstruction::Entity(m) && value@ == carried_value(m)))
        },
        Err(e) => if path.len() == 0 {
            e@ == ErrorModel::InvalidOperation(empty_get_message())
        } else if e@ is NotFound {
            &&& e@ == ErrorModel::NotFound(path)
            &&& !store.endpoints().dom().contains(path)
            &&& store.infallible() ==> exists|endpoints: Seq<(Seq<Seg>, ValueModel)>|
                #![trigger reconstruct_model(path, endpoints)]
                lists_map(endpoints, under_prefix(store.endpoints(), path)) && !(reconstruct_model(
                    path,
                    endpoints,
                ) is Entity)
        } else {
            is_substrate_error(e@) && !store.infallible()
        },
    }
}

/// The message of the error for `count` without exactly one argument.
pub open spec fn count_arity_message() -> Seq<char> {
    "count() function requires exactly one argument"@
}

/// The message of the error for `count` on something that is no string.
pub open spec fn count_kind_message() -> Seq<char> {
    "count() function requires a path string argument"@
}

/// The message of the error for a count that no integer value can hold.
pub open spec fn count_size_message() -> Seq<char> {
    "count() result is too large"@
}

/// What `count` may give for the values of its arguments: with one string
/// that is the text of a path, the number of indexed paths under that
/// path; any other arguments are refused.
pub open spec fn count_outcome<S: Store>(
    store: S,
    arguments: Seq<ValueModel>,
    r: Result<Value, StoreError>,
) -> bool {
    if arguments.len() != 1 {
        r is Err && r->Err_0@ == ErrorModel::InvalidOperation(count_arity_message())
    } else if !(arguments[0] is String) {
        r is Err && r->Err_0@ == ErrorModel::InvalidOperation(count_kind_message())
    } else {
        match parse_text(arguments[0]->String_0) {
            Some(path) => match r {
                Ok(value) => value@ == ValueModel::Integer(
                    paths_under(store.indexed(), path).len() as int,
                ),
                Err(e) => if e@ is InvalidOperation {
                    e@ == ErrorModel::InvalidOperation(count_size_message()) && paths_under(
                        store.indexed(),
                        path,
                    ).len() > i64::MAX
                } else {
                    is_substrate_error(e@) && !store.infallible()
                },
            },
            None => r is Err && r->Err_0@ is PathError,
        }
    }
}

} // verus!
