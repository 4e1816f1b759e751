//! The execution of parsed queries against a store.

use crate::errors::{ErrorModel, StoreError};
use crate::ql::ast::{Expression, Operation, Query};
use crate::ql::evaluator::{evaluated, EvaluationContext};
use crate::store::{empty_delete_message, empty_set_message, is_substrate_error, Store};
use crate::value::{Value, ValueModel};
use vstd::prelude::*;

verus! {

/// What an assignment may do to a store. Its expression is evaluated on
/// the store as it was. Where that fails, the assignment fails with the
/// same error and the endpoints stay. Otherwise the value is set at the
/// path, as the store sets it: an empty path is refused and the endpoints
/// stay.
pub open spec fn assignment_done<S: Store>(
    before: S,
    path: Seq<crate::path::Seg>,
    expression: Expression,
    after: S,
    r: Result<(), StoreError>,
) -> bool {
    match r {
        Ok(()) => path.len() > 0 && exists|value: Value|
            #![trigger before.endpoints().insert(path, value@)]
            evaluated(before, expression, Ok(value)) && after.endpoints()
                == before.endpoints().insert(path, value@),
        Err(e) => {
            ||| evaluated(before, expression, Err(e)) && after.endpoints() == before.endpoints()
            ||| (exists|value: Value| #[trigger]
                evaluated(before, expression, Ok(value))) && (if path.len() == 0 {
                e@ == ErrorModel::InvalidOperation(empty_set_message()) && after.endpoints()
                    == before.endpoints()
            } else {
                is_substrate_error(e@) && !before.infallible()
            })
        },
    }
}

/// What a deletion may do to a store: the endpoint at the path leaves; an
/// empty path is refused, a missing endpoint is reported, and the
/// endpoints stay.
pub open spec fn deletion_done<S: Store>(
    before: S,
    path: Seq<crate::path::Seg>,
    after: S,
    r: Result<(), StoreError>,
) -> bool {
    match r {
        Ok(()) => path.len() > 0 && before.endpoints().dom().contains(path) && after.endpoints()
            == before.endpoints().remove(path),
        Err(e) => if path.len() == 0 {
            e@ == ErrorModel::InvalidOperation(empty_delete_message()) && after.endpoints()
                == before.endpoints()
        } else if e@ is NotFound {
            e@ == ErrorModel::NotFound(path) && !before.endpoints().dom().contains(path)
                && after.endpoints() == before.endpoints()
        } else {
            is_substrate_error(e@) && !before.infallible()
        },
    }
}

/// What an operation may do to a store.
pub open spec fn operation_done<S: Store>(
    before: S,
    operation: Operation,
    after: S,
    r: Result<(), StoreError>,
) -> bool {
    match operation {
        Operation::Assignment { path, expression } => assignment_done(
            before,
            path@,
            expression,
            after,
            r,
        ),
        Operation::Delete { path } => deletion_done(before, path@, after, r),
    }
}

/// Whether the first operations succeed one after the other and lead
/// through the given states: each works on the state that the one before
/// it left.
pub open spec fn operations_done<S: Store>(states: Seq<S>, operations: Seq<Operation>) -> bool {
    &&& 1 <= states.len() <= operations.len() + 1
    &&& forall|i: int|
        #![trigger states[i]]
        0 <= i < states.len() - 1 ==> operation_done(
            states[i],
            operations[i],
            states[i + 1],
            Ok(()),
        )
}

/// What a query may do to a store and give back. Its operations are done
/// in the order in which they stand, each on what the one before it left.
/// The first that fails ends the query with its error. Where none fails,
/// the expression to return is evaluated on what the last one left; a
/// query that returns nothing gives `true`.
pub open spec fn query_done<S: Store>(
    before: S,
    query: Query,
    after: S,
    r: Result<Value, StoreError>,
) -> bool {
    exists|states: Seq<S>|
        #![trigger operations_done(states, query.operations@)]
        {
            &&& operations_done(states, query.operations@)
            &&& states[0] == before
            &&& if states.len() == query.operations@.len() + 1 {
                &&& after == states.last()
                &&& match query.return_expr {
                    Some(expression) => evaluated(after, expression, r),
                    None => r is Ok && r->Ok_0@ == ValueModel::Boolean(true),
                }
            } else {
                r is Err && operation_done(
                    states.last(),
                    query.operations@[states.len() - 1],
                    after,
                    Err(r->Err_0),
                )
            }
        }
}

/// Execute a single operation. An assignment evaluates its expression and
/// sets the value at its path; where the evaluation fails, nothing is set.
/// A deletion deletes the value at its path.
pub fn execute_operation<S: Store>(store: &mut S, operation: &Operation) -> (r: Result<
    (),
    StoreError,
>)
    requires
        old(store).valid(),
    ensures
        final(store).valid(),
        final(store).infallible() == old(store).infallible(),
        operation_done(*old(store), *operation, *final(store), r),
{
    match operation {
        Operation::Assignment { path, expression } => {
            let evaluation = {
                let context = EvaluationContext::new(&*store);
                context.evaluate(expression)
            };
            match evaluation {
                Ok(value) => {
                    let ghost held = value;
                    let r = store.set(path.clone(), value);
                    proof {
                        assert(evaluated(*old(store), *expression, Ok(held)));
                        if r is Ok {
                            assert(final(store).endpoints() == old(store).endpoints().insert(
                                path@,
                                held@,
                            ));
                        }
                    }
                    r
                },
                Err(e) => {
                    assert(evaluated(*old(store), *expression, Err(e)));
                    Err(e)
                },
            }
        },
        Operation::Delete { path } => store.delete(path),
    }
}

/// Execute a parsed query against the store: the operations in the order
/// in which they stand, then the expression to return. A query that
/// returns nothing gives `true`. The first operation that fails ends the
/// query with its error.
pub fn execute_query<S: Store>(store: &mut S, query: &Query) -> (r: Result<Value, StoreError>)
    requires
        old(store).valid(),
    ensures
        final(store).valid(),
        final(store).infallible() == old(store).infallible(),
        query_done(*old(store), *query, *final(store), r),
{
    let ghost mut states: Seq<S> = seq![*store];
    let mut i: usize = 0;
    while i < query.operations.len()
        invariant
            i <= query.operations.len(),
            store.valid(),
            store.infallible() == old(store).infallible(),
            states.len() == i + 1,
            states[0] == *old(store),
            states.last() == *store,
            operations_done(states, query.operations@),
        decreases query.operations.len() - i,
    {
        let ghost before = *store;
        match execute_operation(store, &query.operations[i]) {
            Ok(()) => {},
            Err(e) => {
                let failed: Result<Value, StoreError> = Err(e);
                proof {
                    assert(operation_done(
                        states.last(),
                        query.operations@[states.len() - 1],
                        *store,
                        Err(failed->Err_0),
                    ));
                }
                return failed;
            },
        }
        proof {
            let longer = states.push(*store);
            assert forall|k: int| #![trigger longer[k]] 0 <= k < longer.len() - 1 implies operation_done(
                longer[k],
                query.operations@[k],
                longer[k + 1],
                Ok(()),
            ) by {
                if k < states.len() - 1 {
                    assert(longer[k] == states[k]);
                    assert(longer[k + 1] == states[k + 1]);
                } else {
                    assert(longer[k] == before);
                }
            }
            states = longer;
        }
        i += 1;
    }
    match &query.return_expr {
        Some(expression) => {
            let context = EvaluationContext::new(&*store);
            context.evaluate(expression)
        },
        None => Ok(Value::Boolean(true)),
    }
}

} // verus!
