//! The query language: syntax tree, evaluation, execution and parsing.

pub mod ast;
pub mod evaluator;
pub mod executor;
pub mod lexer;
pub mod parser;

use crate::errors::StoreError;
use crate::ql::ast::Query;
use crate::ql::executor::query_done;
use crate::ql::parser::{parse_query, parse_query_text};
use crate::store::Store;
use crate::value::Value;
use vstd::prelude::*;

verus! {

/// Execute the text of a query on the given store. A text that is no
/// query is refused and the store is left as it is.
pub fn execute_query<S: Store>(store: &mut S, query_str: &str) -> (r: Result<Value, StoreError>)
    requires
        old(store).valid(),
    ensures
        final(store).valid(),
        final(store).infallible() == old(store).infallible(),
        match parse_query_text(query_str@) {
            Some(written) => exists|query: Query|
                #![trigger query_done(*old(store), query, *final(store), r)]
                query@ == written && query_done(*old(store), query, *final(store), r),
            None => r is Err && r->Err_0@ is InvalidOperation && final(store).endpoints() == old(store).endpoints(),
        },
{
    let query = match parse_query(query_str) {
        Ok(query) => query,
        Err(e) => {
            return Err(e);
        },
    };
    let r = crate::ql::executor::execute_query(store, &query);
    proof {
        assert(query_done(*old(store), query, *final(store), r));
    }
    r
}

} // verus!
