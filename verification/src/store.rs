//! The operations of a store, and what each of them promises.

use crate::errors::{ErrorModel, StoreError};
use crate::path::{path_has_wildcards, path_matches, path_starts_with, Path, Seg};
use crate::value::{Value, ValueModel};
use vstd::prelude::*;

verus! {

/// The endpoints of a store: each stored path with its value.
pub type Endpoints = Map<Seq<Seg>, ValueModel>;

/// The models of a list of paths, in order.
pub open spec fn paths_model(v: Seq<Path>) -> Seq<Seq<Seg>> {
    v.map_values(|p: Path| p@)
}

/// The models of a list of endpoints, in order.
pub open spec fn pairs_model(v: Seq<(Path, Value)>) -> Seq<(Seq<Seg>, ValueModel)> {
    v.map_values(|e: (Path, Value)| (e.0@, e.1@))
}

/// The list `s` holds each member of `want` once and nothing else.
pub open spec fn lists_set<K>(s: Seq<K>, want: Set<K>) -> bool {
    &&& s.no_duplicates()
    &&& forall|k: K| s.contains(k) <==> want.contains(k)
}

/// The list `s` holds each pair of `want` once and nothing else.
pub open spec fn lists_map<K, V>(s: Seq<(K, V)>, want: Map<K, V>) -> bool {
    &&& forall|i: int, j: int| 0 <= i < j < s.len() ==> s[i].0 != s[j].0
    &&& forall|i: int| 0 <= i < s.len() ==> want.contains_pair((#[trigger] s[i]).0, s[i].1)
    &&& forall|k: K| want.dom().contains(k) ==> exists|i: int| 0 <= i < s.len() && (#[trigger] s[i]).0 == k
}

/// The endpoints of `all` whose path starts with `prefix`.
pub open spec fn under_prefix(all: Endpoints, prefix: Seq<Seg>) -> Endpoints {
    all.restrict(Set::new(|p: Seq<Seg>| path_starts_with(p, prefix)))
}

/// The paths of `known` that start with `prefix`.
pub open spec fn paths_under(known: Set<Seq<Seg>>, prefix: Seq<Seg>) -> Set<Seq<Seg>> {
    known.filter(|p: Seq<Seg>| path_starts_with(p, prefix))
}

/// What a query for `pattern` finds. A pattern without wildcards names one
/// endpoint. Any other pattern finds the endpoints whose path the index
/// knows and which match the pattern.
pub open spec fn query_result(all: Endpoints, known: Set<Seq<Seg>>, pattern: Seq<Seg>) -> Endpoints {
    if path_has_wildcards(pattern) {
        all.restrict(Set::new(|p: Seq<Seg>| known.contains(p) && path_matches(p, pattern)))
    } else {
        all.restrict(set![pattern])
    }
}

/// The paths of `known` that match `pattern`.
pub open spec fn paths_matching(known: Set<Seq<Seg>>, pattern: Seq<Seg>) -> Set<Seq<Seg>> {
    known.filter(|p: Seq<Seg>| path_matches(p, pattern))
}

/// Which relation a selection goes by.
#[derive(Clone, Copy, PartialEq, Eq, Structural)]
pub enum Selector {
    /// The paths that start with the given path.
    Prefix,
    /// The paths that match the given path.
    Pattern,
}

/// Whether a selection keeps the path `p`.
pub open spec fn keeps(selector: Selector, p: Seq<Seg>, given: Seq<Seg>) -> bool {
    match selector {
        Selector::Prefix => path_starts_with(p, given),
        Selector::Pattern => path_matches(p, given),
    }
}

/// Whether the path is kept by the selection.
pub fn selects(selector: Selector, path: &Path, given: &Path) -> (r: bool)
    ensures
        r == keeps(selector, path@, given@),
{
    match selector {
        Selector::Prefix => path.starts_with(given),
        Selector::Pattern => path.matches(given),
    }
}

/// The message of the error for an empty path given to `set`.
pub open spec fn empty_set_message() -> Seq<char> {
    "Cannot set value at empty path"@
}

/// The message of the error for an empty path given to `get`.
pub open spec fn empty_get_message() -> Seq<char> {
    "Cannot get value at empty path"@
}

/// The message of the error for an empty path given to `delete`.
pub open spec fn empty_delete_message() -> Seq<char> {
    "Cannot delete value at empty path"@
}

/// The message of the error for an empty path given to `exists`.
pub open spec fn empty_exists_message() -> Seq<char> {
    "Cannot check empty path"@
}

/// Whether `e` reports a failure of what lies under the store, not a
/// refusal of the request.
pub open spec fn is_substrate_error(e: ErrorModel) -> bool {
    e is Internal || e is SerializationError || e is DeserializationError
}

/// The core operations of a store.
///
/// A store is described by its endpoints and by the sets of paths that its
/// indexes know: one for listings by prefix, one for queries with
/// wildcards. A store that keeps no separate index knows exactly the stored
/// paths. A store whose substrate cannot fail never reports a substrate
/// error.
pub trait Store {
    /// The endpoints in the store.
    spec fn endpoints(&self) -> Endpoints;

    /// The paths that listings by prefix can see.
    spec fn indexed(&self) -> Set<Seq<Seg>>;

    /// The paths that queries with wildcards can see.
    spec fn matchable(&self) -> Set<Seq<Seg>>;

    /// Whether the substrate of the store cannot fail.
    spec fn infallible(&self) -> bool;

    /// Whether the store is in a consistent state.
    spec fn valid(&self) -> bool;

    /// Set a value at the given path. An empty path is refused and nothing
    /// changes.
    fn set(&mut self, path: Path, value: Value) -> (r: Result<(), StoreError>)
        requires
            old(self).valid(),
        ensures
            final(self).valid(),
            final(self).infallible() == old(self).infallible(),
            match r {
                Ok(()) => path@.len() > 0 && final(self).endpoints() == old(self).endpoints().insert(
                    path@,
                    value@,
                ),
                Err(e) => if path@.len() == 0 {
                    e@ == ErrorModel::InvalidOperation(empty_set_message()) && final(self).endpoints() == old(self).endpoints()
                } else {
                    is_substrate_error(e@) && !old(self).infallible()
                },
            },
    ;

    /// Get the value at the given path.
    fn get(&self, path: &Path) -> (r: Result<Value, StoreError>)
        requires
            self.valid(),
        ensures
            match r {
                Ok(v) => path@.len() > 0 && self.endpoints().contains_pair(path@, v@),
                Err(e) => if path@.len() == 0 {
                    e@ == ErrorModel::InvalidOperation(empty_get_message())
                } else if e@ is NotFound {
                    e@ == ErrorModel::NotFound(path@) && !self.endpoints().dom().contains(path@)
                } else {
                    is_substrate_error(e@) && !self.infallible()
                },
            },
    ;

    /// Delete the value at the given path. A missing path is reported and
    /// nothing changes.
    fn delete(&mut self, path: &Path) -> (r: Result<(), StoreError>)
        requires
            old(self).valid(),
        ensures
            final(self).valid(),
            final(self).infallible() == old(self).infallible(),
            match r {
                Ok(()) => path@.len() > 0 && old(self).endpoints().dom().contains(path@) && final(self).endpoints() == old(self).endpoints().remove(path@),
                Err(e) => if path@.len() == 0 {
                    e@ == ErrorModel::InvalidOperation(empty_delete_message()) && final(self).endpoints() == old(self).endpoints()
                } else if e@ is NotFound {
                    e@ == ErrorModel::NotFound(path@) && !old(self).endpoints().dom().contains(
                        path@,
                    ) && final(self).endpoints() == old(self).endpoints()
                } else {
                    is_substrate_error(e@) && !old(self).infallible()
                },
            },
    ;

    /// Check if a path exists in the store.
    fn path_exists(&self, path: &Path) -> (r: Result<bool, StoreError>)
        requires
            self.valid(),
        ensures
            match r {
                Ok(b) => path@.len() > 0 && b == self.endpoints().dom().contains(path@),
                Err(e) => if path@.len() == 0 {
                    e@ == ErrorModel::InvalidOperation(empty_exists_message())
                } else {
                    is_substrate_error(e@) && !self.infallible()
                },
            },
    ;

    /// List the indexed paths that start with the given prefix.
    fn list_prefix(&self, prefix: &Path) -> (r: Result<Vec<Path>, StoreError>)
        requires
            self.valid(),
        ensures
            match r {
                Ok(paths) => lists_set(paths_model(paths@), paths_under(self.indexed(), prefix@)),
                Err(e) => is_substrate_error(e@) && !self.infallible(),
            },
    ;

    /// Get all endpoints under a prefix.
    fn get_prefix(&self, prefix: &Path) -> (r: Result<Vec<(Path, Value)>, StoreError>)
        requires
            self.valid(),
        ensures
            match r {
                Ok(pairs) => lists_map(pairs_model(pairs@), under_prefix(self.endpoints(), prefix@)),
                Err(e) => is_substrate_error(e@) && !self.infallible(),
            },
    ;

    /// Query the endpoints whose path matches a pattern.
    fn query(&self, pattern: &Path) -> (r: Result<Vec<(Path, Value)>, StoreError>)
        requires
            self.valid(),
        ensures
            match r {
                Ok(pairs) => lists_map(
                    pairs_model(pairs@),
                    query_result(self.endpoints(), self.matchable(), pattern@),
                ),
                Err(e) => is_substrate_error(e@) && !self.infallible(),
            },
    ;

    /// Count the endpoints in the store.
    fn count(&self) -> (r: Result<usize, StoreError>)
        requires
            self.valid(),
        ensures
            match r {
                Ok(n) => self.endpoints().dom().finite() && n == self.endpoints().dom().len(),
                Err(e) => is_substrate_error(e@) && !self.infallible(),
            },
    ;

    /// Count the indexed paths under a prefix.
    fn count_prefix(&self, prefix: &Path) -> (r: Result<usize, StoreError>)
        requires
            self.valid(),
        ensures
            match r {
                Ok(n) => paths_under(self.indexed(), prefix@).finite() && n == paths_under(
                    self.indexed(),
                    prefix@,
                ).len(),
                Err(e) => is_substrate_error(e@) && !self.infallible(),
            },
    ;

    /// Make accepted writes durable. The endpoints do not change.
    fn flush(&mut self) -> (r: Result<(), StoreError>)
        requires
            old(self).valid(),
        ensures
            final(self).valid(),
            final(self).infallible() == old(self).infallible(),
            final(self).endpoints() == old(self).endpoints(),
            match r {
                Ok(()) => true,
                Err(e) => is_substrate_error(e@) && !old(self).infallible(),
            },
    ;
}

} // verus!
