//! An in-memory store: a list of endpoints in which no path occurs twice.

use crate::errors::{invalid_operation, not_found, StoreError};
use crate::path::{Path, Seg};
use crate::store::{
    keeps, lists_map, lists_set, pairs_model, paths_model, paths_under, query_result, under_prefix,
    Endpoints, Selector, Store,
};
use crate::value::{Value, ValueModel};
use vstd::prelude::*;

verus! {

/// No path occurs twice among the entries.
pub open spec fn keys_distinct(e: Seq<(Path, Value)>) -> bool {
    forall|i: int, j: int| 0 <= i < j < e.len() ==> e[i].0@ != e[j].0@
}

/// Whether some entry has the path `k`.
pub open spec fn has_key(e: Seq<(Path, Value)>, k: Seq<Seg>) -> bool {
    exists|i: int| 0 <= i < e.len() && (#[trigger] e[i]).0@ == k
}

/// The position of an entry with the path `k`.
pub open spec fn key_position(e: Seq<(Path, Value)>, k: Seq<Seg>) -> int {
    choose|i: int| 0 <= i < e.len() && (#[trigger] e[i]).0@ == k
}

/// The endpoints that a list of entries holds.
pub open spec fn entries_map(e: Seq<(Path, Value)>) -> Endpoints {
    Map::new(|k: Seq<Seg>| has_key(e, k), |k: Seq<Seg>| e[key_position(e, k)].1@)
}

/// Each entry of a list without repeated paths is an endpoint of the list.
pub proof fn lemma_entry_is_endpoint(e: Seq<(Path, Value)>, i: int)
    requires
        keys_distinct(e),
        0 <= i < e.len(),
    ensures
        entries_map(e).contains_pair(e[i].0@, e[i].1@),
{
    let k = e[i].0@;
    assert(has_key(e, k));
    let j = key_position(e, k);
    assert(0 <= j < e.len() && e[j].0@ == k);
    if i < j {
        assert(e[i].0@ != e[j].0@);
    }
    if j < i {
        assert(e[j].0@ != e[i].0@);
    }
}

/// Adding an entry with a new path adds one endpoint.
pub proof fn lemma_push_entry(e: Seq<(Path, Value)>, entry: (Path, Value))
    requires
        keys_distinct(e),
        !has_key(e, entry.0@),
    ensures
        keys_distinct(e.push(entry)),
        entries_map(e.push(entry)) == entries_map(e).insert(entry.0@, entry.1@),
{
    let n = e.push(entry);
    assert forall|i: int, j: int| 0 <= i < j < n.len() implies n[i].0@ != n[j].0@ by {
        if j == e.len() {
            assert(n[i] == e[i]);
            if n[i].0@ == entry.0@ {
                assert(has_key(e, entry.0@));
            }
        } else {
            assert(n[i] == e[i] && n[j] == e[j]);
        }
    }
    let want = entries_map(e).insert(entry.0@, entry.1@);
    assert forall|k: Seq<Seg>| entries_map(n).dom().contains(k) == want.dom().contains(k) by {
        if has_key(n, k) {
            let i = key_position(n, k);
            if i < e.len() {
                assert(e[i] == n[i]);
                assert(has_key(e, k));
            }
        }
        if has_key(e, k) {
            let i = key_position(e, k);
            assert(n[i] == e[i]);
            assert(has_key(n, k));
        }
        if k == entry.0@ {
            assert(n[e.len() as int] == entry);
            assert(has_key(n, k));
        }
    }
    assert forall|k: Seq<Seg>| entries_map(n).dom().contains(k) implies entries_map(n)[k]
        == want[k] by {
        let i = key_position(n, k);
        assert(0 <= i < n.len() && n[i].0@ == k);
        lemma_entry_is_endpoint(n, i);
        if i < e.len() {
            assert(e[i] == n[i]);
            lemma_entry_is_endpoint(e, i);
            assert(has_key(e, k));
        } else {
            assert(n[i] == entry);
        }
    }
    assert(entries_map(n) =~= want);
}

/// Taking an entry out takes its endpoint out.
pub proof fn lemma_remove_entry(e: Seq<(Path, Value)>, at: int)
    requires
        keys_distinct(e),
        0 <= at < e.len(),
    ensures
        keys_distinct(e.remove(at)),
        !has_key(e.remove(at), e[at].0@),
        entries_map(e.remove(at)) == entries_map(e).remove(e[at].0@),
{
    let n = e.remove(at);
    let gone = e[at].0@;
    assert forall|i: int| 0 <= i < n.len() implies #[trigger] n[i] == e[if i < at {
        i
    } else {
        i + 1
    }] by {}
    assert forall|i: int, j: int| 0 <= i < j < n.len() implies n[i].0@ != n[j].0@ by {
        let a = if i < at {
            i
        } else {
            i + 1
        };
        let b = if j < at {
            j
        } else {
            j + 1
        };
        assert(n[i] == e[a] && n[j] == e[b]);
        assert(e[a].0@ != e[b].0@);
    }
    if has_key(n, gone) {
        let i = key_position(n, gone);
        let a = if i < at {
            i
        } else {
            i + 1
        };
        assert(n[i] == e[a]);
        if a < at {
            assert(e[a].0@ != e[at].0@);
        } else {
            assert(e[at].0@ != e[a].0@);
        }
    }
    let want = entries_map(e).remove(gone);
    assert forall|k: Seq<Seg>| entries_map(n).dom().contains(k) == want.dom().contains(k) by {
        if has_key(n, k) {
            let i = key_position(n, k);
            let a = if i < at {
                i
            } else {
                i + 1
            };
            assert(n[i] == e[a]);
            assert(has_key(e, k));
        }
        if has_key(e, k) && k != gone {
            let a = key_position(e, k);
            let i = if a < at {
                a
            } else {
                a - 1
            };
            assert(n[i] == e[a]);
            assert(has_key(n, k));
        }
    }
    assert forall|k: Seq<Seg>| entries_map(n).dom().contains(k) implies entries_map(n)[k]
        == want[k] by {
        let i = key_position(n, k);
        let a = if i < at {
            i
        } else {
            i + 1
        };
        assert(n[i] == e[a]);
        lemma_entry_is_endpoint(n, i);
        lemma_entry_is_endpoint(e, a);
    }
    assert(entries_map(n) =~= want);
}

/// An in-memory store for the database
#[derive(Debug)]
pub struct MemoryStore {
    /// The endpoints, each path once
    data: Vec<(Path, Value)>,
}

impl MemoryStore {
    /// Create a new empty memory store
    pub fn new() -> (r: Self)
        ensures
            r.valid(),
            r.endpoints() == Endpoints::empty(),
    {
        let r = MemoryStore { data: Vec::new() };
        assert(r.endpoints() =~= Endpoints::empty());
        r
    }

    /// The position of the entry with the given path.
    fn position(&self, path: &Path) -> (r: Option<usize>)
        ensures
            match r {
                Some(i) => i < self.data.len() && self.data[i as int].0@ == path@,
                None => !has_key(self.data@, path@),
            },
    {
        let mut i: usize = 0;
        while i < self.data.len()
            invariant
                i <= self.data.len(),
                forall|k: int| 0 <= k < i ==> (#[trigger] self.data@[k]).0@ != path@,
            decreases self.data.len() - i,
        {
            if self.data[i].0.same_as(path) {
                return Some(i);
            }
            i += 1;
        }
        None
    }

    /// The endpoints that a selection keeps.
    fn select(&self, selector: Selector, given: &Path) -> (r: Vec<(Path, Value)>)
        requires
            self.valid(),
        ensures
            lists_map(
                pairs_model(r@),
                self.endpoints().restrict(Set::new(|p: Seq<Seg>| keeps(selector, p, given@))),
            ),
    {
        let mut out: Vec<(Path, Value)> = Vec::new();
        let ghost mut source: Seq<int> = Seq::empty();
        let mut i: usize = 0;
        while i < self.data.len()
            invariant
                i <= self.data.len(),
                keys_distinct(self.data@),
                source.len() == out.len(),
                forall|a: int| 0 <= a < source.len() ==> 0 <= #[trigger] source[a] < i,
                forall|a: int, b: int|
                    0 <= a < b < source.len() ==> #[trigger] source[a] < #[trigger] source[b],
                forall|a: int|
                    0 <= a < out.len() ==> (#[trigger] out@[a]).0@ == self.data@[source[a]].0@
                        && out@[a].1@ == self.data@[source[a]].1@ && keeps(
                        selector,
                        out@[a].0@,
                        given@,
                    ),
                forall|j: int|
                    0 <= j < i && keeps(selector, (#[trigger] self.data@[j]).0@, given@)
                        ==> exists|a: int| 0 <= a < source.len() && #[trigger] source[a] == j,
            decreases self.data.len() - i,
        {
            let keep = match selector {
                Selector::Prefix => self.data[i].0.starts_with(given),
                Selector::Pattern => self.data[i].0.matches(given),
            };
            if keep {
                let ghost before = source;
                out.push((self.data[i].0.clone(), self.data[i].1.clone()));
                proof {
                    source = source.push(i as int);
                    assert forall|j: int|
                        0 <= j < i + 1 && keeps(
                            selector,
                            (#[trigger] self.data@[j]).0@,
                            given@,
                        ) implies exists|a: int|
                        0 <= a < source.len() && #[trigger] source[a] == j by {
                        if j < i {
                            let a = choose|a: int| 0 <= a < before.len() && #[trigger] before[a] == j;
                            assert(source[a] == j);
                        } else {
                            assert(source[before.len() as int] == j);
                        }
                    }
                }
            }
            i += 1;
        }
        proof {
            let m = pairs_model(out@);
            let want = self.endpoints().restrict(
                Set::new(|p: Seq<Seg>| keeps(selector, p, given@)),
            );
            assert forall|a: int, b: int| 0 <= a < b < m.len() implies m[a].0 != m[b].0 by {
                assert(source[a] < source[b]);
                assert(out@[a].0@ == self.data@[source[a]].0@);
                assert(out@[b].0@ == self.data@[source[b]].0@);
            }
            assert forall|a: int| 0 <= a < m.len() implies want.contains_pair(
                (#[trigger] m[a]).0,
                m[a].1,
            ) by {
                assert(out@[a].0@ == self.data@[source[a]].0@);
                lemma_entry_is_endpoint(self.data@, source[a]);
            }
            assert forall|k: Seq<Seg>| want.dom().contains(k) implies exists|a: int|
                0 <= a < m.len() && (#[trigger] m[a]).0 == k by {
                assert(has_key(self.data@, k));
                let j = key_position(self.data@, k);
                assert(keeps(selector, self.data@[j].0@, given@));
                let a = choose|a: int| 0 <= a < source.len() && #[trigger] source[a] == j;
                assert(out@[a].0@ == self.data@[j].0@);
                assert(m[a].0 == k);
            }
        }
        out
    }
}

/// A list of distinct items has as many items as the set it lists.
pub proof fn lemma_lists_set_len<K>(s: Seq<K>, want: Set<K>)
    requires
        lists_set(s, want),
    ensures
        want.finite(),
        want.len() == s.len(),
{
    broadcast use vstd::seq_lib::seq_to_set_is_finite;

    assert(s.to_set() =~= want);
    s.unique_seq_to_set();
}

/// The paths of a list of endpoints that lists a map list the map's domain.
pub proof fn lemma_paths_of_pairs<K, V>(s: Seq<(K, V)>, want: Map<K, V>)
    requires
        lists_map(s, want),
    ensures
        lists_set(s.map_values(|e: (K, V)| e.0), want.dom()),
{
    let keys = s.map_values(|e: (K, V)| e.0);
    assert forall|i: int, j: int| 0 <= i < keys.len() && 0 <= j < keys.len() && i != j implies keys[i]
        != keys[j] by {
        if i < j {
            assert(s[i].0 != s[j].0);
        } else {
            assert(s[j].0 != s[i].0);
        }
    }
    assert forall|k: K| keys.contains(k) <==> want.dom().contains(k) by {
        if keys.contains(k) {
            let i = choose|i: int| 0 <= i < keys.len() && keys[i] == k;
            assert(want.contains_pair(s[i].0, s[i].1));
        }
        if want.dom().contains(k) {
            let i = choose|i: int| 0 <= i < s.len() && (#[trigger] s[i]).0 == k;
            assert(keys[i] == k);
        }
    }
}

impl Store for MemoryStore {
    closed spec fn endpoints(&self) -> Endpoints {
        entries_map(self.data@)
    }

    open spec fn indexed(&self) -> Set<Seq<Seg>> {
        self.endpoints().dom()
    }

    open spec fn matchable(&self) -> Set<Seq<Seg>> {
        self.endpoints().dom()
    }

    open spec fn infallible(&self) -> bool {
        true
    }

    closed spec fn valid(&self) -> bool {
        keys_distinct(self.data@)
    }

    fn set(&mut self, path: Path, value: Value) -> (r: Result<(), StoreError>) {
        if path.is_empty() {
            return Err(invalid_operation("Cannot set value at empty path"));
        }
        let ghost before = self.data@;
        match self.position(&path) {
            Some(i) => {
                proof {
                    lemma_remove_entry(before, i as int);
                }
                self.data.remove(i);
            },
            None => {
                assert(entries_map(before).remove(path@) =~= entries_map(before));
            },
        }
        proof {
            lemma_push_entry(self.data@, (path, value));
            assert(entries_map(before).remove(path@).insert(path@, value@) =~= entries_map(
                before,
            ).insert(path@, value@));
        }
        self.data.push((path, value));
        Ok(())
    }

    fn get(&self, path: &Path) -> (r: Result<Value, StoreError>) {
        if path.is_empty() {
            return Err(invalid_operation("Cannot get value at empty path"));
        }
        match self.position(path) {
            Some(i) => {
                proof {
                    lemma_entry_is_endpoint(self.data@, i as int);
                }
                Ok(self.data[i].1.clone())
            },
            None => Err(not_found(path)),
        }
    }

    fn delete(&mut self, path: &Path) -> (r: Result<(), StoreError>) {
        if path.is_empty() {
            return Err(invalid_operation("Cannot delete value at empty path"));
        }
        match self.position(path) {
            Some(i) => {
                proof {
                    lemma_remove_entry(self.data@, i as int);
                    assert(has_key(self.data@, path@));
                }
                self.data.remove(i);
                Ok(())
            },
            None => Err(not_found(path)),
        }
    }

    fn path_exists(&self, path: &Path) -> (r: Result<bool, StoreError>) {
        if path.is_empty() {
            return Err(invalid_operation("Cannot check empty path"));
        }
        match self.position(path) {
            Some(i) => {
                assert(has_key(self.data@, path@));
                Ok(true)
            },
            None => Ok(false),
        }
    }

    fn list_prefix(&self, prefix: &Path) -> (r: Result<Vec<Path>, StoreError>) {
        let mut pairs = self.select(Selector::Prefix, prefix);
        let ghost listed = pairs_model(pairs@);
        let ghost want = self.endpoints().restrict(
            Set::new(|p: Seq<Seg>| keeps(Selector::Prefix, p, prefix@)),
        );
        let mut paths: Vec<Path> = Vec::new();
        let mut i: usize = 0;
        while i < pairs.len()
            invariant
                i <= pairs.len(),
                paths.len() == i,
                forall|a: int| 0 <= a < i ==> (#[trigger] paths@[a])@ == pairs@[a].0@,
            decreases pairs.len() - i,
        {
            paths.push(pairs[i].0.clone());
            i += 1;
        }
        proof {
            lemma_paths_of_pairs(listed, want);
            let keys = listed.map_values(|e: (Seq<Seg>, ValueModel)| e.0);
            assert(paths_model(paths@) =~= keys);
            assert(want.dom() =~= paths_under(self.indexed(), prefix@));
        }
        Ok(paths)
    }

    fn get_prefix(&self, prefix: &Path) -> (r: Result<Vec<(Path, Value)>, StoreError>) {
        let pairs = self.select(Selector::Prefix, prefix);
        proof {
            assert(self.endpoints().restrict(
                Set::new(|p: Seq<Seg>| keeps(Selector::Prefix, p, prefix@)),
            ) =~= under_prefix(self.endpoints(), prefix@));
        }
        Ok(pairs)
    }

    fn query(&self, pattern: &Path) -> (r: Result<Vec<(Path, Value)>, StoreError>) {
        if !pattern.has_wildcards() {
            let mut out: Vec<(Path, Value)> = Vec::new();
            match self.position(pattern) {
                Some(i) => {
                    proof {
                        lemma_entry_is_endpoint(self.data@, i as int);
                    }
                    out.push((pattern.clone(), self.data[i].1.clone()));
                    assert(pairs_model(out@)[0] == (pattern@, self.data@[i as int].1@));
                },
                None => {},
            }
            return Ok(out);
        }
        let pairs = self.select(Selector::Pattern, pattern);
        proof {
            assert(self.endpoints().restrict(
                Set::new(|p: Seq<Seg>| keeps(Selector::Pattern, p, pattern@)),
            ) =~= query_result(self.endpoints(), self.matchable(), pattern@));
        }
        Ok(pairs)
    }

    fn count(&self) -> (r: Result<usize, StoreError>) {
        proof {
            let keys = self.data@.map_values(|e: (Path, Value)| e.0@);
            assert forall|i: int, j: int|
                0 <= i < keys.len() && 0 <= j < keys.len() && i != j implies keys[i] != keys[j] by {
                if i < j {
                    assert(self.data@[i].0@ != self.data@[j].0@);
                } else {
                    assert(self.data@[j].0@ != self.data@[i].0@);
                }
            }
            assert forall|k: Seq<Seg>| keys.contains(k) <==> self.endpoints().dom().contains(k) by {
                if keys.contains(k) {
                    let i = choose|i: int| 0 <= i < keys.len() && keys[i] == k;
                    assert(self.data@[i].0@ == k);
                    assert(has_key(self.data@, k));
                }
                if has_key(self.data@, k) {
                    let i = key_position(self.data@, k);
                    assert(keys[i] == k);
                }
            }
            lemma_lists_set_len(keys, self.endpoints().dom());
        }
        Ok(self.data.len())
    }

    fn count_prefix(&self, prefix: &Path) -> (r: Result<usize, StoreError>) {
        match self.list_prefix(prefix) {
            Ok(paths) => {
                proof {
                    lemma_lists_set_len(
                        paths_model(paths@),
                        paths_under(self.indexed(), prefix@),
                    );
                }
                Ok(paths.len())
            },
            Err(e) => Err(e),
        }
    }

    fn flush(&mut self) -> (r: Result<(), StoreError>) {
        Ok(())
    }
}

} // verus!
