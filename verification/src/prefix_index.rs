//! The prefix index: one entry for each indexed path, under the path's
//! textual key. Because the key of a path begins with the key of each of
//! its prefixes, the paths under a prefix are found by a scan of the keys
//! that begin with the key of the prefix.

use crate::errors::{invalid_operation, StoreError};
use crate::index_key::{
    index_key, index_key_of, indexable, is_indexable, key_path, lemma_indexable_unique,
    lemma_key_of_key_path, lemma_key_of_prefix, path_of_key,
};
use crate::index_types::IndexImplementation;
use crate::kv::{
    entries_model, kv_clear, kv_get, kv_insert, kv_remove, scan_all, scan_prefix, substrate_error,
    tree_map, with_prefix,
};
use crate::path::{
    path_has_wildcards, path_matches, path_starts_with, seg_is_wildcard, seg_matches, Path, Seg,
};
use crate::path_laws::lemma_matches_without_multi;
use crate::store::{keeps, lists_set, paths_matching, paths_model, paths_under, selects, Selector};
use vstd::prelude::*;

verus! {

/// The paths that the entries of a prefix-index tree stand for: the paths
/// that can be indexed and whose key is in the tree.
pub open spec fn keyed_paths(entries: Map<Seq<u8>, Seq<u8>>) -> Set<Seq<Seg>> {
    Set::new(|p: Seq<Seg>| indexable(p) && entries.dom().contains(index_key(p)))
}

/// A path that starts with a prefix without wildcards begins with the
/// segments of the prefix.
pub proof fn lemma_literal_prefix(p: Seq<Seg>, prefix: Seq<Seg>)
    requires
        !path_has_wildcards(prefix),
        path_starts_with(p, prefix),
    ensures
        p.take(prefix.len() as int) == prefix,
{
    let head = p.take(prefix.len() as int);
    assert forall|i: int| 0 <= i < prefix.len() implies head[i] == prefix[i] by {
        assert(!seg_is_wildcard(prefix[i]));
        assert(seg_matches(prefix[i], p[i]));
    }
    assert(head =~= prefix);
}

/// A path matches a pattern without wildcards exactly when it is the
/// pattern.
pub proof fn lemma_matches_literal(p: Seq<Seg>, pattern: Seq<Seg>)
    requires
        !path_has_wildcards(pattern),
    ensures
        path_matches(p, pattern) <==> p == pattern,
{
    assert forall|i: int| 0 <= i < pattern.len() implies !(#[trigger] pattern[i] is Multi) by {
        assert(!seg_is_wildcard(pattern[i]));
    }
    lemma_matches_without_multi(p, pattern);
    if path_matches(p, pattern) {
        assert forall|i: int| 0 <= i < pattern.len() implies p[i] == pattern[i] by {
            assert(!seg_is_wildcard(pattern[i]));
            assert(seg_matches(pattern[i], p[i]));
        }
        assert(p =~= pattern);
    }
    if p == pattern {
        assert forall|i: int| 0 <= i < pattern.len() implies seg_matches(
            #[trigger] pattern[i],
            p[i],
        ) by {
            assert(!seg_is_wildcard(pattern[i]));
        }
    }
}

/// The paths, among those that the keys of the entries stand for, that a
/// selection keeps.
pub fn select_keyed(entries: &Vec<(Vec<u8>, Vec<u8>)>, selector: Selector, given: &Path) -> (r:
    Vec<Path>)
    requires
        forall|i: int, j: int|
            0 <= i < j < entries.len() ==> entries_model(entries@)[i].0 != entries_model(
                entries@,
            )[j].0,
    ensures
        paths_model(r@).no_duplicates(),
        forall|p: Seq<Seg>|
            paths_model(r@).contains(p) <==> (keeps(selector, p, given@) && exists|i: int|
                0 <= i < entries.len() && key_path(#[trigger] entries_model(entries@)[i].0)
                    == Some(p)),
{
    let ghost listed = entries_model(entries@);
    let mut out: Vec<Path> = Vec::new();
    let ghost mut source: Seq<int> = Seq::empty();
    let mut i: usize = 0;
    while i < entries.len()
        invariant
            i <= entries.len(),
            listed == entries_model(entries@),
            forall|a: int, b: int| 0 <= a < b < listed.len() ==> listed[a].0 != listed[b].0,
            source.len() == out.len(),
            forall|a: int| 0 <= a < source.len() ==> 0 <= #[trigger] source[a] < i,
            forall|a: int|
                0 <= a < out.len() ==> key_path(listed[source[a]].0) == Some(
                    (#[trigger] out@[a])@,
                ) && keeps(selector, out@[a]@, given@),
            forall|a: int, b: int|
                0 <= a < b < source.len() ==> #[trigger] source[a] != #[trigger] source[b],
            forall|j: int|
                0 <= j < i && key_path((#[trigger] listed[j]).0) is Some && keeps(
                    selector,
                    key_path(listed[j].0)->0,
                    given@,
                ) ==> exists|a: int| 0 <= a < source.len() && #[trigger] source[a] == j,
        decreases entries.len() - i,
    {
        assert(listed[i as int].0 == entries@[i as int].0@);
        match path_of_key(&entries[i].0) {
            Some(path) => {
                if selects(selector, &path, given) {
                    let ghost before = source;
                    out.push(path);
                    proof {
                        source = source.push(i as int);
                        assert forall|j: int|
                            0 <= j < i + 1 && key_path((#[trigger] listed[j]).0) is Some
                                && keeps(
                                selector,
                                key_path(listed[j].0)->0,
                                given@,
                            ) implies exists|a: int|
                            0 <= a < source.len() && #[trigger] source[a] == j by {
                            if j < i {
                                let a = choose|a: int|
                                    0 <= a < before.len() && #[trigger] before[a] == j;
                                assert(source[a] == j);
                            } else {
                                assert(source[before.len() as int] == j);
                            }
                        }
                    }
                }
            },
            None => {},
        }
        i += 1;
    }
    proof {
        let m = paths_model(out@);
        assert forall|a: int, b: int| 0 <= a < m.len() && 0 <= b < m.len() && a != b implies m[a]
            != m[b] by {
            assert(key_path(listed[source[a]].0) == Some(out@[a]@));
            assert(key_path(listed[source[b]].0) == Some(out@[b]@));
            lemma_key_of_key_path(listed[source[a]].0);
            lemma_key_of_key_path(listed[source[b]].0);
            assert(source[a] != source[b]) by {
                if a < b {
                } else {
                    assert(source[b] != source[a]);
                }
            }
            if source[a] < source[b] {
                assert(listed[source[a]].0 != listed[source[b]].0);
            } else {
                assert(listed[source[b]].0 != listed[source[a]].0);
            }
        }
        assert forall|p: Seq<Seg>|
            m.contains(p) <==> (keeps(selector, p, given@) && exists|i: int|
                0 <= i < entries.len() && key_path(#[trigger] listed[i].0) == Some(p)) by {
            if m.contains(p) {
                let a = choose|a: int| 0 <= a < m.len() && m[a] == p;
                assert(out@[a]@ == p);
                assert(key_path(listed[source[a]].0) == Some(p));
            }
            if keeps(selector, p, given@) && (exists|i: int|
                0 <= i < entries.len() && key_path(#[trigger] listed[i].0) == Some(p)) {
                let j = choose|i: int|
                    0 <= i < entries.len() && key_path(#[trigger] listed[i].0) == Some(p);
                let a = choose|a: int| 0 <= a < source.len() && #[trigger] source[a] == j;
                assert(out@[a]@ == p);
                assert(m[a] == p);
            }
        }
    }
    out
}

/// An index for prefix searches
pub struct PrefixIndex {
    /// The tree where the entries of the index are kept
    tree: sled::Tree,
}

impl PrefixIndex {
    /// Create the index over a tree. The tree must be handed over once:
    /// what is said of the index holds as long as nothing else writes to
    /// the tree.
    pub fn new(tree: sled::Tree) -> (r: Self)
        ensures
            r.entries() == tree_map(tree),
    {
        PrefixIndex { tree }
    }

    /// What the tree of the index holds.
    pub closed spec fn entries(&self) -> Map<Seq<u8>, Seq<u8>> {
        tree_map(self.tree)
    }

    /// The paths in the index are those that can be indexed and whose key
    /// is in the tree.
    pub proof fn lemma_paths(&self)
        ensures
            self.paths() == keyed_paths(self.entries()),
    {
    }

    /// Whether the path is in the index.
    pub fn contains(&self, path: &Path) -> (r: Result<bool, StoreError>)
        ensures
            match r {
                Ok(b) => b == self.paths().contains(path@),
                Err(e) => e@ is Internal,
            },
    {
        if !is_indexable(path) {
            return Ok(false);
        }
        let key = index_key_of(path);
        match kv_get(&self.tree, &key) {
            Ok(Some(_)) => Ok(true),
            Ok(None) => Ok(false),
            Err(e) => Err(substrate_error("Failed to get from index", &e)),
        }
    }

    /// The paths in the index that a selection keeps.
    fn select(&self, selector: Selector, given: &Path, narrow: bool) -> (r: Result<
        Vec<Path>,
        StoreError,
    >)
        requires
            narrow ==> selector == Selector::Prefix && !path_has_wildcards(given@),
        ensures
            match r {
                Ok(found) => lists_set(
                    paths_model(found@),
                    self.paths().filter(|p: Seq<Seg>| keeps(selector, p, given@)),
                ),
                Err(e) => e@ is Internal,
            },
    {
        let scanned = if narrow {
            let start = index_key_of(given);
            scan_prefix(&self.tree, &start)
        } else {
            scan_all(&self.tree)
        };
        let entries = match scanned {
            Ok(entries) => entries,
            Err(e) => {
                return Err(substrate_error("Failed to scan index", &e));
            },
        };
        let found = select_keyed(&entries, selector, given);
        proof {
            let listed = entries_model(entries@);
            let all = tree_map(self.tree);
            let want = self.paths().filter(|p: Seq<Seg>| keeps(selector, p, given@));
            assert forall|p: Seq<Seg>| paths_model(found@).contains(p) <==> want.contains(p) by {
                if paths_model(found@).contains(p) {
                    let i = choose|i: int|
                        0 <= i < entries.len() && key_path(#[trigger] listed[i].0) == Some(p);
                    lemma_key_of_key_path(listed[i].0);
                    if narrow {
                        assert(with_prefix(all, index_key(given@)).contains_pair(
                            listed[i].0,
                            listed[i].1,
                        ));
                    } else {
                        assert(all.contains_pair(listed[i].0, listed[i].1));
                    }
                }
                if want.contains(p) {
                    let k = index_key(p);
                    if narrow {
                        lemma_literal_prefix(p, given@);
                        lemma_key_of_prefix(p, given@.len() as int);
                        assert(with_prefix(all, index_key(given@)).dom().contains(k));
                    }
                    let i = choose|i: int| 0 <= i < listed.len() && (#[trigger] listed[i]).0 == k;
                    assert(key_path(listed[i].0) == Some(p));
                }
            }
        }
        Ok(found)
    }
}

impl IndexImplementation for PrefixIndex {
    closed spec fn paths(&self) -> Set<Seq<Seg>> {
        keyed_paths(tree_map(self.tree))
    }

    fn add_path(&mut self, path: &Path) -> (r: Result<(), StoreError>) {
        if !is_indexable(path) {
            return Err(invalid_operation("Path cannot be indexed"));
        }
        let key = index_key_of(path);
        let mut marker: Vec<u8> = Vec::new();
        marker.push(1u8);
        let ghost before = tree_map(self.tree);
        match kv_insert(&mut self.tree, &key, &marker) {
            Ok(_) => {
                proof {
                    let after = tree_map(self.tree);
                    assert forall|p: Seq<Seg>|
                        keyed_paths(after).contains(p) == keyed_paths(before).insert(
                            path@,
                        ).contains(p) by {
                        if indexable(p) && index_key(p) == key@ {
                            lemma_indexable_unique(p, path@);
                        }
                    }
                    assert(keyed_paths(after) =~= keyed_paths(before).insert(path@));
                }
                Ok(())
            },
            Err(e) => Err(substrate_error("Failed to insert into index", &e)),
        }
    }

    fn remove_path(&mut self, path: &Path) -> (r: Result<(), StoreError>) {
        if !is_indexable(path) {
            assert(self.paths().remove(path@) =~= self.paths());
            return Ok(());
        }
        let key = index_key_of(path);
        let ghost before = tree_map(self.tree);
        match kv_remove(&mut self.tree, &key) {
            Ok(_) => {
                proof {
                    let after = tree_map(self.tree);
                    assert forall|p: Seq<Seg>|
                        keyed_paths(after).contains(p) == keyed_paths(before).remove(
                            path@,
                        ).contains(p) by {
                        if indexable(p) && index_key(p) == key@ {
                            lemma_indexable_unique(p, path@);
                        }
                    }
                    assert(keyed_paths(after) =~= keyed_paths(before).remove(path@));
                }
                Ok(())
            },
            Err(e) => Err(substrate_error("Failed to remove from index", &e)),
        }
    }

    fn find_by_prefix(&self, prefix: &Path) -> (r: Result<Vec<Path>, StoreError>) {
        let narrow = !prefix.has_wildcards();
        let r = self.select(Selector::Prefix, prefix, narrow);
        proof {
            assert(self.paths().filter(|p: Seq<Seg>| keeps(Selector::Prefix, p, prefix@))
                =~= paths_under(self.paths(), prefix@));
        }
        r
    }

    fn find_by_pattern(&self, pattern: &Path) -> (r: Result<Vec<Path>, StoreError>) {
        if !pattern.has_wildcards() {
            let mut found: Vec<Path> = Vec::new();
            let present = match self.contains(pattern) {
                Ok(present) => present,
                Err(e) => {
                    return Err(e);
                },
            };
            if present {
                found.push(pattern.clone());
            }
            proof {
                let m = paths_model(found@);
                let want = paths_matching(self.paths(), pattern@);
                assert forall|p: Seq<Seg>| m.contains(p) <==> want.contains(p) by {
                    lemma_matches_literal(p, pattern@);
                    if present {
                        assert(m[0] == pattern@);
                    }
                }
            }
            return Ok(found);
        }
        let r = self.select(Selector::Pattern, pattern, false);
        proof {
            assert(self.paths().filter(|p: Seq<Seg>| keeps(Selector::Pattern, p, pattern@))
                =~= paths_matching(self.paths(), pattern@));
        }
        r
    }

    fn clear(&mut self) -> (r: Result<(), StoreError>) {
        match kv_clear(&mut self.tree) {
            Ok(()) => {
                assert(keyed_paths(tree_map(self.tree)) =~= Set::<Seq<Seg>>::empty());
                Ok(())
            },
            Err(e) => Err(substrate_error("Failed to clear index", &e)),
        }
    }

    fn name(&self) -> (r: &'static str)
        ensures
            r@ == "PrefixIndex"@,
    {
        "PrefixIndex"
    }
}

} // verus!
