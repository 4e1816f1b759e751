//! The wildcard index: two trees of posting lists.
//!
//! In the single-level tree a path is posted, for each of its positions,
//! under the structural key of the pattern that has `*` at that position
//! and the path's own segments everywhere else. In the multi-level tree a
//! path is posted under the textual key of each of its suffixes. A path is
//! in the index when it is posted under all of these keys.

use crate::codec::{decode_paths, path_models, read_paths};
use crate::errors::{invalid_operation, StoreError};
use crate::index_key::{
    index_key, index_key_of, indexable, is_indexable, lemma_key_of_prefix,
};
use crate::index_types::IndexImplementation;
use crate::kv::{
    entries_model, has_prefix, kv_clear, scan_prefix, substrate_error, tree_map, with_prefix,
};
use crate::path::{
    path_has_multi, path_matches, seg_is_wildcard, seg_matches, seg_text, Path, PathSegment, Seg,
};
use crate::path_laws::{lemma_matches_first_multi, lemma_matches_without_multi};
use crate::postings::{others_same, position_of, post, posted, read_posting, unpost};

use crate::store::{keeps, lists_set, paths_matching, paths_model, paths_under, selects, Selector};
use crate::text::{decimal_text, push_decimal, push_str, string_of};
use vstd::prelude::*;

use vstd::utf8::encode_utf8;

verus! {

/// The part of a structural key text that lists the segments: for each
/// position, `:`, the position, `=` and the text of the segment.
pub open spec fn structural_body(p: Seq<Seg>) -> Seq<char>
    decreases p.len(),
{
    if p.len() == 0 {
        Seq::empty()
    } else {
        structural_body(p.drop_last()) + seq![':'] + decimal_text((p.len() - 1) as nat) + seq![
            '=',
        ] + seg_text(p.last())
    }
}

/// The structural key of a pattern: `len=N`, and the list of its segments.
pub open spec fn structural_key(p: Seq<Seg>) -> Seq<u8> {
    encode_utf8("len="@ + decimal_text(p.len()) + structural_body(p))
}

/// The key under which a path is posted for its position `i`: the
/// structural key of the path with `*` at that position.
pub open spec fn single_key(q: Seq<Seg>, i: int) -> Seq<u8> {
    structural_key(q.update(i, Seg::Single))
}

/// The key under which a path is posted for its suffix from `start`: the
/// textual key of that suffix.
pub open spec fn multi_key(q: Seq<Seg>, start: int) -> Seq<u8> {
    index_key(q.skip(start))
}

/// Whether a path is posted under all its keys.
pub open spec fn fully_posted(
    single: Map<Seq<u8>, Seq<u8>>,
    multi: Map<Seq<u8>, Seq<u8>>,
    q: Seq<Seg>,
) -> bool {
    &&& forall|i: int| 0 <= i < q.len() ==> posted(single, #[trigger] single_key(q, i)).contains(q)
    &&& forall|s: int| 0 <= s < q.len() ==> posted(multi, #[trigger] multi_key(q, s)).contains(q)
}

/// The paths in a wildcard index: those that can be indexed and are
/// posted under all their keys.
pub open spec fn posted_paths(single: Map<Seq<u8>, Seq<u8>>, multi: Map<Seq<u8>, Seq<u8>>) -> Set<
    Seq<Seg>,
> {
    Set::new(|q: Seq<Seg>| indexable(q) && fully_posted(single, multi, q))
}

/// A path that can be indexed has at least one segment.
pub proof fn lemma_indexable_not_empty(p: Seq<Seg>)
    requires
        indexable(p),
    ensures
        p.len() > 0,
{
    if p.len() == 0 {
        let t = crate::index_key::index_text(p);
        assert(t.len() == 0);
        vstd::utf8::encode_utf8_decode_utf8(t);
        assert(crate::index_key::key_parts(t).len() == 1);
        assert(crate::index_key::text_path(t).len() == 1);
    }
}

/// A path that matches a pattern whose only wildcard is a `*` at position
/// `i` is the pattern, once its own segment at `i` is replaced by `*`.
pub proof fn lemma_sole_wildcard(p: Seq<Seg>, pattern: Seq<Seg>, i: int)
    requires
        0 <= i < pattern.len(),
        pattern[i] is Single,
        forall|j: int| 0 <= j < pattern.len() && j != i ==> !seg_is_wildcard(#[trigger] pattern[j]),
        path_matches(p, pattern),
    ensures
        p.len() == pattern.len(),
        p.update(i, Seg::Single) == pattern,
{
    assert forall|j: int| 0 <= j < pattern.len() implies !(#[trigger] pattern[j] is Multi) by {
        if j != i {
            assert(!seg_is_wildcard(pattern[j]));
        }
    }
    lemma_matches_without_multi(p, pattern);
    let starred = p.update(i, Seg::Single);
    assert forall|j: int| 0 <= j < pattern.len() implies starred[j] == pattern[j] by {
        if j != i {
            assert(!seg_is_wildcard(pattern[j]));
            assert(seg_matches(pattern[j], p[j]));
        }
    }
    assert(starred =~= pattern);
}

/// A path that matches a pattern begins with the segments with which the
/// pattern begins before its first wildcard.
pub proof fn lemma_literal_head(x: Seq<Seg>, pattern: Seq<Seg>, n: int)
    requires
        0 <= n <= pattern.len(),
        forall|j: int| 0 <= j < n ==> !seg_is_wildcard(#[trigger] pattern[j]),
        path_matches(x, pattern),
    ensures
        n <= x.len(),
        x.take(n) == pattern.take(n),
    decreases n,
{
    if n > 0 {
        assert(!seg_is_wildcard(pattern[0]));
        let rest = pattern.skip(1);
        assert forall|j: int| 0 <= j < n - 1 implies !seg_is_wildcard(#[trigger] rest[j]) by {
            assert(rest[j] == pattern[j + 1]);
            assert(!seg_is_wildcard(pattern[j + 1]));
        }
        lemma_literal_head(x.skip(1), rest, n - 1);
        assert(seg_matches(pattern[0], x[0]));
        assert forall|j: int| 0 <= j < n implies x.take(n)[j] == pattern.take(n)[j] by {
            if j > 0 {
                assert(x.skip(1).take(n - 1)[j - 1] == rest.take(n - 1)[j - 1]);
            }
        }
        assert(x.take(n) =~= pattern.take(n));
    } else {
        assert(x.take(0) =~= pattern.take(0));
    }
}

/// Appends the structural body of the first `n` segments of a path.
fn push_structural_body(path: &Path, out: &mut Vec<char>)
    ensures
        final(out)@ == old(out)@ + structural_body(path@),
{
    let n = path.len();
    let mut i: usize = 0;
    assert(path@.take(0).len() == 0);
    assert(old(out)@ + Seq::<char>::empty() == old(out)@);
    while i < n
        invariant
            i <= n,
            n == path@.len(),
            out@ == old(out)@ + structural_body(path@.take(i as int)),
        decreases n - i,
    {
        let ghost head = path@.take(i as int);
        let ghost next = path@.take(i + 1);
        proof {
            assert(next.drop_last() == head);
            assert(next.last() == path@[i as int]);
        }
        out.push(':');
        push_decimal(out, i as u64);
        out.push('=');
        match path.segment(i) {
            Some(segment) => {
                segment.push_text(out);
            },
            None => {},
        }
        assert(out@ == old(out)@ + (structural_body(head) + seq![':'] + decimal_text(i as nat)
            + seq!['='] + seg_text(next.last())));
        i += 1;
    }
    assert(path@.take(n as int) == path@);
}

/// The structural key of a pattern.
pub fn structural_key_of(pattern: &Path) -> (r: Vec<u8>)
    ensures
        r@ == structural_key(pattern@),
{
    let mut text: Vec<char> = Vec::new();
    push_str(&mut text, "len=");
    push_decimal(&mut text, pattern.len() as u64);
    push_structural_body(pattern, &mut text);
    assert(text@ == "len="@ + decimal_text(pattern@.len()) + structural_body(pattern@));
    let s = string_of(&text);
    s.as_str().as_bytes_vec()
}

/// The key under which a path is posted for its position `i`.
fn single_key_of(path: &Path, i: usize) -> (r: Vec<u8>)
    requires
        i < path@.len(),
    ensures
        r@ == single_key(path@, i as int),
{
    let starred = path.replaced(i, PathSegment::single_wildcard());
    structural_key_of(&starred)
}

/// The key under which a path is posted for its suffix from `start`.
fn multi_key_of(path: &Path, start: usize) -> (r: Vec<u8>)
    requires
        start <= path@.len(),
    ensures
        r@ == multi_key(path@, start as int),
{
    let suffix = path.suffix(start);
    index_key_of(&suffix)
}

/// Whether the segment at `i` is a `*` and the only wildcard of the
/// pattern.
pub open spec fn is_sole_single(pattern: Seq<Seg>, i: int) -> bool {
    &&& 0 <= i < pattern.len()
    &&& pattern[i] is Single
    &&& forall|j: int| 0 <= j < pattern.len() && j != i ==> !seg_is_wildcard(#[trigger] pattern[j])
}

/// The position of the only wildcard of a pattern, where that is a `*`;
/// nothing for a pattern with no wildcard, with more than one, or with a
/// `**`.
fn sole_wildcard(pattern: &Path) -> (r: Option<usize>)
    ensures
        match r {
            Some(i) => is_sole_single(pattern@, i as int),
            None => forall|k: int| !is_sole_single(pattern@, k),
        },
{
    let n = pattern.len();
    let mut found: Option<usize> = None;
    let mut i: usize = 0;
    while i < n
        invariant
            i <= n,
            n == pattern@.len(),
            match found {
                Some(at) => at < i && pattern@[at as int] is Single && forall|j: int|
                    0 <= j < i && j != at ==> !seg_is_wildcard(#[trigger] pattern@[j]),
                None => forall|j: int| 0 <= j < i ==> !seg_is_wildcard(#[trigger] pattern@[j]),
            },
        decreases n - i,
    {
        match pattern.segment(i) {
            Some(segment) => {
                if segment.is_wildcard() {
                    if found.is_some() || !segment.is_single_wildcard() {
                        proof {
                            assert forall|k: int| !is_sole_single(pattern@, k) by {
                                if is_sole_single(pattern@, k) {
                                    if k != i {
                                        assert(seg_is_wildcard(pattern@[i as int]));
                                    } else {
                                        let at = found->0;
                                        assert(seg_is_wildcard(pattern@[at as int]));
                                    }
                                }
                            }
                        }
                        return None;
                    }
                    found = Some(i);
                }
            },
            None => {},
        }
        i += 1;
    }
    proof {
        if found is None {
            assert forall|k: int| !is_sole_single(pattern@, k) by {
                if is_sole_single(pattern@, k) {
                    assert(seg_is_wildcard(pattern@[k]));
                }
            }
        }
    }
    found
}

/// The position of the first `**` of a pattern.
fn first_multi(pattern: &Path) -> (r: Option<usize>)
    ensures
        match r {
            Some(i) => {
                &&& i < pattern@.len()
                &&& pattern@[i as int] is Multi
                &&& forall|j: int| 0 <= j < i ==> !(#[trigger] pattern@[j] is Multi)
            },
            None => !path_has_multi(pattern@),
        },
{
    let n = pattern.len();
    let mut i: usize = 0;
    while i < n
        invariant
            i <= n,
            n == pattern@.len(),
            forall|j: int| 0 <= j < i ==> !(#[trigger] pattern@[j] is Multi),
        decreases n - i,
    {
        match pattern.segment(i) {
            Some(segment) => {
                if segment.is_multi_wildcard() {
                    return Some(i);
                }
            },
            None => {},
        }
        i += 1;
    }
    None
}

/// The number of segments with which a path begins before its first
/// wildcard.
fn literal_head_len(path: &Path) -> (r: usize)
    ensures
        r <= path@.len(),
        forall|j: int| 0 <= j < r ==> !seg_is_wildcard(#[trigger] path@[j]),
        r < path@.len() ==> seg_is_wildcard(path@[r as int]),
{
    let n = path.len();
    let mut i: usize = 0;
    while i < n
        invariant
            i <= n,
            n == path@.len(),
            forall|j: int| 0 <= j < i ==> !seg_is_wildcard(#[trigger] path@[j]),
        decreases n - i,
    {
        match path.segment(i) {
            Some(segment) => {
                if segment.is_wildcard() {
                    return i;
                }
            },
            None => {},
        }
        i += 1;
    }
    i
}

/// All the paths that the values of the entries list.
fn gather(entries: &Vec<(Vec<u8>, Vec<u8>)>) -> (r: Vec<Path>)
    ensures
        forall|i: int, q: Seq<Seg>|
            0 <= i < entries.len() && read_paths((#[trigger] entries@[i]).1@) is Some
                && read_paths(entries@[i].1@)->0.contains(q) ==> #[trigger] path_models(
                r@,
            ).contains(q),
{
    let mut out: Vec<Path> = Vec::new();
    let mut i: usize = 0;
    while i < entries.len()
        invariant
            i <= entries.len(),
            forall|k: int, q: Seq<Seg>|
                0 <= k < i && read_paths((#[trigger] entries@[k]).1@) is Some && read_paths(
                    entries@[k].1@,
                )->0.contains(q) ==> #[trigger] path_models(out@).contains(q),
        decreases entries.len() - i,
    {
        let ghost before = path_models(out@);
        match decode_paths(&entries[i].1) {
            Some(paths) => {
                let mut paths = paths;
                let ghost listed = path_models(paths@);
                out.append(&mut paths);
                proof {
                    let after = path_models(out@);
                    assert(after =~= before + listed);
                    assert forall|q: Seq<Seg>| before.contains(q) implies after.contains(q) by {
                        let k = choose|k: int| 0 <= k < before.len() && before[k] == q;
                        assert(after[k] == q);
                    }
                    assert forall|q: Seq<Seg>| listed.contains(q) implies after.contains(q) by {
                        let k = choose|k: int| 0 <= k < listed.len() && listed[k] == q;
                        assert(after[before.len() + k] == q);
                    }
                }
            },
            None => {},
        }
        i += 1;
    }
    out
}

/// An index for searches with wildcards
pub struct WildcardIndex {
    /// The tree of the single-level postings
    single: sled::Tree,
    /// The tree of the multi-level postings
    multi: sled::Tree,
}

impl WildcardIndex {
    /// Create the index over its two trees. Each tree must be handed over
    /// once: what is said of the index holds as long as nothing else writes
    /// to its trees.
    pub fn new(single: sled::Tree, multi: sled::Tree) -> (r: Self)
        ensures
            r.single_entries() == tree_map(single),
            r.multi_entries() == tree_map(multi),
    {
        WildcardIndex { single, multi }
    }

    /// What the single-level tree holds.
    pub closed spec fn single_entries(&self) -> Map<Seq<u8>, Seq<u8>> {
        tree_map(self.single)
    }

    /// What the multi-level tree holds.
    pub closed spec fn multi_entries(&self) -> Map<Seq<u8>, Seq<u8>> {
        tree_map(self.multi)
    }

    /// The paths in the index are those that can be indexed and are
    /// posted under all their keys.
    pub proof fn lemma_paths(&self)
        ensures
            self.paths() == posted_paths(self.single_entries(), self.multi_entries()),
    {
    }

    /// Whether the path is posted under all its keys.
    fn is_full(&self, path: &Path) -> (r: Result<bool, StoreError>)
        ensures
            match r {
                Ok(b) => b == fully_posted(tree_map(self.single), tree_map(self.multi), path@),
                Err(e) => e@ is Internal,
            },
    {
        let n = path.len();
        let mut i: usize = 0;
        while i < n
            invariant
                i <= n,
                n == path@.len(),
                forall|j: int|
                    0 <= j < i ==> posted(
                        tree_map(self.single),
                        #[trigger] single_key(path@, j),
                    ).contains(path@),
            decreases n - i,
        {
            let key = single_key_of(path, i);
            let listed = match read_posting(&self.single, &key) {
                Ok(listed) => listed,
                Err(e) => {
                    return Err(e);
                },
            };
            match position_of(&listed, path) {
                Some(at) => {
                    assert(path_models(listed@)[at as int] == path@);
                },
                None => {
                    assert(!posted(tree_map(self.single), single_key(path@, i as int)).contains(
                        path@,
                    ));
                    return Ok(false);
                },
            }
            i += 1;
        }
        let mut s: usize = 0;
        while s < n
            invariant
                s <= n,
                n == path@.len(),
                forall|j: int|
                    0 <= j < n ==> posted(
                        tree_map(self.single),
                        #[trigger] single_key(path@, j),
                    ).contains(path@),
                forall|j: int|
                    0 <= j < s ==> posted(
                        tree_map(self.multi),
                        #[trigger] multi_key(path@, j),
                    ).contains(path@),
            decreases n - s,
        {
            let key = multi_key_of(path, s);
            let listed = match read_posting(&self.multi, &key) {
                Ok(listed) => listed,
                Err(e) => {
                    return Err(e);
                },
            };
            match position_of(&listed, path) {
                Some(at) => {
                    assert(path_models(listed@)[at as int] == path@);
                },
                None => {
                    assert(!posted(tree_map(self.multi), multi_key(path@, s as int)).contains(
                        path@,
                    ));
                    return Ok(false);
                },
            }
            s += 1;
        }
        Ok(true)
    }

    /// The candidates that are in the index and that a selection keeps,
    /// each once.
    fn verify(&self, candidates: &Vec<Path>, selector: Selector, given: &Path) -> (r: Result<
        Vec<Path>,
        StoreError,
    >)
        ensures
            match r {
                Ok(found) => {
                    &&& paths_model(found@).no_duplicates()
                    &&& forall|p: Seq<Seg>|
                        #![trigger paths_model(found@).contains(p)]
                        paths_model(found@).contains(p) <==> (path_models(candidates@).contains(p)
                            && keeps(selector, p, given@) && self.paths().contains(p))
                },
                Err(e) => e@ is Internal,
            },
    {
        let ghost all = path_models(candidates@);
        let mut out: Vec<Path> = Vec::new();
        let mut i: usize = 0;
        while i < candidates.len()
            invariant
                i <= candidates.len(),
                all == path_models(candidates@),
                paths_model(out@).no_duplicates(),
                forall|p: Seq<Seg>|
                    #![trigger paths_model(out@).contains(p)]
                    paths_model(out@).contains(p) <==> (all.take(i as int).contains(p) && keeps(
                        selector,
                        p,
                        given@,
                    ) && self.paths().contains(p)),
            decreases candidates.len() - i,
        {
            let candidate = &candidates[i];
            let ghost head = all.take(i as int);
            let ghost next = all.take(i + 1);
            let ghost before = paths_model(out@);
            proof {
                assert(next == head.push(candidate@));
                assert forall|p: Seq<Seg>| next.contains(p) <==> (head.contains(p) || p
                    == candidate@) by {
                    if next.contains(p) {
                        let k = choose|k: int| 0 <= k < next.len() && next[k] == p;
                        if k < head.len() {
                            assert(head[k] == p);
                        }
                    }
                    if head.contains(p) {
                        let k = choose|k: int| 0 <= k < head.len() && head[k] == p;
                        assert(next[k] == p);
                    }
                    if p == candidate@ {
                        assert(next[head.len() as int] == p);
                    }
                }
            }
            let mut keep = selects(selector, candidate, given) && is_indexable(candidate);
            if keep {
                keep = match self.is_full(candidate) {
                    Ok(full) => full,
                    Err(e) => {
                        return Err(e);
                    },
                };
            }
            assert(keep == (keeps(selector, candidate@, given@) && self.paths().contains(
                candidate@,
            )));
            let seen = position_of(&out, candidate);
            proof {
                assert(path_models(out@) =~= before);
                match seen {
                    Some(at) => {
                        assert(before[at as int] == candidate@);
                    },
                    None => {},
                }
            }
            let add = keep && seen.is_none();
            if add {
                out.push(candidate.clone());
            }
            proof {
                let after = paths_model(out@);
                if add {
                    assert(after =~= before.push(candidate@));
                    assert forall|a: int, b: int|
                        0 <= a < after.len() && 0 <= b < after.len() && a != b implies after[a]
                        != after[b] by {
                        if a < before.len() && b < before.len() {
                            assert(before[a] != before[b]);
                        } else if a < before.len() {
                            assert(before.contains(before[a]));
                        } else {
                            assert(before.contains(before[b]));
                        }
                    }
                } else {
                    assert(after =~= before);
                }
                assert forall|p: Seq<Seg>| #[trigger]
                    after.contains(p) <==> (next.contains(p) && keeps(selector, p, given@)
                        && self.paths().contains(p)) by {
                    assert(before.contains(p) <==> (head.contains(p) && keeps(selector, p, given@)
                        && self.paths().contains(p)));
                    assert(next.contains(p) <==> (head.contains(p) || p == candidate@));
                    if after.contains(p) {
                        let k = choose|k: int| 0 <= k < after.len() && after[k] == p;
                        if k < before.len() {
                            assert(before[k] == p);
                            assert(before.contains(p));
                        } else {
                            assert(p == candidate@);
                        }
                    }
                    if next.contains(p) && keeps(selector, p, given@) && self.paths().contains(p) {
                        if p == candidate@ {
                            if add {
                                assert(after[before.len() as int] == p);
                            } else {
                                assert(before.contains(p));
                            }
                        } else {
                            assert(head.contains(p));
                            assert(before.contains(p));
                        }
                        if before.contains(p) {
                            let k = choose|k: int| 0 <= k < before.len() && before[k] == p;
                            assert(after[k] == p);
                        }
                    }
                }
            }
            i += 1;
        }
        assert(all.take(i as int) == all);
        Ok(out)
    }

    /// All the paths posted in the multi-level tree under keys that begin
    /// with the given bytes.
    fn posted_under(&self, start: &Vec<u8>) -> (r: Result<Vec<Path>, StoreError>)
        ensures
            match r {
                Ok(found) => forall|key: Seq<u8>, q: Seq<Seg>|
                    has_prefix(key, start@) && #[trigger] posted(
                        tree_map(self.multi),
                        key,
                    ).contains(q) ==> path_models(found@).contains(q),
                Err(e) => e@ is Internal,
            },
    {
        let entries = match scan_prefix(&self.multi, start) {
            Ok(entries) => entries,
            Err(e) => {
                return Err(substrate_error("Failed to scan index", &e));
            },
        };
        let found = gather(&entries);
        proof {
            let listed = entries_model(entries@);
            let all = with_prefix(tree_map(self.multi), start@);
            assert forall|key: Seq<u8>, q: Seq<Seg>|
                has_prefix(key, start@) && #[trigger] posted(tree_map(self.multi), key).contains(
                    q,
                ) implies path_models(found@).contains(q) by {
                assert(all.dom().contains(key));
                let i = choose|i: int| 0 <= i < listed.len() && (#[trigger] listed[i]).0 == key;
                assert(all.contains_pair(listed[i].0, listed[i].1));
                assert(entries@[i].1@ == listed[i].1);
            }
        }
        Ok(found)
    }

    /// The paths in the index that a selection keeps, found among all that
    /// is posted.
    fn select_all(&self, selector: Selector, given: &Path) -> (r: Result<Vec<Path>, StoreError>)
        ensures
            match r {
                Ok(found) => lists_set(
                    paths_model(found@),
                    self.paths().filter(|p: Seq<Seg>| keeps(selector, p, given@)),
                ),
                Err(e) => e@ is Internal,
            },
    {
        let start: Vec<u8> = Vec::new();
        let candidates = match self.posted_under(&start) {
            Ok(candidates) => candidates,
            Err(e) => {
                return Err(e);
            },
        };
        let found = match self.verify(&candidates, selector, given) {
            Ok(found) => found,
            Err(e) => {
                return Err(e);
            },
        };
        proof {
            let want = self.paths().filter(|p: Seq<Seg>| keeps(selector, p, given@));
            assert forall|p: Seq<Seg>| paths_model(found@).contains(p) <==> want.contains(p) by {
                if want.contains(p) {
                    lemma_indexable_not_empty(p);
                    let key = multi_key(p, 0);
                    assert(posted(tree_map(self.multi), key).contains(p));
                    assert(key.take(0) =~= start@);
                    assert(path_models(candidates@).contains(p));
                }
            }
        }
        Ok(found)
    }
}

impl IndexImplementation for WildcardIndex {
    closed spec fn paths(&self) -> Set<Seq<Seg>> {
        posted_paths(tree_map(self.single), tree_map(self.multi))
    }

    fn add_path(&mut self, path: &Path) -> (r: Result<(), StoreError>) {
        if !is_indexable(path) {
            return Err(invalid_operation("Path cannot be indexed"));
        }
        let ghost single0 = tree_map(self.single);
        let ghost multi0 = tree_map(self.multi);
        let n = path.len();
        let mut i: usize = 0;
        while i < n
            invariant
                i <= n,
                n == path@.len(),
                indexable(path@),
                tree_map(self.multi) == multi0,
                others_same(single0, tree_map(self.single), path@),
                forall|j: int|
                    0 <= j < i ==> posted(
                        tree_map(self.single),
                        #[trigger] single_key(path@, j),
                    ).contains(path@),
            decreases n - i,
        {
            let key = single_key_of(path, i);
            let ghost before = tree_map(self.single);
            match post(&mut self.single, &key, path) {
                Ok(()) => {},
                Err(e) => {
                    return Err(e);
                },
            }
            proof {
                let after = tree_map(self.single);
                assert forall|j: int| 0 <= j < i + 1 implies posted(
                    after,
                    #[trigger] single_key(path@, j),
                ).contains(path@) by {
                    if j < i {
                        assert(posted(before, single_key(path@, j)).contains(path@));
                    }
                }
            }
            i += 1;
        }
        let mut s: usize = 0;
        while s < n
            invariant
                s <= n,
                n == path@.len(),
                indexable(path@),
                others_same(single0, tree_map(self.single), path@),
                others_same(multi0, tree_map(self.multi), path@),
                forall|j: int|
                    0 <= j < n ==> posted(
                        tree_map(self.single),
                        #[trigger] single_key(path@, j),
                    ).contains(path@),
                forall|j: int|
                    0 <= j < s ==> posted(
                        tree_map(self.multi),
                        #[trigger] multi_key(path@, j),
                    ).contains(path@),
            decreases n - s,
        {
            let key = multi_key_of(path, s);
            let ghost before = tree_map(self.multi);
            match post(&mut self.multi, &key, path) {
                Ok(()) => {},
                Err(e) => {
                    return Err(e);
                },
            }
            proof {
                let after = tree_map(self.multi);
                assert forall|j: int| 0 <= j < s + 1 implies posted(
                    after,
                    #[trigger] multi_key(path@, j),
                ).contains(path@) by {
                    if j < s {
                        assert(posted(before, multi_key(path@, j)).contains(path@));
                    }
                }
            }
            s += 1;
        }
        proof {
            let single1 = tree_map(self.single);
            let multi1 = tree_map(self.multi);
            assert forall|q: Seq<Seg>|
                posted_paths(single1, multi1).contains(q) == posted_paths(single0, multi0).insert(
                    path@,
                ).contains(q) by {
                if q != path@ {
                    lemma_same_fullness(single0, multi0, single1, multi1, path@, q);
                }
            }
            assert(posted_paths(single1, multi1) =~= posted_paths(single0, multi0).insert(path@));
        }
        Ok(())
    }

    fn remove_path(&mut self, path: &Path) -> (r: Result<(), StoreError>) {
        if !is_indexable(path) {
            assert(self.paths().remove(path@) =~= self.paths());
            return Ok(());
        }
        proof {
            lemma_indexable_not_empty(path@);
        }
        let ghost single0 = tree_map(self.single);
        let ghost multi0 = tree_map(self.multi);
        let n = path.len();
        let mut i: usize = 0;
        while i < n
            invariant
                i <= n,
                n == path@.len(),
                n > 0,
                indexable(path@),
                tree_map(self.multi) == multi0,
                others_same(single0, tree_map(self.single), path@),
                i > 0 ==> !posted(tree_map(self.single), single_key(path@, 0)).contains(path@),
            decreases n - i,
        {
            let key = single_key_of(path, i);
            match unpost(&mut self.single, &key, path) {
                Ok(()) => {},
                Err(e) => {
                    return Err(e);
                },
            }
            i += 1;
        }
        let mut s: usize = 0;
        while s < n
            invariant
                s <= n,
                n == path@.len(),
                n > 0,
                indexable(path@),
                others_same(single0, tree_map(self.single), path@),
                others_same(multi0, tree_map(self.multi), path@),
                !posted(tree_map(self.single), single_key(path@, 0)).contains(path@),
            decreases n - s,
        {
            let key = multi_key_of(path, s);
            match unpost(&mut self.multi, &key, path) {
                Ok(()) => {},
                Err(e) => {
                    return Err(e);
                },
            }
            s += 1;
        }
        proof {
            let single1 = tree_map(self.single);
            let multi1 = tree_map(self.multi);
            assert forall|q: Seq<Seg>|
                posted_paths(single1, multi1).contains(q) == posted_paths(single0, multi0).remove(
                    path@,
                ).contains(q) by {
                if q != path@ {
                    lemma_same_fullness(single0, multi0, single1, multi1, path@, q);
                }
            }
            assert(posted_paths(single1, multi1) =~= posted_paths(single0, multi0).remove(path@));
        }
        Ok(())
    }

    fn find_by_prefix(&self, prefix: &Path) -> (r: Result<Vec<Path>, StoreError>) {
        let r = self.select_all(Selector::Prefix, prefix);
        proof {
            assert(self.paths().filter(|p: Seq<Seg>| keeps(Selector::Prefix, p, prefix@))
                =~= paths_under(self.paths(), prefix@));
        }
        r
    }

    fn find_by_pattern(&self, pattern: &Path) -> (r: Result<Vec<Path>, StoreError>) {
        let ghost want = paths_matching(self.paths(), pattern@);
        proof {
            assert(self.paths().filter(|p: Seq<Seg>| keeps(Selector::Pattern, p, pattern@))
                =~= want);
        }
        let length = pattern.len();
        match first_multi(pattern) {
            Some(m) => {
                let tail = pattern.suffix(m + 1);
                let head_len = literal_head_len(&tail);
                if head_len == 0 {
                    return self.select_all(Selector::Pattern, pattern);
                }
                let literal = tail.prefix(head_len);
                let start = index_key_of(&literal);
                let candidates = match self.posted_under(&start) {
                    Ok(candidates) => candidates,
                    Err(e) => {
                        return Err(e);
                    },
                };
                let found = match self.verify(&candidates, Selector::Pattern, pattern) {
                    Ok(found) => found,
                    Err(e) => {
                        return Err(e);
                    },
                };
                proof {
                    assert forall|p: Seq<Seg>| paths_model(found@).contains(p) <==> want.contains(
                        p,
                    ) by {
                        if want.contains(p) {
                            assert(self.paths().contains(p) && path_matches(p, pattern@));
                            assert(tail@ == pattern@.skip(m + 1));
                            assert(tail@.len() >= 1);
                            lemma_matches_first_multi(p, pattern@, m as int);
                            assert(exists|k: int|
                                m <= k <= p.len() && path_matches(
                                    #[trigger] p.skip(k),
                                    pattern@.skip(m + 1),
                                ));
                            let k = choose|k: int|
                                m <= k <= p.len() && path_matches(
                                    #[trigger] p.skip(k),
                                    pattern@.skip(m + 1),
                                );
                            let x = p.skip(k);
                            lemma_literal_head(x, tail@, head_len as int);
                            assert(x.len() == p.len() - k);
                            assert(k < p.len());
                            assert(fully_posted(tree_map(self.single), tree_map(self.multi), p));
                            assert(posted(tree_map(self.multi), multi_key(p, k)).contains(p));
                            lemma_key_of_prefix(x, head_len as int);
                            assert(x.take(head_len as int) == literal@);
                            assert(has_prefix(multi_key(p, k), start@));
                            assert(path_models(candidates@).contains(p));
                        }
                    }
                }
                Ok(found)
            },
            None => {
                match sole_wildcard(pattern) {
                    Some(i) => {
                        let key = structural_key_of(pattern);
                        let candidates = match read_posting(&self.single, &key) {
                            Ok(candidates) => candidates,
                            Err(e) => {
                                return Err(e);
                            },
                        };
                        let found = match self.verify(&candidates, Selector::Pattern, pattern) {
                            Ok(found) => found,
                            Err(e) => {
                                return Err(e);
                            },
                        };
                        proof {
                            assert forall|p: Seq<Seg>|
                                paths_model(found@).contains(p) <==> want.contains(p) by {
                                if want.contains(p) {
                                    lemma_sole_wildcard(p, pattern@, i as int);
                                    assert(single_key(p, i as int) == key@);
                                    assert(posted(
                                        tree_map(self.single),
                                        single_key(p, i as int),
                                    ).contains(p));
                                }
                            }
                        }
                        Ok(found)
                    },
                    None => self.select_all(Selector::Pattern, pattern),
                }
            },
        }
    }

    fn clear(&mut self) -> (r: Result<(), StoreError>) {
        match kv_clear(&mut self.single) {
            Ok(()) => {},
            Err(e) => {
                return Err(substrate_error("Failed to clear single tree", &e));
            },
        }
        match kv_clear(&mut self.multi) {
            Ok(()) => {},
            Err(e) => {
                return Err(substrate_error("Failed to clear multi tree", &e));
            },
        }
        proof {
            let single1 = tree_map(self.single);
            let multi1 = tree_map(self.multi);
            assert forall|q: Seq<Seg>| !posted_paths(single1, multi1).contains(q) by {
                if indexable(q) && fully_posted(single1, multi1, q) {
                    lemma_indexable_not_empty(q);
                    assert(posted(multi1, multi_key(q, 0)).contains(q));
                }
            }
            assert(posted_paths(single1, multi1) =~= Set::<Seq<Seg>>::empty());
        }
        Ok(())
    }

    fn name(&self) -> (r: &'static str)
        ensures
            r@ == "WildcardIndex"@,
    {
        "WildcardIndex"
    }
}

/// Where the postings of every path but one are the same in two states of
/// the trees, each other path is posted under all its keys in both states
/// or in neither.
pub proof fn lemma_same_fullness(
    single0: Map<Seq<u8>, Seq<u8>>,
    multi0: Map<Seq<u8>, Seq<u8>>,
    single1: Map<Seq<u8>, Seq<u8>>,
    multi1: Map<Seq<u8>, Seq<u8>>,
    path: Seq<Seg>,
    q: Seq<Seg>,
)
    requires
        others_same(single0, single1, path),
        others_same(multi0, multi1, path),
        q != path,
    ensures
        fully_posted(single1, multi1, q) == fully_posted(single0, multi0, q),
{
    if fully_posted(single0, multi0, q) {
        assert forall|i: int| 0 <= i < q.len() implies posted(
            single1,
            #[trigger] single_key(q, i),
        ).contains(q) by {
            assert(posted(single0, single_key(q, i)).contains(q));
        }
        assert forall|s: int| 0 <= s < q.len() implies posted(
            multi1,
            #[trigger] multi_key(q, s),
        ).contains(q) by {
            assert(posted(multi0, multi_key(q, s)).contains(q));
        }
    }
    if fully_posted(single1, multi1, q) {
        assert forall|i: int| 0 <= i < q.len() implies posted(
            single0,
            #[trigger] single_key(q, i),
        ).contains(q) by {
            assert(posted(single1, single_key(q, i)).contains(q));
        }
        assert forall|s: int| 0 <= s < q.len() implies posted(
            multi0,
            #[trigger] multi_key(q, s),
        ).contains(q) by {
            assert(posted(multi1, multi_key(q, s)).contains(q));
        }
    }
}

} // verus!
