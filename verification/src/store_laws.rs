//! Laws of the stores and their indexes: which paths can be indexed, and
//! what listings and queries find once the indexes have caught up with the
//! endpoints.

use crate::index_key::{index_text, indexable, key_parts, text_path};
use crate::index_types::OpModel;
use crate::memory::MemoryStore;
use crate::path::{classify, index_value, path_has_wildcards, path_matches, seg_text, Seg};
use crate::path_laws::lemma_starts_with_own_prefix;
use crate::persistent::{indexable_paths, PersistentStore};
use crate::prefix_index::lemma_matches_literal;
use crate::store::{lists_map, lists_set, paths_under, query_result, Endpoints, Store};
use crate::text::{decimal_text, is_digit, lemma_decimal_text};
use crate::value::ValueModel;
use vstd::prelude::*;
use vstd::utf8::{encode_utf8_decode_utf8, encode_utf8_valid_utf8};

verus! {

/// A segment whose text stands for it in an index key: a name holds no
/// `:` and is not the text of a wildcard or of an index; an index fits the
/// machine word.
pub open spec fn seg_is_plain(s: Seg) -> bool {
    match s {
        Seg::Named(name) => {
            &&& forall|i: int| 0 <= i < name.len() ==> #[trigger] name[i] != ':'
            &&& classify(name) == Seg::Named(name)
        },
        Seg::Single => true,
        Seg::Multi => true,
        Seg::Index(n) => n <= usize::MAX,
    }
}

/// A path all of whose segments are plain.
pub open spec fn path_is_plain(p: Seq<Seg>) -> bool {
    forall|i: int| 0 <= i < p.len() ==> seg_is_plain(#[trigger] p[i])
}

/// There is always at least one part.
pub proof fn lemma_key_parts_nonempty(t: Seq<char>)
    ensures
        key_parts(t).len() >= 1,
    decreases t.len(),
{
    if t.len() > 0 {
        lemma_key_parts_nonempty(t.drop_last());
    }
}

/// Appending a text without `:` to a text extends the last part.
pub proof fn lemma_key_parts_append(r: Seq<char>, b: Seq<char>)
    requires
        forall|i: int| 0 <= i < b.len() ==> #[trigger] b[i] != ':',
    ensures
        key_parts(r + b) == key_parts(r).drop_last().push(key_parts(r).last() + b),
    decreases b.len(),
{
    lemma_key_parts_nonempty(r);
    if b.len() == 0 {
        assert(r + b == r);
        assert(key_parts(r).last() + b == key_parts(r).last());
        assert(key_parts(r).drop_last().push(key_parts(r).last()) == key_parts(r));
    } else {
        let shorter = b.drop_last();
        let c = b.last();
        assert(c == b[b.len() - 1]);
        assert forall|i: int| 0 <= i < shorter.len() implies #[trigger] shorter[i] != ':' by {
            assert(shorter[i] == b[i]);
        }
        lemma_key_parts_append(r, shorter);
        let t = r + b;
        assert(t.drop_last() == r + shorter);
        assert(t.last() == c);
        let before = key_parts(r + shorter);
        assert(before.last() == key_parts(r).last() + shorter);
        assert(before.drop_last() == key_parts(r).drop_last());
        assert((key_parts(r).last() + shorter).push(c) == key_parts(r).last() + b);
    }
}

/// The text of a plain segment holds no `:` and denotes the segment.
pub proof fn lemma_plain_seg_text(s: Seg)
    requires
        seg_is_plain(s),
    ensures
        forall|i: int| 0 <= i < seg_text(s).len() ==> #[trigger] seg_text(s)[i] != ':',
        classify(seg_text(s)) == s,
{
    let t = seg_text(s);
    match s {
        Seg::Named(name) => {},
        Seg::Single => {
            assert(t.len() == 1 && t[0] == '*');
        },
        Seg::Multi => {
            assert(t.len() == 2 && t[0] == '*' && t[1] == '*');
            assert(t != seq!['*']);
        },
        Seg::Index(n) => {
            lemma_decimal_text(n);
            let d = decimal_text(n);
            assert(t.len() == d.len() + 2);
            assert(t[0] == '[');
            assert(t.last() == ']');
            assert forall|i: int| 0 <= i < t.len() implies #[trigger] t[i] != ':' by {
                if 1 <= i < t.len() - 1 {
                    assert(t[i] == d[i - 1]);
                    assert(is_digit(d[i - 1]));
                }
            }
            assert(t != seq!['*']);
            assert(t != seq!['*', '*']);
            assert(t.subrange(1, t.len() - 1) == d);
            assert(is_digit(d[0]));
            assert(d[0] != '+');
            assert(index_value(d) == Some(n));
        },
    }
}

/// The key text of a plain, non-empty path falls into the texts of its
/// segments.
pub proof fn lemma_parts_of_index_text(p: Seq<Seg>)
    requires
        path_is_plain(p),
        p.len() > 0,
    ensures
        key_parts(index_text(p)) == p.map_values(|s: Seg| seg_text(s)),
    decreases p.len(),
{
    let texts = p.map_values(|s: Seg| seg_text(s));
    let b = seg_text(p.last());
    lemma_plain_seg_text(p.last());
    if p.len() == 1 {
        let r = Seq::<char>::empty();
        assert(key_parts(r) == seq![Seq::<char>::empty()]);
        lemma_key_parts_append(r, b);
        assert(r + b == b);
        assert(key_parts(r).last() + b == b);
        assert(key_parts(r).drop_last().push(b) =~= texts);
    } else {
        let shorter = p.drop_last();
        assert forall|i: int| 0 <= i < shorter.len() implies seg_is_plain(
            #[trigger] shorter[i],
        ) by {
            assert(shorter[i] == p[i]);
        }
        lemma_parts_of_index_text(shorter);
        let r0 = index_text(shorter);
        let r = r0 + seq![':'];
        assert(r.drop_last() == r0);
        assert(r.last() == ':');
        let short_texts = shorter.map_values(|s: Seg| seg_text(s));
        assert(key_parts(r) == short_texts.push(Seq::<char>::empty()));
        lemma_key_parts_append(r, b);
        assert(key_parts(r).last() + b == b);
        assert(key_parts(r).drop_last() == short_texts);
        assert(short_texts.push(b) =~= texts);
    }
}

/// Every non-empty path of plain segments can be indexed.
pub proof fn lemma_plain_paths_are_indexable(p: Seq<Seg>)
    requires
        path_is_plain(p),
        p.len() > 0,
    ensures
        indexable(p),
{
    let t = index_text(p);
    lemma_parts_of_index_text(p);
    encode_utf8_valid_utf8(t);
    encode_utf8_decode_utf8(t);
    let again = text_path(t);
    assert(again.len() == p.len());
    assert forall|i: int| 0 <= i < p.len() implies again[i] == p[i] by {
        lemma_plain_seg_text(p[i]);
    }
    assert(again =~= p);
}

/// A listing by prefix holds every known path of which the prefix is made
/// of the first segments: for each known path `p` and each `k`, what lists
/// the known paths under `p[..k]` holds `p`.
pub proof fn lemma_listing_holds_path(
    known: Set<Seq<Seg>>,
    p: Seq<Seg>,
    k: int,
    listed: Seq<Seq<Seg>>,
)
    requires
        known.contains(p),
        0 <= k <= p.len(),
        lists_set(listed, paths_under(known, p.take(k))),
    ensures
        listed.contains(p),
{
    lemma_starts_with_own_prefix(p, k);
    assert(paths_under(known, p.take(k)).contains(p));
}

/// Where the index knows exactly the stored paths, a query finds a path
/// exactly when the path matches the pattern and is stored.
pub proof fn lemma_query_finds_matching(
    all: Endpoints,
    known: Set<Seq<Seg>>,
    pattern: Seq<Seg>,
    found: Seq<(Seq<Seg>, ValueModel)>,
    q: Seq<Seg>,
)
    requires
        known == all.dom(),
        lists_map(found, query_result(all, known, pattern)),
    ensures
        (exists|i: int| 0 <= i < found.len() && (#[trigger] found[i]).0 == q) <==> (path_matches(
            q,
            pattern,
        ) && all.dom().contains(q)),
{
    let want = query_result(all, known, pattern);
    if !path_has_wildcards(pattern) {
        lemma_matches_literal(q, pattern);
    }
    assert(want.dom().contains(q) <==> (path_matches(q, pattern) && all.dom().contains(q)));
    if exists|i: int| 0 <= i < found.len() && (#[trigger] found[i]).0 == q {
        let i = choose|i: int| 0 <= i < found.len() && (#[trigger] found[i]).0 == q;
        assert(want.contains_pair(found[i].0, found[i].1));
    }
}

/// In the in-memory store, for every stored path `p` and every `k`, the
/// listing under `p[..k]` holds `p`.
pub proof fn lemma_memory_listing(store: MemoryStore, p: Seq<Seg>, k: int, listed: Seq<Seq<Seg>>)
    requires
        store.endpoints().dom().contains(p),
        0 <= k <= p.len(),
        lists_set(listed, paths_under(store.indexed(), p.take(k))),
    ensures
        listed.contains(p),
{
    lemma_listing_holds_path(store.indexed(), p, k, listed);
}

/// In the in-memory store, a query finds a path exactly when the path
/// matches the pattern and is stored.
pub proof fn lemma_memory_query(
    store: MemoryStore,
    pattern: Seq<Seg>,
    found: Seq<(Seq<Seg>, ValueModel)>,
    q: Seq<Seg>,
)
    requires
        lists_map(found, query_result(store.endpoints(), store.matchable(), pattern)),
    ensures
        (exists|i: int| 0 <= i < found.len() && (#[trigger] found[i]).0 == q) <==> (path_matches(
            q,
            pattern,
        ) && store.endpoints().dom().contains(q)),
{
    lemma_query_finds_matching(store.endpoints(), store.matchable(), pattern, found, q);
}

/// In a persistent store whose indexes follow the endpoints and in which
/// no operation waits, each index holds exactly the stored paths that can
/// be indexed.
pub proof fn lemma_persistent_quiescent(store: PersistentStore)
    requires
        store.in_step(),
        store.pending() == Seq::<OpModel>::empty(),
    ensures
        store.indexed() == indexable_paths(store.endpoints()),
        store.matchable() == indexable_paths(store.endpoints()),
{
    assert(crate::index_worker::replay(store.pending(), store.indexed()) == store.indexed());
    assert(crate::index_worker::replay(store.pending(), store.matchable()) == store.matchable());
}

/// In a persistent store whose indexes follow the endpoints and in which
/// no operation waits, for every stored path `p` that can be indexed and
/// every `k`, the listing under `p[..k]` holds `p`.
pub proof fn lemma_persistent_listing(
    store: PersistentStore,
    p: Seq<Seg>,
    k: int,
    listed: Seq<Seq<Seg>>,
)
    requires
        store.in_step(),
        store.pending() == Seq::<OpModel>::empty(),
        store.endpoints().dom().contains(p),
        indexable(p),
        0 <= k <= p.len(),
        lists_set(listed, paths_under(store.indexed(), p.take(k))),
    ensures
        listed.contains(p),
{
    lemma_persistent_quiescent(store);
    lemma_listing_holds_path(store.indexed(), p, k, listed);
}

/// In a persistent store whose indexes follow the endpoints, in which no
/// operation waits and every stored path can be indexed, a query finds a
/// path exactly when the path matches the pattern and is stored.
pub proof fn lemma_persistent_query(
    store: PersistentStore,
    pattern: Seq<Seg>,
    found: Seq<(Seq<Seg>, ValueModel)>,
    q: Seq<Seg>,
)
    requires
        store.in_step(),
        store.pending() == Seq::<OpModel>::empty(),
        forall|p: Seq<Seg>| store.endpoints().dom().contains(p) ==> indexable(p),
        lists_map(found, query_result(store.endpoints(), store.matchable(), pattern)),
    ensures
        (exists|i: int| 0 <= i < found.len() && (#[trigger] found[i]).0 == q) <==> (path_matches(
            q,
            pattern,
        ) && store.endpoints().dom().contains(q)),
{
    lemma_persistent_quiescent(store);
    assert(indexable_paths(store.endpoints()) =~= store.endpoints().dom());
    lemma_query_finds_matching(store.endpoints(), store.matchable(), pattern, found, q);
}

} // verus!
