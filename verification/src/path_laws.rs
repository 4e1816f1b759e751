//! Laws of the path algebra: what `starts_with`, `matches`, parsing and
//! formatting guarantee for every path.

use crate::path::{
    classify, index_value, parse_text, path_has_multi, path_has_wildcards, path_is_legal,
    path_matches, path_starts_with, path_text, pieces, seg_is_legal, seg_is_wildcard,
    seg_matches, seg_text, Seg,
};
use crate::text::{decimal_text, is_digit, lemma_decimal_text};
use vstd::prelude::*;

verus! {

/// Every path starts with itself.
pub proof fn lemma_starts_with_self(p: Seq<Seg>)
    ensures
        path_starts_with(p, p),
{
}

/// Every path starts with the empty path.
pub proof fn lemma_starts_with_empty(p: Seq<Seg>)
    ensures
        path_starts_with(p, Seq::<Seg>::empty()),
{
}

/// A path starts with each of its own prefixes.
pub proof fn lemma_starts_with_own_prefix(p: Seq<Seg>, k: int)
    requires
        0 <= k <= p.len(),
    ensures
        path_starts_with(p, p.take(k)),
{
}

/// A path without wildcards matches itself.
pub proof fn lemma_matches_reflexive(p: Seq<Seg>)
    requires
        !path_has_wildcards(p),
    ensures
        path_matches(p, p),
    decreases p.len(),
{
    if p.len() > 0 {
        assert(!seg_is_wildcard(p[0]));
        let rest = p.skip(1);
        assert forall|i: int| 0 <= i < rest.len() implies !seg_is_wildcard(#[trigger] rest[i]) by {
            assert(rest[i] == p[i + 1]);
            assert(!seg_is_wildcard(p[i + 1]));
        }
        lemma_matches_reflexive(rest);
    }
}

/// Against a pattern without `**`, a path matches exactly when it has the
/// pattern's length and each pattern segment accepts the path's segment at
/// its position.
pub proof fn lemma_matches_without_multi(path: Seq<Seg>, pattern: Seq<Seg>)
    requires
        !path_has_multi(pattern),
    ensures
        path_matches(path, pattern) <==> (path.len() == pattern.len() && forall|i: int|
            0 <= i < pattern.len() ==> seg_matches(#[trigger] pattern[i], path[i])),
    decreases pattern.len(),
{
    if pattern.len() > 0 {
        assert(!(pattern[0] is Multi));
        let rest = pattern.skip(1);
        assert forall|i: int| 0 <= i < rest.len() implies !(#[trigger] rest[i] is Multi) by {
            assert(rest[i] == pattern[i + 1]);
            assert(!(pattern[i + 1] is Multi));
        }
        lemma_matches_without_multi(path.skip(1), rest);
        if path.len() > 0 {
            let tail = path.skip(1);
            if path_matches(path, pattern) {
                assert forall|i: int| 0 <= i < pattern.len() implies seg_matches(
                    #[trigger] pattern[i],
                    path[i],
                ) by {
                    if i > 0 {
                        assert(rest[i - 1] == pattern[i]);
                        assert(tail[i - 1] == path[i]);
                        assert(seg_matches(rest[i - 1], tail[i - 1]));
                    }
                }
            }
            if path.len() == pattern.len() && (forall|i: int|
                0 <= i < pattern.len() ==> seg_matches(#[trigger] pattern[i], path[i])) {
                assert forall|i: int| 0 <= i < rest.len() implies seg_matches(
                    #[trigger] rest[i],
                    tail[i],
                ) by {
                    assert(rest[i] == pattern[i + 1]);
                    assert(tail[i] == path[i + 1]);
                    assert(seg_matches(pattern[i + 1], path[i + 1]));
                }
            }
        }
    }
}

/// Where the first `**` of a pattern stands at position `i`, a path matches
/// exactly when it starts with the pattern's first `i` segments and either
/// the `**` ends the pattern or what follows it matches the path from some
/// position `k >= i` on.
pub proof fn lemma_matches_first_multi(path: Seq<Seg>, pattern: Seq<Seg>, i: int)
    requires
        0 <= i < pattern.len(),
        pattern[i] is Multi,
        forall|j: int| 0 <= j < i ==> !(#[trigger] pattern[j] is Multi),
    ensures
        path_matches(path, pattern) <==> (path_starts_with(path, pattern.take(i)) && (i
            == pattern.len() - 1 || exists|k: int|
            i <= k <= path.len() && path_matches(#[trigger] path.skip(k), pattern.skip(i + 1)))),
    decreases i,
{
    let head = pattern.take(i);
    let after = pattern.skip(i + 1);
    if i == 0 {
        assert(pattern.skip(1) == after);
        assert(path_starts_with(path, head));
    } else {
        assert(!(pattern[0] is Multi));
        let rest = pattern.skip(1);
        let tail = path.skip(1);
        assert(rest[i - 1] == pattern[i]);
        assert forall|j: int| 0 <= j < i - 1 implies !(#[trigger] rest[j] is Multi) by {
            assert(rest[j] == pattern[j + 1]);
            assert(!(pattern[j + 1] is Multi));
        }
        lemma_matches_first_multi(tail, rest, i - 1);
        assert(rest.skip(i) == after);
        assert(rest.take(i - 1) == head.skip(1));
        if path.len() > 0 {
            assert(head[0] == pattern[0]);
            if path_starts_with(path, head) {
                assert(seg_matches(head[0], path[0]));
                assert forall|j: int| 0 <= j < i - 1 implies seg_matches(
                    #[trigger] head.skip(1)[j],
                    tail[j],
                ) by {
                    assert(head.skip(1)[j] == head[j + 1]);
                    assert(tail[j] == path[j + 1]);
                    assert(seg_matches(head[j + 1], path[j + 1]));
                }
            }
            if seg_matches(pattern[0], path[0]) && path_starts_with(tail, head.skip(1)) {
                assert forall|j: int| 0 <= j < head.len() implies seg_matches(
                    #[trigger] head[j],
                    path[j],
                ) by {
                    if j > 0 {
                        assert(head.skip(1)[j - 1] == head[j]);
                        assert(tail[j - 1] == path[j]);
                        assert(seg_matches(head.skip(1)[j - 1], tail[j - 1]));
                    }
                }
            }
            if i != pattern.len() - 1 {
                if exists|k: int|
                    i - 1 <= k <= tail.len() && path_matches(#[trigger] tail.skip(k), after) {
                    let k = choose|k: int|
                        i - 1 <= k <= tail.len() && path_matches(#[trigger] tail.skip(k), after);
                    assert(tail.skip(k) == path.skip(k + 1));
                    assert(i <= k + 1 <= path.len() && path_matches(path.skip(k + 1), after));
                }
                if exists|k: int|
                    i <= k <= path.len() && path_matches(#[trigger] path.skip(k), after) {
                    let k = choose|k: int|
                        i <= k <= path.len() && path_matches(#[trigger] path.skip(k), after);
                    assert(tail.skip(k - 1) == path.skip(k));
                    assert(i - 1 <= k - 1 <= tail.len() && path_matches(tail.skip(k - 1), after));
                }
            }
        }
    }
}

/// Against a pattern that ends in its only `**`, a path matches exactly
/// when it starts with what stands before the `**`.
pub proof fn lemma_matches_terminal_multi(path: Seq<Seg>, head: Seq<Seg>)
    requires
        !path_has_multi(head),
    ensures
        path_matches(path, head.push(Seg::Multi)) <==> path_starts_with(path, head),
{
    let pattern = head.push(Seg::Multi);
    let i = head.len() as int;
    assert(pattern[i] is Multi);
    assert forall|j: int| 0 <= j < i implies !(#[trigger] pattern[j] is Multi) by {
        assert(pattern[j] == head[j]);
        assert(!(head[j] is Multi));
    }
    assert(pattern.take(i) == head);
    lemma_matches_first_multi(path, pattern, i);
}

/// There is always at least one piece.
pub proof fn lemma_pieces_nonempty(t: Seq<char>)
    ensures
        pieces(t).len() >= 1,
    decreases t.len(),
{
    if t.len() > 0 {
        lemma_pieces_nonempty(t.drop_last());
    }
}

/// A text that holds no `.`, and `[` at most as its first character.
pub open spec fn is_plain(b: Seq<char>) -> bool {
    forall|i: int| 0 <= i < b.len() ==> (#[trigger] b[i]) != '.' && (i >= 1 ==> b[i] != '[')
}

/// Appending a plain text to a text extends the last piece, provided the
/// plain text does not open with `[` behind a piece that has begun.
pub proof fn lemma_pieces_append_plain(r: Seq<char>, b: Seq<char>)
    requires
        is_plain(b),
        b.len() > 0 && b[0] == '[' ==> pieces(r).last().len() == 0,
    ensures
        pieces(r + b) == pieces(r).drop_last().push(pieces(r).last() + b),
    decreases b.len(),
{
    lemma_pieces_nonempty(r);
    if b.len() == 0 {
        assert(r + b == r);
        assert(pieces(r).last() + b == pieces(r).last());
        assert(pieces(r).drop_last().push(pieces(r).last()) == pieces(r));
    } else {
        let shorter = b.drop_last();
        let c = b.last();
        assert(c == b[b.len() - 1]);
        assert forall|i: int| 0 <= i < shorter.len() implies (#[trigger] shorter[i]) != '.' && (i
            >= 1 ==> shorter[i] != '[') by {
            assert(shorter[i] == b[i]);
        }
        if shorter.len() > 0 {
            assert(shorter[0] == b[0]);
        }
        lemma_pieces_append_plain(r, shorter);
        let t = r + b;
        assert(t.drop_last() == r + shorter);
        assert(t.last() == c);
        let before = pieces(r + shorter);
        assert(before == pieces(r).drop_last().push(pieces(r).last() + shorter));
        assert(before.last() == pieces(r).last() + shorter);
        assert(before.drop_last() == pieces(r).drop_last());
        assert(c != '.');
        if c == '[' {
            assert(b.len() == 1);
            assert(shorter.len() == 0);
            assert(before.last().len() == 0);
        }
        assert((pieces(r).last() + shorter).push(c) == pieces(r).last() + b);
    }
}

/// The text of a legal segment is plain and not empty, and denotes that
/// segment.
pub proof fn lemma_legal_seg_text(s: Seg)
    requires
        seg_is_legal(s),
    ensures
        is_plain(seg_text(s)),
        seg_text(s).len() > 0,
        classify(seg_text(s)) == s,
{
    let t = seg_text(s);
    match s {
        Seg::Named(name) => {},
        Seg::Single => {
            assert(t.len() == 1 && t[0] == '*');
        },
        Seg::Multi => {
            assert(t.len() == 2 && t[0] == '*' && t[1] == '*');
            assert(t != seq!['*']);
        },
        Seg::Index(n) => {
            lemma_decimal_text(n);
            let d = decimal_text(n);
            assert(t.len() == d.len() + 2);
            assert(t[0] == '[');
            assert(t.last() == ']');
            assert forall|i: int| 0 <= i < t.len() implies (#[trigger] t[i]) != '.' && (i >= 1
                ==> t[i] != '[') by {
                if 1 <= i < t.len() - 1 {
                    assert(t[i] == d[i - 1]);
                    assert(is_digit(d[i - 1]));
                }
            }
            assert(t != seq!['*']);
            assert(t != seq!['*', '*']);
            assert(t.subrange(1, t.len() - 1) == d);
            assert(is_digit(d[0]));
            assert(d[0] != '+');
            assert(index_value(d) == Some(n));
        },
    }
}

/// The texts of the segments of `p`, in order.
pub open spec fn seg_texts(p: Seq<Seg>) -> Seq<Seq<char>> {
    p.map_values(|s: Seg| seg_text(s))
}

/// The text of a legal, non-empty path falls into the texts of its
/// segments, and is not empty.
pub proof fn lemma_pieces_of_path_text(p: Seq<Seg>)
    requires
        path_is_legal(p),
        p.len() > 0,
    ensures
        pieces(path_text(p)) == seg_texts(p),
        path_text(p).len() > 0,
    decreases p.len(),
{
    let b = seg_text(p.last());
    lemma_legal_seg_text(p.last());
    if p.len() == 1 {
        let r = Seq::<char>::empty();
        assert(pieces(r) == seq![Seq::<char>::empty()]);
        lemma_pieces_append_plain(r, b);
        assert(r + b == b);
        assert(pieces(r).last() + b == b);
        assert(pieces(r).drop_last().push(b) =~= seg_texts(p));
    } else {
        let shorter = p.drop_last();
        assert forall|i: int| 0 <= i < shorter.len() implies seg_is_legal(
            #[trigger] shorter[i],
        ) by {
            assert(shorter[i] == p[i]);
        }
        lemma_pieces_of_path_text(shorter);
        let r0 = path_text(shorter);
        let r = r0 + seq!['.'];
        assert(r.drop_last() == r0);
        assert(r.last() == '.');
        assert(pieces(r) == seg_texts(shorter).push(Seq::<char>::empty()));
        lemma_pieces_append_plain(r, b);
        assert(pieces(r).last() + b == b);
        assert(pieces(r).drop_last() == seg_texts(shorter));
        assert(seg_texts(shorter).push(b) =~= seg_texts(p));
    }
}

/// Parsing the text of a path gives the path back, for every non-empty
/// path of legal segments.
pub proof fn lemma_parse_format_roundtrip(p: Seq<Seg>)
    requires
        path_is_legal(p),
        p.len() > 0,
    ensures
        parse_text(path_text(p)) == Some(p),
{
    lemma_pieces_of_path_text(p);
    let parsed = pieces(path_text(p)).map_values(|piece: Seq<char>| classify(piece));
    assert(parsed.len() == p.len());
    assert forall|i: int| 0 <= i < p.len() implies parsed[i] == p[i] by {
        lemma_legal_seg_text(p[i]);
        assert(seg_texts(p)[i] == seg_text(p[i]));
    }
    assert(parsed =~= p);
}

} // verus!
