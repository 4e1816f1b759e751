//! Textual index keys: the texts of the segments of a path, joined by the
//! separator `:`, in UTF-8. A path whose key reads back as the path can be
//! indexed; the key of a path begins with the key of each of its prefixes.

use crate::kv::has_prefix;
use crate::path::{classify, seg_text, segment_of, Path, Seg};
use crate::text::{chars_of, text_from_utf8};
use vstd::prelude::*;

use vstd::utf8::{
    decode_utf8, decode_utf8_encode_utf8, encode_utf8, encode_utf8_decode_utf8,
    encode_utf8_valid_utf8, valid_utf8,
};

verus! {

/// The text of an index key: the texts of the segments, joined by `:`.
pub open spec fn index_text(p: Seq<Seg>) -> Seq<char>
    decreases p.len(),
{
    if p.len() == 0 {
        Seq::empty()
    } else if p.len() == 1 {
        seg_text(p[0])
    } else {
        index_text(p.drop_last()) + seq![':'] + seg_text(p.last())
    }
}

/// The index key of a path.
pub open spec fn index_key(p: Seq<Seg>) -> Seq<u8> {
    encode_utf8(index_text(p))
}

/// The parts into which a text falls at each `:`. There is always at least
/// one part.
pub open spec fn key_parts(t: Seq<char>) -> Seq<Seq<char>>
    decreases t.len(),
{
    if t.len() == 0 {
        seq![Seq::empty()]
    } else {
        let before = key_parts(t.drop_last());
        if t.last() == ':' {
            before.push(Seq::empty())
        } else {
            before.drop_last().push(before.last().push(t.last()))
        }
    }
}

/// The path that the parts of a key text denote.
pub open spec fn text_path(t: Seq<char>) -> Seq<Seg> {
    key_parts(t).map_values(|part: Seq<char>| classify(part))
}

/// The path that a key stands for: the key is UTF-8, and the path that its
/// text denotes has that text again. Other keys stand for no path.
pub open spec fn key_path(key: Seq<u8>) -> Option<Seq<Seg>> {
    if valid_utf8(key) && index_text(text_path(decode_utf8(key))) == decode_utf8(key) {
        Some(text_path(decode_utf8(key)))
    } else {
        None
    }
}

/// Whether a path can be indexed: its key stands for it.
pub open spec fn indexable(p: Seq<Seg>) -> bool {
    key_path(index_key(p)) == Some(p)
}

/// A key that stands for a path is the key of that path, and the path can
/// be indexed.
pub proof fn lemma_key_of_key_path(key: Seq<u8>)
    requires
        key_path(key) is Some,
    ensures
        index_key(key_path(key)->0) == key,
        indexable(key_path(key)->0),
{
    decode_utf8_encode_utf8(key);
}

/// A path that can be indexed is the only one that its key stands for.
pub proof fn lemma_indexable_unique(p: Seq<Seg>, q: Seq<Seg>)
    requires
        indexable(p),
        indexable(q),
        index_key(p) == index_key(q),
    ensures
        p == q,
{
}

/// The UTF-8 of two texts, one behind the other, is the UTF-8 of the
/// first and behind it that of the second.
pub proof fn lemma_utf8_of_concat(a: Seq<char>, b: Seq<char>)
    ensures
        encode_utf8(a + b) == encode_utf8(a) + encode_utf8(b),
    decreases a.len(),
{
    if a.len() == 0 {
        assert(a + b == b);
        assert(encode_utf8(a) + encode_utf8(b) == encode_utf8(b));
    } else {
        lemma_utf8_of_concat(a.drop_first(), b);
        assert((a + b).drop_first() == a.drop_first() + b);
        assert((a + b)[0] == a[0]);
    }
}

/// The key text of a path begins with the key text of each of its
/// prefixes.
pub proof fn lemma_text_of_prefix(p: Seq<Seg>, n: int)
    requires
        0 <= n <= p.len(),
    ensures
        index_text(p.take(n)).len() <= index_text(p).len(),
        index_text(p).take(index_text(p.take(n)).len() as int) == index_text(p.take(n)),
    decreases p.len() - n,
{
    if n == p.len() {
        assert(p.take(n) == p);
        assert(index_text(p).take(index_text(p).len() as int) == index_text(p));
    } else if n == 0 {
        assert(index_text(p.take(0)).len() == 0);
        assert(index_text(p).take(0) == Seq::<char>::empty());
    } else {
        let shorter = p.drop_last();
        lemma_text_of_prefix(shorter, n);
        assert(shorter.take(n) == p.take(n));
        let head = index_text(shorter);
        assert(index_text(p) == head + seq![':'] + seg_text(p.last()));
        let want = index_text(p.take(n));
        assert(index_text(p).take(want.len() as int) == head.take(want.len() as int));
    }
}

/// The key of a path begins with the key of each of its prefixes.
pub proof fn lemma_key_of_prefix(p: Seq<Seg>, n: int)
    requires
        0 <= n <= p.len(),
    ensures
        has_prefix(index_key(p), index_key(p.take(n))),
{
    lemma_text_of_prefix(p, n);
    let whole = index_text(p);
    let head = index_text(p.take(n));
    let rest = whole.skip(head.len() as int);
    assert(whole == head + rest);
    lemma_utf8_of_concat(head, rest);
    assert((encode_utf8(head) + encode_utf8(rest)).take(encode_utf8(head).len() as int)
        == encode_utf8(head));
}

/// Appends the key text of a path to `out`.
pub fn push_index_text(path: &Path, out: &mut Vec<char>)
    ensures
        final(out)@ == old(out)@ + index_text(path@),
{
    let n = path.len();
    let mut i: usize = 0;
    assert(path@.take(0).len() == 0);
    assert(old(out)@ + Seq::<char>::empty() == old(out)@);
    while i < n
        invariant
            i <= n,
            n == path@.len(),
            out@ == old(out)@ + index_text(path@.take(i as int)),
        decreases n - i,
    {
        let ghost head = path@.take(i as int);
        let ghost next = path@.take(i + 1);
        proof {
            assert(next.drop_last() == head);
            assert(next.last() == path@[i as int]);
        }
        if i > 0 {
            out.push(':');
        }
        match path.segment(i) {
            Some(segment) => {
                let ghost before = out@;
                segment.push_text(out);
                proof {
                    if i > 0 {
                        assert(out@ == old(out)@ + (index_text(head) + seq![':'] + seg_text(
                            next.last(),
                        )));
                    } else {
                        assert(index_text(head).len() == 0);
                        assert(before == old(out)@);
                        assert(next.len() == 1);
                    }
                }
            },
            None => {},
        }
        i += 1;
    }
    assert(path@.take(n as int) == path@);
}

/// The index key of a path.
pub fn index_key_of(path: &Path) -> (r: Vec<u8>)
    ensures
        r@ == index_key(path@),
{
    let mut text: Vec<char> = Vec::new();
    push_index_text(path, &mut text);
    assert(Seq::<char>::empty() + index_text(path@) == index_text(path@));
    let s = crate::text::string_of(&text);
    s.as_str().as_bytes_vec()
}

/// The path that the parts of a key text denote.
fn path_of_text(v: &Vec<char>) -> (r: Path)
    ensures
        r@ == text_path(v@),
{
    let mut path = Path::new();
    let mut start: usize = 0;
    let mut i: usize = 0;
    assert(v@.take(0).len() == 0);
    assert(v@.subrange(0, 0) == Seq::<char>::empty());
    while i < v.len()
        invariant
            start <= i <= v.len(),
            key_parts(v@.take(i as int)).len() == path@.len() + 1,
            key_parts(v@.take(i as int)).last() == v@.subrange(start as int, i as int),
            forall|k: int|
                0 <= k < path@.len() ==> #[trigger] path@[k] == classify(
                    key_parts(v@.take(i as int))[k],
                ),
        decreases v.len() - i,
    {
        let c = v[i];
        let ghost t = v@.take(i + 1);
        let ghost before = key_parts(v@.take(i as int));
        proof {
            assert(t.drop_last() == v@.take(i as int));
            assert(t.last() == c);
        }
        if c == ':' {
            path.push_segment(segment_of(v, start, i));
            start = i + 1;
            assert(v@.subrange(start as int, i + 1) == Seq::<char>::empty());
        } else {
            assert(v@.subrange(start as int, i + 1) == before.last().push(c));
        }
        i += 1;
    }
    path.push_segment(segment_of(v, start, v.len()));
    proof {
        assert(v@.take(v.len() as int) == v@);
        let parts = key_parts(v@);
        let expected = text_path(v@);
        assert(path@.len() == expected.len());
        assert forall|k: int| 0 <= k < path@.len() implies path@[k] == expected[k] by {
            if k < parts.len() - 1 {
            } else {
                assert(parts[k] == parts.last());
            }
        }
        assert(path@ =~= expected);
    }
    path
}

/// Whether two character vectors hold the same characters.
fn same_chars(a: &Vec<char>, b: &Vec<char>) -> (r: bool)
    ensures
        r == (a@ == b@),
{
    if a.len() != b.len() {
        return false;
    }
    let mut i: usize = 0;
    while i < a.len()
        invariant
            i <= a.len(),
            a.len() == b.len(),
            forall|k: int| 0 <= k < i ==> a@[k] == b@[k],
        decreases a.len() - i,
    {
        if a[i] != b[i] {
            return false;
        }
        i += 1;
    }
    assert(a@ =~= b@);
    true
}

/// The path that a key stands for.
pub fn path_of_key(key: &Vec<u8>) -> (r: Option<Path>)
    ensures
        match r {
            Some(p) => key_path(key@) == Some(p@),
            None => key_path(key@) is None,
        },
{
    let text = match text_from_utf8(key.clone()) {
        Some(text) => text,
        None => {
            return None;
        },
    };
    proof {
        encode_utf8_valid_utf8(text@);
        encode_utf8_decode_utf8(text@);
    }
    let chars = chars_of(text.as_str());
    let path = path_of_text(&chars);
    let mut again: Vec<char> = Vec::new();
    push_index_text(&path, &mut again);
    assert(Seq::<char>::empty() + index_text(path@) == index_text(path@));
    if same_chars(&again, &chars) {
        Some(path)
    } else {
        None
    }
}

/// Whether a path can be indexed.
pub fn is_indexable(path: &Path) -> (r: bool)
    ensures
        r == indexable(path@),
{
    let key = index_key_of(path);
    match path_of_key(&key) {
        Some(p) => p.same_as(path),
        None => false,
    }
}

} // verus!
