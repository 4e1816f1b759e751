//! The binary codec of the persistence layer: length-prefixed frames, and
//! inside them paths and values.

use crate::number::{lemma_read_number_text, number_ok, number_text, read_number, Number};
use crate::path::{Path, PathSegment, Seg};
use crate::text::text_from_utf8;
use crate::value::{Value, ValueModel};
use vstd::bytes::{
    lemma_auto_spec_u64_to_from_le_bytes, spec_u64_from_le_bytes, spec_u64_to_le_bytes,
    u64_from_le_bytes, u64_to_le_bytes,
};
use vstd::prelude::*;
use vstd::slice::{slice_subrange, slice_to_vec};

use vstd::utf8::{
    decode_utf8, decode_utf8_encode_utf8, encode_utf8, encode_utf8_decode_utf8,
    encode_utf8_valid_utf8, valid_utf8,
};

verus! {

/// A frame: the length of the content, as eight bytes with the least
/// significant first, and the content.
pub open spec fn frame(content: Seq<u8>) -> Seq<u8> {
    spec_u64_to_le_bytes(content.len() as u64) + content
}

/// The frames of the contents, one behind the other.
pub open spec fn frames(contents: Seq<Seq<u8>>) -> Seq<u8>
    decreases contents.len(),
{
    if contents.len() == 0 {
        Seq::empty()
    } else {
        frame(contents[0]) + frames(contents.skip(1))
    }
}

/// The contents of the frames that the bytes are made of; nothing where
/// the bytes are no run of whole frames.
pub open spec fn unframe(bytes: Seq<u8>) -> Option<Seq<Seq<u8>>>
    decreases bytes.len(),
{
    if bytes.len() == 0 {
        Some(Seq::empty())
    } else if bytes.len() < 8 {
        None
    } else {
        let n = spec_u64_from_le_bytes(bytes.take(8)) as int;
        if bytes.len() - 8 < n {
            None
        } else {
            match unframe(bytes.skip(8 + n)) {
                Some(rest) => Some(seq![bytes.subrange(8, 8 + n)] + rest),
                None => None,
            }
        }
    }
}

/// Whether each content is short enough for its length to be written.
pub open spec fn contents_fit(contents: Seq<Seq<u8>>) -> bool {
    forall|i: int| 0 <= i < contents.len() ==> (#[trigger] contents[i]).len() <= u64::MAX
}

/// Frames read back as the contents they were made of.
pub proof fn lemma_unframe_frames(contents: Seq<Seq<u8>>)
    requires
        contents_fit(contents),
    ensures
        unframe(frames(contents)) == Some(contents),
    decreases contents.len(),
{
    lemma_auto_spec_u64_to_from_le_bytes();
    if contents.len() > 0 {
        let first = contents[0];
        let rest = contents.skip(1);
        assert forall|i: int| 0 <= i < rest.len() implies (#[trigger] rest[i]).len()
            <= u64::MAX by {
            assert(rest[i] == contents[i + 1]);
        }
        lemma_unframe_frames(rest);
        let bytes = frames(contents);
        let head = spec_u64_to_le_bytes(first.len() as u64);
        assert(bytes == head + first + frames(rest));
        assert(bytes.take(8) == head);
        assert(bytes.skip(8 + first.len() as int) == frames(rest));
        assert(bytes.subrange(8, 8 + first.len() as int) == first);
        assert(seq![first] + rest == contents);
    }
}

/// Bytes that read as frames are the frames of what they read as.
pub proof fn lemma_frames_unframe(bytes: Seq<u8>)
    requires
        unframe(bytes) is Some,
    ensures
        frames(unframe(bytes)->0) == bytes,
        contents_fit(unframe(bytes)->0),
    decreases bytes.len(),
{
    lemma_auto_spec_u64_to_from_le_bytes();
    if bytes.len() > 0 {
        let n = spec_u64_from_le_bytes(bytes.take(8)) as int;
        let tail = bytes.skip(8 + n);
        lemma_frames_unframe(tail);
        let first = bytes.subrange(8, 8 + n);
        let rest = unframe(tail)->0;
        let contents = seq![first] + rest;
        assert(contents[0] == first);
        assert(contents.skip(1) == rest);
        assert(spec_u64_to_le_bytes(first.len() as u64) == bytes.take(8));
        assert(bytes.take(8) + first + tail == bytes);
        assert forall|i: int| 0 <= i < contents.len() implies (#[trigger] contents[i]).len()
            <= u64::MAX by {
            if i > 0 {
                assert(contents[i] == rest[i - 1]);
            }
        }
    }
}

/// The models of a list of byte vectors, in order.
pub open spec fn contents_model(v: Seq<Vec<u8>>) -> Seq<Seq<u8>> {
    v.map_values(|c: Vec<u8>| c@)
}

/// Appends the frame of `content` to `out`.
pub fn push_frame(out: &mut Vec<u8>, content: &Vec<u8>)
    ensures
        final(out)@ == old(out)@ + frame(content@),
        content@.len() <= u64::MAX,
{
    let mut head = u64_to_le_bytes(content.len() as u64);
    out.append(&mut head);
    let mut body = content.clone();
    out.append(&mut body);
    assert(out@ == old(out)@ + (spec_u64_to_le_bytes(content@.len() as u64) + content@));
}

/// The frames of the contents, one behind the other.
pub fn join_frames(contents: &Vec<Vec<u8>>) -> (r: Vec<u8>)
    ensures
        r@ == frames(contents_model(contents@)),
        contents_fit(contents_model(contents@)),
{
    let ghost all = contents_model(contents@);
    let mut out: Vec<u8> = Vec::new();
    let mut i: usize = contents.len();
    assert(all.skip(i as int).len() == 0);
    while i > 0
        invariant
            i <= contents.len(),
            all == contents_model(contents@),
            out@ == frames(all.skip(i as int)),
            forall|k: int| i <= k < all.len() ==> (#[trigger] all[k]).len() <= u64::MAX,
        decreases i,
    {
        i -= 1;
        let mut next: Vec<u8> = Vec::new();
        push_frame(&mut next, &contents[i]);
        let ghost tail = out@;
        next.append(&mut out);
        out = next;
        proof {
            let rest = all.skip(i as int);
            assert(rest[0] == contents@[i as int]@);
            assert(rest.skip(1) == all.skip(i + 1));
            assert(out@ == frame(rest[0]) + tail);
        }
    }
    assert(all.skip(0) == all);
    out
}

/// The contents of the frames that the bytes are made of.
pub fn split_frames(bytes: &Vec<u8>) -> (r: Option<Vec<Vec<u8>>>)
    ensures
        match r {
            Some(contents) => unframe(bytes@) == Some(contents_model(contents@)),
            None => unframe(bytes@) is None,
        },
{
    let mut contents: Vec<Vec<u8>> = Vec::new();
    let mut at: usize = 0;
    assert(bytes@.skip(0) == bytes@);
    while at < bytes.len()
        invariant
            at <= bytes.len(),
            unframe(bytes@) == match unframe(bytes@.skip(at as int)) {
                Some(rest) => Some(contents_model(contents@) + rest),
                None => None,
            },
        decreases bytes.len() - at,
    {
        let ghost tail = bytes@.skip(at as int);
        if bytes.len() - at < 8 {
            return None;
        }
        let head = slice_subrange(bytes.as_slice(), at, at + 8);
        assert(head@ == tail.take(8));
        let n = u64_from_le_bytes(head);
        if n > (bytes.len() - at - 8) as u64 {
            return None;
        }
        let size = n as usize;
        let content = slice_to_vec(slice_subrange(bytes.as_slice(), at + 8, at + 8 + size));
        proof {
            assert(content@ == tail.subrange(8, 8 + n));
            assert(tail.skip(8 + n) == bytes@.skip(at + 8 + size));
            let listed = contents_model(contents@);
            match unframe(bytes@.skip(at + 8 + size)) {
                Some(rest) => {
                    assert(listed + (seq![content@] + rest) == listed.push(content@) + rest);
                },
                None => {},
            }
            assert(contents_model(contents@.push(content)) == listed.push(content@));
        }
        contents.push(content);
        at = at + 8 + size;
    }
    proof {
        assert(bytes@.skip(at as int).len() == 0);
        assert(contents_model(contents@) + Seq::<Seq<u8>>::empty() == contents_model(contents@));
    }
    Some(contents)
}

/// The content of the frame of a segment: a tag, and behind it the name in
/// UTF-8 or the index as eight bytes.
pub open spec fn seg_content(s: Seg) -> Seq<u8> {
    match s {
        Seg::Named(name) => seq![0u8] + encode_utf8(name),
        Seg::Single => seq![1u8],
        Seg::Multi => seq![2u8],
        Seg::Index(n) => seq![3u8] + spec_u64_to_le_bytes(n as u64),
    }
}

/// The segment that a content writes; nothing where it writes none.
pub open spec fn content_seg(c: Seq<u8>) -> Option<Seg> {
    if c.len() == 0 {
        None
    } else if c[0] == 0 {
        if valid_utf8(c.skip(1)) {
            Some(Seg::Named(decode_utf8(c.skip(1))))
        } else {
            None
        }
    } else if c[0] == 1 && c.len() == 1 {
        Some(Seg::Single)
    } else if c[0] == 2 && c.len() == 1 {
        Some(Seg::Multi)
    } else if c[0] == 3 && c.len() == 9 && spec_u64_from_le_bytes(c.skip(1)) <= usize::MAX {
        Some(Seg::Index(spec_u64_from_le_bytes(c.skip(1)) as nat))
    } else {
        None
    }
}

/// Whether a segment can be written: an index fits the machine word.
pub open spec fn seg_storable(s: Seg) -> bool {
    s matches Seg::Index(n) ==> n <= usize::MAX
}

/// The content of a segment that can be written reads back as the segment.
pub proof fn lemma_content_of_seg(s: Seg)
    requires
        seg_storable(s),
    ensures
        content_seg(seg_content(s)) == Some(s),
{
    lemma_auto_spec_u64_to_from_le_bytes();
    let c = seg_content(s);
    match s {
        Seg::Named(name) => {
            assert(c.skip(1) == encode_utf8(name));
            encode_utf8_valid_utf8(name);
            encode_utf8_decode_utf8(name);
        },
        Seg::Single => {},
        Seg::Multi => {},
        Seg::Index(n) => {
            assert(c.skip(1) == spec_u64_to_le_bytes(n as u64));
        },
    }
}

/// A content that reads as a segment is the content of that segment, and
/// the segment can be written.
pub proof fn lemma_seg_of_content(c: Seq<u8>)
    requires
        content_seg(c) is Some,
    ensures
        seg_content(content_seg(c)->0) == c,
        seg_storable(content_seg(c)->0),
{
    lemma_auto_spec_u64_to_from_le_bytes();
    if c[0] == 0 {
        decode_utf8_encode_utf8(c.skip(1));
        assert(seq![0u8] + c.skip(1) == c);
    } else if c[0] == 3 {
        assert(c.skip(1).len() == 8);
        assert(seq![3u8] + c.skip(1) == c);
    } else {
        assert(c == seq![c[0]]);
    }
}

/// The contents of the frames of the segments of a path.
pub open spec fn path_contents(p: Seq<Seg>) -> Seq<Seq<u8>> {
    p.map_values(|s: Seg| seg_content(s))
}

/// The bytes of a path: one frame for each segment.
pub open spec fn path_bytes(p: Seq<Seg>) -> Seq<u8> {
    frames(path_contents(p))
}

/// The path that the bytes write; nothing where they write none.
pub open spec fn read_path(bytes: Seq<u8>) -> Option<Seq<Seg>> {
    match unframe(bytes) {
        Some(contents) => if forall|i: int|
            0 <= i < contents.len() ==> content_seg(#[trigger] contents[i]) is Some {
            Some(contents.map_values(|c: Seq<u8>| content_seg(c)->0))
        } else {
            None
        },
        None => None,
    }
}

/// Whether a path can be written: each segment can, and its content is
/// short enough for its length to be written.
pub open spec fn path_storable(p: Seq<Seg>) -> bool {
    forall|i: int|
        0 <= i < p.len() ==> seg_storable(#[trigger] p[i]) && seg_content(p[i]).len() <= u64::MAX
}

/// The bytes of a path that can be written read back as the path.
pub proof fn lemma_read_path_bytes(p: Seq<Seg>)
    requires
        path_storable(p),
    ensures
        read_path(path_bytes(p)) == Some(p),
{
    let contents = path_contents(p);
    assert forall|i: int| 0 <= i < contents.len() implies (#[trigger] contents[i]).len()
        <= u64::MAX by {
        assert(contents[i] == seg_content(p[i]));
    }
    lemma_unframe_frames(contents);
    assert forall|i: int| 0 <= i < contents.len() implies content_seg(#[trigger] contents[i])
        == Some(p[i]) by {
        lemma_content_of_seg(p[i]);
    }
    assert(contents.map_values(|c: Seq<u8>| content_seg(c)->0) =~= p);
}

/// Bytes that read as a path are the bytes of that path, and the path can
/// be written.
pub proof fn lemma_path_bytes_read(bytes: Seq<u8>)
    requires
        read_path(bytes) is Some,
    ensures
        path_bytes(read_path(bytes)->0) == bytes,
        path_storable(read_path(bytes)->0),
{
    let contents = unframe(bytes)->0;
    let p = read_path(bytes)->0;
    lemma_frames_unframe(bytes);
    assert forall|i: int| 0 <= i < p.len() implies seg_content(#[trigger] p[i]) == contents[i]
        && seg_storable(p[i]) by {
        assert(content_seg(contents[i]) is Some);
        lemma_seg_of_content(contents[i]);
    }
    assert(path_contents(p) =~= contents);
}

/// Two paths that can be written and have the same bytes are the same.
pub proof fn lemma_path_bytes_injective(p: Seq<Seg>, q: Seq<Seg>)
    requires
        path_storable(p),
        path_storable(q),
        path_bytes(p) == path_bytes(q),
    ensures
        p == q,
{
    lemma_read_path_bytes(p);
    lemma_read_path_bytes(q);
}

/// The content of the frame of a segment.
fn encode_segment(segment: &PathSegment) -> (r: Vec<u8>)
    ensures
        r@ == seg_content(segment@),
        seg_storable(segment@),
{
    let mut out: Vec<u8> = Vec::new();
    match segment.as_index() {
        Some(n) => {
            out.push(3u8);
            let mut bytes = u64_to_le_bytes(n as u64);
            out.append(&mut bytes);
        },
        None => {
            if segment.is_single_wildcard() {
                out.push(1u8);
            } else if segment.is_multi_wildcard() {
                out.push(2u8);
            } else {
                match segment.as_name() {
                    Some(name) => {
                        out.push(0u8);
                        let mut bytes = name.as_str().as_bytes_vec();
                        out.append(&mut bytes);
                    },
                    None => {},
                }
            }
        },
    }
    out
}

/// The segment that a content writes.
fn decode_segment(content: &Vec<u8>) -> (r: Option<PathSegment>)
    ensures
        match r {
            Some(s) => content_seg(content@) == Some(s@),
            None => content_seg(content@) is None,
        },
{
    if content.len() == 0 {
        return None;
    }
    let tag = content[0];
    if tag == 0 {
        let body = slice_to_vec(slice_subrange(content.as_slice(), 1, content.len()));
        assert(body@ == content@.skip(1));
        match text_from_utf8(body) {
            Some(name) => {
                proof {
                    encode_utf8_valid_utf8(name@);
                    encode_utf8_decode_utf8(name@);
                }
                Some(PathSegment::named(name))
            },
            None => None,
        }
    } else if tag == 1 && content.len() == 1 {
        Some(PathSegment::single_wildcard())
    } else if tag == 2 && content.len() == 1 {
        Some(PathSegment::multi_wildcard())
    } else if tag == 3 && content.len() == 9 {
        let body = slice_subrange(content.as_slice(), 1, 9);
        assert(body@ == content@.skip(1));
        let n = u64_from_le_bytes(body);
        if n <= usize::MAX as u64 {
            Some(PathSegment::index(n as usize))
        } else {
            None
        }
    } else {
        None
    }
}

/// The bytes of a path.
pub fn encode_path(path: &Path) -> (r: Vec<u8>)
    ensures
        r@ == path_bytes(path@),
        path_storable(path@),
{
    let mut contents: Vec<Vec<u8>> = Vec::new();
    let mut i: usize = 0;
    let n = path.len();
    while i < n
        invariant
            i <= n,
            n == path@.len(),
            contents.len() == i,
            forall|k: int|
                0 <= k < i ==> (#[trigger] contents@[k])@ == seg_content(path@[k]) && seg_storable(
                    path@[k],
                ),
        decreases n - i,
    {
        match path.segment(i) {
            Some(segment) => {
                contents.push(encode_segment(segment));
            },
            None => {},
        }
        i += 1;
    }
    let out = join_frames(&contents);
    proof {
        assert(contents_model(contents@) =~= path_contents(path@));
        assert forall|k: int| 0 <= k < path@.len() implies seg_storable(#[trigger] path@[k])
            && seg_content(path@[k]).len() <= u64::MAX by {
            assert(contents_model(contents@)[k] == contents@[k]@);
        }
    }
    out
}

/// The path that the bytes write.
pub fn decode_path(bytes: &Vec<u8>) -> (r: Option<Path>)
    ensures
        match r {
            Some(p) => read_path(bytes@) == Some(p@),
            None => read_path(bytes@) is None,
        },
{
    let contents = match split_frames(bytes) {
        Some(contents) => contents,
        None => {
            return None;
        },
    };
    let ghost listed = contents_model(contents@);
    let mut path = Path::new();
    let mut i: usize = 0;
    while i < contents.len()
        invariant
            i <= contents.len(),
            listed == contents_model(contents@),
            unframe(bytes@) == Some(listed),
            path@.len() == i,
            forall|k: int| 0 <= k < i ==> content_seg(#[trigger] listed[k]) == Some(path@[k]),
        decreases contents.len() - i,
    {
        match decode_segment(&contents[i]) {
            Some(segment) => {
                path.push_segment(segment);
            },
            None => {
                assert(content_seg(listed[i as int]) is None);
                return None;
            },
        }
        i += 1;
    }
    assert(listed.map_values(|c: Seq<u8>| content_seg(c)->0) =~= path@);
    Some(path)
}

/// The number that stands for the integer `i` in a value's bytes: the
/// integer moved up so that the smallest one stands at zero.
pub open spec fn int_code(i: int) -> u64 {
    (i + 0x8000_0000_0000_0000) as u64
}

/// The content that stands for an optional MIME type: one byte that says
/// whether there is one, and behind it the type in UTF-8.
pub open spec fn mime_content(mime: Option<Seq<char>>) -> Seq<u8> {
    match mime {
        Some(m) => seq![1u8] + encode_utf8(m),
        None => seq![0u8],
    }
}

/// The optional MIME type that a content writes.
pub open spec fn content_mime(c: Seq<u8>) -> Option<Option<Seq<char>>> {
    if c.len() == 1 && c[0] == 0 {
        Some(None)
    } else if c.len() >= 1 && c[0] == 1 && valid_utf8(c.skip(1)) {
        Some(Some(decode_utf8(c.skip(1))))
    } else {
        None
    }
}

/// The bytes of a value: a tag for the variant, and behind it the payload.
pub open spec fn value_bytes(v: ValueModel) -> Seq<u8> {
    match v {
        ValueModel::Null => seq![0u8],
        ValueModel::Boolean(b) => seq![
            1u8,
            if b {
                1u8
            } else {
                0u8
            },
        ],
        ValueModel::Integer(i) => seq![2u8] + spec_u64_to_le_bytes(int_code(i)),
        ValueModel::Float(n) => seq![3u8] + encode_utf8(number_text(n)),
        ValueModel::String(s) => seq![4u8] + encode_utf8(s),
        ValueModel::Binary(data, mime) => seq![5u8] + frames(seq![data, mime_content(mime)]),
        ValueModel::Reference(p) => seq![6u8] + path_bytes(p),
    }
}

/// The value that the bytes write; nothing where they write none.
pub open spec fn read_value(bytes: Seq<u8>) -> Option<ValueModel> {
    if bytes.len() == 0 {
        None
    } else {
        let body = bytes.skip(1);
        if bytes[0] == 0 {
            if body.len() == 0 {
                Some(ValueModel::Null)
            } else {
                None
            }
        } else if bytes[0] == 1 {
            if body.len() == 1 && body[0] <= 1 {
                Some(ValueModel::Boolean(body[0] == 1))
            } else {
                None
            }
        } else if bytes[0] == 2 {
            if body.len() == 8 {
                Some(ValueModel::Integer(spec_u64_from_le_bytes(body) - 0x8000_0000_0000_0000))
            } else {
                None
            }
        } else if bytes[0] == 3 {
            if valid_utf8(body) && read_number(decode_utf8(body)) is Some {
                Some(ValueModel::Float(read_number(decode_utf8(body))->0))
            } else {
                None
            }
        } else if bytes[0] == 4 {
            if valid_utf8(body) {
                Some(ValueModel::String(decode_utf8(body)))
            } else {
                None
            }
        } else if bytes[0] == 5 {
            match unframe(body) {
                Some(parts) => if parts.len() == 2 && content_mime(parts[1]) is Some {
                    Some(ValueModel::Binary(parts[0], content_mime(parts[1])->0))
                } else {
                    None
                },
                None => None,
            }
        } else if bytes[0] == 6 {
            match read_path(body) {
                Some(p) => Some(ValueModel::Reference(p)),
                None => None,
            }
        } else {
            None
        }
    }
}

/// Whether a value can be written.
pub open spec fn value_storable(v: ValueModel) -> bool {
    match v {
        ValueModel::Integer(i) => i64::MIN <= i <= i64::MAX,
        ValueModel::Float(n) => number_ok(n),
        ValueModel::Binary(data, mime) => data.len() <= u64::MAX && mime_content(mime).len()
            <= u64::MAX,
        ValueModel::Reference(p) => path_storable(p),
        _ => true,
    }
}

/// The bytes of a value that can be written read back as the value.
pub proof fn lemma_read_value_bytes(v: ValueModel)
    requires
        value_storable(v),
    ensures
        read_value(value_bytes(v)) == Some(v),
{
    lemma_auto_spec_u64_to_from_le_bytes();
    let bytes = value_bytes(v);
    let body = bytes.skip(1);
    match v {
        ValueModel::Null => {},
        ValueModel::Boolean(b) => {},
        ValueModel::Integer(i) => {
            assert(body == spec_u64_to_le_bytes(int_code(i)));
        },
        ValueModel::Float(n) => {
            assert(body == encode_utf8(number_text(n)));
            encode_utf8_valid_utf8(number_text(n));
            encode_utf8_decode_utf8(number_text(n));
            lemma_read_number_text(n);
        },
        ValueModel::String(s) => {
            assert(body == encode_utf8(s));
            encode_utf8_valid_utf8(s);
            encode_utf8_decode_utf8(s);
        },
        ValueModel::Binary(data, mime) => {
            let parts = seq![data, mime_content(mime)];
            assert(body == frames(parts));
            lemma_unframe_frames(parts);
            match mime {
                Some(m) => {
                    assert(mime_content(mime).skip(1) == encode_utf8(m));
                    encode_utf8_valid_utf8(m);
                    encode_utf8_decode_utf8(m);
                },
                None => {},
            }
        },
        ValueModel::Reference(p) => {
            assert(body == path_bytes(p));
            lemma_read_path_bytes(p);
        },
    }
}

/// The bytes of a value.
pub fn encode_value(value: &Value) -> (r: Vec<u8>)
    ensures
        r@ == value_bytes(value@),
        value_storable(value@),
        read_value(r@) == Some(value@),
{
    let mut out: Vec<u8> = Vec::new();
    match value {
        Value::Null => {
            out.push(0u8);
        },
        Value::Boolean(b) => {
            out.push(1u8);
            out.push(
                if *b {
                    1u8
                } else {
                    0u8
                },
            );
        },
        Value::Integer(i) => {
            out.push(2u8);
            let code: u64 = if *i >= 0 {
                (*i as u64) + 0x8000_0000_0000_0000u64
            } else {
                (*i + i64::MAX + 1) as u64
            };
            let mut bytes = u64_to_le_bytes(code);
            out.append(&mut bytes);
        },
        Value::Float(n) => {
            out.push(3u8);
            let text = n.text();
            let mut bytes = text.as_str().as_bytes_vec();
            out.append(&mut bytes);
        },
        Value::String(s) => {
            out.push(4u8);
            let mut bytes = s.as_str().as_bytes_vec();
            out.append(&mut bytes);
        },
        Value::Binary(data, mime) => {
            out.push(5u8);
            let mut mime_bytes: Vec<u8> = Vec::new();
            match mime {
                Some(m) => {
                    mime_bytes.push(1u8);
                    let mut bytes = m.as_str().as_bytes_vec();
                    mime_bytes.append(&mut bytes);
                },
                None => {
                    mime_bytes.push(0u8);
                },
            }
            let mut parts: Vec<Vec<u8>> = Vec::new();
            parts.push(data.clone());
            parts.push(mime_bytes);
            let mut framed = join_frames(&parts);
            proof {
                assert(contents_model(parts@) =~= seq![data@, mime_content(value@->Binary_1)]);
                assert(contents_model(parts@)[0].len() <= u64::MAX);
                assert(contents_model(parts@)[1].len() <= u64::MAX);
            }
            out.append(&mut framed);
        },
        Value::Reference(p) => {
            out.push(6u8);
            let mut bytes = encode_path(p);
            out.append(&mut bytes);
        },
    }
    proof {
        assert(out@ == value_bytes(value@));
        lemma_read_value_bytes(value@);
    }
    out
}

/// The value that the bytes write.
pub fn decode_value(bytes: &Vec<u8>) -> (r: Option<Value>)
    ensures
        match r {
            Some(v) => read_value(bytes@) == Some(v@),
            None => read_value(bytes@) is None,
        },
{
    if bytes.len() == 0 {
        return None;
    }
    let tag = bytes[0];
    let body = slice_to_vec(slice_subrange(bytes.as_slice(), 1, bytes.len()));
    assert(body@ == bytes@.skip(1));
    if tag == 0 {
        if body.len() == 0 {
            Some(Value::Null)
        } else {
            None
        }
    } else if tag == 1 {
        if body.len() == 1 && body[0] <= 1 {
            Some(Value::Boolean(body[0] == 1))
        } else {
            None
        }
    } else if tag == 2 {
        if body.len() == 8 {
            let code = u64_from_le_bytes(body.as_slice());
            let i: i64 = if code >= 0x8000_0000_0000_0000u64 {
                (code - 0x8000_0000_0000_0000u64) as i64
            } else {
                (code as i64) - i64::MAX - 1
            };
            Some(Value::Integer(i))
        } else {
            None
        }
    } else if tag == 3 {
        match text_from_utf8(body) {
            Some(text) => {
                proof {
                    encode_utf8_valid_utf8(text@);
                    encode_utf8_decode_utf8(text@);
                }
                match Number::parse(text.as_str()) {
                    Some(n) => Some(Value::Float(n)),
                    None => None,
                }
            },
            None => None,
        }
    } else if tag == 4 {
        match text_from_utf8(body) {
            Some(text) => {
                proof {
                    encode_utf8_valid_utf8(text@);
                    encode_utf8_decode_utf8(text@);
                }
                Some(Value::String(text))
            },
            None => None,
        }
    } else if tag == 5 {
        match split_frames(&body) {
            Some(parts) => {
                let mut parts = parts;
                if parts.len() != 2 {
                    return None;
                }
                let ghost listed = contents_model(parts@);
                let mime_bytes = parts.remove(1);
                let data = parts.remove(0);
                assert(listed[0] == data@ && listed[1] == mime_bytes@);
                if mime_bytes.len() == 1 && mime_bytes[0] == 0 {
                    Some(Value::Binary(data, None))
                } else if mime_bytes.len() >= 1 && mime_bytes[0] == 1 {
                    let rest = slice_to_vec(
                        slice_subrange(mime_bytes.as_slice(), 1, mime_bytes.len()),
                    );
                    assert(rest@ == mime_bytes@.skip(1));
                    match text_from_utf8(rest) {
                        Some(m) => {
                            proof {
                                encode_utf8_valid_utf8(m@);
                                encode_utf8_decode_utf8(m@);
                            }
                            Some(Value::Binary(data, Some(m)))
                        },
                        None => None,
                    }
                } else {
                    None
                }
            },
            None => None,
        }
    } else if tag == 6 {
        match decode_path(&body) {
            Some(p) => Some(Value::Reference(p)),
            None => None,
        }
    } else {
        None
    }
}

/// The bytes of a list of paths: one frame for each path.
pub open spec fn paths_bytes(paths: Seq<Seq<Seg>>) -> Seq<u8> {
    frames(paths.map_values(|p: Seq<Seg>| path_bytes(p)))
}

/// The list of paths that the bytes write; nothing where they write none.
pub open spec fn read_paths(bytes: Seq<u8>) -> Option<Seq<Seq<Seg>>> {
    match unframe(bytes) {
        Some(contents) => if forall|i: int|
            0 <= i < contents.len() ==> read_path(#[trigger] contents[i]) is Some {
            Some(contents.map_values(|c: Seq<u8>| read_path(c)->0))
        } else {
            None
        },
        None => None,
    }
}

/// The models of a list of paths, in order.
pub open spec fn path_models(v: Seq<Path>) -> Seq<Seq<Seg>> {
    v.map_values(|p: Path| p@)
}

/// The bytes of a list of paths. They read back as the list.
pub fn encode_paths(paths: &Vec<Path>) -> (r: Vec<u8>)
    ensures
        r@ == paths_bytes(path_models(paths@)),
        read_paths(r@) == Some(path_models(paths@)),
{
    let mut contents: Vec<Vec<u8>> = Vec::new();
    let mut i: usize = 0;
    while i < paths.len()
        invariant
            i <= paths.len(),
            contents.len() == i,
            forall|k: int|
                0 <= k < i ==> (#[trigger] contents@[k])@ == path_bytes(paths@[k]@)
                    && path_storable(paths@[k]@),
        decreases paths.len() - i,
    {
        contents.push(encode_path(&paths[i]));
        i += 1;
    }
    let out = join_frames(&contents);
    proof {
        let models = path_models(paths@);
        let listed = contents_model(contents@);
        assert(listed =~= models.map_values(|p: Seq<Seg>| path_bytes(p)));
        lemma_unframe_frames(listed);
        assert forall|k: int| 0 <= k < listed.len() implies read_path(#[trigger] listed[k])
            == Some(models[k]) by {
            lemma_read_path_bytes(models[k]);
        }
        assert(listed.map_values(|c: Seq<u8>| read_path(c)->0) =~= models);
    }
    out
}

/// The list of paths that the bytes write.
pub fn decode_paths(bytes: &Vec<u8>) -> (r: Option<Vec<Path>>)
    ensures
        match r {
            Some(paths) => read_paths(bytes@) == Some(path_models(paths@)),
            None => read_paths(bytes@) is None,
        },
{
    let contents = match split_frames(bytes) {
        Some(contents) => contents,
        None => {
            return None;
        },
    };
    let ghost listed = contents_model(contents@);
    let mut paths: Vec<Path> = Vec::new();
    let mut i: usize = 0;
    while i < contents.len()
        invariant
            i <= contents.len(),
            listed == contents_model(contents@),
            unframe(bytes@) == Some(listed),
            paths.len() == i,
            forall|k: int| 0 <= k < i ==> read_path(#[trigger] listed[k]) == Some(paths@[k]@),
        decreases contents.len() - i,
    {
        match decode_path(&contents[i]) {
            Some(path) => {
                paths.push(path);
            },
            None => {
                assert(read_path(listed[i as int]) is None);
                return None;
            },
        }
        i += 1;
    }
    assert(listed.map_values(|c: Seq<u8>| read_path(c)->0) =~= path_models(paths@));
    Some(paths)
}

} // verus!
