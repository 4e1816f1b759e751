//! Paths: ordered sequences of segments, their textual form, and the
//! `starts_with` and `matches` relations with wildcards.

use crate::text::{
    all_digits, chars_of, decimal_text, decimal_value, push_decimal, read_decimal, string_of,
    string_of_range,
};
use vstd::prelude::*;

verus! {

/// The mathematical model of one path segment.
pub enum Seg {
    /// A named segment, by its characters.
    Named(Seq<char>),
    /// The single-level wildcard `*`.
    Single,
    /// The multi-level wildcard `**`.
    Multi,
    /// An array index `[n]`.
    Index(nat),
}

/// Whether `s` is one of the two wildcards.
pub open spec fn seg_is_wildcard(s: Seg) -> bool {
    s is Single || s is Multi
}

/// Whether the pattern segment `p` accepts the segment `s` when one segment
/// is held against one segment. Both wildcards accept anything here; a name
/// accepts the same name and an index the same index.
pub open spec fn seg_matches(p: Seg, s: Seg) -> bool {
    match p {
        Seg::Single => true,
        Seg::Multi => true,
        Seg::Named(a) => s == Seg::Named(a),
        Seg::Index(i) => s == Seg::Index(i),
    }
}

/// `path` starts with `prefix`: the prefix is no longer than the path and
/// each of its segments accepts the path's segment at the same position.
pub open spec fn path_starts_with(path: Seq<Seg>, prefix: Seq<Seg>) -> bool {
    &&& prefix.len() <= path.len()
    &&& forall|i: int| 0 <= i < prefix.len() ==> seg_matches(#[trigger] prefix[i], path[i])
}

/// `path` matches `pattern`. The empty pattern matches the empty path only.
/// A `**` at the end of the pattern matches whatever is left of the path; a
/// `**` elsewhere matches if the rest of the pattern matches some suffix of
/// what is left. Any other pattern segment must accept the next segment of
/// the path.
pub open spec fn path_matches(path: Seq<Seg>, pattern: Seq<Seg>) -> bool
    decreases pattern.len(),
{
    if pattern.len() == 0 {
        path.len() == 0
    } else if pattern[0] is Multi {
        pattern.len() == 1 || exists|k: int|
            0 <= k <= path.len() && path_matches(#[trigger] path.skip(k), pattern.skip(1))
    } else {
        path.len() > 0 && seg_matches(pattern[0], path[0]) && path_matches(
            path.skip(1),
            pattern.skip(1),
        )
    }
}

/// Whether some segment of `p` is a wildcard.
pub open spec fn path_has_wildcards(p: Seq<Seg>) -> bool {
    exists|i: int| 0 <= i < p.len() && seg_is_wildcard(#[trigger] p[i])
}

/// Whether some segment of `p` is `**`.
pub open spec fn path_has_multi(p: Seq<Seg>) -> bool {
    exists|i: int| 0 <= i < p.len() && #[trigger] p[i] is Multi
}

// ---------------------------------------------------------------------
// Textual form
// ---------------------------------------------------------------------

/// What stands between the brackets of an index segment: an optional `+`
/// and a non-empty run of digits whose value fits the machine word.
pub open spec fn index_value(inner: Seq<char>) -> Option<nat> {
    let body = if inner.len() > 0 && inner[0] == '+' {
        inner.skip(1)
    } else {
        inner
    };
    if body.len() > 0 && all_digits(body) && decimal_value(body) <= usize::MAX {
        Some(decimal_value(body))
    } else {
        None
    }
}

/// The segment that the text `s` denotes: `*` and `**` are the wildcards,
/// `[N]` with a readable `N` is an index, anything else is a name.
pub open spec fn classify(s: Seq<char>) -> Seg {
    if s == seq!['*'] {
        Seg::Single
    } else if s == seq!['*', '*'] {
        Seg::Multi
    } else if s.len() >= 2 && s[0] == '[' && s.last() == ']' && index_value(
        s.subrange(1, s.len() - 1),
    ) is Some {
        Seg::Index(index_value(s.subrange(1, s.len() - 1))->0)
    } else {
        Seg::Named(s)
    }
}

/// The text of one segment.
pub open spec fn seg_text(s: Seg) -> Seq<char> {
    match s {
        Seg::Named(name) => name,
        Seg::Single => seq!['*'],
        Seg::Multi => seq!['*', '*'],
        Seg::Index(n) => seq!['['] + decimal_text(n) + seq![']'],
    }
}

/// The text of a path: the texts of its segments, joined by `.`.
pub open spec fn path_text(p: Seq<Seg>) -> Seq<char>
    decreases p.len(),
{
    if p.len() == 0 {
        Seq::empty()
    } else if p.len() == 1 {
        seg_text(p[0])
    } else {
        path_text(p.drop_last()) + seq!['.'] + seg_text(p.last())
    }
}

/// The pieces into which a text falls. A `.` ends a piece and is dropped; a
/// `[` that does not open a piece ends the piece before it and opens the
/// next one. There is always at least one piece.
pub open spec fn pieces(t: Seq<char>) -> Seq<Seq<char>>
    decreases t.len(),
{
    if t.len() == 0 {
        seq![Seq::empty()]
    } else {
        let before = pieces(t.drop_last());
        let c = t.last();
        if c == '.' {
            before.push(Seq::empty())
        } else if c == '[' && before.last().len() > 0 {
            before.push(seq!['['])
        } else {
            before.drop_last().push(before.last().push(c))
        }
    }
}

/// The path that the text `t` denotes; the empty text denotes none.
pub open spec fn parse_text(t: Seq<char>) -> Option<Seq<Seg>> {
    if t.len() == 0 {
        None
    } else {
        Some(pieces(t).map_values(|piece: Seq<char>| classify(piece)))
    }
}

/// A segment whose text reads back as the same segment wherever it stands
/// in a path: a name is not empty, holds no `.`, holds `[` at most as its
/// first character, and is not the text of a wildcard or of an index; an
/// index fits the machine word.
pub open spec fn seg_is_legal(s: Seg) -> bool {
    match s {
        Seg::Named(name) => {
            &&& name.len() > 0
            &&& forall|i: int| 0 <= i < name.len() ==> #[trigger] name[i] != '.'
            &&& forall|i: int| 1 <= i < name.len() ==> #[trigger] name[i] != '['
            &&& classify(name) == Seg::Named(name)
        },
        Seg::Single => true,
        Seg::Multi => true,
        Seg::Index(n) => n <= usize::MAX,
    }
}

/// A path all of whose segments are legal.
pub open spec fn path_is_legal(p: Seq<Seg>) -> bool {
    forall|i: int| 0 <= i < p.len() ==> seg_is_legal(#[trigger] p[i])
}

// ---------------------------------------------------------------------
// Executable types
// ---------------------------------------------------------------------

/// Errors that can occur when working with paths.
#[derive(Debug, PartialEq)]
pub enum PathError {
    /// The text is not a path.
    InvalidFormat(String),
    /// The text is empty.
    EmptyPath,
}

/// Types of path segments.
#[derive(Debug, PartialEq, Eq, Hash)]
pub enum SegmentType {
    /// Regular named segment
    Named(String),
    /// Single-level wildcard (`*`)
    SingleWildcard,
    /// Multi-level wildcard (`**`)
    MultiWildcard,
    /// Array index segment (e.g., `[0]`)
    ArrayIndex(usize),
}

impl View for SegmentType {
    type V = Seg;

    open spec fn view(&self) -> Seg {
        match self {
            SegmentType::Named(name) => Seg::Named(name@),
            SegmentType::SingleWildcard => Seg::Single,
            SegmentType::MultiWildcard => Seg::Multi,
            SegmentType::ArrayIndex(i) => Seg::Index(*i as nat),
        }
    }
}

impl Clone for SegmentType {
    fn clone(&self) -> (r: Self)
        ensures
            r@ == self@,
    {
        match self {
            SegmentType::Named(name) => SegmentType::Named(name.clone()),
            SegmentType::SingleWildcard => SegmentType::SingleWildcard,
            SegmentType::MultiWildcard => SegmentType::MultiWildcard,
            SegmentType::ArrayIndex(i) => SegmentType::ArrayIndex(*i),
        }
    }
}

/// A segment in a path.
#[derive(Debug, PartialEq, Eq, Hash)]
pub struct PathSegment(SegmentType);

impl View for PathSegment {
    type V = Seg;

    closed spec fn view(&self) -> Seg {
        self.0@
    }
}

impl Clone for PathSegment {
    fn clone(&self) -> (r: Self)
        ensures
            r@ == self@,
    {
        PathSegment(self.0.clone())
    }
}

/// The segment that `v[from..to]` denotes.
pub fn segment_of(v: &Vec<char>, from: usize, to: usize) -> (r: PathSegment)
    requires
        from <= to <= v.len(),
    ensures
        r@ == classify(v@.subrange(from as int, to as int)),
{
    let ghost s = v@.subrange(from as int, to as int);
    let n = to - from;
    if n == 1 && v[from] == '*' {
        assert(s == seq!['*']);
        return PathSegment(SegmentType::SingleWildcard);
    }
    if n == 2 && v[from] == '*' && v[from + 1] == '*' {
        assert(s == seq!['*', '*']);
        assert(s != seq!['*']);
        return PathSegment(SegmentType::MultiWildcard);
    }
    proof {
        if s == seq!['*'] {
            assert(s.len() == 1 && s[0] == '*');
        }
        if s == seq!['*', '*'] {
            assert(s.len() == 2 && s[0] == '*' && s[1] == '*');
        }
    }
    if n >= 2 && v[from] == '[' && v[to - 1] == ']' {
        let ghost inner = s.subrange(1, s.len() - 1);
        assert(inner == v@.subrange(from + 1, to - 1));
        let mut start = from + 1;
        if start < to - 1 && v[start] == '+' {
            start = start + 1;
            assert(inner.skip(1) == v@.subrange(start as int, to - 1));
        }
        match read_decimal(v, start, to - 1) {
            Some(i) => {
                return PathSegment(SegmentType::ArrayIndex(i));
            },
            None => {},
        }
    }
    PathSegment(SegmentType::Named(string_of_range(v, from, to)))
}

impl PathSegment {
    /// Create a new path segment from its text.
    pub fn new(segment: &str) -> (r: Self)
        ensures
            r@ == classify(segment@),
    {
        let v = chars_of(segment);
        assert(v@.subrange(0, v.len() as int) == v@);
        segment_of(&v, 0, v.len())
    }

    /// The named segment with the given name, whatever the name looks like.
    pub fn named(name: String) -> (r: Self)
        ensures
            r@ == Seg::Named(name@),
    {
        PathSegment(SegmentType::Named(name))
    }

    /// The single-level wildcard.
    pub fn single_wildcard() -> (r: Self)
        ensures
            r@ == Seg::Single,
    {
        PathSegment(SegmentType::SingleWildcard)
    }

    /// The multi-level wildcard.
    pub fn multi_wildcard() -> (r: Self)
        ensures
            r@ == Seg::Multi,
    {
        PathSegment(SegmentType::MultiWildcard)
    }

    /// The array index segment with the given index.
    pub fn index(index: usize) -> (r: Self)
        ensures
            r@ == Seg::Index(index as nat),
    {
        PathSegment(SegmentType::ArrayIndex(index))
    }

    /// Appends the text of the segment to `out`.
    pub fn push_text(&self, out: &mut Vec<char>)
        ensures
            final(out)@ == old(out)@ + seg_text(self@),
    {
        match &self.0 {
            SegmentType::Named(name) => {
                let mut chars = chars_of(name.as_str());
                out.append(&mut chars);
            },
            SegmentType::SingleWildcard => {
                out.push('*');
                assert(out@ == old(out)@ + seq!['*']);
            },
            SegmentType::MultiWildcard => {
                out.push('*');
                out.push('*');
                assert(out@ == old(out)@ + seq!['*', '*']);
            },
            SegmentType::ArrayIndex(i) => {
                out.push('[');
                push_decimal(out, *i as u64);
                out.push(']');
                assert(out@ == old(out)@ + (seq!['['] + decimal_text(*i as nat) + seq![']']));
            },
        }
    }

    /// Get the text of the segment.
    pub fn as_str(&self) -> (r: String)
        ensures
            r@ == seg_text(self@),
    {
        let mut out: Vec<char> = Vec::new();
        self.push_text(&mut out);
        assert(Seq::<char>::empty() + seg_text(self@) == seg_text(self@));
        string_of(&out)
    }

    /// Check if this segment is a single-level wildcard
    pub fn is_single_wildcard(&self) -> (r: bool)
        ensures
            r == (self@ is Single),
    {
        match self.0 {
            SegmentType::SingleWildcard => true,
            _ => false,
        }
    }

    /// Check if this segment is a multi-level wildcard
    pub fn is_multi_wildcard(&self) -> (r: bool)
        ensures
            r == (self@ is Multi),
    {
        match self.0 {
            SegmentType::MultiWildcard => true,
            _ => false,
        }
    }

    /// Check if this segment is any kind of wildcard
    pub fn is_wildcard(&self) -> (r: bool)
        ensures
            r == seg_is_wildcard(self@),
    {
        self.is_single_wildcard() || self.is_multi_wildcard()
    }

    /// Check if this segment is an array index
    pub fn is_array_index(&self) -> (r: bool)
        ensures
            r == (self@ is Index),
    {
        match self.0 {
            SegmentType::ArrayIndex(_) => true,
            _ => false,
        }
    }

    /// Get the array index if this is an array index segment
    pub fn as_index(&self) -> (r: Option<usize>)
        ensures
            match r {
                Some(i) => self@ == Seg::Index(i as nat),
                None => !(self@ is Index),
            },
    {
        match self.0 {
            SegmentType::ArrayIndex(idx) => Some(idx),
            _ => None,
        }
    }

    /// Get the name if this is a named segment.
    pub fn as_name(&self) -> (r: Option<&String>)
        ensures
            match r {
                Some(name) => self@ == Seg::Named(name@),
                None => !(self@ is Named),
            },
    {
        match &self.0 {
            SegmentType::Named(name) => Some(name),
            _ => None,
        }
    }

    /// Check if this segment, taken as a pattern, accepts another segment.
    pub fn matches(&self, other: &PathSegment) -> (r: bool)
        ensures
            r == seg_matches(self@, other@),
    {
        match &self.0 {
            SegmentType::SingleWildcard => true,
            SegmentType::MultiWildcard => true,
            SegmentType::Named(name) => {
                match &other.0 {
                    SegmentType::Named(other_name) => *name == *other_name,
                    _ => false,
                }
            },
            SegmentType::ArrayIndex(idx) => {
                match &other.0 {
                    SegmentType::ArrayIndex(other_idx) => *idx == *other_idx,
                    _ => false,
                }
            },
        }
    }

    /// Whether the two segments are the same.
    pub fn same_as(&self, other: &PathSegment) -> (r: bool)
        ensures
            r == (self@ == other@),
    {
        match &self.0 {
            SegmentType::SingleWildcard => other.is_single_wildcard(),
            SegmentType::MultiWildcard => other.is_multi_wildcard(),
            SegmentType::Named(name) => {
                match &other.0 {
                    SegmentType::Named(other_name) => *name == *other_name,
                    _ => false,
                }
            },
            SegmentType::ArrayIndex(idx) => {
                match &other.0 {
                    SegmentType::ArrayIndex(other_idx) => *idx == *other_idx,
                    _ => false,
                }
            },
        }
    }
}

/// The models of the segments of `v`, in order.
pub open spec fn seg_views(v: Seq<PathSegment>) -> Seq<Seg> {
    v.map_values(|s: PathSegment| s@)
}

/// A path in the database (e.g., `users.u-123456.profile.bio`).
#[derive(Debug, PartialEq, Eq, Hash)]
pub struct Path {
    segments: Vec<PathSegment>,
}

impl View for Path {
    type V = Seq<Seg>;

    closed spec fn view(&self) -> Seq<Seg> {
        seg_views(self.segments@)
    }
}

impl Clone for Path {
    fn clone(&self) -> (r: Self)
        ensures
            r@ == self@,
    {
        let mut segments: Vec<PathSegment> = Vec::new();
        let mut i: usize = 0;
        while i < self.segments.len()
            invariant
                i <= self.segments.len(),
                seg_views(segments@) == seg_views(self.segments@).take(i as int),
            decreases self.segments.len() - i,
        {
            segments.push(self.segments[i].clone());
            i += 1;
            assert(seg_views(self.segments@).take(i as int) == seg_views(self.segments@).take(
                i - 1,
            ).push(self.segments[i - 1]@));
            assert(seg_views(segments@) =~= seg_views(self.segments@).take(i as int));
        }
        assert(seg_views(self.segments@).take(i as int) == seg_views(self.segments@));
        Path { segments }
    }
}

/// Whether `path[pi..]` matches `pattern[qi..]`.
fn matches_from(
    path: &Vec<PathSegment>,
    path_from: usize,
    pattern: &Vec<PathSegment>,
    pattern_from: usize,
) -> (r: bool)
    requires
        path_from <= path.len(),
        pattern_from <= pattern.len(),
    ensures
        r == path_matches(
            seg_views(path@).skip(path_from as int),
            seg_views(pattern@).skip(pattern_from as int),
        ),
    decreases pattern.len() - pattern_from,
{
    let ghost p = seg_views(path@);
    let ghost q = seg_views(pattern@);
    let mut pi = path_from;
    let mut qi = pattern_from;
    let ghost goal = path_matches(p.skip(pi as int), q.skip(qi as int));
    while qi < pattern.len() && !pattern[qi].is_multi_wildcard()
        invariant
            pi <= path.len(),
            pattern_from <= qi <= pattern.len(),
            p == seg_views(path@),
            q == seg_views(pattern@),
            goal == path_matches(p.skip(pi as int), q.skip(qi as int)),
            goal == path_matches(
                seg_views(path@).skip(path_from as int),
                seg_views(pattern@).skip(pattern_from as int),
            ),
        decreases pattern.len() - qi,
    {
        let ghost ps = p.skip(pi as int);
        let ghost qs = q.skip(qi as int);
        assert(qs.len() > 0 && qs[0] == pattern[qi as int]@);
        if pi >= path.len() {
            assert(ps.len() == 0);
            return false;
        }
        assert(ps[0] == path[pi as int]@);
        if !pattern[qi].matches(&path[pi]) {
            return false;
        }
        assert(ps.skip(1) == p.skip(pi + 1));
        assert(qs.skip(1) == q.skip(qi + 1));
        pi += 1;
        qi += 1;
    }
    let ghost ps = p.skip(pi as int);
    let ghost qs = q.skip(qi as int);
    if qi == pattern.len() {
        assert(qs.len() == 0);
        return pi == path.len();
    }
    assert(qs.len() > 0 && qs[0] == pattern[qi as int]@);
    if qi == pattern.len() - 1 {
        assert(qs.len() == 1);
        return true;
    }
    assert(qs.skip(1) == q.skip(qi + 1));
    let mut j: usize = pi;
    while j < path.len()
        invariant
            pi <= j <= path.len(),
            pattern_from <= qi,
            qi + 1 < pattern.len(),
            p == seg_views(path@),
            q == seg_views(pattern@),
            ps == p.skip(pi as int),
            qs == q.skip(qi as int),
            qs.skip(1) == q.skip(qi + 1),
            qs.len() > 1 && qs[0] is Multi,
            goal == path_matches(ps, qs),
            goal == path_matches(
                seg_views(path@).skip(path_from as int),
                seg_views(pattern@).skip(pattern_from as int),
            ),
            forall|k: int| 0 <= k < j - pi ==> !path_matches(#[trigger] ps.skip(k), qs.skip(1)),
        decreases path.len() - j,
    {
        assert(ps.skip(j - pi) == p.skip(j as int));
        if matches_from(path, j, pattern, qi + 1) {
            assert(ps.len() == path.len() - pi);
            assert(0 <= j - pi <= ps.len() && path_matches(ps.skip(j - pi), qs.skip(1)));
            return true;
        }
        j += 1;
    }
    assert(ps.skip(j - pi) == p.skip(j as int));
    let last = matches_from(path, j, pattern, qi + 1);
    proof {
        assert(ps.len() == j - pi);
        assert(last == path_matches(ps.skip(j - pi), qs.skip(1)));
        if last {
            assert(0 <= j - pi <= ps.len() && path_matches(ps.skip(j - pi), qs.skip(1)));
        } else {
            assert forall|k: int| 0 <= k <= ps.len() implies !path_matches(
                #[trigger] ps.skip(k),
                qs.skip(1),
            ) by {
                if k == j - pi {
                }
            }
        }
    }
    last
}

impl Path {
    /// Create a new empty path
    pub fn new() -> (r: Self)
        ensures
            r@ == Seq::<Seg>::empty(),
    {
        let r = Path { segments: Vec::new() };
        assert(r@ == Seq::<Seg>::empty());
        r
    }

    /// Create a path from a vector of segments
    pub fn from_segments(segments: Vec<PathSegment>) -> (r: Self)
        ensures
            r@ == seg_views(segments@),
    {
        Path { segments }
    }

    /// Add a segment, given by its text, to the path
    pub fn push(&mut self, segment: &str)
        ensures
            final(self)@ == old(self)@.push(classify(segment@)),
    {
        self.segments.push(PathSegment::new(segment));
        assert(self@ == old(self)@.push(classify(segment@)));
    }

    /// Add a segment to the path
    pub fn push_segment(&mut self, segment: PathSegment)
        ensures
            final(self)@ == old(self)@.push(segment@),
    {
        self.segments.push(segment);
        assert(self@ == old(self)@.push(segment@));
    }

    /// Get the number of segments in the path
    pub fn len(&self) -> (r: usize)
        ensures
            r == self@.len(),
    {
        self.segments.len()
    }

    /// Check if the path is empty
    pub fn is_empty(&self) -> (r: bool)
        ensures
            r == (self@.len() == 0),
    {
        self.segments.len() == 0
    }

    /// Get all segments in the path
    pub fn segments(&self) -> (r: &[PathSegment])
        ensures
            seg_views(r@) == self@,
    {
        self.segments.as_slice()
    }

    /// Get a specific segment by index
    pub fn segment(&self, index: usize) -> (r: Option<&PathSegment>)
        ensures
            match r {
                Some(s) => index < self@.len() && s@ == self@[index as int],
                None => index >= self@.len(),
            },
    {
        if index < self.segments.len() {
            Some(&self.segments[index])
        } else {
            None
        }
    }

    /// Check if this path contains wildcards
    pub fn has_wildcards(&self) -> (r: bool)
        ensures
            r == path_has_wildcards(self@),
    {
        let mut i: usize = 0;
        while i < self.segments.len()
            invariant
                i <= self.segments.len(),
                forall|k: int| 0 <= k < i ==> !seg_is_wildcard(#[trigger] self@[k]),
            decreases self.segments.len() - i,
        {
            if self.segments[i].is_wildcard() {
                assert(seg_is_wildcard(self@[i as int]));
                return true;
            }
            i += 1;
        }
        false
    }

    /// Check if this path contains a multi-level wildcard
    pub fn has_multi_wildcard(&self) -> (r: bool)
        ensures
            r == path_has_multi(self@),
    {
        let mut i: usize = 0;
        while i < self.segments.len()
            invariant
                i <= self.segments.len(),
                forall|k: int| 0 <= k < i ==> !(#[trigger] self@[k] is Multi),
            decreases self.segments.len() - i,
        {
            if self.segments[i].is_multi_wildcard() {
                assert(self@[i as int] is Multi);
                return true;
            }
            i += 1;
        }
        false
    }

    /// Check if this path starts with the given prefix path
    pub fn starts_with(&self, prefix: &Path) -> (r: bool)
        ensures
            r == path_starts_with(self@, prefix@),
    {
        if prefix.segments.len() > self.segments.len() {
            return false;
        }
        let mut i: usize = 0;
        while i < prefix.segments.len()
            invariant
                i <= prefix.segments.len() <= self.segments.len(),
                forall|k: int| 0 <= k < i ==> seg_matches(#[trigger] prefix@[k], self@[k]),
            decreases prefix.segments.len() - i,
        {
            if !prefix.segments[i].matches(&self.segments[i]) {
                assert(!seg_matches(prefix@[i as int], self@[i as int]));
                return false;
            }
            i += 1;
        }
        true
    }

    /// Check if this path matches a pattern (which may contain wildcards)
    pub fn matches(&self, pattern: &Path) -> (r: bool)
        ensures
            r == path_matches(self@, pattern@),
    {
        assert(self@.skip(0) == self@);
        assert(pattern@.skip(0) == pattern@);
        matches_from(&self.segments, 0, &pattern.segments, 0)
    }

    /// Whether the two paths have the same segments.
    pub fn same_as(&self, other: &Path) -> (r: bool)
        ensures
            r == (self@ == other@),
    {
        if self.segments.len() != other.segments.len() {
            assert(self@.len() != other@.len());
            return false;
        }
        let mut i: usize = 0;
        while i < self.segments.len()
            invariant
                i <= self.segments.len(),
                self.segments.len() == other.segments.len(),
                forall|k: int| 0 <= k < i ==> #[trigger] self@[k] == other@[k],
            decreases self.segments.len() - i,
        {
            if !self.segments[i].same_as(&other.segments[i]) {
                assert(self@[i as int] != other@[i as int]);
                return false;
            }
            i += 1;
        }
        assert(self@ =~= other@);
        true
    }

    /// The path with the segment at `index` replaced by another.
    pub fn replaced(&self, index: usize, segment: PathSegment) -> (r: Path)
        requires
            index < self@.len(),
        ensures
            r@ == self@.update(index as int, segment@),
    {
        let mut segments: Vec<PathSegment> = Vec::new();
        let mut given = Some(segment);
        let mut i: usize = 0;
        while i < self.segments.len()
            invariant
                i <= self.segments.len(),
                index < self.segments.len(),
                segments.len() == i,
                i <= index ==> given == Some(segment),
                forall|k: int|
                    0 <= k < i ==> (#[trigger] segments@[k])@ == self@.update(
                        index as int,
                        segment@,
                    )[k],
            decreases self.segments.len() - i,
        {
            if i == index {
                match given.take() {
                    Some(s) => segments.push(s),
                    None => {},
                }
            } else {
                segments.push(self.segments[i].clone());
            }
            i += 1;
        }
        let r = Path { segments };
        assert(r@ =~= self@.update(index as int, segment@));
        r
    }

    /// The path made of the segments `self[from..]`.
    pub fn suffix(&self, from: usize) -> (r: Path)
        requires
            from <= self@.len(),
        ensures
            r@ == self@.skip(from as int),
    {
        let mut segments: Vec<PathSegment> = Vec::new();
        let mut i: usize = from;
        while i < self.segments.len()
            invariant
                from <= i <= self.segments.len(),
                seg_views(segments@) == self@.subrange(from as int, i as int),
            decreases self.segments.len() - i,
        {
            segments.push(self.segments[i].clone());
            i += 1;
            assert(self@.subrange(from as int, i as int) == self@.subrange(from as int, i - 1).push(
                self@[i - 1],
            ));
            assert(seg_views(segments@) =~= self@.subrange(from as int, i as int));
        }
        assert(self@.subrange(from as int, i as int) == self@.skip(from as int));
        Path { segments }
    }

    /// The path made of the segments `self[..to]`.
    pub fn prefix(&self, to: usize) -> (r: Path)
        requires
            to <= self@.len(),
        ensures
            r@ == self@.take(to as int),
    {
        let mut segments: Vec<PathSegment> = Vec::new();
        let mut i: usize = 0;
        while i < to
            invariant
                i <= to <= self.segments.len(),
                seg_views(segments@) == self@.take(i as int),
            decreases to - i,
        {
            segments.push(self.segments[i].clone());
            i += 1;
            assert(self@.take(i as int) == self@.take(i - 1).push(self@[i - 1]));
            assert(seg_views(segments@) =~= self@.take(i as int));
        }
        Path { segments }
    }

    /// Parse a text into a path. Only the empty text is refused.
    pub fn parse(s: &str) -> (r: Result<Path, PathError>)
        ensures
            match r {
                Ok(p) => parse_text(s@) == Some(p@),
                Err(e) => s@.len() == 0 && e == PathError::EmptyPath,
            },
    {
        let v = chars_of(s);
        if v.len() == 0 {
            return Err(PathError::EmptyPath);
        }
        let mut segments: Vec<PathSegment> = Vec::new();
        let mut start: usize = 0;
        let mut i: usize = 0;
        while i < v.len()
            invariant
                start <= i <= v.len(),
                v@ == s@,
                pieces(v@.take(i as int)).len() == segments.len() + 1,
                pieces(v@.take(i as int)).last() == v@.subrange(start as int, i as int),
                forall|k: int|
                    0 <= k < segments.len() ==> #[trigger] segments[k]@ == classify(
                        pieces(v@.take(i as int))[k],
                    ),
            decreases v.len() - i,
        {
            let c = v[i];
            let ghost t = v@.take(i + 1);
            let ghost before = pieces(v@.take(i as int));
            proof {
                assert(t.drop_last() == v@.take(i as int));
                assert(t.last() == c);
            }
            if c == '.' {
                segments.push(segment_of(&v, start, i));
                start = i + 1;
                assert(v@.subrange(start as int, i + 1) == Seq::<char>::empty());
            } else if c == '[' && start < i {
                segments.push(segment_of(&v, start, i));
                start = i;
                assert(v@.subrange(start as int, i + 1) == seq!['[']);
            } else {
                assert(v@.subrange(start as int, i + 1) == before.last().push(c));
            }
            i += 1;
        }
        segments.push(segment_of(&v, start, v.len()));
        let path = Path { segments };
        proof {
            assert(v@.take(v.len() as int) == v@);
            let ps = pieces(s@);
            let expected = ps.map_values(|piece: Seq<char>| classify(piece));
            assert(path@.len() == expected.len());
            assert forall|k: int| 0 <= k < path@.len() implies path@[k] == expected[k] by {
                if k < ps.len() - 1 {
                } else {
                    assert(ps[k] == ps.last());
                }
            }
            assert(path@ =~= expected);
        }
        Ok(path)
    }

    /// Format the path as text, with dot separators
    pub fn to_string(&self) -> (r: String)
        ensures
            r@ == path_text(self@),
    {
        let mut out: Vec<char> = Vec::new();
        let mut i: usize = 0;
        while i < self.segments.len()
            invariant
                i <= self.segments.len(),
                out@ == path_text(self@.take(i as int)),
            decreases self.segments.len() - i,
        {
            let ghost head = self@.take(i as int);
            let ghost next = self@.take(i + 1);
            proof {
                assert(next.drop_last() == head);
                assert(next.last() == self@[i as int]);
            }
            if i > 0 {
                out.push('.');
                assert(out@ == path_text(head) + seq!['.']);
            } else {
                assert(next.len() == 1);
                assert(out@ == Seq::<char>::empty());
                assert(Seq::<char>::empty() + seg_text(next[0]) == seg_text(next[0]));
            }
            self.segments[i].push_text(&mut out);
            i += 1;
        }
        assert(self@.take(i as int) == self@);
        string_of(&out)
    }
}

impl std::str::FromStr for Path {
    type Err = PathError;

    fn from_str(s: &str) -> (r: Result<Self, Self::Err>)
        ensures
            match r {
                Ok(p) => parse_text(s@) == Some(p@),
                Err(e) => s@.len() == 0 && e == PathError::EmptyPath,
            },
    {
        Path::parse(s)
    }
}

} // verus!
