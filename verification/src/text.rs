//! Texts as sequences of characters: conversion between strings and
//! character vectors, decimal notation, quoting, white space, search and
//! splitting.

use vstd::prelude::*;

verus! {

/// `String::push` of the standard library appends one character to the end
/// of the string.
pub assume_specification[ std::string::String::push ](s: &mut std::string::String, ch: char)
    ensures
        final(s)@ == old(s)@.push(ch),
;

/// The characters of `s`, in order.
pub fn chars_of(s: &str) -> (v: Vec<char>)
    ensures
        v@ == s@,
{
    broadcast use vstd::string::group_string_axioms;

    let mut v: Vec<char> = Vec::new();
    for c in it: s.chars()
        invariant
            it.seq() == s@,
            v@ == it.seq().take(it.index() as int),
    {
        v.push(c);
        assert(it.seq().take(it.index() + 1) == it.seq().take(it.index() as int).push(c));
    }
    assert(v@ == s@);
    v
}

/// `String::from_utf8` of the standard library makes a string of bytes
/// that are UTF-8 and refuses all others. The string is made of the bytes
/// it was given.
#[verifier::external_body]
pub(crate) fn text_from_utf8(bytes: Vec<u8>) -> (r: Option<String>)
    ensures
        match r {
            Some(s) => vstd::utf8::encode_utf8(s@) == bytes@,
            None => !vstd::utf8::valid_utf8(bytes@),
        },
{
    String::from_utf8(bytes).ok()
}

/// An owned copy of the text `s`.
pub fn text_of(s: &str) -> (r: String)
    ensures
        r@ == s@,
{
    s.to_owned()
}

/// The string made of the characters `v[from..to]`.
pub fn string_of_range(v: &Vec<char>, from: usize, to: usize) -> (s: String)
    requires
        from <= to <= v.len(),
    ensures
        s@ == v@.subrange(from as int, to as int),
{
    let mut s = String::new();
    let mut i: usize = from;
    while i < to
        invariant
            from <= i <= to <= v.len(),
            s@ == v@.subrange(from as int, i as int),
        decreases to - i,
    {
        s.push(v[i]);
        i += 1;
        assert(v@.subrange(from as int, i as int) == v@.subrange(from as int, i - 1).push(v@[i - 1]));
    }
    s
}

/// The string made of the characters of `v`.
pub fn string_of(v: &Vec<char>) -> (s: String)
    ensures
        s@ == v@,
{
    let s = string_of_range(v, 0, v.len());
    assert(v@.subrange(0, v.len() as int) == v@);
    s
}

/// Whether `c` is one of the ten decimal digits.
pub open spec fn is_digit(c: char) -> bool {
    48 <= c as u32 <= 57
}

/// The value of the decimal digit `c`.
pub open spec fn digit_value(c: char) -> nat
    recommends
        is_digit(c),
{
    (c as u32 - 48) as nat
}

/// The character that writes the digit `d`.
pub open spec fn digit_char(d: nat) -> char
    recommends
        d < 10,
{
    ((48 + d) as u8) as char
}

/// Whether every character of `s` is a decimal digit.
pub open spec fn all_digits(s: Seq<char>) -> bool {
    forall|i: int| 0 <= i < s.len() ==> is_digit(#[trigger] s[i])
}

/// The number that the digit sequence `s` writes in base ten, most
/// significant digit first. The empty sequence writes zero.
pub open spec fn decimal_value(s: Seq<char>) -> nat
    decreases s.len(),
{
    if s.len() == 0 {
        0
    } else {
        decimal_value(s.drop_last()) * 10 + digit_value(s.last())
    }
}

/// The shortest decimal notation of `n`.
pub open spec fn decimal_text(n: nat) -> Seq<char>
    decreases n,
{
    if n < 10 {
        seq![digit_char(n)]
    } else {
        decimal_text(n / 10).push(digit_char(n % 10))
    }
}

/// The decimal notation of a number is made of digits, is not empty, and
/// writes that number.
pub proof fn lemma_decimal_text(n: nat)
    ensures
        decimal_text(n).len() > 0,
        all_digits(decimal_text(n)),
        decimal_value(decimal_text(n)) == n,
    decreases n,
{
    if n < 10 {
        let t = decimal_text(n);
        assert(t.len() == 1);
        assert(t[0] == digit_char(n));
        assert(is_digit(digit_char(n)));
        assert(t.drop_last().len() == 0);
        assert(decimal_value(t.drop_last()) == 0);
        assert(digit_value(digit_char(n)) == n);
    } else {
        lemma_decimal_text(n / 10);
        let head = decimal_text(n / 10);
        let t = decimal_text(n);
        assert(t == head.push(digit_char(n % 10)));
        assert(t.drop_last() == head);
        assert(is_digit(digit_char(n % 10)));
        assert(digit_value(digit_char(n % 10)) == n % 10);
        assert forall|i: int| 0 <= i < t.len() implies is_digit(#[trigger] t[i]) by {
            if i < head.len() {
                assert(t[i] == head[i]);
            }
        }
    }
}

/// A digit sequence writes at least as much as each of its prefixes.
pub proof fn lemma_decimal_value_prefix(s: Seq<char>, k: int)
    requires
        0 <= k <= s.len(),
    ensures
        decimal_value(s.take(k)) <= decimal_value(s),
    decreases s.len(),
{
    if k == s.len() {
        assert(s.take(k) == s);
    } else {
        lemma_decimal_value_prefix(s.drop_last(), k);
        assert(s.drop_last().take(k) == s.take(k));
    }
}

/// Appends the decimal notation of `n` to `out`.
pub fn push_decimal(out: &mut Vec<char>, n: u64)
    ensures
        final(out)@ == old(out)@ + decimal_text(n as nat),
    decreases n,
{
    if n >= 10 {
        push_decimal(out, n / 10);
    }
    let d: u8 = (n % 10) as u8;
    let c: char = (48u8 + d) as char;
    out.push(c);
    assert(c == digit_char((n % 10) as nat));
}

/// Reads `v[from..to]` as a decimal number: `Some(n)` when the range is a
/// non-empty run of digits that writes a number `n` representable in
/// `usize`, and `None` otherwise.
pub fn read_decimal(v: &Vec<char>, from: usize, to: usize) -> (r: Option<usize>)
    requires
        from <= to <= v.len(),
    ensures
        ({
            let body = v@.subrange(from as int, to as int);
            let good = body.len() > 0 && all_digits(body) && decimal_value(body) <= usize::MAX;
            match r {
                Some(n) => good && n == decimal_value(body),
                None => !good,
            }
        }),
{
    let ghost body = v@.subrange(from as int, to as int);
    if from == to {
        return None;
    }
    let mut acc: usize = 0;
    let mut i: usize = from;
    while i < to
        invariant
            from <= i <= to <= v.len(),
            body == v@.subrange(from as int, to as int),
            all_digits(body.take(i - from)),
            acc == decimal_value(body.take(i - from)),
        decreases to - i,
    {
        let c = v[i];
        let ghost prefix = body.take(i - from + 1);
        proof {
            assert(prefix.drop_last() == body.take(i - from));
            assert(prefix.last() == c);
            assert(body[i - from] == c);
        }
        if !(c as u32 >= 48 && c as u32 <= 57) {
            return None;
        }
        let d: usize = (c as u32 - 48) as usize;
        proof {
            lemma_decimal_value_prefix(body, i - from + 1);
        }
        let scaled = match acc.checked_mul(10) {
            Some(x) => x,
            None => {
                return None;
            },
        };
        let next = match scaled.checked_add(d) {
            Some(x) => x,
            None => {
                return None;
            },
        };
        acc = next;
        i += 1;
        proof {
            assert forall|j: int| 0 <= j < prefix.len() implies is_digit(#[trigger] prefix[j]) by {
                if j < prefix.len() - 1 {
                    assert(prefix[j] == body.take(i - from - 1)[j]);
                }
            }
        }
    }
    assert(body.take(i - from) == body);
    Some(acc)
}

/// The decimal notation of an integer: a `-` before the notation of the
/// magnitude where the integer is negative.
pub open spec fn int_text(i: int) -> Seq<char> {
    if i < 0 {
        seq!['-'] + decimal_text((-i) as nat)
    } else {
        decimal_text(i as nat)
    }
}

/// Appends the decimal notation of `i` to `out`.
pub fn push_int(out: &mut Vec<char>, i: i64)
    ensures
        final(out)@ == old(out)@ + int_text(i as int),
{
    if i < 0 {
        out.push('-');
        let magnitude: u64 = (-(i + 1)) as u64 + 1;
        push_decimal(out, magnitude);
        assert(out@ == old(out)@ + (seq!['-'] + decimal_text((-i) as nat)));
    } else {
        push_decimal(out, i as u64);
    }
}

/// The lower-case hexadecimal digit for `d`.
pub open spec fn hex_char(d: nat) -> char
    recommends
        d < 16,
{
    if d < 10 {
        ((48 + d) as u8) as char
    } else {
        ((87 + d) as u8) as char
    }
}

/// How one character is written inside a quoted string: `"` and `\` get a
/// `\` before them, the control characters below U+0020 get their short
/// escape where there is one and `\u00XX` otherwise, and every other
/// character stands for itself.
pub open spec fn escaped(c: char) -> Seq<char> {
    if c == '"' {
        seq!['\\', '"']
    } else if c == '\\' {
        seq!['\\', '\\']
    } else if c == '\n' {
        seq!['\\', 'n']
    } else if c == '\r' {
        seq!['\\', 'r']
    } else if c == '\t' {
        seq!['\\', 't']
    } else if c as u32 == 8 {
        seq!['\\', 'b']
    } else if c as u32 == 12 {
        seq!['\\', 'f']
    } else if (c as u32) < 32 {
        seq!['\\', 'u', '0', '0', hex_char((c as u32 / 16) as nat), hex_char((c as u32 % 16) as nat)]
    } else {
        seq![c]
    }
}

/// The characters of `s`, each written as inside a quoted string.
pub open spec fn escaped_all(s: Seq<char>) -> Seq<char>
    decreases s.len(),
{
    if s.len() == 0 {
        Seq::empty()
    } else {
        escaped_all(s.drop_last()) + escaped(s.last())
    }
}

/// The text `s` as a quoted string.
pub open spec fn quoted(s: Seq<char>) -> Seq<char> {
    seq!['"'] + escaped_all(s) + seq!['"']
}

fn hex_digit(d: u8) -> (c: char)
    requires
        d < 16,
    ensures
        c == hex_char(d as nat),
{
    if d < 10 {
        (48u8 + d) as char
    } else {
        (87u8 + d) as char
    }
}

/// Appends `c`, written as inside a quoted string, to `out`.
fn push_escaped(out: &mut Vec<char>, c: char)
    ensures
        final(out)@ == old(out)@ + escaped(c),
{
    let code = c as u32;
    if c == '"' || c == '\\' {
        out.push('\\');
        out.push(c);
        assert(out@ == old(out)@ + seq!['\\', c]);
    } else if c == '\n' {
        out.push('\\');
        out.push('n');
        assert(out@ == old(out)@ + seq!['\\', 'n']);
    } else if c == '\r' {
        out.push('\\');
        out.push('r');
        assert(out@ == old(out)@ + seq!['\\', 'r']);
    } else if c == '\t' {
        out.push('\\');
        out.push('t');
        assert(out@ == old(out)@ + seq!['\\', 't']);
    } else if code == 8 {
        out.push('\\');
        out.push('b');
        assert(out@ == old(out)@ + seq!['\\', 'b']);
    } else if code == 12 {
        out.push('\\');
        out.push('f');
        assert(out@ == old(out)@ + seq!['\\', 'f']);
    } else if code < 32 {
        let high = hex_digit((code / 16) as u8);
        let low = hex_digit((code % 16) as u8);
        out.push('\\');
        out.push('u');
        out.push('0');
        out.push('0');
        out.push(high);
        out.push(low);
        assert(out@ == old(out)@ + seq!['\\', 'u', '0', '0', high, low]);
    } else {
        out.push(c);
        assert(out@ == old(out)@ + seq![c]);
    }
}

/// Appends the text `s`, as a quoted string, to `out`.
pub fn push_quoted(out: &mut Vec<char>, s: &str)
    ensures
        final(out)@ == old(out)@ + quoted(s@),
{
    let chars = chars_of(s);
    out.push('"');
    let mut i: usize = 0;
    while i < chars.len()
        invariant
            i <= chars.len(),
            chars@ == s@,
            out@ == old(out)@ + seq!['"'] + escaped_all(chars@.take(i as int)),
        decreases chars.len() - i,
    {
        proof {
            let next = chars@.take(i + 1);
            assert(next.drop_last() == chars@.take(i as int));
            assert(next.last() == chars@[i as int]);
        }
        push_escaped(out, chars[i]);
        i += 1;
    }
    assert(chars@.take(i as int) == chars@);
    out.push('"');
    assert(out@ == old(out)@ + (seq!['"'] + escaped_all(s@) + seq!['"']));
}

/// Appends the characters of `s` to `out`.
pub fn push_str(out: &mut Vec<char>, s: &str)
    ensures
        final(out)@ == old(out)@ + s@,
{
    let mut chars = chars_of(s);
    out.append(&mut chars);
}

/// Whether `c` is white space: one of the characters with the Unicode
/// property White_Space.
pub open spec fn is_space(c: char) -> bool {
    let u = c as u32;
    ||| 0x09 <= u <= 0x0D
    ||| u == 0x20
    ||| u == 0x85
    ||| u == 0xA0
    ||| u == 0x1680
    ||| 0x2000 <= u <= 0x200A
    ||| u == 0x2028
    ||| u == 0x2029
    ||| u == 0x202F
    ||| u == 0x205F
    ||| u == 0x3000
}

/// The number of white-space characters with which `s` begins.
pub open spec fn leading_spaces(s: Seq<char>) -> int
    decreases s.len(),
{
    if s.len() == 0 || !is_space(s[0]) {
        0
    } else {
        1 + leading_spaces(s.skip(1))
    }
}

/// The number of white-space characters with which `s` ends.
pub open spec fn trailing_spaces(s: Seq<char>) -> int
    decreases s.len(),
{
    if s.len() == 0 || !is_space(s.last()) {
        0
    } else {
        1 + trailing_spaces(s.drop_last())
    }
}

/// The text without the white space at its beginning and at its end.
pub open spec fn trimmed(s: Seq<char>) -> Seq<char> {
    let from = leading_spaces(s);
    if from == s.len() {
        Seq::empty()
    } else {
        s.subrange(from, s.len() - trailing_spaces(s))
    }
}

/// Whether `c` is white space.
pub fn char_is_space(c: char) -> (r: bool)
    ensures
        r == is_space(c),
{
    let u = c as u32;
    (0x09 <= u && u <= 0x0D) || u == 0x20 || u == 0x85 || u == 0xA0 || u == 0x1680 || (0x2000 <= u
        && u <= 0x200A) || u == 0x2028 || u == 0x2029 || u == 0x202F || u == 0x205F || u == 0x3000
}

/// The characters of a text without the white space at its beginning and
/// at its end.
pub fn trim_chars(s: &str) -> (r: Vec<char>)
    ensures
        r@ == trimmed(s@),
{
    let v = chars_of(s);
    let mut from: usize = 0;
    assert(v@.skip(0) == v@);
    while from < v.len() && char_is_space(v[from])
        invariant
            from <= v.len(),
            v@ == s@,
            leading_spaces(v@) == from + leading_spaces(v@.skip(from as int)),
        decreases v.len() - from,
    {
        assert(v@.skip(from as int)[0] == v@[from as int]);
        assert(v@.skip(from as int).skip(1) == v@.skip(from + 1));
        from += 1;
    }
    proof {
        let rest = v@.skip(from as int);
        if from < v.len() {
            assert(rest[0] == v@[from as int]);
        }
        assert(leading_spaces(v@) == from);
    }
    let mut out: Vec<char> = Vec::new();
    if from == v.len() {
        return out;
    }
    let mut to: usize = v.len();
    assert(v@.take(to as int) == v@);
    while to > from + 1 && char_is_space(v[to - 1])
        invariant
            from < to <= v.len(),
            trailing_spaces(v@) == (v.len() - to) + trailing_spaces(v@.take(to as int)),
        decreases to,
    {
        assert(v@.take(to as int).last() == v@[to - 1]);
        assert(v@.take(to as int).drop_last() == v@.take(to - 1));
        to -= 1;
    }
    proof {
        let head = v@.take(to as int);
        assert(head.last() == v@[to - 1]);
        if to == from + 1 {
            assert(!is_space(v@[from as int]));
        }
        assert(trailing_spaces(head) == 0);
    }
    let mut i: usize = from;
    while i < to
        invariant
            from <= i <= to <= v.len(),
            out@ == v@.subrange(from as int, i as int),
        decreases to - i,
    {
        out.push(v[i]);
        i += 1;
        assert(v@.subrange(from as int, i as int) == v@.subrange(from as int, i - 1).push(
            v@[i - 1],
        ));
    }
    out
}

/// Whether the text `needle` stands in the text `hay` at position `at`.
pub open spec fn stands_at(hay: Seq<char>, needle: Seq<char>, at: int) -> bool {
    0 <= at && at + needle.len() <= hay.len() && hay.subrange(at, at + needle.len()) == needle
}

/// Whether the text `needle` stands somewhere in the text `hay`.
pub open spec fn contains_text(hay: Seq<char>, needle: Seq<char>) -> bool {
    exists|at: int| stands_at(hay, needle, at)
}

/// Whether `needle` stands in `hay` at position `at`.
fn matches_at(hay: &Vec<char>, needle: &Vec<char>, at: usize) -> (r: bool)
    requires
        at + needle.len() <= hay.len(),
    ensures
        r == stands_at(hay@, needle@, at as int),
{
    let mut k: usize = 0;
    while k < needle.len()
        invariant
            k <= needle.len(),
            at + needle.len() <= hay.len(),
            forall|j: int| 0 <= j < k ==> hay@[at + j] == needle@[j],
        decreases needle.len() - k,
    {
        if hay[at + k] != needle[k] {
            assert(hay@.subrange(at as int, at + needle.len())[k as int] != needle@[k as int]);
            return false;
        }
        k += 1;
    }
    assert(hay@.subrange(at as int, at + needle.len()) =~= needle@);
    true
}

/// Whether the characters of `needle` stand somewhere in those of `hay`.
pub fn chars_contain(hay: &Vec<char>, needle: &Vec<char>) -> (r: bool)
    ensures
        r == contains_text(hay@, needle@),
{
    if needle.len() > hay.len() {
        assert forall|at: int| !stands_at(hay@, needle@, at) by {}
        return false;
    }
    let last = hay.len() - needle.len();
    let mut at: usize = 0;
    while at < last
        invariant
            at <= last,
            last == hay.len() - needle.len(),
            forall|j: int| 0 <= j < at ==> !stands_at(hay@, needle@, j),
        decreases last - at,
    {
        if matches_at(hay, needle, at) {
            return true;
        }
        at += 1;
    }
    if matches_at(hay, needle, last) {
        return true;
    }
    assert forall|j: int| !stands_at(hay@, needle@, j) by {}
    false
}

/// The parts into which a text falls at each separator. There is always at
/// least one part.
pub open spec fn split_text(t: Seq<char>, separator: char) -> Seq<Seq<char>>
    decreases t.len(),
{
    if t.len() == 0 {
        seq![Seq::empty()]
    } else {
        let before = split_text(t.drop_last(), separator);
        if t.last() == separator {
            before.push(Seq::empty())
        } else {
            before.drop_last().push(before.last().push(t.last()))
        }
    }
}

/// The parts into which the characters `v[from..]` fall at each separator.
pub fn split_chars(v: &Vec<char>, from: usize, separator: char) -> (r: Vec<String>)
    requires
        from <= v.len(),
    ensures
        r@.map_values(|s: String| s@) == split_text(v@.skip(from as int), separator),
{
    let ghost t = v@.skip(from as int);
    let mut parts: Vec<String> = Vec::new();
    let mut start: usize = from;
    let mut i: usize = from;
    assert(t.take(0).len() == 0);
    assert(v@.subrange(from as int, from as int) == Seq::<char>::empty());
    while i < v.len()
        invariant
            from <= start <= i <= v.len(),
            t == v@.skip(from as int),
            split_text(t.take(i - from), separator).len() == parts.len() + 1,
            split_text(t.take(i - from), separator).last() == v@.subrange(start as int, i as int),
            forall|k: int|
                0 <= k < parts.len() ==> (#[trigger] parts@[k])@ == split_text(
                    t.take(i - from),
                    separator,
                )[k],
        decreases v.len() - i,
    {
        let c = v[i];
        let ghost next = t.take(i - from + 1);
        let ghost before = split_text(t.take(i - from), separator);
        proof {
            assert(next.drop_last() == t.take(i - from));
            assert(next.last() == c);
        }
        if c == separator {
            parts.push(string_of_range(v, start, i));
            start = i + 1;
            assert(v@.subrange(start as int, i + 1) == Seq::<char>::empty());
        } else {
            assert(v@.subrange(start as int, i + 1) == before.last().push(c));
        }
        i += 1;
    }
    parts.push(string_of_range(v, start, v.len()));
    proof {
        assert(t.take(v.len() - from) == t);
        let want = split_text(t, separator);
        let got = parts@.map_values(|s: String| s@);
        assert(got.len() == want.len());
        assert forall|k: int| 0 <= k < got.len() implies got[k] == want[k] by {
            if k < want.len() - 1 {
            } else {
                assert(want[k] == want.last());
            }
        }
        assert(got =~= want);
    }
    parts
}

} // verus!
