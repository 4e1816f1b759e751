//! Decimal numbers. A number stands for a floating-point value by its
//! decimal notation: a sign, the digits before the point and the digits
//! behind it, or one of the three values that have no digits.

use crate::text::{
    all_digits, chars_of, decimal_text, decimal_value, digit_value, is_digit,
    lemma_decimal_text, lemma_decimal_value_prefix, push_decimal, string_of,
};
use vstd::prelude::*;

verus! {

/// How two values stand to each other.
#[derive(Debug, PartialEq, Eq, Clone, Copy, Structural)]
pub enum Order {
    /// The first is smaller.
    Less,
    /// Neither is smaller.
    Equal,
    /// The first is larger.
    Greater,
}

/// How the integers `a` and `b` stand to each other.
pub open spec fn int_order(a: int, b: int) -> Order {
    if a < b {
        Order::Less
    } else if a == b {
        Order::Equal
    } else {
        Order::Greater
    }
}

/// Ten to the power of `n`.
pub open spec fn pow10(n: nat) -> nat
    decreases n,
{
    if n == 0 {
        1
    } else {
        10 * pow10((n - 1) as nat)
    }
}

/// The mathematical model of a number.
pub enum NumberModel {
    /// Not a number.
    NaN,
    /// Positive or negative infinity.
    Infinite { negative: bool },
    /// A finite decimal: sign, digits before the point, digits behind it.
    Finite { negative: bool, whole: Seq<char>, fraction: Seq<char> },
}

/// Whether the parts of a finite number are well formed: at least one digit
/// before the point, and digits only.
pub open spec fn finite_parts_ok(whole: Seq<char>, fraction: Seq<char>) -> bool {
    whole.len() > 0 && all_digits(whole) && all_digits(fraction)
}

/// Whether `m` is a well-formed number.
pub open spec fn number_ok(m: NumberModel) -> bool {
    match m {
        NumberModel::Finite { negative, whole, fraction } => finite_parts_ok(whole, fraction),
        _ => true,
    }
}

/// The integer that the digits of a finite number write when the point is
/// left out, with the number's sign.
pub open spec fn signed_digits(negative: bool, whole: Seq<char>, fraction: Seq<char>) -> int {
    if negative {
        -(decimal_value(whole + fraction) as int)
    } else {
        decimal_value(whole + fraction) as int
    }
}

/// How two numbers stand to each other by value; nothing where one of them
/// is not a number. Two finite numbers are compared as fractions: each one's
/// digits are scaled by the number of digits behind the other's point.
pub open spec fn number_order(a: NumberModel, b: NumberModel) -> Option<Order> {
    match (a, b) {
        (NumberModel::NaN, _) => None,
        (_, NumberModel::NaN) => None,
        (NumberModel::Infinite { negative: na }, NumberModel::Infinite { negative: nb }) => Some(
            if na == nb {
                Order::Equal
            } else if na {
                Order::Less
            } else {
                Order::Greater
            },
        ),
        (NumberModel::Infinite { negative: na }, NumberModel::Finite { .. }) => Some(
            if na {
                Order::Less
            } else {
                Order::Greater
            },
        ),
        (NumberModel::Finite { .. }, NumberModel::Infinite { negative: nb }) => Some(
            if nb {
                Order::Greater
            } else {
                Order::Less
            },
        ),
        (
            NumberModel::Finite { negative: na, whole: wa, fraction: fa },
            NumberModel::Finite { negative: nb, whole: wb, fraction: fb },
        ) => Some(
            int_order(
                signed_digits(na, wa, fa) * pow10(fb.len()),
                signed_digits(nb, wb, fb) * pow10(fa.len()),
            ),
        ),
    }
}

/// The notation of a number: `NaN`, `inf`, `-inf`, or an optional `-`, the
/// digits before the point and, where there are digits behind it, the point
/// and those digits.
pub open spec fn number_text(m: NumberModel) -> Seq<char> {
    match m {
        NumberModel::NaN => seq!['N', 'a', 'N'],
        NumberModel::Infinite { negative } => if negative {
            seq!['-', 'i', 'n', 'f']
        } else {
            seq!['i', 'n', 'f']
        },
        NumberModel::Finite { negative, whole, fraction } => {
            let sign = if negative {
                seq!['-']
            } else {
                Seq::<char>::empty()
            };
            let tail = if fraction.len() > 0 {
                seq!['.'] + fraction
            } else {
                Seq::<char>::empty()
            };
            sign + whole + tail
        },
    }
}

/// The position of the first `.` in `s`, or the length of `s` where it
/// holds none.
pub open spec fn point_position(s: Seq<char>) -> int
    decreases s.len(),
{
    if s.len() == 0 {
        0
    } else if s[0] == '.' {
        0
    } else {
        1 + point_position(s.skip(1))
    }
}

/// The number that the text `t` writes, if it writes one.
pub open spec fn read_number(t: Seq<char>) -> Option<NumberModel> {
    if t == seq!['N', 'a', 'N'] {
        Some(NumberModel::NaN)
    } else if t == seq!['i', 'n', 'f'] {
        Some(NumberModel::Infinite { negative: false })
    } else if t == seq!['-', 'i', 'n', 'f'] {
        Some(NumberModel::Infinite { negative: true })
    } else {
        read_finite(t)
    }
}

/// The finite number that the text `t` writes, if it writes one: an
/// optional `-`, at least one digit, and then nothing more or a `.` and at
/// least one digit.
pub open spec fn read_finite(t: Seq<char>) -> Option<NumberModel> {
    let negative = t.len() > 0 && t[0] == '-';
    let body = if negative {
        t.skip(1)
    } else {
        t
    };
    let point = point_position(body);
    let whole = body.take(point);
    let fraction = if point < body.len() {
        body.skip(point + 1)
    } else {
        Seq::<char>::empty()
    };
    if finite_parts_ok(whole, fraction) && (point < body.len() ==> fraction.len() > 0) {
        Some(NumberModel::Finite { negative, whole, fraction })
    } else {
        None
    }
}

/// Digits hold no point: behind a run of digits, the first point is where
/// it is in what follows.
pub proof fn lemma_point_behind_digits(digits: Seq<char>, rest: Seq<char>)
    requires
        all_digits(digits),
    ensures
        point_position(digits + rest) == digits.len() + point_position(rest),
    decreases digits.len(),
{
    if digits.len() == 0 {
        assert(digits + rest == rest);
    } else {
        let all = digits + rest;
        assert(all[0] == digits[0]);
        assert(is_digit(digits[0]));
        assert(all.skip(1) == digits.skip(1) + rest);
        assert forall|i: int| 0 <= i < digits.skip(1).len() implies is_digit(
            #[trigger] digits.skip(1)[i],
        ) by {
            assert(digits.skip(1)[i] == digits[i + 1]);
        }
        lemma_point_behind_digits(digits.skip(1), rest);
    }
}

/// The notation of a well-formed number reads back as the number.
pub proof fn lemma_read_number_text(m: NumberModel)
    requires
        number_ok(m),
    ensures
        read_number(number_text(m)) == Some(m),
{
    let t = number_text(m);
    match m {
        NumberModel::NaN => {},
        NumberModel::Infinite { negative } => {
            if negative {
                assert(t.len() == 4);
            } else {
                assert(t.len() == 3 && t[0] == 'i');
            }
        },
        NumberModel::Finite { negative, whole, fraction } => {
            let sign = if negative {
                seq!['-']
            } else {
                Seq::<char>::empty()
            };
            let tail = if fraction.len() > 0 {
                seq!['.'] + fraction
            } else {
                Seq::<char>::empty()
            };
            assert(is_digit(whole[0]));
            let body = whole + tail;
            assert(t == sign + body);
            if negative {
                assert(t[0] == '-');
                assert(t[1] == whole[0]);
                assert(t.skip(1) == body);
            } else {
                assert(t == body);
                assert(t[0] == whole[0]);
                assert(t[0] != '-');
            }
            lemma_point_behind_digits(whole, tail);
            if tail.len() > 0 {
                assert(tail[0] == '.');
            }
            assert(point_position(tail) == 0);
            assert(point_position(body) == whole.len());
            assert(body.take(whole.len() as int) == whole);
            if fraction.len() > 0 {
                assert(body.skip(whole.len() as int + 1) == fraction);
            } else {
                assert(body.len() == whole.len());
            }
            let negative2 = t.len() > 0 && t[0] == '-';
            assert(t.len() > 0);
            assert(negative2 == negative);
            let body2 = if negative2 {
                t.skip(1)
            } else {
                t
            };
            assert(body2 == body);
            let point = point_position(body2);
            assert(point == whole.len());
            assert(body2.take(point) == whole);
            let fraction2 = if point < body2.len() {
                body2.skip(point + 1)
            } else {
                Seq::<char>::empty()
            };
            assert(fraction2 == fraction);
            assert(finite_parts_ok(whole, fraction));
            assert(read_finite(t) == Some(m));
        },
    }
}

/// The number that the integer `i` is.
pub open spec fn number_of_int(i: int) -> NumberModel {
    NumberModel::Finite {
        negative: i < 0,
        whole: decimal_text(
            (if i < 0 {
                -i
            } else {
                i
            }) as nat,
        ),
        fraction: Seq::<char>::empty(),
    }
}

/// Whether every character of `s` is the digit `0`.
pub open spec fn all_zero(s: Seq<char>) -> bool {
    forall|i: int| 0 <= i < s.len() ==> (#[trigger] s[i]) as u32 == 48
}

/// The integer that a number is: a finite number whose digits behind the
/// point are all `0` and whose value a signed machine word of 64 bits
/// holds. No other number is an integer.
pub open spec fn number_integer(m: NumberModel) -> Option<int> {
    match m {
        NumberModel::Finite { negative, whole, fraction } => {
            let value = if negative {
                -(decimal_value(whole) as int)
            } else {
                decimal_value(whole) as int
            };
            if all_zero(fraction) && i64::MIN <= value <= i64::MAX {
                Some(value)
            } else {
                None
            }
        },
        _ => None,
    }
}

/// Which of the kinds of number a `Number` is.
#[derive(Debug, PartialEq, Eq, Clone, Copy, Structural)]
enum NumberKind {
    NaN,
    Infinite,
    Finite,
}

/// A decimal number.
#[derive(Debug, PartialEq)]
pub struct Number {
    kind: NumberKind,
    negative: bool,
    whole: Vec<char>,
    fraction: Vec<char>,
}

impl View for Number {
    type V = NumberModel;

    closed spec fn view(&self) -> NumberModel {
        match self.kind {
            NumberKind::NaN => NumberModel::NaN,
            NumberKind::Infinite => NumberModel::Infinite { negative: self.negative },
            NumberKind::Finite => NumberModel::Finite {
                negative: self.negative,
                whole: self.whole@,
                fraction: self.fraction@,
            },
        }
    }
}

impl Clone for Number {
    fn clone(&self) -> (r: Self)
        ensures
            r@ == self@,
    {
        proof {
            use_type_invariant(self);
        }
        Number {
            kind: self.kind,
            negative: self.negative,
            whole: self.whole.clone(),
            fraction: self.fraction.clone(),
        }
    }
}

/// Appending zeros multiplies what digits write by a power of ten.
proof fn lemma_append_zeros(s: Seq<char>, zeros: Seq<char>)
    requires
        forall|i: int| 0 <= i < zeros.len() ==> zeros[i] == '0',
    ensures
        decimal_value(s + zeros) == decimal_value(s) * pow10(zeros.len()),
    decreases zeros.len(),
{
    if zeros.len() == 0 {
        assert(s + zeros == s);
        assert(pow10(0) == 1);
    } else {
        let shorter = zeros.drop_last();
        assert forall|i: int| 0 <= i < shorter.len() implies shorter[i] == '0' by {
            assert(shorter[i] == zeros[i]);
        }
        lemma_append_zeros(s, shorter);
        assert((s + zeros).drop_last() == s + shorter);
        assert((s + zeros).last() == zeros[zeros.len() - 1]);
        assert((s + zeros).last() == '0');
        assert(digit_value('0') == 0);
        assert(decimal_value(s + zeros) == decimal_value(s + shorter) * 10);
        let d = decimal_value(s) as int;
        let p = pow10(shorter.len()) as int;
        assert(pow10(zeros.len()) == 10 * p);
        assert(d * (10 * p) == (d * p) * 10) by (nonlinear_arith);
        assert(decimal_value(s + shorter) == d * p);
        assert(decimal_value(s + zeros) == d * (10 * p));
    }
}

/// Zeros in front do not change what digits write.
proof fn lemma_leading_zeros(zeros: Seq<char>, s: Seq<char>)
    requires
        forall|i: int| 0 <= i < zeros.len() ==> zeros[i] == '0',
    ensures
        decimal_value(zeros + s) == decimal_value(s),
    decreases s.len(), zeros.len(),
{
    if s.len() == 0 {
        assert(zeros + s == zeros);
        if zeros.len() > 0 {
            lemma_leading_zeros(zeros.drop_last(), s);
            assert(zeros.drop_last() + s == zeros.drop_last());
        }
    } else {
        lemma_leading_zeros(zeros, s.drop_last());
        assert((zeros + s).drop_last() == zeros + s.drop_last());
        assert((zeros + s).last() == s.last());
    }
}

/// How two digit sequences of one length stand to each other, read from
/// the left: the first position where they differ decides.
pub open spec fn digits_order(a: Seq<char>, b: Seq<char>) -> Order
    recommends
        a.len() == b.len(),
    decreases a.len(),
{
    if a.len() == 0 || b.len() == 0 {
        Order::Equal
    } else {
        let before = digits_order(a.drop_last(), b.drop_last());
        if before != Order::Equal {
            before
        } else {
            int_order(digit_value(a.last()) as int, digit_value(b.last()) as int)
        }
    }
}

/// For digit sequences of one length, the order read from the left is the
/// order of the numbers they write.
proof fn lemma_digits_order(a: Seq<char>, b: Seq<char>)
    requires
        a.len() == b.len(),
        all_digits(a),
        all_digits(b),
    ensures
        digits_order(a, b) == int_order(decimal_value(a) as int, decimal_value(b) as int),
    decreases a.len(),
{
    if a.len() > 0 {
        let a0 = a.drop_last();
        let b0 = b.drop_last();
        assert forall|i: int| 0 <= i < a0.len() implies is_digit(#[trigger] a0[i]) by {
            assert(a0[i] == a[i]);
        }
        assert forall|i: int| 0 <= i < b0.len() implies is_digit(#[trigger] b0[i]) by {
            assert(b0[i] == b[i]);
        }
        lemma_digits_order(a0, b0);
        assert(is_digit(a[a.len() - 1]));
        assert(is_digit(b[b.len() - 1]));
        let x = decimal_value(a0) as int;
        let y = decimal_value(b0) as int;
        let da = digit_value(a.last()) as int;
        let db = digit_value(b.last()) as int;
        assert(0 <= da <= 9 && 0 <= db <= 9);
        assert(decimal_value(a) == x * 10 + da);
        assert(decimal_value(b) == y * 10 + db);
        assert(digits_order(a0, b0) == int_order(x, y));
    }
}

/// A vector of `n` zeros.
fn zeros(n: usize) -> (r: Vec<char>)
    ensures
        r.len() == n,
        forall|i: int| 0 <= i < r.len() ==> r[i] == '0',
{
    let mut r: Vec<char> = Vec::new();
    let mut i: usize = 0;
    while i < n
        invariant
            i <= n,
            r.len() == i,
            forall|k: int| 0 <= k < r.len() ==> r[k] == '0',
        decreases n - i,
    {
        r.push('0');
        i += 1;
    }
    r
}

/// The digits of `a` behind as many zeros as make `n` digits in all.
fn pad_left(a: &Vec<char>, n: usize) -> (r: Vec<char>)
    requires
        all_digits(a@),
        a.len() <= n,
    ensures
        r.len() == n,
        all_digits(r@),
        decimal_value(r@) == decimal_value(a@),
{
    let mut left = zeros(n - a.len());
    proof {
        lemma_leading_zeros(left@, a@);
    }
    let ghost left_zeros = left@;
    let mut a_copy = a.clone();
    left.append(&mut a_copy);
    assert(left@ == left_zeros + a@);
    assert forall|i: int| 0 <= i < left@.len() implies is_digit(#[trigger] left@[i]) by {
        if i >= left_zeros.len() {
            assert(left@[i] == a@[i - left_zeros.len()]);
        }
    }
    left
}

/// How the numbers written by two digit vectors stand to each other.
fn magnitude_order(a: &Vec<char>, b: &Vec<char>) -> (r: Order)
    requires
        all_digits(a@),
        all_digits(b@),
    ensures
        r == int_order(decimal_value(a@) as int, decimal_value(b@) as int),
{
    let n = if a.len() > b.len() {
        a.len()
    } else {
        b.len()
    };
    let left = pad_left(a, n);
    let right = pad_left(b, n);
    proof {
        lemma_digits_order(left@, right@);
    }
    let mut i: usize = 0;
    while i < n
        invariant
            i <= n,
            left.len() == n,
            right.len() == n,
            all_digits(left@),
            all_digits(right@),
            digits_order(left@.take(i as int), right@.take(i as int)) == Order::Equal,
            digits_order(left@, right@) == int_order(
                decimal_value(a@) as int,
                decimal_value(b@) as int,
            ),
        decreases n - i,
    {
        let x = left[i];
        let y = right[i];
        proof {
            let la = left@.take(i + 1);
            let ra = right@.take(i + 1);
            assert(la.drop_last() == left@.take(i as int));
            assert(ra.drop_last() == right@.take(i as int));
            assert(la.last() == x && ra.last() == y);
        }
        assert(is_digit(left@[i as int]) && is_digit(right@[i as int]));
        if x as u32 != y as u32 {
            let decided = if (x as u32) < (y as u32) {
                Order::Less
            } else {
                Order::Greater
            };
            proof {
                let la = left@.take(i + 1);
                let ra = right@.take(i + 1);
                assert(is_digit(left@[i as int]) && is_digit(right@[i as int]));
                assert(digits_order(la, ra) == int_order(
                    digit_value(x) as int,
                    digit_value(y) as int,
                ));
                assert(digits_order(la, ra) == decided);
                lemma_digits_order_decided(left@, right@, i as int + 1);
            }
            return decided;
        }
        i += 1;
    }
    assert(left@.take(n as int) == left@);
    assert(right@.take(n as int) == right@);
    Order::Equal
}

/// Once a prefix has decided the order, longer prefixes do not change it.
proof fn lemma_digits_order_decided(a: Seq<char>, b: Seq<char>, k: int)
    requires
        a.len() == b.len(),
        0 <= k <= a.len(),
        digits_order(a.take(k), b.take(k)) != Order::Equal,
    ensures
        digits_order(a, b) == digits_order(a.take(k), b.take(k)),
    decreases a.len() - k,
{
    if k == a.len() {
        assert(a.take(k) == a);
        assert(b.take(k) == b);
    } else {
        assert(a.drop_last().take(k) == a.take(k));
        assert(b.drop_last().take(k) == b.take(k));
        lemma_digits_order_decided(a.drop_last(), b.drop_last(), k);
    }
}

impl Number {
    #[verifier::type_invariant]
    spec fn well_formed(self) -> bool {
        match self.kind {
            NumberKind::Finite => finite_parts_ok(self.whole@, self.fraction@),
            _ => self.whole@.len() == 0 && self.fraction@.len() == 0,
        }
    }

    /// The value that is not a number.
    pub fn nan() -> (r: Number)
        ensures
            r@ == NumberModel::NaN,
    {
        Number { kind: NumberKind::NaN, negative: false, whole: Vec::new(), fraction: Vec::new() }
    }

    /// Positive or negative infinity.
    pub fn infinity(negative: bool) -> (r: Number)
        ensures
            r@ == (NumberModel::Infinite { negative }),
    {
        Number { kind: NumberKind::Infinite, negative, whole: Vec::new(), fraction: Vec::new() }
    }

    /// The number that an integer is.
    pub fn from_int(i: i64) -> (r: Number)
        ensures
            r@ == number_of_int(i as int),
    {
        let mut whole: Vec<char> = Vec::new();
        let magnitude: u64 = if i < 0 {
            (-(i + 1)) as u64 + 1
        } else {
            i as u64
        };
        push_decimal(&mut whole, magnitude);
        proof {
            lemma_decimal_text(magnitude as nat);
            assert(whole@ == decimal_text(magnitude as nat));
        }
        Number { kind: NumberKind::Finite, negative: i < 0, whole, fraction: Vec::new() }
    }

    /// Read a number from its notation.
    pub fn parse(text: &str) -> (r: Option<Number>)
        ensures
            match r {
                Some(n) => read_number(text@) == Some(n@),
                None => read_number(text@) is None,
            },
    {
        let v = chars_of(text);
        assert(v@.subrange(0, v.len() as int) == v@);
        Number::read(&v, 0, v.len())
    }

    /// Read a number from the characters `v[from..to]`.
    pub fn read(v: &Vec<char>, from: usize, to: usize) -> (r: Option<Number>)
        requires
            from <= to <= v.len(),
        ensures
            match r {
                Some(n) => read_number(v@.subrange(from as int, to as int)) == Some(n@),
                None => read_number(v@.subrange(from as int, to as int)) is None,
            },
    {
        let ghost t = v@.subrange(from as int, to as int);
        let n = to - from;
        if n == 3 && v[from] == 'N' && v[from + 1] == 'a' && v[from + 2] == 'N' {
            assert(t == seq!['N', 'a', 'N']);
            return Some(Number::nan());
        }
        if n == 3 && v[from] == 'i' && v[from + 1] == 'n' && v[from + 2] == 'f' {
            assert(t == seq!['i', 'n', 'f']);
            return Some(Number::infinity(false));
        }
        if n == 4 && v[from] == '-' && v[from + 1] == 'i' && v[from + 2] == 'n' && v[from + 3]
            == 'f' {
            assert(t == seq!['-', 'i', 'n', 'f']);
            return Some(Number::infinity(true));
        }
        proof {
            if t == seq!['N', 'a', 'N'] {
                assert(t.len() == 3 && t[0] == 'N' && t[1] == 'a' && t[2] == 'N');
            }
            if t == seq!['i', 'n', 'f'] {
                assert(t.len() == 3 && t[0] == 'i' && t[1] == 'n' && t[2] == 'f');
            }
            if t == seq!['-', 'i', 'n', 'f'] {
                assert(t.len() == 4 && t[0] == '-' && t[1] == 'i' && t[2] == 'n' && t[3] == 'f');
            }
        }
        Number::read_finite(v, from, to)
    }

    /// Read a finite number from the characters `v[from..to]`.
    pub fn read_finite(v: &Vec<char>, from: usize, to: usize) -> (r: Option<Number>)
        requires
            from <= to <= v.len(),
        ensures
            match r {
                Some(n) => read_finite(v@.subrange(from as int, to as int)) == Some(n@),
                None => read_finite(v@.subrange(from as int, to as int)) is None,
            },
    {
        let ghost t = v@.subrange(from as int, to as int);
        let n = to - from;
        let negative = n > 0 && v[from] == '-';
        let start = if negative {
            from + 1
        } else {
            from
        };
        let ghost body = v@.subrange(start as int, to as int);
        assert(body == if negative {
            t.skip(1)
        } else {
            t
        });
        let mut whole: Vec<char> = Vec::new();
        let mut i: usize = start;
        assert(body.skip(0) == body);
        while i < to && v[i] != '.'
            invariant
                start <= i <= to <= v.len(),
                body == v@.subrange(start as int, to as int),
                whole@ == body.take(i - start),
                point_position(body) == (i - start) + point_position(body.skip(i - start)),
                forall|k: int| 0 <= k < i - start ==> body[k] != '.',
            decreases to - i,
        {
            let ghost rest = body.skip(i - start);
            proof {
                assert(rest.len() > 0 && rest[0] == v@[i as int]);
                assert(rest.skip(1) == body.skip(i - start + 1));
                assert(body.take(i - start + 1) == body.take(i - start).push(v@[i as int]));
            }
            whole.push(v[i]);
            i += 1;
        }
        let ghost point = (i - start) as int;
        proof {
            let rest = body.skip(point);
            if i < to {
                assert(rest.len() > 0 && rest[0] == '.');
            } else {
                assert(rest.len() == 0);
            }
            assert(point_position(body) == point);
        }
        let mut fraction: Vec<char> = Vec::new();
        if i < to {
            let mut j: usize = i + 1;
            while j < to
                invariant
                    i + 1 <= j <= to <= v.len(),
                    start <= i,
                    body == v@.subrange(start as int, to as int),
                    fraction@ == body.subrange(i + 1 - start, j - start),
                decreases to - j,
            {
                fraction.push(v[j]);
                j += 1;
                assert(body.subrange(i + 1 - start, j - start) == body.subrange(
                    i + 1 - start,
                    j - 1 - start,
                ).push(v@[j - 1]));
            }
            assert(fraction@ == body.skip(point + 1));
            if fraction.len() == 0 {
                return None;
            }
        }
        if whole.len() == 0 || !only_digits(&whole) || !only_digits(&fraction) {
            return None;
        }
        Some(Number { kind: NumberKind::Finite, negative, whole, fraction })
    }

    /// Appends the notation of the number to `out`.
    pub fn push_text(&self, out: &mut Vec<char>)
        ensures
            final(out)@ == old(out)@ + number_text(self@),
            number_ok(self@),
    {
        proof {
            use_type_invariant(self);
        }
        match self.kind {
            NumberKind::NaN => {
                out.push('N');
                out.push('a');
                out.push('N');
                assert(out@ == old(out)@ + seq!['N', 'a', 'N']);
            },
            NumberKind::Infinite => {
                if self.negative {
                    out.push('-');
                    out.push('i');
                    out.push('n');
                    out.push('f');
                    assert(out@ == old(out)@ + seq!['-', 'i', 'n', 'f']);
                } else {
                    out.push('i');
                    out.push('n');
                    out.push('f');
                    assert(out@ == old(out)@ + seq!['i', 'n', 'f']);
                }
            },
            NumberKind::Finite => {
                let ghost sign = if self.negative {
                    seq!['-']
                } else {
                    Seq::<char>::empty()
                };
                let ghost tail = if self.fraction@.len() > 0 {
                    seq!['.'] + self.fraction@
                } else {
                    Seq::<char>::empty()
                };
                if self.negative {
                    out.push('-');
                }
                assert(out@ == old(out)@ + sign);
                let mut whole = self.whole.clone();
                out.append(&mut whole);
                if self.fraction.len() > 0 {
                    out.push('.');
                    let mut fraction = self.fraction.clone();
                    out.append(&mut fraction);
                }
                assert(out@ == old(out)@ + (sign + self.whole@ + tail));
            },
        }
    }

    /// The notation of the number.
    pub fn text(&self) -> (r: String)
        ensures
            r@ == number_text(self@),
            number_ok(self@),
    {
        let mut out: Vec<char> = Vec::new();
        self.push_text(&mut out);
        assert(Seq::<char>::empty() + number_text(self@) == number_text(self@));
        string_of(&out)
    }

    /// The integer that the number is, if it is one.
    pub fn to_integer(&self) -> (r: Option<i64>)
        ensures
            match r {
                Some(i) => number_integer(self@) == Some(i as int),
                None => number_integer(self@) is None,
            },
    {
        proof {
            use_type_invariant(self);
        }
        match self.kind {
            NumberKind::Finite => {},
            _ => {
                return None;
            },
        }
        let mut k: usize = 0;
        while k < self.fraction.len()
            invariant
                k <= self.fraction.len(),
                self.kind == NumberKind::Finite,
                forall|j: int| 0 <= j < k ==> (#[trigger] self.fraction@[j]) as u32 == 48,
            decreases self.fraction.len() - k,
        {
            if self.fraction[k] as u32 != 48 {
                proof {
                    let fraction = self.fraction@;
                    assert(self@ == (NumberModel::Finite {
                        negative: self.negative,
                        whole: self.whole@,
                        fraction,
                    }));
                    assert(fraction[k as int] as u32 != 48);
                    assert(!all_zero(fraction));
                }
                return None;
            }
            k += 1;
        }
        let ghost digits = self.whole@;
        let mut magnitude: u64 = 0;
        let mut i: usize = 0;
        assert(digits.take(0).len() == 0);
        while i < self.whole.len()
            invariant
                i <= self.whole.len(),
                digits == self.whole@,
                all_digits(digits),
                self.kind == NumberKind::Finite,
                all_zero(self.fraction@),
                magnitude == decimal_value(digits.take(i as int)),
                magnitude <= 0x8000_0000_0000_0000,
            decreases self.whole.len() - i,
        {
            let c = self.whole[i];
            let ghost prefix = digits.take(i + 1);
            proof {
                assert(prefix.drop_last() == digits.take(i as int));
                assert(prefix.last() == c);
                assert(is_digit(digits[i as int]));
                lemma_decimal_value_prefix(digits, i + 1);
            }
            let d: u64 = (c as u32 - 48) as u64;
            if magnitude > 922337203685477580 {
                return None;
            }
            let next = magnitude * 10 + d;
            if next > 0x8000_0000_0000_0000 {
                return None;
            }
            magnitude = next;
            i += 1;
        }
        assert(digits.take(i as int) == digits);
        if self.negative {
            if magnitude == 0x8000_0000_0000_0000 {
                Some(i64::MIN)
            } else {
                Some(-(magnitude as i64))
            }
        } else if magnitude <= i64::MAX as u64 {
            Some(magnitude as i64)
        } else {
            None
        }
    }

    /// Whether this is the value that is not a number.
    pub fn is_nan(&self) -> (r: bool)
        ensures
            r == (self@ is NaN),
    {
        match self.kind {
            NumberKind::NaN => true,
            _ => false,
        }
    }

    /// How this number stands to another by value; nothing where one of
    /// them is not a number.
    pub fn order(&self, other: &Number) -> (r: Option<Order>)
        ensures
            r == number_order(self@, other@),
    {
        proof {
            use_type_invariant(self);
            use_type_invariant(other);
        }
        match (self.kind, other.kind) {
            (NumberKind::NaN, _) => None,
            (_, NumberKind::NaN) => None,
            (NumberKind::Infinite, NumberKind::Infinite) => Some(
                if self.negative == other.negative {
                    Order::Equal
                } else if self.negative {
                    Order::Less
                } else {
                    Order::Greater
                },
            ),
            (NumberKind::Infinite, NumberKind::Finite) => Some(
                if self.negative {
                    Order::Less
                } else {
                    Order::Greater
                },
            ),
            (NumberKind::Finite, NumberKind::Infinite) => Some(
                if other.negative {
                    Order::Greater
                } else {
                    Order::Less
                },
            ),
            (NumberKind::Finite, NumberKind::Finite) => {
                let left = scaled_digits(&self.whole, &self.fraction, other.fraction.len());
                let right = scaled_digits(&other.whole, &other.fraction, self.fraction.len());
                let magnitudes = magnitude_order(&left, &right);
                let ghost x = decimal_value(left@) as int;
                let ghost y = decimal_value(right@) as int;
                let result = if self.negative == other.negative {
                    if self.negative {
                        match magnitudes {
                            Order::Less => Order::Greater,
                            Order::Equal => Order::Equal,
                            Order::Greater => Order::Less,
                        }
                    } else {
                        magnitudes
                    }
                } else {
                    let zero = zeros(1);
                    assert(decimal_value(zero@) == 0) by {
                        assert(zero@.drop_last().len() == 0);
                        assert(decimal_value(zero@.drop_last()) == 0);
                    }
                    let left_zero = matches!(magnitude_order(&left, &zero), Order::Equal);
                    let right_zero = matches!(magnitude_order(&right, &zero), Order::Equal);
                    if left_zero && right_zero {
                        Order::Equal
                    } else if self.negative {
                        Order::Less
                    } else {
                        Order::Greater
                    }
                };
                proof {
                    let a = decimal_value(self.whole@ + self.fraction@) as int;
                    let b = decimal_value(other.whole@ + other.fraction@) as int;
                    let pa = pow10(other.fraction@.len()) as int;
                    let pb = pow10(self.fraction@.len()) as int;
                    assert(x == a * pa);
                    assert(y == b * pb);
                    assert((-a) * pa == -(a * pa)) by (nonlinear_arith);
                    assert((-b) * pb == -(b * pb)) by (nonlinear_arith);
                }
                Some(result)
            },
        }
    }
}

/// Whether every character of `v` is a digit.
fn only_digits(v: &Vec<char>) -> (r: bool)
    ensures
        r == all_digits(v@),
{
    let mut i: usize = 0;
    while i < v.len()
        invariant
            i <= v.len(),
            forall|k: int| 0 <= k < i ==> is_digit(#[trigger] v@[k]),
        decreases v.len() - i,
    {
        let c = v[i];
        if !(c as u32 >= 48 && c as u32 <= 57) {
            assert(!is_digit(v@[i as int]));
            return false;
        }
        i += 1;
    }
    true
}

/// The digits of a finite number without its point, followed by `extra`
/// zeros.
fn scaled_digits(whole: &Vec<char>, fraction: &Vec<char>, extra: usize) -> (r: Vec<char>)
    requires
        all_digits(whole@),
        all_digits(fraction@),
    ensures
        all_digits(r@),
        decimal_value(r@) == decimal_value(whole@ + fraction@) * pow10(extra as nat),
{
    let mut r = whole.clone();
    let mut f = fraction.clone();
    r.append(&mut f);
    let mut z = zeros(extra);
    let ghost zs = z@;
    proof {
        lemma_append_zeros(whole@ + fraction@, zs);
    }
    r.append(&mut z);
    assert(r@ == (whole@ + fraction@) + zs);
    assert forall|i: int| 0 <= i < r@.len() implies is_digit(#[trigger] r@[i]) by {
        if i < whole@.len() {
            assert(r@[i] == whole@[i]);
        } else if i < whole@.len() + fraction@.len() {
            assert(r@[i] == fraction@[i - whole@.len()]);
        } else {
            assert(r@[i] == zs[i - whole@.len() - fraction@.len()]);
        }
    }
    r
}

} // verus!
