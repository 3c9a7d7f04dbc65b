//! Exact decimal numbers: what the decoder reads from a numeric text field.
use vstd::prelude::*;
use crate::text::{
    is_digit, digit_value, digits_value, lemma_digits_value_nonneg, all_digits, scaled_text,
    scaled_to_string, digits_text, fixed_digits, pow10, lemma_digits_text, lemma_fixed_digits,
    lemma_digits_value_concat, lemma_pow10_pos, lemma_pow10_mono, pow10_u128, int_in_range,
    parse_int_in_range,
};

verus! {

/// Most digits after the decimal point that a `Decimal` keeps.
pub const MAX_SCALE: u32 = 18;

/// The number `mantissa / 10^scale`, kept exactly as it was written:
/// `1.50` is `{ mantissa: 150, scale: 2 }`.
#[derive(Clone, Copy, Debug, PartialEq, Eq, Structural)]
pub struct Decimal {
    pub mantissa: i64,
    pub scale: u32,
}

impl Decimal {
    pub open spec fn wf(self) -> bool {
        self.scale <= MAX_SCALE
    }
}

/// The digits of `s`, in order, with every other character left out.
pub open spec fn digits_of(s: Seq<char>) -> Seq<char>
    decreases s.len(),
{
    if s.len() == 0 {
        Seq::empty()
    } else if is_digit(s.last()) {
        digits_of(s.drop_last()).push(s.last())
    } else {
        digits_of(s.drop_last())
    }
}

pub open spec fn dot_count(s: Seq<char>) -> nat
    decreases s.len(),
{
    if s.len() == 0 {
        0
    } else if s.last() == '.' {
        dot_count(s.drop_last()) + 1
    } else {
        dot_count(s.drop_last())
    }
}

/// How many characters follow the last `.` of `s` (all of them when there is none).
pub open spec fn chars_after_dot(s: Seq<char>) -> nat
    decreases s.len(),
{
    if s.len() == 0 {
        0
    } else if s.last() == '.' {
        0
    } else {
        chars_after_dot(s.drop_last()) + 1
    }
}

/// `s` is digits with at most one `.` among them, and at least one digit.
pub open spec fn decimal_body(s: Seq<char>) -> bool {
    &&& forall|i: int| 0 <= i < s.len() ==> is_digit(#[trigger] s[i]) || s[i] == '.'
    &&& dot_count(s) <= 1
    &&& digits_of(s).len() > 0
}

pub open spec fn has_sign(s: Seq<char>) -> bool {
    s.len() > 0 && (s[0] == '+' || s[0] == '-')
}

pub open spec fn unsigned_part(s: Seq<char>) -> Seq<char> {
    if has_sign(s) { s.drop_first() } else { s }
}

/// The decimal that `s` writes: an optional sign, then digits with at most one
/// decimal point, at least one digit; the mantissa must fit in 64 bits and at
/// most `MAX_SCALE` digits may follow the point.
pub open spec fn plain_decimal_of(s: Seq<char>) -> Option<Decimal> {
    let b = unsigned_part(s);
    let mag = digits_value(digits_of(b));
    let v = if has_sign(s) && s[0] == '-' { -mag } else { mag };
    let sc = if dot_count(b) == 1 { chars_after_dot(b) } else { 0 };
    if decimal_body(b) && i64::MIN <= v <= i64::MAX && sc <= MAX_SCALE {
        Some(Decimal { mantissa: v as i64, scale: sc as u32 })
    } else {
        None
    }
}

proof fn lemma_digits_of_all_digits(s: Seq<char>)
    ensures
        all_digits(digits_of(s)),
    decreases s.len(),
{
    if s.len() > 0 {
        lemma_digits_of_all_digits(s.drop_last());
    }
}

/// Reading further into a text never lowers the value of its digits.
proof fn lemma_digits_of_grow(s: Seq<char>, i: int, j: int)
    requires
        0 <= i <= j <= s.len(),
    ensures
        digits_value(digits_of(s.subrange(0, i))) <= digits_value(digits_of(s.subrange(0, j))),
        dot_count(s.subrange(0, i)) <= dot_count(s.subrange(0, j)),
    decreases j - i,
{
    if i < j {
        lemma_digits_of_grow(s, i, j - 1);
        let p = s.subrange(0, j);
        assert(p.drop_last() =~= s.subrange(0, j - 1));
        lemma_digits_of_all_digits(p.drop_last());
        lemma_digits_value_nonneg(digits_of(p.drop_last()));
        if is_digit(p.last()) {
            assert(digits_of(p).drop_last() =~= digits_of(p.drop_last()));
        }
    }
}

/// Parses a decimal number written as `plain_decimal_of` describes.
fn parse_plain_decimal(s: &str) -> (r: Option<Decimal>)
    ensures
        r == plain_decimal_of(s@),
        r matches Some(d) ==> d.wf(),
{
    let n = s.unicode_len();
    let signed = n > 0 && {
        let c0 = s.get_char(0);
        c0 == '+' || c0 == '-'
    };
    let negative = signed && s.get_char(0) == '-';
    let from: usize = if signed { 1 } else { 0 };
    let ghost b = unsigned_part(s@);
    assert(b =~= s@.subrange(from as int, n as int));
    let mut acc: u128 = 0;
    let mut too_big = false;
    let mut dots: usize = 0;
    let mut after: usize = 0;
    let mut ndigits: usize = 0;
    let mut i: usize = from;
    while i < n
        invariant
            from <= i <= n,
            n == s@.len(),
            b == s@.subrange(from as int, n as int),
            b == unsigned_part(s@),
            forall|k: int| 0 <= k < i - from ==> is_digit(#[trigger] b[k]) || b[k] == '.',
            dots as nat == dot_count(b.subrange(0, i - from)),
            dots <= 1,
            after as nat == chars_after_dot(b.subrange(0, i - from)),
            after <= i,
            ndigits as nat == digits_of(b.subrange(0, i - from)).len(),
            ndigits <= i,
            !too_big ==> acc as int == digits_value(digits_of(b.subrange(0, i - from))),
            !too_big ==> acc <= 0x8000_0000_0000_0000,
            too_big ==> digits_value(digits_of(b.subrange(0, i - from))) > 0x8000_0000_0000_0000,
        decreases n - i,
    {
        let c = s.get_char(i);
        let ghost k = i - from;
        assert(c == b[k]);
        assert(b.subrange(0, k + 1).drop_last() =~= b.subrange(0, k));
        assert(b.subrange(0, k + 1).last() == c);
        if c == '.' {
            if dots == 1 {
                proof {
                    assert(dot_count(b.subrange(0, k + 1)) == 2);
                    lemma_digits_of_grow(b, k + 1, b.len() as int);
                    assert(b.subrange(0, b.len() as int) =~= b);
                }
                return None;
            }
            dots = dots + 1;
            after = 0;
        } else if '0' <= c && c <= '9' {
            proof {
                let ghost pre = digits_of(b.subrange(0, k));
                assert(digits_of(b.subrange(0, k + 1)) == pre.push(c));
                assert(pre.push(c).drop_last() =~= pre);
                assert(digits_value(pre.push(c)) == digits_value(pre) * 10 + digit_value(c));
            }
            ndigits = ndigits + 1;
            after = after + 1;
            if !too_big {
                let next = acc * 10 + (c as u32 - '0' as u32) as u128;
                if next > 0x8000_0000_0000_0000 {
                    too_big = true;
                } else {
                    acc = next;
                }
            } else {
                proof {
                    lemma_digits_of_grow(b, k, k + 1);
                }
            }
        } else {
            assert(!(is_digit(b[k]) || b[k] == '.'));
            return None;
        }
        i = i + 1;
    }
    assert(b.subrange(0, n - from) =~= b);
    if ndigits == 0 || too_big {
        return None;
    }
    let sc: usize = if dots == 1 { after } else { 0 };
    if sc > 18 {
        return None;
    }
    let v: i128 = if negative { -(acc as i128) } else { acc as i128 };
    if v < -0x8000_0000_0000_0000 || v > 0x7fff_ffff_ffff_ffff {
        return None;
    }
    Some(Decimal { mantissa: v as i64, scale: sc as u32 })
}


/// How a `Decimal` is written: sign, digits, and exactly `scale` digits after the point.
pub open spec fn decimal_text(d: Decimal) -> Seq<char> {
    scaled_text(d.mantissa < 0, (if d.mantissa < 0 { -d.mantissa } else { d.mantissa as int }) as nat, d.scale as nat)
}

impl Decimal {
    /// The decimal in text, as `decimal_text` writes it.
    pub fn to_text(&self) -> (r: String)
        ensures
            r@ == decimal_text(*self),
    {
        let m = self.mantissa as i128;
        let mag: u128 = if m < 0 { (-m) as u128 } else { m as u128 };
        scaled_to_string(m < 0, mag, self.scale)
    }
}

proof fn lemma_digit_run(x: Seq<char>)
    requires
        all_digits(x),
    ensures
        digits_of(x) == x,
        dot_count(x) == 0,
        chars_after_dot(x) == x.len(),
    decreases x.len(),
{
    if x.len() > 0 {
        lemma_digit_run(x.drop_last());
        assert(x.drop_last().push(x.last()) =~= x);
    }
}

proof fn lemma_concat_parts(x: Seq<char>, y: Seq<char>)
    ensures
        digits_of(x + y) == digits_of(x) + digits_of(y),
        dot_count(x + y) == dot_count(x) + dot_count(y),
        dot_count(y) == 0 ==> chars_after_dot(x + y) == chars_after_dot(x) + y.len(),
    decreases y.len(),
{
    if y.len() == 0 {
        assert(x + y =~= x);
        assert(digits_of(x) + digits_of(y) =~= digits_of(x));
    } else {
        assert((x + y).drop_last() =~= x + y.drop_last());
        assert((x + y).last() == y.last());
        lemma_concat_parts(x, y.drop_last());
        if is_digit(y.last()) {
            assert(digits_of(x) + digits_of(y.drop_last()).push(y.last())
                =~= (digits_of(x) + digits_of(y.drop_last())).push(y.last()));
        }
    }
}

proof fn lemma_plain_round_trip(d: Decimal)
    requires
        d.wf(),
    ensures
        plain_decimal_of(decimal_text(d)) == Some(d),
        forall|i: int| 0 <= i < decimal_text(d).len() ==> #[trigger] decimal_text(d)[i] != 'e' && decimal_text(d)[i] != 'E',
{
    let neg = d.mantissa < 0;
    let mag: nat = (if neg { -d.mantissa } else { d.mantissa as int }) as nat;
    let sc = d.scale as nat;
    let sign = if neg { seq!['-'] } else { Seq::<char>::empty() };
    lemma_pow10_pos(sc);
    let q = mag / pow10(sc);
    lemma_digits_text(q);
    lemma_digits_text(mag);
    lemma_fixed_digits(mag, sc);
    let body = if sc == 0 {
        digits_text(mag)
    } else {
        digits_text(q) + seq!['.'] + fixed_digits(mag, sc)
    };
    let t = decimal_text(d);
    assert(t =~= sign + body);
    assert(body.len() > 0 && is_digit(body[0]));
    assert(unsigned_part(t) =~= body);
    assert(forall|i: int| 0 <= i < body.len() ==> is_digit(#[trigger] body[i]) || body[i] == '.');
    assert forall|i: int| 0 <= i < t.len() implies #[trigger] t[i] != 'e' && t[i] != 'E' by {
        if i >= sign.len() {
            assert(t[i] == body[i - sign.len()]);
        }
    }
    if sc == 0 {
        lemma_digit_run(digits_text(mag));
    } else {
        let a = digits_text(q);
        let f = fixed_digits(mag, sc);
        lemma_digit_run(a);
        lemma_digit_run(f);
        let dot = seq!['.'];
        assert(dot.drop_last() =~= Seq::<char>::empty());
        assert(dot.last() == '.');
        assert(digits_of(Seq::<char>::empty()) =~= Seq::<char>::empty());
        assert(dot_count(Seq::<char>::empty()) == 0);
        assert(digits_of(dot) == digits_of(dot.drop_last()));
        assert(digits_of(dot) =~= Seq::<char>::empty());
        assert(dot_count(dot) == 1);
        lemma_concat_parts(a, dot);
        assert(chars_after_dot(a + dot) == 0);
        lemma_concat_parts(a + dot, f);
        assert(digits_of(body) =~= a + f);
        lemma_digits_value_concat(a, f);
        assert(q * pow10(sc) + mag % pow10(sc) == mag) by {
            vstd::arithmetic::div_mod::lemma_fundamental_div_mod(mag as int, pow10(sc) as int);
        }
        assert(dot_count(body) == 1);
        assert(chars_after_dot(body) == sc);
    }
    assert(digits_value(digits_of(body)) == mag);
    assert(has_sign(t) == neg);
    assert(neg ==> t[0] == '-');
}

/// Index of the last `e` or `E` in `s`, or -1.
pub open spec fn exponent_mark(s: Seq<char>) -> int
    decreases s.len(),
{
    if s.len() == 0 {
        -1
    } else if s.last() == 'e' || s.last() == 'E' {
        s.len() - 1
    } else {
        exponent_mark(s.drop_last())
    }
}

proof fn lemma_exponent_mark_bounds(s: Seq<char>)
    ensures
        -1 <= exponent_mark(s) < s.len(),
        (forall|i: int| 0 <= i < s.len() ==> #[trigger] s[i] != 'e' && s[i] != 'E') ==> exponent_mark(s) == -1,
    decreases s.len(),
{
    if s.len() > 0 {
        lemma_exponent_mark_bounds(s.drop_last());
        assert forall|i: int| 0 <= i < s.drop_last().len() implies s.drop_last()[i] == s[i] by {}
    }
}

/// `d` times ten to the power `e`, kept exactly: the scale drops by `e`; where
/// it would fall below zero the mantissa is multiplied out instead.
pub open spec fn scaled_by(d: Decimal, e: int) -> Option<Decimal> {
    let sc = d.scale - e;
    if 0 <= sc <= MAX_SCALE {
        Some(Decimal { mantissa: d.mantissa, scale: sc as u32 })
    } else if sc > MAX_SCALE {
        None
    } else {
        let v = d.mantissa * pow10((-sc) as nat);
        if i64::MIN <= v <= i64::MAX { Some(Decimal { mantissa: v as i64, scale: 0 }) } else { None }
    }
}

/// The decimal that `s` writes: a number as `plain_decimal_of` reads it,
/// optionally followed by `e` or `E` and a 64-bit exponent of ten; the result
/// must still be a `Decimal` whose scale is at most `MAX_SCALE`.
pub open spec fn decimal_of(s: Seq<char>) -> Option<Decimal> {
    let k = exponent_mark(s);
    if k < 0 {
        plain_decimal_of(s)
    } else {
        match (plain_decimal_of(s.subrange(0, k)), int_in_range(s.subrange(k + 1, s.len() as int), true, i64::MIN as int, i64::MAX as int)) {
            (Some(d), Some(e)) => scaled_by(d, e),
            _ => None,
        }
    }
}

fn exponent_mark_index(s: &str) -> (r: Option<usize>)
    ensures
        match r {
            Some(i) => i as int == exponent_mark(s@),
            None => exponent_mark(s@) < 0,
        },
{
    let n = s.unicode_len();
    let mut found: Option<usize> = None;
    let mut i: usize = 0;
    while i < n
        invariant
            i <= n,
            n == s@.len(),
            match found {
                Some(k) => k as int == exponent_mark(s@.subrange(0, i as int)),
                None => exponent_mark(s@.subrange(0, i as int)) < 0,
            },
        decreases n - i,
    {
        let ghost pre = s@.subrange(0, i as int + 1);
        assert(pre.drop_last() =~= s@.subrange(0, i as int));
        let c = s.get_char(i);
        if c == 'e' || c == 'E' {
            found = Some(i);
        }
        i = i + 1;
    }
    assert(s@.subrange(0, n as int) =~= s@);
    found
}

/// Parses a decimal number written as `decimal_of` describes.
pub fn parse_decimal(s: &str) -> (r: Option<Decimal>)
    ensures
        r == decimal_of(s@),
        r matches Some(d) ==> d.wf(),
{
    let k = match exponent_mark_index(s) {
        None => return parse_plain_decimal(s),
        Some(k) => k,
    };
    proof {
        lemma_exponent_mark_bounds(s@);
    }
    let n = s.unicode_len();
    let d = match parse_plain_decimal(s.substring_char(0, k)) {
        Some(d) => d,
        None => return None,
    };
    let e = match parse_int_in_range(s.substring_char(k + 1, n), true, i64::MIN, i64::MAX) {
        Some(e) => e,
        None => return None,
    };
    let sc: i128 = d.scale as i128 - e as i128;
    if sc >= 0 {
        if sc <= 18 {
            return Some(Decimal { mantissa: d.mantissa, scale: sc as u32 });
        }
        return None;
    }
    if d.mantissa == 0 {
        proof {
            let k2 = (-sc) as nat;
            assert(d.mantissa as int * pow10(k2) == 0) by (nonlinear_arith)
                requires
                    d.mantissa == 0,
            ;
        }
        return Some(Decimal { mantissa: 0, scale: 0 });
    }
    if sc < -18 {
        proof {
            let k2 = (-sc) as nat;
            lemma_pow10_mono(19, k2);
            lemma_pow10_19();
            let m = d.mantissa as int;
            assert(m * pow10(k2) > i64::MAX || m * pow10(k2) < i64::MIN) by (nonlinear_arith)
                requires
                    m != 0,
                    pow10(k2) >= 10_000_000_000_000_000_000,
            ;
        }
        return None;
    }
    proof {
        lemma_pow10_mono((-sc) as nat, 18);
        lemma_pow10_pos((-sc) as nat);
        lemma_pow10_18();
    }
    let p = pow10_u128((-sc) as u32) as i128;
    proof {
        assert(-0x8000_0000_0000_0000 * 1_000_000_000_000_000_000 <= d.mantissa as int * p <= 0x7fff_ffff_ffff_ffff * 1_000_000_000_000_000_000)
            by (nonlinear_arith)
            requires
                1 <= p <= 1_000_000_000_000_000_000,
                -0x8000_0000_0000_0000 <= d.mantissa <= 0x7fff_ffff_ffff_ffff,
        ;
    }
    let v = d.mantissa as i128 * p;
    if v < -0x8000_0000_0000_0000 || v > 0x7fff_ffff_ffff_ffff {
        return None;
    }
    Some(Decimal { mantissa: v as i64, scale: 0 })
}

proof fn lemma_pow10_18()
    ensures
        pow10(18) == 1_000_000_000_000_000_000nat,
{
    reveal_with_fuel(pow10, 19);
}

proof fn lemma_pow10_19()
    ensures
        pow10(19) == 10_000_000_000_000_000_000nat,
{
    reveal_with_fuel(pow10, 20);
}

/// A decimal reads back from its own text as the same decimal.
pub proof fn lemma_decimal_text_round_trip(d: Decimal)
    requires
        d.wf(),
    ensures
        decimal_of(decimal_text(d)) == Some(d),
{
    lemma_plain_round_trip(d);
    lemma_exponent_mark_bounds(decimal_text(d));
}

} // verus!
