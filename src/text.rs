//! Character-level helpers: decimal digits, integer text, comparison and
//! building of strings.
use vstd::prelude::*;

verus! {

pub open spec fn is_digit(c: char) -> bool {
    '0' <= c && c <= '9'
}

pub open spec fn digit_value(c: char) -> int {
    c as int - '0' as int
}

pub open spec fn all_digits(s: Seq<char>) -> bool {
    forall|i: int| 0 <= i < s.len() ==> is_digit(#[trigger] s[i])
}

/// The number that a run of decimal digits denotes.
pub open spec fn digits_value(s: Seq<char>) -> int
    decreases s.len(),
{
    if s.len() == 0 {
        0
    } else {
        digits_value(s.drop_last()) * 10 + digit_value(s.last())
    }
}

/// What std's integer parsing makes of `s`, before the range check: an optional
/// `+` (or `-` when `signed`) followed by at least one digit.
pub open spec fn int_text_value(s: Seq<char>, signed: bool) -> Option<int> {
    if s.len() == 0 {
        None
    } else if s[0] == '+' || (signed && s[0] == '-') {
        let d = s.drop_first();
        if d.len() > 0 && all_digits(d) {
            Some(if s[0] == '-' { -digits_value(d) } else { digits_value(d) })
        } else {
            None
        }
    } else if all_digits(s) {
        Some(digits_value(s))
    } else {
        None
    }
}

/// An integer in `[lo, hi]` written as `s`.
pub open spec fn int_in_range(s: Seq<char>, signed: bool, lo: int, hi: int) -> Option<int> {
    match int_text_value(s, signed) {
        Some(v) => if lo <= v <= hi { Some(v) } else { None },
        None => None,
    }
}

pub proof fn lemma_digits_value_nonneg(s: Seq<char>)
    requires
        all_digits(s),
    ensures
        digits_value(s) >= 0,
    decreases s.len(),
{
    if s.len() > 0 {
        lemma_digits_value_nonneg(s.drop_last());
    }
}

/// A longer run of digits never denotes less than its prefix.
pub proof fn lemma_digits_value_prefix(s: Seq<char>, k: int)
    requires
        all_digits(s),
        0 <= k <= s.len(),
    ensures
        digits_value(s.subrange(0, k)) <= digits_value(s),
    decreases s.len(),
{
    if k < s.len() {
        assert(s.drop_last() =~= s.subrange(0, s.len() - 1));
        assert(s.subrange(0, k) =~= s.drop_last().subrange(0, k));
        lemma_digits_value_prefix(s.drop_last(), k);
        lemma_digits_value_nonneg(s.drop_last());
    } else {
        assert(s.subrange(0, k) =~= s);
    }
}

/// Magnitude of the digits `s[from..]`, or `None` once it exceeds `cap`.
fn digits_magnitude(s: &str, from: usize, cap: u128) -> (r: Option<u128>)
    requires
        from <= s@.len(),
        all_digits(s@.subrange(from as int, s@.len() as int)),
        cap < 0x1_0000_0000_0000_0000_0000_0000_0000,
    ensures
        match r {
            Some(m) => m as int == digits_value(s@.subrange(from as int, s@.len() as int)) && m <= cap,
            None => digits_value(s@.subrange(from as int, s@.len() as int)) > cap,
        },
{
    let n = s.unicode_len();
    let ghost d = s@.subrange(from as int, s@.len() as int);
    let mut acc: u128 = 0;
    let mut i: usize = from;
    while i < n
        invariant
            from <= i <= n,
            n == s@.len(),
            d == s@.subrange(from as int, s@.len() as int),
            all_digits(d),
            acc <= cap,
            cap < 0x1_0000_0000_0000_0000_0000_0000_0000,
            acc as int == digits_value(d.subrange(0, i - from)),
        decreases n - i,
    {
        let c = s.get_char(i);
        assert(c == d[i - from]);
        let dv = (c as u32 - '0' as u32) as u128;
        assert(d.subrange(0, i - from + 1).drop_last() =~= d.subrange(0, i - from));
        let next = acc * 10 + dv;
        if next > cap {
            proof {
                lemma_digits_value_prefix(d, i - from + 1);
            }
            return None;
        }
        acc = next;
        i = i + 1;
    }
    assert(d.subrange(0, n - from) =~= d);
    Some(acc)
}

/// std's parsing of an integer in `[lo, hi]` from `s`.
pub fn parse_int_in_range(s: &str, signed: bool, lo: i64, hi: i64) -> (r: Option<i64>)
    requires
        lo <= hi,
    ensures
        match int_in_range(s@, signed, lo as int, hi as int) {
            Some(v) => r == Some(v as i64),
            None => r.is_none(),
        },
{
    let n = s.unicode_len();
    if n == 0 {
        return None;
    }
    let c0 = s.get_char(0);
    let has_sign = c0 == '+' || (signed && c0 == '-');
    let from: usize = if has_sign { 1 } else { 0 };
    if from == n {
        assert(s@.drop_first().len() == 0);
        return None;
    }
    let mut i: usize = from;
    while i < n
        invariant
            from <= i <= n,
            n == s@.len(),
            n > 0,
            c0 == s@[0],
            has_sign == (c0 == '+' || (signed && c0 == '-')),
            from == (if has_sign { 1usize } else { 0usize }),
            forall|j: int| from <= j < i ==> is_digit(#[trigger] s@[j]),
        decreases n - i,
    {
        let c = s.get_char(i);
        if !('0' <= c && c <= '9') {
            proof {
                if has_sign {
                    let ghost t = s@.drop_first();
                    assert(t[i - 1] == s@[i as int]);
                    assert(!is_digit(t[i - 1]));
                } else {
                    assert(s@[i as int] == c);
                }
            }
            return None;
        }
        i = i + 1;
    }
    let ghost d = s@.subrange(from as int, s@.len() as int);
    assert(all_digits(d));
    proof {
        if has_sign {
            assert(d =~= s@.drop_first());
        } else {
            assert(d =~= s@);
        }
    }
    match digits_magnitude(s, from, 0x8000_0000_0000_0000) {
        None => None,
        Some(m) => {
            let v: i128 = if c0 == '-' { -(m as i128) } else { m as i128 };
            if (lo as i128) <= v && v <= (hi as i128) {
                Some(v as i64)
            } else {
                None
            }
        },
    }
}


pub open spec fn pow10(k: nat) -> nat
    decreases k,
{
    if k == 0 { 1 } else { 10 * pow10((k - 1) as nat) }
}

pub open spec fn digit_char(d: nat) -> char {
    ((d + 48) as u8) as char
}

/// `n` in decimal, without leading zeros.
pub open spec fn digits_text(n: nat) -> Seq<char>
    decreases n,
{
    if n < 10 {
        seq![digit_char(n)]
    } else {
        digits_text(n / 10).push(digit_char(n % 10))
    }
}

/// The last `k` decimal digits of `n`, with leading zeros.
pub open spec fn fixed_digits(n: nat, k: nat) -> Seq<char>
    decreases k,
{
    if k == 0 {
        Seq::empty()
    } else {
        fixed_digits(n / 10, (k - 1) as nat).push(digit_char(n % 10))
    }
}

/// The number `±mag / 10^scale` in decimal notation, with exactly `scale`
/// digits after the point (and no point when `scale` is zero).
pub open spec fn scaled_text(negative: bool, mag: nat, scale: nat) -> Seq<char> {
    let sign = if negative { seq!['-'] } else { Seq::empty() };
    if scale == 0 {
        sign + digits_text(mag)
    } else {
        sign + digits_text(mag / pow10(scale)) + seq!['.'] + fixed_digits(mag, scale)
    }
}

/// An integer as std's `to_string` writes it.
pub open spec fn int_text(v: int) -> Seq<char> {
    scaled_text(v < 0, (if v < 0 { -v } else { v }) as nat, 0)
}

pub proof fn lemma_digit_char(d: nat)
    requires
        d < 10,
    ensures
        is_digit(digit_char(d)),
        digit_value(digit_char(d)) == d,
{
}

/// The digits of `x` followed by those of `y`.
pub proof fn lemma_digits_value_concat(x: Seq<char>, y: Seq<char>)
    ensures
        digits_value(x + y) == digits_value(x) * pow10(y.len()) + digits_value(y),
    decreases y.len(),
{
    if y.len() == 0 {
        assert(x + y =~= x);
        assert(pow10(0) == 1);
        assert(digits_value(y) == 0);
        assert(digits_value(x) * 1 == digits_value(x));
    } else {
        assert((x + y).drop_last() =~= x + y.drop_last());
        lemma_digits_value_concat(x, y.drop_last());
        assert((x + y).last() == y.last());
        let a = digits_value(x);
        let p = pow10((y.len() - 1) as nat);
        let b = digits_value(y.drop_last());
        let d = digit_value(y.last());
        assert((a * p + b) * 10 + d == a * (10 * p) + (b * 10 + d)) by (nonlinear_arith);
        assert(digits_value(x + y) == digits_value(x + y.drop_last()) * 10 + d);
        assert(digits_value(y) == b * 10 + d);
        assert(pow10(y.len()) == 10 * p);
    }
}

pub proof fn lemma_digits_text(n: nat)
    ensures
        all_digits(digits_text(n)),
        digits_value(digits_text(n)) == n,
        digits_text(n).len() >= 1,
    decreases n,
{
    if n < 10 {
        lemma_digit_char(n);
        assert(seq![digit_char(n)].drop_last() =~= Seq::<char>::empty());
        assert(seq![digit_char(n)].last() == digit_char(n));
        assert(digits_value(Seq::<char>::empty()) == 0);
    } else {
        lemma_digits_text(n / 10);
        lemma_digit_char(n % 10);
        let t = digits_text(n / 10);
        assert(t.push(digit_char(n % 10)).drop_last() =~= t);
        assert(n == (n / 10) * 10 + n % 10);
        assert forall|i: int| 0 <= i < digits_text(n).len() implies is_digit(#[trigger] digits_text(n)[i]) by {
            if i < t.len() {
                assert(digits_text(n)[i] == t[i]);
            }
        }
    }
}

pub proof fn lemma_fixed_digits(n: nat, k: nat)
    ensures
        all_digits(fixed_digits(n, k)),
        digits_value(fixed_digits(n, k)) == n % pow10(k),
        fixed_digits(n, k).len() == k,
    decreases k,
{
    if k > 0 {
        lemma_fixed_digits(n / 10, (k - 1) as nat);
        lemma_digit_char(n % 10);
        let t = fixed_digits(n / 10, (k - 1) as nat);
        assert(t.push(digit_char(n % 10)).drop_last() =~= t);
        assert forall|i: int| 0 <= i < fixed_digits(n, k).len() implies is_digit(#[trigger] fixed_digits(n, k)[i]) by {
            if i < t.len() {
                assert(fixed_digits(n, k)[i] == t[i]);
            }
        }
        let p = pow10((k - 1) as nat);
        lemma_pow10_pos((k - 1) as nat);
        assert((n / 10) % p * 10 + n % 10 == n % (10 * p)) by {
            vstd::arithmetic::div_mod::lemma_mod_breakdown(n as int, 10, p as int);
        }
    }
}

/// An integer reads back from its own text as the same integer.
pub proof fn lemma_int_text_round_trip(v: int, signed: bool, lo: int, hi: int)
    requires
        lo <= v <= hi,
        v < 0 ==> signed,
    ensures
        int_in_range(int_text(v), signed, lo, hi) == Some(v),
{
    let mag: nat = (if v < 0 { -v } else { v }) as nat;
    lemma_digits_text(mag);
    let d = digits_text(mag);
    let t = int_text(v);
    if v < 0 {
        assert(t =~= seq!['-'] + d);
        assert(t.drop_first() =~= d);
    } else {
        assert(t =~= d);
        assert(is_digit(t[0]));
    }
}

/// Decimal text starts with a sign or a digit and ends with a digit.
pub proof fn lemma_scaled_text_ends(negative: bool, mag: nat, scale: nat)
    ensures
        scaled_text(negative, mag, scale).len() > 0,
        scaled_text(negative, mag, scale)[0] == '-' || is_digit(scaled_text(negative, mag, scale)[0]),
        is_digit(scaled_text(negative, mag, scale).last()),
{
    let t = scaled_text(negative, mag, scale);
    let sign = if negative { seq!['-'] } else { Seq::<char>::empty() };
    lemma_pow10_pos(scale);
    lemma_digits_text(mag / pow10(scale));
    lemma_digits_text(mag);
    lemma_fixed_digits(mag, scale);
    if scale == 0 {
        assert(t == sign + digits_text(mag));
        assert(t.last() == digits_text(mag).last());
        if !negative {
            assert(t[0] == digits_text(mag)[0]);
        }
    } else {
        let a = digits_text(mag / pow10(scale));
        let f = fixed_digits(mag, scale);
        assert(t == sign + a + seq!['.'] + f);
        assert(t.last() == f.last());
        if !negative {
            assert(t[0] == a[0]);
        }
    }
}

/// Writes an integer as std's `to_string` does.
pub fn int_to_text(v: i64) -> (r: String)
    ensures
        r@ == int_text(v as int),
{
    let m = v as i128;
    let mag: u128 = if m < 0 { (-m) as u128 } else { m as u128 };
    scaled_to_string(m < 0, mag, 0)
}

/// `c` has the Unicode White_Space property, which is what std's `trim` removes.
pub open spec fn is_white_space(c: char) -> bool {
    ('\u{9}' <= c && c <= '\u{d}') || c == ' ' || c == '\u{85}' || c == '\u{a0}' || c == '\u{1680}'
        || ('\u{2000}' <= c && c <= '\u{200a}') || c == '\u{2028}' || c == '\u{2029}'
        || c == '\u{202f}' || c == '\u{205f}' || c == '\u{3000}'
}

/// The first index at or after `i` that does not hold white space.
pub open spec fn skip_white_forward(s: Seq<char>, i: int) -> int
    decreases s.len() - i,
{
    if 0 <= i < s.len() && is_white_space(s[i]) {
        skip_white_forward(s, i + 1)
    } else {
        i
    }
}

/// One past the last index before `j`, and not before `a`, that does not hold white space.
pub open spec fn skip_white_backward(s: Seq<char>, a: int, j: int) -> int
    decreases j - a,
{
    if a < j <= s.len() && is_white_space(s[j - 1]) {
        skip_white_backward(s, a, j - 1)
    } else {
        j
    }
}

/// `s` without white space at either end, as std's `trim` gives it.
pub open spec fn trimmed(s: Seq<char>) -> Seq<char> {
    let a = skip_white_forward(s, 0);
    s.subrange(a, skip_white_backward(s, a, s.len() as int))
}

/// Text that neither starts nor ends with white space is its own trim.
pub proof fn lemma_trimmed_unchanged(s: Seq<char>)
    requires
        s.len() > 0,
        !is_white_space(s[0]),
        !is_white_space(s.last()),
    ensures
        trimmed(s) == s,
{
    assert(s.subrange(0, s.len() as int) =~= s);
}

fn is_white_space_char(c: char) -> (r: bool)
    ensures
        r == is_white_space(c),
{
    ('\u{9}' <= c && c <= '\u{d}') || c == ' ' || c == '\u{85}' || c == '\u{a0}' || c == '\u{1680}'
        || ('\u{2000}' <= c && c <= '\u{200a}') || c == '\u{2028}' || c == '\u{2029}'
        || c == '\u{202f}' || c == '\u{205f}' || c == '\u{3000}'
}

/// `s` without white space at either end.
pub fn trim(s: &str) -> (r: &str)
    ensures
        r@ == trimmed(s@),
{
    let n = s.unicode_len();
    let mut a: usize = 0;
    while a < n && is_white_space_char(s.get_char(a))
        invariant
            a <= n,
            n == s@.len(),
            skip_white_forward(s@, a as int) == skip_white_forward(s@, 0),
        decreases n - a,
    {
        a = a + 1;
    }
    let mut b: usize = n;
    while b > a && is_white_space_char(s.get_char(b - 1))
        invariant
            a <= b <= n,
            n == s@.len(),
            a == skip_white_forward(s@, 0),
            skip_white_backward(s@, a as int, b as int) == skip_white_backward(s@, a as int, n as int),
        decreases b - a,
    {
        b = b - 1;
    }
    s.substring_char(a, b)
}

/// Whether two texts hold the same characters.
pub fn text_eq(a: &str, b: &str) -> (r: bool)
    ensures
        r == (a@ == b@),
{
    let n = a.unicode_len();
    if n != b.unicode_len() {
        return false;
    }
    let mut i: usize = 0;
    while i < n
        invariant
            i <= n,
            n == a@.len(),
            n == b@.len(),
            forall|j: int| 0 <= j < i ==> a@[j] == b@[j],
        decreases n - i,
    {
        if a.get_char(i) != b.get_char(i) {
            return false;
        }
        i = i + 1;
    }
    assert(a@ =~= b@);
    true
}

/// The fields of `s` between its commas: `"a,,b"` has the three fields `a`, ``, `b`.
pub open spec fn comma_fields(s: Seq<char>) -> Seq<Seq<char>>
    decreases s.len(),
{
    if s.len() == 0 {
        seq![Seq::empty()]
    } else if s.last() == ',' {
        comma_fields(s.drop_last()).push(Seq::empty())
    } else {
        let f = comma_fields(s.drop_last());
        f.update(f.len() - 1, f.last().push(s.last()))
    }
}

pub open spec fn views(v: Seq<String>) -> Seq<Seq<char>> {
    v.map_values(|x: String| x@)
}

/// Splits `s` at every comma.
pub fn split_commas(s: &str) -> (r: Vec<String>)
    ensures
        views(r@) == comma_fields(s@),
{
    let n = s.unicode_len();
    let mut done: Vec<String> = Vec::new();
    let mut cur = String::new();
    let mut i: usize = 0;
    assert(s@.subrange(0, 0) =~= Seq::<char>::empty());
    assert(views(done@).push(cur@) =~= comma_fields(Seq::<char>::empty()));
    while i < n
        invariant
            i <= n,
            n == s@.len(),
            views(done@).push(cur@) == comma_fields(s@.subrange(0, i as int)),
        decreases n - i,
    {
        let c = s.get_char(i);
        let ghost p = s@.subrange(0, i as int + 1);
        assert(p.drop_last() =~= s@.subrange(0, i as int));
        assert(p.last() == c);
        if c == ',' {
            let full = cur;
            done.push(full);
            cur = String::new();
            assert(views(done@).push(cur@) =~= comma_fields(p));
        } else {
            push_char(&mut cur, c);
            assert(views(done@).push(cur@) =~= comma_fields(p));
        }
        i = i + 1;
    }
    assert(s@.subrange(0, n as int) =~= s@);
    done.push(cur);
    assert(views(done@) =~= comma_fields(s@));
    done
}

/// Relies on `String::push`: appends one character.
#[verifier::external_body]
pub(crate) fn push_char(s: &mut String, c: char)
    ensures
        final(s)@ == old(s)@.push(c),
{
    s.push(c)
}

fn push_digit(out: &mut String, d: u128)
    requires
        d < 10,
    ensures
        final(out)@ == old(out)@.push(digit_char(d as nat)),
{
    push_char(out, ((d as u8) + 48u8) as char);
}

fn push_digits(out: &mut String, n: u128)
    ensures
        final(out)@ == old(out)@ + digits_text(n as nat),
    decreases n,
{
    if n < 10 {
        push_digit(out, n);
        assert(old(out)@.push(digit_char(n as nat)) =~= old(out)@ + digits_text(n as nat));
    } else {
        push_digits(out, n / 10);
        push_digit(out, n % 10);
        assert(old(out)@ + digits_text((n / 10) as nat) + seq![digit_char((n % 10) as nat)]
            =~= old(out)@ + digits_text(n as nat));
    }
}

fn push_fixed(out: &mut String, n: u128, k: u32)
    ensures
        final(out)@ == old(out)@ + fixed_digits(n as nat, k as nat),
    decreases k,
{
    if k == 0 {
        assert(old(out)@ + fixed_digits(n as nat, 0) =~= old(out)@);
    } else {
        push_fixed(out, n / 10, k - 1);
        push_digit(out, n % 10);
        assert(old(out)@ + fixed_digits((n / 10) as nat, (k - 1) as nat) + seq![digit_char((n % 10) as nat)]
            =~= old(out)@ + fixed_digits(n as nat, k as nat));
    }
}

pub fn pow10_u128(k: u32) -> (r: u128)
    requires
        k <= 38,
    ensures
        r as nat == pow10(k as nat),
{
    let mut r: u128 = 1;
    let mut i: u32 = 0;
    while i < k
        invariant
            i <= k <= 38,
            r as nat == pow10(i as nat),
            r <= 100_000_000_000_000_000_000_000_000_000_000_000_000u128,
        decreases k - i,
    {
        proof {
            lemma_pow10_bound(i as nat);
        }
        r = r * 10;
        i = i + 1;
    }
    r
}

pub proof fn lemma_pow10_pos(k: nat)
    ensures
        pow10(k) > 0,
    decreases k,
{
    if k > 0 {
        lemma_pow10_pos((k - 1) as nat);
    }
}

pub proof fn lemma_pow10_add(a: nat, b: nat)
    ensures
        pow10(a) * pow10(b) == pow10(a + b),
    decreases b,
{
    if b == 0 {
        assert(pow10(a) * 1 == pow10(a));
    } else {
        lemma_pow10_add(a, (b - 1) as nat);
        assert(pow10(a + b) == 10 * pow10((a + b - 1) as nat));
        assert(pow10(a) * (10 * pow10((b - 1) as nat)) == 10 * (pow10(a) * pow10((b - 1) as nat)))
            by (nonlinear_arith);
        assert((a + b - 1) as nat == (a + (b - 1) as nat) as nat);
    }
}

pub proof fn lemma_pow10_mono(a: nat, b: nat)
    requires
        a <= b,
    ensures
        pow10(a) <= pow10(b),
    decreases b - a,
{
    if a < b {
        lemma_pow10_mono(a, (b - 1) as nat);
        lemma_pow10_pos((b - 1) as nat);
    }
}

proof fn lemma_pow10_bound(k: nat)
    requires
        k < 38,
    ensures
        pow10(k) * 10 <= 100_000_000_000_000_000_000_000_000_000_000_000_000nat,
{
    lemma_pow10_mono(k + 1, 38);
    lemma_pow10_38();
}

#[verifier::rlimit(50)]
pub proof fn lemma_pow10_38()
    ensures
        pow10(38) == 100_000_000_000_000_000_000_000_000_000_000_000_000nat,
{
    reveal_with_fuel(pow10, 39);
}

pub open spec fn zeros(m: nat) -> Seq<char> {
    Seq::new(m, |i: int| '0')
}

/// Past the digits of `n`, `fixed_digits` pads with zeros.
proof fn lemma_fixed_digits_pad(n: nat, k: nat, m: nat)
    requires
        n < pow10(k),
    ensures
        fixed_digits(n, k + m) == zeros(m) + fixed_digits(n, k),
    decreases k, m,
{
    if k == 0 {
        if m > 0 {
            lemma_fixed_digits_pad(0, 0, (m - 1) as nat);
            assert(fixed_digits(0, 0) =~= Seq::<char>::empty());
            assert(zeros((m - 1) as nat).push(digit_char(0)) =~= zeros(m) + fixed_digits(0, 0));
        } else {
            assert(zeros(0) + fixed_digits(n, 0) =~= fixed_digits(n, 0));
        }
    } else {
        lemma_pow10_pos((k - 1) as nat);
        assert(n / 10 < pow10((k - 1) as nat)) by {
            vstd::arithmetic::div_mod::lemma_div_by_multiple_is_strongly_ordered(
                n as int, pow10(k) as int, pow10((k - 1) as nat) as int, 10);
            vstd::arithmetic::div_mod::lemma_div_by_multiple(pow10((k - 1) as nat) as int, 10);
        }
        lemma_fixed_digits_pad(n / 10, (k - 1) as nat, m);
        assert((k + m - 1) as nat == ((k - 1) as nat + m) as nat);
        assert((zeros(m) + fixed_digits(n / 10, (k - 1) as nat)).push(digit_char(n % 10))
            =~= zeros(m) + fixed_digits(n, k));
    }
}

proof fn lemma_below_pow10_38(n: nat, k: nat)
    requires
        n < 100_000_000_000_000_000_000_000_000_000_000_000_000nat,
        k >= 38,
    ensures
        n < pow10(k),
{
    lemma_pow10_38();
    lemma_pow10_mono(38, k);
}

/// Writes `±mag / 10^scale` as `scaled_text` does.
pub fn scaled_to_string(negative: bool, mag: u128, scale: u32) -> (r: String)
    requires
        scale > 38 ==> mag < 100_000_000_000_000_000_000_000_000_000_000_000_000u128,
    ensures
        r@ == scaled_text(negative, mag as nat, scale as nat),
{
    let mut out = String::new();
    if negative {
        push_char(&mut out, '-');
    }
    let ghost sign = out@;
    assert(sign =~= (if negative { seq!['-'] } else { Seq::<char>::empty() }));
    if scale == 0 {
        push_digits(&mut out, mag);
    } else if scale <= 38 {
        let p = pow10_u128(scale);
        proof {
            lemma_pow10_pos(scale as nat);
        }
        push_digits(&mut out, mag / p);
        push_char(&mut out, '.');
        push_fixed(&mut out, mag, scale);
    } else {
        proof {
            lemma_below_pow10_38(mag as nat, scale as nat);
            lemma_below_pow10_38(mag as nat, 38);
            lemma_fixed_digits_pad(mag as nat, 38, (scale - 38) as nat);
            vstd::arithmetic::div_mod::lemma_basic_div(mag as int, pow10(scale as nat) as int);
            assert((38 + (scale - 38)) as nat == scale as nat);
        }
        push_digits(&mut out, 0);
        push_char(&mut out, '.');
        let ghost before = out@;
        let mut i: u32 = 38;
        while i < scale
            invariant
                38 <= i <= scale,
                out@ == before + zeros((i - 38) as nat),
            decreases scale - i,
        {
            push_char(&mut out, '0');
            assert(before + zeros((i - 38) as nat) + seq!['0'] =~= before + zeros((i + 1 - 38) as nat));
            i = i + 1;
        }
        push_fixed(&mut out, mag, 38);
        assert(before + zeros((scale - 38) as nat) + fixed_digits(mag as nat, 38)
            =~= before + fixed_digits(mag as nat, scale as nat));
        assert(out@ =~= sign + digits_text(0) + seq!['.'] + fixed_digits(mag as nat, scale as nat));
    }
    out
}

/// `v / 10^scale` in decimal notation with exactly `scale` digits after the point.
pub open spec fn fixed_point_text(v: int, scale: nat) -> Seq<char> {
    scaled_text(v < 0, (if v < 0 { -v } else { v }) as nat, scale)
}

/// Writes `v / 10^scale` as `fixed_point_text` does.
pub fn fixed_point_to_text(v: i128, scale: u32) -> (r: String)
    requires
        scale <= 38,
    ensures
        r@ == fixed_point_text(v as int, scale as nat),
{
    let mag: u128 = if v < 0 {
        if v == i128::MIN { 0x8000_0000_0000_0000_0000_0000_0000_0000u128 } else { (-v) as u128 }
    } else {
        v as u128
    };
    scaled_to_string(v < 0, mag, scale)
}

} // verus!
