use vstd::prelude::*;
use vstd::arithmetic::div_mod::{
    lemma_div_denominator, lemma_div_is_ordered, lemma_fundamental_div_mod_converse_div,
    lemma_hoist_over_denominator,
};
use vstd::string::StringSliceAdditionalSpecFns;
use crate::error::{AppError, AppResult};

verus! {

/// Integer parts this large or larger give a size beyond `u32::MAX` for any
/// nonzero width.
pub const INT_CAP: u128 = 1_000_000_000_000;

/// `2^128 - 2^103`: the least value that rounds to infinity as an `f32`.
pub const F32_OVERFLOW: u128 = 340282356779733661637539395458142568448;

pub open spec fn is_digit(c: u8) -> bool {
    48 <= c <= 57
}

pub open spec fn all_digits(s: Seq<u8>) -> bool {
    forall|i: int| 0 <= i < s.len() ==> is_digit(#[trigger] s[i])
}

pub open spec fn pow10(n: nat) -> nat
    decreases n,
{
    if n == 0 {
        1
    } else {
        10 * pow10((n - 1) as nat)
    }
}

/// The value of a string of decimal digits.
pub open spec fn digits_val(s: Seq<u8>) -> nat
    decreases s.len(),
{
    if s.len() == 0 {
        0
    } else {
        digits_val(s.drop_last()) * 10 + (s.last() - 48) as nat
    }
}

/// The specifier ends in `%`: a percentage of the reference width.
pub open spec fn percent_unit(b: Seq<u8>) -> bool {
    b.len() >= 1 && b.last() == 37
}

/// The specifier ends in `px`: an absolute number of pixels.
pub open spec fn pixel_unit(b: Seq<u8>) -> bool {
    !percent_unit(b) && b.len() >= 2 && b[b.len() - 2] == 112 && b.last() == 120
}

/// The specifier without its unit suffix.
pub open spec fn numeral(b: Seq<u8>) -> Seq<u8> {
    if percent_unit(b) {
        b.drop_last()
    } else if pixel_unit(b) {
        b.take(b.len() - 2)
    } else {
        b
    }
}

pub open spec fn signed(u: Seq<u8>) -> bool {
    u.len() > 0 && (u[0] == 43 || u[0] == 45)
}

pub open spec fn negative(u: Seq<u8>) -> bool {
    u.len() > 0 && u[0] == 45
}

/// A numeral without its sign.
pub open spec fn unsigned_part(u: Seq<u8>) -> Seq<u8> {
    if signed(u) {
        u.drop_first()
    } else {
        u
    }
}

/// How many digits `t` starts with.
pub open spec fn lead_digits(t: Seq<u8>) -> nat
    decreases t.len(),
{
    if t.len() > 0 && is_digit(t[0]) {
        1 + lead_digits(t.drop_first())
    } else {
        0
    }
}

pub open spec fn int_digits(t: Seq<u8>) -> Seq<u8> {
    t.take(lead_digits(t) as int)
}

pub open spec fn frac_digits(t: Seq<u8>) -> Seq<u8> {
    if lead_digits(t) < t.len() {
        t.skip(lead_digits(t) + 1int)
    } else {
        Seq::empty()
    }
}

/// `t` is digits, optionally a point and more digits, with a digit somewhere.
pub open spec fn well_formed(t: Seq<u8>) -> bool {
    &&& (lead_digits(t) == t.len() || (t[lead_digits(t) as int] == 46 && all_digits(frac_digits(t))))
    &&& int_digits(t).len() + frac_digits(t).len() > 0
}

/// The decimal mantissa `t` times `10^frac_digits(t).len()`.
pub open spec fn scaled_num(t: Seq<u8>) -> nat {
    digits_val(int_digits(t)) * pow10(frac_digits(t).len()) + digits_val(frac_digits(t))
}

pub open spec fn is_exp_mark(c: u8) -> bool {
    c == 101 || c == 69
}

/// How many bytes of `t` come before its first `e` or `E`.
pub open spec fn mark_at(t: Seq<u8>) -> nat
    decreases t.len(),
{
    if t.len() > 0 && !is_exp_mark(t[0]) {
        1 + mark_at(t.drop_first())
    } else {
        0
    }
}

pub open spec fn mantissa(t: Seq<u8>) -> Seq<u8> {
    t.take(mark_at(t) as int)
}

pub open spec fn has_exponent(t: Seq<u8>) -> bool {
    mark_at(t) < t.len()
}

pub open spec fn exponent_text(t: Seq<u8>) -> Seq<u8> {
    t.skip(mark_at(t) + 1int)
}

/// An exponent: an optional sign, then at least one digit.
pub open spec fn exponent_ok(x: Seq<u8>) -> bool {
    unsigned_part(x).len() > 0 && all_digits(unsigned_part(x))
}

pub open spec fn exponent(t: Seq<u8>) -> int {
    if !has_exponent(t) {
        0
    } else if negative(exponent_text(t)) {
        -(digits_val(unsigned_part(exponent_text(t))) as int)
    } else {
        digits_val(unsigned_part(exponent_text(t))) as int
    }
}

/// A decimal mantissa, optionally followed by an exponent.
pub open spec fn number_ok(t: Seq<u8>) -> bool {
    well_formed(mantissa(t)) && (has_exponent(t) ==> exponent_ok(exponent_text(t)))
}

/// The power of ten that the mantissa's digits, read as an integer, are scaled by.
pub open spec fn point_shift(t: Seq<u8>) -> int {
    exponent(t) - frac_digits(mantissa(t)).len()
}

/// `n * 10^q` is `num_of(n, q) / den_of(q)`.
pub open spec fn num_of(n: nat, q: int) -> nat {
    if q >= 0 {
        n * pow10(q as nat)
    } else {
        n
    }
}

pub open spec fn den_of(q: int) -> nat {
    if q >= 0 {
        1
    } else {
        pow10((-q) as nat)
    }
}

/// The number `t` is `value_num(t) / value_den(t)`.
pub open spec fn value_num(t: Seq<u8>) -> nat {
    num_of(scaled_num(mantissa(t)), point_shift(t))
}

pub open spec fn value_den(t: Seq<u8>) -> nat {
    den_of(point_shift(t))
}

pub open spec fn pow2(n: nat) -> nat
    decreases n,
{
    if n == 0 {
        1
    } else {
        2 * pow2((n - 1) as nat)
    }
}

/// `(2^24 - 1) / 2^150`, that is `2^-126 - 2^-150`, is the least value that
/// rounds to a normal `f32`; this is its numerator.
pub const F32_MIN_NORMAL_NUM: u128 = 16777215;

/// The specifier is a well-formed, strictly positive number with an optional
/// unit, normal and finite as an `f32`.
pub open spec fn size_accepted(b: Seq<u8>) -> bool {
    let u = numeral(b);
    let t = unsigned_part(u);
    &&& number_ok(t)
    &&& !negative(u)
    &&& value_num(t) > 0
    &&& value_num(t) < F32_OVERFLOW * value_den(t)
    &&& value_num(t) * pow2(150) >= F32_MIN_NORMAL_NUM * value_den(t)
}

/// `floor(multiplier * number)`, where the multiplier is `width / 100` for a
/// percentage and one otherwise, computed exactly.
pub open spec fn resolved(b: Seq<u8>, width: nat) -> nat {
    let t = unsigned_part(numeral(b));
    if percent_unit(b) {
        (width * value_num(t)) / (100 * value_den(t))
    } else {
        value_num(t) / value_den(t)
    }
}

/// A size as an unsigned 32-bit integer, saturating.
pub open spec fn clamp_u32(x: nat) -> u32 {
    if x > u32::MAX {
        u32::MAX
    } else {
        x as u32
    }
}

proof fn lemma_pow10_pos(n: nat)
    ensures
        pow10(n) > 0,
    decreases n,
{
    if n > 0 {
        lemma_pow10_pos((n - 1) as nat);
    }
}

proof fn lemma_digits_below(s: Seq<u8>)
    requires
        all_digits(s),
    ensures
        digits_val(s) < pow10(s.len()),
    decreases s.len(),
{
    if s.len() > 0 {
        assert(all_digits(s.drop_last()));
        lemma_digits_below(s.drop_last());
    }
}

proof fn lemma_digits_prepend(d: u8, s: Seq<u8>)
    requires
        is_digit(d),
    ensures
        digits_val(seq![d] + s) == (d - 48) * pow10(s.len()) + digits_val(s),
    decreases s.len(),
{
    let t = seq![d] + s;
    if s.len() == 0 {
        assert(t.drop_last() =~= Seq::<u8>::empty());
        assert(t.last() == d);
        assert(digits_val(t.drop_last()) == 0);
        assert(digits_val(t) == (d - 48) as nat);
        assert(pow10(s.len()) == 1);
        assert(digits_val(s) == 0);
    } else {
        assert(t.drop_last() =~= seq![d] + s.drop_last());
        lemma_digits_prepend(d, s.drop_last());
        let p = pow10((s.len() - 1) as nat);
        let x = (d - 48) as int;
        let v = digits_val(s.drop_last()) as int;
        assert((x * p + v) * 10 == x * (10 * p) + v * 10) by (nonlinear_arith);
        assert(t.last() == s.last());
        assert(pow10(s.len()) == 10 * p);
        assert(digits_val(s) == v * 10 + (s.last() - 48) as nat);
        assert(digits_val(t) == digits_val(t.drop_last()) * 10 + (t.last() - 48) as nat);
        assert(digits_val(t.drop_last()) == x * p + v);
        assert(digits_val(t) == x * pow10(s.len()) + digits_val(s));
    }
}

proof fn lemma_lead_digits(t: Seq<u8>, p: int)
    requires
        0 <= p <= t.len(),
        all_digits(t.take(p)),
        p == t.len() || !is_digit(t[p]),
    ensures
        lead_digits(t) == p,
    decreases p,
{
    if p > 0 {
        assert(is_digit(t.take(p)[0]));
        let r = t.drop_first();
        assert(r.take(p - 1) =~= t.take(p).drop_first());
        assert forall|i: int| 0 <= i < p - 1 implies is_digit(#[trigger] r.take(p - 1)[i]) by {
            assert(t.take(p)[i + 1] == r.take(p - 1)[i]);
        }
        lemma_lead_digits(r, p - 1);
    }
}

/// `(a*d + b) / (m*d) == (a + b/d) / m`.
proof fn lemma_div_split(a: nat, b: nat, d: nat, m: nat)
    requires
        d > 0,
        m > 0,
    ensures
        (a * d + b) / (m * d) == (a + b / d) / m,
{
    lemma_hoist_over_denominator(b as int, a as int, d);
    assert(b + a * d == a * d + b);
    lemma_div_denominator((a * d + b) as int, d as int, m as int);
    assert(d * m == m * d) by (nonlinear_arith);
}

proof fn lemma_digits_concat(a: Seq<u8>, b: Seq<u8>)
    ensures
        digits_val(a + b) == digits_val(a) * pow10(b.len()) + digits_val(b),
    decreases b.len(),
{
    if b.len() == 0 {
        assert(a + b =~= a);
        assert(pow10(0) == 1);
        assert(digits_val(b) == 0);
    } else {
        assert((a + b).drop_last() =~= a + b.drop_last());
        assert((a + b).last() == b.last());
        lemma_digits_concat(a, b.drop_last());
        let x = digits_val(a) as int;
        let p = pow10((b.len() - 1) as nat) as int;
        let v = digits_val(b.drop_last()) as int;
        assert((x * p + v) * 10 == x * (p * 10) + v * 10) by (nonlinear_arith);
        assert(pow10(b.len()) == 10 * p);
        assert(digits_val(b) == v * 10 + (b.last() - 48) as nat);
        assert(digits_val(a + b) == digits_val(a + b.drop_last()) * 10 + ((a + b).last() - 48) as nat);
    }
}

pub open spec fn zeros(j: nat) -> Seq<u8> {
    Seq::new(j, |i: int| 48u8)
}

proof fn lemma_zeros(j: nat)
    ensures
        digits_val(zeros(j)) == 0,
        all_digits(zeros(j)),
    decreases j,
{
    if j > 0 {
        assert(zeros(j).drop_last() =~= zeros((j - 1) as nat));
        lemma_zeros((j - 1) as nat);
    }
}

proof fn lemma_pow10_add(a: nat, b: nat)
    ensures
        pow10(a + b) == pow10(a) * pow10(b),
    decreases b,
{
    if b == 0 {
        assert(pow10(0) == 1);
        assert(a + b == a);
    } else {
        lemma_pow10_add(a, (b - 1) as nat);
        assert(pow10(a + b) == 10 * pow10((a + b - 1) as nat));
        let x = pow10(a) as int;
        let y = pow10((b - 1) as nat) as int;
        assert(10 * (x * y) == x * (10 * y)) by (nonlinear_arith);
    }
}

proof fn lemma_pow10_mono(a: nat, b: nat)
    requires
        a <= b,
    ensures
        pow10(a) <= pow10(b),
{
    lemma_pow10_add(a, (b - a) as nat);
    lemma_pow10_pos((b - a) as nat);
    lemma_pow10_pos(a);
    let x = pow10(a) as int;
    let y = pow10((b - a) as nat) as int;
    assert(x <= x * y) by (nonlinear_arith)
        requires
            x > 0,
            y >= 1,
    ;
}

/// A digit string with a nonzero first digit is at least `10^(len - 1)`.
proof fn lemma_digits_above(s: Seq<u8>)
    requires
        s.len() > 0,
        is_digit(s[0]),
        s[0] != 48,
    ensures
        digits_val(s) >= pow10((s.len() - 1) as nat),
{
    assert(s =~= seq![s[0]] + s.drop_first());
    lemma_digits_prepend(s[0], s.drop_first());
    let p = pow10((s.len() - 1) as nat) as int;
    assert((s[0] - 48) * p >= p) by (nonlinear_arith)
        requires
            s[0] - 48 >= 1,
            p >= 0,
    ;
}

proof fn lemma_mark_at(t: Seq<u8>, p: int)
    requires
        0 <= p <= t.len(),
        forall|i: int| 0 <= i < p ==> !is_exp_mark(#[trigger] t[i]),
        p == t.len() || is_exp_mark(t[p]),
    ensures
        mark_at(t) == p,
    decreases p,
{
    if p > 0 {
        let r = t.drop_first();
        assert forall|i: int| 0 <= i < p - 1 implies !is_exp_mark(#[trigger] r[i]) by {
            assert(r[i] == t[i + 1]);
        }
        lemma_mark_at(r, p - 1);
    }
}

fn is_digit_byte(c: u8) -> (r: bool)
    ensures
        r == is_digit(c),
{
    48 <= c && c <= 57
}

fn not_a_number() -> (e: AppError)
    ensures
        e is ArgError,
{
    AppError::ArgError(String::from_str("size must be a number of pixels or x%"))
}

/// The leading digits of `b[start..end]`: where they stop, and their value
/// up to `F32_OVERFLOW`.
fn scan_int(b: &[u8], start: usize, end: usize) -> (r: (usize, u128))
    requires
        start <= end <= b@.len(),
    ensures
        start <= r.0 <= end,
        all_digits(b@.subrange(start as int, r.0 as int)),
        r.0 == end || !is_digit(b@[r.0 as int]),
        digits_val(b@.subrange(start as int, r.0 as int)) >= F32_OVERFLOW ==> r.1 == F32_OVERFLOW,
        digits_val(b@.subrange(start as int, r.0 as int)) < F32_OVERFLOW ==> r.1 == digits_val(
            b@.subrange(start as int, r.0 as int),
        ),
{
    let ghost bs = b@;
    let mut p: usize = start;
    let mut int_val: u128 = 0;
    while p < end && is_digit_byte(b[p])
        invariant
            start <= p <= end,
            end <= bs.len(),
            b@ == bs,
            all_digits(bs.subrange(start as int, p as int)),
            digits_val(bs.subrange(start as int, p as int)) >= F32_OVERFLOW ==> int_val == F32_OVERFLOW,
            digits_val(bs.subrange(start as int, p as int)) < F32_OVERFLOW ==> int_val == digits_val(
                bs.subrange(start as int, p as int),
            ),
        decreases end - p,
    {
        let d = (b[p] - 48) as u128;
        proof {
            let s = bs.subrange(start as int, p + 1);
            assert(s.drop_last() =~= bs.subrange(start as int, p as int));
            assert(s.last() == bs[p as int]);
            assert forall|i: int| 0 <= i < s.len() implies is_digit(#[trigger] s[i]) by {
                if i < s.len() - 1 {
                    assert(s[i] == s.drop_last()[i]);
                }
            }
        }
        if int_val < F32_OVERFLOW && int_val > F32_OVERFLOW / 10 {
            int_val = F32_OVERFLOW;
        } else if int_val < F32_OVERFLOW {
            let v = int_val * 10 + d;
            int_val = if v < F32_OVERFLOW {
                v
            } else {
                F32_OVERFLOW
            };
        }
        p = p + 1;
    }
    (p, int_val)
}

/// Whether `b[from..end]` is all digits.
fn digits_only(b: &[u8], from: usize, end: usize) -> (r: bool)
    requires
        from <= end <= b@.len(),
    ensures
        r == all_digits(b@.subrange(from as int, end as int)),
{
    let ghost bs = b@;
    let mut q: usize = from;
    while q < end
        invariant
            from <= q <= end,
            end <= bs.len(),
            b@ == bs,
            forall|i: int| from <= i < q ==> is_digit(#[trigger] bs[i]),
        decreases end - q,
    {
        if !is_digit_byte(b[q]) {
            assert(bs.subrange(from as int, end as int)[q - from] == bs[q as int]);
            return false;
        }
        q = q + 1;
    }
    assert forall|i: int| 0 <= i < end - from implies is_digit(#[trigger] bs.subrange(from as int, end as int)[i]) by {
        assert(bs.subrange(from as int, end as int)[i] == bs[from + i]);
    }
    true
}

/// For the fraction digits `b[from..end]`, worth `f / 10^(end - from)`:
/// `floor(width * f / 10^(end - from))`, and whether `f` is nonzero. Taken
/// right to left, one carry at a time.
fn scaled_fraction(b: &[u8], from: usize, end: usize, width: u32) -> (r: (u64, bool))
    requires
        from <= end <= b@.len(),
        all_digits(b@.subrange(from as int, end as int)),
    ensures
        r.0 as nat == (width as nat * digits_val(b@.subrange(from as int, end as int))) / pow10(
            (end - from) as nat,
        ),
        r.0 <= width,
        r.1 == (digits_val(b@.subrange(from as int, end as int)) > 0),
{
    let ghost bs = b@;
    let mut q: usize = end;
    let mut carry: u64 = 0;
    let mut nonzero: bool = false;
    proof {
        assert(bs.subrange(end as int, end as int) =~= Seq::<u8>::empty());
        assert(pow10(0) == 1);
        assert(digits_val(Seq::<u8>::empty()) == 0);
    }
    while q > from
        invariant
            from <= q <= end,
            end <= bs.len(),
            b@ == bs,
            all_digits(bs.subrange(from as int, end as int)),
            carry as nat == (width as nat * digits_val(bs.subrange(q as int, end as int))) / pow10(
                (end - q) as nat,
            ),
            carry <= width,
            nonzero == (digits_val(bs.subrange(q as int, end as int)) > 0),
        decreases q,
    {
        q = q - 1;
        assert(is_digit(bs.subrange(from as int, end as int)[q - from]));
        let d = (b[q] - 48) as u64;
        proof {
            let s = bs.subrange(q + 1, end as int);
            let whole = bs.subrange(q as int, end as int);
            assert(whole =~= seq![bs[q as int]] + s);
            assert(all_digits(whole)) by {
                assert forall|i: int| 0 <= i < whole.len() implies is_digit(#[trigger] whole[i]) by {
                    assert(whole[i] == bs.subrange(from as int, end as int)[q - from + i]);
                }
            }
            lemma_digits_prepend(bs[q as int], s);
            lemma_pow10_pos(s.len());
            lemma_digits_below(whole);
            let pw = pow10(s.len());
            let f = digits_val(s);
            let w = width as nat;
            assert(pow10(whole.len()) == 10 * pw);
            assert(digits_val(whole) == d * pw + f);
            lemma_div_split((d * w) as nat, w * f, pw, 10);
            assert(w * digits_val(whole) == (d * w) * pw + w * f) by (nonlinear_arith)
                requires
                    digits_val(whole) == d * pw + f,
            ;
            assert(10 * pw == pw * 10) by (nonlinear_arith);
            assert(w * digits_val(whole) <= w * (10 * pw)) by (nonlinear_arith)
                requires
                    digits_val(whole) < 10 * pw,
            ;
            lemma_div_is_ordered((w * digits_val(whole)) as int, (w * (10 * pw)) as int, (10 * pw) as int);
            lemma_fundamental_div_mod_converse_div((w * (10 * pw)) as int, (10 * pw) as int, w as int, 0);
            assert(d * w <= 9 * w) by (nonlinear_arith)
                requires
                    d <= 9,
            ;
            assert(d * pw + f > 0 <==> (d != 0 || f > 0)) by (nonlinear_arith)
                requires
                    pw > 0,
            ;
        }
        carry = (d * (width as u64) + carry) / 10;
        nonzero = nonzero || d != 0;
    }
    (carry, nonzero)
}

/// `floor(multiplier * (big + f / pw))`, saturated, from the integer part
/// and `floor(width * f / pw)`.
fn scale_size(percent: bool, width: u32, int_val: u128, carry: u64, Ghost(big): Ghost<nat>, Ghost(f): Ghost<nat>, Ghost(pw): Ghost<nat>) -> (r: u32)
    requires
        pw > 0,
        f < pw,
        carry as nat == (width as nat * f) / pw,
        carry <= width,
        int_val == big,
    ensures
        percent ==> r == clamp_u32((width as nat * (big * pw + f)) / (100 * pw)),
        !percent ==> r == clamp_u32((big * pw + f) / pw),
{
    let ghost w = width as nat;
    if percent {
        if width == 0 {
            proof {
                assert(w * (big * pw + f) == 0) by (nonlinear_arith)
                    requires
                        w == 0,
                ;
                lemma_fundamental_div_mod_converse_div(0, (100 * pw) as int, 0, 0);
            }
            return 0;
        }
        if int_val >= INT_CAP {
            proof {
                lemma_div_split(big, 0, pw, 100);
                lemma_fundamental_div_mod_converse_div(0, pw as int, 0, 0);
                assert(w * (big * pw + f) >= big * pw + 0) by (nonlinear_arith)
                    requires
                        w >= 1,
                ;
                lemma_div_is_ordered((big * pw + 0) as int, (w * (big * pw + f)) as int, (100 * pw) as int);
                lemma_div_is_ordered(INT_CAP as int, big as int, 100);
            }
            return u32::MAX;
        }
        proof {
            lemma_div_split(w * big, w * f, pw, 100);
            assert(w * (big * pw + f) == (w * big) * pw + w * f) by (nonlinear_arith);
            assert(w * big <= 0xffff_ffffnat * 1_000_000_000_000nat) by (nonlinear_arith)
                requires
                    w <= 0xffff_ffff,
                    big < 1_000_000_000_000nat,
            ;
        }
        let v: u128 = ((width as u128) * (int_val as u128) + carry as u128) / 100;
        if v > u32::MAX as u128 {
            u32::MAX
        } else {
            v as u32
        }
    } else {
        proof {
            lemma_div_split(big, f, pw, 1);
            lemma_fundamental_div_mod_converse_div(f as int, pw as int, 0, f as int);
            assert(1 * pw == pw);
        }
        if int_val > u32::MAX as u128 {
            u32::MAX
        } else {
            int_val as u32
        }
    }
}

/// The first `e` or `E` in `b[from..end]`, or `end`.
fn find_mark(b: &[u8], from: usize, end: usize) -> (r: usize)
    requires
        from <= end <= b@.len(),
    ensures
        from <= r <= end,
        forall|i: int| from <= i < r ==> !is_exp_mark(#[trigger] b@[i]),
        r == end || is_exp_mark(b@[r as int]),
{
    let mut q: usize = from;
    while q < end && !(b[q] == 101 || b[q] == 69)
        invariant
            from <= q <= end,
            end <= b@.len(),
            forall|i: int| from <= i < q ==> !is_exp_mark(#[trigger] b@[i]),
        decreases end - q,
    {
        q = q + 1;
    }
    q
}

/// The exponent `b[from..end]`: its sign and its magnitude up to `F32_OVERFLOW`,
/// or `None` where it is not an optional sign followed by digits.
fn parse_exponent(b: &[u8], from: usize, end: usize) -> (r: Option<(bool, u128)>)
    requires
        from <= end <= b@.len(),
    ensures
        r is Some <==> exponent_ok(b@.subrange(from as int, end as int)),
        r matches Some((neg, mag)) ==> {
            let x = b@.subrange(from as int, end as int);
            &&& neg == negative(x)
            &&& digits_val(unsigned_part(x)) >= F32_OVERFLOW ==> mag == F32_OVERFLOW
            &&& digits_val(unsigned_part(x)) < F32_OVERFLOW ==> mag == digits_val(unsigned_part(x))
        },
{
    let ghost x = b@.subrange(from as int, end as int);
    let has_sign: bool = from < end && (b[from] == 43 || b[from] == 45);
    let neg: bool = from < end && b[from] == 45;
    let start: usize = if has_sign {
        from + 1
    } else {
        from
    };
    assert(unsigned_part(x) =~= b@.subrange(start as int, end as int));
    if start == end {
        return None;
    }
    if !digits_only(b, start, end) {
        return None;
    }
    let (p, mag) = scan_int(b, start, end);
    if p < end {
        assert(b@.subrange(start as int, end as int)[p - start] == b@[p as int]);
    }
    Some((neg, mag))
}

/// Appends `b[from..to]` to `out`.
fn copy_digits(out: &mut Vec<u8>, b: &[u8], from: usize, to: usize)
    requires
        from <= to <= b@.len(),
    ensures
        final(out)@ == old(out)@ + b@.subrange(from as int, to as int),
{
    let ghost start = out@;
    let mut q: usize = from;
    while q < to
        invariant
            from <= q <= to,
            to <= b@.len(),
            out@ == start + b@.subrange(from as int, q as int),
        decreases to - q,
    {
        out.push(b[q]);
        q = q + 1;
        assert(out@ =~= start + b@.subrange(from as int, q as int));
    }
}

/// Appends `count` zero digits to `out`.
fn push_zeros(out: &mut Vec<u8>, count: usize)
    ensures
        final(out)@ == old(out)@ + zeros(count as nat),
{
    let ghost start = out@;
    let mut q: usize = 0;
    while q < count
        invariant
            q <= count,
            out@ == start + zeros(q as nat),
        decreases count - q,
    {
        out.push(48);
        q = q + 1;
        assert(out@ =~= start + zeros(q as nat));
    }
}

/// The first nonzero digit of `g`, or its length.
fn first_nonzero(g: &Vec<u8>) -> (z: usize)
    ensures
        z <= g@.len(),
        forall|i: int| 0 <= i < z ==> #[trigger] g@[i] == 48,
        z == g@.len() || g@[z as int] != 48,
{
    let mut z: usize = 0;
    while z < g.len() && g[z] == 48
        invariant
            z <= g@.len(),
            forall|i: int| 0 <= i < z ==> #[trigger] g@[i] == 48,
        decreases g@.len() - z,
    {
        z = z + 1;
    }
    z
}

/// The digits of the mantissa `b[start..end]`, integer part then fraction,
/// and how many of them follow the point; `None` unless it is well formed.
fn mantissa_parts(b: &[u8], start: usize, end: usize) -> (r: Option<(Vec<u8>, usize)>)
    requires
        start <= end <= b@.len(),
    ensures
        r is Some <==> well_formed(b@.subrange(start as int, end as int)),
        r matches Some((g, k)) ==> {
            let m = b@.subrange(start as int, end as int);
            &&& g@ == int_digits(m) + frac_digits(m)
            &&& k == frac_digits(m).len()
            &&& all_digits(g@)
            &&& digits_val(g@) == scaled_num(m)
        },
{
    let ghost bs = b@;
    let ghost m = bs.subrange(start as int, end as int);
    let (p, _) = scan_int(b, start, end);
    let ghost int_len = (p - start) as int;
    proof {
        assert(m.take(int_len) =~= bs.subrange(start as int, p as int));
        if p < end {
            assert(m[int_len] == bs[p as int]);
        }
        lemma_lead_digits(m, int_len);
        assert(int_digits(m) =~= bs.subrange(start as int, p as int));
    }
    let mut frac_start: usize = end;
    if p < end {
        if b[p] != 46 {
            return None;
        }
        frac_start = p + 1;
        assert(frac_digits(m) =~= bs.subrange(frac_start as int, end as int));
        if !digits_only(b, frac_start, end) {
            return None;
        }
    }
    assert(frac_digits(m) =~= bs.subrange(frac_start as int, end as int));
    if p == start && frac_start == end {
        return None;
    }
    let mut g: Vec<u8> = Vec::new();
    copy_digits(&mut g, b, start, p);
    copy_digits(&mut g, b, frac_start, end);
    proof {
        assert(g@ =~= int_digits(m) + frac_digits(m));
        lemma_digits_concat(int_digits(m), frac_digits(m));
        assert forall|i: int| 0 <= i < g@.len() implies is_digit(#[trigger] g@[i]) by {
            if i < int_len {
                assert(g@[i] == int_digits(m)[i]);
            } else {
                assert(g@[i] == frac_digits(m)[i - int_len]);
            }
        }
    }
    Some((g, end - frac_start))
}

proof fn lemma_pow10_consts()
    ensures
        pow10(38) == 100_000_000_000_000_000_000_000_000_000_000_000_000nat,
        pow10(39) == 1_000_000_000_000_000_000_000_000_000_000_000_000_000nat,
{
    reveal_with_fuel(pow10, 40);
}

/// A number of `nd` significant digits times `10^q` with `nd + q >= 40` is
/// infinite as an `f32`.
proof fn lemma_big_value(n: nat, nd: nat, q: int)
    requires
        nd >= 1,
        pow10((nd - 1) as nat) <= n,
        nd + q >= 40,
    ensures
        num_of(n, q) >= F32_OVERFLOW * den_of(q),
{
    lemma_pow10_consts();
    if q >= 0 {
        lemma_pow10_add((nd - 1) as nat, q as nat);
        lemma_pow10_mono(39, (nd - 1 + q) as nat);
        lemma_pow10_pos(q as nat);
        let a = pow10((nd - 1) as nat) as int;
        let b = pow10(q as nat) as int;
        assert(n * b >= a * b) by (nonlinear_arith)
            requires
                n >= a,
                b >= 0,
        ;
    } else {
        lemma_pow10_add(39, (-q) as nat);
        lemma_pow10_mono((39 - q) as nat, (nd - 1) as nat);
        lemma_pow10_pos((-q) as nat);
        let b = pow10((-q) as nat) as int;
        assert(pow10(39) * b >= F32_OVERFLOW * b) by (nonlinear_arith)
            requires
                pow10(39) >= F32_OVERFLOW,
                b >= 0,
        ;
    }
}

/// A number of `nd` significant digits times `10^q` with `nd + q <= -38` is
/// below `10^-38`.
proof fn lemma_small_value(n: nat, nd: nat, q: int)
    requires
        nd >= 1,
        n < pow10(nd),
        nd + q <= -38,
    ensures
        num_of(n, q) * pow10(38) < den_of(q),
{
    lemma_pow10_add(nd, 38);
    lemma_pow10_mono(nd + 38, (-q) as nat);
    lemma_pow10_pos(38);
    let a = pow10(nd) as int;
    let c = pow10(38) as int;
    assert(n * c < a * c) by (nonlinear_arith)
        requires
            n < a,
            c > 0,
    ;
}

proof fn lemma_scale_consts()
    ensures
        pow2(150) == 1427247692705959881058285969449495136382746624nat,
        pow10(37) == 10000000000000000000000000000000000000nat,
        pow10(38) == 100000000000000000000000000000000000000nat,
        pow10(75) == 1000000000000000000000000000000000000000000000000000000000000000000000000000nat,
        pow10(113) == 100000000000000000000000000000000000000000000000000000000000000000000000000000000000000000000000000000000000000000nat,
{
    lemma_pow10_small();
    lemma_pow10_add(38, 37);
    lemma_pow10_add(75, 38);
    lemma_pow2_50();
    lemma_pow2_add(50, 50);
    lemma_pow2_add(100, 50);
}

proof fn lemma_pow10_small()
    ensures
        pow10(37) == 10000000000000000000000000000000000000nat,
        pow10(38) == 100000000000000000000000000000000000000nat,
{
    reveal_with_fuel(pow10, 39);
}

proof fn lemma_pow2_50()
    ensures
        pow2(50) == 1125899906842624nat,
{
    reveal_with_fuel(pow2, 51);
}

proof fn lemma_pow2_add(a: nat, b: nat)
    ensures
        pow2(a + b) == pow2(a) * pow2(b),
    decreases b,
{
    if b == 0 {
        assert(pow2(0) == 1);
        assert(a + b == a);
    } else {
        lemma_pow2_add(a, (b - 1) as nat);
        assert(pow2(a + b) == 2 * pow2((a + b - 1) as nat));
        let x = pow2(a) as int;
        let y = pow2((b - 1) as nat) as int;
        assert(2 * (x * y) == x * (2 * y)) by (nonlinear_arith);
    }
}

/// A number of `nd` significant digits times `10^q` with `nd + q >= -36` is
/// a normal `f32` or larger.
proof fn lemma_upper_mid_value(n: nat, nd: nat, q: int)
    requires
        nd >= 1,
        pow10((nd - 1) as nat) <= n,
        -36 <= nd + q,
    ensures
        num_of(n, q) * pow2(150) >= F32_MIN_NORMAL_NUM * den_of(q),
{
    lemma_scale_consts();
    lemma_pow10_pos((nd - 1) as nat);
    if q >= 0 {
        lemma_pow10_pos(q as nat);
        let b = pow10(q as nat) as int;
        assert(n * b * pow2(150) >= F32_MIN_NORMAL_NUM * 1) by (nonlinear_arith)
            requires
                n >= 1,
                b >= 1,
                pow2(150) == 1427247692705959881058285969449495136382746624int,
        ;
    } else {
        lemma_pow10_add((nd - 1) as nat, 37);
        lemma_pow10_mono((-q) as nat, (nd - 1 + 37) as nat);
        let a = pow10((nd - 1) as nat) as int;
        let dn = pow10((-q) as nat) as int;
        assert(n * pow2(150) >= F32_MIN_NORMAL_NUM * dn) by (nonlinear_arith)
            requires
                n >= a,
                a >= 1,
                dn <= a * 10_000_000_000_000_000_000_000_000_000_000_000_000,
                pow2(150) == 1427247692705959881058285969449495136382746624int,
        ;
    }
}

/// The first 113 significant digits of the least normal `f32`, in three chunks.
pub const MIN_NORMAL_HI: u128 = 11754942807573642917278829910357665133;

pub const MIN_NORMAL_MID: u128 = 22858992758990427682963118425003064965;

pub const MIN_NORMAL_LO: u128 = 1730385585324256680905818939208984375;

pub open spec fn min_normal_digits() -> nat {
    (MIN_NORMAL_HI * pow10(75) + MIN_NORMAL_MID * pow10(37) + MIN_NORMAL_LO) as nat
}

/// With `nd` significant digits and the point 37 places further left, a
/// number is normal exactly when its digits reach those of the least normal
/// `f32`.
proof fn lemma_band_value(n: nat, nd: nat)
    ensures
        (num_of(n, -37 - nd) * pow2(150) >= F32_MIN_NORMAL_NUM * den_of(-37 - nd)) <==> (n * pow10(113)
            >= min_normal_digits() * pow10(nd)),
{
    lemma_scale_consts();
    lemma_pow10_add(nd, 37);
    lemma_pow10_pos(nd);
    let x = pow10(nd) as int;
    let ni = n as int;
    assert((ni * 1427247692705959881058285969449495136382746624 >= 16777215 * (x * 10_000_000_000_000_000_000_000_000_000_000_000_000))
        <==> (ni * 100000000000000000000000000000000000000000000000000000000000000000000000000000000000000000000000000000000000000000
        >= 11754942807573642917278829910357665133228589927589904276829631184250030649651730385585324256680905818939208984375 * x)) by (nonlinear_arith)
        requires
            x >= 1,
    ;
    assert(min_normal_digits() == 11754942807573642917278829910357665133228589927589904276829631184250030649651730385585324256680905818939208984375nat);
}

pub open spec fn magnitude(e: int) -> int {
    if e < 0 {
        -e
    } else {
        e
    }
}

/// The significant digits `g[z..]`, worth `n`, laid out around the point so
/// that with `pp` digits before it their value is `n * 10^(pp - nd)`: the
/// digits, and where the point falls among them.
#[verifier::rlimit(100)]
fn layout(g: &Vec<u8>, z: usize, pp: i128, Ghost(n): Ghost<nat>) -> (r: (Vec<u8>, usize))
    requires
        z < g@.len(),
        all_digits(g@.subrange(z as int, g@.len() as int)),
        n == digits_val(g@.subrange(z as int, g@.len() as int)),
        -37 <= pp <= 39,
    ensures
        r.1 <= r.0@.len(),
        all_digits(r.0@),
        digits_val(r.0@.subrange(0, r.1 as int)) * pow10((r.0@.len() - r.1) as nat) + digits_val(
            r.0@.subrange(r.1 as int, r.0@.len() as int),
        ) == num_of(n, pp - (g@.len() - z)),
        pow10((r.0@.len() - r.1) as nat) == den_of(pp - (g@.len() - z)),
{
    let len = g.len();
    let nd: usize = len - z;
    let ghost sig = g@.subrange(z as int, len as int);
    let qq: i128 = pp - nd as i128;
    let mut d: Vec<u8> = Vec::new();
    let l: usize;
    if qq >= 0 {
        copy_digits(&mut d, g.as_slice(), z, len);
        push_zeros(&mut d, qq as usize);
        l = d.len();
        proof {
            assert(d@ =~= sig + zeros(qq as nat));
            lemma_zeros(qq as nat);
            lemma_digits_concat(sig, zeros(qq as nat));
        }
    } else if pp > 0 {
        copy_digits(&mut d, g.as_slice(), z, len);
        l = pp as usize;
        assert(d@ =~= sig);
    } else {
        push_zeros(&mut d, (-pp) as usize);
        copy_digits(&mut d, g.as_slice(), z, len);
        l = 0;
        proof {
            assert(d@ =~= zeros((-pp) as nat) + sig);
            lemma_zeros((-pp) as nat);
            lemma_digits_concat(zeros((-pp) as nat), sig);
        }
    }
    let ghost ds = d@;
    assert(all_digits(ds)) by {
        assert forall|i: int| 0 <= i < ds.len() implies is_digit(#[trigger] ds[i]) by {
            if qq >= 0 {
                if i < nd {
                    assert(ds[i] == sig[i]);
                } else {
                    assert(ds[i] == zeros(qq as nat)[i - nd]);
                }
            } else if pp > 0 {
                assert(ds[i] == sig[i]);
            } else {
                if i < -pp {
                    assert(ds[i] == zeros((-pp) as nat)[i]);
                } else {
                    assert(ds[i] == sig[i + pp]);
                }
            }
        }
    }
    proof {
        let head = ds.subrange(0, l as int);
        let tail = ds.subrange(l as int, ds.len() as int);
        assert(ds =~= head + tail);
        lemma_digits_concat(head, tail);
        if qq >= 0 {
            assert(tail.len() == 0);
            assert(pow10(0) == 1);
            assert(head =~= ds);
            assert(digits_val(tail) == 0);
        }
    }
    (d, l)
}

/// Whether the significant digits `g[z..]`, worth `n` with `nd` of them,
/// satisfy `n * 10^113 >= min_normal_digits() * 10^nd`: their first 113
/// digits, padded with zeros, compared chunk by chunk.
fn above_min_normal(g: &Vec<u8>, z: usize) -> (r: bool)
    requires
        z < g@.len(),
        all_digits(g@.subrange(z as int, g@.len() as int)),
    ensures
        r <==> digits_val(g@.subrange(z as int, g@.len() as int)) * pow10(113) >= min_normal_digits()
            * pow10((g@.len() - z) as nat),
{
    let len = g.len();
    let nd: usize = len - z;
    let ghost sig = g@.subrange(z as int, len as int);
    let taken: usize = if nd < 113 {
        nd
    } else {
        113
    };
    let mut a: Vec<u8> = Vec::new();
    copy_digits(&mut a, g.as_slice(), z, z + taken);
    push_zeros(&mut a, 113 - taken);
    let ghost av = a@;
    let ghost first = sig.subrange(0, taken as int);
    proof {
        assert(g@.subrange(z as int, z + taken) =~= first);
        assert(av =~= first + zeros((113 - taken) as nat));
        lemma_zeros((113 - taken) as nat);
        lemma_digits_concat(first, zeros((113 - taken) as nat));
        assert(all_digits(av)) by {
            assert forall|i: int| 0 <= i < 113 implies is_digit(#[trigger] av[i]) by {
                if i < taken {
                    assert(av[i] == sig[i]);
                } else {
                    assert(av[i] == zeros((113 - taken) as nat)[i - taken]);
                }
            }
        }
        let c1 = av.subrange(0, 38);
        let c2 = av.subrange(38, 75);
        let c2b = av.subrange(38, 76);
        let c3 = av.subrange(76, 113);
        assert(av =~= c1 + (c2b + c3));
        lemma_digits_concat(c2b, c3);
        lemma_digits_concat(c1, c2b + c3);
        assert((c2b + c3).len() == 75);
    }
    let (p1, a1) = scan_int(a.as_slice(), 0, 38);
    if p1 < 38 {
        assert(is_digit(av[p1 as int]));
    }
    let (p2, a2) = scan_int(a.as_slice(), 38, 76);
    if p2 < 76 {
        assert(is_digit(av[p2 as int]));
    }
    let (p3, a3) = scan_int(a.as_slice(), 76, 113);
    if p3 < 113 {
        assert(is_digit(av[p3 as int]));
    }
    let ghost d1 = digits_val(av.subrange(0, 38));
    let ghost d2 = digits_val(av.subrange(38, 76));
    let ghost d3 = digits_val(av.subrange(76, 113));
    proof {
        lemma_scale_consts();
        assert(all_digits(av.subrange(0, 38)));
        assert(all_digits(av.subrange(38, 76)));
        assert(all_digits(av.subrange(76, 113)));
        lemma_digits_below(av.subrange(0, 38));
        lemma_digits_below(av.subrange(38, 76));
        lemma_digits_below(av.subrange(76, 113));
        lemma_pow10_consts();
        assert(pow10(38) < F32_OVERFLOW);
        lemma_pow10_mono(37, 38);
        assert(digits_val(av) == d1 * pow10(75) + d2 * pow10(37) + d3);
        assert(d1 < pow10(38) && d2 < pow10(38) && d3 < pow10(37));
        assert(a1 == d1 && a2 == d2 && a3 == d3);
    }
    let r: bool = a1 > MIN_NORMAL_HI || (a1 == MIN_NORMAL_HI && (a2 > MIN_NORMAL_MID || (a2 == MIN_NORMAL_MID
        && a3 >= MIN_NORMAL_LO)));
    proof {
        lemma_scale_consts();
        let big_a = digits_val(av) as int;
        let e1 = d1 as int;
        let e2 = d2 as int;
        let e3 = d3 as int;
        assert(min_normal_digits() == 11754942807573642917278829910357665133 * 1000000000000000000000000000000000000000000000000000000000000000000000000000 + 22858992758990427682963118425003064965 * 10000000000000000000000000000000000000 + 1730385585324256680905818939208984375);
        assert(big_a == e1 * 1000000000000000000000000000000000000000000000000000000000000000000000000000 + e2 * 10000000000000000000000000000000000000 + e3);
        assert((big_a >= min_normal_digits()) <==> (e1 > 11754942807573642917278829910357665133 || (e1 == 11754942807573642917278829910357665133 && (e2 > 22858992758990427682963118425003064965 || (e2 == 22858992758990427682963118425003064965 && e3 >= 1730385585324256680905818939208984375))))) by (nonlinear_arith)
            requires
                big_a == e1 * 1000000000000000000000000000000000000000000000000000000000000000000000000000 + e2 * 10000000000000000000000000000000000000 + e3,
                min_normal_digits() == 11754942807573642917278829910357665133228589927589904276829631184250030649651730385585324256680905818939208984375,
                0 <= e2 < 100000000000000000000000000000000000000,
                0 <= e3 < 10000000000000000000000000000000000000,
                e1 >= 0,
        ;
        assert(r <==> big_a >= min_normal_digits());
        let n = digits_val(sig) as int;
        let x = pow10(nd as nat) as int;
        let sv = min_normal_digits() as int;
        lemma_pow10_pos(nd as nat);
        if nd <= 113 {
            assert(first =~= sig);
            lemma_pow10_add((113 - nd) as nat, nd as nat);
            let y = pow10((113 - nd) as nat) as int;
            assert(big_a == n * y);
            assert((n * (y * x) >= sv * x) <==> (n * y >= sv)) by (nonlinear_arith)
                requires
                    x >= 1,
            ;
        } else {
            let rest = sig.subrange(113, nd as int);
            assert(sig =~= first + rest);
            assert(av =~= first);
            lemma_digits_concat(first, rest);
            assert(all_digits(rest));
            lemma_digits_below(rest);
            lemma_pow10_add(113, (nd - 113) as nat);
            let y = pow10((nd - 113) as nat) as int;
            let rv = digits_val(rest) as int;
            assert(n == big_a * y + rv);
            assert((n * pow10(113) >= sv * (pow10(113) * y)) <==> (big_a >= sv)) by (nonlinear_arith)
                requires
                    n == big_a * y + rv,
                    0 <= rv < y,
                    pow10(113) > 0,
                    big_a >= 0,
            ;
        }
    }
    r
}

/// The verdict on a number with no sign: mantissa digits `g`, `k` of them
/// after the point, and an exponent of sign `eneg` and magnitude `emag`
/// (saturated at `F32_OVERFLOW`).
#[verifier::rlimit(60)]
fn scaled_value(
    g: &Vec<u8>,
    k: usize,
    eneg: bool,
    emag: u128,
    percent: bool,
    width: u32,
    Ghost(t): Ghost<Seq<u8>>,
) -> (r: AppResult<u32>)
    requires
        all_digits(g@),
        digits_val(g@) == scaled_num(mantissa(t)),
        k == frac_digits(mantissa(t)).len(),
        k <= g@.len(),
        eneg ==> exponent(t) <= 0,
        !eneg ==> exponent(t) >= 0,
        magnitude(exponent(t)) >= F32_OVERFLOW ==> emag == F32_OVERFLOW,
        magnitude(exponent(t)) < F32_OVERFLOW ==> emag == magnitude(exponent(t)),
    ensures
        r is Ok <==> (value_num(t) > 0 && value_num(t) < F32_OVERFLOW * value_den(t) && value_num(t)
            * pow2(150) >= F32_MIN_NORMAL_NUM * value_den(t)),
        r is Err ==> r->Err_0 is ArgError,
        r matches Ok(v) ==> v == clamp_u32(
            if percent {
                (width as nat * value_num(t)) / (100 * value_den(t))
            } else {
                value_num(t) / value_den(t)
            },
        ),
{
    let ghost e = exponent(t);
    let ghost q = point_shift(t);
    let len = g.len();
    let z = first_nonzero(g);
    let ghost gs = g@;
    let ghost sig = gs.subrange(z as int, len as int);
    proof {
        assert(gs =~= gs.subrange(0, z as int) + sig);
        assert(gs.subrange(0, z as int) =~= zeros(z as nat));
        lemma_zeros(z as nat);
        lemma_digits_concat(gs.subrange(0, z as int), sig);
        assert(all_digits(sig)) by {
            assert forall|i: int| 0 <= i < sig.len() implies is_digit(#[trigger] sig[i]) by {
                assert(sig[i] == gs[z + i]);
            }
        }
        lemma_digits_below(sig);
        lemma_pow10_pos(q as nat);
        lemma_pow10_pos((-q) as nat);
    }
    let ghost big_n = digits_val(sig);
    if z == len {
        proof {
            assert(sig.len() == 0);
            assert(big_n == 0);
            assert(value_num(t) == 0) by {
                if q >= 0 {
                    assert(0 * pow10(q as nat) == 0);
                }
            }
        }
        return Err(AppError::ArgError(String::from_str("size must be strictly positive")));
    }
    let nd: usize = len - z;
    proof {
        lemma_digits_above(sig);
    }
    let ec: i128 = if emag > 1180591620717411303424u128 {
        1180591620717411303424i128
    } else {
        emag as i128
    };
    let es: i128 = if eneg {
        -ec
    } else {
        ec
    };
    let pp: i128 = nd as i128 + es - k as i128;
    let ghost big_p = nd + e - k;
    if pp >= 40 {
        proof {
            assert(big_p >= 40);
            lemma_big_value(big_n, nd as nat, q);
        }
        return Err(AppError::ArgError(String::from_str("size must be a normal float")));
    }
    if pp <= -38 {
        proof {
            assert(big_p <= -38);
            lemma_small_value(big_n, nd as nat, q);
            lemma_scale_consts();
            let nm = num_of(big_n, q) as int;
            let dn = den_of(q) as int;
            assert(nm * pow2(150) < F32_MIN_NORMAL_NUM * dn) by (nonlinear_arith)
                requires
                    nm * 100_000_000_000_000_000_000_000_000_000_000_000_000 < dn,
                    pow2(150) == 1427247692705959881058285969449495136382746624int,
                    nm >= 0,
            ;
        }
        return Err(AppError::ArgError(String::from_str("size must be a normal float")));
    }
    assert(pp == big_p);
    if pp == -37 {
        let above = above_min_normal(g, z);
        proof {
            lemma_band_value(big_n, nd as nat);
        }
        if !above {
            return Err(AppError::ArgError(String::from_str("size must be a normal float")));
        }
    } else {
        proof {
            lemma_upper_mid_value(big_n, nd as nat, q);
        }
    }
    let (d, l) = layout(g, z, pp, Ghost(big_n));
    let ghost ds = d@;
    let ghost head = ds.subrange(0, l as int);
    let ghost tail = ds.subrange(l as int, ds.len() as int);
    proof {
        assert(all_digits(head));
        assert(all_digits(tail));
    }
    let (p2, int_val) = scan_int(d.as_slice(), 0, l);
    if p2 < l {
        assert(is_digit(ds[p2 as int]));
    }
    let (carry, nonzero) = scaled_fraction(d.as_slice(), l, d.len(), width);
    let ghost big = digits_val(head);
    let ghost f = digits_val(tail);
    let ghost pw = pow10(tail.len());
    proof {
        lemma_pow10_pos(tail.len());
        lemma_digits_below(tail);
        assert(q == pp - nd);
        assert(big * pw + f == value_num(t));
        assert(pw == value_den(t));
    }
    judge(false, percent, width, int_val, carry, nonzero, Ghost(big), Ghost(f), Ghost(pw))
}

/// The parts of the unsigned number `b[start..end]`: its mantissa digits, how
/// many follow the point, and its exponent's sign and magnitude (saturated
/// at `F32_OVERFLOW`); `None` unless it is well formed.
fn number_parts(b: &[u8], start: usize, end: usize) -> (r: Option<(Vec<u8>, usize, bool, u128)>)
    requires
        start <= end <= b@.len(),
    ensures
        r is Some <==> number_ok(b@.subrange(start as int, end as int)),
        r matches Some((g, k, eneg, emag)) ==> {
            let t = b@.subrange(start as int, end as int);
            &&& all_digits(g@)
            &&& digits_val(g@) == scaled_num(mantissa(t))
            &&& k == frac_digits(mantissa(t)).len()
            &&& k <= g@.len()
            &&& eneg ==> exponent(t) <= 0
            &&& !eneg ==> exponent(t) >= 0
            &&& magnitude(exponent(t)) >= F32_OVERFLOW ==> emag == F32_OVERFLOW
            &&& magnitude(exponent(t)) < F32_OVERFLOW ==> emag == magnitude(exponent(t))
        },
{
    let ghost bs = b@;
    let ghost t = bs.subrange(start as int, end as int);
    let mend = find_mark(b, start, end);
    proof {
        assert forall|i: int| 0 <= i < mend - start implies !is_exp_mark(#[trigger] t[i]) by {
            assert(t[i] == bs[start + i]);
        }
        if mend < end {
            assert(t[mend - start] == bs[mend as int]);
        }
        lemma_mark_at(t, mend - start);
    }
    let ghost m = mantissa(t);
    assert(m =~= bs.subrange(start as int, mend as int));
    let (digits, k) = match mantissa_parts(b, start, mend) {
        Some(parts) => parts,
        None => {
            return None;
        },
    };
    let (eneg, emag) = if mend < end {
        assert(exponent_text(t) =~= bs.subrange(mend + 1, end as int));
        match parse_exponent(b, mend + 1, end) {
            Some(e) => e,
            None => {
                return None;
            },
        }
    } else {
        (false, 0)
    };
    proof {
        if mend < end {
            assert(has_exponent(t));
        } else {
            assert(!has_exponent(t));
        }
    }
    Some((digits, k, eneg, emag))
}

/// Resolves a displacement-size specifier against a reference width: a
/// decimal number of pixels, optionally followed by `px`, or a decimal
/// percentage of `width` followed by `%`. The number may carry a sign, a
/// fractional part and an exponent, and must be strictly positive and round
/// to a normal, finite `f32`: at least `2^-126 - 2^-150` and below
/// `2^128 - 2^103`. The result is the exact product rounded down, saturating
/// at `u32::MAX`.
#[verifier::rlimit(60)]
pub fn parse_effect_size(specified: &str, width: u32) -> (r: AppResult<u32>)
    ensures
        r is Ok <==> size_accepted(specified.spec_bytes()),
        r is Err ==> r->Err_0 is ArgError,
        r matches Ok(v) ==> v == clamp_u32(resolved(specified.spec_bytes(), width as nat)),
{
    let b = specified.as_bytes();
    let ghost bs = b@;
    let n = b.len();
    let percent: bool = n >= 1 && b[n - 1] == 37;
    let end: usize = if percent {
        n - 1
    } else if n >= 2 && b[n - 2] == 112 && b[n - 1] == 120 {
        n - 2
    } else {
        n
    };
    let ghost u = numeral(bs);
    assert(u =~= bs.subrange(0, end as int));
    let has_sign: bool = end > 0 && (b[0] == 43 || b[0] == 45);
    let minus: bool = end > 0 && b[0] == 45;
    let start: usize = if has_sign {
        1
    } else {
        0
    };
    let ghost t = unsigned_part(u);
    assert(t =~= bs.subrange(start as int, end as int));
    let (digits, k, eneg, emag) = match number_parts(b, start, end) {
        Some(parts) => parts,
        None => {
            return Err(not_a_number());
        },
    };
    if minus {
        return Err(AppError::ArgError(String::from_str("size must be strictly positive")));
    }
    scaled_value(&digits, k, eneg, emag, percent, width, Ghost(t))
}

/// The verdict on a well-formed number worth `big + f / pw`, from its sign,
/// its integer part (exact below `F32_OVERFLOW`, else `F32_OVERFLOW`),
/// `floor(width * f / pw)` and whether `f` is nonzero.
fn judge(
    minus: bool,
    percent: bool,
    width: u32,
    int_val: u128,
    carry: u64,
    nonzero: bool,
    Ghost(big): Ghost<nat>,
    Ghost(f): Ghost<nat>,
    Ghost(pw): Ghost<nat>,
) -> (r: AppResult<u32>)
    requires
        pw > 0,
        f < pw,
        carry as nat == (width as nat * f) / pw,
        carry <= width,
        big >= F32_OVERFLOW ==> int_val == F32_OVERFLOW,
        big < F32_OVERFLOW ==> int_val == big,
        nonzero == (f > 0),
    ensures
        r is Ok <==> (!minus && big * pw + f > 0 && big * pw + f < F32_OVERFLOW * pw),
        r is Err ==> r->Err_0 is ArgError,
        r matches Ok(v) ==> v == clamp_u32(
            if percent {
                (width as nat * (big * pw + f)) / (100 * pw)
            } else {
                (big * pw + f) / pw
            },
        ),
{
    proof {
        assert(big > 0 ==> big * pw > 0) by (nonlinear_arith)
            requires
                pw > 0,
        ;
    }
    if minus || (int_val == 0 && !nonzero) {
        return Err(AppError::ArgError(String::from_str("size must be strictly positive")));
    }
    if int_val >= F32_OVERFLOW {
        proof {
            assert(big * pw + f >= F32_OVERFLOW * pw) by (nonlinear_arith)
                requires
                    big >= F32_OVERFLOW,
            ;
        }
        return Err(AppError::ArgError(String::from_str("size must be a normal float")));
    }
    proof {
        assert(big * pw + f < F32_OVERFLOW * pw) by (nonlinear_arith)
            requires
                big + 1 <= F32_OVERFLOW,
                f < pw,
        ;
    }
    Ok(scale_size(percent, width, int_val, carry, Ghost(big), Ghost(f), Ghost(pw)))
}

} // verus!
