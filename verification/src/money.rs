//! Exact rational amounts: addition, decimal rendering and parsing.
//!
//! An amount is a pair `(num, denom)` standing for `num / denom`.
//! Denominators are powers of ten in practice (GnuCash SCUs), but addition
//! handles the general case.

use vstd::prelude::*;
use crate::text::{
    chars_of, digit_char, digit_val, fixed_digits, int_text, in_i64, is_digit, is_whitespace, is_ws, nat_digits, parse_i64,
    parse_i64_from, parse_i64_spec, push_fixed, push_int, push_nat, scan_digits, slice_chars,
    string_of, trim, trim_chars, unsigned_abs, IntErrorKind,
};

verus! {

// ---------------------------------------------------------------------------
// Addition
// ---------------------------------------------------------------------------

pub open spec fn iabs(x: int) -> nat {
    if x < 0 {
        (-x) as nat
    } else {
        x as nat
    }
}

pub open spec fn in_i128(x: int) -> bool {
    i128::MIN <= x <= i128::MAX
}

/// Euclid's greatest common divisor on naturals.
pub open spec fn gcd_nat(a: nat, b: nat) -> nat
    decreases b,
{
    if b == 0 {
        a
    } else {
        gcd_nat(b, a % b)
    }
}

/// The divisor that addition uses: the greatest common divisor of the
/// magnitudes, and 1 where both are zero.
pub open spec fn gcd_spec(a: int, b: int) -> int {
    let g = gcd_nat(iabs(a), iabs(b));
    if g == 0 {
        1
    } else {
        g as int
    }
}

/// The sum of two amounts: over the common denominator where the
/// denominators agree, else over `a.1 / g * b.1` with `g` their gcd.
pub open spec fn add_spec(a: (int, int), b: (int, int)) -> (int, int) {
    if a.1 == b.1 {
        (a.0 + b.0, a.1)
    } else {
        let g = gcd_spec(a.1, b.1);
        (a.0 * (b.1 / g) + b.0 * (a.1 / g), (a.1 / g) * b.1)
    }
}

/// The inputs on which `add` neither divides by zero nor overflows.
pub open spec fn add_fits(a: (int, int), b: (int, int)) -> bool {
    let (a0, a1, b0, b1) = (a.0, a.1, b.0, b.1);
    if a1 == b1 {
        in_i128(a0 + b0)
    } else {
        let g = gcd_spec(a1, b1);
        &&& a1 != 0
        &&& b1 != 0
        &&& in_i128((a1 / g) * b1)
        &&& in_i128(a0 * (b1 / g))
        &&& in_i128(b0 * (a1 / g))
        &&& in_i128(a0 * (b1 / g) + b0 * (a1 / g))
    }
}

pub open spec fn add_ok(a: (i128, i128), b: (i128, i128)) -> bool {
    add_fits(pair_view(a), pair_view(b))
}

pub open spec fn pair_view(p: (i128, i128)) -> (int, int) {
    (p.0 as int, p.1 as int)
}

pub proof fn lemma_gcd_divides(a: nat, b: nat)
    ensures
        gcd_nat(a, b) > 0 ==> a % gcd_nat(a, b) == 0 && b % gcd_nat(a, b) == 0,
        (a > 0 || b > 0) ==> gcd_nat(a, b) > 0,
        b > 0 ==> gcd_nat(a, b) <= b,
    decreases b,
{
    if b > 0 {
        let r = a % b;
        lemma_gcd_divides(b, r);
        let g = gcd_nat(b, r);
        assert(g == gcd_nat(a, b));
        assert(r < b);
        if g > 0 {
            let kb = b / g;
            let kr = r / g;
            assert(b == g * kb) by {
                vstd::arithmetic::div_mod::lemma_fundamental_div_mod(b as int, g as int);
            }
            assert(r == g * kr) by {
                vstd::arithmetic::div_mod::lemma_fundamental_div_mod(r as int, g as int);
            }
            let q = a / b;
            assert(a == b * q + r) by {
                vstd::arithmetic::div_mod::lemma_fundamental_div_mod(a as int, b as int);
            }
            assert(a == (kb * q + kr) * g) by (nonlinear_arith)
                requires
                    a == b * q + r,
                    b == g * kb,
                    r == g * kr,
            ;
            assert((((kb * q + kr) * g) as int) % (g as int) == 0) by {
                vstd::arithmetic::div_mod::lemma_mod_multiples_basic(
                    (kb * q + kr) as int,
                    g as int,
                );
            }
        }
    }
}

/// `a / g` for a positive `g` that divides `a`, computed without
/// dividing a negative number.
fn exact_div(a: i128, g: i128) -> (q: i128)
    requires
        g > 0,
        a % g == 0,
    ensures
        q == a / g,
{
    if a >= 0 {
        a / g
    } else {
        // a == -g * k with k >= 1: -(a + g) == g * (k - 1) >= 0
        let m = -(a + g);
        let r = m / g;
        proof {
            let k = -(a / g);
            vstd::arithmetic::div_mod::lemma_fundamental_div_mod(a as int, g as int);
            assert(a == g * (a / g));
            assert(a / g < 0) by (nonlinear_arith)
                requires
                    a == g * (a / g),
                    a < 0,
                    g > 0,
            ;
            assert(m == g * (k - 1)) by (nonlinear_arith)
                requires
                    m == -(a + g),
                    a == g * (a / g),
                    k == -(a / g),
            ;
            vstd::arithmetic::div_mod::lemma_div_multiples_vanish((k - 1) as int, g as int);
            assert(r == k - 1);
        }
        -r - 1
    }
}

/// Greatest common divisor of the magnitudes, at least 1.
pub fn gcd(a: i128, b: i128) -> (g: i128)
    requires
        gcd_nat(iabs(a as int), iabs(b as int)) <= i128::MAX,
    ensures
        g == gcd_spec(a as int, b as int),
{
    let mut x = unsigned_abs(a);
    let mut y = unsigned_abs(b);
    while y != 0
        invariant
            gcd_nat(x as nat, y as nat) == gcd_nat(iabs(a as int), iabs(b as int)),
        decreases y,
    {
        let t = x % y;
        x = y;
        y = t;
    }
    if x == 0 {
        1
    } else {
        x as i128
    }
}

/// Exact rational amount arithmetic. Denominators are powers of ten in
/// practice (GnuCash SCUs), but addition handles the general case.
pub fn add(a: (i128, i128), b: (i128, i128)) -> (r: (i128, i128))
    requires
        add_ok(a, b),
    ensures
        pair_view(r) == add_spec(pair_view(a), pair_view(b)),
{
    if a.1 == b.1 {
        return (a.0 + b.0, a.1);
    }
    proof {
        lemma_gcd_divides(iabs(a.1 as int), iabs(b.1 as int));
        let ga = gcd_nat(iabs(a.1 as int), iabs(b.1 as int));
        lemma_divisor_le(iabs(a.1 as int), ga);
        lemma_divisor_le(iabs(b.1 as int), ga);
    }
    let g = gcd(a.1, b.1);
    proof {
        let ga = gcd_nat(iabs(a.1 as int), iabs(b.1 as int));
        assert(g == ga);
        lemma_mod_abs(a.1 as int, ga);
        lemma_mod_abs(b.1 as int, ga);
    }
    let qa = exact_div(a.1, g);
    let qb = exact_div(b.1, g);
    let d = qa * b.1;
    (a.0 * qb + b.0 * qa, d)
}

/// A positive divisor of a positive number is at most that number.
proof fn lemma_divisor_le(a: nat, g: nat)
    requires
        a > 0,
        g > 0,
        a % g == 0,
    ensures
        g <= a,
{
    vstd::arithmetic::div_mod::lemma_fundamental_div_mod(a as int, g as int);
    let k = a / g;
    assert(a == g * k);
    assert(k >= 1) by (nonlinear_arith)
        requires
            a == g * k,
            a > 0,
            g > 0,
            k >= 0,
    ;
    assert(g <= a) by (nonlinear_arith)
        requires
            a == g * k,
            k >= 1,
            g > 0,
    ;
}

/// `add`, or `None` on the inputs where `add` would divide by zero or
/// overflow.
pub fn checked_add(a: (i128, i128), b: (i128, i128)) -> (r: Option<(i128, i128)>)
    ensures
        r is Some <==> add_ok(a, b),
        r matches Some(x) ==> pair_view(x) == add_spec(pair_view(a), pair_view(b)),
{
    if a.1 == b.1 {
        return match a.0.checked_add(b.0) {
            Some(n) => Some((n, a.1)),
            None => None,
        };
    }
    if a.1 == 0 || b.1 == 0 {
        return None;
    }
    proof {
        lemma_gcd_divides(iabs(a.1 as int), iabs(b.1 as int));
        let ga = gcd_nat(iabs(a.1 as int), iabs(b.1 as int));
        lemma_divisor_le(iabs(a.1 as int), ga);
        lemma_divisor_le(iabs(b.1 as int), ga);
    }
    let g = gcd(a.1, b.1);
    proof {
        let ga = gcd_nat(iabs(a.1 as int), iabs(b.1 as int));
        lemma_mod_abs(a.1 as int, ga);
        lemma_mod_abs(b.1 as int, ga);
    }
    let qa = exact_div(a.1, g);
    let qb = exact_div(b.1, g);
    let d = match qa.checked_mul(b.1) {
        Some(d) => d,
        None => {
            return None;
        },
    };
    let x = match a.0.checked_mul(qb) {
        Some(x) => x,
        None => {
            return None;
        },
    };
    let y = match b.0.checked_mul(qa) {
        Some(y) => y,
        None => {
            return None;
        },
    };
    match x.checked_add(y) {
        Some(n) => Some((n, d)),
        None => None,
    }
}

/// A divisor of `|x|` divides `x`.
proof fn lemma_mod_abs(x: int, g: nat)
    requires
        g > 0,
        iabs(x) % g == 0,
    ensures
        x % (g as int) == 0,
{
    if x < 0 {
        let k = iabs(x) / g;
        vstd::arithmetic::div_mod::lemma_fundamental_div_mod(iabs(x) as int, g as int);
        assert(x == (g as int) * (-k)) by (nonlinear_arith)
            requires
                iabs(x) == g * k,
                x == -(iabs(x) as int),
        ;
        vstd::arithmetic::div_mod::lemma_mod_multiples_basic(-k, g as int);
    }
}

/// What `add` computes is the exact sum: `r.0 / r.1 == a.0 / a.1 + b.0 / b.1`
/// (cross-multiplied), over a non-zero denominator.
pub proof fn lemma_add_exact(a: (i128, i128), b: (i128, i128))
    requires
        a.1 != 0,
        b.1 != 0,
        add_ok(a, b),
    ensures
        ({
            let r = add_spec(pair_view(a), pair_view(b));
            &&& r.1 != 0
            &&& r.0 * (a.1 * b.1) == (a.0 * b.1 + b.0 * a.1) * r.1
        }),
{
    let r = add_spec(pair_view(a), pair_view(b));
    let (a0, a1, b0, b1) = (a.0 as int, a.1 as int, b.0 as int, b.1 as int);
    if a1 == b1 {
        let r0 = a0 + b0;
        assert(r0 * (a1 * a1) == (a0 * a1 + b0 * a1) * a1) by (nonlinear_arith)
            requires
                r0 == a0 + b0,
        ;
    } else {
        lemma_gcd_divides(iabs(a1), iabs(b1));
        let g = gcd_spec(a1, b1);
        lemma_mod_abs(a1, g as nat);
        lemma_mod_abs(b1, g as nat);
        let qa = a1 / g;
        let qb = b1 / g;
        vstd::arithmetic::div_mod::lemma_fundamental_div_mod(a1, g);
        vstd::arithmetic::div_mod::lemma_fundamental_div_mod(b1, g);
        assert(a1 == g * qa);
        assert(b1 == g * qb);
        assert(r.1 == qa * b1);
        assert(qa != 0) by (nonlinear_arith)
            requires
                a1 == g * qa,
                a1 != 0,
        ;
        assert(r.1 != 0) by (nonlinear_arith)
            requires
                r.1 == qa * b1,
                qa != 0,
                b1 != 0,
        ;
        let r0 = r.0;
        let r1 = r.1;
        assert(a0 * b1 + b0 * a1 == g * r0) by (nonlinear_arith)
            requires
                r0 == a0 * qb + b0 * qa,
                a1 == g * qa,
                b1 == g * qb,
        ;
        assert(a1 * b1 == g * r1) by (nonlinear_arith)
            requires
                r1 == qa * b1,
                a1 == g * qa,
        ;
        assert(r0 * (g * r1) == (g * r0) * r1) by (nonlinear_arith);
    }
}

/// Addition is commutative as a value: swapping the operands gives the
/// same rational number.
pub proof fn lemma_add_commutes(a: (i128, i128), b: (i128, i128))
    requires
        a.1 != 0,
        b.1 != 0,
        add_ok(a, b),
        add_ok(b, a),
    ensures
        ({
            let r = add_spec(pair_view(a), pair_view(b));
            let s = add_spec(pair_view(b), pair_view(a));
            r.0 * s.1 == s.0 * r.1
        }),
{
    lemma_add_exact(a, b);
    lemma_add_exact(b, a);
    let r = add_spec(pair_view(a), pair_view(b));
    let s = add_spec(pair_view(b), pair_view(a));
    let (a0, a1, b0, b1) = (a.0 as int, a.1 as int, b.0 as int, b.1 as int);
    let p = a1 * b1;
    assert(p != 0) by (nonlinear_arith)
        requires
            a1 != 0,
            b1 != 0,
            p == a1 * b1,
    ;
    let n = a0 * b1 + b0 * a1;
    assert(s.0 * (b1 * a1) == (b0 * a1 + a0 * b1) * s.1);
    assert(s.0 * p == n * s.1) by (nonlinear_arith)
        requires
            s.0 * (b1 * a1) == (b0 * a1 + a0 * b1) * s.1,
            p == a1 * b1,
            n == a0 * b1 + b0 * a1,
    ;
    assert(r.0 * s.1 == s.0 * r.1) by (nonlinear_arith)
        requires
            r.0 * p == n * r.1,
            s.0 * p == n * s.1,
            p != 0,
    ;
}

// ---------------------------------------------------------------------------
// Decimal rendering
// ---------------------------------------------------------------------------

pub open spec fn pow10(k: nat) -> int
    decreases k,
{
    if k == 0 {
        1
    } else {
        10 * pow10((k - 1) as nat)
    }
}

/// The number of decimal places a denominator stands for: `Some(k)` for
/// `10^k`, `Some(0)` for anything at most 1, `None` for anything else.
pub open spec fn scale_spec(d: int) -> Option<nat>
    decreases d,
{
    if d <= 1 {
        Some(0)
    } else if d % 10 != 0 {
        None
    } else {
        match scale_spec(d / 10) {
            Some(s) => Some(s + 1),
            None => None,
        }
    }
}

pub proof fn lemma_pow10_pos(k: nat)
    ensures
        pow10(k) >= 1,
    decreases k,
{
    if k > 0 {
        lemma_pow10_pos((k - 1) as nat);
    }
}

pub proof fn lemma_pow10_mono(j: nat, k: nat)
    requires
        j <= k,
    ensures
        pow10(j) <= pow10(k),
    decreases k,
{
    if j < k {
        lemma_pow10_mono(j, (k - 1) as nat);
        lemma_pow10_pos((k - 1) as nat);
    }
}

/// A scale found for a denominator above 1 is its exponent of ten.
pub proof fn lemma_scale_pow10(d: int)
    requires
        d >= 1,
        scale_spec(d) is Some,
    ensures
        d == pow10(scale_spec(d)->0),
    decreases d,
{
    if d > 1 {
        lemma_scale_pow10(d / 10);
        assert(d == 10 * (d / 10));
    }
}

/// `pow10(k)` has scale `k`.
pub proof fn lemma_pow10_scale(k: nat)
    ensures
        scale_spec(pow10(k)) == Some(k),
    decreases k,
{
    if k > 0 {
        lemma_pow10_scale((k - 1) as nat);
        lemma_pow10_pos((k - 1) as nat);
        let p = pow10((k - 1) as nat);
        assert((10 * p) % 10 == 0);
        assert((10 * p) / 10 == p);
    }
}

pub fn pow10_scale(denom: i128) -> (r: Option<u32>)
    ensures
        match r {
            Some(s) => scale_spec(denom as int) == Some(s as nat),
            None => scale_spec(denom as int) is None,
        },
{
    let mut d = denom;
    let mut s: u32 = 0;
    while d > 1
        invariant
            d <= denom,
            s <= 128,
            denom > 1 ==> d >= 1,
            d > 1 ==> pow10(s as nat) * d <= denom,
            match scale_spec(d as int) {
                Some(k) => scale_spec(denom as int) == Some((k + s) as nat),
                None => scale_spec(denom as int) is None,
            },
        decreases d,
    {
        if d % 10 != 0 {
            return None;
        }
        proof {
            lemma_pow10_pos(s as nat);
            assert(pow10((s + 1) as nat) * (d / 10) <= denom) by (nonlinear_arith)
                requires
                    pow10((s + 1) as nat) == 10 * pow10(s as nat),
                    pow10(s as nat) * d <= denom,
                    d % 10 == 0,
                    d > 1,
            ;
            assert(pow10(s as nat) * d >= pow10(s as nat) * 10) by (nonlinear_arith)
                requires
                    pow10(s as nat) >= 1,
                    d >= 10,
            ;
            lemma_pow10_big(s as nat);
        }
        d = d / 10;
        s += 1;
    }
    Some(s)
}

/// Ten to a power above 38 exceeds every `i128`.
pub proof fn lemma_pow10_big(k: nat)
    ensures
        k >= 39 ==> pow10(k) > i128::MAX,
    decreases k,
{
    if k > 0 {
        lemma_pow10_big((k - 1) as nat);
        lemma_pow10_pos((k - 1) as nat);
    }
    if k == 39 {
        reveal_with_fuel(pow10, 40);
    }
}

/// What `format` renders: `num/denom` for a denominator that is not
/// positive, the exact decimal with `k` places for a denominator `10^k`,
/// and nothing (`None`) for any other denominator, which is rendered with
/// six places through floating point by the caller.
pub open spec fn format_spec(num: int, denom: int) -> Option<Seq<char>> {
    if denom <= 0 {
        Some(int_text(num) + seq!['/'] + int_text(denom))
    } else {
        match scale_spec(denom) {
            None => None,
            Some(scale) => {
                let a = iabs(num);
                let ip = a / (denom as nat);
                let fp = a % (denom as nat);
                let sign = if num < 0 {
                    seq!['-']
                } else {
                    Seq::<char>::empty()
                };
                Some(
                    sign + nat_digits(ip) + (if scale == 0 {
                        Seq::<char>::empty()
                    } else {
                        seq!['.'] + fixed_digits(fp, scale)
                    }),
                )
            },
        }
    }
}

/// Format num/denom as a plain decimal string, e.g. (-45654, 100) -> "-456.54".
///
/// Returns `None` exactly for a positive denominator that is not a power
/// of ten: such an amount is rendered with six places through floating
/// point, which the application does.
pub fn format(num: i128, denom: i128) -> (r: Option<String>)
    ensures
        match r {
            Some(s) => format_spec(num as int, denom as int) == Some(s@),
            None => format_spec(num as int, denom as int) is None,
        },
{
    if denom <= 0 {
        let mut s = String::new();
        push_int(&mut s, num);
        s.push('/');
        push_int(&mut s, denom);
        assert(s@ =~= int_text(num as int) + seq!['/'] + int_text(denom as int));
        return Some(s);
    }
    match pow10_scale(denom) {
        None => None,
        Some(scale) => {
            let abs = unsigned_abs(num);
            let base = denom as u128;
            let ip = abs / base;
            let frac = abs % base;
            let mut s = String::new();
            if num < 0 {
                s.push('-');
            }
            push_nat(&mut s, ip);
            if scale != 0 {
                s.push('.');
                push_fixed(&mut s, frac, scale);
            }
            proof {
                let sign = if num < 0 {
                    seq!['-']
                } else {
                    Seq::<char>::empty()
                };
                let tail = if scale == 0 {
                    Seq::<char>::empty()
                } else {
                    seq!['.'] + fixed_digits(frac as nat, scale as nat)
                };
                assert(s@ =~= sign + nat_digits(ip as nat) + tail);
            }
            Some(s)
        },
    }
}

// ---------------------------------------------------------------------------
// Parsing
// ---------------------------------------------------------------------------

/// Why an amount or a fraction was refused.
#[derive(Debug)]
pub enum MoneyError {
    /// Nothing left once separators and whitespace are removed.
    EmptyAmount,
    /// The commodity fraction is not a power of ten.
    BadFraction(i64),
    /// More decimal places than the fraction allows (`amount` is the
    /// cleaned input, `scale` the allowed places).
    TooManyDecimals { amount: String, scale: u32 },
    /// A part that should be an integer is not one.
    InvalidNumber(IntErrorKind),
    /// The amount does not fit in 64 bits.
    Overflow,
    /// A GnuCash fraction without a `/` (the input as given).
    BadGncFraction(String),
}

/// `MoneyError` with its strings taken as character sequences.
pub enum MoneyFault {
    EmptyAmount,
    BadFraction(int),
    TooManyDecimals(Seq<char>, nat),
    InvalidNumber(IntErrorKind),
    Overflow,
    BadGncFraction(Seq<char>),
}

impl View for MoneyError {
    type V = MoneyFault;

    open spec fn view(&self) -> MoneyFault {
        match self {
            MoneyError::EmptyAmount => MoneyFault::EmptyAmount,
            MoneyError::BadFraction(f) => MoneyFault::BadFraction(*f as int),
            MoneyError::TooManyDecimals { amount, scale } => MoneyFault::TooManyDecimals(
                amount@,
                *scale as nat,
            ),
            MoneyError::InvalidNumber(k) => MoneyFault::InvalidNumber(*k),
            MoneyError::Overflow => MoneyFault::Overflow,
            MoneyError::BadGncFraction(s) => MoneyFault::BadGncFraction(s@),
        }
    }
}

pub open spec fn result_view(r: Result<(i64, i64), MoneyError>) -> Result<(int, int), MoneyFault> {
    match r {
        Ok(p) => Ok((p.0 as int, p.1 as int)),
        Err(e) => Err(e@),
    }
}

/// Characters that survive the cleaning of an amount: thousands
/// separators, dollar signs and whitespace are dropped.
pub open spec fn keep_char(c: char) -> bool {
    c != ',' && c != '$' && !is_ws(c)
}

pub open spec fn cleaned(s: Seq<char>) -> Seq<char>
    decreases s.len(),
{
    if s.len() == 0 {
        s
    } else if keep_char(s.last()) {
        cleaned(s.drop_last()).push(s.last())
    } else {
        cleaned(s.drop_last())
    }
}

/// Index of the first `c` in `s`, or `s.len()` where there is none.
pub open spec fn find(s: Seq<char>, c: char) -> int
    decreases s.len(),
{
    if s.len() == 0 {
        0
    } else if s[0] == c {
        0
    } else {
        1 + find(s.drop_first(), c)
    }
}

/// Bytes in the UTF-8 encoding of `c`.
pub open spec fn utf8_width(c: char) -> int {
    if (c as u32) < 0x80 {
        1
    } else if (c as u32) < 0x800 {
        2
    } else if (c as u32) < 0x10000 {
        3
    } else {
        4
    }
}

/// Bytes in the UTF-8 encoding of `s` (what `str::len` returns).
pub open spec fn utf8_len(s: Seq<char>) -> int
    decreases s.len(),
{
    if s.len() == 0 {
        0
    } else {
        utf8_len(s.drop_last()) + utf8_width(s.last())
    }
}

/// `s` without its leading run of `-` and `+`.
pub open spec fn strip_signs(s: Seq<char>) -> Seq<char>
    decreases s.len(),
{
    if s.len() > 0 && (s[0] == '-' || s[0] == '+') {
        strip_signs(s.drop_first())
    } else {
        s
    }
}

/// What `parse` computes for the cleaned amount `t`, once the fraction is
/// known to have `scale` places.
pub open spec fn parse_parts(t: Seq<char>, fraction: int, scale: nat) -> Result<(int, int), MoneyFault> {
    let k = find(t, '.');
    let int_part = t.take(k);
    let frac_part = if k < t.len() {
        t.skip(k + 1)
    } else {
        Seq::<char>::empty()
    };
    if utf8_len(frac_part) > scale {
        Err(MoneyFault::TooManyDecimals(t, scale))
    } else {
        let neg = int_part.len() > 0 && int_part[0] == '-';
        let int_digits = strip_signs(int_part);
        let iv = if int_digits.len() == 0 {
            Ok(0)
        } else {
            parse_i64_spec(int_digits)
        };
        match iv {
            Err(e) => Err(MoneyFault::InvalidNumber(e)),
            Ok(iv) => {
                let fv = if frac_part.len() == 0 {
                    Ok(0)
                } else if !all_digits(frac_part) {
                    Err(IntErrorKind::InvalidDigit)
                } else {
                    match parse_i64_spec(frac_part) {
                        Ok(v) => Ok(v * pow10((scale - utf8_len(frac_part)) as nat)),
                        Err(e) => Err(e),
                    }
                };
                match fv {
                    Err(e) => Err(MoneyFault::InvalidNumber(e)),
                    Ok(fv) => {
                        let m = iv * fraction;
                        if !in_i64(m) || !in_i64(m + fv) {
                            Err(MoneyFault::Overflow)
                        } else {
                            Ok(
                                (
                                    if neg {
                                        -(m + fv)
                                    } else {
                                        m + fv
                                    },
                                    fraction,
                                ),
                            )
                        }
                    },
                }
            },
        }
    }
}

/// What `parse` returns for the input `s` and the commodity fraction.
pub open spec fn parse_spec(s: Seq<char>, fraction: int) -> Result<(int, int), MoneyFault> {
    let t = cleaned(s);
    if t.len() == 0 {
        Err(MoneyFault::EmptyAmount)
    } else {
        match scale_spec(fraction) {
            None => Err(MoneyFault::BadFraction(fraction)),
            Some(scale) => parse_parts(t, fraction, scale),
        }
    }
}

/// The inputs on which `parse` does not overflow: a result of
/// `-i64::MIN` cannot be negated back into range.
pub open spec fn parse_ok(s: Seq<char>, fraction: int) -> bool {
    parse_spec(s, fraction) matches Ok(p) ==> in_i64(p.0)
}

fn clean_chars(v: &[char]) -> (r: Vec<char>)
    ensures
        r@ == cleaned(v@),
{
    let mut r: Vec<char> = Vec::new();
    let mut i: usize = 0;
    assert(v@.take(0) =~= Seq::<char>::empty());
    while i < v.len()
        invariant
            i <= v.len(),
            r@ == cleaned(v@.take(i as int)),
        decreases v.len() - i,
    {
        let c = v[i];
        let ghost pre = v@.take(i as int);
        let ghost cur = v@.take(i + 1);
        assert(cur.drop_last() =~= pre);
        if c != ',' && c != '$' && !is_whitespace(c) {
            r.push(c);
        }
        i += 1;
    }
    assert(v@.take(v.len() as int) =~= v@);
    r
}

/// Every character of `v` from `from` on is an ASCII digit.
fn digits_from(v: &[char], from: usize) -> (r: bool)
    requires
        from <= v.len(),
    ensures
        r == all_digits(v@.subrange(from as int, v.len() as int)),
{
    let ghost w = v@.subrange(from as int, v.len() as int);
    let mut i = from;
    while i < v.len()
        invariant
            from <= i <= v.len(),
            w == v@.subrange(from as int, v.len() as int),
            forall|j: int| 0 <= j < i - from ==> is_digit(#[trigger] w[j]),
        decreases v.len() - i,
    {
        if !('0' <= v[i] && v[i] <= '9') {
            assert(w[i - from] == v@[i as int]);
            assert(!is_digit(w[i - from]));
            return false;
        }
        assert(w[i - from] == v@[i as int]);
        i += 1;
    }
    true
}

pub(crate) fn find_char(v: &[char], c: char) -> (k: usize)
    ensures
        k as int == find(v@, c),
        k <= v.len(),
{
    let mut k: usize = 0;
    assert(v@.subrange(0, v.len() as int) =~= v@);
    while k < v.len() && v[k] != c
        invariant
            k <= v.len(),
            find(v@, c) == k + find(v@.subrange(k as int, v.len() as int), c),
        decreases v.len() - k,
    {
        let ghost u = v@.subrange(k as int, v.len() as int);
        assert(u.drop_first() =~= v@.subrange(k + 1, v.len() as int));
        k += 1;
    }
    proof {
        let u = v@.subrange(k as int, v.len() as int);
        assert(find(u, c) == 0);
    }
    k
}

pub(crate) fn utf8_len_exec(v: &[char]) -> (n: u128)
    ensures
        n as int == utf8_len(v@),
{
    let mut n: u128 = 0;
    let mut i: usize = 0;
    assert(v@.take(0) =~= Seq::<char>::empty());
    while i < v.len()
        invariant
            i <= v.len(),
            n as int == utf8_len(v@.take(i as int)),
            n <= 4 * i,
        decreases v.len() - i,
    {
        let ghost cur = v@.take(i + 1);
        assert(cur.drop_last() =~= v@.take(i as int));
        let u = v[i] as u32;
        let w: u128 = if u < 0x80 {
            1
        } else if u < 0x800 {
            2
        } else if u < 0x10000 {
            3
        } else {
            4
        };
        n = n + w;
        i += 1;
    }
    assert(v@.take(v.len() as int) =~= v@);
    n
}

fn strip_signs_from(v: &[char], start: usize, end: usize) -> (k: usize)
    requires
        start <= end <= v.len(),
    ensures
        start <= k <= end,
        strip_signs(v@.subrange(start as int, end as int)) == v@.subrange(k as int, end as int),
{
    let mut k = start;
    while k < end && (v[k] == '-' || v[k] == '+')
        invariant
            start <= k <= end <= v.len(),
            strip_signs(v@.subrange(start as int, end as int)) == strip_signs(
                v@.subrange(k as int, end as int),
            ),
        decreases end - k,
    {
        let ghost u = v@.subrange(k as int, end as int);
        assert(u.drop_first() =~= v@.subrange(k + 1, end as int));
        k += 1;
    }
    k
}

fn pow10_i64(k: u32) -> (p: i64)
    requires
        k <= 18,
    ensures
        p == pow10(k as nat),
{
    let mut p: i64 = 1;
    let mut i: u32 = 0;
    while i < k
        invariant
            i <= k <= 18,
            p == pow10(i as nat),
        decreases k - i,
    {
        proof {
            lemma_pow10_mono((i + 1) as nat, 18);
            reveal_with_fuel(pow10, 19);
        }
        p = p * 10;
        i += 1;
    }
    p
}

/// The value of a digit scan is bounded by the number of characters.
pub proof fn lemma_scan_bound(s: Seq<char>, neg: bool)
    ensures
        scan_digits(s, neg) matches Ok(v) ==> iabs(v) < pow10(s.len()),
    decreases s.len(),
{
    if s.len() > 0 {
        lemma_scan_bound(s.drop_last(), neg);
        lemma_pow10_pos((s.len() - 1) as nat);
    }
}

pub proof fn lemma_parse_i64_bound(s: Seq<char>)
    ensures
        parse_i64_spec(s) matches Ok(v) ==> iabs(v) < pow10(s.len()),
{
    if s.len() > 0 {
        lemma_scan_bound(s, false);
        lemma_scan_bound(s.drop_first(), false);
        lemma_scan_bound(s.drop_first(), true);
        lemma_pow10_mono((s.len() - 1) as nat, s.len());
    }
}

pub proof fn lemma_utf8_len_ge(s: Seq<char>)
    ensures
        utf8_len(s) >= s.len(),
    decreases s.len(),
{
    if s.len() > 0 {
        lemma_utf8_len_ge(s.drop_last());
    }
}

/// Parse a decimal string like "-1,234.56" into num/denom with the given
/// commodity fraction (e.g. 100). Fails if more precision than the fraction
/// allows, and where the part after the point is not all digits.
pub fn parse(s: &str, fraction: i64) -> (r: Result<(i64, i64), MoneyError>)
    requires
        parse_ok(s@, fraction as int),
    ensures
        result_view(r) == parse_spec(s@, fraction as int),
{
    parse_or_overflow(s, fraction)
}

/// `parse`, extended to the inputs where it would overflow negating the
/// amount (a negative fraction that scales the amount to `i64::MIN`):
/// there it returns `Overflow`.
pub fn parse_or_overflow(s: &str, fraction: i64) -> (r: Result<(i64, i64), MoneyError>)
    ensures
        parse_ok(s@, fraction as int) ==> result_view(r) == parse_spec(s@, fraction as int),
        !parse_ok(s@, fraction as int) ==> (r matches Err(e) && e is Overflow),
{
    let raw = chars_of(s);
    let t = clean_chars(&raw);
    if t.len() == 0 {
        return Err(MoneyError::EmptyAmount);
    }
    let scale = match pow10_scale(fraction as i128) {
        Some(sc) => sc,
        None => {
            return Err(MoneyError::BadFraction(fraction));
        },
    };
    proof {
        if fraction > 1 {
            lemma_scale_pow10(fraction as int);
            if scale >= 19 {
                lemma_pow10_mono(19, scale as nat);
                reveal_with_fuel(pow10, 20);
            }
        }
    }
    assert(scale <= 18);
    let k = find_char(&t, '.');
    let frac_start = if k < t.len() {
        k + 1
    } else {
        t.len()
    };
    let ghost int_part = t@.take(k as int);
    let ghost frac_part = t@.subrange(frac_start as int, t.len() as int);
    assert(frac_part =~= (if (k as int) < t@.len() {
        t@.skip(k + 1)
    } else {
        Seq::<char>::empty()
    }));
    let frac_bytes = utf8_len_exec(&slice_chars(&t, frac_start, t.len()));
    if frac_bytes > scale as u128 {
        return Err(MoneyError::TooManyDecimals { amount: string_of(&t), scale });
    }
    let neg = k > 0 && t[0] == '-';
    assert(int_part =~= t@.subrange(0, k as int));
    let ds = strip_signs_from(&t, 0, k);
    let ip = slice_chars(&t, 0, k);
    assert(ip@.subrange(ds as int, k as int) =~= t@.subrange(ds as int, k as int));
    let int_val: i64 = if ds == k {
        0
    } else {
        match parse_i64_from(&ip, ds) {
            Ok(v) => v,
            Err(e) => {
                return Err(MoneyError::InvalidNumber(e));
            },
        }
    };
    let frac_val: i64 = if frac_start == t.len() {
        0
    } else if !digits_from(&t, frac_start) {
        return Err(MoneyError::InvalidNumber(IntErrorKind::InvalidDigit));
    } else {
        match parse_i64_from(&t, frac_start) {
            Ok(v) => {
                proof {
                    lemma_parse_i64_bound(frac_part);
                    lemma_utf8_len_ge(frac_part);
                    lemma_pow10_mono(frac_part.len(), scale as nat);
                    lemma_pow10_mono(scale as nat, 18);
                    reveal_with_fuel(pow10, 19);
                    let e = (scale - frac_bytes) as nat;
                    lemma_pow10_pos(e);
                    lemma_pow10_mono(e + frac_part.len(), scale as nat);
                    lemma_pow10_add(e, frac_part.len());
                    assert(iabs(v as int) * pow10(e) <= pow10(scale as nat)) by (nonlinear_arith)
                        requires
                            iabs(v as int) < pow10(frac_part.len()),
                            pow10(e) >= 1,
                            pow10(e) * pow10(frac_part.len()) == pow10(e + frac_part.len()),
                            pow10(e + frac_part.len()) <= pow10(scale as nat),
                    ;
                    assert(in_i64(v * pow10(e))) by (nonlinear_arith)
                        requires
                            iabs(v as int) * pow10(e) <= pow10(scale as nat),
                            pow10(scale as nat) <= 1000000000000000000,
                            pow10(e) >= 1,
                    ;
                }
                v * pow10_i64(scale - frac_bytes as u32)
            },
            Err(e) => {
                return Err(MoneyError::InvalidNumber(e));
            },
        }
    };
    let mag = match int_val.checked_mul(fraction) {
        Some(m) => match m.checked_add(frac_val) {
            Some(v) => v,
            None => {
                return Err(MoneyError::Overflow);
            },
        },
        None => {
            return Err(MoneyError::Overflow);
        },
    };
    if neg && mag == i64::MIN {
        return Err(MoneyError::Overflow);
    }
    Ok(
        (
            if neg {
                -mag
            } else {
                mag
            },
            fraction,
        ),
    )
}

pub proof fn lemma_pow10_add(a: nat, b: nat)
    ensures
        pow10(a) * pow10(b) == pow10(a + b),
    decreases a,
{
    if a > 0 {
        lemma_pow10_add((a - 1) as nat, b);
        assert(pow10(a) * pow10(b) == 10 * (pow10((a - 1) as nat) * pow10(b))) by (nonlinear_arith)
            requires
                pow10(a) == 10 * pow10((a - 1) as nat),
        ;
    }
}

/// What `parse_gnc_fraction` returns for `s`: the two trimmed sides of the
/// first `/`, each parsed as an `i64`.
pub open spec fn gnc_fraction_spec(s: Seq<char>) -> Result<(int, int), MoneyFault> {
    let k = find(s, '/');
    if k == s.len() {
        Err(MoneyFault::BadGncFraction(s))
    } else {
        match parse_i64_spec(trim(s.take(k))) {
            Err(e) => Err(MoneyFault::InvalidNumber(e)),
            Ok(n) => match parse_i64_spec(trim(s.skip(k + 1))) {
                Err(e) => Err(MoneyFault::InvalidNumber(e)),
                Ok(d) => Ok((n, d)),
            },
        }
    }
}

/// Parse a GnuCash fraction string like "44677/100".
pub fn parse_gnc_fraction(s: &str) -> (r: Result<(i64, i64), MoneyError>)
    ensures
        result_view(r) == gnc_fraction_spec(s@),
{
    let v = chars_of(s);
    let k = find_char(&v, '/');
    if k == v.len() {
        return Err(MoneyError::BadGncFraction(string_of(&v)));
    }
    let left = slice_chars(&v, 0, k);
    let right = slice_chars(&v, k + 1, v.len());
    assert(left@ =~= v@.take(k as int));
    assert(right@ =~= v@.skip(k + 1));
    let n = match parse_i64(&trim_chars(&left)) {
        Ok(n) => n,
        Err(e) => {
            return Err(MoneyError::InvalidNumber(e));
        },
    };
    let d = match parse_i64(&trim_chars(&right)) {
        Ok(d) => d,
        Err(e) => {
            return Err(MoneyError::InvalidNumber(e));
        },
    };
    Ok((n, d))
}

} // verus!

verus! {

// ---------------------------------------------------------------------------
// Rendering then parsing gives the amount back
// ---------------------------------------------------------------------------

pub open spec fn all_digits(s: Seq<char>) -> bool {
    forall|i: int| 0 <= i < s.len() ==> is_digit(#[trigger] s[i])
}

pub proof fn lemma_digit_char(d: nat)
    requires
        d < 10,
    ensures
        is_digit(digit_char(d)),
        digit_val(digit_char(d)) == d,
        digit_char(d) != '-' && digit_char(d) != '+' && digit_char(d) != '.',
{
}

pub proof fn lemma_nat_digits(n: nat)
    ensures
        nat_digits(n).len() >= 1,
        all_digits(nat_digits(n)),
        n <= i64::MAX ==> scan_digits(nat_digits(n), false) == Ok::<int, IntErrorKind>(n as int),
    decreases n,
{
    lemma_digit_char((n % 10) as nat);
    if n >= 10 {
        lemma_nat_digits(n / 10);
        let p = nat_digits(n / 10);
        let s = nat_digits(n);
        assert(s.drop_last() =~= p);
        assert(forall|i: int| 0 <= i < p.len() ==> s[i] == p[i]);
        assert((n / 10) * 10 + n % 10 == n);
    } else {
        let s = nat_digits(n);
        assert(s.drop_last() =~= Seq::<char>::empty());
        assert(n % 10 == n);
    }
}

pub proof fn lemma_fixed_digits(n: nat, w: nat)
    ensures
        fixed_digits(n, w).len() == w,
        all_digits(fixed_digits(n, w)),
        pow10(w) <= i64::MAX + 1 ==> scan_digits(fixed_digits(n, w), false) == Ok::<
            int,
            IntErrorKind,
        >((n % (pow10(w) as nat)) as int),
    decreases w,
{
    lemma_pow10_pos(w);
    if w > 0 {
        let p = pow10((w - 1) as nat);
        lemma_pow10_pos((w - 1) as nat);
        lemma_fixed_digits(n / 10, (w - 1) as nat);
        let s = fixed_digits(n, w);
        let t = fixed_digits(n / 10, (w - 1) as nat);
        assert(s.drop_last() =~= t);
        assert(forall|i: int| 0 <= i < t.len() ==> s[i] == t[i]);
        if pow10(w) <= i64::MAX + 1 {
            vstd::arithmetic::div_mod::lemma_mod_breakdown(n as int, 10, p);
            assert(n % (pow10(w) as nat) == 10 * ((n / 10) % (p as nat)) + n % 10);
            vstd::arithmetic::div_mod::lemma_mod_pos_bound(n as int, pow10(w));
        }
    } else {
        assert(n % 1 == 0);
    }
}

/// The digits of `n` read back as an `i128`.
pub proof fn lemma_nat_digits_128(n: nat)
    ensures
        n <= i128::MAX ==> crate::text::scan_digits_128(nat_digits(n), false) == Ok::<
            int,
            IntErrorKind,
        >(n as int),
    decreases n,
{
    let d = (n % 10) as nat;
    lemma_digit_char(d);
    let s = nat_digits(n);
    if n <= i128::MAX {
        if n >= 10 {
            lemma_nat_digits_128(n / 10);
            let p = nat_digits(n / 10);
            assert(s == p.push(digit_char(d)));
            assert(s.drop_last() =~= p);
            assert(s.last() == digit_char(d));
            assert(crate::text::scan_digits_128(s.drop_last(), false) == Ok::<int, IntErrorKind>((n / 10) as int));
            assert((n / 10) * 10 + d == n);
        } else {
            assert(s == seq![digit_char(d)]);
            assert(s.drop_last() =~= Seq::<char>::empty());
            assert(s.last() == digit_char(d));
            assert(n % 10 == n);
        }
    }
}

/// The `w` fixed digits of `n` read back as an `i128`.
pub proof fn lemma_fixed_digits_128(n: nat, w: nat)
    ensures
        pow10(w) <= i128::MAX + 1 ==> crate::text::scan_digits_128(fixed_digits(n, w), false)
            == Ok::<int, IntErrorKind>((n % (pow10(w) as nat)) as int),
    decreases w,
{
    lemma_pow10_pos(w);
    lemma_fixed_digits(n, w);
    if w > 0 {
        let p = pow10((w - 1) as nat);
        lemma_pow10_pos((w - 1) as nat);
        lemma_fixed_digits_128(n / 10, (w - 1) as nat);
        lemma_digit_char((n % 10) as nat);
        let s = fixed_digits(n, w);
        let t = fixed_digits(n / 10, (w - 1) as nat);
        assert(s.drop_last() =~= t);
        if pow10(w) <= i128::MAX + 1 {
            vstd::arithmetic::div_mod::lemma_mod_breakdown(n as int, 10, p);
            assert(n % (pow10(w) as nat) == 10 * ((n / 10) % (p as nat)) + n % 10);
            vstd::arithmetic::div_mod::lemma_mod_pos_bound(n as int, pow10(w));
        }
    } else {
        assert(n % 1 == 0);
    }
}

proof fn lemma_cleaned_id(s: Seq<char>)
    requires
        forall|i: int| 0 <= i < s.len() ==> keep_char(#[trigger] s[i]),
    ensures
        cleaned(s) == s,
    decreases s.len(),
{
    if s.len() > 0 {
        lemma_cleaned_id(s.drop_last());
        assert(s.drop_last().push(s.last()) =~= s);
    }
}

pub proof fn lemma_find_skip(a: Seq<char>, b: Seq<char>, c: char)
    requires
        forall|i: int| 0 <= i < a.len() ==> #[trigger] a[i] != c,
    ensures
        find(a + b, c) == a.len() + find(b, c),
    decreases a.len(),
{
    if a.len() > 0 {
        lemma_find_skip(a.drop_first(), b, c);
        assert((a + b).drop_first() =~= a.drop_first() + b);
    } else {
        assert(a + b =~= b);
    }
}

pub proof fn lemma_utf8_ascii(s: Seq<char>)
    requires
        all_digits(s),
    ensures
        utf8_len(s) == s.len(),
    decreases s.len(),
{
    if s.len() > 0 {
        assert(all_digits(s.drop_last())) by {
            assert(forall|i: int| 0 <= i < s.len() - 1 ==> s.drop_last()[i] == s[i]);
        }
        lemma_utf8_ascii(s.drop_last());
    }
}

/// Rendering an amount and parsing the text back with the same fraction
/// gives the amount back: `parse(format(num, f), f) == Ok((num, f))` for
/// every `i64` amount above `i64::MIN` and every power-of-ten fraction `f`.
#[verifier::rlimit(60)]
pub proof fn lemma_format_parse_roundtrip(num: i64, fraction: i64)
    requires
        num > i64::MIN,
        fraction >= 1,
        scale_spec(fraction as int) is Some,
    ensures
        format_spec(num as int, fraction as int) is Some,
        parse_spec(format_spec(num as int, fraction as int)->0, fraction as int) == Ok::<
            (int, int),
            MoneyFault,
        >((num as int, fraction as int)),
{
    let f = fraction as int;
    let scale = scale_spec(f)->0;
    lemma_scale_pow10(f);
    let a = iabs(num as int);
    let ip = a / (f as nat);
    let fp = a % (f as nat);
    let sign = if num < 0 {
        seq!['-']
    } else {
        Seq::<char>::empty()
    };
    let digits = nat_digits(ip);
    let fixed = fixed_digits(fp, scale);
    let tail = if scale == 0 {
        Seq::<char>::empty()
    } else {
        seq!['.'] + fixed
    };
    let s = sign + digits + tail;
    assert(format_spec(num as int, f) == Some(s));
    assert(ip <= a) by {
        vstd::arithmetic::div_mod::lemma_div_is_ordered_by_denominator(a as int, 1, f);
    }
    lemma_nat_digits(ip);
    lemma_fixed_digits(fp, scale);
    // the text is already clean
    assert forall|i: int| 0 <= i < s.len() implies keep_char(#[trigger] s[i]) by {
        if i < sign.len() {
        } else if i < sign.len() + digits.len() {
            assert(s[i] == digits[i - sign.len()]);
        } else if i == sign.len() + digits.len() {
        } else {
            assert(s[i] == fixed[i - sign.len() - digits.len() - 1]);
        }
    }
    lemma_cleaned_id(s);
    assert(s.len() > 0);
    // the decimal point sits right after the integer digits
    let head = sign + digits;
    assert forall|i: int| 0 <= i < head.len() implies #[trigger] head[i] != '.' by {
        if i >= sign.len() {
            assert(head[i] == digits[i - sign.len()]);
        }
    }
    lemma_find_skip(head, tail, '.');
    assert(s == head + tail);
    let k = find(s, '.');
    assert(k == head.len()) by {
        if scale == 0 {
            assert(tail.len() == 0);
        } else {
            assert(tail[0] == '.');
        }
    }
    assert(s.take(k) =~= head);
    let frac_part = if k < s.len() {
        s.skip(k + 1)
    } else {
        Seq::<char>::empty()
    };
    assert(frac_part =~= fixed) by {
        if scale == 0 {
            assert(fixed.len() == 0);
        } else {
            assert(s.skip(k + 1) =~= fixed);
        }
    }
    lemma_utf8_ascii(fixed);
    // the sign
    let neg = head.len() > 0 && head[0] == '-';
    assert(neg == (num < 0)) by {
        if num >= 0 {
            assert(head[0] == digits[0]);
        }
    }
    assert(strip_signs(head) == digits) by {
        assert(digits[0] != '-' && digits[0] != '+');
        assert(strip_signs(digits) == digits);
        if num < 0 {
            assert(head.drop_first() =~= digits);
        } else {
            assert(head =~= digits);
        }
        assert(digits[0] != '-' && digits[0] != '+');
    }
    // the two integers
    assert(ip <= i64::MAX);
    assert(parse_i64_spec(digits) == Ok::<int, IntErrorKind>(ip as int)) by {
        assert(digits[0] != '-' && digits[0] != '+');
    }
    lemma_pow10_pos(scale);
    if scale > 0 {
        assert(parse_i64_spec(fixed) == Ok::<int, IntErrorKind>(fp as int)) by {
            assert(fixed[0] != '-' && fixed[0] != '+');
            vstd::arithmetic::div_mod::lemma_small_mod(fp, f as nat);
        }
        assert(pow10(0) == 1);
    }
    vstd::arithmetic::div_mod::lemma_fundamental_div_mod(a as int, f);
    assert(a == f * (ip as int) + fp);
    assert(ip * f == f * ip) by (nonlinear_arith);
    assert(ip * f + fp == a);
    assert(0 <= ip * f) by (nonlinear_arith)
        requires
            f >= 1,
    ;
}


/// The digits of `n` read back with a leading minus, down to `i64::MIN`.
proof fn lemma_neg_digits(n: nat)
    ensures
        n <= i64::MAX + 1 ==> scan_digits(nat_digits(n), true) == Ok::<int, IntErrorKind>(-n),
    decreases n,
{
    let d = (n % 10) as nat;
    lemma_digit_char(d);
    let s = nat_digits(n);
    if n <= i64::MAX + 1 {
        if n >= 10 {
            lemma_neg_digits(n / 10);
            let p = nat_digits(n / 10);
            assert(s == p.push(digit_char(d)));
            assert(s.drop_last() =~= p);
            assert(s.last() == digit_char(d));
            assert(scan_digits(s.drop_last(), true) == Ok::<int, IntErrorKind>(-((n / 10) as int)));
            assert((n / 10) * 10 + d == n);
            assert(-((n / 10) as int) * 10 - d == -n);
        } else {
            assert(s == seq![digit_char(d)]);
            assert(s.drop_last() =~= Seq::<char>::empty());
            assert(s.last() == digit_char(d));
            assert(n % 10 == n);
        }
    }
}

/// Text without whitespace at its ends is its own trim.
proof fn lemma_trim_id(s: Seq<char>)
    requires
        s.len() > 0,
        !is_ws(s[0]),
        !is_ws(s.last()),
    ensures
        trim(s) == s,
{
}

/// The text of an `i64`: no `/`, no whitespace at its ends, and it parses
/// back to the number.
proof fn lemma_int_text(n: i64)
    ensures
        int_text(n as int).len() > 0,
        forall|i: int| 0 <= i < int_text(n as int).len() ==> #[trigger] int_text(n as int)[i] != '/',
        trim(int_text(n as int)) == int_text(n as int),
        parse_i64_spec(int_text(n as int)) == Ok::<int, IntErrorKind>(n as int),
{
    let t = int_text(n as int);
    let m: nat = if n < 0 { (-(n as int)) as nat } else { n as nat };
    let d = nat_digits(m);
    lemma_nat_digits(m);
    lemma_neg_digits(m);
    lemma_digit_char(m % 10);
    assert(is_digit(d[0]) && is_digit(d.last()));
    assert forall|i: int| 0 <= i < t.len() implies #[trigger] t[i] != '/' by {
        if n < 0 {
            if i > 0 {
                assert(t[i] == d[i - 1]);
                assert(is_digit(d[i - 1]));
            }
        } else {
            assert(is_digit(d[i]));
        }
    }
    if n < 0 {
        assert(t.drop_first() =~= d);
        assert(t.last() == d.last());
    }
    lemma_trim_id(t);
}

/// Writing a GnuCash fraction as `n/d` and parsing it gives `(n, d)` back:
/// neither side is reduced and no sign moves.
pub proof fn lemma_gnc_fraction_roundtrip(n: i64, d: i64)
    ensures
        gnc_fraction_spec(int_text(n as int) + seq!['/'] + int_text(d as int)) == Ok::<
            (int, int),
            MoneyFault,
        >((n as int, d as int)),
{
    let a = int_text(n as int);
    let b = int_text(d as int);
    let tail = seq!['/'] + b;
    let s = a + tail;
    lemma_int_text(n);
    lemma_int_text(d);
    lemma_find_skip(a, tail, '/');
    assert(find(tail, '/') == 0);
    assert(s =~= a + seq!['/'] + b);
    assert(s.take(a.len() as int) =~= a);
    assert(s.skip(a.len() as int + 1) =~= b);
}

/// Text without a `/` is no GnuCash fraction.
pub proof fn lemma_gnc_fraction_needs_slash(s: Seq<char>)
    requires
        !s.contains('/'),
    ensures
        gnc_fraction_spec(s) is Err,
{
    assert forall|i: int| 0 <= i < s.len() implies #[trigger] s[i] != '/' by {
        if s[i] == '/' {
            assert(s.contains('/'));
        }
    }
    lemma_find_skip(s, Seq::<char>::empty(), '/');
    assert(s + Seq::<char>::empty() =~= s);
}

/// With a fraction that is not negative, `parse` never overflows: its
/// integer part is not negative and its fraction part is above `-10^18`.
pub proof fn lemma_parse_ok_nonneg(s: Seq<char>, fraction: i64)
    requires
        fraction >= 0,
    ensures
        parse_ok(s, fraction as int),
{
    let t = cleaned(s);
    if t.len() > 0 {
        if let Some(scale) = scale_spec(fraction as int) {
            if fraction > 1 {
                lemma_scale_pow10(fraction as int);
                if scale >= 19 {
                    lemma_pow10_mono(19, scale);
                    reveal_with_fuel(pow10, 20);
                }
            }
            assert(scale <= 18);
            let k = find(t, '.');
            let int_part = t.take(k);
            let frac_part = if k < t.len() {
                t.skip(k + 1)
            } else {
                Seq::<char>::empty()
            };
            if utf8_len(frac_part) <= scale {
                let int_digits = strip_signs(int_part);
                lemma_strip_signs_head(int_part);
                if int_digits.len() > 0 {
                    crate::text::lemma_scan_in_range(int_digits, false);
                }
                if frac_part.len() > 0 {
                    if let Ok(v) = parse_i64_spec(frac_part) {
                        lemma_parse_i64_bound(frac_part);
                        lemma_utf8_len_ge(frac_part);
                        reveal_with_fuel(pow10, 19);
                        lemma_pow10_mono(scale, 18);
                        let e = (scale - utf8_len(frac_part)) as nat;
                        lemma_pow10_pos(e);
                        lemma_pow10_mono(e + frac_part.len(), scale);
                        lemma_pow10_add(e, frac_part.len());
                        assert(iabs(v) * pow10(e) <= pow10(scale)) by (nonlinear_arith)
                            requires
                                iabs(v) < pow10(frac_part.len()),
                                pow10(e) >= 1,
                                pow10(e) * pow10(frac_part.len()) == pow10(e + frac_part.len()),
                                pow10(e + frac_part.len()) <= pow10(scale),
                        ;
                        assert(v * pow10(e) >= -1000000000000000000) by (nonlinear_arith)
                            requires
                                iabs(v) * pow10(e) <= pow10(scale),
                                pow10(scale) <= 1000000000000000000,
                                pow10(e) >= 1,
                        ;
                    }
                }
                if int_digits.len() > 0 {
                    if let Ok(iv) = parse_i64_spec(int_digits) {
                        assert(iv >= 0);
                        assert(iv * fraction >= 0) by (nonlinear_arith)
                            requires
                                iv >= 0,
                                fraction >= 0,
                        ;
                    }
                }
            }
        }
    }
}

/// What remains after stripping signs does not start with one.
proof fn lemma_strip_signs_head(s: Seq<char>)
    ensures
        strip_signs(s).len() > 0 ==> strip_signs(s)[0] != '-' && strip_signs(s)[0] != '+',
    decreases s.len(),
{
    if s.len() > 0 && (s[0] == '-' || s[0] == '+') {
        lemma_strip_signs_head(s.drop_first());
    }
}

} // verus!
