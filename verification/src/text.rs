//! Character-level text handling shared by the rest of the library:
//! whitespace and trimming, decimal digit strings, and the integer syntax
//! that the standard library's `str::parse` accepts.

use vstd::prelude::*;

verus! {

/// `String::push` appends one character.
pub assume_specification[ String::push ](s: &mut String, ch: char)
    ensures
        final(s)@ == old(s)@.push(ch),
;

/// `String::push_str` appends a whole string slice.
pub assume_specification[ String::push_str ](s: &mut String, string: &str)
    ensures
        final(s)@ == old(s)@ + string@,
;

// ---------------------------------------------------------------------------
// Whitespace and trimming
// ---------------------------------------------------------------------------

/// The Unicode `White_Space` property, which is what `char::is_whitespace`
/// tests.
pub open spec fn is_ws(c: char) -> bool {
    let u = c as u32;
    ||| 0x09 <= u <= 0x0d
    ||| u == 0x20
    ||| u == 0x85
    ||| u == 0xa0
    ||| u == 0x1680
    ||| 0x2000 <= u <= 0x200a
    ||| u == 0x2028
    ||| u == 0x2029
    ||| u == 0x202f
    ||| u == 0x205f
    ||| u == 0x3000
}

pub fn is_whitespace(c: char) -> (r: bool)
    ensures
        r == is_ws(c),
{
    let u = c as u32;
    (0x09 <= u && u <= 0x0d) || u == 0x20 || u == 0x85 || u == 0xa0 || u == 0x1680 || (0x2000
        <= u && u <= 0x200a) || u == 0x2028 || u == 0x2029 || u == 0x202f || u == 0x205f || u
        == 0x3000
}

/// Leading whitespace removed.
pub open spec fn trim_start(s: Seq<char>) -> Seq<char>
    decreases s.len(),
{
    if s.len() > 0 && is_ws(s[0]) {
        trim_start(s.drop_first())
    } else {
        s
    }
}

/// Trailing whitespace removed.
pub open spec fn trim_end(s: Seq<char>) -> Seq<char>
    decreases s.len(),
{
    if s.len() > 0 && is_ws(s.last()) {
        trim_end(s.drop_last())
    } else {
        s
    }
}

/// Whitespace removed at both ends, as `str::trim` does.
pub open spec fn trim(s: Seq<char>) -> Seq<char> {
    trim_end(trim_start(s))
}

/// The first whitespace-free word of `s`, or `s` itself where it holds
/// none (`split_whitespace().next().unwrap_or(s)`).
pub open spec fn first_word(s: Seq<char>) -> Seq<char> {
    let t = trim_start(s);
    if t.len() == 0 {
        s
    } else {
        t.take(word_len(t))
    }
}

/// Length of the run of non-whitespace characters at the start of `s`.
pub open spec fn word_len(s: Seq<char>) -> int
    decreases s.len(),
{
    if s.len() == 0 || is_ws(s[0]) {
        0
    } else {
        1 + word_len(s.drop_first())
    }
}

pub fn chars_of(s: &str) -> (v: Vec<char>)
    ensures
        v@ == s@,
{
    let mut v: Vec<char> = Vec::new();
    for c in it: s.chars()
        invariant
            v@ == it.seq().take(it.index() as int),
    {
        v.push(c);
    }
    v
}

pub fn string_of(v: &[char]) -> (s: String)
    ensures
        s@ == v@,
{
    let mut s = String::new();
    let mut i: usize = 0;
    while i < v.len()
        invariant
            i <= v.len(),
            s@ == v@.take(i as int),
        decreases v.len() - i,
    {
        s.push(v[i]);
        i += 1;
        assert(s@ =~= v@.take(i as int));
    }
    assert(v@.take(v.len() as int) =~= v@);
    s
}

/// Two character vectors are equal.
pub fn chars_eq(x: &[char], y: &[char]) -> (r: bool)
    ensures
        r == (x@ == y@),
{
    if x.len() != y.len() {
        return false;
    }
    let mut i: usize = 0;
    while i < x.len()
        invariant
            i <= x.len(),
            x.len() == y.len(),
            forall|j: int| 0 <= j < i ==> x@[j] == y@[j],
        decreases x.len() - i,
    {
        if x[i] != y[i] {
            return false;
        }
        i += 1;
    }
    assert(x@ =~= y@);
    true
}

/// A string equals a string slice (typically a literal).
pub fn string_is(a: &String, lit: &str) -> (r: bool)
    ensures
        r == (a@ == lit@),
{
    let x = chars_of(a.as_str());
    let y = chars_of(lit);
    chars_eq(&x, &y)
}

/// A string slice as an owned string.
pub fn owned(lit: &str) -> (s: String)
    ensures
        s@ == lit@,
{
    let v = chars_of(lit);
    string_of(&v)
}

/// The characters `v[from..to]` as a new vector.
pub fn slice_chars(v: &[char], from: usize, to: usize) -> (r: Vec<char>)
    requires
        from <= to <= v.len(),
    ensures
        r@ == v@.subrange(from as int, to as int),
{
    let mut r: Vec<char> = Vec::new();
    let mut i = from;
    while i < to
        invariant
            from <= i <= to <= v.len(),
            r@ == v@.subrange(from as int, i as int),
        decreases to - i,
    {
        r.push(v[i]);
        i += 1;
        assert(r@ =~= v@.subrange(from as int, i as int));
    }
    r
}

proof fn lemma_trim_start_skip(s: Seq<char>, i: int)
    requires
        0 <= i < s.len(),
        is_ws(s[i]),
    ensures
        trim_start(s.subrange(i, s.len() as int)) == trim_start(s.subrange(i + 1, s.len() as int)),
{
    let t = s.subrange(i, s.len() as int);
    assert(t.drop_first() =~= s.subrange(i + 1, s.len() as int));
}

proof fn lemma_trim_end_drop(s: Seq<char>, j: int)
    requires
        0 < j <= s.len(),
        is_ws(s[j - 1]),
    ensures
        trim_end(s.subrange(0, j)) == trim_end(s.subrange(0, j - 1)),
{
    let t = s.subrange(0, j);
    assert(t.drop_last() =~= s.subrange(0, j - 1));
}

/// Index of the first non-whitespace character (or the length).
fn skip_ws(v: &[char]) -> (i: usize)
    ensures
        i <= v.len(),
        trim_start(v@) == v@.subrange(i as int, v.len() as int),
        i < v.len() ==> !is_ws(v@[i as int]),
{
    let mut i: usize = 0;
    assert(v@.subrange(0, v.len() as int) =~= v@);
    while i < v.len() && is_whitespace(v[i])
        invariant
            i <= v.len(),
            trim_start(v@) == trim_start(v@.subrange(i as int, v.len() as int)),
        decreases v.len() - i,
    {
        proof {
            lemma_trim_start_skip(v@, i as int);
        }
        i += 1;
    }
    let ghost t = v@.subrange(i as int, v.len() as int);
    assert(!(t.len() > 0 && is_ws(t[0])));
    i
}

/// `str::trim` on a character vector.
pub fn trim_chars(v: &[char]) -> (r: Vec<char>)
    ensures
        r@ == trim(v@),
{
    let i = skip_ws(v);
    let mut j: usize = v.len();
    let ghost t = v@.subrange(i as int, v.len() as int);
    assert(t.subrange(0, t.len() as int) =~= t);
    while j > i && is_whitespace(v[j - 1])
        invariant
            i <= j <= v.len(),
            t == v@.subrange(i as int, v.len() as int),
            trim_end(t) == trim_end(t.subrange(0, j - i)),
        decreases j,
    {
        proof {
            lemma_trim_end_drop(t, j - i);
            assert(t.subrange(0, j - i - 1) =~= t.subrange(0, (j - 1) - i));
        }
        j -= 1;
    }
    let r = slice_chars(v, i, j);
    proof {
        let u = t.subrange(0, j - i);
        assert(u =~= v@.subrange(i as int, j as int));
        assert(!(u.len() > 0 && is_ws(u.last())));
    }
    r
}

proof fn lemma_word_len_bound(s: Seq<char>)
    ensures
        0 <= word_len(s) <= s.len(),
    decreases s.len(),
{
    if s.len() > 0 && !is_ws(s[0]) {
        lemma_word_len_bound(s.drop_first());
    }
}

/// `split_whitespace().next().unwrap_or(s)` on a character vector.
pub fn first_word_chars(v: &[char]) -> (r: Vec<char>)
    ensures
        r@ == first_word(v@),
{
    let i = skip_ws(v);
    if i == v.len() {
        return slice_chars(v, 0, v.len());
    }
    let ghost t = v@.subrange(i as int, v.len() as int);
    let mut j = i;
    assert(t.subrange(0, t.len() as int) =~= t);
    proof {
        lemma_word_len_bound(t);
    }
    while j < v.len() && !is_whitespace(v[j])
        invariant
            i <= j <= v.len(),
            t == v@.subrange(i as int, v.len() as int),
            word_len(t) == (j - i) + word_len(t.subrange(j - i, t.len() as int)),
        decreases v.len() - j,
    {
        proof {
            let u = t.subrange(j - i, t.len() as int);
            assert(u.drop_first() =~= t.subrange(j + 1 - i, t.len() as int));
        }
        j += 1;
    }
    proof {
        let u = t.subrange(j - i, t.len() as int);
        assert(word_len(u) == 0);
        assert(t.take(j - i) =~= v@.subrange(i as int, j as int));
    }
    slice_chars(v, i, j)
}

// ---------------------------------------------------------------------------
// Decimal digits
// ---------------------------------------------------------------------------

pub open spec fn digit_char(d: nat) -> char {
    (d + 48) as char
}

pub open spec fn is_digit(c: char) -> bool {
    '0' <= c <= '9'
}

pub open spec fn digit_val(c: char) -> int {
    c as int - 48
}

/// Decimal representation of `n`, without leading zeros ("0" for zero).
pub open spec fn nat_digits(n: nat) -> Seq<char>
    decreases n,
{
    if n < 10 {
        seq![digit_char(n)]
    } else {
        nat_digits(n / 10).push(digit_char(n % 10))
    }
}

/// Decimal representation of an integer, with a leading `-` if negative
/// (what `{}` prints for an integer).
pub open spec fn int_text(n: int) -> Seq<char> {
    if n < 0 {
        seq!['-'] + nat_digits((-n) as nat)
    } else {
        nat_digits(n as nat)
    }
}

/// The last `w` decimal digits of `n`, zero-padded on the left (what
/// `{:0w$}` prints for `n < 10^w`).
pub open spec fn fixed_digits(n: nat, w: nat) -> Seq<char>
    decreases w,
{
    if w == 0 {
        Seq::empty()
    } else {
        fixed_digits(n / 10, (w - 1) as nat).push(digit_char(n % 10))
    }
}

/// The character of a decimal digit.
pub fn digit(d: u8) -> (c: char)
    requires
        d < 10,
    ensures
        c == digit_char(d as nat),
{
    match d {
        0 => '0',
        1 => '1',
        2 => '2',
        3 => '3',
        4 => '4',
        5 => '5',
        6 => '6',
        7 => '7',
        8 => '8',
        _ => '9',
    }
}

/// Appends `nat_digits(n)`.
pub fn push_nat(s: &mut String, n: u128)
    ensures
        final(s)@ == old(s)@ + nat_digits(n as nat),
    decreases n,
{
    if n >= 10 {
        push_nat(s, n / 10);
    }
    s.push(digit((n % 10) as u8));
    assert(final(s)@ =~= old(s)@ + nat_digits(n as nat)) by {
        if n >= 10 {
            assert(nat_digits(n as nat) == nat_digits((n / 10) as nat).push(
                digit_char((n % 10) as nat),
            ));
        }
    }
}

/// The magnitude of an `i128`, as a `u128` (`unsigned_abs`).
pub fn unsigned_abs(n: i128) -> (r: u128)
    ensures
        r as int == (if n < 0 { -n } else { n as int }),
{
    if n < 0 {
        ((-(n + 1)) as u128) + 1
    } else {
        n as u128
    }
}

/// Appends `int_text(n)`.
pub fn push_int(s: &mut String, n: i128)
    ensures
        final(s)@ == old(s)@ + int_text(n as int),
{
    let a = unsigned_abs(n);
    if n < 0 {
        s.push('-');
    }
    push_nat(s, a);
    assert(final(s)@ =~= old(s)@ + int_text(n as int));
}

/// Appends `fixed_digits(n, w)`.
pub fn push_fixed(s: &mut String, n: u128, w: u32)
    ensures
        final(s)@ == old(s)@ + fixed_digits(n as nat, w as nat),
    decreases w,
{
    if w == 0 {
        assert(final(s)@ =~= old(s)@ + fixed_digits(n as nat, w as nat));
        return ;
    }
    push_fixed(s, n / 10, w - 1);
    s.push(digit((n % 10) as u8));
    assert(final(s)@ =~= old(s)@ + fixed_digits(n as nat, w as nat));
}

// ---------------------------------------------------------------------------
// Integer syntax of `str::parse::<i64>`
// ---------------------------------------------------------------------------

/// Why `str::parse::<i64>` refused a string (the standard library's
/// `IntErrorKind`).
#[derive(Clone, Copy, Debug, PartialEq, Eq, Structural)]
pub enum IntErrorKind {
    Empty,
    InvalidDigit,
    PosOverflow,
    NegOverflow,
}

pub open spec fn in_i64(v: int) -> bool {
    i64::MIN <= v <= i64::MAX
}

/// Digits accumulated left to right, checking each character and each
/// step for overflow, as the standard library does; `neg` accumulates
/// downwards.
pub open spec fn scan_digits(s: Seq<char>, neg: bool) -> Result<int, IntErrorKind>
    decreases s.len(),
{
    if s.len() == 0 {
        Ok(0)
    } else {
        match scan_digits(s.drop_last(), neg) {
            Err(e) => Err(e),
            Ok(acc) => if !is_digit(s.last()) {
                Err(IntErrorKind::InvalidDigit)
            } else {
                let v = if neg {
                    acc * 10 - digit_val(s.last())
                } else {
                    acc * 10 + digit_val(s.last())
                };
                if v < i64::MIN {
                    Err(IntErrorKind::NegOverflow)
                } else if v > i64::MAX {
                    Err(IntErrorKind::PosOverflow)
                } else {
                    Ok(v)
                }
            },
        }
    }
}

/// What `str::parse::<i64>` returns: an optional `+` or `-`, then one or
/// more ASCII digits, within range.
pub open spec fn parse_i64_spec(s: Seq<char>) -> Result<int, IntErrorKind> {
    if s.len() == 0 {
        Err(IntErrorKind::Empty)
    } else if s.len() == 1 && (s[0] == '+' || s[0] == '-') {
        Err(IntErrorKind::InvalidDigit)
    } else if s[0] == '+' {
        scan_digits(s.drop_first(), false)
    } else if s[0] == '-' {
        scan_digits(s.drop_first(), true)
    } else {
        scan_digits(s, false)
    }
}

pub proof fn lemma_scan_in_range(s: Seq<char>, neg: bool)
    ensures
        scan_digits(s, neg) matches Ok(v) ==> in_i64(v) && (neg ==> v <= 0) && (!neg ==> v >= 0),
    decreases s.len(),
{
    if s.len() > 0 {
        lemma_scan_in_range(s.drop_last(), neg);
    }
}

fn scan_digits_exec(v: &[char], start: usize, neg: bool) -> (r: Result<i64, IntErrorKind>)
    requires
        start <= v.len(),
    ensures
        match r {
            Ok(x) => scan_digits(v@.subrange(start as int, v.len() as int), neg) == Ok::<
                int,
                IntErrorKind,
            >(x as int),
            Err(e) => scan_digits(v@.subrange(start as int, v.len() as int), neg) == Err::<
                int,
                IntErrorKind,
            >(e),
        },
{
    let mut acc: i64 = 0;
    let mut i = start;
    let ghost s = v@.subrange(start as int, v.len() as int);
    assert(s.take(0) =~= Seq::<char>::empty());
    while i < v.len()
        invariant
            start <= i <= v.len(),
            s == v@.subrange(start as int, v.len() as int),
            scan_digits(s.take(i - start), neg) == Ok::<int, IntErrorKind>(acc as int),
        decreases v.len() - i,
    {
        let c = v[i];
        let ghost pre = s.take(i - start);
        let ghost cur = s.take(i + 1 - start);
        assert(cur.drop_last() =~= pre);
        assert(cur.last() == c);
        if !('0' <= c && c <= '9') {
            proof {
                lemma_scan_prefix_err(s, i + 1 - start, neg);
            }
            return Err(IntErrorKind::InvalidDigit);
        }
        let d = (c as u32 - 48) as i64;
        let next: i128 = if neg {
            acc as i128 * 10 - d as i128
        } else {
            acc as i128 * 10 + d as i128
        };
        if next < i64::MIN as i128 {
            proof {
                lemma_scan_prefix_err(s, i + 1 - start, neg);
            }
            return Err(IntErrorKind::NegOverflow);
        }
        if next > i64::MAX as i128 {
            proof {
                lemma_scan_prefix_err(s, i + 1 - start, neg);
            }
            return Err(IntErrorKind::PosOverflow);
        }
        acc = next as i64;
        i += 1;
    }
    assert(s.take(s.len() as int) =~= s);
    Ok(acc)
}

/// An error in a prefix is the error of the whole string.
proof fn lemma_scan_prefix_err(s: Seq<char>, k: int, neg: bool)
    requires
        0 <= k <= s.len(),
        scan_digits(s.take(k), neg) is Err,
    ensures
        scan_digits(s, neg) == scan_digits(s.take(k), neg),
    decreases s.len() - k,
{
    if k < s.len() {
        let t = s.take(k + 1);
        assert(t.drop_last() =~= s.take(k));
        lemma_scan_prefix_err(s, k + 1, neg);
    } else {
        assert(s.take(k) =~= s);
    }
}

/// `str::parse::<i64>` on `v[start..]`.
pub fn parse_i64_from(v: &[char], start: usize) -> (r: Result<i64, IntErrorKind>)
    requires
        start <= v.len(),
    ensures
        match r {
            Ok(x) => parse_i64_spec(v@.subrange(start as int, v.len() as int)) == Ok::<
                int,
                IntErrorKind,
            >(x as int),
            Err(e) => parse_i64_spec(v@.subrange(start as int, v.len() as int)) == Err::<
                int,
                IntErrorKind,
            >(e),
        },
{
    let ghost s = v@.subrange(start as int, v.len() as int);
    if start == v.len() {
        return Err(IntErrorKind::Empty);
    }
    let c = v[start];
    if start + 1 == v.len() && (c == '+' || c == '-') {
        return Err(IntErrorKind::InvalidDigit);
    }
    if c == '+' || c == '-' {
        assert(s.drop_first() =~= v@.subrange(start + 1, v.len() as int));
        scan_digits_exec(v, start + 1, c == '-')
    } else {
        scan_digits_exec(v, start, false)
    }
}

/// `str::parse::<i64>` on a whole character vector.
pub fn parse_i64(v: &[char]) -> (r: Result<i64, IntErrorKind>)
    ensures
        match r {
            Ok(x) => parse_i64_spec(v@) == Ok::<int, IntErrorKind>(x as int),
            Err(e) => parse_i64_spec(v@) == Err::<int, IntErrorKind>(e),
        },
{
    assert(v@.subrange(0, v.len() as int) =~= v@);
    parse_i64_from(v, 0)
}


// ---------------------------------------------------------------------------
// Integer syntax of `str::parse::<i128>`
// ---------------------------------------------------------------------------

/// As `scan_digits`, within the range of `i128`.
pub open spec fn scan_digits_128(s: Seq<char>, neg: bool) -> Result<int, IntErrorKind>
    decreases s.len(),
{
    if s.len() == 0 {
        Ok(0)
    } else {
        match scan_digits_128(s.drop_last(), neg) {
            Err(e) => Err(e),
            Ok(acc) => if !is_digit(s.last()) {
                Err(IntErrorKind::InvalidDigit)
            } else {
                let v = if neg {
                    acc * 10 - digit_val(s.last())
                } else {
                    acc * 10 + digit_val(s.last())
                };
                if v < i128::MIN {
                    Err(IntErrorKind::NegOverflow)
                } else if v > i128::MAX {
                    Err(IntErrorKind::PosOverflow)
                } else {
                    Ok(v)
                }
            },
        }
    }
}

/// What `str::parse::<i128>` returns.
pub open spec fn parse_i128_spec(s: Seq<char>) -> Result<int, IntErrorKind> {
    if s.len() == 0 {
        Err(IntErrorKind::Empty)
    } else if s.len() == 1 && (s[0] == '+' || s[0] == '-') {
        Err(IntErrorKind::InvalidDigit)
    } else if s[0] == '+' {
        scan_digits_128(s.drop_first(), false)
    } else if s[0] == '-' {
        scan_digits_128(s.drop_first(), true)
    } else {
        scan_digits_128(s, false)
    }
}

proof fn lemma_scan128_prefix_err(s: Seq<char>, k: int, neg: bool)
    requires
        0 <= k <= s.len(),
        scan_digits_128(s.take(k), neg) is Err,
    ensures
        scan_digits_128(s, neg) == scan_digits_128(s.take(k), neg),
    decreases s.len() - k,
{
    if k < s.len() {
        let t = s.take(k + 1);
        assert(t.drop_last() =~= s.take(k));
        lemma_scan128_prefix_err(s, k + 1, neg);
    } else {
        assert(s.take(k) =~= s);
    }
}

fn scan_digits_128_exec(v: &[char], start: usize, neg: bool) -> (r: Result<i128, IntErrorKind>)
    requires
        start <= v.len(),
    ensures
        match r {
            Ok(x) => scan_digits_128(v@.subrange(start as int, v.len() as int), neg) == Ok::<
                int,
                IntErrorKind,
            >(x as int),
            Err(e) => scan_digits_128(v@.subrange(start as int, v.len() as int), neg) == Err::<
                int,
                IntErrorKind,
            >(e),
        },
{
    let mut acc: i128 = 0;
    let mut i = start;
    let ghost s = v@.subrange(start as int, v.len() as int);
    assert(s.take(0) =~= Seq::<char>::empty());
    while i < v.len()
        invariant
            start <= i <= v.len(),
            s == v@.subrange(start as int, v.len() as int),
            scan_digits_128(s.take(i - start), neg) == Ok::<int, IntErrorKind>(acc as int),
            neg ==> acc <= 0,
            !neg ==> acc >= 0,
        decreases v.len() - i,
    {
        let c = v[i];
        let ghost pre = s.take(i - start);
        let ghost cur = s.take(i + 1 - start);
        assert(cur.drop_last() =~= pre);
        assert(cur.last() == c);
        if !('0' <= c && c <= '9') {
            proof {
                lemma_scan128_prefix_err(s, i + 1 - start, neg);
            }
            return Err(IntErrorKind::InvalidDigit);
        }
        let d = (c as u32 - 48) as i128;
        let next = if neg {
            match acc.checked_mul(10) {
                Some(m) => m.checked_sub(d),
                None => None,
            }
        } else {
            match acc.checked_mul(10) {
                Some(m) => m.checked_add(d),
                None => None,
            }
        };
        match next {
            Some(x) => {
                acc = x;
            },
            None => {
                assert(neg ==> acc * 10 - d < i128::MIN);
                assert(!neg ==> acc * 10 + d > i128::MAX);
                proof {
                    lemma_scan128_prefix_err(s, i + 1 - start, neg);
                }
                return if neg {
                    Err(IntErrorKind::NegOverflow)
                } else {
                    Err(IntErrorKind::PosOverflow)
                };
            },
        }
        i += 1;
    }
    assert(s.take(s.len() as int) =~= s);
    Ok(acc)
}

/// `str::parse::<i128>` on `v[start..]`.
pub fn parse_i128_from(v: &[char], start: usize) -> (r: Result<i128, IntErrorKind>)
    requires
        start <= v.len(),
    ensures
        match r {
            Ok(x) => parse_i128_spec(v@.subrange(start as int, v.len() as int)) == Ok::<
                int,
                IntErrorKind,
            >(x as int),
            Err(e) => parse_i128_spec(v@.subrange(start as int, v.len() as int)) == Err::<
                int,
                IntErrorKind,
            >(e),
        },
{
    let ghost s = v@.subrange(start as int, v.len() as int);
    if start == v.len() {
        return Err(IntErrorKind::Empty);
    }
    let c = v[start];
    if start + 1 == v.len() && (c == '+' || c == '-') {
        return Err(IntErrorKind::InvalidDigit);
    }
    if c == '+' || c == '-' {
        assert(s.drop_first() =~= v@.subrange(start + 1, v.len() as int));
        scan_digits_128_exec(v, start + 1, c == '-')
    } else {
        scan_digits_128_exec(v, start, false)
    }
}

} // verus!
