//! Numbers in the text fields of the input: unsigned integers for client and
//! transaction ids, and decimal amounts with four decimal places.

use vstd::arithmetic::power::pow;
use vstd::prelude::*;

verus! {

/// Whether `b` is a digit in base `radix` (10 or 16; hex digits in either case).
pub open spec fn is_digit_in(b: u8, radix: nat) -> bool {
    ||| 48 <= b <= 57
    ||| radix == 16 && 97 <= b <= 102
    ||| radix == 16 && 65 <= b <= 70
}

/// The value of a digit.
pub open spec fn digit_value(b: u8) -> nat {
    if 48 <= b <= 57 {
        (b - 48) as nat
    } else if 97 <= b <= 102 {
        (b - 87) as nat
    } else {
        (b - 55) as nat
    }
}

pub open spec fn all_digits(s: Seq<u8>, radix: nat) -> bool {
    forall|i: int| 0 <= i < s.len() ==> is_digit_in(#[trigger] s[i], radix)
}

/// The value of a digit string in base `radix`, most significant digit first.
pub open spec fn digits_value(s: Seq<u8>, radix: nat) -> nat
    decreases s.len(),
{
    if s.len() == 0 {
        0
    } else {
        digits_value(s.drop_last(), radix) * radix + digit_value(s.last())
    }
}

/// Why a field is not an unsigned integer, as `str::parse` and
/// `from_str_radix` report it.
#[derive(Debug, Clone, Copy, PartialEq, Eq, Structural)]
pub enum IntError {
    /// Nothing to parse.
    Empty,
    /// A character that is not a digit of the base.
    InvalidDigit,
    /// The value is above the largest allowed.
    PosOverflow,
}

/// The text of an unsigned integer field after its base prefix, and the
/// base: a `0x` prefix selects base 16.
pub open spec fn unsigned_text(f: Seq<u8>) -> (Seq<u8>, nat) {
    if f.len() >= 2 && f[0] == 48 && f[1] == 120 {
        (f.skip(2), 16nat)
    } else {
        (f, 10nat)
    }
}

/// Reads digits left to right; the first character that is not a digit,
/// or the first digit that takes the value above `max`, stops the reading.
pub open spec fn scan_digits(d: Seq<u8>, radix: nat, max: nat) -> Result<nat, IntError>
    decreases d.len(),
{
    if d.len() == 0 {
        Ok(0)
    } else {
        match scan_digits(d.drop_last(), radix, max) {
            Err(e) => Err(e),
            Ok(v) => if !is_digit_in(d.last(), radix) {
                Err(IntError::InvalidDigit)
            } else if v * radix + digit_value(d.last()) > max {
                Err(IntError::PosOverflow)
            } else {
                Ok(v * radix + digit_value(d.last()))
            },
        }
    }
}

/// The unsigned integer a field holds, when it is at most `max`: decimal, or
/// hexadecimal after `0x`, with one optional leading `+`.
pub open spec fn parse_unsigned_spec(f: Seq<u8>, max: nat) -> Result<nat, IntError> {
    let (t, radix) = unsigned_text(f);
    if t.len() == 0 {
        Err(IntError::Empty)
    } else if t.len() == 1 && (t[0] == 43 || t[0] == 45) {
        Err(IntError::InvalidDigit)
    } else {
        scan_digits(if t[0] == 43 { t.skip(1) } else { t }, radix, max)
    }
}

proof fn lemma_digits_step(s: Seq<u8>, i: int, radix: nat)
    requires
        0 <= i < s.len(),
    ensures
        digits_value(s.take(i + 1), radix) == digits_value(s.take(i), radix) * radix + digit_value(s[i]),
{
    assert(s.take(i + 1).drop_last() =~= s.take(i));
}

/// Parses an unsigned integer field of at most `max`: decimal, or hexadecimal
/// after `0x`, with an optional leading `+`.
pub fn parse_unsigned(field: &[u8], max: u64) -> (r: Result<u64, IntError>)
    ensures
        match parse_unsigned_spec(field@, max as nat) {
            Ok(v) => r == Ok::<u64, IntError>(v as u64),
            Err(e) => r == Err::<u64, IntError>(e),
        },
{
    let n = field.len();
    let mut start: usize = 0;
    let mut radix: u64 = 10;
    if n >= 2 && field[0] == 48 && field[1] == 120 {
        start = 2;
        radix = 16;
    }
    let ghost t = unsigned_text(field@).0;
    proof {
        assert(t =~= field@.skip(start as int));
    }
    if start == n {
        return Err(IntError::Empty);
    }
    if n - start == 1 && (field[start] == 43 || field[start] == 45) {
        return Err(IntError::InvalidDigit);
    }
    if field[start] == 43 {
        start = start + 1;
    }
    let ghost digits = field@.skip(start as int);
    proof {
        assert(digits =~= (if t[0] == 43 { t.skip(1) } else { t }));
        assert(unsigned_text(field@).1 == radix as nat);
        assert(digits.take(0) =~= Seq::<u8>::empty());
    }
    let limit = max as u128;
    let wide_radix = radix as u128;
    let mut acc: u128 = 0;
    let mut i: usize = start;
    while i < n
        invariant
            start <= i <= n,
            n == field@.len(),
            limit == max,
            wide_radix == radix,
            radix == 10 || radix == 16,
            digits == field@.skip(start as int),
            scan_digits(digits.take(i - start), radix as nat, max as nat) == Ok::<nat, IntError>(acc as nat),
            parse_unsigned_spec(field@, max as nat) == scan_digits(digits, radix as nat, max as nat),
            acc <= limit,
        decreases n - i,
    {
        let b = field[i];
        let ghost k = i - start;
        proof {
            assert(digits[k] == b);
            assert(digits.take(k + 1).drop_last() =~= digits.take(k));
            assert(digits.take(k + 1).last() == b);
        }
        let is_dec = 48 <= b && b <= 57;
        let is_hex_low = radix == 16 && 97 <= b && b <= 102;
        let is_hex_up = radix == 16 && 65 <= b && b <= 70;
        if !(is_dec || is_hex_low || is_hex_up) {
            proof {
                lemma_scan_stops(digits, k + 1, radix as nat, max as nat);
            }
            return Err(IntError::InvalidDigit);
        }
        let d: u128 = if is_dec {
            (b - 48) as u128
        } else if is_hex_low {
            (b - 87) as u128
        } else {
            (b - 55) as u128
        };
        let v = acc * wide_radix + d;
        if v > limit {
            proof {
                lemma_scan_stops(digits, k + 1, radix as nat, max as nat);
            }
            return Err(IntError::PosOverflow);
        }
        acc = v;
        i = i + 1;
    }
    proof {
        assert(digits.take(n - start) =~= digits);
    }
    Ok(acc as u64)
}

/// Once the reading stops, later characters do not matter.
proof fn lemma_scan_stops(d: Seq<u8>, m: int, radix: nat, max: nat)
    requires
        0 <= m <= d.len(),
        scan_digits(d.take(m), radix, max) is Err,
    ensures
        scan_digits(d, radix, max) == scan_digits(d.take(m), radix, max),
    decreases d.len() - m,
{
    if m < d.len() {
        assert(d.drop_last().take(m) =~= d.take(m));
        lemma_scan_stops(d.drop_last(), m, radix, max);
    } else {
        assert(d.take(m) =~= d);
    }
}

/// The sign and the rest of an amount field, or of an exponent: one leading
/// `-` or `+` is taken.
pub open spec fn amount_sign(f: Seq<u8>) -> (bool, Seq<u8>) {
    if f.len() >= 1 && f[0] == 45 {
        (true, f.skip(1))
    } else if f.len() >= 1 && f[0] == 43 {
        (false, f.skip(1))
    } else {
        (false, f)
    }
}

/// `p` is the position of the first `.` in `s`, or `s.len()` when there is none.
pub open spec fn is_first_dot(s: Seq<u8>, p: int) -> bool {
    &&& 0 <= p <= s.len()
    &&& p < s.len() ==> s[p] == 46
    &&& forall|j: int| 0 <= j < p ==> s[j] != 46
}

pub open spec fn first_dot(s: Seq<u8>) -> int {
    choose|p: int| is_first_dot(s, p)
}

/// `e` or `E`.
pub open spec fn is_exp_mark(b: u8) -> bool {
    b == 101 || b == 69
}

/// `p` is the position of the first exponent mark in `s`, or `s.len()`.
pub open spec fn is_first_exp(s: Seq<u8>, p: int) -> bool {
    &&& 0 <= p <= s.len()
    &&& p < s.len() ==> is_exp_mark(s[p])
    &&& forall|j: int| 0 <= j < p ==> !is_exp_mark(s[j])
}

pub open spec fn first_exp(s: Seq<u8>) -> int {
    choose|p: int| is_first_exp(s, p)
}

/// The parts of an amount field: the sign, the digits before the decimal
/// point, those after it, and the text after the exponent mark, if any.
pub open spec fn amount_parts(f: Seq<u8>) -> (bool, Seq<u8>, Seq<u8>, Option<Seq<u8>>) {
    let (neg, body) = amount_sign(f);
    let q = first_exp(body);
    let mantissa = body.take(q);
    let exponent = if q < body.len() { Some(body.skip(q + 1)) } else { None };
    let p = first_dot(mantissa);
    (
        neg,
        mantissa.take(p),
        if p < mantissa.len() { mantissa.skip(p + 1) } else { Seq::<u8>::empty() },
        exponent,
    )
}

/// The value of the exponent: 0 without one; an optional sign and at least
/// one decimal digit with one.
pub open spec fn exponent_value(x: Option<Seq<u8>>) -> Option<int> {
    match x {
        None => Some(0),
        Some(t) => {
            let (neg, d) = amount_sign(t);
            if d.len() > 0 && all_digits(d, 10) {
                Some(if neg { -digits_value(d, 10) } else { digits_value(d, 10) as int })
            } else {
                None
            }
        },
    }
}

/// The digit string `d`, with the decimal point after its first `s` digits
/// (zeros added on the right as needed), rounded half away from zero to a
/// whole number.
pub open spec fn shifted_magnitude(d: Seq<u8>, s: int) -> int {
    let head = if s <= 0 { Seq::<u8>::empty() } else if s >= d.len() { d } else { d.take(s) };
    let zeros: nat = if s > d.len() { (s - d.len()) as nat } else { 0 };
    let up = 0 <= s < d.len() && d[s] >= 53;
    digits_value(head, 10) * pow(10, zeros) + if up { 1int } else { 0 }
}

/// The amount an amount field holds, in ten-thousandths.
///
/// The field is an optional sign, decimal digits with an optional decimal
/// point (at least one digit in all), and optionally `e` or `E` with an
/// optionally signed decimal exponent. The value is rounded once, to four
/// decimals, half away from zero, and must be at most `i64::MAX` in size.
/// `inf`, `infinity`, `nan` and larger amounts are out of range: no balance
/// can hold them.
pub open spec fn parse_amount_spec(f: Seq<u8>) -> Result<int, AmountError> {
    if non_finite_word(amount_sign(f).1) {
        Err(AmountError::OutOfRange)
    } else {
        finite_amount_spec(f)
    }
}

/// The amount a field holds that does not spell `inf`, `infinity` or `nan`.
pub open spec fn finite_amount_spec(f: Seq<u8>) -> Result<int, AmountError> {
    let (neg, int_part, frac, exponent) = amount_parts(f);
    match exponent_value(exponent) {
        Some(e) => {
            let magnitude = shifted_magnitude(int_part + frac, int_part.len() + e + 4);
            if int_part.len() + frac.len() >= 1 && all_digits(int_part, 10) && all_digits(frac, 10) {
                if magnitude <= i64::MAX {
                    Ok(if neg { -magnitude } else { magnitude })
                } else {
                    Err(AmountError::OutOfRange)
                }
            } else {
                Err(AmountError::Invalid)
            }
        },
        None => Err(AmountError::Invalid),
    }
}

/// Why a field is not an amount.
#[derive(Debug, Clone, Copy, PartialEq, Eq, Structural)]
pub enum AmountError {
    /// The text is not a number.
    Invalid,
    /// The text is a number (or `inf`, `infinity`, `nan`) that no amount can hold.
    OutOfRange,
}

/// An ASCII letter in lower case.
pub open spec fn ascii_lower(b: u8) -> u8 {
    if 65 <= b <= 90 {
        (b + 32) as u8
    } else {
        b
    }
}

/// `s` spells `w` (lower case), in any mix of cases.
pub open spec fn spells(s: Seq<u8>, w: Seq<u8>) -> bool {
    s.len() == w.len() && forall|i: int| 0 <= i < s.len() ==> ascii_lower(#[trigger] s[i]) == w[i]
}

/// `inf`, `infinity` or `nan`, in any mix of cases.
pub open spec fn non_finite_word(s: Seq<u8>) -> bool {
    spells(s, seq![105u8, 110, 102]) || spells(s, seq![105u8, 110, 102, 105, 110, 105, 116, 121]) || spells(s, seq![110u8, 97, 110])
}

/// Whether `field[from..]` spells `w`, in any mix of cases.
fn spells_from(field: &[u8], from: usize, w: &[u8]) -> (b: bool)
    requires
        from <= field.len(),
    ensures
        b == spells(field@.skip(from as int), w@),
{
    let ghost s = field@.skip(from as int);
    if field.len() - from != w.len() {
        return false;
    }
    let mut i: usize = 0;
    while i < w.len()
        invariant
            i <= w.len(),
            field.len() - from == w.len(),
            s == field@.skip(from as int),
            forall|j: int| 0 <= j < i ==> ascii_lower(#[trigger] s[j]) == w@[j],
        decreases w.len() - i,
    {
        let b = field[from + i];
        let lower = if 65 <= b && b <= 90 { b + 32 } else { b };
        proof {
            assert(s[i as int] == b);
        }
        if lower != w[i] {
            return false;
        }
        i = i + 1;
    }
    true
}

proof fn lemma_first_dot(s: Seq<u8>, p: int)
    requires
        is_first_dot(s, p),
    ensures
        first_dot(s) == p,
{
    let q = first_dot(s);
    assert(is_first_dot(s, q));
    if q < p {
        assert(s[q] == 46);
    }
    if p < q {
        assert(s[p] == 46);
    }
}

proof fn lemma_first_exp(s: Seq<u8>, p: int)
    requires
        is_first_exp(s, p),
    ensures
        first_exp(s) == p,
{
    let q = first_exp(s);
    assert(is_first_exp(s, q));
    if q < p {
        assert(is_exp_mark(s[q]));
    }
    if p < q {
        assert(is_exp_mark(s[p]));
    }
}

/// The value of the decimal digits `field[from..to]`, saturating at `cap`;
/// `None` when one of them is not a decimal digit.
fn saturated_decimal(field: &[u8], from: usize, to: usize, cap: u128) -> (r: Option<u128>)
    requires
        from <= to <= field.len(),
        cap <= 0x1_0000_0000_0000_0000_0000_0000,
    ensures
        match r {
            None => !all_digits(field@.subrange(from as int, to as int), 10),
            Some(v) => {
                &&& all_digits(field@.subrange(from as int, to as int), 10)
                &&& v as int == (if digits_value(field@.subrange(from as int, to as int), 10) <= cap {
                    digits_value(field@.subrange(from as int, to as int), 10) as int
                } else {
                    cap as int
                })
            },
        },
{
    let ghost digits = field@.subrange(from as int, to as int);
    let mut acc: u128 = 0;
    let mut i: usize = from;
    while i < to
        invariant
            from <= i <= to <= field.len(),
            digits == field@.subrange(from as int, to as int),
            cap <= 0x1_0000_0000_0000_0000_0000_0000,
            all_digits(digits.take(i - from), 10),
            acc as int == (if digits_value(digits.take(i - from), 10) <= cap {
                digits_value(digits.take(i - from), 10) as int
            } else {
                cap as int
            }),
        decreases to - i,
    {
        let b = field[i];
        let ghost k = i - from;
        proof {
            assert(digits[k] == b);
        }
        if !(48 <= b && b <= 57) {
            proof {
                assert(!is_digit_in(digits[k], 10));
            }
            return None;
        }
        let d = (b - 48) as u128;
        proof {
            lemma_digits_step(digits, k, 10);
            assert(digits.take(k + 1) =~= digits.take(k).push(b));
        }
        let v = acc * 10 + d;
        acc = if v > cap { cap } else { v };
        i = i + 1;
    }
    proof {
        assert(digits.take(to - from) =~= digits);
    }
    Some(acc)
}

/// Whether `field[from..to]` is all decimal digits.
fn all_decimal(field: &[u8], from: usize, to: usize) -> (b: bool)
    requires
        from <= to <= field.len(),
    ensures
        b == all_digits(field@.subrange(from as int, to as int), 10),
{
    let ghost digits = field@.subrange(from as int, to as int);
    let mut j: usize = from;
    while j < to
        invariant
            from <= j <= to <= field.len(),
            digits == field@.subrange(from as int, to as int),
            forall|k: int| from <= k < j ==> 48 <= #[trigger] field@[k] <= 57,
        decreases to - j,
    {
        if !(48 <= field[j] && field[j] <= 57) {
            proof {
                assert(digits[j - from] == field@[j as int]);
                assert(!is_digit_in(digits[j - from], 10));
            }
            return false;
        }
        j = j + 1;
    }
    proof {
        assert forall|k: int| 0 <= k < digits.len() implies is_digit_in(#[trigger] digits[k], 10) by {
            assert(digits[k] == field@[from + k]);
        }
    }
    true
}

/// Where the parts of an amount field lie: the sign, the digits before the
/// decimal point in `start..p`, those after it in `fs..q`, and the exponent
/// text after `q` when `q` is not the end.
fn split_amount(field: &[u8]) -> (r: (bool, usize, usize, usize, usize))
    ensures
        r.1 <= r.2 <= r.3 <= r.4 <= field.len(),
        amount_parts(field@) == (
            r.0,
            field@.subrange(r.1 as int, r.2 as int),
            field@.subrange(r.3 as int, r.4 as int),
            if r.4 < field.len() { Some(field@.subrange(r.4 + 1, field.len() as int)) } else { None },
        ),
{
    let n = field.len();
    let mut start: usize = 0;
    let mut neg = false;
    if n >= 1 && field[0] == 45 {
        start = 1;
        neg = true;
    } else if n >= 1 && field[0] == 43 {
        start = 1;
    }
    let ghost body = amount_sign(field@).1;
    proof {
        assert(body =~= field@.subrange(start as int, n as int));
    }
    let mut q: usize = start;
    while q < n && field[q] != 101 && field[q] != 69
        invariant
            start <= q <= n,
            n == field@.len(),
            forall|j: int| start <= j < q ==> !is_exp_mark(field@[j]),
        decreases n - q,
    {
        q = q + 1;
    }
    proof {
        assert(is_first_exp(body, q - start));
        lemma_first_exp(body, q - start);
    }
    let ghost mantissa = body.take(q - start);
    proof {
        assert(mantissa =~= field@.subrange(start as int, q as int));
        if q < n {
            assert(body.skip(q - start + 1) =~= field@.subrange(q + 1, n as int));
        }
    }
    let mut p: usize = start;
    while p < q && field[p] != 46
        invariant
            start <= p <= q <= n,
            n == field@.len(),
            forall|j: int| start <= j < p ==> field@[j] != 46,
        decreases q - p,
    {
        p = p + 1;
    }
    proof {
        assert(is_first_dot(mantissa, p - start));
        lemma_first_dot(mantissa, p - start);
    }
    let fs: usize = if p < q { p + 1 } else { q };
    proof {
        assert(mantissa.take(p - start) =~= field@.subrange(start as int, p as int));
        let frac = if p - start < mantissa.len() { mantissa.skip(p - start + 1) } else { Seq::<u8>::empty() };
        assert(frac =~= field@.subrange(fs as int, q as int));
    }
    (neg, start, p, fs, q)
}

/// The exponent bound past which every amount is 0 or too large.
pub open spec fn exp_cap() -> int {
    0x40_0000_0000_0000_0000
}

pub open spec fn clamp_exponent(e: int) -> int {
    if e > exp_cap() {
        exp_cap()
    } else if e < -exp_cap() {
        -exp_cap()
    } else {
        e
    }
}

/// The exponent of an amount field whose exponent mark, if any, is at `q`,
/// clamped to `exp_cap()` in size.
fn parse_exponent(field: &[u8], q: usize) -> (r: Option<i128>)
    requires
        q <= field.len(),
    ensures
        match exponent_value(if q < field.len() { Some(field@.subrange(q + 1, field.len() as int)) } else { None }) {
            Some(e) => r == Some(clamp_exponent(e) as i128),
            None => r is None,
        },
{
    let n = field.len();
    if q == n {
        return Some(0);
    }
    let ghost text = field@.subrange(q + 1, n as int);
    let mut ds: usize = q + 1;
    let mut neg = false;
    if ds < n && field[ds] == 45 {
        ds = ds + 1;
        neg = true;
    } else if ds < n && field[ds] == 43 {
        ds = ds + 1;
    }
    proof {
        assert(amount_sign(text).1 =~= field@.subrange(ds as int, n as int));
        assert(amount_sign(text).0 == neg);
    }
    if ds == n {
        return None;
    }
    let cap: u128 = 0x40_0000_0000_0000_0000;
    match saturated_decimal(field, ds, n, cap) {
        Some(v) => {
            let e = v as i128;
            if neg {
                Some(-e)
            } else {
                Some(e)
            }
        },
        None => None,
    }
}

/// The digits of an amount: those before the decimal point, then those after it.
pub open spec fn amount_digits(field: Seq<u8>, start: int, int_len: int, fs: int, frac_len: int) -> Seq<u8> {
    field.subrange(start, start + int_len) + field.subrange(fs, fs + frac_len)
}

/// The `k`-th digit of the amount.
fn digit_at(field: &[u8], start: usize, int_len: usize, fs: usize, frac_len: usize, k: usize) -> (b: u8)
    requires
        start + int_len <= field.len(),
        fs + frac_len <= field.len(),
        k < int_len + frac_len,
    ensures
        b == amount_digits(field@, start as int, int_len as int, fs as int, frac_len as int)[k as int],
{
    if k < int_len {
        field[start + k]
    } else {
        field[fs + (k - int_len)]
    }
}

/// The value of the first `t` digits of the amount, saturating at 2^63.
fn saturated_prefix(field: &[u8], start: usize, int_len: usize, fs: usize, frac_len: usize, t: usize) -> (v: u128)
    requires
        start + int_len <= field.len(),
        fs + frac_len <= field.len(),
        t <= int_len + frac_len,
        all_digits(amount_digits(field@, start as int, int_len as int, fs as int, frac_len as int), 10),
    ensures
        v as int == (if digits_value(amount_digits(field@, start as int, int_len as int, fs as int, frac_len as int).take(t as int), 10) <= 0x8000_0000_0000_0000 {
            digits_value(amount_digits(field@, start as int, int_len as int, fs as int, frac_len as int).take(t as int), 10) as int
        } else {
            0x8000_0000_0000_0000
        }),
{
    let ghost d = amount_digits(field@, start as int, int_len as int, fs as int, frac_len as int);
    let cap: u128 = 0x8000_0000_0000_0000;
    let mut acc: u128 = 0;
    let mut k: usize = 0;
    while k < t
        invariant
            k <= t <= int_len + frac_len,
            start + int_len <= field.len(),
            fs + frac_len <= field.len(),
            d == amount_digits(field@, start as int, int_len as int, fs as int, frac_len as int),
            all_digits(d, 10),
            cap == 0x8000_0000_0000_0000,
            acc as int == (if digits_value(d.take(k as int), 10) <= cap {
                digits_value(d.take(k as int), 10) as int
            } else {
                cap as int
            }),
        decreases t - k,
    {
        let b = digit_at(field, start, int_len, fs, frac_len, k);
        proof {
            assert(is_digit_in(d[k as int], 10));
            lemma_digits_step(d, k as int, 10);
        }
        let v = acc * 10 + (b - 48) as u128;
        acc = if v > cap { cap } else { v };
        k = k + 1;
    }
    acc
}

/// `base` (the value `v` saturated at 2^63) times ten `zeros` times,
/// saturating at 2^63.
fn scale_by_ten(base: u128, Ghost(v): Ghost<nat>, zeros: u128) -> (r: u128)
    requires
        base as int == (if v <= 0x8000_0000_0000_0000 { v as int } else { 0x8000_0000_0000_0000 }),
    ensures
        r as int == (if v * pow(10, zeros as nat) <= 0x8000_0000_0000_0000 {
            v * pow(10, zeros as nat)
        } else {
            0x8000_0000_0000_0000
        }),
{
    let cap: u128 = 0x8000_0000_0000_0000;
    let mut acc = base;
    let mut j: u128 = 0;
    proof {
        reveal_with_fuel(pow, 1);
        assert(pow(10, 0) == 1);
    }
    while j < zeros && acc != 0 && acc < cap
        invariant
            j <= zeros,
            cap == 0x8000_0000_0000_0000,
            acc as int == (if v * pow(10, j as nat) <= cap { v * pow(10, j as nat) } else { cap as int }),
        decreases zeros - j,
    {
        let ghost p = pow(10, j as nat);
        proof {
            vstd::arithmetic::power::lemma_pow_positive(10, j as nat);
            reveal(pow);
            assert(pow(10, (j + 1) as nat) == 10 * p);
            assert(v * (10 * p) == 10 * (v * p)) by (nonlinear_arith);
        }
        let w = acc * 10;
        acc = if w > cap { cap } else { w };
        j = j + 1;
    }
    proof {
        vstd::arithmetic::power::lemma_pow_positive(10, j as nat);
        vstd::arithmetic::power::lemma_pow_increases(10, j as nat, zeros as nat);
        let pj = pow(10, j as nat);
        let pz = pow(10, zeros as nat);
        if acc == 0 {
            assert(v * pj == 0);
            assert(v == 0) by (nonlinear_arith)
                requires v * pj == 0, pj > 0;
            assert(v * pz == 0) by (nonlinear_arith)
                requires v == 0;
        } else if acc >= cap {
            assert(v * pz >= v * pj) by (nonlinear_arith)
                requires pz >= pj, v >= 0;
        }
    }
    acc
}

proof fn lemma_pow10_19()
    ensures
        pow(10, 19) == 10_000_000_000_000_000_000,
{
    reveal_with_fuel(pow, 20);
}

/// Shifting the decimal point past every digit by 19 places or more, or to
/// the left of every digit, decides the amount as the clamped shift does.
proof fn lemma_clamped_shift(d: Seq<u8>, s: int, c: int)
    requires
        (s <= 0 && c < 0 && s <= c) || (c >= d.len() + 19 && s >= c),
    ensures
        (shifted_magnitude(d, s) <= i64::MAX) == (shifted_magnitude(d, c) <= i64::MAX),
        shifted_magnitude(d, c) <= i64::MAX ==> shifted_magnitude(d, s) == shifted_magnitude(d, c),
{
    if c >= d.len() + 19 {
        let v = digits_value(d, 10) as int;
        let zc = (c - d.len()) as nat;
        let zs = (s - d.len()) as nat;
        vstd::arithmetic::power::lemma_pow_increases(10, 19, zc);
        vstd::arithmetic::power::lemma_pow_increases(10, zc, zs);
        lemma_pow10_19();
        let pc = pow(10, zc);
        let ps = pow(10, zs);
        if v > 0 {
            assert(v * pc >= pc) by (nonlinear_arith)
                requires v >= 1, pc >= 0;
            assert(v * ps >= ps) by (nonlinear_arith)
                requires v >= 1, ps >= 0;
        } else {
            assert(v * pc == 0) by (nonlinear_arith)
                requires v == 0;
            assert(v * ps == 0) by (nonlinear_arith)
                requires v == 0;
        }
    } else {
        reveal_with_fuel(pow, 1);
        assert(digits_value(Seq::<u8>::empty(), 10) == 0);
    }
}

/// What the shifted digits come to, case by case.
proof fn lemma_shift_cases(d: Seq<u8>, c: int)
    ensures
        c <= 0 ==> shifted_magnitude(d, c) == (if 0 <= c < d.len() && d[c] >= 53 { 1int } else { 0 }),
        0 < c < d.len() ==> shifted_magnitude(d, c) == digits_value(d.take(c), 10) + (if d[c] >= 53 { 1int } else { 0 }),
        c >= d.len() ==> shifted_magnitude(d, c) == digits_value(d, 10) * pow(10, (c - d.len()) as nat),
{
    reveal(pow);
    assert(pow(10, 0) == 1);
    assert(digits_value(Seq::<u8>::empty(), 10) == 0);
    if c <= 0 {
        assert(0 * pow(10, 0) == 0);
    } else if c < d.len() {
        let v = digits_value(d.take(c), 10) as int;
        assert(v * pow(10, 0) == v);
    }
}

/// Parses an amount field into ten-thousandths of a unit: an optional sign,
/// decimal digits with an optional decimal point and an optional exponent,
/// rounded to four decimals half away from zero.
pub fn parse_amount(field: &[u8]) -> (r: Result<i64, AmountError>)
    ensures
        match parse_amount_spec(field@) {
            Ok(v) => r == Ok::<i64, AmountError>(v as i64),
            Err(e) => r == Err::<i64, AmountError>(e),
        },
{
    if is_non_finite(field) {
        Err(AmountError::OutOfRange)
    } else {
        parse_finite_amount(field)
    }
}

/// Whether the field, past its sign, spells `inf`, `infinity` or `nan`.
fn is_non_finite(field: &[u8]) -> (b: bool)
    ensures
        b == non_finite_word(amount_sign(field@).1),
{
    let n = field.len();
    let sign_len: usize = if n >= 1 && (field[0] == 45 || field[0] == 43) { 1 } else { 0 };
    proof {
        assert(amount_sign(field@).1 =~= field@.skip(sign_len as int));
    }
    spells_from(field, sign_len, &[105u8, 110, 102]) || spells_from(field, sign_len, &[105u8, 110, 102, 105, 110, 105, 116, 121])
        || spells_from(field, sign_len, &[110u8, 97, 110])
}

/// The amount a field holds, for a field that does not spell a non-finite word.
fn parse_finite_amount(field: &[u8]) -> (r: Result<i64, AmountError>)
    ensures
        match finite_amount_spec(field@) {
            Ok(v) => r == Ok::<i64, AmountError>(v as i64),
            Err(e) => r == Err::<i64, AmountError>(e),
        },
{
    let n = field.len();
    let (neg, start, p, fs, q) = split_amount(field);
    let ghost int_part = field@.subrange(start as int, p as int);
    let ghost frac = field@.subrange(fs as int, q as int);
    let ghost exponent = if q < n { Some(field@.subrange(q + 1, n as int)) } else { None::<Seq<u8>> };
    let e = match parse_exponent(field, q) {
        Some(e) => e,
        None => return Err(AmountError::Invalid),
    };
    let ghost e_true = exponent_value(exponent)->0;
    if !all_decimal(field, start, p) || !all_decimal(field, fs, q) {
        return Err(AmountError::Invalid);
    }
    let int_len = p - start;
    let frac_len = q - fs;
    if int_len + frac_len == 0 {
        return Err(AmountError::Invalid);
    }
    let len = int_len + frac_len;
    let ghost d = int_part + frac;
    proof {
        assert(d =~= amount_digits(field@, start as int, int_len as int, fs as int, frac_len as int));
        assert forall|k: int| 0 <= k < d.len() implies is_digit_in(#[trigger] d[k], 10) by {
            if k < int_len {
                assert(d[k] == int_part[k]);
            } else {
                assert(d[k] == frac[k - int_len]);
            }
        }
    }
    let s: i128 = int_len as i128 + e + 4;
    let base: u128;
    let up: bool;
    if s <= 0 {
        base = 0;
        up = s == 0 && digit_at(field, start, int_len, fs, frac_len, 0) >= 53;
    } else if s >= len as i128 {
        let b = saturated_prefix(field, start, int_len, fs, frac_len, len);
        proof {
            assert(d.take(len as int) =~= d);
        }
        base = scale_by_ten(b, Ghost(digits_value(d, 10)), (s - len as i128) as u128);
        up = false;
    } else {
        let t = s as usize;
        base = saturated_prefix(field, start, int_len, fs, frac_len, t);
        up = digit_at(field, start, int_len, fs, frac_len, t) >= 53;
    }
    let magnitude: u128 = base + if up { 1u128 } else { 0u128 };
    proof {
        let c = int_len + e + 4;
        let st = int_len + e_true + 4;
        lemma_shift_cases(d, c);
        assert(up == (0 <= c < d.len() && d[c] >= 53));
        if e_true != e {
            lemma_clamped_shift(d, st, c);
        }
    }
    if magnitude > 0x7fff_ffff_ffff_ffff {
        return Err(AmountError::OutOfRange);
    }
    let m = magnitude as i64;
    if neg {
        Ok(-m)
    } else {
        Ok(m)
    }
}

/// A string of digits scans to its value when that is at most `max`, and
/// overflows otherwise.
proof fn lemma_scan_all_digits(d: Seq<u8>, radix: nat, max: nat)
    requires
        radix >= 1,
        all_digits(d, radix),
    ensures
        scan_digits(d, radix, max) == (if digits_value(d, radix) <= max {
            Ok::<nat, IntError>(digits_value(d, radix))
        } else {
            Err::<nat, IntError>(IntError::PosOverflow)
        }),
    decreases d.len(),
{
    if d.len() > 0 {
        let p = d.drop_last();
        assert(all_digits(p, radix)) by {
            assert forall|i: int| 0 <= i < p.len() implies is_digit_in(#[trigger] p[i], radix) by {
                assert(p[i] == d[i]);
            }
        }
        lemma_scan_all_digits(p, radix, max);
        let v = digits_value(p, radix);
        assert(is_digit_in(d[d.len() - 1], radix));
        assert(v * radix >= v) by (nonlinear_arith)
            requires radix >= 1;
    }
}

/// Law: a decimal field of digits only reads as its value exactly when that
/// value is at most `max`; above it, the field overflows.
pub proof fn law_decimal_digits_parse(d: Seq<u8>, max: nat)
    requires
        d.len() >= 1,
        all_digits(d, 10),
    ensures
        digits_value(d, 10) <= max ==> parse_unsigned_spec(d, max) == Ok::<nat, IntError>(digits_value(d, 10)),
        digits_value(d, 10) > max ==> parse_unsigned_spec(d, max) == Err::<nat, IntError>(IntError::PosOverflow),
{
    if d.len() >= 2 {
        assert(is_digit_in(d[1], 10));
    }
    assert(is_digit_in(d[0], 10));
    lemma_scan_all_digits(d, 10, max);
}

/// The parts of an unsigned amount field `i.f`: no sign, `i` before the
/// point, `f` after it, no exponent.
proof fn lemma_plain_parts(i: Seq<u8>, f: Seq<u8>)
    requires
        all_digits(i, 10),
        all_digits(f, 10),
    ensures
        amount_sign(i + seq![46u8] + f) == (false, i + seq![46u8] + f),
        amount_sign(seq![45u8] + (i + seq![46u8] + f)) == (true, i + seq![46u8] + f),
        amount_parts(i + seq![46u8] + f) == (false, i, f, None::<Seq<u8>>),
        amount_parts(seq![45u8] + (i + seq![46u8] + f)) == (true, i, f, None::<Seq<u8>>),
        !non_finite_word(i + seq![46u8] + f),
{
    let body = i + seq![46u8] + f;
    let n = body.len() as int;
    let k = i.len() as int;
    assert forall|j: int| 0 <= j < n implies (#[trigger] body[j] == 46 || is_digit_in(body[j], 10)) by {
        if j < k {
            assert(body[j] == i[j]);
        } else if j > k {
            assert(body[j] == f[j - k - 1]);
        }
    }
    assert(body[k] == 46);
    assert(body[0] == 46 || is_digit_in(body[0], 10));
    assert(ascii_lower(body[0]) != 105u8 && ascii_lower(body[0]) != 110u8);
    assert(!spells(body, seq![105u8, 110, 102]) && !spells(body, seq![105u8, 110, 102, 105, 110, 105, 116, 121])
        && !spells(body, seq![110u8, 97, 110])) by {
        assert(seq![105u8, 110, 102][0] == 105u8);
        assert(seq![105u8, 110, 102, 105, 110, 105, 116, 121][0] == 105u8);
        assert(seq![110u8, 97, 110][0] == 110u8);
    }
    let neg_field = seq![45u8] + body;
    assert(neg_field[0] == 45);
    assert(neg_field.skip(1) =~= body);
    assert(is_first_exp(body, n)) by {
        assert forall|j: int| 0 <= j < n implies !is_exp_mark(#[trigger] body[j]) by {
            assert(body[j] == 46 || is_digit_in(body[j], 10));
        }
    }
    lemma_first_exp(body, n);
    assert(body.take(n) =~= body);
    assert(is_first_dot(body, k)) by {
        assert forall|j: int| 0 <= j < k implies #[trigger] body[j] != 46 by {
            assert(body[j] == i[j]);
        }
    }
    lemma_first_dot(body, k);
    assert(body.take(k) =~= i);
    assert(body.skip(k + 1) =~= f);
}

/// Law: an amount written with at most four decimals is read exactly: the
/// digits of `i.f` (either part may be empty, not both) as a whole number
/// of ten-thousandths, negated after a `-`.
pub proof fn law_plain_decimal_amount(i: Seq<u8>, f: Seq<u8>)
    requires
        all_digits(i, 10),
        all_digits(f, 10),
        i.len() + f.len() >= 1,
        f.len() <= 4,
        digits_value(i + f, 10) * pow(10, (4 - f.len()) as nat) <= i64::MAX,
    ensures
        parse_amount_spec(i + seq![46u8] + f) == Ok::<int, AmountError>(
            digits_value(i + f, 10) * pow(10, (4 - f.len()) as nat),
        ),
        parse_amount_spec(seq![45u8] + (i + seq![46u8] + f)) == Ok::<int, AmountError>(
            -(digits_value(i + f, 10) * pow(10, (4 - f.len()) as nat)),
        ),
{
    lemma_plain_parts(i, f);
    lemma_shift_cases(i + f, i.len() + 4int);
    assert((i.len() + 4 - (i + f).len()) as nat == (4 - f.len()) as nat);
    let body = i + seq![46u8] + f;
    let neg_field = seq![45u8] + body;
    assert(neg_field.skip(1) =~= body);
}

} // verus!
