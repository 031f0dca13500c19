//! Fixed-point prices and quantities.
//!
//! A [`Scale9`] is an `i64` holding a value multiplied by 10⁹, so nine decimal places
//! are kept exactly; arithmetic on it is checked and scale-aware.

use vstd::prelude::*;
use vstd::string::{StringExecFns, StringSliceAdditionalSpecFns};
use crate::error::Error;
use crate::text::{decimal, digit_char, lemma_pow10_19, padded, pow10, pow10_u64, push_decimal, push_padded, trim_zeros};

verus! {

/// Number of implied decimal places in a [`Scale9`].
pub const SCALE: u32 = 9;

/// Scale multiplier, 10⁹.
pub const SCALE9: i64 = 1_000_000_000;

/// Division that truncates toward zero, as Rust's integer `/` does.
pub open spec fn quot(a: int, b: int) -> int {
    let q = (if a < 0 { -a } else { a }) / (if b < 0 { -b } else { b });
    if a == 0 || (a < 0) == (b < 0) {
        q
    } else {
        -q
    }
}

/// `x` when it fits in an `i64`.
pub open spec fn fits_i64(x: int) -> bool {
    i64::MIN <= x <= i64::MAX
}

/// `x` pushed into the `i64` range.
pub open spec fn clamp_i64(x: int) -> int {
    if x > i64::MAX {
        i64::MAX as int
    } else if x < i64::MIN {
        i64::MIN as int
    } else {
        x
    }
}

/// `x` capped at `u64::MAX`.
pub open spec fn clamp_u64(x: nat) -> nat {
    if x > u64::MAX {
        u64::MAX as nat
    } else {
        x
    }
}

/// Add, saturating at the bounds of `i64`.
pub fn saturating_add_i64(a: i64, b: i64) -> (r: i64)
    ensures
        r == clamp_i64(a + b),
{
    match a.checked_add(b) {
        Some(v) => v,
        None => if b > 0 {
            i64::MAX
        } else {
            i64::MIN
        },
    }
}

/// A fixed-point number with nine implied decimal places: the wrapped `i64` is the
/// value times 10⁹. `Ord` compares the underlying integers.
#[derive(Clone, Copy, Debug, PartialEq, Eq, Structural, PartialOrd, Ord, Hash, Default)]
pub struct Scale9(i64);

impl Scale9 {
    /// The value times 10⁹.
    pub closed spec fn spec_raw(self) -> i64 {
        self.0
    }

    /// Wrap an already-scaled integer.
    pub fn from_raw(raw: i64) -> (r: Scale9)
        ensures
            r.spec_raw() == raw,
    {
        Scale9(raw)
    }

    /// The underlying scaled integer.
    pub fn raw(self) -> (r: i64)
        ensures
            r == self.spec_raw(),
    {
        self.0
    }

    /// Zero.
    pub fn zero() -> (r: Scale9)
        ensures
            r.spec_raw() == 0,
    {
        Scale9(0)
    }

    /// One, that is `1_000_000_000` raw.
    pub fn one() -> (r: Scale9)
        ensures
            r.spec_raw() == SCALE9,
    {
        Scale9(SCALE9)
    }

    /// Whether this is exactly zero.
    pub fn is_zero(self) -> (r: bool)
        ensures
            r == (self.spec_raw() == 0),
    {
        self.0 == 0
    }

    /// Add, `None` on overflow.
    pub fn checked_add(self, other: Scale9) -> (r: Option<Scale9>)
        ensures
            match r {
                Some(v) => v.spec_raw() == self.spec_raw() + other.spec_raw(),
                None => !fits_i64(self.spec_raw() + other.spec_raw()),
            },
    {
        match self.0.checked_add(other.0) {
            Some(v) => Some(Scale9(v)),
            None => None,
        }
    }

    /// Subtract, `None` on overflow.
    pub fn checked_sub(self, other: Scale9) -> (r: Option<Scale9>)
        ensures
            match r {
                Some(v) => v.spec_raw() == self.spec_raw() - other.spec_raw(),
                None => !fits_i64(self.spec_raw() - other.spec_raw()),
            },
    {
        match self.0.checked_sub(other.0) {
            Some(v) => Some(Scale9(v)),
            None => None,
        }
    }

    /// Multiply, `None` on overflow. The raw product carries 10¹⁸ and is divided
    /// back down by 10⁹, truncating toward zero.
    pub fn checked_mul(self, other: Scale9) -> (r: Option<Scale9>)
        ensures
            match r {
                Some(v) => v.spec_raw() == quot(self.spec_raw() * other.spec_raw(), SCALE9 as int),
                None => !fits_i64(quot(self.spec_raw() * other.spec_raw(), SCALE9 as int)),
            },
    {
        let a = self.0 as i128;
        let b = other.0 as i128;
        assert(-0x4000_0000_0000_0000_0000_0000_0000_0000 <= a * b <= 0x4000_0000_0000_0000_0000_0000_0000_0000)
            by (nonlinear_arith)
            requires
                -0x8000_0000_0000_0000 <= a <= 0x8000_0000_0000_0000,
                -0x8000_0000_0000_0000 <= b <= 0x8000_0000_0000_0000,
        ;
        let product = a * b;
        let scaled = match product.checked_div(SCALE9 as i128) {
            Some(q) => q,
            None => 0,
        };
        if i64::MIN as i128 <= scaled && scaled <= i64::MAX as i128 {
            Some(Scale9(scaled as i64))
        } else {
            None
        }
    }

    /// Divide, `None` on overflow or division by zero. The dividend is scaled up by
    /// 10⁹ first so the quotient keeps its nine decimals; it truncates toward zero.
    pub fn checked_div(self, other: Scale9) -> (r: Option<Scale9>)
        ensures
            other.spec_raw() == 0 ==> r is None,
            other.spec_raw() != 0 ==> match r {
                Some(v) => v.spec_raw() == quot(self.spec_raw() * SCALE9, other.spec_raw() as int),
                None => !fits_i64(quot(self.spec_raw() * SCALE9, other.spec_raw() as int)),
            },
    {
        if other.0 == 0 {
            return None;
        }
        let a = self.0 as i128;
        assert(i64::MIN <= a <= i64::MAX);
        let scaled = a * 1_000_000_000i128;
        let q = match scaled.checked_div(other.0 as i128) {
            Some(q) => q,
            None => 0,
        };
        if i64::MIN as i128 <= q && q <= i64::MAX as i128 {
            Some(Scale9(q as i64))
        } else {
            None
        }
    }

    /// The decimal value with trailing zeros trimmed: `50000`, `1.5`, `-0.000000001`.
    pub fn to_string(&self) -> (r: String)
        ensures
            r@ == display_text(self.spec_raw()),
    {
        display_string(self.0)
    }

    /// The value as `Scale9(..)` around its natural decimal text, as in `Scale9(1.5)`:
    /// the readable form for assertion messages and logs.
    pub fn debug_string(&self) -> (r: String)
        ensures
            r@ == "Scale9("@ + display_text(self.spec_raw()) + ")"@,
    {
        let mut out = String::from_str("Scale9(");
        let value = display_string(self.0);
        out.append(value.as_str());
        out.append(")");
        proof {
            reveal_strlit("Scale9(");
            reveal_strlit(")");
        }
        out
    }

    /// Add, saturating at the numeric bounds instead of overflowing.
    pub fn saturating_add(self, other: Scale9) -> (r: Scale9)
        ensures
            r.spec_raw() == clamp_i64(self.spec_raw() + other.spec_raw()),
    {
        Scale9(saturating_add_i64(self.0, other.0))
    }
}

/// `a + b`; the sum must fit, as for `i64`. Use [`Scale9::checked_add`] where the
/// inputs are not trusted.
impl core::ops::Add for Scale9 {
    type Output = Scale9;

    fn add(self, other: Scale9) -> (r: Scale9)
        ensures
            r.spec_raw() == self.spec_raw() + other.spec_raw(),
    {
        Scale9(self.0 + other.0)
    }
}

impl vstd::std_specs::ops::AddSpecImpl for Scale9 {
    open spec fn obeys_add_spec() -> bool {
        true
    }

    open spec fn add_req(self, rhs: Scale9) -> bool {
        fits_i64(self.spec_raw() + rhs.spec_raw())
    }

    closed spec fn add_spec(self, rhs: Scale9) -> Scale9 {
        Scale9((self.0 + rhs.0) as i64)
    }
}

/// `a - b`; the difference must fit, as for `i64`. Use [`Scale9::checked_sub`] where
/// the inputs are not trusted.
impl core::ops::Sub for Scale9 {
    type Output = Scale9;

    fn sub(self, other: Scale9) -> (r: Scale9)
        ensures
            r.spec_raw() == self.spec_raw() - other.spec_raw(),
    {
        Scale9(self.0 - other.0)
    }
}

impl vstd::std_specs::ops::SubSpecImpl for Scale9 {
    open spec fn obeys_sub_spec() -> bool {
        true
    }

    open spec fn sub_req(self, rhs: Scale9) -> bool {
        fits_i64(self.spec_raw() - rhs.spec_raw())
    }

    closed spec fn sub_spec(self, rhs: Scale9) -> Scale9 {
        Scale9((self.0 - rhs.0) as i64)
    }
}

/// `-a`; the smallest value has no negation that fits, as for `i64`. Verified callers
/// write `Neg::neg(a)`: Verus does not take unary `-` on this type.
impl core::ops::Neg for Scale9 {
    type Output = Scale9;

    fn neg(self) -> (r: Scale9)
        ensures
            r.spec_raw() == -self.spec_raw(),
    {
        Scale9(-self.0)
    }
}

impl vstd::std_specs::ops::NegSpecImpl for Scale9 {
    open spec fn obeys_neg_spec() -> bool {
        true
    }

    open spec fn neg_req(self) -> bool {
        self.spec_raw() != i64::MIN
    }

    closed spec fn neg_spec(self) -> Scale9 {
        Scale9((-self.0) as i64)
    }
}

/// The magnitude of `raw`.
pub open spec fn magnitude(raw: i64) -> nat {
    if raw < 0 {
        (-raw) as nat
    } else {
        raw as nat
    }
}

/// The natural decimal text of a raw scale-9 value: sign, integer part, and the
/// fraction without trailing zeros (`50000`, `1.5`, `-0.000000001`).
pub open spec fn display_text(raw: i64) -> Seq<char> {
    let m = magnitude(raw);
    let integer = m / 1_000_000_000;
    let fraction = m % 1_000_000_000;
    let sign = if raw < 0 { "-"@ } else { Seq::<char>::empty() };
    if fraction == 0 {
        sign + decimal(integer)
    } else {
        sign + decimal(integer) + "."@ + trim_zeros(padded(fraction, 9))
    }
}

/// Text of a raw scale-9 value with exactly `decimals` places (at most nine),
/// rounded half away from zero; a value that rounds to zero has no sign.
pub open spec fn fixed_text(raw: i64, decimals: nat) -> Seq<char> {
    let d: nat = if decimals > 9 { 9 } else { decimals };
    let divisor = pow10((9 - d) as nat);
    let rounded = (magnitude(raw) + divisor / 2) / divisor;
    let unit = pow10(d);
    let sign = if raw < 0 && rounded != 0 { "-"@ } else { Seq::<char>::empty() };
    if d == 0 {
        sign + decimal(rounded / unit)
    } else {
        sign + decimal(rounded / unit) + "."@ + padded(rounded % unit, d)
    }
}

/// The magnitude of an `i64` as a `u64`.
fn magnitude_u64(raw: i64) -> (r: u64)
    ensures
        r == magnitude(raw),
{
    if raw == i64::MIN {
        0x8000_0000_0000_0000u64
    } else if raw < 0 {
        (-raw) as u64
    } else {
        raw as u64
    }
}

/// Trailing zero digits of a padded fraction can be dropped one at a time.
proof fn lemma_trim_step(f: nat, w: nat)
    requires
        w > 0,
        f % 10 == 0,
    ensures
        trim_zeros(padded(f, w)) == trim_zeros(padded(f / 10, (w - 1) as nat)),
{
    assert(digit_char(0) == '0');
    assert(padded(f, w) == padded(f / 10, (w - 1) as nat).push('0'));
    assert(padded(f, w).drop_last() =~= padded(f / 10, (w - 1) as nat));
}

/// Append the padded nine-digit fraction `f` (not zero) without trailing zeros.
fn push_trimmed_fraction(out: &mut String, f: u64)
    requires
        0 < f < 1_000_000_000,
    ensures
        final(out)@ == old(out)@ + trim_zeros(padded(f as nat, 9)),
{
    proof { lemma_pow10_19(); }
    let mut g = f;
    let mut w: u32 = 9;
    while g % 10 == 0
        invariant
            0 < g < pow10(w as nat),
            w <= 9,
            trim_zeros(padded(f as nat, 9)) == trim_zeros(padded(g as nat, w as nat)),
        decreases g,
    {
        proof {
            if w == 0 {
                assert(pow10(0) == 1);
            }
            lemma_trim_step(g as nat, w as nat);
            assert(pow10(w as nat) == 10 * pow10((w - 1) as nat));
        }
        g = g / 10;
        w = w - 1;
    }
    proof {
        if w == 0 {
            assert(pow10(0) == 1);
        }
        let d = (g % 10) as int;
        assert(1 <= d <= 9);
        assert(padded(g as nat, w as nat) == padded((g / 10) as nat, (w - 1) as nat).push(digit_char(d)));
        assert(digit_char(d) != '0');
    }
    push_padded(out, g, w);
}

/// Write a raw scale-9 value as its natural decimal text.
fn display_string(raw: i64) -> (r: String)
    ensures
        r@ == display_text(raw),
{
    let m = magnitude_u64(raw);
    let integer = m / 1_000_000_000;
    let fraction = m % 1_000_000_000;
    let mut out = String::new();
    if raw < 0 {
        out.append("-");
    }
    push_decimal(&mut out, integer);
    if fraction != 0 {
        out.append(".");
        push_trimmed_fraction(&mut out, fraction);
    }
    proof {
        let sign = if raw < 0 { "-"@ } else { Seq::<char>::empty() };
        assert(Seq::<char>::empty() + sign =~= sign);
    }
    out
}

/// Format a [`Scale9`] with a fixed number of decimal places, rounding half away from
/// zero. More than nine decimals is capped at nine.
pub fn scale9_to_string(value: Scale9, decimals: usize) -> (r: String)
    ensures
        r@ == fixed_text(value.spec_raw(), decimals as nat),
{
    proof { lemma_pow10_19(); }
    let d: u32 = if decimals > 9 { 9 } else { decimals as u32 };
    let divisor = pow10_u64(9 - d);
    proof { crate::text::lemma_pow10_monotone((9 - d) as nat, 9); crate::text::lemma_pow10_monotone(d as nat, 9); }
    let m = magnitude_u64(value.0);
    let rounded = (m + divisor / 2) / divisor;
    let unit = pow10_u64(d);
    let mut out = String::new();
    if value.0 < 0 && rounded != 0 {
        out.append("-");
    }
    push_decimal(&mut out, rounded / unit);
    if d != 0 {
        out.append(".");
        push_padded(&mut out, rounded % unit, d);
    }
    proof {
        let sign = if value.0 < 0 && rounded != 0 { "-"@ } else { Seq::<char>::empty() };
        assert(Seq::<char>::empty() + sign =~= sign);
    }
    out
}

/// An ASCII decimal digit.
pub open spec fn is_digit(c: u8) -> bool {
    48 <= c <= 57
}

/// Every byte is an ASCII decimal digit.
pub open spec fn all_digits(b: Seq<u8>) -> bool {
    forall|i: int| 0 <= i < b.len() ==> is_digit(#[trigger] b[i])
}

/// The number written by a string of ASCII digits (zero for none).
pub open spec fn digits_value(b: Seq<u8>) -> nat
    decreases b.len(),
{
    if b.len() == 0 {
        0
    } else {
        digits_value(b.drop_last()) * 10 + (b.last() - 48) as nat
    }
}

/// Index of the first `c` in `s`, or `s.len()` if there is none.
pub open spec fn first_index(s: Seq<u8>, c: u8) -> int
    decreases s.len(),
{
    if s.len() == 0 {
        0
    } else if s[0] == c {
        0
    } else {
        1 + first_index(s.drop_first(), c)
    }
}

/// Length of a leading `-` or `+`.
pub open spec fn sign_len(b: Seq<u8>) -> int {
    if b.len() > 0 && (b[0] == 45 || b[0] == 43) {
        1
    } else {
        0
    }
}

/// The digits before the first `.`, after any sign.
pub open spec fn int_part(b: Seq<u8>) -> Seq<u8> {
    let body = b.skip(sign_len(b));
    body.take(first_index(body, 46))
}

/// Everything after the first `.`, or nothing if there is no `.`.
pub open spec fn frac_part(b: Seq<u8>) -> Seq<u8> {
    let body = b.skip(sign_len(b));
    let d = first_index(body, 46);
    if d < body.len() {
        body.skip(d + 1)
    } else {
        Seq::empty()
    }
}

/// An optional sign, digits, and an optional fraction of at most nine digits, with at
/// least one digit on either side of the point.
pub open spec fn decimal_syntax(b: Seq<u8>) -> bool {
    let i = int_part(b);
    let f = frac_part(b);
    &&& !(i.len() == 0 && f.len() == 0)
    &&& f.len() <= 9
    &&& all_digits(i)
    &&& all_digits(f)
}

/// The raw scale-9 value a well-formed decimal string denotes.
pub open spec fn decimal_raw(b: Seq<u8>) -> int {
    let f = frac_part(b);
    let m = digits_value(int_part(b)) * 1_000_000_000 + digits_value(f) * pow10((9 - f.len()) as nat);
    if b.len() > 0 && b[0] == 45 {
        -(m as int)
    } else {
        m as int
    }
}

/// How a rejected decimal string is reported.
pub open spec fn not_decimal_text(s: Seq<char>) -> Seq<char> {
    "not a decimal: "@ + debug_text(s)
}

/// What `{:?}` prints for a string: quoted, with special characters escaped.
pub uninterp spec fn debug_text(s: Seq<char>) -> Seq<char>;

/// Write `s` as `{:?}` does.
///
/// Trusted: the body is `format!("{:?}", s)`, std's `Debug` for `str`; the contract
/// only names the result, which depends on `s` alone. The quoting and escaping rules
/// are not written out.
#[verifier::external_body]
fn debug_quoted(s: &str) -> (r: String)
    ensures
        r@ == debug_text(s@),
{
    format!("{:?}", s)
}

proof fn lemma_first_index(s: Seq<u8>, c: u8, k: int)
    requires
        0 <= k <= s.len(),
        forall|i: int| 0 <= i < k ==> #[trigger] s[i] != c,
        k == s.len() || s[k] == c,
    ensures
        first_index(s, c) == k,
    decreases k,
{
    if k > 0 {
        lemma_first_index(s.drop_first(), c, k - 1);
    }
}

/// A value only grows as digits are appended.
proof fn lemma_digits_prefix(t: Seq<u8>, k: int)
    requires
        0 <= k <= t.len(),
    ensures
        digits_value(t) >= digits_value(t.take(k)),
    decreases t.len(),
{
    if k < t.len() {
        lemma_digits_prefix(t.drop_last(), k);
        assert(t.drop_last().take(k) =~= t.take(k));
    } else {
        assert(t.take(k) =~= t);
    }
}

/// Accumulate the digits in `b[from..to]`; `None` at the first non-digit or once the
/// value passes `10^10`.
fn read_digits(bytes: &[u8], from: usize, to: usize) -> (r: Option<u64>)
    requires
        from <= to <= bytes@.len(),
    ensures
        match r {
            Some(v) => all_digits(bytes@.subrange(from as int, to as int)) && v == digits_value(
                bytes@.subrange(from as int, to as int),
            ) && v <= 10_000_000_000,
            None => !all_digits(bytes@.subrange(from as int, to as int)) || digits_value(
                bytes@.subrange(from as int, to as int),
            ) > 10_000_000_000,
        },
{
    let ghost b = bytes@;
    let mut v: u64 = 0;
    let mut i = from;
    while i < to
        invariant
            from <= i <= to <= b.len(),
            b == bytes@,
            all_digits(b.subrange(from as int, i as int)),
            v == digits_value(b.subrange(from as int, i as int)),
            v <= 10_000_000_000,
        decreases to - i,
    {
        let c = bytes[i];
        let ghost next = b.subrange(from as int, i + 1);
        assert(next.drop_last() =~= b.subrange(from as int, i as int));
        if c < 48 || c > 57 {
            proof {
                let whole = b.subrange(from as int, to as int);
                assert(whole[i - from] == c);
            }
            return None;
        }
        v = v * 10 + (c - 48) as u64;
        i = i + 1;
        if v > 10_000_000_000 {
            proof {
                let whole = b.subrange(from as int, to as int);
                if all_digits(whole) {
                    lemma_digits_prefix(whole, i - from);
                    assert(whole.take(i - from) =~= b.subrange(from as int, i as int));
                }
            }
            return None;
        }
    }
    Some(v)
}

/// Parse a decimal string into [`Scale9`] exactly, digit by digit.
///
/// Accepts an optional sign, digits, and an optional fraction of at most nine digits;
/// anything else, and any value outside the `i64` range, is [`Error::InvalidData`].
pub fn str_to_scale9(s: &str) -> (r: Result<Scale9, Error>)
    ensures
        r is Ok <==> decimal_syntax(s.spec_bytes()) && fits_i64(decimal_raw(s.spec_bytes())),
        r matches Ok(v) ==> v.spec_raw() == decimal_raw(s.spec_bytes()),
        r is Err ==> (r matches Err(Error::InvalidData(m)) && m@ == not_decimal_text(s@)),
{
    let bytes = s.as_bytes();
    let ghost b = bytes@;
    let n = bytes.len();
    let negative = n > 0 && bytes[0] == 45;
    let start: usize = if n > 0 && (bytes[0] == 45 || bytes[0] == 43) { 1 } else { 0 };
    let ghost body = b.skip(start as int);
    assert(start == sign_len(b));
    let mut d = start;
    while d < n && bytes[d] != 46
        invariant
            start <= d <= n,
            n == b.len(),
            b == bytes@,
            forall|k: int| start <= k < d ==> #[trigger] b[k] != 46,
        decreases n - d,
    {
        d = d + 1;
    }
    proof {
        assert forall|k: int| 0 <= k < d - start implies #[trigger] body[k] != 46 by {
            assert(body[k] == b[k + start]);
        }
        lemma_first_index(body, 46, d - start);
        assert(int_part(b) =~= b.subrange(start as int, d as int));
    }
    let frac_start = if d < n { d + 1 } else { n };
    assert(frac_part(b) =~= b.subrange(frac_start as int, n as int));
    let int_len = d - start;
    let frac_len = n - frac_start;
    if (int_len == 0 && frac_len == 0) || frac_len > 9 {
        return Err(Error::InvalidData(not_a_decimal(s)));
    }
    let int_value = match read_digits(bytes, start, d) {
        Some(v) => v,
        None => {
            proof { lemma_pow10_19(); crate::text::lemma_pow10_monotone(0, (9 - frac_part(b).len()) as nat); }
            return Err(Error::InvalidData(not_a_decimal(s)));
        },
    };
    let frac_value = match read_digits(bytes, frac_start, n) {
        Some(v) => v,
        None => {
            proof {
                lemma_pow10_19();
                crate::text::lemma_pow10_monotone(frac_len as nat, 9);
                let f = b.subrange(frac_start as int, n as int);
                if all_digits(f) {
                    lemma_digits_bound(f);
                }
            }
            return Err(Error::InvalidData(not_a_decimal(s)));
        },
    };
    proof {
        crate::text::lemma_pow10_add(frac_len as nat, (9 - frac_len) as nat);
        lemma_pow10_19();
        crate::text::lemma_pow10_monotone(frac_len as nat, 9);
        lemma_digits_bound(b.subrange(frac_start as int, n as int));
    }
    let scale = pow10_u64((9 - frac_len) as u32);
    assert(frac_value * scale < 1_000_000_000) by (nonlinear_arith)
        requires
            frac_value < pow10(frac_len as nat),
            scale == pow10((9 - frac_len) as nat),
            pow10(frac_len as nat) * pow10((9 - frac_len) as nat) == 1_000_000_000,
    ;
    let raw: u64 = int_value * 1_000_000_000 + frac_value * scale;
    if negative {
        if raw > 0x8000_0000_0000_0000u64 {
            return Err(Error::InvalidData(not_a_decimal(s)));
        }
        if raw == 0x8000_0000_0000_0000u64 {
            Ok(Scale9(i64::MIN))
        } else {
            Ok(Scale9(-(raw as i64)))
        }
    } else {
        if raw > 0x7fff_ffff_ffff_ffffu64 {
            return Err(Error::InvalidData(not_a_decimal(s)));
        }
        Ok(Scale9(raw as i64))
    }
}

/// The message for a string that is not a decimal.
fn not_a_decimal(s: &str) -> (r: String)
    ensures
        r@ == not_decimal_text(s@),
{
    let mut out = String::from_str("not a decimal: ");
    let quoted = debug_quoted(s);
    out.append(quoted.as_str());
    out
}

/// A string of `k` digits denotes less than `10^k`.
proof fn lemma_digits_bound(t: Seq<u8>)
    requires
        all_digits(t),
    ensures
        digits_value(t) < pow10(t.len()),
    decreases t.len(),
{
    if t.len() > 0 {
        lemma_digits_bound(t.drop_last());
    }
}

/// The bytes of an ASCII text, one per character.
pub open spec fn ascii_bytes(cs: Seq<char>) -> Seq<u8> {
    Seq::new(cs.len(), |i: int| cs[i] as u8)
}

/// Every character is an ASCII decimal digit.
pub open spec fn digit_chars(cs: Seq<char>) -> bool {
    forall|i: int| 0 <= i < cs.len() ==> '0' <= #[trigger] cs[i] <= '9'
}

proof fn lemma_digit_char(d: int)
    requires
        0 <= d < 10,
    ensures
        '0' <= digit_char(d) <= '9',
        digit_char(d) as u8 == 48 + d,
{
}

/// `decimal(n)` is digits that read back as `n`.
proof fn lemma_decimal_reads_back(n: nat)
    ensures
        decimal(n).len() >= 1,
        digit_chars(decimal(n)),
        digits_value(ascii_bytes(decimal(n))) == n,
    decreases n,
{
    if n < 10 {
        lemma_digit_char(n as int);
        let b = ascii_bytes(decimal(n));
        assert(decimal(n) =~= seq![digit_char(n as int)]);
        assert(b.len() == 1);
        assert(b.last() == 48 + n);
        assert(b.drop_last() =~= Seq::<u8>::empty());
        assert(digits_value(b.drop_last()) == 0);
    } else {
        lemma_decimal_reads_back(n / 10);
        lemma_digit_char((n % 10) as int);
        let d = decimal(n / 10);
        let t = d.push(digit_char((n % 10) as int));
        assert(ascii_bytes(t).drop_last() =~= ascii_bytes(d));
        assert(digit_chars(t)) by {
            assert forall|i: int| 0 <= i < t.len() implies '0' <= #[trigger] t[i] <= '9' by {
                if i < d.len() {
                    assert(t[i] == d[i]);
                }
            }
        }
    }
}

/// `padded(n, w)` is `w` digits that read back as `n % 10^w`.
proof fn lemma_padded_reads_back(n: nat, w: nat)
    ensures
        padded(n, w).len() == w,
        digit_chars(padded(n, w)),
        digits_value(ascii_bytes(padded(n, w))) == n % pow10(w),
    decreases w,
{
    if w == 0 {
        assert(ascii_bytes(padded(n, w)) =~= Seq::<u8>::empty());
    } else {
        let w1 = (w - 1) as nat;
        lemma_padded_reads_back(n / 10, w1);
        lemma_digit_char((n % 10) as int);
        let d = padded(n / 10, w1);
        let t = d.push(digit_char((n % 10) as int));
        assert(ascii_bytes(t).drop_last() =~= ascii_bytes(d));
        assert(digit_chars(t)) by {
            assert forall|i: int| 0 <= i < t.len() implies '0' <= #[trigger] t[i] <= '9' by {
                if i < d.len() {
                    assert(t[i] == d[i]);
                }
            }
        }
        crate::text::lemma_pow10_monotone(0, w1);
        let p = pow10(w1);
        assert(pow10(w) == 10 * p);
        assert((n / 10) % p * 10 + n % 10 == n % (10 * p)) by (nonlinear_arith)
            requires
                p >= 1,
        {
            vstd::arithmetic::div_mod::lemma_breakdown(n as int, 10, p as int);
        }
    }
}


/// Bytes of ASCII characters are the characters' codes, one byte each.
proof fn lemma_ascii_encoding(cs: Seq<char>)
    requires
        forall|i: int| 0 <= i < cs.len() ==> #[trigger] cs[i] == '-' || cs[i] == '.' || '0' <= cs[i] <= '9',
    ensures
        vstd::utf8::encode_utf8(cs) == ascii_bytes(cs),
{
    assert(vstd::utf8::is_ascii_chars(cs)) by {
        assert forall|i: int| 0 <= i < cs.len() implies '\0' <= #[trigger] cs[i] <= '\u{7f}' by {
            assert(cs[i] == '-' || cs[i] == '.' || '0' <= cs[i] <= '9');
        }
    }
    vstd::utf8::is_ascii_chars_encode_utf8(cs);
    assert(vstd::utf8::encode_utf8(cs) =~= ascii_bytes(cs));
}

/// How a rendered text splits when parsed: `sign`, the digits `d`, and, if `p` is some,
/// a point followed by the digits of `p`.
proof fn lemma_rendered_parts(neg: bool, d: Seq<char>, p: Option<Seq<char>>)
    requires
        d.len() >= 1,
        digit_chars(d),
        p matches Some(f) ==> digit_chars(f),
    ensures
        ({
            let sign = if neg { "-"@ } else { Seq::<char>::empty() };
            let t = match p {
                Some(f) => sign + d + "."@ + f,
                None => sign + d,
            };
            let b = vstd::utf8::encode_utf8(t);
            &&& int_part(b) == ascii_bytes(d)
            &&& frac_part(b) == (match p {
                Some(f) => ascii_bytes(f),
                None => Seq::<u8>::empty(),
            })
            &&& (b.len() > 0 && b[0] == 45) == neg
            &&& all_digits(ascii_bytes(d))
            &&& (p matches Some(f) ==> all_digits(ascii_bytes(f)))
        }),
{
    reveal_strlit("-");
    reveal_strlit(".");
    let sign = if neg { "-"@ } else { Seq::<char>::empty() };
    let f = match p {
        Some(f) => f,
        None => Seq::<char>::empty(),
    };
    let tail = match p {
        Some(f) => "."@ + f,
        None => Seq::<char>::empty(),
    };
    let t = match p {
        Some(f) => sign + d + "."@ + f,
        None => sign + d,
    };
    assert(t =~= sign + d + tail);
    assert forall|i: int| 0 <= i < t.len() implies #[trigger] t[i] == '-' || t[i] == '.' || '0' <= t[i] <= '9' by {
        if i < sign.len() {
            assert(t[i] == '-');
        } else if i < sign.len() + d.len() {
            assert(t[i] == d[i - sign.len()]);
        } else if i == sign.len() + d.len() {
            assert(t[i] == '.');
        } else {
            assert(t[i] == f[i - sign.len() - d.len() - 1]);
        }
    }
    lemma_ascii_encoding(t);
    let b = ascii_bytes(t);
    let bd = ascii_bytes(d);
    let bf = ascii_bytes(f);
    let sl: int = if neg { 1 } else { 0 };
    let body = b.skip(sl);
    assert(b.len() > 0 && b[0] == 45 <==> neg) by {
        if !neg {
            assert(b[0] == bd[0]);
            assert('0' <= d[0] <= '9');
        }
    }
    assert(sign_len(b) == sl) by {
        if !neg {
            assert(b[0] == bd[0]);
            assert('0' <= d[0] <= '9');
        }
    }
    assert forall|i: int| 0 <= i < bd.len() implies #[trigger] body[i] != 46 by {
        assert(body[i] == b[i + sl]);
        assert(b[i + sl] == bd[i]);
        assert('0' <= d[i] <= '9');
    }
    if p is Some {
        assert(body =~= bd + seq![46u8] + bf);
        assert(body[bd.len() as int] == 46);
    } else {
        assert(body =~= bd);
    }
    lemma_first_index(body, 46, bd.len() as int);
    assert(int_part(b) =~= bd);
    if p is Some {
        assert(frac_part(b) =~= bf);
    } else {
        assert(frac_part(b) =~= Seq::<u8>::empty());
    }
    assert(all_digits(bd)) by {
        assert forall|i: int| 0 <= i < bd.len() implies is_digit(#[trigger] bd[i]) by {
            assert('0' <= d[i] <= '9');
        }
    }
    assert(all_digits(bf)) by {
        assert forall|i: int| 0 <= i < bf.len() implies is_digit(#[trigger] bf[i]) by {
            assert('0' <= f[i] <= '9');
        }
    }
}

/// Rendering a value with all nine decimals and parsing that text gives the value back:
/// the text is well-formed decimal syntax and denotes exactly the raw value.
pub proof fn lemma_nine_decimals_parse_back(v: Scale9)
    ensures
        decimal_syntax(vstd::utf8::encode_utf8(fixed_text(v.spec_raw(), 9))),
        decimal_raw(vstd::utf8::encode_utf8(fixed_text(v.spec_raw(), 9))) == v.spec_raw(),
{
    let raw = v.spec_raw();
    let m = magnitude(raw);
    lemma_pow10_19();
    assert(pow10(0) == 1);
    let q = m / 1_000_000_000;
    let f = m % 1_000_000_000;
    assert((m + 1nat / 2) / 1 == m);
    lemma_decimal_reads_back(q);
    lemma_padded_reads_back(f, 9);
    lemma_rendered_parts(raw < 0, decimal(q), Some(padded(f, 9)));
    assert(f % pow10(9) == f);
}

/// The distance between two integers.
pub open spec fn distance(a: int, b: int) -> int {
    if a >= b {
        a - b
    } else {
        b - a
    }
}

/// Powers of ten above the first are even.
proof fn lemma_pow10_even(k: nat)
    ensures
        k == 0 ==> pow10(k) == 1,
        k > 0 ==> pow10(k) % 2 == 0,
{
    if k > 0 {
        assert(pow10(k) == 10 * pow10((k - 1) as nat));
    }
}

/// Rounding `m` to a multiple of `u` by adding half of `u` and truncating lands
/// within half of `u`, and a tie goes up.
proof fn lemma_half_up(m: nat, u: nat)
    requires
        u == 1 || (u >= 2 && u % 2 == 0),
    ensures
        2 * distance((((m + u / 2) / u) * u) as int, m as int) <= u,
        2 * distance((((m + u / 2) / u) * u) as int, m as int) == u ==> ((m + u / 2) / u) * u > m,
{
    let h = u / 2;
    let t = m + h;
    let r = t / u;
    vstd::arithmetic::div_mod::lemma_fundamental_div_mod(t as int, u as int);
    let rem = t % u;
    assert(0 <= rem < u);
    assert(r * u == u * r) by (nonlinear_arith);
    assert(r * u - m == h - rem);
}

/// Rendering a value with `d` decimals (at most nine) writes exactly `d` digits after
/// the point, and the text parses back to the value rounded to a multiple of
/// `10^(9 - d)` raw units: the nearest one, a tie going away from zero.
pub proof fn lemma_fixed_decimals_parse_back(v: Scale9, d: nat)
    requires
        d <= 9,
    ensures
        ({
            let b = vstd::utf8::encode_utf8(fixed_text(v.spec_raw(), d));
            let q = decimal_raw(b);
            let u = pow10((9 - d) as nat) as int;
            &&& decimal_syntax(b)
            &&& frac_part(b).len() == d
            &&& q % u == 0
            &&& 2 * distance(q, v.spec_raw() as int) <= u
            &&& 2 * distance(q, v.spec_raw() as int) == u ==> distance(q, 0) > distance(v.spec_raw() as int, 0)
        }),
{
    let raw = v.spec_raw();
    let m = magnitude(raw);
    let e = (9 - d) as nat;
    let u = pow10(e);
    let unit = pow10(d);
    lemma_pow10_19();
    crate::text::lemma_pow10_monotone(0, e);
    crate::text::lemma_pow10_monotone(0, d);
    crate::text::lemma_pow10_add(d, e);
    assert(d + e == 9);
    assert(unit * u == 1_000_000_000);
    lemma_pow10_even(e);
    let rounded = (m + u / 2) / u;
    let neg = raw < 0 && rounded != 0;
    lemma_half_up(m, u);
    let hi = rounded / unit;
    let lo = rounded % unit;
    vstd::arithmetic::div_mod::lemma_fundamental_div_mod(rounded as int, unit as int);
    lemma_decimal_reads_back(hi);
    let b = vstd::utf8::encode_utf8(fixed_text(raw, d));
    // The magnitude the text spells out is `rounded * u`.
    let mag = digits_value(int_part(b)) * 1_000_000_000 + digits_value(frac_part(b)) * pow10(
        (9 - frac_part(b).len()) as nat,
    );
    if d == 0 {
        assert(unit == 1);
        assert(hi == rounded);
        lemma_rendered_parts(neg, decimal(hi), None);
        assert(digits_value(Seq::<u8>::empty()) == 0);
        assert(mag == rounded * 1_000_000_000);
        assert(mag == rounded * u);
    } else {
        lemma_padded_reads_back(lo, d);
        lemma_rendered_parts(neg, decimal(hi), Some(padded(lo, d)));
        vstd::arithmetic::div_mod::lemma_mod_pos_bound(rounded as int, unit as int);
        vstd::arithmetic::div_mod::lemma_small_mod(lo, unit);
        assert(lo % pow10(d) == lo);
        assert(frac_part(b).len() == d);
        assert(mag == hi * 1_000_000_000 + lo * u);
        assert(hi * 1_000_000_000 + lo * u == (unit * hi + lo) * u) by (nonlinear_arith)
            requires
                unit * u == 1_000_000_000,
        ;
        assert(mag == rounded * u);
    }
    let q = decimal_raw(b);
    assert(q == if neg { -((rounded * u) as int) } else { (rounded * u) as int });
    if neg {
        assert(-(rounded * u) == (-(rounded as int)) * u) by (nonlinear_arith);
        vstd::arithmetic::div_mod::lemma_mod_multiples_basic(-(rounded as int), u as int);
    } else {
        vstd::arithmetic::div_mod::lemma_mod_multiples_basic(rounded as int, u as int);
    }
    if raw < 0 && rounded == 0 {
        assert(rounded * u == 0) by (nonlinear_arith)
            requires
                rounded == 0,
        ;
    }
}

/// A run of digits without its trailing zeros keeps its leading digits, and reads
/// back as the whole run divided by a power of ten.
proof fn lemma_trim_reads_back(s: Seq<char>)
    requires
        digit_chars(s),
    ensures
        trim_zeros(s).len() <= s.len(),
        trim_zeros(s) == s.take(trim_zeros(s).len() as int),
        digits_value(ascii_bytes(trim_zeros(s))) * pow10((s.len() - trim_zeros(s).len()) as nat)
            == digits_value(ascii_bytes(s)),
    decreases s.len(),
{
    let t = trim_zeros(s);
    if s.len() > 0 && s.last() == '0' {
        let s1 = s.drop_last();
        assert(digit_chars(s1)) by {
            assert forall|i: int| 0 <= i < s1.len() implies '0' <= #[trigger] s1[i] <= '9' by {
                assert(s1[i] == s[i]);
            }
        }
        lemma_trim_reads_back(s1);
        assert(t == trim_zeros(s1));
        assert(s1.take(t.len() as int) =~= s.take(t.len() as int));
        assert(ascii_bytes(s).drop_last() =~= ascii_bytes(s1));
        assert(ascii_bytes(s).last() == 48);
        let k = (s1.len() - t.len()) as nat;
        assert((s.len() - t.len()) as nat == k + 1);
        assert(pow10(k + 1) == 10 * pow10(k));
        let a = digits_value(ascii_bytes(t));
        assert(a * pow10(k + 1) == a * pow10(k) * 10) by (nonlinear_arith)
            requires
                pow10(k + 1) == 10 * pow10(k),
        ;
    } else {
        assert(s.take(s.len() as int) =~= s);
        assert(pow10(0) == 1);
        let a = digits_value(ascii_bytes(t));
        assert(a * pow10(0) == a);
    }
}

/// The natural text of a value parses back to the value: it is well-formed decimal
/// syntax and denotes exactly the raw value.
pub proof fn lemma_display_parses_back(v: Scale9)
    ensures
        decimal_syntax(vstd::utf8::encode_utf8(display_text(v.spec_raw()))),
        decimal_raw(vstd::utf8::encode_utf8(display_text(v.spec_raw()))) == v.spec_raw(),
{
    let raw = v.spec_raw();
    let m = magnitude(raw);
    lemma_pow10_19();
    let q = m / 1_000_000_000;
    let f = m % 1_000_000_000;
    lemma_decimal_reads_back(q);
    if f == 0 {
        lemma_rendered_parts(raw < 0, decimal(q), None);
        assert(digits_value(Seq::<u8>::empty()) == 0);
        assert(0 * pow10(9) == 0);
    } else {
        let p = padded(f, 9);
        let t = trim_zeros(p);
        lemma_padded_reads_back(f, 9);
        lemma_trim_reads_back(p);
        assert(digit_chars(t)) by {
            assert forall|i: int| 0 <= i < t.len() implies '0' <= #[trigger] t[i] <= '9' by {
                assert(t[i] == p[i]);
            }
        }
        lemma_rendered_parts(raw < 0, decimal(q), Some(t));
        assert(f % pow10(9) == f);
    }
}

} // verus!
