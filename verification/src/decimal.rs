//! Signed fixed-point decimal numbers with six fractional digits, used for
//! cash, share counts and prices.

use vstd::prelude::*;
use crate::text::{
    all_digits, chars_of, digit_char, digit_to_char, digit_value, digits_of, digits_value, index_of,
    is_digit, lemma_digit_char, lemma_digits_have_no_separators, lemma_digits_of,
    lemma_digits_value_push, lemma_index_of, lemma_index_of_is, push_digits,
    string_of,
};
use vstd::arithmetic::div_mod::{
    lemma_fundamental_div_mod, lemma_fundamental_div_mod_converse, lemma_mod_pos_bound,
};

verus! {

/// A whole-number text this large is out of `i32` range; parsing stops
/// counting there.
const WHOLE_CAP: u64 = 10_000_000_000_000;

/// A magnitude this large is out of range for any decimal, whatever its
/// sign; parsing stops counting there.
const UNITS_CAP: u128 = 0x8000_0000_0000_0000_0000_0000_0000_0001;

/// An exponent this large moves any non-zero number out of range (or, when
/// negative, to zero); parsing stops counting there.
const EXP_CAP: u128 = 0x1_0000_0000_0000_0000_0000_0000;

/// A signed decimal number: `units` millionths (one whole is 1_000_000
/// units).
#[derive(Clone, Copy, Debug, PartialEq, Eq)]
pub struct Decimal {
    pub units: i128,
}

impl View for Decimal {
    type V = int;

    open spec fn view(&self) -> int {
        self.units as int
    }
}

pub open spec fn in_range(v: int) -> bool {
    i128::MIN <= v <= i128::MAX
}

pub open spec fn abs(v: int) -> nat {
    if v < 0 {
        (-v) as nat
    } else {
        v as nat
    }
}

/// `m`, negated where `neg`.
pub open spec fn signed(neg: bool, m: int) -> int {
    if neg {
        -m
    } else {
        m
    }
}

/// Division truncated toward zero (`b != 0`), as integer division in Rust.
pub open spec fn quot(a: int, b: int) -> int {
    let q = (abs(a) / abs(b)) as int;
    if (a < 0) != (b < 0) {
        -q
    } else {
        q
    }
}

/// Units of the product of two decimals: exact product, truncated to
/// millionths.
pub open spec fn product_units(a: int, b: int) -> int {
    quot(a * b, 1_000_000)
}

/// Units of the quotient of two decimals, truncated to millionths.
pub open spec fn quotient_units(a: int, b: int) -> int {
    quot(a * 1_000_000, b)
}

pub open spec fn pow10(k: nat) -> nat
    decreases k,
{
    if k == 0 {
        1
    } else {
        10 * pow10((k - 1) as nat)
    }
}

/// The low `k` decimal digits of `v`, zero-padded on the left.
pub open spec fn padded_digits(v: nat, k: nat) -> Seq<char>
    decreases k,
{
    if k == 0 {
        seq![]
    } else {
        padded_digits(v / 10, (k - 1) as nat).push(digit_char(v % 10))
    }
}

/// `s` without its trailing `'0'` characters.
pub open spec fn strip_zeros(s: Seq<char>) -> Seq<char>
    decreases s.len(),
{
    if s.len() > 0 && s.last() == '0' {
        strip_zeros(s.drop_last())
    } else {
        s
    }
}

/// The text of a decimal of `v` units: an optional `-`, the whole part, and,
/// where the fraction is not zero, `.` and its digits without trailing zeros
/// (`1000`, `150.5`, `-0.25`).
pub open spec fn decimal_text(v: int) -> Seq<char> {
    let m = abs(v);
    let whole = m / 1_000_000;
    let frac = m % 1_000_000;
    let sign = if v < 0 {
        seq!['-']
    } else {
        Seq::<char>::empty()
    };
    let tail = if frac == 0 {
        Seq::<char>::empty()
    } else {
        seq!['.'] + strip_zeros(padded_digits(frac, 6))
    };
    sign + digits_of(whole) + tail
}

/// Length of a leading sign.
pub open spec fn sign_len(s: Seq<char>) -> int {
    if s.len() > 0 && (s[0] == '-' || s[0] == '+') {
        1
    } else {
        0
    }
}

/// Index of the first exponent marker, `e` or `E`.
pub open spec fn marker_index(s: Seq<char>) -> Option<nat> {
    match (index_of(s, 'e'), index_of(s, 'E')) {
        (Some(a), Some(b)) => Some(
            if a < b {
                a
            } else {
                b
            },
        ),
        (Some(a), None) => Some(a),
        (None, b) => b,
    }
}

/// The part of an unsigned number text before its exponent.
pub open spec fn mantissa(body: Seq<char>) -> Seq<char> {
    match marker_index(body) {
        Some(p) => body.take(p as int),
        None => body,
    }
}

/// The value of an optional sign followed by at least one digit.
pub open spec fn signed_digits(t: Seq<char>) -> Option<int> {
    let ds = t.skip(sign_len(t));
    if ds.len() > 0 && all_digits(ds) {
        Some(signed(t[0] == '-', digits_value(ds) as int))
    } else {
        None
    }
}

/// The exponent of an unsigned number text: zero where it has no marker;
/// after the marker, an optional sign and at least one digit.
pub open spec fn exponent(body: Seq<char>) -> Option<int> {
    match marker_index(body) {
        None => Some(0),
        Some(p) => signed_digits(body.skip(p + 1int)),
    }
}

/// The whole-part digits of a mantissa.
pub open spec fn whole_part(mant: Seq<char>) -> Seq<char> {
    match index_of(mant, '.') {
        Some(p) => mant.take(p as int),
        None => mant,
    }
}

/// The fraction digits of a mantissa.
pub open spec fn frac_part(mant: Seq<char>) -> Seq<char> {
    match index_of(mant, '.') {
        Some(p) => mant.skip(p + 1int),
        None => Seq::<char>::empty(),
    }
}

/// Whether an unsigned text is a number: digits with an optional `.`, at
/// least one digit in all, then an optional well-formed exponent.
pub open spec fn number_form(body: Seq<char>) -> bool {
    let mant = mantissa(body);
    &&& exponent(body) is Some
    &&& all_digits(whole_part(mant))
    &&& all_digits(frac_part(mant))
    &&& whole_part(mant).len() + frac_part(mant).len() > 0
}

/// `m * 10^shift`, truncated toward zero.
pub open spec fn shifted(m: nat, shift: int) -> nat {
    if shift >= 0 {
        m * pow10(shift as nat)
    } else {
        m / pow10((-shift) as nat)
    }
}

/// The units of the magnitude of an unsigned number text: its digits, as
/// one number, moved by the exponent less the fraction digits, in
/// millionths.
pub open spec fn magnitude_units(body: Seq<char>) -> nat {
    let mant = mantissa(body);
    let frac = frac_part(mant);
    shifted(digits_value(whole_part(mant) + frac), 6 + exponent(body)->0 - frac.len())
}

/// The units that a number text denotes, as `str::parse::<f32>` reads its
/// finite forms: an optional sign; digits with an optional `.`, at least
/// one digit in all; and an optional exponent, `e` or `E` with an optional
/// sign and digits (`1e3`, `-2.5E-1`, `+.5`). The value is truncated to
/// millionths. `None` where the text is not of that form (`inf` and `NaN`
/// among them) or the value is out of range.
pub open spec fn decimal_value(s: Seq<char>) -> Option<int> {
    let body = s.skip(sign_len(s));
    if number_form(body) {
        let v = signed(s.len() > 0 && s[0] == '-', magnitude_units(body) as int);
        if in_range(v) {
            Some(v)
        } else {
            None
        }
    } else {
        None
    }
}

pub open spec fn min_nat(a: nat, b: nat) -> nat {
    if a < b {
        a
    } else {
        b
    }
}

impl Decimal {
    /// The decimal of `units` millionths.
    pub fn from_units(units: i128) -> (d: Decimal)
        ensures
            d@ == units,
    {
        Decimal { units }
    }

    /// `self + other`, where it is in range.
    pub fn checked_add(self, other: Decimal) -> (r: Option<Decimal>)
        ensures
            match r {
                Some(d) => d@ == self@ + other@,
                None => !in_range(self@ + other@),
            },
    {
        match self.units.checked_add(other.units) {
            Some(s) => Some(Decimal { units: s }),
            None => None,
        }
    }

    /// `self - other`, where it is in range.
    pub fn checked_sub(self, other: Decimal) -> (r: Option<Decimal>)
        ensures
            match r {
                Some(d) => d@ == self@ - other@,
                None => !in_range(self@ - other@),
            },
    {
        match self.units.checked_sub(other.units) {
            Some(s) => Some(Decimal { units: s }),
            None => None,
        }
    }

    /// `self * other`, truncated to millionths, where it is in range.
    pub fn checked_mul(self, other: Decimal) -> (r: Option<Decimal>)
        ensures
            match r {
                Some(d) => d@ == product_units(self@, other@),
                None => !in_range(product_units(self@, other@)),
            },
    {
        let neg = (self.units < 0) != (other.units < 0);
        let a = magnitude(self.units);
        let b = magnitude(other.units);
        proof {
            lemma_quot_scaled(self@, other@, 1_000_000);
            assert(product_units(self@, other@) == signed(neg, ((a * b) / 1_000_000) as int));
        }
        match mul_div_floor(a, b, 1_000_000) {
            Some(q) => signed_units(neg, q),
            None => None,
        }
    }

    /// `self / other`, truncated to millionths; `None` where `other` is zero
    /// or the quotient is out of range.
    pub fn checked_div(self, other: Decimal) -> (r: Option<Decimal>)
        ensures
            match r {
                Some(d) => other@ != 0 && d@ == quotient_units(self@, other@),
                None => other@ == 0 || !in_range(quotient_units(self@, other@)),
            },
    {
        if other.units == 0 {
            return None;
        }
        let neg = (self.units < 0) != (other.units < 0);
        let a = magnitude(self.units);
        let b = magnitude(other.units);
        proof {
            lemma_quot_scaled(self@, 1_000_000, other@);
            assert(quotient_units(self@, other@) == signed(neg, ((a * 1_000_000) / (b as int)) as int));
        }
        match mul_div_floor(a, 1_000_000, b) {
            Some(q) => signed_units(neg, q),
            None => None,
        }
    }

    /// The text of the decimal (see `decimal_text`).
    pub fn to_text(&self) -> (s: String)
        ensures
            s@ == decimal_text(self@),
    {
        let mut out: Vec<char> = Vec::new();
        let m: u128 = magnitude(self.units);
        if self.units < 0 {
            out.push('-');
        }
        push_digits(&mut out, m / 1_000_000);
        let frac = (m % 1_000_000) as u64;
        if frac != 0 {
            out.push('.');
            let mut ds: Vec<char> = Vec::new();
            push_padded(&mut ds, frac, 6);
            assert(ds@ =~= padded_digits(frac as nat, 6));
            strip_trailing_zeros(&mut ds);
            let ghost before = out@;
            let mut i: usize = 0;
            while i < ds.len()
                invariant
                    i <= ds.len(),
                    out@ == before + ds@.take(i as int),
                decreases ds.len() - i,
            {
                out.push(ds[i]);
                assert(ds@.take(i + 1) =~= ds@.take(i as int).push(ds@[i as int]));
                i = i + 1;
            }
            assert(ds@.take(ds.len() as int) =~= ds@);
            assert(out@ =~= decimal_text(self@));
        } else {
            assert(out@ =~= decimal_text(self@));
        }
        string_of(&out)
    }
}

/// `|v|`.
pub(crate) fn magnitude(v: i128) -> (m: u128)
    ensures
        m == abs(v as int),
{
    if v < 0 {
        ((-(v + 1)) as u128) + 1
    } else {
        v as u128
    }
}

/// `|a - b|`, and whether `a < b`.
pub(crate) fn difference(a: i128, b: i128) -> (r: (bool, u128))
    ensures
        r.0 == (a < b),
        r.1 == abs(a - b),
{
    if a >= b {
        if b >= 0 || a < 0 {
            (false, (a - b) as u128)
        } else {
            (false, (a as u128) + magnitude(b))
        }
    } else {
        if a >= 0 || b < 0 {
            (true, (b - a) as u128)
        } else {
            (true, (b as u128) + magnitude(a))
        }
    }
}

/// The decimal of `m` units, negated where `neg`; `None` where that is out
/// of range.
pub(crate) fn signed_units(neg: bool, m: u128) -> (r: Option<Decimal>)
    ensures
        match r {
            Some(d) => d@ == signed(neg, m as int),
            None => !in_range(signed(neg, m as int)),
        },
{
    if neg {
        if m > 0x8000_0000_0000_0000_0000_0000_0000_0000 {
            None
        } else if m == 0x8000_0000_0000_0000_0000_0000_0000_0000 {
            Some(Decimal { units: i128::MIN })
        } else {
            Some(Decimal { units: -(m as i128) })
        }
    } else {
        if m > 0x7fff_ffff_ffff_ffff_ffff_ffff_ffff_ffff {
            None
        } else {
            Some(Decimal { units: m as i128 })
        }
    }
}

/// `(r * n) / b` and `(r * n) % b`, for `r < b`, without overflow.
fn mul_mod(r: u128, n: u128, b: u128) -> (res: (u128, u128))
    requires
        0 < b <= 0x8000_0000_0000_0000_0000_0000_0000_0000,
        r < b,
    ensures
        res.0 * b + res.1 == r * n,
        res.1 < b,
        res.0 <= n,
    decreases n,
{
    if n == 0 {
        return (0, 0);
    }
    let h = n / 2;
    let (q, m) = mul_mod(r, h, b);
    let mut q2: u128 = q * 2;
    let mut m2: u128 = m * 2;
    if m2 >= b {
        m2 = m2 - b;
        q2 = q2 + 1;
    }
    assert(q2 * b + m2 == r * (2 * h)) by (nonlinear_arith)
        requires
            q * b + m == r * h,
            (q2 == 2 * q && m2 == 2 * m) || (q2 == 2 * q + 1 && m2 == 2 * m - b),
    ;
    assert(q2 < n) by (nonlinear_arith)
        requires
            q2 * b + m2 == r * (2 * h),
            m2 >= 0,
            r < b,
            2 * h <= n,
            n > 0,
    ;
    let (qf, mf) = if n % 2 == 1 {
        let m3 = m2 + r;
        if m3 >= b {
            (q2 + 1, m3 - b)
        } else {
            (q2, m3)
        }
    } else {
        (q2, m2)
    };
    assert(qf * b + mf == r * n) by (nonlinear_arith)
        requires
            q2 * b + m2 == r * (2 * h),
            n == 2 * h + n % 2,
            n % 2 == 1 ==> (qf == q2 && mf == m2 + r) || (qf == q2 + 1 && mf == m2 + r - b),
            n % 2 != 1 ==> qf == q2 && mf == m2,
    ;
    assert(qf <= n) by (nonlinear_arith)
        requires
            qf * b + mf == r * n,
            mf >= 0,
            r < b,
            b > 0,
            n > 0,
    ;
    (qf, mf)
}

/// `(a * k) / b`; `None` where that exceeds `u128`.
pub(crate) fn mul_div_floor(a: u128, k: u128, b: u128) -> (r: Option<u128>)
    requires
        0 < b <= 0x8000_0000_0000_0000_0000_0000_0000_0000,
    ensures
        match r {
            Some(x) => x == (a * k) / (b as int),
            None => (a * k) / (b as int) > u128::MAX,
        },
{
    let q1 = a / b;
    let r1 = a % b;
    let (q2, r2) = mul_mod(r1, k, b);
    proof {
        lemma_fundamental_div_mod(a as int, b as int);
        assert(a * k == (q1 * k + q2) * b + r2) by (nonlinear_arith)
            requires
                a == b * q1 + r1,
                q2 * b + r2 == r1 * k,
        ;
        lemma_fundamental_div_mod_converse((a * k) as int, b as int, (q1 * k + q2) as int, r2 as int);
    }
    match q1.checked_mul(k) {
        Some(t) => t.checked_add(q2),
        None => None,
    }
}

/// `quot(x * k, b)` by magnitudes.
pub(crate) proof fn lemma_quot_scaled(x: int, k: int, b: int)
    requires
        b != 0,
    ensures
        quot(x * k, b) == signed(((x < 0) != (k < 0)) != (b < 0), ((abs(x) * abs(k)) / abs(b)) as int),
{
    assert(abs(x * k) == abs(x) * abs(k)) by (nonlinear_arith);
    if x == 0 || k == 0 {
        assert(x * k == 0) by (nonlinear_arith)
            requires
                x == 0 || k == 0,
        ;
        assert(abs(x) * abs(k) == 0) by (nonlinear_arith)
            requires
                x == 0 || k == 0,
        ;
    } else {
        assert((x * k < 0) == ((x < 0) != (k < 0))) by (nonlinear_arith)
            requires
                x != 0,
                k != 0,
        ;
    }
}

/// Appends the low `k` digits of `v`, zero-padded.
fn push_padded(out: &mut Vec<char>, v: u64, k: u64)
    ensures
        final(out)@ == old(out)@ + padded_digits(v as nat, k as nat),
    decreases k,
{
    if k == 0 {
        assert(old(out)@ + Seq::<char>::empty() =~= old(out)@);
    } else {
        push_padded(out, v / 10, k - 1);
        out.push(digit_to_char(v % 10));
        assert(old(out)@ + padded_digits((v / 10) as nat, (k - 1) as nat).push(digit_char(
            (v % 10) as nat,
        )) =~= (old(out)@ + padded_digits((v / 10) as nat, (k - 1) as nat)).push(
            digit_char((v % 10) as nat),
        ));
    }
}

/// Removes the trailing `'0'` characters.
fn strip_trailing_zeros(v: &mut Vec<char>)
    ensures
        final(v)@ == strip_zeros(old(v)@),
{
    while v.len() > 0 && v[v.len() - 1] == '0'
        invariant
            strip_zeros(v@) == strip_zeros(old(v)@),
        decreases v.len(),
    {
        let ghost before = v@;
        v.pop();
        assert(v@ =~= before.drop_last());
    }
}

fn is_digit_char(c: char) -> (b: bool)
    ensures
        b == is_digit(c),
{
    c >= '0' && c <= '9'
}

fn digit_of(c: char) -> (d: u64)
    requires
        is_digit(c),
    ensures
        d == digit_value(c),
        d < 10,
{
    (c as u32 - 48) as u64
}

/// The whole-part digits run up to the first `.` when only digits precede it.
proof fn lemma_whole_part(body: Seq<char>, p: int)
    requires
        0 <= p <= body.len(),
        all_digits(body.take(p)),
        p < body.len() ==> body[p] == '.',
    ensures
        whole_part(body) == body.take(p),
        frac_part(body) == (if p < body.len() {
            body.skip(p + 1)
        } else {
            Seq::<char>::empty()
        }),
{
    assert forall|j: int| 0 <= j < p implies body[j] != '.' by {
        assert(is_digit(body.take(p)[j]));
    }
    lemma_index_of_is(body, '.', p);
    if p == body.len() {
        assert(body.take(p) =~= body);
    }
}

/// Reads digits from `from` on; returns where they end and their value,
/// capped at `WHOLE_CAP`.
fn scan_whole(cs: &Vec<char>, from: usize) -> (r: (usize, u64))
    requires
        from <= cs.len(),
    ensures
        from <= r.0 <= cs.len(),
        all_digits(cs@.subrange(from as int, r.0 as int)),
        r.0 < cs.len() ==> !is_digit(cs@[r.0 as int]),
        r.1 == min_nat(digits_value(cs@.subrange(from as int, r.0 as int)), WHOLE_CAP as nat),
        r.1 <= WHOLE_CAP,
{
    let n = cs.len();
    let mut i = from;
    let mut whole: u64 = 0;
    while i < n && is_digit_char(cs[i])
        invariant
            from <= i <= n == cs.len(),
            all_digits(cs@.subrange(from as int, i as int)),
            whole == min_nat(digits_value(cs@.subrange(from as int, i as int)), WHOLE_CAP as nat),
            whole <= WHOLE_CAP,
        decreases n - i,
    {
        let ghost prev = cs@.subrange(from as int, i as int);
        proof {
            lemma_digits_value_push(prev, cs@[i as int]);
            assert(cs@.subrange(from as int, i + 1) =~= prev.push(cs@[i as int]));
        }
        let d = digit_of(cs[i]);
        if whole >= WHOLE_CAP {
            whole = WHOLE_CAP;
        } else {
            let w = whole * 10 + d;
            whole = if w > WHOLE_CAP {
                WHOLE_CAP
            } else {
                w
            };
        }
        i = i + 1;
    }
    (i, whole)
}


/// Where the run of digits from `from` on ends.
fn digits_end(cs: &Vec<char>, from: usize) -> (r: usize)
    requires
        from <= cs.len(),
    ensures
        from <= r <= cs.len(),
        all_digits(cs@.subrange(from as int, r as int)),
        r < cs.len() ==> !is_digit(cs@[r as int]),
{
    let mut i = from;
    while i < cs.len() && is_digit_char(cs[i])
        invariant
            from <= i <= cs.len(),
            all_digits(cs@.subrange(from as int, i as int)),
        decreases cs.len() - i,
    {
        let ghost prev = cs@.subrange(from as int, i as int);
        let ghost next = cs@.subrange(from as int, i + 1);
        assert(next =~= prev.push(cs@[i as int]));
        assert forall|j: int| 0 <= j < next.len() implies is_digit(#[trigger] next[j]) by {
            if j < prev.len() {
                assert(next[j] == prev[j]);
            }
        }
        i = i + 1;
    }
    i
}

/// Appends `cs[lo..hi]`.
fn push_range(out: &mut Vec<char>, cs: &Vec<char>, lo: usize, hi: usize)
    requires
        lo <= hi <= cs.len(),
    ensures
        final(out)@ == old(out)@ + cs@.subrange(lo as int, hi as int),
{
    let ghost first = out@;
    let mut i = lo;
    while i < hi
        invariant
            lo <= i <= hi <= cs.len(),
            out@ == first + cs@.subrange(lo as int, i as int),
        decreases hi - i,
    {
        out.push(cs[i]);
        assert(cs@.subrange(lo as int, i + 1) =~= cs@.subrange(lo as int, i as int).push(
            cs@[i as int],
        ));
        i = i + 1;
    }
}

/// The value of the digits `v[from..to]`, or `cap` where it is larger.
fn capped_value(v: &Vec<char>, from: usize, to: usize, cap: u128) -> (r: u128)
    requires
        from <= to <= v.len(),
        all_digits(v@.subrange(from as int, to as int)),
        0 < cap <= UNITS_CAP,
    ensures
        r == min_nat(digits_value(v@.subrange(from as int, to as int)), cap as nat),
{
    let mut acc: u128 = 0;
    let mut i = from;
    assert(v@.subrange(from as int, from as int) =~= Seq::<char>::empty());
    while i < to
        invariant
            from <= i <= to <= v.len(),
            all_digits(v@.subrange(from as int, to as int)),
            0 < cap <= UNITS_CAP,
            acc == min_nat(digits_value(v@.subrange(from as int, i as int)), cap as nat),
        decreases to - i,
    {
        let ghost prev = v@.subrange(from as int, i as int);
        proof {
            assert(v@.subrange(from as int, i + 1) =~= prev.push(v@[i as int]));
            lemma_digits_value_push(prev, v@[i as int]);
            assert(v@.subrange(from as int, to as int)[i - from] == v@[i as int]);
        }
        let d = digit_of(v[i]);
        if acc > cap / 10 {
            acc = cap;
        } else {
            let w = acc * 10 + d as u128;
            acc = if w > cap {
                cap
            } else {
                w
            };
        }
        i = i + 1;
    }
    acc
}

/// `x * 10^z`, or `UNITS_CAP` where that is larger.
fn scale_up(x: u128, z: u128) -> (r: u128)
    requires
        x <= UNITS_CAP,
    ensures
        r == min_nat((x * pow10(z as nat)) as nat, UNITS_CAP as nat),
{
    let mut acc = x;
    let mut t: u128 = 0;
    assert(pow10(0) == 1);
    assert(x * pow10(0) == x);
    while t < z && acc > 0 && acc < UNITS_CAP
        invariant
            t <= z,
            x <= UNITS_CAP,
            acc == min_nat((x * pow10(t as nat)) as nat, UNITS_CAP as nat),
        decreases z - t,
    {
        let ghost p = pow10(t as nat);
        assert(pow10((t + 1) as nat) == 10 * p);
        assert(x * (10 * p) == 10 * (x * p)) by (nonlinear_arith);
        if acc > UNITS_CAP / 10 {
            acc = UNITS_CAP;
        } else {
            acc = acc * 10;
        }
        t = t + 1;
    }
    proof {
        lemma_pow10_mono(t as nat, z as nat);
        lemma_pow10_positive(t as nat);
        let a = pow10(t as nat);
        let b = pow10(z as nat);
        if acc == 0 {
            assert(x == 0) by (nonlinear_arith)
                requires
                    x * a == 0,
                    a >= 1,
            ;
            assert(x * b == 0) by (nonlinear_arith)
                requires
                    x == 0,
            ;
        } else if acc == UNITS_CAP {
            assert(x * a <= x * b) by (nonlinear_arith)
                requires
                    a <= b,
            ;
        }
    }
    acc
}

/// Reads an exponent from `from` to the end: an optional sign and at least
/// one digit. Gives whether it is negative and its magnitude, or `EXP_CAP`
/// where that is larger.
fn exponent_digits(cs: &Vec<char>, from: usize) -> (r: Option<(bool, u128)>)
    requires
        from <= cs.len(),
    ensures
        match r {
            Some((neg, m)) => {
                let e = signed_digits(cs@.skip(from as int));
                &&& e is Some
                &&& e->0 == signed(neg, abs(e->0) as int)
                &&& m == min_nat(abs(e->0), EXP_CAP as nat)
            },
            None => signed_digits(cs@.skip(from as int)) is None,
        },
{
    let n = cs.len();
    let ghost t = cs@.skip(from as int);
    let neg = from < n && cs[from] == '-';
    let start: usize = if from < n && (cs[from] == '-' || cs[from] == '+') {
        from + 1
    } else {
        from
    };
    assert(start - from == sign_len(t));
    let end = digits_end(cs, start);
    let ghost ds = t.skip(sign_len(t));
    assert(ds =~= cs@.subrange(start as int, n as int));
    if end < n {
        assert(ds[end - start] == cs@[end as int]);
        return None;
    }
    if end == start {
        return None;
    }
    let m = capped_value(cs, start, n, EXP_CAP);
    assert(neg == (t[0] == '-'));
    Some((neg, m))
}

/// The magnitude in millionths of the digits `ds`, of which the last `fl`
/// follow the point, under exponent `e` (given by its sign and its
/// magnitude capped at `EXP_CAP`); `UNITS_CAP` where that is larger.
fn scaled_magnitude(ds: &Vec<char>, fl: usize, neg: bool, m: u128, Ghost(e): Ghost<int>) -> (r:
    u128)
    requires
        all_digits(ds@),
        fl <= ds.len(),
        e == signed(neg, abs(e) as int),
        m == min_nat(abs(e), EXP_CAP as nat),
    ensures
        r == min_nat(shifted(digits_value(ds@), 6 + e - fl), UNITS_CAP as nat),
{
    let len = ds.len();
    let ghost mv = digits_value(ds@);
    let ghost shift = 6 + e - fl;
    assert(ds@.subrange(0, len as int) =~= ds@);
    let all = capped_value(ds, 0, len, UNITS_CAP);
    if all == 0 {
        proof {
            lemma_pow10_positive(abs(shift));
            assert(0 * pow10(abs(shift)) == 0);
            assert(0nat / pow10(abs(shift)) == 0) by (nonlinear_arith)
                requires
                    pow10(abs(shift)) >= 1,
            ;
        }
        return 0;
    }
    if m == EXP_CAP {
        if neg {
            proof {
                lemma_digits_value_bound(ds@);
                lemma_pow10_mono(len as nat, (-shift) as nat);
                lemma_fundamental_div_mod_converse(mv as int, pow10((-shift) as nat) as int, 0, mv as int);
            }
            return 0;
        } else {
            proof {
                lemma_pow10_mono(40, shift as nat);
                lemma_pow10_big();
                assert(mv * pow10(shift as nat) >= pow10(shift as nat)) by (nonlinear_arith)
                    requires
                        mv >= 1,
                ;
            }
            return UNITS_CAP;
        }
    }
    let e_abs = m as i128;
    let e_val: i128 = if neg {
        -e_abs
    } else {
        e_abs
    };
    let sh: i128 = 6 + e_val - (fl as i128);
    assert(sh == shift);
    if sh >= 0 {
        proof {
            let p = pow10(sh as nat);
            lemma_pow10_positive(sh as nat);
            if mv >= UNITS_CAP {
                assert(all * p >= all) by (nonlinear_arith)
                    requires
                        p >= 1,
                ;
                assert(mv * p >= mv) by (nonlinear_arith)
                    requires
                        p >= 1,
                ;
            }
        }
        scale_up(all, sh as u128)
    } else {
        let d = (-sh) as u128;
        if d >= len as u128 {
            proof {
                lemma_digits_value_bound(ds@);
                lemma_pow10_mono(len as nat, d as nat);
                lemma_fundamental_div_mod_converse(mv as int, pow10(d as nat) as int, 0, mv as int);
            }
            0
        } else {
            let k = len - (d as usize);
            proof {
                lemma_shift_down(ds@, d as nat);
                assert(ds@.subrange(0, k as int) =~= ds@.take(k as int));
                assert forall|j: int| 0 <= j < k implies is_digit(
                    #[trigger] ds@.subrange(0, k as int)[j],
                ) by {
                    assert(ds@.subrange(0, k as int)[j] == ds@[j]);
                }
            }
            capped_value(ds, 0, k, UNITS_CAP)
        }
    }
}

/// Scans the mantissa of the number text from `start` on: where its whole
/// digits end, whether a point follows them, and where the mantissa ends.
fn scan_mantissa(cs: &Vec<char>, start: usize) -> (r: (usize, bool, usize))
    requires
        start <= cs.len(),
    ensures
        ({
            let body = cs@.skip(start as int);
            let p = r.0 - start;
            let q = r.2 - start;
            &&& start <= r.0 <= r.2 <= cs.len()
            &&& all_digits(body.take(p))
            &&& body.take(p) == cs@.subrange(start as int, r.0 as int)
            &&& r.1 ==> p < q && body[p] == '.' && all_digits(body.subrange(p + 1, q))
                && body.subrange(p + 1, q) == cs@.subrange(r.0 + 1, r.2 as int)
            &&& !r.1 ==> p == q && (q < body.len() ==> body[q] != '.')
            &&& q < body.len() ==> !is_digit(body[q]) && body[q] == cs@[r.2 as int]
        }),
{
    let n = cs.len();
    let ghost body = cs@.skip(start as int);
    let whole_end = digits_end(cs, start);
    let has_dot = whole_end < n && cs[whole_end] == '.';
    let mant_end = if has_dot {
        digits_end(cs, whole_end + 1)
    } else {
        whole_end
    };
    let ghost p = whole_end - start;
    let ghost q = mant_end - start;
    assert(body.take(p) =~= cs@.subrange(start as int, whole_end as int));
    if has_dot {
        assert(body.subrange(p + 1, q) =~= cs@.subrange(whole_end + 1, mant_end as int));
    }
    assert(q < body.len() ==> body[q] == cs@[mant_end as int]);
    assert(p < body.len() ==> body[p] == cs@[whole_end as int]);
    (whole_end, has_dot, mant_end)
}

/// Parses a number text (see `decimal_value`).
pub fn parse_decimal(s: &str) -> (r: Option<Decimal>)
    ensures
        match r {
            Some(d) => decimal_value(s@) == Some(d@),
            None => decimal_value(s@) is None,
        },
{
    let cs = chars_of(s);
    let n = cs.len();
    let neg = n > 0 && cs[0] == '-';
    let start: usize = if n > 0 && (cs[0] == '-' || cs[0] == '+') {
        1
    } else {
        0
    };
    let ghost body = cs@.skip(start as int);
    assert(start == sign_len(s@));
    let (whole_end, has_dot, mant_end) = scan_mantissa(&cs, start);
    let ghost p = whole_end - start;
    let ghost q = mant_end - start;
    let (exp_neg, exp_mag) = if mant_end == n {
        proof {
            lemma_mantissa_shape(body, p, q, has_dot);
        }
        (false, 0u128)
    } else if cs[mant_end] == 'e' || cs[mant_end] == 'E' {
        proof {
            lemma_mantissa_shape(body, p, q, has_dot);
            assert(body.skip(q + 1) =~= cs@.skip(mant_end + 1));
        }
        match exponent_digits(&cs, mant_end + 1) {
            Some(x) => x,
            None => {
                return None;
            },
        }
    } else {
        proof {
            lemma_junk(body, p, q, has_dot);
        }
        return None;
    };
    let ghost mant = mantissa(body);
    let mut digits: Vec<char> = Vec::new();
    push_range(&mut digits, &cs, start, whole_end);
    let fl: usize = if has_dot {
        mant_end - whole_end - 1
    } else {
        0
    };
    if has_dot {
        push_range(&mut digits, &cs, whole_end + 1, mant_end);
    }
    assert(digits@ =~= whole_part(mant) + frac_part(mant));
    if digits.len() == 0 {
        return None;
    }
    proof {
        lemma_digits_concat_all(whole_part(mant), frac_part(mant));
    }
    let mag = scaled_magnitude(&digits, fl, exp_neg, exp_mag, Ghost(exponent(body)->0));
    assert(number_form(body));
    assert(mag == min_nat(magnitude_units(body), UNITS_CAP as nat));
    signed_units(neg, mag)
}

// ---------------------------------------------------------------------------
// Facts about number texts
// ---------------------------------------------------------------------------

/// The first marker is where the characters before it are no markers.
proof fn lemma_marker_index_is(s: Seq<char>, k: int)
    requires
        0 <= k <= s.len(),
        forall|j: int| 0 <= j < k ==> s[j] != 'e' && s[j] != 'E',
        k < s.len() ==> (s[k] == 'e' || s[k] == 'E'),
    ensures
        marker_index(s) == (if k < s.len() {
            Some(k as nat)
        } else {
            None::<nat>
        }),
{
    lemma_index_of(s, 'e');
    lemma_index_of(s, 'E');
}

/// With no marker up to `k`, the mantissa reaches past `k`.
proof fn lemma_mantissa_past(s: Seq<char>, k: int)
    requires
        0 <= k < s.len(),
        forall|j: int| 0 <= j <= k ==> s[j] != 'e' && s[j] != 'E',
    ensures
        k < mantissa(s).len() <= s.len(),
        mantissa(s) == s.take(mantissa(s).len() as int),
{
    lemma_index_of(s, 'e');
    lemma_index_of(s, 'E');
    if marker_index(s) is None {
        assert(s.take(s.len() as int) =~= s);
    }
}

/// Two runs of digits one after the other are a run of digits.
proof fn lemma_digits_concat_all(a: Seq<char>, b: Seq<char>)
    requires
        all_digits(a),
        all_digits(b),
    ensures
        all_digits(a + b),
{
    assert forall|j: int| 0 <= j < (a + b).len() implies is_digit(#[trigger] (a + b)[j]) by {
        if j < a.len() {
            assert((a + b)[j] == a[j]);
        } else {
            assert((a + b)[j] == b[j - a.len()]);
        }
    }
}

/// A mantissa of whole digits and an optional point and fraction digits,
/// ended by a marker or the end of the text.
proof fn lemma_mantissa_shape(body: Seq<char>, p: int, q: int, has_dot: bool)
    requires
        0 <= p <= q <= body.len(),
        all_digits(body.take(p)),
        has_dot ==> p < q && body[p] == '.' && all_digits(body.subrange(p + 1, q)),
        !has_dot ==> p == q,
        q < body.len() ==> (body[q] == 'e' || body[q] == 'E'),
    ensures
        marker_index(body) == (if q < body.len() {
            Some(q as nat)
        } else {
            None::<nat>
        }),
        mantissa(body) == body.take(q),
        whole_part(mantissa(body)) == body.take(p),
        frac_part(mantissa(body)) == (if has_dot {
            body.subrange(p + 1, q)
        } else {
            Seq::<char>::empty()
        }),
{
    assert forall|j: int| 0 <= j < q implies body[j] != 'e' && body[j] != 'E' by {
        if j < p {
            assert(is_digit(body.take(p)[j]));
        } else if p < j {
            assert(is_digit(body.subrange(p + 1, q)[j - p - 1]));
        }
    }
    lemma_marker_index_is(body, q);
    let mant = mantissa(body);
    assert(mant =~= body.take(q));
    assert(mant.take(p) =~= body.take(p));
    if has_dot {
        assert(mant[p] == body[p]);
    }
    lemma_whole_part(mant, p);
    if has_dot {
        assert(mant.skip(p + 1) =~= body.subrange(p + 1, q));
    } else {
        assert(mant.take(p) =~= mant);
    }
}

/// A character that fits nowhere in a number makes the text no number.
proof fn lemma_junk(body: Seq<char>, p: int, q: int, has_dot: bool)
    requires
        0 <= p <= q < body.len(),
        all_digits(body.take(p)),
        has_dot ==> p < q && body[p] == '.' && all_digits(body.subrange(p + 1, q)),
        !has_dot ==> p == q && body[q] != '.',
        !is_digit(body[q]),
        body[q] != 'e',
        body[q] != 'E',
    ensures
        !number_form(body),
{
    assert forall|j: int| 0 <= j <= q implies body[j] != 'e' && body[j] != 'E' by {
        if j < p {
            assert(is_digit(body.take(p)[j]));
        } else if p < j < q {
            assert(is_digit(body.subrange(p + 1, q)[j - p - 1]));
        }
    }
    lemma_mantissa_past(body, q);
    let mant = mantissa(body);
    let l = mant.len() as int;
    assert(body.take(l)[q] == body[q]);
    assert(body.take(l)[q] == mant[q]);
    assert(mant.take(p) =~= body.take(p));
    if has_dot {
        assert(mant[p] == body[p]);
        lemma_bad_fraction(mant, p, q);
    } else {
        lemma_non_number(mant, p);
    }
}

/// A non-digit after the point makes the fraction no run of digits.
proof fn lemma_bad_fraction(mant: Seq<char>, p: int, q: int)
    requires
        0 <= p < q < mant.len(),
        all_digits(mant.take(p)),
        mant[p] == '.',
        !is_digit(mant[q]),
    ensures
        !all_digits(frac_part(mant)),
{
    assert forall|j: int| 0 <= j < p implies mant[j] != '.' by {
        assert(is_digit(mant.take(p)[j]));
    }
    lemma_index_of_is(mant, '.', p);
    assert(frac_part(mant)[q - p - 1] == mant[q]);
}

pub proof fn lemma_pow10_positive(k: nat)
    ensures
        pow10(k) >= 1,
    decreases k,
{
    if k > 0 {
        lemma_pow10_positive((k - 1) as nat);
    }
}

proof fn lemma_pow10_mono(a: nat, b: nat)
    requires
        a <= b,
    ensures
        pow10(a) <= pow10(b),
    decreases b,
{
    if a < b {
        lemma_pow10_mono(a, (b - 1) as nat);
        lemma_pow10_positive((b - 1) as nat);
    }
}

proof fn lemma_pow10_add(a: nat, b: nat)
    ensures
        pow10(a + b) == pow10(a) * pow10(b),
    decreases b,
{
    if b == 0 {
        assert(pow10(a) * 1 == pow10(a));
    } else {
        let c = (b - 1) as nat;
        lemma_pow10_add(a, c);
        assert(pow10(a + b) == 10 * pow10(a + c));
        assert(pow10(b) == 10 * pow10(c));
        let x = pow10(a);
        let y = pow10(c);
        assert(x * (10 * y) == 10 * (x * y)) by (nonlinear_arith);
    }
}

/// Forty places put any non-zero magnitude out of range.
proof fn lemma_pow10_big()
    ensures
        pow10(40) >= UNITS_CAP,
{
    reveal_with_fuel(pow10, 11);
    assert(pow10(10) == 10_000_000_000);
    lemma_pow10_add(10, 10);
    assert(pow10(20) == 100_000_000_000_000_000_000);
    lemma_pow10_add(20, 20);
    assert(pow10(40) == 10_000_000_000_000_000_000_000_000_000_000_000_000_000);
}

/// The value of two runs of digits one after the other.
proof fn lemma_digits_value_concat(a: Seq<char>, b: Seq<char>)
    ensures
        digits_value(a + b) == digits_value(a) * pow10(b.len()) + digits_value(b),
    decreases b.len(),
{
    if b.len() == 0 {
        assert(a + b =~= a);
        assert(digits_value(a) * 1 == digits_value(a));
    } else {
        let c = b.drop_last();
        lemma_digits_value_concat(a, c);
        assert((a + b).drop_last() =~= a + c);
        assert((a + b).last() == b.last());
        let x = digits_value(a);
        let p = pow10(c.len());
        let y = digits_value(c);
        let l = digit_value(b.last());
        assert(pow10(b.len()) == 10 * p);
        assert(digits_value(a + b) == (x * p + y) * 10 + l);
        assert(digits_value(b) == y * 10 + l);
        assert((x * p + y) * 10 + l == x * (10 * p) + (y * 10 + l)) by (nonlinear_arith);
    }
}

/// Dropping the last `d` digits divides by `10^d`.
proof fn lemma_shift_down(ds: Seq<char>, d: nat)
    requires
        all_digits(ds),
        d <= ds.len(),
    ensures
        digits_value(ds) / pow10(d) == digits_value(ds.take(ds.len() - d)),
{
    let k = ds.len() - d;
    let hi = ds.take(k);
    let lo = ds.skip(k);
    assert(hi + lo =~= ds);
    lemma_digits_value_concat(hi, lo);
    assert forall|j: int| 0 <= j < lo.len() implies is_digit(#[trigger] lo[j]) by {
        assert(lo[j] == ds[k + j]);
    }
    lemma_digits_value_bound(lo);
    lemma_fundamental_div_mod_converse(
        digits_value(ds) as int,
        pow10(d) as int,
        digits_value(hi) as int,
        digits_value(lo) as int,
    );
}

proof fn lemma_digits_value_bound(s: Seq<char>)
    requires
        all_digits(s),
    ensures
        digits_value(s) < pow10(s.len()),
    decreases s.len(),
{
    if s.len() > 0 {
        let t = s.drop_last();
        assert forall|i: int| 0 <= i < t.len() implies is_digit(#[trigger] t[i]) by {
            assert(t[i] == s[i]);
        }
        lemma_digits_value_bound(t);
        assert(is_digit(s[s.len() - 1]));
    }
}

/// A capped whole part is either exact or too large for any decimal.
proof fn lemma_whole_value(whole: nat, exact: nat)
    requires
        whole == min_nat(exact, WHOLE_CAP as nat),
    ensures
        whole < WHOLE_CAP ==> exact == whole,
        whole == WHOLE_CAP ==> exact >= WHOLE_CAP,
{
}

/// A non-digit, non-dot character before any dot makes the text no number.
proof fn lemma_non_number(body: Seq<char>, p: int)
    requires
        0 <= p < body.len(),
        all_digits(body.take(p)),
        !is_digit(body[p]),
        body[p] != '.',
    ensures
        !(all_digits(whole_part(body)) && all_digits(frac_part(body))),
{
    lemma_index_of(body, '.');
    match index_of(body, '.') {
        Some(q) => {
            if q <= p {
                if q < p {
                    assert(is_digit(body.take(p)[q as int]));
                }
            }
            assert(whole_part(body)[p] == body[p]);
        },
        None => {
            assert(whole_part(body)[p] == body[p]);
        },
    }
}

/// The value of a whole-number text as `str::parse::<i32>` reads it: an
/// optional `+` or `-` and at least one digit, all digits, in `i32` range.
pub open spec fn i32_value(s: Seq<char>) -> Option<int> {
    let digits = s.skip(sign_len(s));
    if digits.len() > 0 && all_digits(digits) {
        let m = digits_value(digits) as int;
        let v = if s[0] == '-' {
            -m
        } else {
            m
        };
        if i32::MIN <= v <= i32::MAX {
            Some(v)
        } else {
            None
        }
    } else {
        None
    }
}

/// Parses a whole number in `i32` range (see `i32_value`).
pub fn parse_i32(s: &str) -> (r: Option<i32>)
    ensures
        match r {
            Some(v) => i32_value(s@) == Some(v as int),
            None => i32_value(s@) is None,
        },
{
    let cs = chars_of(s);
    let n = cs.len();
    let start: usize = if n > 0 && (cs[0] == '-' || cs[0] == '+') {
        1
    } else {
        0
    };
    assert(start == sign_len(s@));
    let (end, value) = scan_whole(&cs, start);
    let ghost digits = cs@.skip(start as int);
    if end < n {
        proof {
            assert(digits[end - start] == cs@[end as int]);
        }
        return None;
    }
    assert(digits =~= cs@.subrange(start as int, n as int));
    if end == start {
        return None;
    }
    proof {
        lemma_whole_value(value as nat, digits_value(digits));
    }
    if value >= WHOLE_CAP {
        return None;
    }
    if cs[0] == '-' {
        if value > 0x8000_0000 {
            return None;
        }
        let v: i64 = -(value as i64);
        Some(v as i32)
    } else {
        if value > 0x7fff_ffff {
            return None;
        }
        Some(value as i32)
    }
}

/// Reading the digits of a number in `i32` range gives back the number.
pub proof fn lemma_i32_text_roundtrip(n: nat)
    requires
        n <= i32::MAX,
    ensures
        i32_value(digits_of(n)) == Some(n as int),
{
    let d = digits_of(n);
    lemma_digits_of(n);
    lemma_digits_have_no_separators(d);
    assert(sign_len(d) == 0);
    assert(d.skip(0) =~= d);
}

// ---------------------------------------------------------------------------
// Reading back what was written
// ---------------------------------------------------------------------------

proof fn lemma_padded_digits(v: nat, k: nat)
    ensures
        padded_digits(v, k).len() == k,
        all_digits(padded_digits(v, k)),
        digits_value(padded_digits(v, k)) == v % pow10(k),
    decreases k,
{
    if k == 0 {
        assert(v % 1 == 0);
    } else {
        let km = (k - 1) as nat;
        lemma_padded_digits(v / 10, km);
        lemma_digit_char(v % 10);
        let s = padded_digits(v, k);
        let t = padded_digits(v / 10, km);
        assert(s.drop_last() =~= t);
        assert forall|i: int| 0 <= i < s.len() implies is_digit(#[trigger] s[i]) by {
            if i < s.len() - 1 {
                assert(s[i] == t[i]);
            }
        }
        let p = pow10(km);
        assert(p >= 1) by {
            lemma_pow10_positive(km);
        }
        let q = v / 10;
        let r = v % 10;
        let a = q / p;
        let b = q % p;
        assert(v == 10 * q + r);
        lemma_fundamental_div_mod(q as int, p as int);
        lemma_mod_pos_bound(q as int, p as int);
        assert(q == a * p + b) by (nonlinear_arith)
            requires
                q == p * a + b,
        ;
        assert(v == a * (10 * p) + (10 * b + r)) by (nonlinear_arith)
            requires
                v == 10 * q + r,
                q == a * p + b,
        ;
        assert(0 <= 10 * b + r < 10 * p) by (nonlinear_arith)
            requires
                b < p,
                r < 10,
        ;
        lemma_fundamental_div_mod_converse(v as int, (10 * p) as int, a as int, (10 * b + r) as int);
        assert(digits_value(s) == digits_value(t) * 10 + r);
    }
}

/// Dropping trailing zeros keeps a prefix, and scales the value down by the
/// number of zeros dropped.
proof fn lemma_strip_zeros(s: Seq<char>)
    requires
        all_digits(s),
    ensures
        strip_zeros(s).len() <= s.len(),
        strip_zeros(s) =~= s.take(strip_zeros(s).len() as int),
        all_digits(strip_zeros(s)),
        digits_value(strip_zeros(s)) * pow10((s.len() - strip_zeros(s).len()) as nat)
            == digits_value(s),
    decreases s.len(),
{
    if s.len() > 0 && s.last() == '0' {
        let t = s.drop_last();
        assert forall|i: int| 0 <= i < t.len() implies is_digit(#[trigger] t[i]) by {
            assert(t[i] == s[i]);
        }
        lemma_strip_zeros(t);
        let z = strip_zeros(t);
        assert(z =~= s.take(z.len() as int));
        let d = (t.len() - z.len()) as nat;
        assert(digit_value(s.last()) == 0);
        assert(digits_value(s) == digits_value(t) * 10);
        assert(pow10(d + 1) == 10 * pow10(d));
        assert(((s.len() - z.len()) as nat) == d + 1);
        assert(digits_value(z) * pow10(d + 1) == digits_value(s)) by (nonlinear_arith)
            requires
                digits_value(z) * pow10(d) == digits_value(t),
                digits_value(s) == digits_value(t) * 10,
                pow10(d + 1) == 10 * pow10(d),
        ;
    } else {
        assert(s.take(s.len() as int) =~= s);
        assert(pow10(0) == 1);
        assert(digits_value(s) * pow10(0) == digits_value(s)) by (nonlinear_arith)
            requires
                pow10(0) == 1,
        ;
    }
}

/// The fraction text of a non-zero fraction: its digits without trailing
/// zeros denote it.
proof fn lemma_fraction_text(frac: nat)
    requires
        0 < frac < 1_000_000,
    ensures
        all_digits(strip_zeros(padded_digits(frac, 6))),
        strip_zeros(padded_digits(frac, 6)).len() <= 6,
        digits_value(strip_zeros(padded_digits(frac, 6))) * pow10(
            (6 - strip_zeros(padded_digits(frac, 6)).len()) as nat,
        ) == frac,
{
    lemma_padded_digits(frac, 6);
    reveal_with_fuel(pow10, 7);
    assert(frac % 1_000_000 == frac);
    lemma_strip_zeros(padded_digits(frac, 6));
}

/// The text of a decimal holds no `:` or line break, and is not empty.
pub proof fn lemma_decimal_text_plain(v: int)
    ensures
        !decimal_text(v).contains(':'),
        !decimal_text(v).contains('\n'),
        decimal_text(v).len() > 0,
        decimal_text(v).last() != '\r',
{
    let m = abs(v);
    let whole = m / 1_000_000;
    let frac = m % 1_000_000;
    let d = digits_of(whole);
    lemma_digits_of(whole);
    lemma_digits_have_no_separators(d);
    let t = decimal_text(v);
    if frac != 0 {
        lemma_fraction_text(frac);
        let z = strip_zeros(padded_digits(frac, 6));
        lemma_digits_have_no_separators(z);
        let sign = if v < 0 { seq!['-'] } else { Seq::<char>::empty() };
        assert(t =~= sign + d + (seq!['.'] + z));
        assert forall|i: int| 0 <= i < t.len() implies t[i] != ':' && t[i] != '\n' by {
            if i < sign.len() {
            } else if i < sign.len() + d.len() {
                assert(t[i] == d[i - sign.len()]);
                assert(!d.contains(t[i]) || (t[i] != ':' && t[i] != '\n'));
                if t[i] == ':' || t[i] == '\n' {
                    assert(d.contains(t[i]));
                }
            } else if i == sign.len() + d.len() {
            } else {
                assert(t[i] == z[i - sign.len() - d.len() - 1]);
                if t[i] == ':' || t[i] == '\n' {
                    assert(z.contains(t[i]));
                }
            }
        }
        if z.len() > 0 {
            assert(t.last() == z.last());
        }
    } else {
        let sign = if v < 0 { seq!['-'] } else { Seq::<char>::empty() };
        assert(t =~= sign + d);
        assert forall|i: int| 0 <= i < t.len() implies t[i] != ':' && t[i] != '\n' by {
            if i >= sign.len() {
                assert(t[i] == d[i - sign.len()]);
                if t[i] == ':' || t[i] == '\n' {
                    assert(d.contains(t[i]));
                }
            }
        }
        assert(t.last() == d.last());
    }
}

/// The body of a decimal text is digits and at most one point: no marker.
proof fn lemma_text_body_plain(d: Seq<char>, tail: Seq<char>, z: Seq<char>)
    requires
        all_digits(d),
        all_digits(z),
        tail == Seq::<char>::empty() || tail == seq!['.'] + z,
    ensures
        marker_index(d + tail) is None,
        exponent(d + tail) == Some(0int),
        mantissa(d + tail) == d + tail,
{
    let body = d + tail;
    assert forall|j: int| 0 <= j < body.len() implies body[j] != 'e' && body[j] != 'E' by {
        if j < d.len() {
            assert(body[j] == d[j]);
            assert(is_digit(d[j]));
        } else if j > d.len() {
            assert(body[j] == z[j - d.len() - 1]);
            assert(is_digit(z[j - d.len() - 1]));
        }
    }
    lemma_marker_index_is(body, body.len() as int);
}

/// The digits of a decimal text, whole and fraction, moved to millionths,
/// give its magnitude.
proof fn lemma_text_magnitude(whole: nat, frac: nat)
    requires
        0 < frac < 1_000_000,
    ensures
        shifted(
            digits_value(digits_of(whole) + strip_zeros(padded_digits(frac, 6))),
            6 - strip_zeros(padded_digits(frac, 6)).len(),
        ) == whole * 1_000_000 + frac,
{
    lemma_fraction_text(frac);
    let d = digits_of(whole);
    let z = strip_zeros(padded_digits(frac, 6));
    lemma_digits_value_concat(d, z);
    let a = pow10(z.len());
    let b = pow10((6 - z.len()) as nat);
    lemma_pow10_add(z.len(), (6 - z.len()) as nat);
    assert(z.len() + (6 - z.len()) as nat == 6);
    reveal_with_fuel(pow10, 7);
    assert(a * b == 1_000_000);
    lemma_digits_of(whole);
    let y = digits_value(z);
    assert((whole * a + y) * b == whole * (a * b) + y * b) by (nonlinear_arith);
}

/// Reading the text of a decimal gives back the decimal.
pub proof fn lemma_decimal_text_roundtrip(v: int)
    requires
        in_range(v),
    ensures
        decimal_value(decimal_text(v)) == Some(v),
{
    let m = abs(v);
    let whole = m / 1_000_000;
    let frac = m % 1_000_000;
    let d = digits_of(whole);
    lemma_digits_of(whole);
    lemma_digits_have_no_separators(d);
    let sign = if v < 0 { seq!['-'] } else { Seq::<char>::empty() };
    let t = decimal_text(v);
    let tail = if frac == 0 {
        Seq::<char>::empty()
    } else {
        seq!['.'] + strip_zeros(padded_digits(frac, 6))
    };
    assert(t == sign + d + tail);
    assert(sign_len(t) == sign.len()) by {
        if v >= 0 {
            assert(t[0] == d[0]);
        }
    }
    let body = t.skip(sign_len(t));
    assert(body =~= d + tail);
    assert(body.take(d.len() as int) =~= d);
    if frac == 0 {
        lemma_text_body_plain(d, tail, Seq::<char>::empty());
        assert(body =~= d);
        lemma_whole_part(body, d.len() as int);
        assert(frac_part(body) =~= Seq::<char>::empty());
        assert(d + Seq::<char>::empty() =~= d);
        assert(magnitude_units(body) == whole * 1_000_000) by {
            reveal_with_fuel(pow10, 7);
        }
    } else {
        lemma_fraction_text(frac);
        let z = strip_zeros(padded_digits(frac, 6));
        lemma_text_body_plain(d, tail, z);
        assert(body[d.len() as int] == '.');
        lemma_whole_part(body, d.len() as int);
        assert(body.skip(d.len() + 1int) =~= z);
        lemma_text_magnitude(whole, frac);
        assert(magnitude_units(body) == whole * 1_000_000 + frac);
    }
    assert(m == whole * 1_000_000 + frac);
}

} // verus!
