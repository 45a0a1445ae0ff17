//! Exact fixed-point decimals.
//!
//! A `Decimal` is a sign, a whole part and a fraction in units of 10^-28;
//! it holds every value that `rust_decimal` holds, and more. Its view is the
//! exact number of 10^-28 units. Comparisons, and the exact sums and
//! differences that quantities of the tracked asset need, are computed here. Money values are added,
//! subtracted, divided and multiplied by `rust_decimal`, on the shortest
//! (mantissa, scale) representation of each operand, so that they are rounded
//! as it rounds them and stay within what it can hold.
use vstd::prelude::*;

verus! {

/// The largest mantissa magnitude that fits in 96 bits.
pub const MANTISSA_LIMIT: i128 = 79228162514264337593543950335;

/// The number of fractional digits a unit stands for.
pub const SCALE: u32 = 28;

pub open spec fn pow10(n: nat) -> int
    decreases n,
{
    if n == 0 {
        1
    } else {
        10 * pow10((n - 1) as nat)
    }
}

pub open spec fn magnitude(x: int) -> nat {
    if x < 0 {
        (-x) as nat
    } else {
        x as nat
    }
}

/// One unit of the whole part, in units of 10^-28.
pub const UNIT: u128 = 10_000_000_000_000_000_000_000_000_000;

/// `x` units fit in a `Decimal`: its whole part fits in a `u128`.
pub open spec fn in_range(x: int) -> bool {
    magnitude(x) < (u128::MAX as int + 1) * UNIT as int
}

/// The number of units that mantissa `m` at scale `s` stands for.
pub open spec fn units_of(m: int, s: nat) -> int {
    m * pow10((28 - s) as nat)
}

/// A mantissa and scale that rust_decimal accepts.
pub open spec fn repr_ok(m: i128, s: u32) -> bool {
    -MANTISSA_LIMIT <= m <= MANTISSA_LIMIT && s <= 28
}

/// Magnitude `m` at scale `s`, with its trailing zero digits removed.
pub open spec fn shortest(m: nat, s: nat) -> (nat, nat)
    decreases s,
{
    if s > 0 && m % 10 == 0 {
        shortest(m / 10, (s - 1) as nat)
    } else {
        (m, s)
    }
}

/// The shortest (mantissa, scale) that stands for `u` units, when its mantissa
/// fits in 96 bits.
pub open spec fn repr_of(u: int) -> Option<(i128, u32)> {
    let p = shortest(magnitude(u), 28);
    if p.0 <= MANTISSA_LIMIT {
        Some(
            (
                if u < 0 {
                    -p.0
                } else {
                    p.0 as int
                } as i128,
                p.1 as u32,
            ),
        )
    } else {
        None
    }
}

/// What `rust_decimal::Decimal::checked_div` returns, as (mantissa, scale).
pub uninterp spec fn quotient_of(am: i128, ascale: u32, bm: i128, bscale: u32) -> Option<(i128, u32)>;

/// What `rust_decimal::Decimal::checked_mul` returns, as (mantissa, scale).
pub uninterp spec fn product_of(am: i128, ascale: u32, bm: i128, bscale: u32) -> Option<(i128, u32)>;

/// What `rust_decimal::Decimal::checked_sub` returns, as (mantissa, scale).
pub uninterp spec fn difference_of(am: i128, ascale: u32, bm: i128, bscale: u32) -> Option<(i128, u32)>;

/// What `rust_decimal::Decimal::checked_add` returns, as (mantissa, scale).
pub uninterp spec fn sum_of(am: i128, ascale: u32, bm: i128, bscale: u32) -> Option<(i128, u32)>;

/// The units a rust_decimal result stands for.
pub open spec fn units_in_range(r: Option<(i128, u32)>) -> Option<int> {
    match r {
        Some(p) => if p.1 <= 28 && in_range(units_of(p.0 as int, p.1 as nat)) {
            Some(units_of(p.0 as int, p.1 as nat))
        } else {
            None
        },
        None => None,
    }
}

/// `value / quantity * taken`, each step rounded as rust_decimal rounds it:
/// the part of `value` that `taken` of `quantity` units carry.
pub open spec fn share_of(value: int, quantity: int, taken: int) -> Option<int> {
    match (repr_of(value), repr_of(quantity), repr_of(taken)) {
        (Some(v), Some(q), Some(t)) => match quotient_of(v.0, v.1, q.0, q.1) {
            Some(u) => units_in_range(product_of(u.0, u.1, t.0, t.1)),
            None => None,
        },
        _ => None,
    }
}

/// `a - b` as rust_decimal computes it on the shortest representations:
/// rounded when the exact difference needs more than 96 bits.
pub open spec fn rounded_difference(a: int, b: int) -> Option<int> {
    match (repr_of(a), repr_of(b)) {
        (Some(x), Some(y)) => units_in_range(difference_of(x.0, x.1, y.0, y.1)),
        _ => None,
    }
}

/// `a + b` as rust_decimal computes it on the shortest representations.
pub open spec fn rounded_sum(a: int, b: int) -> Option<int> {
    match (repr_of(a), repr_of(b)) {
        (Some(x), Some(y)) => units_in_range(sum_of(x.0, x.1, y.0, y.1)),
        _ => None,
    }
}

/// Relies on `rust_decimal::Decimal::checked_sub`: the difference, or `None`
/// on overflow. Every rust_decimal value has a 96-bit mantissa and a scale of
/// at most 28.
#[verifier::external_body]
fn decimal_difference(am: i128, ascale: u32, bm: i128, bscale: u32) -> (r: Option<(i128, u32)>)
    requires
        repr_ok(am, ascale),
        repr_ok(bm, bscale),
    ensures
        r == difference_of(am, ascale, bm, bscale),
        r matches Some(d) ==> repr_ok(d.0, d.1),
{
    let a = rust_decimal::Decimal::from_i128_with_scale(am, ascale);
    let b = rust_decimal::Decimal::from_i128_with_scale(bm, bscale);
    match a.checked_sub(b) {
        Some(d) => Some((d.mantissa(), d.scale())),
        None => None,
    }
}

/// Relies on `rust_decimal::Decimal::checked_add`: the sum, or `None` on
/// overflow. Every rust_decimal value has a 96-bit mantissa and a scale of at
/// most 28.
#[verifier::external_body]
fn decimal_sum(am: i128, ascale: u32, bm: i128, bscale: u32) -> (r: Option<(i128, u32)>)
    requires
        repr_ok(am, ascale),
        repr_ok(bm, bscale),
    ensures
        r == sum_of(am, ascale, bm, bscale),
        r matches Some(d) ==> repr_ok(d.0, d.1),
{
    let a = rust_decimal::Decimal::from_i128_with_scale(am, ascale);
    let b = rust_decimal::Decimal::from_i128_with_scale(bm, bscale);
    match a.checked_add(b) {
        Some(d) => Some((d.mantissa(), d.scale())),
        None => None,
    }
}

/// Relies on `rust_decimal::Decimal::checked_div`: the quotient, or `None` on
/// overflow or a zero divisor. Every rust_decimal value has a 96-bit mantissa
/// and a scale of at most 28.
#[verifier::external_body]
fn decimal_quotient(am: i128, ascale: u32, bm: i128, bscale: u32) -> (r: Option<(i128, u32)>)
    requires
        repr_ok(am, ascale),
        repr_ok(bm, bscale),
    ensures
        r == quotient_of(am, ascale, bm, bscale),
        r matches Some(q) ==> repr_ok(q.0, q.1),
{
    let a = rust_decimal::Decimal::from_i128_with_scale(am, ascale);
    let b = rust_decimal::Decimal::from_i128_with_scale(bm, bscale);
    match a.checked_div(b) {
        Some(q) => Some((q.mantissa(), q.scale())),
        None => None,
    }
}

/// Relies on `rust_decimal::Decimal::checked_mul`: the product, or `None` on
/// overflow. Every rust_decimal value has a 96-bit mantissa and a scale of at
/// most 28.
#[verifier::external_body]
fn decimal_product(am: i128, ascale: u32, bm: i128, bscale: u32) -> (r: Option<(i128, u32)>)
    requires
        repr_ok(am, ascale),
        repr_ok(bm, bscale),
    ensures
        r == product_of(am, ascale, bm, bscale),
        r matches Some(p) ==> repr_ok(p.0, p.1),
{
    let a = rust_decimal::Decimal::from_i128_with_scale(am, ascale);
    let b = rust_decimal::Decimal::from_i128_with_scale(bm, bscale);
    match a.checked_mul(b) {
        Some(p) => Some((p.mantissa(), p.scale())),
        None => None,
    }
}

proof fn lemma_shortest_scale(m: nat, s: nat)
    ensures
        shortest(m, s).1 <= s,
    decreases s,
{
    if s > 0 && m % 10 == 0 {
        lemma_shortest_scale(m / 10, (s - 1) as nat);
    }
}

proof fn lemma_pow10_add(a: nat, b: nat)
    ensures
        pow10(a + b) == pow10(a) * pow10(b),
    decreases a,
{
    if a > 0 {
        lemma_pow10_add((a - 1) as nat, b);
        assert(pow10(a + b) == 10 * pow10((a - 1 + b) as nat));
        assert(10 * (pow10((a - 1) as nat) * pow10(b)) == (10 * pow10((a - 1) as nat)) * pow10(b))
            by (nonlinear_arith);
    }
}

proof fn lemma_pow10_pos(a: nat)
    ensures
        pow10(a) >= 1,
    decreases a,
{
    if a > 0 {
        lemma_pow10_pos((a - 1) as nat);
    }
}

proof fn lemma_pow10_le(a: nat, b: nat)
    requires
        a <= b,
    ensures
        pow10(a) <= pow10(b),
    decreases b,
{
    if a < b {
        lemma_pow10_le(a, (b - 1) as nat);
        lemma_pow10_pos((b - 1) as nat);
    }
}

proof fn lemma_unit()
    ensures
        pow10(28) == UNIT as int,
{
    reveal_with_fuel(pow10, 29);
}

/// Stripping the zeros of `w * 10^k + f`, with `f < 10^k`, strips those of
/// `f` and keeps `w`.
proof fn lemma_shortest_split(w: nat, f: nat, k: nat)
    requires
        f < pow10(k),
    ensures
        shortest(w * pow10(k) as nat + f, k) == (
            (w * pow10(shortest(f, k).1) + shortest(f, k).0) as nat,
            shortest(f, k).1,
        ),
    decreases k,
{
    lemma_pow10_pos(k);
    if k > 0 {
        let p = pow10((k - 1) as nat);
        let x = w * pow10(k) + f;
        assert(pow10(k) == 10 * p);
        assert(x == (w * p + f / 10) * 10 + f % 10) by (nonlinear_arith)
            requires
                x == w * pow10(k) + f,
                pow10(k) == 10 * p,
                f == (f / 10) * 10 + f % 10,
        ;
        vstd::arithmetic::div_mod::lemma_fundamental_div_mod_converse(x, 10, w * p + f / 10, (f % 10) as int);
        assert(f / 10 < p);
        lemma_pow10_pos((k - 1) as nat);
        assert(w * p >= 0) by (nonlinear_arith)
            requires
                p >= 1,
        ;
        if f % 10 == 0 {
            lemma_shortest_split(w, f / 10, (k - 1) as nat);
            assert((w * p) as nat + f / 10 == (w * p + f / 10) as nat);
        } else {
            assert(shortest(f, k) == (f, k));
        }
    } else {
        assert(f == 0);
    }
}

/// An exact decimal number: a sign, a whole part and a fraction in units of
/// 10^-28. Zero is never negative, so that equal values are equal.
#[derive(Clone, Copy, Debug, PartialEq, Eq, Structural)]
pub struct Decimal {
    negative: bool,
    whole: u128,
    frac: u128,
}

impl View for Decimal {
    type V = int;

    closed spec fn view(&self) -> int {
        let m = self.whole as int * UNIT as int + self.frac as int;
        if self.negative {
            -m
        } else {
            m
        }
    }
}

pub open spec fn opt_view(d: Option<Decimal>) -> Option<int> {
    match d {
        Some(x) => Some(x@),
        None => None,
    }
}

impl Decimal {
    #[verifier::type_invariant]
    closed spec fn canonical(self) -> bool {
        &&& self.frac < UNIT
        &&& !(self.negative && self.whole == 0 && self.frac == 0)
    }

    /// The `Decimal` of `x` units.
    pub closed spec fn from_units(x: int) -> Decimal {
        Decimal {
            negative: x < 0,
            whole: (magnitude(x) / UNIT as nat) as u128,
            frac: (magnitude(x) % UNIT as nat) as u128,
        }
    }

    /// The units of `from_units(x)` are `x`, for every `x` in range.
    pub broadcast proof fn lemma_from_units(x: int)
        requires
            in_range(x),
        ensures
            (#[trigger] Decimal::from_units(x))@ == x,
    {
        let m = magnitude(x) as int;
        vstd::arithmetic::div_mod::lemma_fundamental_div_mod(m, UNIT as int);
        assert(m / UNIT as int <= u128::MAX) by {
            vstd::arithmetic::div_mod::lemma_div_is_ordered(m, (u128::MAX as int + 1) * UNIT as int - 1, UNIT as int);
            vstd::arithmetic::div_mod::lemma_fundamental_div_mod_converse(
                (u128::MAX as int + 1) * UNIT as int - 1, UNIT as int, u128::MAX as int, UNIT as int - 1);
        }
    }

    proof fn lemma_canonical(self)
        requires
            self.canonical(),
        ensures
            self == Decimal::from_units(self@),
            in_range(self@),
    {
        let m = self.whole as int * UNIT as int + self.frac as int;
        vstd::arithmetic::div_mod::lemma_fundamental_div_mod_converse(
            m,
            UNIT as int,
            self.whole as int,
            self.frac as int,
        );
    }

    fn make(negative: bool, whole: u128, frac: u128) -> (r: Decimal)
        requires
            frac < UNIT,
        ensures
            r@ == if negative {
                -(whole as int * UNIT as int + frac as int)
            } else {
                whole as int * UNIT as int + frac as int
            },
            r == Decimal::from_units(r@),
    {
        let r = Decimal { negative: negative && (whole != 0 || frac != 0), whole, frac };
        proof {
            r.lemma_canonical();
        }
        r
    }

    /// Facts that hold of every `Decimal`.
    pub fn known(&self)
        ensures
            *self == Decimal::from_units(self@),
            in_range(self@),
    {
        proof {
            use_type_invariant(self);
            self.lemma_canonical();
        }
    }

    pub fn zero() -> (r: Decimal)
        ensures
            r@ == 0,
            r == Decimal::from_units(0),
    {
        Decimal::make(false, 0, 0)
    }

    /// The decimal `mantissa * 10^-scale`, when the scale is at most 28.
    pub fn from_parts(mantissa: i128, scale: u32) -> (r: Option<Decimal>)
        ensures
            r is Some <==> scale <= 28,
            r matches Some(d) ==> d@ == units_of(mantissa as int, scale as nat) && d
                == Decimal::from_units(d@),
    {
        if scale > SCALE {
            return None;
        }
        let mag: u128 = if mantissa < 0 {
            ((-(mantissa + 1)) as u128) + 1
        } else {
            mantissa as u128
        };
        assert(mag as int == magnitude(mantissa as int));
        let p = pow10_u128(scale);
        let q = pow10_u128(SCALE - scale);
        proof {
            lemma_pow10_pos(scale as nat);
            vstd::arithmetic::div_mod::lemma_fundamental_div_mod(mag as int, p as int);
        }
        let whole = mag / p;
        let rest = mag % p;
        proof {
            lemma_pow10_add(scale as nat, (28 - scale) as nat);
            lemma_unit();
            lemma_pow10_pos(scale as nat);
            lemma_pow10_pos((28 - scale) as nat);
            assert(rest * q < p * q) by (nonlinear_arith)
                requires
                    rest < p,
                    q >= 1,
            ;
        }
        assert(mag as int == whole as int * p + rest as int) by (nonlinear_arith)
            requires
                mag as int == p as int * (mag as int / p as int) + (mag as int % p as int),
                whole as int == mag as int / p as int,
                rest as int == mag as int % p as int,
        ;
        let frac = rest * q;
        let r = Decimal::make(mantissa < 0, whole, frac);
        proof {
            assert(whole as int * UNIT as int + frac as int == mag as int * q as int) by (nonlinear_arith)
                requires
                    UNIT as int == p * q,
                    mag as int == whole as int * p + rest as int,
                    frac as int == rest as int * q,
            ;
            assert(magnitude(mantissa as int) * pow10((28 - scale) as nat) == mag as int * q as int);
            if mantissa < 0 {
                assert(units_of(mantissa as int, scale as nat) == -(magnitude(mantissa as int) * pow10(
                    (28 - scale) as nat,
                ))) by (nonlinear_arith)
                    requires
                        mantissa < 0,
                        magnitude(mantissa as int) == -mantissa,
                        units_of(mantissa as int, scale as nat) == mantissa * pow10((28 - scale) as nat),
                ;
            }
        }
        Some(r)
    }

    /// The shortest rust_decimal representation of this value.
    pub fn repr(&self) -> (r: Option<(i128, u32)>)
        ensures
            r == repr_of(self@),
            r matches Some(p) ==> repr_ok(p.0, p.1),
    {
        proof {
            use_type_invariant(self);
            lemma_unit();
            lemma_shortest_scale(self.frac as nat, 28);
            lemma_shortest_split(self.whole as nat, self.frac as nat, 28);
        }
        let mut f: u128 = self.frac;
        let mut s: u32 = SCALE;
        while s > 0 && f % 10 == 0
            invariant
                s <= 28,
                shortest(self.frac as nat, 28) == shortest(f as nat, s as nat),
            decreases s,
        {
            f = f / 10;
            s = s - 1;
        }
        let p = pow10_u128(s);
        let m: u128 = match self.whole.checked_mul(p) {
            Some(x) => match x.checked_add(f) {
                Some(y) => y,
                None => return None,
            },
            None => return None,
        };
        if m > MANTISSA_LIMIT as u128 {
            None
        } else {
            let mi = m as i128;
            Some(
                (
                    if self.negative {
                        -mi
                    } else {
                        mi
                    },
                    s,
                ),
            )
        }
    }

    pub fn is_zero(&self) -> (r: bool)
        ensures
            r == (self@ == 0),
    {
        self.whole == 0 && self.frac == 0
    }

    pub fn is_negative(&self) -> (r: bool)
        ensures
            r == (self@ < 0),
    {
        proof {
            use_type_invariant(self);
        }
        self.negative
    }

    pub fn is_positive(&self) -> (r: bool)
        ensures
            r == (self@ > 0),
    {
        !self.negative && !self.is_zero()
    }

    pub fn neg(&self) -> (r: Decimal)
        ensures
            r@ == -self@,
            r == Decimal::from_units(r@),
    {
        proof {
            use_type_invariant(self);
        }
        Decimal::make(!self.negative, self.whole, self.frac)
    }

    pub fn abs(&self) -> (r: Decimal)
        ensures
            r@ == magnitude(self@) as int,
            r == Decimal::from_units(r@),
    {
        proof {
            use_type_invariant(self);
        }
        Decimal::make(false, self.whole, self.frac)
    }

    /// Whether the magnitude of `self` is at least that of `other`.
    fn magnitude_ge(&self, other: &Decimal) -> (r: bool)
        ensures
            r == (magnitude(self@) >= magnitude(other@)),
    {
        proof {
            use_type_invariant(self);
            use_type_invariant(other);
        }
        self.whole > other.whole || (self.whole == other.whole && self.frac >= other.frac)
    }

    /// The exact sum, or `None` when it is out of range.
    pub fn checked_add(&self, other: &Decimal) -> (r: Option<Decimal>)
        ensures
            r is Some <==> in_range(self@ + other@),
            r matches Some(d) ==> d@ == self@ + other@ && d == Decimal::from_units(d@),
    {
        proof {
            use_type_invariant(self);
            use_type_invariant(other);
        }
        if self.negative == other.negative {
            let f = self.frac + other.frac;
            let (f2, carry) = if f >= UNIT {
                (f - UNIT, 1u128)
            } else {
                (f, 0u128)
            };
            let w = match self.whole.checked_add(other.whole) {
                Some(x) => match x.checked_add(carry) {
                    Some(y) => y,
                    None => return None,
                },
                None => return None,
            };
            Some(Decimal::make(self.negative, w, f2))
        } else if self.magnitude_ge(other) {
            let (w, f) = if self.frac >= other.frac {
                (self.whole - other.whole, self.frac - other.frac)
            } else {
                (self.whole - other.whole - 1, self.frac + UNIT - other.frac)
            };
            Some(Decimal::make(self.negative, w, f))
        } else {
            let (w, f) = if other.frac >= self.frac {
                (other.whole - self.whole, other.frac - self.frac)
            } else {
                (other.whole - self.whole - 1, other.frac + UNIT - self.frac)
            };
            Some(Decimal::make(other.negative, w, f))
        }
    }

    /// The exact difference, or `None` when it is out of range.
    pub fn checked_sub(&self, other: &Decimal) -> (r: Option<Decimal>)
        ensures
            r is Some <==> in_range(self@ - other@),
            r matches Some(d) ==> d@ == self@ - other@ && d == Decimal::from_units(d@),
    {
        self.checked_add(&other.neg())
    }

    /// `self - other` as rust_decimal computes it: rounded to what its 96-bit
    /// mantissa holds; `None` when it overflows or does not fit.
    pub fn rounded_sub(&self, other: &Decimal) -> (r: Option<Decimal>)
        ensures
            opt_view(r) == rounded_difference(self@, other@),
            r matches Some(d) ==> d == Decimal::from_units(d@),
    {
        let a = match self.repr() {
            Some(p) => p,
            None => return None,
        };
        let b = match other.repr() {
            Some(p) => p,
            None => return None,
        };
        match decimal_difference(a.0, a.1, b.0, b.1) {
            Some(d) => Decimal::from_parts(d.0, d.1),
            None => None,
        }
    }

    /// `self + other` as rust_decimal computes it; `None` when it overflows or
    /// does not fit.
    pub fn rounded_add(&self, other: &Decimal) -> (r: Option<Decimal>)
        ensures
            opt_view(r) == rounded_sum(self@, other@),
            r matches Some(d) ==> d == Decimal::from_units(d@),
    {
        let a = match self.repr() {
            Some(p) => p,
            None => return None,
        };
        let b = match other.repr() {
            Some(p) => p,
            None => return None,
        };
        match decimal_sum(a.0, a.1, b.0, b.1) {
            Some(d) => Decimal::from_parts(d.0, d.1),
            None => None,
        }
    }

    /// The greater of the two values.
    pub fn max(&self, other: &Decimal) -> (r: Decimal)
        ensures
            r@ == if self@ >= other@ {
                self@
            } else {
                other@
            },
            r == Decimal::from_units(r@),
    {
        self.known();
        other.known();
        let self_ge = if self.negative != other.negative {
            !self.negative
        } else if self.negative {
            other.magnitude_ge(self)
        } else {
            self.magnitude_ge(other)
        };
        proof {
            use_type_invariant(self);
            use_type_invariant(other);
        }
        if self_ge {
            *self
        } else {
            *other
        }
    }

    /// `value / quantity * taken`, each step computed by rust_decimal on the
    /// shortest representations; `None` when a step overflows or the result
    /// does not fit.
    pub fn share(value: &Decimal, quantity: &Decimal, taken: &Decimal) -> (r: Option<Decimal>)
        ensures
            opt_view(r) == share_of(value@, quantity@, taken@),
            r matches Some(d) ==> d == Decimal::from_units(d@),
    {
        let v = match value.repr() {
            Some(p) => p,
            None => return None,
        };
        let q = match quantity.repr() {
            Some(p) => p,
            None => return None,
        };
        let t = match taken.repr() {
            Some(p) => p,
            None => return None,
        };
        let u = match decimal_quotient(v.0, v.1, q.0, q.1) {
            Some(p) => p,
            None => return None,
        };
        match decimal_product(u.0, u.1, t.0, t.1) {
            Some(p) => Decimal::from_parts(p.0, p.1),
            None => None,
        }
    }
}

/// `10^n`.
fn pow10_u128(n: u32) -> (r: u128)
    requires
        n <= 28,
    ensures
        r as int == pow10(n as nat),
{
    proof {
        lemma_unit();
    }
    let mut r: u128 = 1;
    let mut k: u32 = 0;
    while k < n
        invariant
            k <= n <= 28,
            r as int == pow10(k as nat),
        decreases n - k,
    {
        proof {
            lemma_pow10_le((k + 1) as nat, 28);
            lemma_unit();
        }
        r = r * 10;
        k = k + 1;
    }
    r
}

} // verus!
