//! Decimal numbers for quantities and prices.
//!
//! A number is a whole mantissa and the count of its decimal places, so `12.50`
//! and `12.5` are two numbers of equal value. The arithmetic is that of the
//! `rust_decimal` crate: a mantissa of 96 bits and at most 28 decimal places.

use crate::text::{all_digits, digits, digits_value, pad_left, position_of};
use vstd::prelude::*;

verus! {

/// What a decimal number is: `mantissa` divided by ten to the power of `scale`.
pub struct Dec {
    pub mantissa: int,
    pub scale: nat,
}

/// Ten to the power of `n`.
pub open spec fn pow10(n: nat) -> nat
    decreases n,
{
    if n == 0 {
        1
    } else {
        10 * pow10((n - 1) as nat)
    }
}

/// The first number that a mantissa of 96 bits cannot hold.
pub open spec fn mantissa_limit() -> nat {
    0x1_0000_0000_0000_0000_0000_0000nat
}

pub open spec fn magnitude(n: int) -> nat {
    if n < 0 {
        (-n) as nat
    } else {
        n as nat
    }
}

impl Dec {
    pub open spec fn fits(self) -> bool {
        magnitude(self.mantissa) < mantissa_limit() && self.scale <= 28
    }

    pub open spec fn abs(self) -> Dec {
        Dec { mantissa: magnitude(self.mantissa) as int, scale: self.scale }
    }

    /// The two numbers have the same value.
    pub open spec fn equals(self, other: Dec) -> bool {
        self.mantissa * pow10(other.scale) == other.mantissa * pow10(self.scale)
    }

    /// The value is at most that of the other number.
    pub open spec fn at_most(self, other: Dec) -> bool {
        self.mantissa * pow10(other.scale) <= other.mantissa * pow10(self.scale)
    }

    /// Rounded to at most `dp` decimal places; a tie goes to the even neighbour.
    pub open spec fn round_dp(self, dp: nat) -> Dec {
        if self.scale <= dp {
            self
        } else {
            let unit = pow10((self.scale - dp) as nat);
            let whole = magnitude(self.mantissa) / unit;
            let rest = magnitude(self.mantissa) % unit;
            let up = 2 * rest > unit || (2 * rest == unit && whole % 2 == 1);
            let rounded: int = if up {
                whole as int + 1
            } else {
                whole as int
            };
            Dec {
                mantissa: if self.mantissa < 0 {
                    -rounded
                } else {
                    rounded
                },
                scale: dp,
            }
        }
    }

    /// The same value without zeros at the end of the decimal places.
    pub open spec fn normalize(self) -> Dec
        decreases self.scale,
    {
        if self.mantissa == 0 {
            Dec { mantissa: 0, scale: 0 }
        } else if self.scale > 0 && self.mantissa % 10 == 0 {
            Dec { mantissa: self.mantissa / 10, scale: (self.scale - 1) as nat }.normalize()
        } else {
            self
        }
    }

    /// The number cut off behind `places` decimal places.
    pub open spec fn cut(self, places: nat) -> Dec {
        let size = (magnitude(self.mantissa) * pow10(places) / pow10(self.scale)) as int;
        Dec {
            mantissa: if self.mantissa < 0 {
                -size
            } else {
                size
            },
            scale: places,
        }
    }

    /// The digits of the part before the decimal point.
    pub open spec fn whole_digits(self) -> Seq<char> {
        digits(magnitude(self.mantissa) / pow10(self.scale))
    }

    /// The digits behind the decimal point, one for each decimal place.
    pub open spec fn fraction_digits(self) -> Seq<char> {
        if self.scale == 0 {
            seq![]
        } else {
            pad_left(digits(magnitude(self.mantissa) % pow10(self.scale)), self.scale, '0')
        }
    }

    pub open spec fn sign(self) -> Seq<char> {
        if self.mantissa < 0 {
            seq!['-']
        } else {
            seq![]
        }
    }

    /// The number written out with all its decimal places.
    pub open spec fn plain(self) -> Seq<char> {
        if self.scale == 0 {
            self.sign() + self.whole_digits()
        } else {
            self.sign() + self.whole_digits() + seq!['.'] + self.fraction_digits()
        }
    }

    /// The first `places` decimal places: what is beyond them is cut off, what is
    /// missing is a zero.
    pub open spec fn fixed_fraction(self, places: nat) -> Seq<char> {
        Seq::new(
            places,
            |i: int|
                if i < self.fraction_digits().len() {
                    self.fraction_digits()[i]
                } else {
                    '0'
                },
        )
    }

    /// The number written out with exactly `places` decimal places.
    pub open spec fn fixed(self, places: nat) -> Seq<char> {
        if places == 0 {
            self.sign() + self.whole_digits()
        } else {
            self.sign() + self.whole_digits() + seq!['.'] + self.fixed_fraction(places)
        }
    }
}

/// What `rust_decimal` multiplies two numbers to; nothing where it overflows.
pub uninterp spec fn product(a: Dec, b: Dec) -> Option<Dec>;

/// What `rust_decimal` adds two numbers to; nothing where it overflows.
pub uninterp spec fn sum(a: Dec, b: Dec) -> Option<Dec>;

/// What `rust_decimal` leaves of the first number without the second; nothing
/// where it overflows.
pub uninterp spec fn difference(a: Dec, b: Dec) -> Option<Dec>;

/// What `rust_decimal` divides the first number by the second to; nothing where it
/// overflows or the second is zero.
pub uninterp spec fn quotient(a: Dec, b: Dec) -> Option<Dec>;

/// The number that `rust_decimal` reads in a text.
pub uninterp spec fn parsed(s: Seq<char>) -> Option<Dec>;

/// The value of a text made of digits and at most one decimal point, a minus sign in
/// front allowed.
pub open spec fn numeral(s: Seq<char>) -> Option<Dec> {
    let negative = s.len() > 0 && s[0] == '-';
    let body = if negative {
        s.skip(1)
    } else {
        s
    };
    let point = position_of(body, '.') as int;
    let whole = body.take(point);
    let fraction = if point < body.len() {
        body.skip(point + 1)
    } else {
        seq![]
    };
    let size = digits_value(whole + fraction) as int;
    let value = Dec {
        mantissa: if negative {
            -size
        } else {
            size
        },
        scale: fraction.len(),
    };
    if all_digits(whole) && all_digits(fraction) && (whole + fraction).len() > 0 && value.fits() {
        Some(value)
    } else {
        None
    }
}

/// The number in a text: digits with at most one decimal point are read as they
/// stand, everything else as `rust_decimal` reads it.
pub open spec fn read_number(s: Seq<char>) -> Option<Dec> {
    match numeral(s) {
        Some(d) => Some(d),
        None => parsed(s),
    }
}

/// The product of two numbers: exact where it fits, nothing where it overflows.
pub open spec fn multiplied(a: Dec, b: Dec) -> Option<Dec> {
    let exact = Dec { mantissa: a.mantissa * b.mantissa, scale: a.scale + b.scale };
    if a.mantissa == 0 || b.mantissa == 0 {
        Some(Dec { mantissa: 0, scale: 0 })
    } else if exact.fits() {
        Some(exact)
    } else {
        product(a, b)
    }
}

/// The mantissa of a number with `scale` decimal places.
pub open spec fn mantissa_at(d: Dec, scale: nat) -> int {
    d.mantissa * pow10((scale - d.scale) as nat)
}

/// Two numbers added without loss, as far as a mantissa can hold them and their sum with
/// as many decimal places as the one that has more. A zero leaves the other number alone.
pub open spec fn exact_sum(a: Dec, b: Dec) -> Option<Dec> {
    let scale = if a.scale >= b.scale {
        a.scale
    } else {
        b.scale
    };
    let x = mantissa_at(a, scale);
    let y = mantissa_at(b, scale);
    if a.mantissa == 0 {
        Some(b)
    } else if b.mantissa == 0 {
        Some(a)
    } else if (a.scale == b.scale || (magnitude(x) < mantissa_limit() && magnitude(y)
        < mantissa_limit())) && magnitude(x + y) < mantissa_limit() {
        Some(Dec { mantissa: x + y, scale })
    } else {
        None
    }
}

/// The sum of two numbers: exact where it can be, nothing where it overflows.
pub open spec fn added(a: Dec, b: Dec) -> Option<Dec> {
    match exact_sum(a, b) {
        Some(exact) => Some(exact),
        None => sum(a, b),
    }
}

/// The number with the other sign.
pub open spec fn negated(d: Dec) -> Dec {
    Dec { mantissa: -d.mantissa, scale: d.scale }
}

/// The difference of two numbers: exact where it can be, nothing where it overflows.
pub open spec fn subtracted(a: Dec, b: Dec) -> Option<Dec> {
    match exact_sum(a, negated(b)) {
        Some(exact) => Some(exact),
        None => difference(a, b),
    }
}

/// Whether `q` is the quotient of `a` and `b` up to rounding: `q` times `b` is off `a` by
/// at most a unit of the 28th decimal place for each unit of `b`, and a unit of the 27th
/// for each unit of `a`.
pub open spec fn near_quotient(a: Dec, b: Dec, q: Dec) -> bool {
    magnitude(
        q.mantissa * b.mantissa * pow10(a.scale) - a.mantissa * pow10(q.scale) * pow10(b.scale),
    ) * 10_000_000_000_000_000_000_000_000_000nat <= magnitude(b.mantissa) * pow10(a.scale) * pow10(
        q.scale,
    ) + 10 * magnitude(a.mantissa) * pow10(q.scale) * pow10(b.scale)
}

/// Whether the quotient of two numbers is less than ten to the power of 27.
pub open spec fn small_quotient(a: Dec, b: Dec) -> bool {
    magnitude(a.mantissa) * pow10(b.scale) < magnitude(b.mantissa) * pow10(a.scale)
        * 1_000_000_000_000_000_000_000_000_000nat
}

/// The quotient of two numbers, as near as a mantissa can hold it; nothing for a zero
/// divisor or where it overflows.
pub open spec fn divided(a: Dec, b: Dec) -> Option<Dec> {
    if b.mantissa == 0 {
        None
    } else if a.mantissa == 0 {
        Some(Dec { mantissa: 0, scale: 0 })
    } else {
        match quotient(a, b) {
            Some(q) => if near_quotient(a, b, q) {
                Some(q)
            } else {
                None
            },
            None => None,
        }
    }
}

/// A decimal number. A zero has no sign.
#[derive(Clone, Copy, Debug)]
pub struct Decimal {
    mantissa: i128,
    scale: u32,
}

impl View for Decimal {
    type V = Dec;

    closed spec fn view(&self) -> Dec {
        Dec { mantissa: self.mantissa as int, scale: self.scale as nat }
    }
}

/// What an optional number is.
pub open spec fn dec(v: Option<Decimal>) -> Option<Dec> {
    match v {
        Some(d) => Some(d@),
        None => None,
    }
}

/// `Decimal::checked_mul` of `rust_decimal`. The product is exact where mantissa
/// and scale can hold it, a zero factor makes it a zero without decimal places,
/// and what comes of any other pair depends on the two numbers alone.
#[verifier::external_body]
fn multiply(a: Decimal, b: Decimal) -> (r: Option<Decimal>)
    ensures
        dec(r) == product(a@, b@),
        a@.mantissa == 0 || b@.mantissa == 0 ==> dec(r) == Some(Dec { mantissa: 0, scale: 0 }),
        a@.mantissa != 0 && b@.mantissa != 0 && (Dec {
            mantissa: a@.mantissa * b@.mantissa,
            scale: a@.scale + b@.scale,
        }).fits() ==> dec(r) == Some(
            Dec { mantissa: a@.mantissa * b@.mantissa, scale: a@.scale + b@.scale },
        ),
{
    let a = rust_decimal::Decimal::from_i128_with_scale(a.mantissa, a.scale);
    let b = rust_decimal::Decimal::from_i128_with_scale(b.mantissa, b.scale);
    let r = a.checked_mul(b);
    r.map(|r| Decimal { mantissa: r.mantissa(), scale: r.scale() })
}

/// `Decimal::checked_add` of `rust_decimal`: what comes out depends on the two
/// numbers alone. It is exact where the mantissa can hold both numbers and their sum
/// with the decimal places of the one that has more, and a zero leaves the other
/// number as it is.
#[verifier::external_body]
fn add_up(a: Decimal, b: Decimal) -> (r: Option<Decimal>)
    ensures
        dec(r) == sum(a@, b@),
        exact_sum(a@, b@) is Some ==> dec(r) == exact_sum(a@, b@),
{
    let a = rust_decimal::Decimal::from_i128_with_scale(a.mantissa, a.scale);
    let b = rust_decimal::Decimal::from_i128_with_scale(b.mantissa, b.scale);
    let r = a.checked_add(b);
    r.map(|r| Decimal { mantissa: r.mantissa(), scale: r.scale() })
}

/// `Decimal::checked_sub` of `rust_decimal`: what comes out depends on the two
/// numbers alone. It is exact where the mantissa can hold both numbers and their
/// difference with the decimal places of the one that has more; a zero taken away
/// changes nothing, and what is taken from a zero changes its sign.
#[verifier::external_body]
fn subtract(a: Decimal, b: Decimal) -> (r: Option<Decimal>)
    ensures
        dec(r) == difference(a@, b@),
        exact_sum(a@, negated(b@)) is Some ==> dec(r) == exact_sum(a@, negated(b@)),
{
    let a = rust_decimal::Decimal::from_i128_with_scale(a.mantissa, a.scale);
    let b = rust_decimal::Decimal::from_i128_with_scale(b.mantissa, b.scale);
    let r = a.checked_sub(b);
    r.map(|r| Decimal { mantissa: r.mantissa(), scale: r.scale() })
}

/// `Decimal::checked_div` of `rust_decimal`: nothing for a zero divisor, a zero
/// without decimal places for a zero dividend, and otherwise what depends on the
/// two numbers alone. A quotient below ten to the power of 27 does not overflow. What
/// comes out is exact, or rounded to 28 decimal places, or rounded where the mantissa has
/// no room for one more digit, so that it has 27 digits or more.
#[verifier::external_body]
fn divide(a: Decimal, b: Decimal) -> (r: Option<Decimal>)
    ensures
        dec(r) == quotient(a@, b@),
        b@.mantissa == 0 ==> r is None,
        a@.mantissa == 0 && b@.mantissa != 0 ==> dec(r) == Some(Dec { mantissa: 0, scale: 0 }),
        r is Some ==> near_quotient(a@, b@, r->0@),
        b@.mantissa != 0 && small_quotient(a@, b@) ==> r is Some,
{
    let a = rust_decimal::Decimal::from_i128_with_scale(a.mantissa, a.scale);
    let b = rust_decimal::Decimal::from_i128_with_scale(b.mantissa, b.scale);
    let r = a.checked_div(b);
    r.map(|r| Decimal { mantissa: r.mantissa(), scale: r.scale() })
}

/// `<=` of `rust_decimal` compares the values of the two numbers.
#[verifier::external_body]
fn compare(a: Decimal, b: Decimal) -> (r: bool)
    ensures
        r == a@.at_most(b@),
{
    let a = rust_decimal::Decimal::from_i128_with_scale(a.mantissa, a.scale);
    let b = rust_decimal::Decimal::from_i128_with_scale(b.mantissa, b.scale);
    a <= b
}

/// `Decimal::round_dp` of `rust_decimal` rounds to the nearest number with that many
/// decimal places, a tie to the even one, and leaves alone what has no more places.
#[verifier::external_body]
fn round(a: Decimal, dp: u32) -> (r: Decimal)
    ensures
        r@ == a@.round_dp(dp as nat),
{
    let a = rust_decimal::Decimal::from_i128_with_scale(a.mantissa, a.scale);
    let r = a.round_dp(dp);
    Decimal { mantissa: r.mantissa(), scale: r.scale() }
}

/// `Decimal::normalize` of `rust_decimal` strips the zeros at the end of the decimal
/// places, and writes zero without any.
#[verifier::external_body]
fn strip_zeros(a: Decimal) -> (r: Decimal)
    ensures
        r@ == a@.normalize(),
{
    let a = rust_decimal::Decimal::from_i128_with_scale(a.mantissa, a.scale);
    let r = a.normalize();
    Decimal { mantissa: r.mantissa(), scale: r.scale() }
}

/// `Display` of `rust_decimal` writes the number out with all its decimal places.
#[verifier::external_body]
fn show(a: Decimal) -> (r: String)
    ensures
        r@ == a@.plain(),
{
    format!("{}", rust_decimal::Decimal::from_i128_with_scale(a.mantissa, a.scale))
}

/// `Display` of `rust_decimal` with a precision writes the number with that many
/// decimal places, cutting off what is beyond them. Its buffer has room for 32
/// characters.
#[verifier::external_body]
fn show_fixed(a: Decimal, places: usize) -> (r: String)
    requires
        places <= 28,
        a@.whole_digits().len() + 1 + places <= 32,
    ensures
        r@ == a@.fixed(places as nat),
{
    format!("{:.*}", places, rust_decimal::Decimal::from_i128_with_scale(a.mantissa, a.scale))
}

/// `Decimal::from_str` of `rust_decimal`: whether a text is a number, and which one,
/// depends on the text alone; digits with at most one decimal point, a minus sign in
/// front allowed, are read as they stand, where mantissa and scale can hold them.
#[verifier::external_body]
fn read(s: &str) -> (r: Option<Decimal>)
    ensures
        dec(r) == parsed(s@),
        numeral(s@) is Some ==> dec(r) == numeral(s@),
{
    let r = <rust_decimal::Decimal as std::str::FromStr>::from_str(s);
    r.ok().map(|r| Decimal { mantissa: r.mantissa(), scale: r.scale() })
}

impl Decimal {
    #[verifier::type_invariant]
    spec fn representable(self) -> bool {
        self@.fits()
    }

    pub fn new(num: i64, scale: u32) -> (r: Decimal)
        requires
            scale <= 28,
        ensures
            r@ == (Dec { mantissa: num as int, scale: scale as nat }),
    {
        Decimal { mantissa: num as i128, scale }
    }

    /// The number with this mantissa and scale, if there is one.
    pub fn from_parts(mantissa: i128, scale: u32) -> (r: Option<Decimal>)
        ensures
            dec(r) == (if (Dec { mantissa: mantissa as int, scale: scale as nat }).fits() {
                Some(Dec { mantissa: mantissa as int, scale: scale as nat })
            } else {
                None
            }),
    {
        let limit: i128 = 0x1_0000_0000_0000_0000_0000_0000;
        if -limit < mantissa && mantissa < limit && scale <= 28 {
            Some(Decimal { mantissa, scale })
        } else {
            None
        }
    }

    pub fn mantissa(&self) -> (r: i128)
        ensures
            r == self@.mantissa,
    {
        self.mantissa
    }

    pub fn scale(&self) -> (r: u32)
        ensures
            r == self@.scale,
    {
        self.scale
    }

    pub fn is_zero(&self) -> (r: bool)
        ensures
            r == (self@.mantissa == 0),
    {
        self.mantissa == 0
    }

    pub fn is_sign_negative(&self) -> (r: bool)
        ensures
            r == (self@.mantissa < 0),
    {
        self.mantissa < 0
    }

    pub fn abs(&self) -> (r: Decimal)
        ensures
            r@ == self@.abs(),
    {
        proof {
            use_type_invariant(self);
        }
        if self.mantissa < 0 {
            Decimal { mantissa: -self.mantissa, scale: self.scale }
        } else {
            *self
        }
    }

    pub fn checked_mul(&self, other: Decimal) -> (r: Option<Decimal>)
        ensures
            dec(r) == multiplied(self@, other@),
    {
        multiply(*self, other)
    }

    pub fn checked_add(&self, other: Decimal) -> (r: Option<Decimal>)
        ensures
            dec(r) == added(self@, other@),
    {
        add_up(*self, other)
    }

    pub fn checked_sub(&self, other: Decimal) -> (r: Option<Decimal>)
        ensures
            dec(r) == subtracted(self@, other@),
    {
        subtract(*self, other)
    }

    pub fn checked_div(&self, other: Decimal) -> (r: Option<Decimal>)
        ensures
            dec(r) == divided(self@, other@),
            other@.mantissa != 0 && small_quotient(self@, other@) ==> r is Some,
    {
        divide(*self, other)
    }

    /// Whether the value is at most that of the other number.
    pub fn at_most(&self, other: Decimal) -> (r: bool)
        ensures
            r == self@.at_most(other@),
    {
        compare(*self, other)
    }

    pub fn round_dp(&self, dp: u32) -> (r: Decimal)
        ensures
            r@ == self@.round_dp(dp as nat),
    {
        round(*self, dp)
    }

    pub fn normalize(&self) -> (r: Decimal)
        ensures
            r@ == self@.normalize(),
    {
        strip_zeros(*self)
    }

    /// The number written out with all its decimal places.
    pub fn plain(&self) -> (r: String)
        ensures
            r@ == self@.plain(),
    {
        show(*self)
    }

    /// The number written out with exactly `places` decimal places.
    pub fn fixed(&self, places: usize) -> (r: String)
        requires
            places <= 2 || (places <= 28 && self@.whole_digits().len() + 1 + places <= 32),
        ensures
            r@ == self@.fixed(places as nat),
    {
        proof {
            use_type_invariant(self);
            lemma_whole_digits(self@);
        }
        show_fixed(*self, places)
    }

    /// The number that a text holds.
    pub fn parse(s: &str) -> (r: Option<Decimal>)
        ensures
            dec(r) == read_number(s@),
    {
        read(s)
    }
}

impl PartialEq for Decimal {
    fn eq(&self, other: &Decimal) -> (r: bool) {
        compare(*self, *other) && compare(*other, *self)
    }
}

impl vstd::std_specs::cmp::PartialEqSpecImpl for Decimal {
    open spec fn obeys_eq_spec() -> bool {
        true
    }

    open spec fn eq_spec(&self, other: &Decimal) -> bool {
        self@.equals(other@)
    }
}

pub proof fn lemma_pow10_add(a: nat, b: nat)
    ensures
        pow10(a + b) == pow10(a) * pow10(b),
        pow10(a) > 0,
        pow10(b) > 0,
    decreases a,
{
    if a > 0 {
        lemma_pow10_add((a - 1) as nat, b);
        let x = pow10((a - 1) as nat);
        let y = pow10(b);
        assert(10 * (x * y) == (10 * x) * y) by (nonlinear_arith);
        assert((a + b - 1) as nat == ((a - 1) as nat) + b);
        assert(pow10(a + b) == 10 * pow10((a + b - 1) as nat));
    } else {
        lemma_pow10_positive(b);
        assert(pow10(0) == 1);
        assert(a + b == b);
    }
}

pub proof fn lemma_pow10_positive(n: nat)
    ensures
        pow10(n) > 0,
    decreases n,
{
    if n > 0 {
        lemma_pow10_positive((n - 1) as nat);
    }
}

pub proof fn lemma_digits_len(n: nat, k: nat)
    requires
        n < pow10(k),
        k > 0,
    ensures
        digits(n).len() <= k,
    decreases k,
{
    if n >= 10 {
        if k == 1 {
            assert(pow10(1) == 10) by {
                reveal_with_fuel(pow10, 2);
            }
        } else {
            lemma_digits_len(n / 10, (k - 1) as nat);
        }
    }
}

/// A number that fits has at most 29 digits before its decimal point.
proof fn lemma_whole_digits(d: Dec)
    requires
        d.fits(),
    ensures
        d.whole_digits().len() <= 29,
{
    lemma_pow10_positive(d.scale);
    let m = magnitude(d.mantissa);
    let p = pow10(d.scale);
    assert(m / p <= m) by (nonlinear_arith)
        requires
            p > 0,
            m >= 0,
    ;
    assert(pow10(29) == 100_000_000_000_000_000_000_000_000_000) by {
        reveal_with_fuel(pow10, 30);
    }
    lemma_digits_len(m / p, 29);
}

} // verus!
