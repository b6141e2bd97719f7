//! What holds of prices that were held against quantities.

use crate::decimal::{
    divided, exact_sum, lemma_pow10_add, lemma_pow10_positive, magnitude, mantissa_at,
    mantissa_limit, multiplied, near_quotient, negated, pow10, small_quotient, subtracted, Dec,
};
use crate::model::{BoqView, NodeView, PositionView};
use crate::price_cleanup::{
    agree, amount, modest, modest_prices, other_warnings, price_of, repair, repaired_positions,
    repaired_tree, to_cents, with_repaired_prices, Repair,
};
use crate::tree::positions_of;
use crate::x83::omitted;
use vstd::prelude::*;

verus! {

/// Whether an amount in at most two decimal places is within half a cent of `n` divided by
/// ten to the power of `scale`.
pub open spec fn within_half_cent(a: Dec, n: int, scale: nat) -> bool {
    &&& a.scale <= 2
    &&& 200 * magnitude(a.mantissa * pow10(scale) - n * pow10(a.scale)) <= pow10(a.scale) * pow10(
        scale,
    )
}

/// Whether the prices of a position are looked at: it is not left out, its total is asked
/// for, and it has a quantity that is not zero.
pub open spec fn looked_at(p: PositionView) -> bool {
    !omitted(p) && !p.price_only && p.quantity is Some && p.quantity->0.mantissa != 0
}

/// Two positions differ in their prices at most.
pub open spec fn same_but_prices(a: PositionView, b: PositionView) -> bool {
    &&& a.oz == b.oz
    &&& a.quantity == b.quantity
    &&& a.unit == b.unit
    &&& a.short_text == b.short_text
    &&& a.long_text == b.long_text
    &&& a.page_from == b.page_from
    &&& a.page_to == b.page_to
    &&& a.provisional == b.provisional
    &&& a.price_only == b.price_only
}

pub proof fn lemma_pow10_small(n: nat)
    ensures
        pow10(0) == 1,
        pow10(1) == 10,
        pow10(2) == 100,
        n <= 2 ==> pow10(n) == 1 || pow10(n) == 10 || pow10(n) == 100,
        pow10(n) > 0,
        n <= 6 ==> pow10(n) <= 1_000_000,
{
    assert(pow10(0) == 1);
    assert(pow10(1) == 10);
    assert(pow10(2) == 100);
    assert(pow10(3) == 1000);
    assert(pow10(4) == 10000);
    assert(pow10(5) == 100000);
    assert(pow10(6) == 1000000);
    lemma_pow10_positive(n);
}

/// How rounding to cents changes a number.
#[verifier::spinoff_prover]
pub proof fn lemma_rounded(d: Dec)
    ensures
        to_cents(d).scale <= 2,
        d.scale <= 2 ==> to_cents(d) == d,
        d.scale > 2 ==> {
            let e = pow10((d.scale - 2) as nat) as int;
            let u = to_cents(d).mantissa;
            &&& to_cents(d).scale == 2
            &&& e > 0
            &&& pow10(d.scale) == 100 * e
            &&& -e <= 2 * (u * e - d.mantissa) <= e
        },
{
    if d.scale > 2 {
        let k = (d.scale - 2) as nat;
        let e = pow10(k) as int;
        lemma_pow10_add(2, k);
        lemma_pow10_small(2);
        let m = magnitude(d.mantissa) as int;
        let whole = m / e;
        let rest = m % e;
        vstd::arithmetic::div_mod::lemma_fundamental_div_mod(m, e);
        vstd::arithmetic::div_mod::lemma_mod_bound(m, e);
        assert(m == e * whole + rest);
        let u = to_cents(d).mantissa;
        let r: int = if 2 * rest > e || (2 * rest == e && whole % 2 == 1) {
            whole + 1
        } else {
            whole
        };
        assert(u == if d.mantissa < 0 {
            -r
        } else {
            r
        });
        assert(r * e == e * whole || r * e == e * whole + e) by (nonlinear_arith)
            requires
                r == whole || r == whole + 1,
        ;
        assert(r == whole ==> r * e == e * whole) by (nonlinear_arith);
        assert(r == whole + 1 ==> r * e == e * whole + e) by (nonlinear_arith);
        assert(-e <= 2 * (r * e - m) <= e);
        assert((-r) * e == -(r * e)) by (nonlinear_arith);
    }
}

proof fn lemma_cents_close(d: Dec)
    ensures
        within_half_cent(to_cents(d), d.mantissa, d.scale),
{
    lemma_rounded(d);
    lemma_pow10_small(d.scale);
    lemma_pow10_small(2);
    let u = to_cents(d);
    if d.scale > 2 {
        let e = pow10((d.scale - 2) as nat) as int;
        let x = u.mantissa * e - d.mantissa;
        assert(u.mantissa * (100 * e) - d.mantissa * 100 == 100 * x) by (nonlinear_arith)
            requires
                x == u.mantissa * e - d.mantissa,
        ;
        assert(100 * (100 * e) == 10000 * e);
    } else {
        assert(u.mantissa * pow10(d.scale) - d.mantissa * pow10(u.scale) == 0);
        assert(pow10(u.scale) * pow10(d.scale) >= 0) by (nonlinear_arith)
            requires
                pow10(u.scale) > 0,
                pow10(d.scale) > 0,
        ;
    }
}

proof fn lemma_minus(k: int, a: int, b: int)
    ensures
        k * (a - b) == k * a - k * b,
{
    assert(k * (a - b) == k * a - k * b) by (nonlinear_arith);
}

/// The bound on what a unit price from a total is off, in whole numbers.
#[verifier::spinoff_prover]
proof fn lemma_divided_bound(
    q: int,
    t: int,
    d: int,
    u: int,
    tt: int,
    qq: int,
    e: int,
)
    requires
        e > 0,
        tt > 0,
        qq > 0,
        -e <= 2 * (u * e - d) <= e,
        magnitude(d * q * tt - t * (100 * e) * qq) * 10_000_000_000_000_000_000_000_000_000nat
            <= magnitude(q) * tt * (100 * e) + 10 * magnitude(t) * (100 * e) * qq,
    ensures
        20_000_000_000_000_000_000_000_000_000 * magnitude(q * u * tt - t * 100 * qq) <= magnitude(q)
            * tt * 100 * 100_000_000_000_000_000_000_000_002 + 20 * magnitude(t) * 100 * qq,
{
    let a = magnitude(q) as int * tt;
    let b = magnitude(t) as int * qq;
    let x = q * u * tt - t * 100 * qq;
    let y = d * q * tt - t * (100 * e) * qq;
    let z = q * tt * (u * e - d);
    assert(e * x == z + y) by {
        lemma_minus(e, q * u * tt, t * 100 * qq);
        lemma_minus(q * tt, u * e, d);
        assert(e * (q * u * tt) == q * tt * (u * e)) by (nonlinear_arith);
        assert(e * (t * 100 * qq) == t * (100 * e) * qq) by (nonlinear_arith);
        assert(q * tt * d == d * q * tt) by (nonlinear_arith);
    }
    assert(2 * magnitude(z) <= a * e) by (nonlinear_arith)
        requires
            z == q * tt * (u * e - d),
            a == magnitude(q) as int * tt,
            -e <= 2 * (u * e - d) <= e,
            tt > 0,
            e > 0,
    {
        let w = u * e - d;
        let s = q * tt;
        assert(magnitude(s) as int == a) by (nonlinear_arith)
            requires
                s == q * tt,
                tt > 0,
                a == magnitude(q) as int * tt,
        ;
        assert(magnitude(s * w) as int == magnitude(s) as int * magnitude(w) as int)
            by (nonlinear_arith);
        assert(2 * magnitude(w) <= e);
        assert(magnitude(s) as int * (2 * magnitude(w)) <= magnitude(s) as int * e)
            by (nonlinear_arith)
            requires
                2 * magnitude(w) <= e,
                magnitude(s) >= 0,
        ;
    }
    assert(magnitude(q) as int * tt * (100 * e) == 100 * (a * e)) by (nonlinear_arith)
        requires
            a == magnitude(q) as int * tt,
    ;
    assert(10 * magnitude(t) as int * (100 * e) * qq == 1000 * (b * e)) by (nonlinear_arith)
        requires
            b == magnitude(t) as int * qq,
    ;
    assert(magnitude(e * x) as int == e * magnitude(x) as int) by (nonlinear_arith)
        requires
            e > 0,
    ;
    assert(magnitude(z + y) <= magnitude(z) + magnitude(y));
    assert(20_000_000_000_000_000_000_000_000_000 * (e * magnitude(x) as int)
        <= 10_000_000_000_000_000_000_000_000_200 * (a * e) + 2000 * (b * e));
    let right = 10_000_000_000_000_000_000_000_000_200 * a + 2000 * b;
    assert(10_000_000_000_000_000_000_000_000_200 * (a * e) + 2000 * (b * e) == right * e)
        by (nonlinear_arith)
        requires
            right == 10_000_000_000_000_000_000_000_000_200 * a + 2000 * b,
    ;
    let left = 20_000_000_000_000_000_000_000_000_000 * magnitude(x) as int;
    assert(20_000_000_000_000_000_000_000_000_000 * (e * magnitude(x) as int) == left * e)
        by (nonlinear_arith)
        requires
            left == 20_000_000_000_000_000_000_000_000_000 * magnitude(x) as int,
    ;
    assert(left <= right) by (nonlinear_arith)
        requires
            left * e <= right * e,
            e > 0,
    ;
    assert(magnitude(q) as int * tt * 100 * 100_000_000_000_000_000_000_000_002
        == 10_000_000_000_000_000_000_000_000_200 * a);
    assert(20 * magnitude(t) as int * 100 * qq == 2000 * b) by (nonlinear_arith)
        requires
            b == magnitude(t) as int * qq,
    ;
}

/// What a unit price, worked out from a total, times the quantity is off the total.
spec fn off_by(quantity: Dec, unit: Dec, total: Dec) -> nat {
    magnitude(
        quantity.mantissa * unit.mantissa * pow10(total.scale) - total.mantissa * pow10(unit.scale)
            * pow10(quantity.scale),
    )
}

#[verifier::spinoff_prover]
proof fn lemma_unit_from_total(quantity: Dec, total: Dec)
    requires
        quantity.mantissa != 0,
        divided(total, quantity) is Some,
    ensures
        ({
            let unit = to_cents(divided(total, quantity)->0);
            &&& unit.scale <= 2
            &&& 20_000_000_000_000_000_000_000_000_000 * off_by(quantity, unit, total) <= magnitude(
                quantity.mantissa,
            ) * pow10(total.scale) * pow10(unit.scale) * 100_000_000_000_000_000_000_000_002 + 20
                * magnitude(total.mantissa) * pow10(unit.scale) * pow10(quantity.scale)
        }),
{
    let d = divided(total, quantity)->0;
    let unit = to_cents(d);
    let q = quantity.mantissa;
    let t = total.mantissa;
    let tt = pow10(total.scale) as int;
    let qq = pow10(quantity.scale) as int;
    lemma_pow10_small(total.scale);
    lemma_pow10_small(quantity.scale);
    lemma_pow10_small(d.scale);
    lemma_pow10_small(2);
    lemma_rounded(d);
    if t == 0 {
        assert(d == Dec { mantissa: 0, scale: 0 });
        assert(unit == d);
        assert(q * 0 * tt == 0) by (nonlinear_arith);
        assert(0 * pow10(unit.scale) * qq == 0) by (nonlinear_arith);
        assert(magnitude(q) * tt * pow10(unit.scale) * 100_000_000_000_000_000_000_000_002 >= 0)
            by (nonlinear_arith)
            requires
                tt > 0,
                pow10(unit.scale) == 1,
        ;
        assert(20 * magnitude(t) * pow10(unit.scale) * qq == 0) by (nonlinear_arith)
            requires
                magnitude(t) == 0,
        ;
    } else {
        assert(near_quotient(total, quantity, d));
        if d.scale <= 2 {
            let dd = pow10(d.scale) as int;
            let y = d.mantissa * q * tt - t * dd * qq;
            assert(q * d.mantissa * tt - t * dd * qq == y) by (nonlinear_arith)
                requires
                    y == d.mantissa * q * tt - t * dd * qq,
            ;
            assert(magnitude(q) * tt * dd >= 0) by (nonlinear_arith)
                requires
                    tt > 0,
                    dd > 0,
            ;
            assert(magnitude(q) * tt * dd * 100_000_000_000_000_000_000_000_002 >= 2 * (magnitude(
                q,
            ) * tt * dd)) by (nonlinear_arith)
                requires
                    magnitude(q) * tt * dd >= 0,
            ;
            assert(20 * magnitude(t) * dd * qq == 2 * (10 * magnitude(t) * dd * qq))
                by (nonlinear_arith);
        } else {
            let e = pow10((d.scale - 2) as nat) as int;
            lemma_divided_bound(q, t, d.mantissa, unit.mantissa, tt, qq, e);
        }
    }
}

/// Where only a total is given, the unit price that is worked out is in cents, and times
/// the quantity it is off the given total by at most half a cent for each unit of the
/// quantity, and half a cent; the total that is put in is within half a cent of quantity
/// times unit price. The rest of the position stays as it is, and what was worked out is
/// told.
#[verifier::spinoff_prover]
pub proof fn law_total_gives_unit_price(p: PositionView)
    requires
        looked_at(p),
        p.unit_price is None,
        p.total_price is Some,
        repair(p) is Some,
        magnitude(p.quantity->0.mantissa) <= 1_000_000_000_000_000_000_000_000 * pow10(
            p.quantity->0.scale,
        ),
        magnitude(p.total_price->0.mantissa) <= 1_000_000_000_000_000_000_000_000 * pow10(
            p.total_price->0.scale,
        ),
    ensures
        ({
            let quantity = p.quantity->0;
            let given = p.total_price->0;
            let r = repair(p)->0;
            let unit = r.position.unit_price->0;
            let total = r.position.total_price->0;
            &&& same_but_prices(r.position, p)
            &&& r.position.unit_price is Some && unit.scale <= 2
            &&& r.position.total_price is Some && total.scale <= 2
            &&& 200 * magnitude(
                quantity.mantissa * unit.mantissa * pow10(given.scale) - given.mantissa * pow10(
                    unit.scale,
                ) * pow10(quantity.scale),
            ) <= (magnitude(quantity.mantissa) + pow10(quantity.scale)) * pow10(given.scale)
                * pow10(unit.scale)
            &&& (Dec {
                mantissa: quantity.mantissa * unit.mantissa,
                scale: quantity.scale + unit.scale,
            }).fits() ==> within_half_cent(
                total,
                quantity.mantissa * unit.mantissa,
                quantity.scale + unit.scale,
            )
            &&& r.warnings == seq!["EP berechnet: "@ + p.oz + " – "@ + amount(unit)]
        }),
{
    let quantity = p.quantity->0;
    let given = p.total_price->0;
    let unit = to_cents(divided(given, quantity)->0);
    lemma_unit_from_total(quantity, given);
    let q = magnitude(quantity.mantissa) as int;
    let t = magnitude(given.mantissa) as int;
    let tt = pow10(given.scale) as int;
    let uu = pow10(unit.scale) as int;
    let qq = pow10(quantity.scale) as int;
    lemma_pow10_small(given.scale);
    lemma_pow10_small(unit.scale);
    lemma_pow10_small(quantity.scale);
    let x = off_by(quantity, unit, given) as int;
    let k = 1_000_000_000_000_000_000_000_000int;
    let c = tt * uu;
    let g = qq * (tt * uu);
    assert(q * tt * uu == q * c) by (nonlinear_arith)
        requires
            c == tt * uu,
    ;
    assert(c > 0) by (nonlinear_arith)
        requires
            c == tt * uu,
            tt > 0,
            uu > 0,
    ;
    assert(q * c <= k * g) by (nonlinear_arith)
        requires
            q <= k * qq,
            c == tt * uu,
            g == qq * (tt * uu),
            c > 0,
    ;
    assert(t * uu * qq <= k * g) by (nonlinear_arith)
        requires
            t <= k * tt,
            g == qq * (tt * uu),
            uu > 0,
            qq > 0,
            t >= 0,
    ;
    let w = q * c;
    let v = t * uu * qq;
    assert(q * tt * uu * 100_000_000_000_000_000_000_000_002 == 100_000_000_000_000_000_000_000_002
        * w);
    assert(20 * t * uu * qq == 20 * v) by (nonlinear_arith)
        requires
            v == t * uu * qq,
    ;
    assert(20_000_000_000_000_000_000_000_000_000 * x <= 100_000_000_000_000_000_000_000_002 * w
        + 20 * v);
    assert(g > 0) by (nonlinear_arith)
        requires
            g == qq * (tt * uu),
            qq > 0,
            tt > 0,
            uu > 0,
    ;
    assert(200 * x <= w + g);
    assert((q + qq) * tt * uu == w + g) by (nonlinear_arith)
        requires
            w == q * c,
            c == tt * uu,
            g == qq * (tt * uu),
    ;
    if (Dec {
        mantissa: quantity.mantissa * unit.mantissa,
        scale: quantity.scale + unit.scale,
    }).fits() {
        lemma_price(quantity, unit);
    } else {
        lemma_rounded(multiplied(quantity, unit)->0);
    }
}

/// Quantity times unit price, put in cents.
proof fn lemma_price(quantity: Dec, unit: Dec)
    requires
        (Dec {
            mantissa: quantity.mantissa * unit.mantissa,
            scale: quantity.scale + unit.scale,
        }).fits(),
    ensures
        price_of(quantity, unit) is Some,
        within_half_cent(
            price_of(quantity, unit)->0,
            quantity.mantissa * unit.mantissa,
            quantity.scale + unit.scale,
        ),
{
    let exact = Dec {
        mantissa: quantity.mantissa * unit.mantissa,
        scale: quantity.scale + unit.scale,
    };
    if quantity.mantissa == 0 || unit.mantissa == 0 {
        let zero = Dec { mantissa: 0, scale: 0 };
        lemma_rounded(zero);
        lemma_pow10_small(exact.scale);
        assert(exact.mantissa == 0) by (nonlinear_arith)
            requires
                quantity.mantissa == 0 || unit.mantissa == 0,
                exact.mantissa == quantity.mantissa * unit.mantissa,
        ;
        assert(0 * pow10(exact.scale) == 0);
    } else {
        lemma_cents_close(exact);
    }
}

/// A unit price that is near enough to a whole number of cents is that number.
#[verifier::spinoff_prover]
proof fn lemma_exact_cents(q: int, t: int, u: int, cents: int, tt: int, uu: int, qq: int)
    requires
        q != 0,
        tt > 0,
        qq > 0,
        uu == 1 || uu == 10 || uu == 100,
        q * cents * tt == t * qq * 100,
        magnitude(cents) < 100_000_000_000_000_000_000_000_000,
        20_000_000_000_000_000_000_000_000_000 * magnitude(q * u * tt - t * uu * qq) <= magnitude(q)
            * tt * uu * 100_000_000_000_000_000_000_000_002 + 20 * magnitude(t) * uu * qq,
    ensures
        100 * u == cents * uu,
{
    let x = q * u * tt - t * uu * qq;
    let y = 100 * u - cents * uu;
    let f = magnitude(q) as int * tt;
    assert(100 * x == q * tt * y) by {
        lemma_minus(q * tt, 100 * u, cents * uu);
        assert(q * tt * (100 * u) == 100 * (q * u * tt)) by (nonlinear_arith);
        assert(q * tt * (cents * uu) == uu * (q * cents * tt)) by (nonlinear_arith);
        assert(uu * (t * qq * 100) == 100 * (t * uu * qq)) by (nonlinear_arith);
    }
    assert(100 * magnitude(x) as int == f * magnitude(y) as int) by (nonlinear_arith)
        requires
            100 * x == q * tt * y,
            f == magnitude(q) as int * tt,
            tt > 0,
    ;
    assert(f > 0) by (nonlinear_arith)
        requires
            f == magnitude(q) as int * tt,
            q != 0,
            tt > 0,
    ;
    let c = magnitude(cents) as int;
    assert(100 * (magnitude(t) as int * qq) == f * c) by (nonlinear_arith)
        requires
            q * cents * tt == t * qq * 100,
            f == magnitude(q) as int * tt,
            c == magnitude(cents) as int,
            tt > 0,
            qq > 0,
    ;
    assert(magnitude(q) as int * tt * uu * 100_000_000_000_000_000_000_000_002 == f * uu
        * 100_000_000_000_000_000_000_000_002);
    assert(100 * (20 * magnitude(t) as int * uu * qq) == 20 * uu * (f * c)) by (nonlinear_arith)
        requires
            100 * (magnitude(t) as int * qq) == f * c,
    ;
    assert(20_000_000_000_000_000_000_000_000_000 * (100 * magnitude(x) as int) <= 100 * (f * uu
        * 100_000_000_000_000_000_000_000_002) + 20 * uu * (f * c));
    let left = 20_000_000_000_000_000_000_000_000_000 * magnitude(y) as int;
    let right = 100 * uu * 100_000_000_000_000_000_000_000_002 + 20 * uu * c;
    assert(20_000_000_000_000_000_000_000_000_000 * (f * magnitude(y) as int) == f * left)
        by (nonlinear_arith)
        requires
            left == 20_000_000_000_000_000_000_000_000_000 * magnitude(y) as int,
    ;
    assert(100 * (f * uu * 100_000_000_000_000_000_000_000_002) + 20 * uu * (f * c) == f * right)
        by (nonlinear_arith)
        requires
            right == 100 * uu * 100_000_000_000_000_000_000_000_002 + 20 * uu * c,
    ;
    assert(left <= right) by (nonlinear_arith)
        requires
            f * left <= f * right,
            f > 0,
    ;
    if uu == 1 {
        assert(y == 100 * u - cents) by (nonlinear_arith)
            requires
                uu == 1,
                y == 100 * u - cents * uu,
        ;
        assert(right == 10_000_000_000_000_000_000_000_000_200 + 20 * c) by (nonlinear_arith)
            requires
                uu == 1,
                right == 100 * uu * 100_000_000_000_000_000_000_000_002 + 20 * uu * c,
        ;
        assert(y == 0);
    } else if uu == 10 {
        assert(y == 100 * u - 10 * cents) by (nonlinear_arith)
            requires
                uu == 10,
                y == 100 * u - cents * uu,
        ;
        assert(right == 100_000_000_000_000_000_000_000_002_000 + 200 * c) by (nonlinear_arith)
            requires
                uu == 10,
                right == 100 * uu * 100_000_000_000_000_000_000_000_002 + 20 * uu * c,
        ;
        assert(y == 0);
    } else {
        assert(y == 100 * u - 100 * cents) by (nonlinear_arith)
            requires
                uu == 100,
                y == 100 * u - cents * uu,
        ;
        assert(right == 1_000_000_000_000_000_000_000_000_020_000 + 2000 * c) by (nonlinear_arith)
            requires
                uu == 100,
                right == 100 * uu * 100_000_000_000_000_000_000_000_002 + 20 * uu * c,
        ;
        assert(y == 0);
    }
}

/// Quantity times unit price is the total, and no larger than quantity times cents.
#[verifier::spinoff_prover]
proof fn lemma_exact_product(q: int, t: int, u: int, cents: int, tt: int, uu: int, qq: int)
    requires
        uu == 1 || uu == 10 || uu == 100,
        q * cents * tt == t * qq * 100,
        100 * u == cents * uu,
    ensures
        q * u * tt - t * uu * qq == 0,
        magnitude(q * u) <= magnitude(q * cents),
{
    assert(100 * (q * u * tt) == 100 * (t * uu * qq)) by {
        assert(100 * (q * u * tt) == q * tt * (100 * u)) by (nonlinear_arith);
        assert(q * tt * (cents * uu) == uu * (q * cents * tt)) by (nonlinear_arith);
        assert(uu * (t * qq * 100) == 100 * (t * uu * qq)) by (nonlinear_arith);
    }
    assert(magnitude(q * u) <= magnitude(q * cents)) by (nonlinear_arith)
        requires
            100 * u == cents * uu,
            uu == 1 || uu == 10 || uu == 100,
    {
        assert(magnitude(u) <= magnitude(cents));
        assert(magnitude(q * u) as int == magnitude(q) as int * magnitude(u) as int)
            by (nonlinear_arith);
        assert(magnitude(q * cents) as int == magnitude(q) as int * magnitude(cents) as int)
            by (nonlinear_arith);
        assert(magnitude(q) as int * magnitude(u) as int <= magnitude(q) as int * magnitude(
            cents,
        ) as int) by (nonlinear_arith)
            requires
                magnitude(u) <= magnitude(cents),
        ;
    }
}

/// Where the given total is the quantity times a whole number of cents, that number is
/// the unit price, and a total in cents stays what it was.
#[verifier::spinoff_prover]
pub proof fn law_exact_unit_price(p: PositionView, cents: int)
    requires
        looked_at(p),
        p.unit_price is None,
        p.total_price is Some,
        repair(p) is Some,
        p.quantity->0.mantissa * cents * pow10(p.total_price->0.scale) == p.total_price->0.mantissa
            * pow10(p.quantity->0.scale) * 100,
        magnitude(cents) < 100_000_000_000_000_000_000_000_000,
        (Dec { mantissa: p.quantity->0.mantissa * cents, scale: p.quantity->0.scale + 2 }).fits(),
    ensures
        repair(p)->0.position.unit_price is Some,
        repair(p)->0.position.unit_price->0.equals(Dec { mantissa: cents, scale: 2 }),
        p.total_price->0.scale <= 2 ==> repair(p)->0.position.total_price is Some && repair(
            p,
        )->0.position.total_price->0.equals(p.total_price->0),
{
    let quantity = p.quantity->0;
    let given = p.total_price->0;
    let unit = to_cents(divided(given, quantity)->0);
    lemma_unit_from_total(quantity, given);
    let q = quantity.mantissa;
    let t = given.mantissa;
    let u = unit.mantissa;
    let tt = pow10(given.scale) as int;
    let uu = pow10(unit.scale) as int;
    let qq = pow10(quantity.scale) as int;
    lemma_pow10_small(given.scale);
    lemma_pow10_small(unit.scale);
    lemma_pow10_small(quantity.scale);
    lemma_pow10_small(2);
    lemma_exact_cents(q, t, u, cents, tt, uu, qq);
    lemma_exact_product(q, t, u, cents, tt, uu, qq);
    assert(u * pow10(2) == cents * uu);
    let exact = Dec { mantissa: q * u, scale: quantity.scale + unit.scale };
    lemma_pow10_add(quantity.scale, unit.scale);
    lemma_price(quantity, unit);
    let total = price_of(quantity, unit)->0;
    assert(repair(p)->0.position.total_price == Some(total));
    if given.scale <= 2 {
        lemma_kept_total(
            total,
            q * u,
            quantity.scale + unit.scale,
            given,
            q * u * tt - t * uu * qq,
            uu,
            qq,
        );
    }
}

/// An amount in cents that is within half a cent of another is that amount.
#[verifier::spinoff_prover]
proof fn lemma_kept_total(total: Dec, n: int, scale: nat, given: Dec, x: int, uu: int, qq: int)
    requires
        within_half_cent(total, n, scale),
        given.scale <= 2,
        pow10(scale) == qq * uu,
        qq > 0,
        uu > 0,
        x == n * pow10(given.scale) - given.mantissa * uu * qq,
        x == 0,
    ensures
        total.equals(given),
{
    lemma_pow10_small(total.scale);
    lemma_pow10_small(given.scale);
    lemma_pow10_small(scale);
    let a = total.mantissa;
    let g = given.mantissa;
    let aa = pow10(total.scale) as int;
    let gg = pow10(given.scale) as int;
    let ss = pow10(scale) as int;
    let z = a * gg - g * aa;
    let w = a * ss - n * aa;
    assert(gg * w == ss * z) by {
        lemma_minus(gg, a * ss, n * aa);
        lemma_minus(ss, a * gg, g * aa);
        assert(gg * (a * ss) == ss * (a * gg)) by (nonlinear_arith);
        assert(gg * (n * aa) == aa * (n * gg)) by (nonlinear_arith);
        assert(aa * (g * uu * qq) == (qq * uu) * (g * aa)) by (nonlinear_arith);
    }
    assert(gg * magnitude(w) as int == ss * magnitude(z) as int) by (nonlinear_arith)
        requires
            gg * w == ss * z,
            gg > 0,
            ss > 0,
    ;
    assert(200 * (gg * magnitude(w) as int) <= gg * (aa * ss)) by (nonlinear_arith)
        requires
            200 * magnitude(w) as int <= aa * ss,
            gg > 0,
    ;
    let left = 200 * magnitude(z) as int;
    assert(ss * left <= ss * (gg * aa)) by (nonlinear_arith)
        requires
            200 * (ss * magnitude(z) as int) <= gg * (aa * ss),
            left == 200 * magnitude(z) as int,
    ;
    assert(left <= gg * aa) by (nonlinear_arith)
        requires
            ss * left <= ss * (gg * aa),
            ss > 0,
    ;
    if aa == 1 && gg == 1 {
        assert(z == a - g && gg * aa == 1) by (nonlinear_arith)
            requires
                z == a * gg - g * aa,
                aa == 1,
                gg == 1,
        ;
        assert(z == 0);
    } else if aa == 1 && gg == 10 {
        assert(z == 10 * a - g && gg * aa == 10) by (nonlinear_arith)
            requires
                z == a * gg - g * aa,
                aa == 1,
                gg == 10,
        ;
        assert(z == 0);
    } else if aa == 1 && gg == 100 {
        assert(z == 100 * a - g && gg * aa == 100) by (nonlinear_arith)
            requires
                z == a * gg - g * aa,
                aa == 1,
                gg == 100,
        ;
        assert(z == 0);
    } else if aa == 10 && gg == 1 {
        assert(z == a - 10 * g && gg * aa == 10) by (nonlinear_arith)
            requires
                z == a * gg - g * aa,
                aa == 10,
                gg == 1,
        ;
        assert(z == 0);
    } else if aa == 10 && gg == 10 {
        assert(z == 10 * a - 10 * g && gg * aa == 100) by (nonlinear_arith)
            requires
                z == a * gg - g * aa,
                aa == 10,
                gg == 10,
        ;
        assert(z == 0);
    } else if aa == 10 && gg == 100 {
        assert(z == 100 * a - 10 * g && gg * aa == 1000) by (nonlinear_arith)
            requires
                z == a * gg - g * aa,
                aa == 10,
                gg == 100,
        ;
        assert(z == 0);
    } else if aa == 100 && gg == 1 {
        assert(z == a - 100 * g && gg * aa == 100) by (nonlinear_arith)
            requires
                z == a * gg - g * aa,
                aa == 100,
                gg == 1,
        ;
        assert(z == 0);
    } else if aa == 100 && gg == 10 {
        assert(z == 10 * a - 100 * g && gg * aa == 1000) by (nonlinear_arith)
            requires
                z == a * gg - g * aa,
                aa == 100,
                gg == 10,
        ;
        assert(z == 0);
    } else if aa == 100 && gg == 100 {
        assert(z == 100 * a - 100 * g && gg * aa == 10000) by (nonlinear_arith)
            requires
                z == a * gg - g * aa,
                aa == 100,
                gg == 100,
        ;
        assert(z == 0);
    }
    assert(z == 0);
}

/// Taking one number from another without loss.
#[verifier::spinoff_prover]
pub proof fn lemma_difference(a: Dec, b: Dec)
    requires
        magnitude(a.mantissa) <= 10_000_000_000_000_000_000_000,
        magnitude(b.mantissa) <= 10_000_000_000_000_000_000_000,
        a.scale <= 6,
        b.scale <= 6,
    ensures
        subtracted(a, b) is Some,
        subtracted(a, b)->0.mantissa * pow10(a.scale) * pow10(b.scale) == (a.mantissa * pow10(
            b.scale,
        ) - b.mantissa * pow10(a.scale)) * pow10(subtracted(a, b)->0.scale),
{
    let n = negated(b);
    let scale = if a.scale >= b.scale {
        a.scale
    } else {
        b.scale
    };
    let x = mantissa_at(a, scale);
    let y = mantissa_at(n, scale);
    let aa = pow10(a.scale) as int;
    let bb = pow10(b.scale) as int;
    lemma_pow10_small(a.scale);
    lemma_pow10_small(b.scale);
    lemma_pow10_small((scale - a.scale) as nat);
    lemma_pow10_small((scale - b.scale) as nat);
    lemma_pow10_add(a.scale, (scale - a.scale) as nat);
    lemma_pow10_add(b.scale, (scale - b.scale) as nat);
    let ka = pow10((scale - a.scale) as nat) as int;
    let kb = pow10((scale - b.scale) as nat) as int;
    let m = pow10(scale) as int;
    assert(m == aa * ka && m == bb * kb);
    assert(magnitude(x) <= 10_000_000_000_000_000_000_000_000_000) by (nonlinear_arith)
        requires
            x == a.mantissa * ka,
            magnitude(a.mantissa) <= 10_000_000_000_000_000_000_000,
            0 < ka <= 1_000_000,
    ;
    assert(magnitude(y) <= 10_000_000_000_000_000_000_000_000_000) by (nonlinear_arith)
        requires
            y == n.mantissa * kb,
            magnitude(n.mantissa) <= 10_000_000_000_000_000_000_000,
            0 < kb <= 1_000_000,
    ;
    assert(exact_sum(a, n) is Some);
    let r = subtracted(a, b)->0;
    let right = a.mantissa * bb - b.mantissa * aa;
    if a.mantissa == 0 {
        assert(r == n);
        assert(0 * bb == 0);
        assert(right == -(b.mantissa * aa));
        assert((-b.mantissa) * aa * bb == right * bb) by (nonlinear_arith)
            requires
                right == -(b.mantissa * aa),
        ;
    } else if n.mantissa == 0 {
        assert(r == a);
        assert(0 * aa == 0);
        assert(right == a.mantissa * bb);
        assert(a.mantissa * aa * bb == right * aa) by (nonlinear_arith)
            requires
                right == a.mantissa * bb,
        ;
    } else {
        assert(r == Dec { mantissa: x + y, scale });
        assert(x * aa * bb == a.mantissa * bb * m) by (nonlinear_arith)
            requires
                x == a.mantissa * ka,
                m == aa * ka,
        ;
        assert(y * aa * bb == -(b.mantissa * aa * m)) by (nonlinear_arith)
            requires
                y == (-b.mantissa) * kb,
                m == bb * kb,
        ;
        assert((x + y) * aa * bb == x * aa * bb + y * aa * bb) by (nonlinear_arith);
        assert(right * m == a.mantissa * bb * m - b.mantissa * aa * m) by (nonlinear_arith)
            requires
                right == a.mantissa * bb - b.mantissa * aa,
        ;
    }
}

/// Two amounts agree where they differ by two cents at most.
#[verifier::spinoff_prover]
proof fn lemma_agree(a: Dec, b: Dec)
    requires
        magnitude(a.mantissa) <= 10_000_000_000_000_000_000_000,
        magnitude(b.mantissa) <= 10_000_000_000_000_000_000_000,
        a.scale <= 6,
        b.scale <= 6,
    ensures
        agree(a, b) == Some(
            100 * magnitude(a.mantissa * pow10(b.scale) - b.mantissa * pow10(a.scale)) <= 2 * (pow10(
                a.scale,
            ) * pow10(b.scale)),
        ),
{
    lemma_difference(a, b);
    lemma_pow10_small(2);
    lemma_pow10_small(a.scale);
    lemma_pow10_small(b.scale);
    let r = subtracted(a, b)->0;
    lemma_pow10_small(r.scale);
    let rr = pow10(r.scale) as int;
    let f = pow10(a.scale) as int * pow10(b.scale) as int;
    let x = a.mantissa * pow10(b.scale) - b.mantissa * pow10(a.scale);
    assert(f > 0) by (nonlinear_arith)
        requires
            f == pow10(a.scale) as int * pow10(b.scale) as int,
            pow10(a.scale) > 0,
            pow10(b.scale) > 0,
    ;
    assert(r.mantissa * f == x * rr) by (nonlinear_arith)
        requires
            r.mantissa * pow10(a.scale) * pow10(b.scale) == x * rr,
            f == pow10(a.scale) as int * pow10(b.scale) as int,
    ;
    let n = magnitude(r.mantissa) as int;
    let d = magnitude(x) as int;
    assert(n * f == d * rr) by (nonlinear_arith)
        requires
            r.mantissa * f == x * rr,
            f > 0,
            rr > 0,
            n == magnitude(r.mantissa) as int,
            d == magnitude(x) as int,
    ;
    assert(n * 100 <= 2 * rr <==> 100 * d <= 2 * f) by (nonlinear_arith)
        requires
            n * f == d * rr,
            f > 0,
            rr > 0,
    {
        if n * 100 <= 2 * rr {
            assert(n * 100 * f <= 2 * rr * f) by (nonlinear_arith)
                requires
                    n * 100 <= 2 * rr,
                    f > 0,
            ;
            assert(100 * d * rr <= 2 * f * rr);
        }
        if 100 * d <= 2 * f {
            assert(100 * d * rr <= 2 * f * rr) by (nonlinear_arith)
                requires
                    100 * d <= 2 * f,
                    rr > 0,
            ;
            assert(n * 100 * f <= 2 * rr * f);
        }
    }
    assert(r.abs().mantissa == n);
}

/// Whether quantity times unit price is off a total by at most this many cents.
pub open spec fn off_by_cents(quantity: Dec, unit: Dec, total: Dec, cents: nat) -> bool {
    100 * magnitude(
        quantity.mantissa * unit.mantissa * pow10(total.scale) - total.mantissa * pow10(
            quantity.scale + unit.scale,
        ),
    ) <= cents * pow10(quantity.scale + unit.scale) * pow10(total.scale)
}

#[verifier::spinoff_prover]
proof fn lemma_modest_price(quantity: Dec, unit: Dec)
    requires
        modest(quantity),
        modest(unit),
    ensures
        (Dec {
            mantissa: quantity.mantissa * unit.mantissa,
            scale: quantity.scale + unit.scale,
        }).fits(),
        price_of(quantity, unit) is Some,
        magnitude(price_of(quantity, unit)->0.mantissa) <= 10_000_000_000_000_000_000_000,
        price_of(quantity, unit)->0.scale <= 2,
        within_half_cent(
            price_of(quantity, unit)->0,
            quantity.mantissa * unit.mantissa,
            quantity.scale + unit.scale,
        ),
{
    let n = quantity.mantissa * unit.mantissa;
    assert(magnitude(n) < 10_000_000_000_000_000_000_000) by (nonlinear_arith)
        requires
            n == quantity.mantissa * unit.mantissa,
            magnitude(quantity.mantissa) < 100_000_000_000,
            magnitude(unit.mantissa) < 100_000_000_000,
    ;
    lemma_price(quantity, unit);
    let d = multiplied(quantity, unit)->0;
    lemma_rounded(d);
    assert(magnitude(d.mantissa) < 10_000_000_000_000_000_000_000);
    if d.scale > 2 {
        let e = pow10((d.scale - 2) as nat) as int;
        let u = to_cents(d).mantissa;
        assert(magnitude(u) <= magnitude(d.mantissa) + 1) by (nonlinear_arith)
            requires
                e > 0,
                -e <= 2 * (u * e - d.mantissa) <= e,
        {
            if u > 0 {
                assert(u <= u * e - e + 1) by (nonlinear_arith)
                    requires
                        u > 0,
                        e > 0,
                ;
            } else if u < 0 {
                assert(-u <= -(u * e) - e + 1) by (nonlinear_arith)
                    requires
                        u < 0,
                        e > 0,
                ;
            }
        }
    }
}

/// A total that is near quantity times unit price agrees with it, one that is far off
/// does not.
#[verifier::spinoff_prover]
proof fn lemma_agreement(quantity: Dec, unit: Dec, total: Dec)
    requires
        modest(quantity),
        modest(unit),
        modest(total),
    ensures
        price_of(quantity, unit) is Some,
        agree(price_of(quantity, unit)->0, total) is Some,
        off_by_cents(quantity, unit, total, 1) ==> agree(price_of(quantity, unit)->0, total) == Some(
            true,
        ),
        !off_by_cents(quantity, unit, total, 3) ==> agree(price_of(quantity, unit)->0, total)
            == Some(false),
{
    lemma_modest_price(quantity, unit);
    let expected = price_of(quantity, unit)->0;
    lemma_agree(expected, total);
    let n = quantity.mantissa * unit.mantissa;
    let m = total.mantissa;
    let a = expected.mantissa;
    let ss = pow10(quantity.scale + unit.scale) as int;
    let tt = pow10(total.scale) as int;
    let aa = pow10(expected.scale) as int;
    lemma_pow10_small(quantity.scale + unit.scale);
    lemma_pow10_small(total.scale);
    lemma_pow10_small(expected.scale);
    let x = a * tt - m * aa;
    let y = a * ss - n * aa;
    let z = n * tt - m * ss;
    assert(ss * x == tt * y + aa * z) by {
        lemma_minus(ss, a * tt, m * aa);
        lemma_minus(tt, a * ss, n * aa);
        lemma_minus(aa, n * tt, m * ss);
        assert(ss * (a * tt) == tt * (a * ss)) by (nonlinear_arith);
        assert(tt * (n * aa) == aa * (n * tt)) by (nonlinear_arith);
        assert(ss * (m * aa) == aa * (m * ss)) by (nonlinear_arith);
    }
    let f = aa * tt;
    let g = aa * tt * ss;
    let h = ss * tt;
    assert(magnitude(ss * x) as int == ss * magnitude(x) as int) by (nonlinear_arith)
        requires
            ss > 0,
    ;
    assert(magnitude(tt * y) as int == tt * magnitude(y) as int) by (nonlinear_arith)
        requires
            tt > 0,
    ;
    assert(magnitude(aa * z) as int == aa * magnitude(z) as int) by (nonlinear_arith)
        requires
            aa > 0,
    ;
    assert(200 * (tt * magnitude(y) as int) <= g) by (nonlinear_arith)
        requires
            200 * magnitude(y) as int <= aa * ss,
            tt > 0,
            g == aa * tt * ss,
    ;
    assert(g == ss * f) by (nonlinear_arith)
        requires
            g == aa * tt * ss,
            f == aa * tt,
    ;
    assert(g == aa * h) by (nonlinear_arith)
        requires
            g == aa * tt * ss,
            h == ss * tt,
    ;
    let p = magnitude(x) as int;
    let q = magnitude(z) as int;
    if off_by_cents(quantity, unit, total, 1) {
        assert(100 * q <= h);
        assert(100 * (aa * q) <= g) by (nonlinear_arith)
            requires
                100 * q <= h,
                aa > 0,
                g == aa * h,
        ;
        assert(200 * (ss * p) <= 3 * g);
        assert(200 * p <= 3 * f) by (nonlinear_arith)
            requires
                200 * (ss * p) <= 3 * (ss * f),
                ss > 0,
        ;
        assert(f > 0) by (nonlinear_arith)
            requires
                f == aa * tt,
                aa > 0,
                tt > 0,
        ;
    }
    if !off_by_cents(quantity, unit, total, 3) {
        assert(3 * ss * tt == 3 * h) by (nonlinear_arith)
            requires
                h == ss * tt,
        ;
        assert(100 * q > 3 * h);
        assert(100 * (aa * q) > 3 * g) by (nonlinear_arith)
            requires
                100 * q > 3 * h,
                aa > 0,
                g == aa * h,
        ;
        assert(magnitude(aa * z) <= magnitude(ss * x) + magnitude(tt * y));
        assert(200 * (ss * p) > 5 * g);
        assert(200 * p > 5 * f) by (nonlinear_arith)
            requires
                200 * (ss * p) > 5 * (ss * f),
                ss > 0,
        ;
        assert(f > 0) by (nonlinear_arith)
            requires
                f == aa * tt,
                aa > 0,
                tt > 0,
        ;
    }
}

/// Where no total is given, it is worked out: quantity times unit price, to half a cent.
/// The unit price and the rest of the position stay as they are, and what was worked out
/// is told.
pub proof fn law_unit_price_gives_total(p: PositionView)
    requires
        looked_at(p),
        p.unit_price is Some,
        p.total_price is None,
        (Dec {
            mantissa: p.quantity->0.mantissa * p.unit_price->0.mantissa,
            scale: p.quantity->0.scale + p.unit_price->0.scale,
        }).fits(),
    ensures
        repair(p) is Some,
        ({
            let r = repair(p)->0;
            &&& same_but_prices(r.position, p)
            &&& r.position.unit_price == p.unit_price
            &&& r.position.total_price is Some
            &&& within_half_cent(
                r.position.total_price->0,
                p.quantity->0.mantissa * p.unit_price->0.mantissa,
                p.quantity->0.scale + p.unit_price->0.scale,
            )
            &&& r.warnings == seq![
                "GP berechnet: "@ + p.oz + " – "@ + amount(r.position.total_price->0),
            ]
        }),
{
    lemma_price(p.quantity->0, p.unit_price->0);
}

/// Where both prices are given, a total that is off by at most a cent is put in cents and
/// nothing is said. A total that is off by more than three cents while the prices fit the
/// other way round, to a cent, has changed places with the unit price, and they change
/// back. A total that is off by more than three cents either way is worked out anew from
/// the unit price. Whatever changes more than that is told.
#[verifier::spinoff_prover]
pub proof fn law_both_prices_settled(p: PositionView)
    requires
        looked_at(p),
        modest_prices(p),
        p.unit_price is Some,
        p.total_price is Some,
    ensures
        repair(p) is Some,
        ({
            let quantity = p.quantity->0;
            let unit = p.unit_price->0;
            let total = p.total_price->0;
            let r = repair(p)->0;
            let product = quantity.mantissa * unit.mantissa;
            let scale = quantity.scale + unit.scale;
            &&& same_but_prices(r.position, p)
            &&& r.position.unit_price is Some && r.position.total_price is Some
            &&& r.position.unit_price == Some(unit) || r.position.unit_price == Some(total)
            &&& off_by_cents(quantity, unit, total, 1) ==> r.position.unit_price == Some(unit)
                && within_half_cent(r.position.total_price->0, product, scale) && r.warnings.len()
                == 0
            &&& !off_by_cents(quantity, unit, total, 3) && off_by_cents(quantity, total, unit, 1)
                ==> r.position.unit_price == Some(total) && within_half_cent(
                r.position.total_price->0,
                unit.mantissa,
                unit.scale,
            ) && r.warnings == seq![
                "Preis korrigiert: "@ + p.oz + " – EP und GP waren wahrscheinlich vertauscht"@,
            ]
            &&& !off_by_cents(quantity, unit, total, 3) && !off_by_cents(quantity, total, unit, 3)
                ==> r.position.unit_price == Some(unit) && within_half_cent(
                r.position.total_price->0,
                product,
                scale,
            ) && r.warnings == seq![
                "Preis korrigiert: "@ + p.oz + " – GP "@ + amount(total)
                    + " wurde aus Menge × EP als "@ + amount(r.position.total_price->0)
                    + " neu berechnet"@,
            ]
        }),
{
    let quantity = p.quantity->0;
    let unit = p.unit_price->0;
    let total = p.total_price->0;
    lemma_agreement(quantity, unit, total);
    lemma_agreement(quantity, total, unit);
    lemma_modest_price(quantity, unit);
    lemma_cents_close(unit);
}

/// A position that is left out, that asks for a unit price only, that has no quantity or
/// the quantity zero, or that has neither price stays as it is, and nothing is said of it.
pub proof fn law_nothing_to_repair(p: PositionView)
    requires
        !looked_at(p) || (p.unit_price is None && p.total_price is None),
    ensures
        repair(p) == Some(Repair { position: p, warnings: seq![] }),
{
}

/// The arithmetic on a total of which the unit price is worked out goes through.
#[verifier::spinoff_prover]
pub proof fn lemma_division_goes_through(p: PositionView)
    requires
        looked_at(p),
        modest_prices(p),
        p.unit_price is None,
        p.total_price is Some,
    ensures
        small_quotient(p.total_price->0, p.quantity->0),
        divided(p.total_price->0, p.quantity->0) is Some ==> repair(p) is Some,
{
    let quantity = p.quantity->0;
    let given = p.total_price->0;
    let q = magnitude(quantity.mantissa) as int;
    let t = magnitude(given.mantissa) as int;
    let tt = pow10(given.scale) as int;
    let qq = pow10(quantity.scale) as int;
    lemma_pow10_small(given.scale);
    lemma_pow10_small(quantity.scale);
    assert(t * qq <= 100_000_000_000_000_000) by (nonlinear_arith)
        requires
            0 <= t < 100_000_000_000,
            0 < qq <= 1_000_000,
    ;
    assert(q * tt >= 1) by (nonlinear_arith)
        requires
            q >= 1,
            tt >= 1,
    ;
    assert(small_quotient(given, quantity));
    if divided(given, quantity) is Some {
        let unit = to_cents(divided(given, quantity)->0);
        lemma_unit_from_total(quantity, given);
        let uu = pow10(unit.scale) as int;
        lemma_pow10_small(unit.scale);
        let n = quantity.mantissa * unit.mantissa;
        let x = n * tt - given.mantissa * uu * qq;
        let v = given.mantissa * uu * qq;
        let w = q * tt * uu;
        assert(magnitude(v) as int == t * uu * qq) by (nonlinear_arith)
            requires
                v == given.mantissa * uu * qq,
                t == magnitude(given.mantissa) as int,
                uu > 0,
                qq > 0,
        ;
        assert(20 * t * uu * qq == 20 * (t * uu * qq)) by (nonlinear_arith);
        assert(t * uu * qq <= 100 * tt * 100_000_000_000_000_000) by (nonlinear_arith)
            requires
                t * qq <= 100_000_000_000_000_000,
                t >= 0,
                qq > 0,
                0 < uu <= 100,
                tt >= 1,
        ;
        assert(w <= 100 * tt * 100_000_000_000) by (nonlinear_arith)
            requires
                w == q * tt * uu,
                0 <= q < 100_000_000_000,
                0 < uu <= 100,
                tt >= 1,
        ;
        assert(magnitude(n * tt) <= magnitude(x) + magnitude(v));
        assert(magnitude(n * tt) as int <= 1_000_000_000_000_000_000_000 * tt);
        assert(magnitude(n) <= 1_000_000_000_000_000_000_000) by (nonlinear_arith)
            requires
                magnitude(n * tt) as int <= 1_000_000_000_000_000_000_000 * tt,
                tt >= 1,
        {
            assert(magnitude(n * tt) as int == magnitude(n) as int * tt) by (nonlinear_arith)
                requires
                    tt >= 1,
            ;
        }
        lemma_price(quantity, unit);
    }
}

/// A bill in which quantities and prices are of ordinary size is repaired, as far as its
/// unit prices need not be worked out from totals.
pub proof fn lemma_repair_goes_through(p: PositionView)
    requires
        modest_prices(p),
        looked_at(p) && p.unit_price is None && p.total_price is Some ==> divided(
            p.total_price->0,
            p.quantity->0,
        ) is Some,
    ensures
        repair(p) is Some,
{
    if looked_at(p) {
        if p.unit_price is Some && p.total_price is Some {
            law_both_prices_settled(p);
        } else if p.unit_price is Some {
            lemma_modest_price(p.quantity->0, p.unit_price->0);
        } else if p.total_price is Some {
            lemma_division_goes_through(p);
        }
    }
}

proof fn lemma_positions_repaired(v: Seq<PositionView>, n: nat)
    requires
        n <= v.len(),
        repaired_positions(v, n) is Some,
    ensures
        each_repaired(v.take(n as int), (repaired_positions(v, n)->0).0),
        (repaired_positions(v, n)->0).1 == said_of(v.take(n as int)),
    decreases n,
{
    if n > 0 {
        lemma_positions_repaired(v, (n - 1) as nat);
        let all = v.take(n as int);
        assert(all.drop_last() =~= v.take(n - 1));
        assert(all.last() == v[n - 1]);
        let before = (repaired_positions(v, (n - 1) as nat)->0).0;
        let done = (repaired_positions(v, n)->0).0;
        let next = repair(v[n - 1])->0;
        assert(done == before.push(next.position));
        assert forall|j: int| #![trigger done[j]] 0 <= j < done.len() implies repair(all[j]) is Some
            && done[j] == repair(all[j])->0.position by {
            if j < n - 1 {
                assert(done[j] == before[j]);
                assert(all[j] == v.take(n - 1)[j]);
            }
        }
    } else {
        assert(v.take(0) =~= seq![]);
    }
}

/// What is said of positions, one behind the other.
pub open spec fn said_of(v: Seq<PositionView>) -> Seq<Seq<char>>
    decreases v.len(),
{
    if v.len() == 0 {
        seq![]
    } else {
        said_of(v.drop_last()) + (match repair(v.last()) {
            Some(r) => r.warnings,
            None => seq![],
        })
    }
}

proof fn lemma_said_concat(a: Seq<PositionView>, b: Seq<PositionView>)
    ensures
        said_of(a + b) == said_of(a) + said_of(b),
    decreases b.len(),
{
    if b.len() == 0 {
        assert(a + b =~= a);
        assert(said_of(a) + said_of(b) =~= said_of(a));
    } else {
        assert((a + b).drop_last() =~= a + b.drop_last());
        lemma_said_concat(a, b.drop_last());
        assert(said_of(a + b) =~= said_of(a) + said_of(b));
    }
}

/// Whether positions are others that were repaired, one by one.
pub open spec fn each_repaired(before: Seq<PositionView>, after: Seq<PositionView>) -> bool {
    &&& after.len() == before.len()
    &&& forall|j: int| #![trigger after[j]]
        0 <= j < after.len() ==> repair(before[j]) is Some && after[j] == repair(
            before[j],
        )->0.position
}

proof fn lemma_each_concat(
    a: Seq<PositionView>,
    b: Seq<PositionView>,
    c: Seq<PositionView>,
    d: Seq<PositionView>,
)
    requires
        each_repaired(a, b),
        each_repaired(c, d),
    ensures
        each_repaired(a + c, b + d),
{
    let all = b + d;
    assert forall|j: int| #![trigger all[j]] 0 <= j < all.len() implies repair((a + c)[j]) is Some
        && all[j] == repair((a + c)[j])->0.position by {
        if j < b.len() {
            assert(all[j] == b[j]);
        } else {
            assert(all[j] == d[j - b.len()]);
        }
    }
}

proof fn lemma_tree_repaired(nodes: Seq<NodeView>)
    requires
        repaired_tree(nodes) is Some,
    ensures
        each_repaired(positions_of(nodes), positions_of((repaired_tree(nodes)->0).0)),
        (repaired_tree(nodes)->0).1 == said_of(positions_of(nodes)),
    decreases nodes,
{
    if nodes.len() > 0 {
        let node = nodes.last();
        let front = nodes.drop_last();
        lemma_tree_repaired(front);
        lemma_tree_repaired(node.children);
        lemma_positions_repaired(node.positions, node.positions.len());
        assert(node.positions.take(node.positions.len() as int) =~= node.positions);
        let (done, said) = repaired_tree(nodes)->0;
        let (before, first) = repaired_tree(front)->0;
        let (positions, own) = repaired_positions(node.positions, node.positions.len())->0;
        let (children, below) = repaired_tree(node.children)->0;
        assert(done.drop_last() =~= before);
        lemma_each_concat(positions_of(front), positions_of(before), node.positions, positions);
        lemma_each_concat(
            positions_of(front) + node.positions,
            positions_of(before) + positions,
            positions_of(node.children),
            positions_of(children),
        );
        lemma_said_concat(positions_of(front), node.positions);
        lemma_said_concat(positions_of(front) + node.positions, positions_of(node.children));
    } else {
        assert(positions_of((repaired_tree(nodes)->0).0) =~= positions_of(nodes));
    }
}

/// Repairing a bill repairs its positions one by one, and leaves them where they are. What
/// is said of them stands, in their order, behind the warnings on other things than prices;
/// what was said of prices before is gone.
pub proof fn law_bill_repaired(boq: BoqView)
    requires
        with_repaired_prices(boq) is Some,
    ensures
        ({
            let after = with_repaired_prices(boq)->0;
            &&& each_repaired(positions_of(boq.roots), positions_of(after.roots))
            &&& after.warnings == other_warnings(boq.warnings) + said_of(positions_of(boq.roots))
            &&& after.source == boq.source && after.project == boq.project
            &&& after.client == boq.client && after.bidder == boq.bidder
            &&& after.currency == boq.currency && after.preamble == boq.preamble
        }),
{
    lemma_tree_repaired(boq.roots);
}

/// A warning stays behind a repair if and only if it does not start like one of those that
/// a check of prices leaves.
pub proof fn law_other_warnings_stay(w: Seq<Seq<char>>, i: int)
    requires
        0 <= i < w.len(),
    ensures
        !"Preisabweichung "@.is_prefix_of(w[i]) && !"Preis korrigiert: "@.is_prefix_of(w[i])
            && !"EP berechnet: "@.is_prefix_of(w[i]) && !"GP berechnet: "@.is_prefix_of(w[i])
            ==> other_warnings(w).contains(w[i]),
        forall|j: int| #![trigger other_warnings(w)[j]]
            0 <= j < other_warnings(w).len() ==> {
                let kept = other_warnings(w)[j];
                &&& w.contains(kept)
                &&& !"Preisabweichung "@.is_prefix_of(kept)
                &&& !"Preis korrigiert: "@.is_prefix_of(kept)
                &&& !"EP berechnet: "@.is_prefix_of(kept)
                &&& !"GP berechnet: "@.is_prefix_of(kept)
            },
    decreases w.len(),
{
    let front = w.drop_last();
    let kept = other_warnings(w);
    let before = other_warnings(front);
    if front.len() > 0 {
        law_other_warnings_stay(
            front,
            if i < front.len() {
                i
            } else {
                0
            },
        );
    }
    if i < front.len() {
        assert(front[i] == w[i]);
        if before.contains(w[i]) {
            let j = choose|j: int| 0 <= j < before.len() && before[j] == w[i];
            assert(kept[j] == w[i]);
        }
    } else if kept.len() > before.len() {
        assert(kept[before.len() as int] == w[i]);
    }
    assert forall|j: int| #![trigger kept[j]] 0 <= j < kept.len() implies {
        let k = kept[j];
        &&& w.contains(k)
        &&& !"Preisabweichung "@.is_prefix_of(k)
        &&& !"Preis korrigiert: "@.is_prefix_of(k)
        &&& !"EP berechnet: "@.is_prefix_of(k)
        &&& !"GP berechnet: "@.is_prefix_of(k)
    } by {
        if j < before.len() {
            assert(kept[j] == before[j]);
            assert(front.contains(before[j]));
            let m = choose|m: int| 0 <= m < front.len() && front[m] == before[j];
            assert(w[m] == before[j]);
        } else {
            assert(kept[j] == w[w.len() - 1]);
        }
    }
}

} // verus!
