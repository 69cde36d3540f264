//! Conversions between the simulation's length unit and feet, nautical miles
//! and knots.
//!
//! Lengths are held as integers of 1/22500 m. At that resolution a foot
//! (0.3048 m), a nautical mile (1852 m) and the distance covered in one tick
//! (one second) at one knot (1852/3600 m) are all whole numbers of units, so
//! converting a whole number of feet, nautical miles or knots is exact.
use vstd::prelude::*;
use vstd::arithmetic::div_mod::lemma_fundamental_div_mod_converse;
use vstd::arithmetic::div_mod::lemma_fundamental_div_mod;

verus! {

/// Length units in one meter.
pub const UNITS_PER_METER: i64 = 22500;

/// Length units in one foot.
pub const UNITS_PER_FOOT: i64 = 6858;

/// Length units in one nautical mile.
pub const UNITS_PER_NAUTICAL_MILE: i64 = 41670000;

/// Length units covered in one tick (one second) at one knot.
pub const UNITS_PER_KNOT: i64 = 11575;

/// `a / d` rounded to the nearest integer, halves away from zero.
pub open spec fn round_div(a: int, d: int) -> int
    recommends
        d > 0,
{
    if a >= 0 {
        (2 * a + d) / (2 * d)
    } else {
        -((2 * -a + d) / (2 * d))
    }
}

/// Dividing by a positive `d` and rounding gives back `q` from `q * d`.
pub proof fn lemma_round_div_multiple(q: int, d: int)
    requires
        d > 0,
    ensures
        round_div(q * d, d) == q,
{
    if q >= 0 {
        assert(q * d >= 0) by (nonlinear_arith)
            requires
                q >= 0,
                d > 0,
        ;
        assert(2 * (q * d) + d == q * (2 * d) + d) by (nonlinear_arith);
        lemma_fundamental_div_mod_converse(2 * (q * d) + d, 2 * d, q, d);
    } else {
        assert(q * d < 0) by (nonlinear_arith)
            requires
                q < 0,
                d > 0,
        ;
        assert(2 * -(q * d) + d == (-q) * (2 * d) + d) by (nonlinear_arith);
        lemma_fundamental_div_mod_converse(2 * -(q * d) + d, 2 * d, -q, d);
    }
}

/// `a / d` rounded to the nearest integer, halves away from zero.
pub fn rounded_div(a: i64, d: i64) -> (r: i64)
    requires
        d > 1,
    ensures
        r == round_div(a as int, d as int),
{
    let m: i128 = if a >= 0 {
        a as i128
    } else {
        -(a as i128)
    };
    let dd: i128 = 2 * (d as i128);
    let q: i128 = (2 * m + d as i128) / dd;
    proof {
        let x: int = 2 * (m as int) + (d as int);
        let e: int = dd as int;
        lemma_fundamental_div_mod(x, e);
        let qq: int = x / e;
        let rr: int = x % e;
        assert(qq >= 0) by (nonlinear_arith)
            requires
                x == e * qq + rr,
                0 <= rr < e,
                x > 0,
        ;
        assert(4 * qq <= e * qq) by (nonlinear_arith)
            requires
                qq >= 0,
                e >= 4,
        ;
        assert(qq < 0x8000_0000_0000_0000);
    }
    if a >= 0 {
        q as i64
    } else {
        -(q as i64)
    }
}

/// `m / d` for `m >= 0` rounded to the nearest integer, exact halves to the
/// even neighbour.
pub open spec fn round_half_even(m: int, d: int) -> int
    recommends
        m >= 0,
        d > 0,
{
    let q = m / d;
    let r = m % d;
    if 2 * r < d {
        q
    } else if 2 * r > d {
        q + 1
    } else if q % 2 == 0 {
        q
    } else {
        q + 1
    }
}

/// Scaling numerator and divisor by the same positive `k` keeps the quotient
/// rounded half to even.
pub proof fn lemma_round_half_even_cancel(m: int, d: int, k: int)
    requires
        m >= 0,
        d > 0,
        k > 0,
    ensures
        round_half_even(m * k, d * k) == round_half_even(m, d),
{
    lemma_fundamental_div_mod(m, d);
    let q = m / d;
    let r = m % d;
    assert(m * k == q * (d * k) + r * k && 0 <= r * k < d * k) by (nonlinear_arith)
        requires
            m == d * q + r,
            0 <= r < d,
            k > 0,
    ;
    lemma_fundamental_div_mod_converse(m * k, d * k, q, r * k);
    assert(2 * r < d <==> 2 * (r * k) < d * k) by (nonlinear_arith)
        requires
            k > 0,
    ;
    assert(2 * r > d <==> 2 * (r * k) > d * k) by (nonlinear_arith)
        requires
            k > 0,
    ;
}

/// `m / d` rounded to the nearest integer, exact halves to the even neighbour.
pub fn rounded_half_even(m: u64, d: u64) -> (r: u64)
    requires
        d > 1,
    ensures
        r == round_half_even(m as int, d as int),
        r <= m,
{
    let q = m / d;
    let rem = m % d;
    proof {
        lemma_fundamental_div_mod(m as int, d as int);
        assert(q * 2 <= q * d) by (nonlinear_arith)
            requires
                d >= 2,
                q >= 0,
        ;
        assert(m == d * q + rem);
    }
    let twice: u128 = 2 * (rem as u128);
    if twice < d as u128 {
        q
    } else if twice > d as u128 {
        assert(rem >= 1);
        q + 1
    } else if q % 2 == 0 {
        q
    } else {
        assert(rem >= 1);
        q + 1
    }
}

/// Whole feet as length units.
pub fn feet_to_units(feet: i32) -> (r: i64)
    ensures
        r == feet * UNITS_PER_FOOT,
{
    feet as i64 * UNITS_PER_FOOT
}

/// Whole nautical miles as length units.
pub fn nautical_miles_to_units(nm: i32) -> (r: i64)
    ensures
        r == nm * UNITS_PER_NAUTICAL_MILE,
{
    nm as i64 * UNITS_PER_NAUTICAL_MILE
}

/// Whole knots as length units per tick.
pub fn knots_to_units_per_tick(knots: i32) -> (r: i64)
    ensures
        r == knots * UNITS_PER_KNOT,
{
    knots as i64 * UNITS_PER_KNOT
}

/// Length units as feet, rounded to the nearest foot.
pub fn units_to_feet(units: i64) -> (r: i64)
    ensures
        r == round_div(units as int, UNITS_PER_FOOT as int),
{
    rounded_div(units, UNITS_PER_FOOT)
}

/// Length units as nautical miles, rounded to the nearest nautical mile.
pub fn units_to_nautical_miles(units: i64) -> (r: i64)
    ensures
        r == round_div(units as int, UNITS_PER_NAUTICAL_MILE as int),
{
    rounded_div(units, UNITS_PER_NAUTICAL_MILE)
}

/// Length units per tick as knots, rounded to the nearest knot.
pub fn units_per_tick_to_knots(units: i64) -> (r: i64)
    ensures
        r == round_div(units as int, UNITS_PER_KNOT as int),
{
    rounded_div(units, UNITS_PER_KNOT)
}

/// Converting whole feet, nautical miles or knots to length units and back
/// gives the original value.
pub proof fn lemma_unit_round_trip(v: i32)
    ensures
        round_div(v * UNITS_PER_FOOT, UNITS_PER_FOOT as int) == v,
        round_div(v * UNITS_PER_NAUTICAL_MILE, UNITS_PER_NAUTICAL_MILE as int) == v,
        round_div(v * UNITS_PER_KNOT, UNITS_PER_KNOT as int) == v,
{
    lemma_round_div_multiple(v as int, UNITS_PER_FOOT as int);
    lemma_round_div_multiple(v as int, UNITS_PER_NAUTICAL_MILE as int);
    lemma_round_div_multiple(v as int, UNITS_PER_KNOT as int);
}

} // verus!
