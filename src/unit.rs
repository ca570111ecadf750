//! Temperature units: conversion, names and parsing.
//!
//! Temperatures are held as integers in thousandths of a degree
//! (millidegrees). A conversion is computed exactly as a fraction and then
//! rounded once to the nearest step of the requested scale, halves upward.
use vstd::prelude::*;
use vstd::arithmetic::div_mod::{lemma_fundamental_div_mod, lemma_fundamental_div_mod_converse, lemma_mod_bound};
use crate::text::str_eq;

verus! {

#[derive(Clone, Copy, Debug, PartialEq, Eq, Structural)]
pub enum Unit {
    Celcius,
    Fahrenheit,
    Kelvin,
}

/// A temperature of `t` millidegrees in `from`, expressed in degrees of `to`
/// as the exact fraction `n / d` (with `d > 0`).
pub open spec fn ratio(from: Unit, to: Unit, t: int) -> (int, int) {
    match (from, to) {
        (Unit::Celcius, Unit::Fahrenheit) => (9 * t + 160000, 5000),
        (Unit::Celcius, Unit::Kelvin) => (t + 273150, 1000),
        (Unit::Fahrenheit, Unit::Celcius) => (5 * t - 160000, 9000),
        (Unit::Fahrenheit, Unit::Kelvin) => (5 * t + 2298350, 9000),
        (Unit::Kelvin, Unit::Celcius) => (t - 273150, 1000),
        (Unit::Kelvin, Unit::Fahrenheit) => (9 * t - 2298350, 5000),
        _ => (t, 1000),
    }
}

/// `n / d` rounded to the nearest integer, halves upward (`d > 0`).
pub open spec fn round_div(n: int, d: int) -> int {
    (2 * n + d) / (2 * d)
}

/// `t` millidegrees of `from`, converted to `to` and counted in steps of
/// `1 / scale` degree.
pub open spec fn converted(from: Unit, to: Unit, t: int, scale: int) -> int {
    round_div(scale * ratio(from, to, t).0, ratio(from, to, t).1)
}

/// `t` millidegrees of `from`, converted to millidegrees of `to`.
pub open spec fn convert_milli(from: Unit, to: Unit, t: int) -> int {
    converted(from, to, t, 1000)
}

pub open spec fn glyph(u: Unit) -> Seq<char> {
    match u {
        Unit::Celcius => "°C"@,
        Unit::Fahrenheit => "°F"@,
        Unit::Kelvin => "°K"@,
    }
}

pub open spec fn long_name(u: Unit) -> Seq<char> {
    match u {
        Unit::Celcius => "Celcius"@,
        Unit::Fahrenheit => "Fahrenheit"@,
        Unit::Kelvin => "Kelvin"@,
    }
}

pub open spec fn short_name(u: Unit) -> Seq<char> {
    match u {
        Unit::Celcius => "C"@,
        Unit::Fahrenheit => "F"@,
        Unit::Kelvin => "K"@,
    }
}

/// The unit that a token names: its glyph, a one-letter code in either case,
/// or its name, lower case or capitalised.
pub open spec fn unit_named(s: Seq<char>) -> Option<Unit> {
    if s == "°C"@ || s == "c"@ || s == "C"@ || s == "celcius"@ || s == "Celcius"@ {
        Some(Unit::Celcius)
    } else if s == "°F"@ || s == "f"@ || s == "F"@ || s == "fahrenheit"@ || s == "Fahrenheit"@ {
        Some(Unit::Fahrenheit)
    } else if s == "°K"@ || s == "k"@ || s == "K"@ || s == "kelvin"@ || s == "Kelvin"@ {
        Some(Unit::Kelvin)
    } else {
        None
    }
}

/// The bounds that define `round_div(n, d)`.
pub proof fn lemma_round_div_bounds(n: int, d: int)
    requires
        d > 0,
    ensures
        2 * d * round_div(n, d) <= 2 * n + d < 2 * d * round_div(n, d) + 2 * d,
{
    lemma_fundamental_div_mod(2 * n + d, 2 * d);
}

/// Converting to another unit and back moves a temperature by at most one
/// millidegree.
pub proof fn lemma_convert_round_trip(a: Unit, b: Unit, x: int)
    ensures
        -1 <= convert_milli(b, a, convert_milli(a, b, x)) - x <= 1,
{
    let y = convert_milli(a, b, x);
    match (a, b) {
        (Unit::Celcius, Unit::Fahrenheit) => {
            assert(y == round_div(1000 * (9 * x + 160000), 5000));
            assert(convert_milli(b, a, y) == round_div(1000 * (5 * y - 160000), 9000));
            lemma_round_div_bounds(1000 * (9 * x + 160000), 5000);
            lemma_round_div_bounds(1000 * (5 * y - 160000), 9000);
        },
        (Unit::Celcius, Unit::Kelvin) => {
            assert(y == round_div(1000 * (x + 273150), 1000));
            assert(convert_milli(b, a, y) == round_div(1000 * (y - 273150), 1000));
            lemma_round_div_bounds(1000 * (x + 273150), 1000);
            lemma_round_div_bounds(1000 * (y - 273150), 1000);
        },
        (Unit::Fahrenheit, Unit::Celcius) => {
            assert(y == round_div(1000 * (5 * x - 160000), 9000));
            assert(convert_milli(b, a, y) == round_div(1000 * (9 * y + 160000), 5000));
            lemma_round_div_bounds(1000 * (5 * x - 160000), 9000);
            lemma_round_div_bounds(1000 * (9 * y + 160000), 5000);
        },
        (Unit::Fahrenheit, Unit::Kelvin) => {
            assert(y == round_div(1000 * (5 * x + 2298350), 9000));
            assert(convert_milli(b, a, y) == round_div(1000 * (9 * y - 2298350), 5000));
            lemma_round_div_bounds(1000 * (5 * x + 2298350), 9000);
            lemma_round_div_bounds(1000 * (9 * y - 2298350), 5000);
        },
        (Unit::Kelvin, Unit::Celcius) => {
            assert(y == round_div(1000 * (x - 273150), 1000));
            assert(convert_milli(b, a, y) == round_div(1000 * (y + 273150), 1000));
            lemma_round_div_bounds(1000 * (x - 273150), 1000);
            lemma_round_div_bounds(1000 * (y + 273150), 1000);
        },
        (Unit::Kelvin, Unit::Fahrenheit) => {
            assert(y == round_div(1000 * (9 * x - 2298350), 5000));
            assert(convert_milli(b, a, y) == round_div(1000 * (5 * y + 2298350), 9000));
            lemma_round_div_bounds(1000 * (9 * x - 2298350), 5000);
            lemma_round_div_bounds(1000 * (5 * y + 2298350), 9000);
        },
        _ => {
            assert(y == round_div(1000 * x, 1000));
            assert(convert_milli(b, a, y) == round_div(1000 * y, 1000));
            lemma_round_div_bounds(1000 * x, 1000);
            lemma_round_div_bounds(1000 * y, 1000);
        },
    }
}

/// `floor(m / q)` for `q > 0`; Rust's `/` rounds toward zero instead.
fn floor_div(m: i128, q: i128) -> (r: i128)
    requires
        q > 0,
        m >= -0x1_0000_0000_0000_0000_0000_0000_0000,
    ensures
        r == m / q,
        m >= 0 ==> 0 <= r <= m,
        m < 0 ==> m <= r < 0,
{
    if m >= 0 {
        proof {
            lemma_fundamental_div_mod(m as int, q as int);
            lemma_mod_bound(m as int, q as int);
            let d = (m as int) / (q as int);
            assert(0 <= d <= m) by (nonlinear_arith)
                requires
                    q * d + (m as int) % (q as int) == m,
                    0 <= (m as int) % (q as int) < q,
                    m >= 0,
                    q >= 1,
            ;
        }
        m / q
    } else {
        let p = -m;
        let qq = p / q;
        let rr = p % q;
        proof {
            lemma_fundamental_div_mod(p as int, q as int);
            lemma_mod_bound(p as int, q as int);
            assert(0 <= qq <= p) by (nonlinear_arith)
                requires
                    q * qq + rr == p,
                    0 <= rr < q,
                    p > 0,
            ;
        }
        let c = qq + (if rr == 0 { 0i128 } else { 1i128 });
        proof {
            if rr == 0 {
                assert(m == (-c) * q + 0) by (nonlinear_arith)
                    requires
                        q * qq + rr == p,
                        rr == 0,
                        c == qq,
                        m == -p,
                ;
                lemma_fundamental_div_mod_converse(m as int, q as int, -c as int, 0);
            } else {
                assert(m == (-c) * q + (q - rr)) by (nonlinear_arith)
                    requires
                        q * qq + rr == p,
                        c == qq + 1,
                        m == -p,
                ;
                lemma_fundamental_div_mod_converse(m as int, q as int, -c as int, q - rr);
            }
            assert(c <= p) by (nonlinear_arith)
                requires
                    q * qq + rr == p,
                    c == qq + (if rr == 0 { 0int } else { 1int }),
                    0 <= rr < q,
                    q >= 1,
                    qq >= 0,
            ;
            assert(c >= 1) by (nonlinear_arith)
                requires
                    q * qq + rr == p,
                    c == qq + (if rr == 0 { 0int } else { 1int }),
                    0 <= rr < q,
                    p > 0,
                    qq >= 0,
            ;
        }
        -c
    }
}

/// `t` millidegrees of `from` in steps of `1 / scale` degree of `to`.
pub(crate) fn convert_scaled(from: Unit, to: Unit, t: i128, scale: i128) -> (r: i128)
    requires
        -0x1_0000_0000_0000_0000 <= t <= 0x1_0000_0000_0000_0000,
        1 <= scale <= 1000,
    ensures
        r == converted(from, to, t as int, scale as int),
        -0x1_0000_0000_0000_0000_0000_0000 <= r <= 0x1_0000_0000_0000_0000_0000_0000,
{
    let (n, d): (i128, i128) = match (from, to) {
        (Unit::Celcius, Unit::Fahrenheit) => (9 * t + 160000, 5000),
        (Unit::Celcius, Unit::Kelvin) => (t + 273150, 1000),
        (Unit::Fahrenheit, Unit::Celcius) => (5 * t - 160000, 9000),
        (Unit::Fahrenheit, Unit::Kelvin) => (5 * t + 2298350, 9000),
        (Unit::Kelvin, Unit::Celcius) => (t - 273150, 1000),
        (Unit::Kelvin, Unit::Fahrenheit) => (9 * t - 2298350, 5000),
        _ => (t, 1000),
    };
    assert(-0x10_0000_0000_0000_0000 <= n <= 0x10_0000_0000_0000_0000);
    assert(-0x1_0000_0000_0000_0000_0000 <= scale * n <= 0x1_0000_0000_0000_0000_0000)
        by (nonlinear_arith)
        requires
            -0x10_0000_0000_0000_0000 <= n <= 0x10_0000_0000_0000_0000,
            1 <= scale <= 1000,
    ;
    floor_div(2 * (scale * n) + d, 2 * d)
}

impl Unit {
    /// This temperature in millidegrees, converted to `to`.
    pub fn convert_to(&self, to: &Unit, temp: i64) -> (r: i64)
        requires
            i64::MIN <= convert_milli(*self, *to, temp as int) <= i64::MAX,
        ensures
            r == convert_milli(*self, *to, temp as int),
    {
        Self::convert(self, to, temp)
    }

    /// `temp` millidegrees of `from`, converted to millidegrees of `to`,
    /// rounded to the nearest millidegree.
    pub fn convert(from: &Unit, to: &Unit, temp: i64) -> (r: i64)
        requires
            i64::MIN <= convert_milli(*from, *to, temp as int) <= i64::MAX,
        ensures
            r == convert_milli(*from, *to, temp as int),
    {
        convert_scaled(*from, *to, temp as i128, 1000) as i64
    }

    pub fn to_str_glyph(&self) -> (r: &'static str)
        ensures
            r@ == glyph(*self),
    {
        match self {
            Unit::Celcius => "°C",
            Unit::Fahrenheit => "°F",
            Unit::Kelvin => "°K",
        }
    }

    pub fn to_str_long(&self) -> (r: &'static str)
        ensures
            r@ == long_name(*self),
    {
        match self {
            Unit::Celcius => "Celcius",
            Unit::Fahrenheit => "Fahrenheit",
            Unit::Kelvin => "Kelvin",
        }
    }

    pub fn to_str_short(&self) -> (r: &'static str)
        ensures
            r@ == short_name(*self),
    {
        match self {
            Unit::Celcius => "C",
            Unit::Fahrenheit => "F",
            Unit::Kelvin => "K",
        }
    }

    /// The unit that `s` names, if any.
    pub fn from_str(s: &str) -> (r: Option<Unit>)
        ensures
            r == unit_named(s@),
    {
        if str_eq(s, "°C") || str_eq(s, "c") || str_eq(s, "C") || str_eq(s, "celcius") || str_eq(
            s,
            "Celcius",
        ) {
            Some(Unit::Celcius)
        } else if str_eq(s, "°F") || str_eq(s, "f") || str_eq(s, "F") || str_eq(s, "fahrenheit")
            || str_eq(s, "Fahrenheit") {
            Some(Unit::Fahrenheit)
        } else if str_eq(s, "°K") || str_eq(s, "k") || str_eq(s, "K") || str_eq(s, "kelvin")
            || str_eq(s, "Kelvin") {
            Some(Unit::Kelvin)
        } else {
            None
        }
    }
}

} // verus!
