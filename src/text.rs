//! The label texts: flight levels and ground speeds as zero-padded decimals.
use vstd::prelude::*;
use crate::units::{UNITS_PER_FOOT, UNITS_PER_KNOT, round_half_even, rounded_half_even};

verus! {

/// The character of a decimal digit.
pub open spec fn digit_char(d: int) -> char {
    seq!['0', '1', '2', '3', '4', '5', '6', '7', '8', '9'][d]
}

/// The decimal digits of `n`, most significant first.
pub open spec fn decimal_digits(n: nat) -> Seq<char>
    decreases n,
{
    if n < 10 {
        seq![digit_char(n as int)]
    } else {
        decimal_digits(n / 10).push(digit_char((n % 10) as int))
    }
}

/// The magnitude `m` in decimal, after a `-` where `negative`.
pub open spec fn signed_decimal(negative: bool, m: nat) -> Seq<char> {
    if negative {
        seq!['-'] + decimal_digits(m)
    } else {
        decimal_digits(m)
    }
}

/// `n` written in decimal, with a leading `-` when negative.
pub open spec fn decimal(n: int) -> Seq<char> {
    if n < 0 {
        signed_decimal(true, (-n) as nat)
    } else {
        signed_decimal(false, n as nat)
    }
}

/// `s` filled on the left with `0` to at least three characters.
pub open spec fn pad3(s: Seq<char>) -> Seq<char> {
    if s.len() >= 3 {
        s
    } else {
        Seq::new((3 - s.len()) as nat, |i: int| '0') + s
    }
}

/// The text of flight level `level`, such as `FL100`, signed where the
/// altitude is below zero (so that `FL0-0` is just below sea level).
pub open spec fn flight_level_text(negative: bool, level: nat) -> Seq<char> {
    seq!['F', 'L'] + pad3(signed_decimal(negative, level))
}

/// The text of a ground speed of `knots`, such as `180` or `042`.
pub open spec fn speed_text(knots: int) -> Seq<char> {
    pad3(decimal(knots))
}

/// The magnitude of the flight level of an altitude of `z` length units:
/// hundreds of feet, rounded to the nearest, exact halves to even.
pub open spec fn flight_level(z: int) -> nat {
    let m = if z < 0 {
        -z
    } else {
        z
    };
    round_half_even(m, 100 * UNITS_PER_FOOT) as nat
}

/// The text of the flight level of an altitude of `z` length units.
pub open spec fn altitude_text(z: int) -> Seq<char> {
    flight_level_text(z < 0, flight_level(z))
}

/// `n` is `sqrt(s) / k` rounded to the nearest integer (halves up).
pub open spec fn is_rounded_root(n: int, s: int, k: int) -> bool {
    &&& n >= 0
    &&& (n == 0 || (2 * n - 1) * (2 * n - 1) * (k * k) <= 4 * s)
    &&& 4 * s < (2 * n + 1) * (2 * n + 1) * (k * k)
}

/// The horizontal ground speed, in whole knots, of a velocity of `(x, y)`
/// length units per tick.
pub open spec fn ground_speed_knots(x: int, y: int) -> int {
    choose|n: int| #[trigger] is_rounded_root(n, x * x + y * y, UNITS_PER_KNOT as int)
}

/// At most one integer is a rounded root.
pub proof fn lemma_rounded_root_unique(n1: int, n2: int, s: int, k: int)
    requires
        k > 0,
        is_rounded_root(n1, s, k),
        is_rounded_root(n2, s, k),
    ensures
        n1 == n2,
{
    if n1 < n2 {
        assert((2 * n1 + 1) * (2 * n1 + 1) * (k * k) <= (2 * n2 - 1) * (2 * n2 - 1) * (k * k))
            by (nonlinear_arith)
            requires
                0 <= n1 < n2,
                k > 0,
        ;
    } else if n2 < n1 {
        assert((2 * n2 + 1) * (2 * n2 + 1) * (k * k) <= (2 * n1 - 1) * (2 * n1 - 1) * (k * k))
            by (nonlinear_arith)
            requires
                0 <= n2 < n1,
                k > 0,
        ;
    }
}

/// A rounded root is the ground speed that `choose` names.
pub proof fn lemma_ground_speed_knots(n: int, x: int, y: int)
    requires
        is_rounded_root(n, x * x + y * y, UNITS_PER_KNOT as int),
    ensures
        ground_speed_knots(x, y) == n,
{
    let c = ground_speed_knots(x, y);
    lemma_rounded_root_unique(c, n, x * x + y * y, UNITS_PER_KNOT as int);
}

/// Scaling both components by `k` scales the rounded root's divisor alike.
pub proof fn lemma_rounded_root_scaled(n: int, x: int, y: int, k: int)
    requires
        k > 0,
    ensures
        is_rounded_root(n, (x * k) * (x * k) + (y * k) * (y * k), k) <==> is_rounded_root(
            n,
            x * x + y * y,
            1,
        ),
{
    let s = x * x + y * y;
    assert((x * k) * (x * k) + (y * k) * (y * k) == s * (k * k)) by (nonlinear_arith)
        requires
            s == x * x + y * y,
    ;
    let a = (2 * n - 1) * (2 * n - 1);
    let b = (2 * n + 1) * (2 * n + 1);
    assert(a * (1 * 1) == a && b * (1 * 1) == b) by (nonlinear_arith);
    assert(a * (k * k) <= 4 * (s * (k * k)) <==> a <= 4 * s) by (nonlinear_arith)
        requires
            k > 0,
    ;
    assert(4 * (s * (k * k)) < b * (k * k) <==> 4 * s < b) by (nonlinear_arith)
        requires
            k > 0,
    ;
}

fn digit_str(d: u64) -> (r: &'static str)
    requires
        d < 10,
    ensures
        r@ == seq![digit_char(d as int)],
{
    proof {
        reveal_strlit("0");
        reveal_strlit("1");
        reveal_strlit("2");
        reveal_strlit("3");
        reveal_strlit("4");
        reveal_strlit("5");
        reveal_strlit("6");
        reveal_strlit("7");
        reveal_strlit("8");
        reveal_strlit("9");
    }
    if d == 0 {
        "0"
    } else if d == 1 {
        "1"
    } else if d == 2 {
        "2"
    } else if d == 3 {
        "3"
    } else if d == 4 {
        "4"
    } else if d == 5 {
        "5"
    } else if d == 6 {
        "6"
    } else if d == 7 {
        "7"
    } else if d == 8 {
        "8"
    } else {
        "9"
    }
}

fn append_digits(s: &mut String, n: u64)
    ensures
        final(s)@ == old(s)@ + decimal_digits(n as nat),
    decreases n,
{
    if n >= 10 {
        append_digits(s, n / 10);
    }
    s.append(digit_str(n % 10));
    proof {
        if n >= 10 {
            assert(old(s)@ + decimal_digits(n as nat) =~= old(s)@ + decimal_digits((n / 10) as nat)
                + seq![digit_char((n % 10) as int)]);
        }
    }
}

proof fn lemma_digits_len(m: nat)
    ensures
        m < 10 ==> decimal_digits(m).len() == 1,
        10 <= m < 100 ==> decimal_digits(m).len() == 2,
        m >= 100 ==> decimal_digits(m).len() >= 3,
{
    if m >= 10 {
        let q = m / 10;
        assert(decimal_digits(m) == decimal_digits(q).push(digit_char((m % 10) as int)));
        if q >= 10 {
            let qq = q / 10;
            assert(decimal_digits(q) == decimal_digits(qq).push(digit_char((q % 10) as int)));
            if qq >= 10 {
                assert(decimal_digits(qq) == decimal_digits(qq / 10).push(
                    digit_char((qq % 10) as int),
                ));
            } else {
                assert(decimal_digits(qq) == seq![digit_char(qq as int)]);
            }
        } else {
            assert(decimal_digits(q) == seq![digit_char(q as int)]);
        }
    } else {
        assert(decimal_digits(m) == seq![digit_char(m as int)]);
    }
}

/// The magnitude `m` after a `-` where `negative`, filled on the left with
/// `0` to three characters.
fn padded_signed(negative: bool, m: u64) -> (r: String)
    ensures
        r@ == pad3(signed_decimal(negative, m as nat)),
{
    let magnitude: u64 = if m < 10 {
        1
    } else if m < 100 {
        2
    } else {
        3
    };
    let width: u64 = if negative {
        magnitude + 1
    } else {
        magnitude
    };
    proof {
        lemma_digits_len(m as nat);
    }
    let mut r = String::new();
    proof {
        reveal_strlit("00");
        reveal_strlit("0");
        reveal_strlit("-");
    }
    if width == 1 {
        r.append("00");
    } else if width == 2 {
        r.append("0");
    }
    if negative {
        r.append("-");
    }
    append_digits(&mut r, m);
    proof {
        let d = signed_decimal(negative, m as nat);
        assert(width < 3 ==> d.len() == width);
        assert(width >= 3 ==> d.len() >= 3);
        if width == 1 {
            assert(Seq::new(2, |i: int| '0') =~= seq!['0', '0']);
        } else if width == 2 {
            assert(Seq::new(1, |i: int| '0') =~= seq!['0']);
        }
        assert(r@ =~= pad3(d));
    }
    r
}

/// `n` in decimal, filled on the left with `0` to three characters.
pub fn padded_decimal(n: i64) -> (r: String)
    ensures
        r@ == pad3(decimal(n as int)),
{
    let m: u64 = if n < 0 {
        (-(n as i128)) as u64
    } else {
        n as u64
    };
    padded_signed(n < 0, m)
}

/// The flight-level text of an altitude of `z` length units.
pub fn flight_level_label(z: i64) -> (r: String)
    ensures
        r@ == altitude_text(z as int),
{
    let m: u64 = if z < 0 {
        (-(z as i128)) as u64
    } else {
        z as u64
    };
    let level = rounded_half_even(m, 100 * UNITS_PER_FOOT as u64);
    let mut r = String::new();
    proof {
        reveal_strlit("FL");
    }
    r.append("FL");
    let digits = padded_signed(z < 0, level);
    r.append(digits.as_str());
    proof {
        assert(r@ =~= altitude_text(z as int));
    }
    r
}

/// The largest size of a velocity component, in length units per tick: that
/// of a whole number of knots that fits an `i32`.
pub const MAX_SPEED_UNITS: i64 = 2147483648 * 11575;

/// The ground speed, in whole knots rounded to the nearest, of a horizontal
/// velocity of `(x, y)` length units per tick.
pub fn ground_speed(x: i64, y: i64) -> (r: i64)
    requires
        -MAX_SPEED_UNITS <= x <= MAX_SPEED_UNITS,
        -MAX_SPEED_UNITS <= y <= MAX_SPEED_UNITS,
    ensures
        r == ground_speed_knots(x as int, y as int),
        is_rounded_root(r as int, x * x + y * y, UNITS_PER_KNOT as int),
{
    let k: u128 = UNITS_PER_KNOT as u128;
    let kk: u128 = k * k;
    let ax: u128 = if x < 0 {
        (-(x as i128)) as u128
    } else {
        x as u128
    };
    let ay: u128 = if y < 0 {
        (-(y as i128)) as u128
    } else {
        y as u128
    };
    assert(ax * ax <= MAX_SPEED_UNITS * MAX_SPEED_UNITS) by (nonlinear_arith)
        requires
            ax <= MAX_SPEED_UNITS,
    ;
    assert(ay * ay <= MAX_SPEED_UNITS * MAX_SPEED_UNITS) by (nonlinear_arith)
        requires
            ay <= MAX_SPEED_UNITS,
    ;
    let s4: u128 = 4 * (ax * ax + ay * ay);
    proof {
        assert(ax * ax + ay * ay == x * x + y * y) by (nonlinear_arith)
            requires
                ax == x || ax == -x,
                ay == y || ay == -y,
        ;
    }
    let mut lo: u64 = 0;
    let mut hi: u64 = 0x1_0000_0000;
    proof {
        assert(s4 < (2 * hi + 1) * (2 * hi + 1) * (k * k)) by (nonlinear_arith)
            requires
                s4 <= 8 * MAX_SPEED_UNITS * MAX_SPEED_UNITS,
                hi == 0x1_0000_0000,
                k == UNITS_PER_KNOT,
        ;
    }
    while lo < hi
        invariant
            lo <= hi <= 0x1_0000_0000,
            kk == k * k,
            k == UNITS_PER_KNOT,
            s4 < (2 * hi + 1) * (2 * hi + 1) * (k * k),
            lo == 0 || (2 * lo - 1) * (2 * lo - 1) * (k * k) <= s4,
        decreases hi - lo,
    {
        let mid: u64 = lo + (hi - lo) / 2;
        let t: u128 = 2 * (mid as u128) + 1;
        assert(t * t <= 0x2_0000_0001 * 0x2_0000_0001) by (nonlinear_arith)
            requires
                t <= 0x2_0000_0001,
        ;
        assert(t * t * kk <= 0x2_0000_0001 * 0x2_0000_0001 * (11575 * 11575)) by (nonlinear_arith)
            requires
                t * t <= 0x2_0000_0001 * 0x2_0000_0001,
                kk == 11575 * 11575,
        ;
        if s4 < t * t * kk {
            hi = mid;
        } else {
            lo = mid + 1;
        }
    }
    proof {
        lemma_ground_speed_knots(lo as int, x as int, y as int);
    }
    lo as i64
}

} // verus!
