//! Comparisons of sizes and of quotients of sizes at the precision of an IEEE double.
//!
//! A double keeps 53 significant bits, rounding to the nearest value and, halfway between two, to
//! the one whose last bit is zero. The functions here decide in integers what the same comparison
//! decides on doubles: an integer is first rounded to a double, a quotient of two doubles is
//! rounded again. A quotient lies below one as often as above, so it is held as a multiple of
//! `1 / SCALE`, fine enough that every double in question is a whole multiple.

use vstd::arithmetic::div_mod::*;
use vstd::arithmetic::mul::*;
use vstd::arithmetic::power2::*;
use vstd::prelude::*;

verus! {

/// Two to the 53rd: from here on, not every integer is a double.
pub const TWO_53: u128 = 0x20_0000_0000_0000;

/// The unit in which quotients are held is one part in two to the 128th.
pub open spec fn scale() -> nat {
    pow2(128)
}

/// The distance between neighbouring doubles at the integer `q`, and one below two to the 53rd.
pub open spec fn spacing(q: nat) -> nat
    decreases q,
{
    if q < TWO_53 {
        1
    } else {
        2 * spacing(q / 2)
    }
}

/// The multiple of `unit` nearest to `n`; halfway between two, the even multiple.
pub open spec fn nearest_multiple(n: nat, unit: nat) -> nat {
    let q = n / unit;
    let r = n % unit;
    if 2 * r > unit || (2 * r == unit && q % 2 == 1) {
        q + 1
    } else {
        q
    }
}

/// `n / d` rounded to 53 significant bits, where the quotient is at least two to the 52nd or the
/// divisor is one.
pub open spec fn round(n: nat, d: nat) -> nat {
    let u = spacing(n / d);
    nearest_multiple(n, d * u) * u
}

/// The double nearest to the integer `n`.
pub open spec fn double(n: nat) -> nat {
    round(n, 1)
}

/// The double nearest to the quotient `n / d` of two doubles, in units of `1 / scale()`.
pub open spec fn quotient(n: nat, d: nat) -> nat {
    round(n * scale(), d)
}

/// `a / b > c / d` where all four are first rounded to doubles and both quotients are rounded.
/// Division of zero by zero compares as false, any other division by zero as larger.
pub open spec fn quotient_exceeds(a: nat, b: nat, c: nat, d: nat) -> bool {
    if b == 0 {
        a > 0
    } else {
        quotient(double(a), double(b)) > quotient(double(c), double(d))
    }
}

/// `a / b > 1` at double precision.
pub open spec fn exceeds(a: nat, b: nat) -> bool {
    double(a) > double(b)
}

proof fn lemma_spacing(q: nat)
    ensures
        spacing(q) >= 1,
        q < TWO_53 * spacing(q),
        spacing(q) > 1 ==> q >= (TWO_53 / 2) * spacing(q),
        spacing(q) <= q + 1,
        exists|k: nat| #[trigger] pow2(k) == spacing(q),
    decreases q,
{
    if q < TWO_53 {
        lemma2_to64();
        assert(pow2(0) == spacing(q));
    } else {
        let h = (q / 2) as nat;
        lemma_spacing(h);
        let k = choose|k: nat| #[trigger] pow2(k) == spacing(h);
        lemma_pow2_unfold((k + 1) as nat);
        assert(pow2((k + 1) as nat) == spacing(q));
        assert(q < TWO_53 * spacing(q)) by (nonlinear_arith)
            requires
                h < TWO_53 * spacing(h),
                q <= 2 * h + 1,
                spacing(q) == 2 * spacing(h),
        ;
        if spacing(h) == 1 {
            assert(spacing(q) == 2);
        } else {
            assert(q >= (TWO_53 / 2) * spacing(q)) by (nonlinear_arith)
                requires
                    h >= (TWO_53 / 2) * spacing(h),
                    q >= 2 * h,
                    spacing(q) == 2 * spacing(h),
            ;
        }
    }
}

/// Doubling the numerator doubles the rounded quotient.
proof fn lemma_round_doubles(n: nat, d: nat)
    requires
        d > 0,
        n / d >= TWO_53 / 2,
    ensures
        round(2 * n, d) == 2 * round(n, d),
        (2 * n) / d >= TWO_53 / 2,
{
    let q = n / d;
    let q2 = (2 * n) / d;
    assert(q2 == 2 * q || q2 == 2 * q + 1) by {
        lemma_fundamental_div_mod(n as int, d as int);
        let r = n % d;
        assert(2 * n == (2 * q) * d + 2 * r) by (nonlinear_arith)
            requires
                n == d * q + r,
        ;
        if 2 * r < d {
            lemma_fundamental_div_mod_converse(2 * n as int, d as int, (2 * q) as int, (2 * r) as int);
        } else {
            assert((2 * q) * d + d == (2 * q + 1) * d) by (nonlinear_arith);
            lemma_fundamental_div_mod_converse(
                2 * n as int,
                d as int,
                (2 * q + 1) as int,
                (2 * r - d) as int,
            );
        }
    }
    let u = spacing(q);
    assert(q2 / 2 == q);
    assert(spacing(q2) == 2 * u);
    lemma_spacing(q);
    let unit = d * u;
    let unit2 = d * (2 * u);
    assert(unit2 == 2 * unit) by (nonlinear_arith)
        requires
            unit == d * u,
            unit2 == d * (2 * u),
    ;
    assert(unit > 0) by (nonlinear_arith)
        requires
            d > 0,
            u > 0,
            unit == d * u,
    ;
    let m = n / unit;
    let r = n % unit;
    lemma_fundamental_div_mod(n as int, unit as int);
    assert(2 * n == m * unit2 + 2 * r) by (nonlinear_arith)
        requires
            n == unit * m + r,
            unit2 == 2 * unit,
    ;
    lemma_fundamental_div_mod_converse(2 * n as int, unit2 as int, m as int, (2 * r) as int);
    assert(nearest_multiple(2 * n, unit2) == nearest_multiple(n, unit));
    let k = nearest_multiple(n, unit);
    assert(k * (2 * u) == 2 * (k * u)) by (nonlinear_arith);
}

proof fn lemma_round_scales(n: nat, d: nat, k: nat)
    requires
        d > 0,
        n / d >= TWO_53 / 2,
    ensures
        round(n * pow2(k), d) == round(n, d) * pow2(k),
    decreases k,
{
    if k == 0 {
        lemma2_to64();
    } else {
        let h = (k - 1) as nat;
        lemma_round_scales(n, d, h);
        lemma_pow2_unfold(k);
        lemma_pow2_pos(h);
        let p = pow2(h);
        let x = n * p;
        assert(x >= n) by (nonlinear_arith)
            requires
                x == n * p,
                p >= 1,
        ;
        lemma_div_is_ordered(n as int, x as int, d as int);
        lemma_round_doubles(x, d);
        assert(n * pow2(k) == 2 * x) by (nonlinear_arith)
            requires
                x == n * p,
                pow2(k) == 2 * p,
        ;
        let y = round(n, d);
        assert(y * pow2(k) == 2 * (y * p)) by (nonlinear_arith)
            requires
                pow2(k) == 2 * p,
        ;
    }
}

/// Rounding keeps the order of quotients with the same divisor.
proof fn lemma_round_monotone(m: nat, n: nat, d: nat)
    requires
        m <= n,
        d > 0,
    ensures
        round(m, d) <= round(n, d),
{
    let (p, q) = (m / d, n / d);
    lemma_div_is_ordered(m as int, n as int, d as int);
    lemma_spacing(p);
    lemma_spacing(q);
    let u = spacing(p);
    let v = spacing(q);
    lemma_div_denominator(m as int, d as int, u as int);
    lemma_div_denominator(n as int, d as int, v as int);
    assert(d * u > 0 && d * v > 0) by (nonlinear_arith)
        requires
            d > 0,
            u > 0,
            v > 0,
    ;
    let rm = nearest_multiple(m, d * u);
    let rn = nearest_multiple(n, d * v);
    if u == v {
        lemma_fundamental_div_mod(m as int, (d * u) as int);
        lemma_fundamental_div_mod(n as int, (d * u) as int);
        lemma_div_is_ordered(m as int, n as int, (d * u) as int);
        if m / (d * u) == n / (d * u) {
            assert(m % (d * u) <= n % (d * u));
        }
        assert(rm <= rn);
        assert(rm * u <= rn * u) by (nonlinear_arith)
            requires
                rm <= rn,
        ;
    } else {
        lemma_spacing_monotone(p, q);
        lemma_power_of_two_gap(p, q);
        assert(p < u * TWO_53) by (nonlinear_arith)
            requires
                p < TWO_53 * u,
        ;
        lemma_quotient_below(p, u);
        assert(rm <= TWO_53);
        lemma_fundamental_div_mod(q as int, v as int);
        let qv = q / v;
        assert(qv >= TWO_53 / 2) by (nonlinear_arith)
            requires
                q >= (TWO_53 / 2) * v,
                q == v * qv + q % v,
                q % v < v,
                v > 0,
        ;
        assert(rm * u <= rn * v) by (nonlinear_arith)
            requires
                rm <= TWO_53,
                rn >= TWO_53 / 2,
                v >= 2 * u,
        ;
    }
}

/// Rounding to a double keeps the order of integers.
pub proof fn lemma_double_monotone(a: nat, b: nat)
    requires
        a <= b,
    ensures
        double(a) <= double(b),
{
    lemma_round_monotone(a, b, 1);
}

proof fn lemma_quotient_below(a: nat, u: nat)
    requires
        u > 0,
        a < u * TWO_53,
    ensures
        a / u < TWO_53,
{
    lemma_fundamental_div_mod(a as int, u as int);
    let q = a / u;
    if q >= TWO_53 {
        assert(u * q >= u * TWO_53) by (nonlinear_arith)
            requires
                q >= TWO_53,
        ;
    }
}

proof fn lemma_spacing_monotone(a: nat, b: nat)
    requires
        a <= b,
    ensures
        spacing(a) <= spacing(b),
    decreases b,
{
    if a >= TWO_53 {
        lemma_spacing_monotone(a / 2, b / 2);
    } else {
        lemma_spacing(b);
    }
}

/// Two different spacings differ by a factor of two at least.
proof fn lemma_power_of_two_gap(a: nat, b: nat)
    requires
        spacing(a) < spacing(b),
    ensures
        spacing(b) >= 2 * spacing(a),
    decreases b,
{
    if a >= TWO_53 {
        lemma_spacing(a);
        assert(b >= TWO_53);
        lemma_power_of_two_gap(a / 2, b / 2);
    } else {
        lemma_spacing((b / 2) as nat);
    }
}

/// An integer up to two to the 53rd is itself a double.
pub proof fn lemma_double_exact(n: nat)
    requires
        n <= TWO_53,
    ensures
        double(n) == n,
{
    assert(n / 1 == n);
    let u = spacing(n);
    assert(1 * u == u);
    assert(double(n) == nearest_multiple(n, u) * u);
    if n == TWO_53 {
        assert(spacing((n / 2) as nat) == 1);
        assert(spacing(n) == 2);
        assert(nearest_multiple(n, 2) == n / 2);
        assert(double(n) == nearest_multiple(n, 2) * 2);
        assert(n / 2 * 2 == n);
    } else {
        assert(nearest_multiple(n, 1) == n);
        assert(double(n) == nearest_multiple(n, 1) * 1);
    }
}

proof fn lemma_double_two_64()
    ensures
        double(0x1_0000_0000_0000_0000) == 0x1_0000_0000_0000_0000,
{
    let n: nat = 0x1_0000_0000_0000_0000;
    reveal_with_fuel(spacing, 13);
    assert(n / 1 == n);
    assert(spacing(n) == 0x1000);
    assert(nearest_multiple(n, 0x1000) == n / 0x1000);
    assert(1 * spacing(n) == 0x1000);
}

/// Below two to the 53rd, sizes compare as integers.
pub proof fn lemma_exceeds_exact(a: nat, b: nat)
    requires
        b < TWO_53,
    ensures
        exceeds(a, b) == (a > b),
{
    lemma_double_exact(b);
    if a > b {
        lemma_double_exact(b + 1);
        lemma_double_monotone(b + 1, a);
    } else {
        lemma_double_monotone(a, b);
    }
}

/// Doubles in their order: the larger one exceeds the smaller one by more than a part in two to
/// the 53rd.
proof fn lemma_double_gap(a: nat, b: nat)
    requires
        double(a) > double(b),
    ensures
        (double(a) - double(b)) * TWO_53 >= double(b) + 1,
{
    if a <= b {
        lemma_double_monotone(a, b);
    }
    lemma_spacing(a);
    lemma_spacing(b);
    lemma_spacing_monotone(b, a);
    let (w, u) = (spacing(a), spacing(b));
    let ra = nearest_multiple(a, w);
    let rb = nearest_multiple(b, u);
    assert(a / 1 == a && b / 1 == b && 1 * w == w && 1 * u == u);
    assert(double(a) == ra * w && double(b) == rb * u);
    assert(a < w * TWO_53 && b < u * TWO_53) by (nonlinear_arith)
        requires
            a < TWO_53 * w,
            b < TWO_53 * u,
    ;
    lemma_quotient_below(a, w);
    lemma_quotient_below(b, u);
    assert(ra <= TWO_53 && rb <= TWO_53);
    let k = lemma_spacing_multiple(a, b);
    let x = ra * k;
    assert(ra * w == x * u) by (nonlinear_arith)
        requires
            w == k * u,
            x == ra * k,
    ;
    assert(x > rb) by (nonlinear_arith)
        requires
            x * u > rb * u,
            u > 0,
    ;
    let gap: int = x - rb;
    assert(double(a) - double(b) == gap * u) by (nonlinear_arith)
        requires
            double(a) == x * u,
            double(b) == rb * u,
            gap == x - rb,
    ;
    if rb == TWO_53 {
        // The spacing doubles at a power of two, so the next double is two steps away.
        assert(k >= 2 && gap >= 2) by {
            if k == 1 {
                assert(x == ra) by (nonlinear_arith)
                    requires
                        x == ra * k,
                        k == 1,
                ;
            } else {
                let h = k / 2;
                assert(x == 2 * (ra * h)) by (nonlinear_arith)
                    requires
                        x == ra * k,
                        k == 2 * h,
                ;
            }
        }
        assert((gap * u) * TWO_53 >= rb * u + 1) by (nonlinear_arith)
            requires
                gap >= 2,
                rb == TWO_53,
                u >= 1,
        ;
    } else {
        assert((gap * u) * TWO_53 >= rb * u + 1) by (nonlinear_arith)
            requires
                gap >= 1,
                rb < TWO_53,
                u >= 1,
        ;
    }
}

/// A larger spacing is a multiple of a smaller one.
proof fn lemma_spacing_multiple(a: nat, b: nat) -> (k: nat)
    requires
        b <= a,
    ensures
        k >= 1,
        spacing(a) == k * spacing(b),
        spacing(a) > spacing(b) ==> k % 2 == 0,
        k == 1 <==> spacing(a) == spacing(b),
    decreases a,
{
    lemma_spacing(a);
    lemma_spacing(b);
    if b >= TWO_53 {
        let k = lemma_spacing_multiple(a / 2, b / 2);
        let (w, u) = (spacing(a / 2), spacing(b / 2));
        assert(2 * w == k * (2 * u)) by (nonlinear_arith)
            requires
                w == k * u,
        ;
        k
    } else {
        let k = spacing(a);
        assert(k == k * 1);
        k
    }
}

/// A quotient that exceeds one by enough rounds to more than one.
proof fn lemma_quotient_above_one(n: nat, d: nat)
    requires
        d > 0,
        n * TWO_53 >= d * TWO_53 + d + 1,
    ensures
        quotient(n, d) > scale(),
{
    let p = pow2(75);
    let m = (d * TWO_53 + d + 1) as nat;
    lemma_scale_split();
    lemma_pow2_pos(75);
    assert(m * p <= n * scale()) by (nonlinear_arith)
        requires
            n * TWO_53 >= m,
            scale() == TWO_53 * p,
    ;
    lemma_round_monotone(m * p, n * scale(), d);
    assert(m == 0x10_0000_0000_0000 * (2 * d) + (d + 1)) by (nonlinear_arith)
        requires
            m == d * TWO_53 + d + 1,
            TWO_53 == 0x20_0000_0000_0000,
    ;
    if d == 1 {
        assert(m == TWO_53 + 2);
        assert(m / d == TWO_53 + 2);
    } else {
        assert(m == d * (TWO_53 + 1) + 1) by (nonlinear_arith)
            requires
                m == d * TWO_53 + d + 1,
        ;
        lemma_fundamental_div_mod_converse(m as int, d as int, TWO_53 + 1, 1);
        assert(m / d == TWO_53 + 1);
    }
    reveal_with_fuel(spacing, 3);
    assert(spacing(m / d) == 2);
    if d == 1 {
        assert(round(m, d) == TWO_53 + 2);
    } else {
        lemma_fundamental_div_mod_converse(
            m as int,
            2 * d as int,
            0x10_0000_0000_0000,
            (d + 1) as int,
        );
        assert(d * 2 == 2 * d);
        assert(nearest_multiple(m, d * 2) == 0x10_0000_0000_0001);
        assert(round(m, d) == TWO_53 + 2);
    }
    lemma_round_scales(m, d, 75);
    assert((TWO_53 + 2) * p > TWO_53 * p) by (nonlinear_arith)
        requires
            p > 0,
    ;
}

proof fn lemma_scale_split()
    ensures
        scale() == TWO_53 * pow2(75),
{
    lemma2_to64();
    lemma_pow2_adds(32, 21);
    assert(pow2(53) == TWO_53);
    lemma_pow2_adds(53, 75);
}

/// A number divided by itself is one, and one is one.
proof fn lemma_quotient_one(d: nat)
    requires
        d > 0,
    ensures
        quotient(d, d) == scale(),
{
    let p = pow2(75);
    lemma_scale_split();
    let m = d * TWO_53 as nat;
    lemma_div_multiples_vanish(TWO_53 as int, d as int);
    assert(m / d == TWO_53);
    reveal_with_fuel(spacing, 3);
    assert(spacing(TWO_53 as nat) == 2);
    assert(m == 0x10_0000_0000_0000 * (d * 2)) by (nonlinear_arith)
        requires
            m == d * TWO_53,
            TWO_53 == 0x20_0000_0000_0000,
    ;
    lemma_fundamental_div_mod_converse(m as int, (d * 2) as int, 0x10_0000_0000_0000, 0);
    assert(nearest_multiple(m, d * 2) == 0x10_0000_0000_0000);
    assert(round(m, d) == TWO_53);
    lemma_round_scales(m, d, 75);
    assert(d * scale() == m * p) by (nonlinear_arith)
        requires
            m == d * TWO_53,
            scale() == TWO_53 * p,
    ;
}

/// A rounded quotient is larger than one just when the doubles that are divided are in that order.
pub proof fn lemma_exceeds_is_quotient(a: nat, b: nat)
    ensures
        exceeds(a, b) == quotient_exceeds(a, b, 1, 1),
{
    if b == 0 {
        lemma_double_exact(0);
        if a > 0 {
            lemma_double_exact(1);
            lemma_double_monotone(1, a);
        }
    } else {
        let (x, y) = (double(a), double(b));
        lemma_double_exact(1);
        lemma_double_monotone(1, b);
        lemma_quotient_one(1);
        if x > y {
            lemma_double_gap(a, b);
            assert(x * TWO_53 >= y * TWO_53 + y + 1) by (nonlinear_arith)
                requires
                    (x - y) * TWO_53 >= y + 1,
            ;
            lemma_quotient_above_one(x, y);
        } else {
            lemma_quotient_one(y);
            assert(x * scale() <= y * scale()) by (nonlinear_arith)
                requires
                    x <= y,
            ;
            lemma_round_monotone(x * scale(), y * scale(), y);
        }
    }
}

/// Rounding a quotient does not depend on a factor that numerator and divisor share.
proof fn lemma_round_common_factor(n: nat, d: nat, k: nat)
    requires
        d > 0,
        k > 0,
    ensures
        round(n * k, d * k) == round(n, d),
{
    lemma_common_factor(n, d, k);
    let u = spacing(n / d);
    lemma_spacing(n / d);
    let unit = d * u;
    assert(unit > 0) by (nonlinear_arith)
        requires
            unit == d * u,
            d > 0,
            u > 0,
    ;
    lemma_common_factor(n, unit, k);
    assert((d * k) * u == unit * k) by (nonlinear_arith)
        requires
            unit == d * u,
    ;
    let r = n % unit;
    assert((2 * (r * k) > unit * k) == (2 * r > unit)) by (nonlinear_arith)
        requires
            k > 0,
    ;
    assert((2 * (r * k) == unit * k) == (2 * r == unit)) by (nonlinear_arith)
        requires
            k > 0,
    ;
}

proof fn lemma_common_factor(n: nat, d: nat, k: nat)
    requires
        d > 0,
        k > 0,
    ensures
        (n * k) / (d * k) == n / d,
        (n * k) % (d * k) == (n % d) * k,
{
    lemma_fundamental_div_mod(n as int, d as int);
    let (q, r) = (n / d, n % d);
    assert(n * k == q * (d * k) + r * k) by (nonlinear_arith)
        requires
            n == d * q + r,
    ;
    assert(r * k < d * k) by (nonlinear_arith)
        requires
            r < d,
            k > 0,
    ;
    lemma_fundamental_div_mod_converse((n * k) as int, (d * k) as int, q as int, (r * k) as int);
}

/// The nearest multiple is at most half a unit away.
proof fn lemma_nearest_multiple_near(n: nat, unit: nat)
    requires
        unit > 0,
    ensures
        2 * n <= 2 * (nearest_multiple(n, unit) * unit) + unit,
        2 * (nearest_multiple(n, unit) * unit) <= 2 * n + unit,
{
    lemma_fundamental_div_mod(n as int, unit as int);
    let (q, r) = (n / unit, n % unit);
    assert(n == q * unit + r) by (nonlinear_arith)
        requires
            n == unit * q + r,
    ;
    assert((q + 1) * unit == q * unit + unit) by (nonlinear_arith);
}

/// Quotients of small numbers with the same divisor stay apart.
proof fn lemma_small_quotients_apart(m: nat, n: nat, e: nat)
    requires
        0 < e < TWO_53 / 2,
        m < n < TWO_53 / 2,
    ensures
        quotient(n, e) > quotient(m, e),
{
    let big = n * scale();
    let small = m * scale();
    lemma_scale_split();
    lemma_pow2_pos(75);
    assert(scale() >= TWO_53) by (nonlinear_arith)
        requires
            scale() == TWO_53 * pow2(75),
            pow2(75) > 0,
    ;
    assert(big >= small + scale()) by (nonlinear_arith)
        requires
            big == n * scale(),
            small == m * scale(),
            n >= m + 1,
    ;
    lemma_div_is_ordered(small as int, big as int, e as int);
    let (p, q) = (small / e, big / e);
    lemma_spacing(p);
    lemma_spacing(q);
    lemma_spacing_monotone(p, q);
    let (v, u) = (spacing(p), spacing(q));
    let x = nearest_multiple(big, e * u);
    let y = nearest_multiple(small, e * v);
    assert(e * u > 0 && e * v > 0 && e * v <= e * u) by (nonlinear_arith)
        requires
            e > 0,
            0 < v <= u,
    ;
    lemma_nearest_multiple_near(big, e * u);
    lemma_nearest_multiple_near(small, e * v);
    assert(e * u < scale()) by {
        if u > 1 {
            lemma_fundamental_div_mod(big as int, e as int);
            assert(e * q <= big);
            assert((TWO_53 / 2) * (e * u) <= e * q) by (nonlinear_arith)
                requires
                    q >= (TWO_53 / 2) * u,
            ;
            assert(e * u < scale()) by (nonlinear_arith)
                requires
                    (TWO_53 / 2) * (e * u) <= big,
                    big == n * scale(),
                    n < TWO_53 / 2,
                    scale() > 0,
            ;
        } else {
            assert(e * u == e) by (nonlinear_arith)
                requires
                    u == 1,
            ;
        }
    }
    assert(x * (e * u) > y * (e * v));
    assert(x * u > y * v) by (nonlinear_arith)
        requires
            x * (e * u) > y * (e * v),
            e > 0,
    ;
}

/// Quotients of numbers below two to the 26th compare as fractions.
pub proof fn lemma_quotient_exceeds_exact(a: nat, b: nat, c: nat, d: nat)
    requires
        a < 0x400_0000,
        0 < b < 0x400_0000,
        c < 0x400_0000,
        0 < d < 0x400_0000,
    ensures
        quotient_exceeds(a, b, c, d) == (a * d > c * b),
{
    lemma_double_exact(a);
    lemma_double_exact(b);
    lemma_double_exact(c);
    lemma_double_exact(d);
    let e = b * d;
    let (n, m) = (a * d, c * b);
    assert(0 < e < TWO_53 / 2 && n < TWO_53 / 2 && m < TWO_53 / 2) by (nonlinear_arith)
        requires
            e == b * d,
            n == a * d,
            m == c * b,
            a < 0x400_0000,
            0 < b < 0x400_0000,
            c < 0x400_0000,
            0 < d < 0x400_0000,
            TWO_53 == 0x20_0000_0000_0000,
    ;
    lemma_round_common_factor(a * scale(), b, d);
    lemma_round_common_factor(c * scale(), d, b);
    assert((a * scale()) * d == n * scale() && (c * scale()) * b == m * scale() && d * b == e)
        by (nonlinear_arith)
        requires
            e == b * d,
            n == a * d,
            m == c * b,
    ;
    if n > m {
        lemma_small_quotients_apart(m, n, e);
    } else {
        assert(n * scale() <= m * scale()) by (nonlinear_arith)
            requires
                n <= m,
        ;
        lemma_round_monotone(n * scale(), m * scale(), e);
    }
}

/// No multiple of a unit is nearer than the nearest.
proof fn lemma_nearest_multiple_nearest(n: nat, unit: nat, y: nat)
    requires
        unit > 0,
    ensures
        ({
            let off = nearest_multiple(n, unit) * unit - n;
            let other = y * unit - n;
            &&& other >= 0 ==> -other <= off <= other
            &&& other <= 0 ==> other <= off <= -other
        }),
{
    lemma_fundamental_div_mod(n as int, unit as int);
    let (q, r) = (n / unit, n % unit);
    assert(n == q * unit + r) by (nonlinear_arith)
        requires
            n == unit * q + r,
    ;
    assert((q + 1) * unit == q * unit + unit) by (nonlinear_arith);
    if y <= q {
        assert(y * unit <= q * unit) by (nonlinear_arith)
            requires
                y <= q,
        ;
    } else {
        assert(y * unit >= (q + 1) * unit) by (nonlinear_arith)
            requires
                y >= q + 1,
        ;
    }
}

/// A rounded quotient has 53 significant bits, and no number with 53 significant bits is nearer to
/// the quotient.
proof fn lemma_round_nearest(n: nat, d: nat, k: nat, e: nat)
    requires
        d > 0,
        k <= TWO_53,
    ensures
        ({
            let off = round(n, d) * d - n;
            let other = (k * pow2(e)) * d - n;
            &&& other >= 0 ==> -other <= off <= other
            &&& other <= 0 ==> other <= off <= -other
        }),
        exists|m: nat, j: nat| m <= TWO_53 && round(n, d) == #[trigger] (m * pow2(j)),
{
    let q = n / d;
    lemma_spacing(q);
    let u = spacing(q);
    let j = choose|j: nat| #[trigger] pow2(j) == u;
    let unit = d * u;
    assert(unit > 0) by (nonlinear_arith)
        requires
            unit == d * u,
            d > 0,
            u > 0,
    ;
    let m = nearest_multiple(n, unit);
    lemma_div_denominator(n as int, d as int, u as int);
    assert(q < u * TWO_53) by (nonlinear_arith)
        requires
            q < TWO_53 * u,
    ;
    lemma_quotient_below(q, u);
    assert(m <= TWO_53);
    assert(round(n, d) == m * pow2(j));
    assert((m * u) * d == m * unit) by (nonlinear_arith)
        requires
            unit == d * u,
    ;
    let p = pow2(e);
    if e >= j {
        let f = pow2((e - j) as nat);
        lemma_pow2_adds(j, (e - j) as nat);
        let y = k * f;
        lemma_nearest_multiple_nearest(n, unit, y);
        assert((k * p) * d == y * unit) by (nonlinear_arith)
            requires
                p == u * f,
                y == k * f,
                unit == d * u,
        ;
    } else {
        lemma_pow2_adds(e, (j - e) as nat);
        lemma_pow2_unfold((j - e) as nat);
        lemma_pow2_pos((j - e - 1) as nat);
        lemma_pow2_pos(e);
        let g = pow2((j - e) as nat);
        assert(u >= 2 * p) by (nonlinear_arith)
            requires
                u == p * g,
                g >= 2,
                p > 0,
        ;
        let half: nat = 0x10_0000_0000_0000;
        lemma_nearest_multiple_nearest(n, unit, half);
        lemma_fundamental_div_mod(n as int, d as int);
        assert(half * unit <= q * d) by (nonlinear_arith)
            requires
                unit == d * u,
                q >= half * u,
        ;
        assert(q * d <= n) by (nonlinear_arith)
            requires
                n == d * q + n % d,
                n % d >= 0,
        ;
        assert((k * p) * d <= half * unit) by (nonlinear_arith)
            requires
                k <= 2 * half,
                u >= 2 * p,
                unit == d * u,
        ;
    }
}

/// The double of an integer has 53 significant bits, and no number with 53 significant bits is
/// nearer to the integer.
pub proof fn lemma_double_nearest(n: nat, k: nat, e: nat)
    requires
        k <= 0x20_0000_0000_0000,
    ensures
        k * pow2(e) >= n ==> -(k * pow2(e) - n) <= double(n) - n <= k * pow2(e) - n,
        k * pow2(e) <= n ==> k * pow2(e) - n <= double(n) - n <= n - k * pow2(e),
        exists|m: nat, j: nat|
            m <= 0x20_0000_0000_0000 && double(n) == #[trigger] (m * pow2(j)),
{
    lemma_round_nearest(n, 1, k, e);
    assert((k * pow2(e)) * 1 == k * pow2(e));
    assert(round(n, 1) * 1 == round(n, 1));
}

/// The double of a quotient has 53 significant bits, and no number with 53 significant bits is
/// nearer to the quotient: `n / d` and its double in units of one part in two to the 128th.
pub proof fn lemma_quotient_nearest(n: nat, d: nat, k: nat, e: nat)
    requires
        d > 0,
        k <= 0x20_0000_0000_0000,
    ensures
        ({
            let off = quotient(n, d) * d - n * pow2(128);
            let other = (k * pow2(e)) * d - n * pow2(128);
            &&& other >= 0 ==> -other <= off <= other
            &&& other <= 0 ==> other <= off <= -other
        }),
        exists|m: nat, j: nat|
            m <= 0x20_0000_0000_0000 && quotient(n, d) == #[trigger] (m * pow2(j)),
{
    lemma_round_nearest(n * scale(), d, k, e);
}

/// What the comparisons compare: the doubles of the numbers, and the doubles of the quotients of
/// these. Nothing divided by zero is not larger than anything, and something is larger than all.
pub proof fn lemma_comparisons(a: nat, b: nat, c: nat, d: nat)
    ensures
        exceeds(a, b) <==> double(a) > double(b),
        b > 0 ==> (quotient_exceeds(a, b, c, d) <==> quotient(double(a), double(b)) > quotient(
            double(c),
            double(d),
        )),
        b == 0 ==> (quotient_exceeds(a, b, c, d) <==> a > 0),
{
}

/// A positive double in units of `1 / scale()`: `mantissa` times two to the `exponent`.
struct Scaled {
    mantissa: u128,
    exponent: u32,
}

impl Scaled {
    spec fn value(self) -> nat {
        self.mantissa as nat * pow2(self.exponent as nat)
    }

    spec fn normal(self) -> bool {
        TWO_53 / 2 <= self.mantissa < TWO_53
    }
}

fn spacing_of(q: u128) -> (r: (u128, u32))
    requires
        q < TWO_53 * 0x1_0000,
    ensures
        r.0 == spacing(q as nat),
        r.0 == pow2(r.1 as nat),
        r.0 <= 0x1_0000,
        r.1 <= 16,
{
    let mut t: u128 = q;
    let mut u: u128 = 1;
    let mut k: u32 = 0;
    proof {
        lemma2_to64();
    }
    while t >= TWO_53
        invariant
            t < TWO_53 * 0x1_0000,
            t * u < TWO_53 * 0x1_0000,
            k <= 16,
            u == pow2(k as nat),
            1 <= u <= 0x1_0000,
            spacing(q as nat) == u * spacing(t as nat),
        decreases t,
    {
        proof {
            lemma_pow2_unfold((k + 1) as nat);
            assert(u < 0x1_0000) by (nonlinear_arith)
                requires
                    t * u < TWO_53 * 0x1_0000,
                    t >= TWO_53,
            ;
            lemma2_to64();
            if k + 1 < 16 {
                lemma_pow2_strictly_increases((k + 1) as nat, 16);
            }
            let h = t / 2;
            assert(h * (2 * u) <= t * u) by (nonlinear_arith)
                requires
                    2 * h <= t,
            ;
            assert(u * (2 * spacing(h as nat)) == (2 * u) * spacing(h as nat)) by (nonlinear_arith);
        }
        t = t / 2;
        u = u * 2;
        k = k + 1;
    }
    assert(u * 1 == u);
    (u, k)
}

/// Rounds `n` to the nearest double.
pub fn to_double(n: u128) -> (r: u128)
    requires
        n < TWO_53 * 0x1_0000,
    ensures
        r == double(n as nat),
        n > 0 ==> r > 0,
        r <= 2 * n,
        n <= 0x1_0000_0000_0000_0000 ==> r <= 0x1_0000_0000_0000_0000,
{
    proof {
        if n <= 0x1_0000_0000_0000_0000 {
            lemma_double_monotone(n as nat, 0x1_0000_0000_0000_0000);
            lemma_double_two_64();
        }
    }
    let (u, _k) = spacing_of(n);
    proof {
        assert(n / 1 == n);
        lemma_spacing(n as nat);
        assert(1 * u as nat == u as nat);
        lemma_fundamental_div_mod(n as int, u as int);
    }
    let q: u128 = n / u;
    let rem: u128 = n % u;
    assert(q < TWO_53) by {
        assert(n < u * TWO_53) by (nonlinear_arith)
            requires
                n < TWO_53 * u,
        ;
        lemma_quotient_below(n as nat, u as nat);
    }
    let m: u128 = if 2 * rem > u || (2 * rem == u && q % 2 == 1) {
        q + 1
    } else {
        q
    };
    assert(m * u <= TWO_53 * 0x1_0000) by (nonlinear_arith)
        requires
            m <= TWO_53,
            u <= 0x1_0000,
    ;
    proof {
        if n > 0 {
            assert(q >= 1) by {
                if u > 1 {
                    lemma_div_is_ordered(u as int, n as int, u as int);
                    lemma_div_by_self(u as int);
                }
            }
            assert(m * u > 0) by (nonlinear_arith)
                requires
                    m >= 1,
                    u >= 1,
            ;
            assert(m * u <= 2 * (q * u)) by (nonlinear_arith)
                requires
                    m <= q + 1,
                    q >= 1,
            ;
            assert(q * u <= n) by (nonlinear_arith)
                requires
                    n == u * q + n % u,
                    n % u >= 0,
            ;
        }
    }
    m * u
}

/// The double nearest to `n / d`, for doubles `n` and `d` up to a little above two to the 64th.
fn divide(n: u128, d: u128) -> (r: Scaled)
    requires
        0 < n < TWO_53 * 0x2000,
        0 < d < TWO_53 * 0x2000,
    ensures
        r.normal(),
        r.value() == quotient(n as nat, d as nat),
{
    let low: u128 = d * TWO_53;
    let mut x: u128 = n;
    let mut s: u32 = 0;
    proof {
        lemma2_to64();
    }
    while x < low
        invariant
            0 < n < TWO_53 * 0x2000,
            0 < d < TWO_53 * 0x2000,
            low == d * TWO_53,
            x == n * pow2(s as nat),
            x < 2 * low || (s == 0 && x == n),
            s < 120,
            x > 0,
        decreases 2 * low - x,
    {
        proof {
            lemma_pow2_unfold((s + 1) as nat);
            let p = pow2(s as nat);
            assert(n * (2 * p) == 2 * (n * p)) by (nonlinear_arith);
            assert(x >= p) by (nonlinear_arith)
                requires
                    x == n * p,
                    n >= 1,
            ;
            if s == 119 {
                lemma2_to64();
                lemma2_to64_rest();
                lemma_pow2_adds(64, 55);
                assert(false);
            }
        }
        x = x * 2;
        s = s + 1;
    }
    let q: u128 = x / d;
    assert(TWO_53 <= q && q < TWO_53 * 0x1_0000) by {
        lemma_fundamental_div_mod(x as int, d as int);
        assert(TWO_53 <= q) by (nonlinear_arith)
            requires
                x >= d * TWO_53,
                x == d * q + x % d,
                x % d < d,
        ;
        assert(q < TWO_53 * 0x1_0000) by (nonlinear_arith)
            requires
                x < 2 * (d * TWO_53) || x < TWO_53 * 0x2000,
                x == d * q + x % d,
                0 <= x % d,
                d >= 1,
        ;
    }
    let (u, k) = spacing_of(q);
    assert(d * u <= TWO_53 * 0x2000 * 0x1_0000) by (nonlinear_arith)
        requires
            d < TWO_53 * 0x2000,
            u <= 0x1_0000,
    ;
    let unit: u128 = d * u;
    proof {
        lemma_spacing(q as nat);
        lemma_div_denominator(x as int, d as int, u as int);
        lemma_fundamental_div_mod(q as int, u as int);
        assert(unit >= 1) by (nonlinear_arith)
            requires
                unit == d * u,
                d >= 1,
                u >= 1,
        ;
    }
    let m: u128 = x / unit;
    let rem: u128 = x % unit;
    assert(TWO_53 / 2 <= m && m < TWO_53) by {
        assert(m == q / u);
        assert(q < u * TWO_53) by (nonlinear_arith)
            requires
                q < TWO_53 * u,
        ;
        lemma_quotient_below(q as nat, u as nat);
        assert(TWO_53 / 2 <= m) by (nonlinear_arith)
            requires
                q >= (TWO_53 / 2) * u,
                q == u * m + q % u,
                q % u < u,
        ;
    }
    let up = 2 * rem > unit || (2 * rem == unit && m % 2 == 1);
    let m2: u128 = if up {
        m + 1
    } else {
        m
    };
    let e: u32 = k + (128 - s);
    proof {
        let rest = (128 - s) as nat;
        assert(n * scale() == x * pow2(rest)) by {
            lemma_pow2_adds(s as nat, rest);
            assert(n * (pow2(s as nat) * pow2(rest)) == (n * pow2(s as nat)) * pow2(rest))
                by (nonlinear_arith);
        }
        lemma_round_scales(x as nat, d as nat, rest);
        assert(round(x as nat, d as nat) == m2 * u);
        lemma_pow2_adds(k as nat, rest);
        assert((m2 * u) * pow2(rest) == m2 * (u * pow2(rest))) by (nonlinear_arith);
        assert(quotient(n as nat, d as nat) == m2 * pow2(e as nat));
        if m2 == TWO_53 {
            lemma_pow2_unfold((e + 1) as nat);
            assert(TWO_53 * pow2(e as nat) == (TWO_53 / 2) * (2 * pow2(e as nat)))
                by (nonlinear_arith);
        }
    }
    if m2 == TWO_53 {
        Scaled { mantissa: TWO_53 / 2, exponent: e + 1 }
    } else {
        Scaled { mantissa: m2, exponent: e }
    }
}

fn larger(a: &Scaled, b: &Scaled) -> (r: bool)
    requires
        a.normal(),
        b.normal(),
    ensures
        r == (a.value() > b.value()),
{
    proof {
        if a.exponent > b.exponent {
            lemma_larger_exponent(*a, *b);
        } else if a.exponent < b.exponent {
            lemma_larger_exponent(*b, *a);
        } else {
            let p = pow2(a.exponent as nat);
            lemma_pow2_pos(a.exponent as nat);
            let x = a.mantissa;
            let y = b.mantissa;
            assert((x * p > y * p) == (x > y)) by (nonlinear_arith)
                requires
                    p > 0,
            ;
        }
    }
    a.exponent > b.exponent || (a.exponent == b.exponent && a.mantissa > b.mantissa)
}

proof fn lemma_larger_exponent(a: Scaled, b: Scaled)
    requires
        a.normal(),
        b.normal(),
        a.exponent > b.exponent,
    ensures
        a.value() > b.value(),
{
    let p = pow2(b.exponent as nat);
    let gap = (a.exponent - b.exponent) as nat;
    lemma_pow2_adds(b.exponent as nat, gap);
    lemma_pow2_pos(b.exponent as nat);
    lemma_pow2_unfold(gap);
    lemma_pow2_pos((gap - 1) as nat);
    let g = pow2(gap);
    let x = a.mantissa;
    let y = b.mantissa;
    assert(x * (p * g) > y * p) by (nonlinear_arith)
        requires
            x >= TWO_53 / 2,
            y < TWO_53,
            g >= 2,
            p > 0,
    ;
}

proof fn lemma_zero_quotient(d: nat)
    requires
        d > 0,
    ensures
        quotient(0, d) == 0,
{
    assert(0 * scale() == 0);
    let u = spacing(0nat / d);
    lemma_spacing(0nat / d);
    let unit = d * u;
    assert(unit > 0) by (nonlinear_arith)
        requires
            unit == d * u,
            d > 0,
            u > 0,
    ;
    lemma_div_of0(unit as int);
    lemma_small_mod(0, unit);
    assert(nearest_multiple(0, unit) == 0);
}

/// Whether `a / b > c / d` at double precision.
pub fn quotient_larger(a: u128, b: u128, c: u128, d: u128) -> (r: bool)
    requires
        a <= 0x1_0000_0000_0000_0000,
        b <= 0x1_0000_0000_0000_0000,
        c <= 0x1_0000_0000_0000_0000 + 100,
        0 < d <= 0x1_0000_0000_0000_0000,
    ensures
        r == quotient_exceeds(a as nat, b as nat, c as nat, d as nat),
{
    if b == 0 {
        return a > 0;
    }
    let x = to_double(a);
    let y = to_double(b);
    let z = to_double(c);
    let w = to_double(d);
    proof {
        lemma_zero_quotient(y as nat);
        lemma_zero_quotient(w as nat);
    }
    if x == 0 {
        return false;
    }
    let left = divide(x, y);
    if z == 0 {
        proof {
            lemma_pow2_pos(left.exponent as nat);
            let m = left.mantissa;
            let p = pow2(left.exponent as nat);
            assert(m * p > 0) by (nonlinear_arith)
                requires
                    m > 0,
                    p > 0,
            ;
        }
        return true;
    }
    let right = divide(z, w);
    larger(&left, &right)
}

/// Whether `a / b > 1` at double precision.
pub fn is_larger(a: u128, b: u128) -> (r: bool)
    requires
        a <= 0x1_0000_0000_0000_0000,
        b <= 0x1_0000_0000_0000_0000,
    ensures
        r == exceeds(a as nat, b as nat),
{
    to_double(a) > to_double(b)
}

} // verus!
