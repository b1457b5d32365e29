use vstd::prelude::*;
use vstd::arithmetic::div_mod::{
    lemma_div_is_ordered, lemma_div_pos_is_pos, lemma_fundamental_div_mod,
    lemma_fundamental_div_mod_converse, lemma_mul_mod_noop,
};

use crate::error::OrbitError;
use crate::instant::{Instant, REFERENCE_EPOCH_SECONDS, SECONDS_PER_DAY};

verus! {

/// A full turn of 360 degrees, in millionths of a degree.
pub const FULL_TURN: i64 = 360_000_000;

/// Thousandths of a day in one day.
pub const MILLIDAYS_PER_DAY: u64 = 1000;

/// Days the Earth takes to complete one orbit (365.256), in thousandths of a day.
pub const YEAR_MILLIDAYS: u64 = 365_256;

/// Units of angular speed in one degree per day (speeds are in 10^-12 degree per day).
pub const SPEED_UNITS_PER_DEGREE: u64 = 1_000_000_000_000;

/// Units of an orbital period in one year (periods in years are in 10^-15 year).
pub const YEAR_UNITS: u64 = 1_000_000_000_000_000;

/// 360 degrees per orbit, in speed units, times thousandths of a day per day:
/// divided by a period in thousandths of a day it gives the angular speed.
pub const TURN_SPEED_NUMERATOR: u64 = 360 * SPEED_UNITS_PER_DEGREE * MILLIDAYS_PER_DAY;

/// One body on a circular orbit.
pub struct Planet {
    /// The planet's name.
    pub name: String,
    /// Longitude at the reference date, in millionths of a degree.
    pub mean_longitude: i64,
    /// Orbital period, in thousandths of a day.
    pub period: u32,
    /// The date that positions are measured from.
    pub ref_date: Instant,
}

/// Angular speed for a period in thousandths of a day: 360 / period degrees
/// per day, in 10^-12 degree per day, rounded down.
pub open spec fn angular_speed_of(period: int) -> int {
    TURN_SPEED_NUMERATOR as int / period
}

/// Orbital period in years (period / 365.256), in 10^-15 year, rounded down.
pub open spec fn years_of(period: int) -> int {
    period * YEAR_UNITS as int / YEAR_MILLIDAYS as int
}

/// The largest `r` with `r * r * r <= x`.
pub open spec fn cube_root_floor(x: nat) -> nat
    decreases x,
{
    if x == 0 {
        0
    } else {
        let r = cube_root_floor((x - 1) as nat);
        if (r + 1) * (r + 1) * (r + 1) <= x {
            (r + 1) as nat
        } else {
            r
        }
    }
}

/// `8` to the power `n`.
pub open spec fn eight_pow(n: nat) -> nat
    decreases n,
{
    if n == 0 {
        1
    } else {
        8 * eight_pow((n - 1) as nat)
    }
}

/// The squared period in years, scaled by `8^shift` and rounded down: its cube
/// root is the distance of Kepler's third law in units of `2^-shift` AU.
pub open spec fn scaled_radicand(period: int, shift: nat) -> int {
    period * period * eight_pow(shift) / (YEAR_MILLIDAYS * YEAR_MILLIDAYS) as int
}

/// The least radicand kept: its cube root is `2^41`.
pub const RADICAND_FLOOR: u128 = 0x800_0000_0000_0000_0000_0000_0000_0000;

/// A distance from the sun of `mantissa / 2^shift` astronomical units.
#[derive(Debug, Clone, Copy, PartialEq, Eq, Structural)]
pub struct Distance {
    pub mantissa: u64,
    pub shift: u32,
}

/// Whole days from `from` to `to` (seconds), rounded toward negative infinity.
pub open spec fn days_elapsed(from: int, to: int) -> int {
    (to - from) / SECONDS_PER_DAY as int
}

/// `a / b` rounded toward zero, for a positive `b`.
pub open spec fn div_toward_zero(a: int, b: int) -> int {
    if a >= 0 {
        a / b
    } else {
        -((-a) / b)
    }
}

/// Position, in millionths of a degree within [0, 360 degrees): the mean
/// longitude times the angle traversed in `days` days at 360 / period degrees
/// a day, rounded toward zero, then reduced modulo a full turn.
pub open spec fn position_of(mean_longitude: int, period: int, days: int) -> int {
    div_toward_zero(mean_longitude * (360 * MILLIDAYS_PER_DAY) as int * days, period)
        % FULL_TURN as int
}

/// Negating a number reflects its residue: `(-y) % m == (m - y % m) % m`.
proof fn lemma_mod_negate(y: int, m: int)
    requires
        0 < m,
    ensures
        (-y) % m == (m - y % m) % m,
        (-y) % m == if y % m == 0 { 0 } else { m - y % m },
{
    let q = y / m;
    let t = y % m;
    lemma_fundamental_div_mod(y, m);
    if t == 0 {
        assert(-y == (-q) * m + 0) by (nonlinear_arith)
            requires
                y == m * q + t,
                t == 0,
        ;
        lemma_fundamental_div_mod_converse(-y, m, -q, 0);
        lemma_fundamental_div_mod_converse(m, m, 1, 0);
    } else {
        assert(-y == (-q - 1) * m + (m - t)) by (nonlinear_arith)
            requires
                y == m * q + t,
        ;
        lemma_fundamental_div_mod_converse(-y, m, -q - 1, m - t);
        lemma_fundamental_div_mod_converse(m - t, m, 0, m - t);
    }
}

/// Cubing keeps the order of naturals, strictly.
pub proof fn lemma_cube_strictly_ordered(a: int, b: int)
    requires
        0 <= a,
        0 <= b,
        a * a * a < b * b * b,
    ensures
        a < b,
{
    if a >= b {
        assert(a * a >= b * b) by (nonlinear_arith)
            requires
                a >= b,
                b >= 0,
        ;
        assert(a * a * a >= b * b * b) by (nonlinear_arith)
            requires
                a >= b,
                b >= 0,
                a * a >= b * b,
        ;
    }
}

/// `cube_root_floor(x)` is the floor of the cube root of `x`.
pub proof fn lemma_cube_root_floor_bounds(x: nat)
    ensures
        cube_root_floor(x) * cube_root_floor(x) * cube_root_floor(x) <= x,
        x < (cube_root_floor(x) + 1) * (cube_root_floor(x) + 1) * (cube_root_floor(x) + 1),
    decreases x,
{
    if x > 0 {
        let r = cube_root_floor((x - 1) as nat);
        lemma_cube_root_floor_bounds((x - 1) as nat);
        let c = cube_root_floor(x);
        if (r + 1) * (r + 1) * (r + 1) <= x {
            assert(c == r + 1);
            assert((r + 1) * (r + 1) * (r + 1) < (r + 2) * (r + 2) * (r + 2)) by (nonlinear_arith)
                requires
                    r >= 0,
            ;
            assert((c + 1) * (c + 1) * (c + 1) == (r + 2) * (r + 2) * (r + 2));
            assert(c * c * c == (r + 1) * (r + 1) * (r + 1));
            assert(x <= (r + 1) * (r + 1) * (r + 1));
            assert(x < (c + 1) * (c + 1) * (c + 1));
        } else {
            assert(c == r);
            assert(c * c * c == r * r * r);
            assert((c + 1) * (c + 1) * (c + 1) == (r + 1) * (r + 1) * (r + 1));
        }
    } else {
        let c = cube_root_floor(x);
        assert(c == 0);
        assert((c + 1) * (c + 1) * (c + 1) == 1) by (nonlinear_arith)
            requires
                c == 0,
        ;
    }
}

/// The floor of a cube root is the one natural that brackets it.
pub proof fn lemma_cube_root_floor_unique(r: int, x: nat)
    requires
        0 <= r,
        r * r * r <= x,
        x < (r + 1) * (r + 1) * (r + 1),
    ensures
        cube_root_floor(x) == r,
{
    let c = cube_root_floor(x) as int;
    lemma_cube_root_floor_bounds(x);
    lemma_cube_strictly_ordered(c, r + 1);
    lemma_cube_strictly_ordered(r, c + 1);
}

/// The floor of the cube root does not decrease as its argument grows.
pub proof fn lemma_cube_root_floor_monotonic(x: nat, y: nat)
    requires
        x <= y,
    ensures
        cube_root_floor(x) <= cube_root_floor(y),
{
    let cx = cube_root_floor(x) as int;
    let cy = cube_root_floor(y) as int;
    lemma_cube_root_floor_bounds(x);
    lemma_cube_root_floor_bounds(y);
    lemma_cube_strictly_ordered(cx, cy + 1);
}

/// The largest `r` with `r * r * r <= x`, by bisection.
fn cube_root_floor_exec(x: u128) -> (r: u64)
    requires
        x < 0x400_0000_0000 * 0x400_0000_0000 * 0x400_0000_0000,
    ensures
        r == cube_root_floor(x as nat),
{
    let mut lo: u128 = 0;
    let mut hi: u128 = 0x400_0000_0000;
    while hi - lo > 1
        invariant
            lo < hi <= 0x400_0000_0000,
            lo * lo * lo <= x,
            x < hi * hi * hi,
        decreases hi - lo,
    {
        let mid: u128 = lo + (hi - lo) / 2;
        assert(mid * mid <= 0x400_0000_0000 * 0x400_0000_0000) by (nonlinear_arith)
            requires
                mid <= 0x400_0000_0000,
        ;
        assert(mid * mid * mid <= 0x400_0000_0000 * 0x400_0000_0000 * 0x400_0000_0000)
            by (nonlinear_arith)
            requires
                mid <= 0x400_0000_0000,
                mid * mid <= 0x400_0000_0000 * 0x400_0000_0000,
        ;
        if mid * mid * mid <= x {
            lo = mid;
        } else {
            hi = mid;
        }
    }
    proof {
        lemma_cube_root_floor_unique(lo as int, x as nat);
    }
    lo as u64
}

/// Euclidean quotient and remainder of `x` by a positive `m`.
fn floor_div_mod(x: i128, m: i128) -> (r: (i128, i128))
    requires
        0 < m,
    ensures
        r.0 == x as int / m as int,
        r.1 == x as int % m as int,
{
    if x >= 0 {
        let q: u128 = (x as u128) / (m as u128);
        let rem: u128 = (x as u128) % (m as u128);
        (q as i128, rem as i128)
    } else {
        let y: u128 = (-(x + 1)) as u128;
        let q0: u128 = y / (m as u128);
        let r0: u128 = y % (m as u128);
        proof {
            lemma_fundamental_div_mod(y as int, m as int);
            assert(q0 * m <= y) by (nonlinear_arith)
                requires
                    y == m * q0 + r0,
                    r0 >= 0,
            ;
        }
        let q: i128 = -(q0 as i128) - 1;
        let rem: i128 = m - 1 - (r0 as i128);
        proof {
            assert(x == q * m + rem) by (nonlinear_arith)
                requires
                    y == m * q0 + r0,
                    y == -(x + 1),
                    q == -q0 - 1,
                    rem == m - 1 - r0,
            ;
            lemma_fundamental_div_mod_converse(x as int, m as int, q as int, rem as int);
        }
        (q, rem)
    }
}

/// Reducing modulo `p * k` before dividing by `p` leaves the quotient's
/// residue modulo `k`.
proof fn lemma_mod_then_div(n: int, p: int, k: int)
    requires
        0 < p,
        0 < k,
    ensures
        (n % (p * k)) / p == (n / p) % k,
{
    let q = n / p;
    let r = n % p;
    lemma_fundamental_div_mod(n, p);
    let a = q / k;
    let b = q % k;
    lemma_fundamental_div_mod(q, k);
    assert(n == (p * k) * a + (p * b + r) && 0 <= p * b + r < p * k) by (nonlinear_arith)
        requires
            n == p * q + r,
            q == k * a + b,
            0 <= r < p,
            0 <= b < k,
    ;
    lemma_fundamental_div_mod_converse(n, p * k, a, p * b + r);
    lemma_fundamental_div_mod_converse(p * b + r, p, b, r);
}

/// `8^n` grows past `2^162` from `n == 54` on.
proof fn lemma_eight_pow_large(n: nat)
    requires
        n >= 54,
    ensures
        eight_pow(n) >= 0x4_0000_0000_0000_0000_0000_0000_0000_0000_0000_0000,
    decreases n,
{
    if n == 54 {
        reveal_with_fuel(eight_pow, 55);
    } else {
        lemma_eight_pow_large((n - 1) as nat);
    }
}

/// `8^n` is positive.
proof fn lemma_eight_pow_positive(n: nat)
    ensures
        eight_pow(n) >= 1,
    decreases n,
{
    if n > 0 {
        lemma_eight_pow_positive((n - 1) as nat);
    }
}

/// One step of long division by `d`: the dividend `q * d + rem` doubles.
fn double_dividend(q: u128, rem: u128, d: u128) -> (r: (u128, u128))
    requires
        q < 0x8000_0000_0000_0000_0000_0000_0000_0000,
        rem < d,
        d < 0x1_0000_0000_0000_0000,
    ensures
        r.0 * d + r.1 == 2 * (q * d + rem),
        r.1 < d,
        r.0 <= 2 * q + 1,
{
    let twice: u128 = rem * 2;
    if twice >= d {
        assert((q * 2 + 1) * d + (twice - d) == 2 * (q * d + rem)) by (nonlinear_arith)
            requires
                twice == rem * 2,
        ;
        (q * 2 + 1, twice - d)
    } else {
        assert((q * 2) * d + twice == 2 * (q * d + rem)) by (nonlinear_arith)
            requires
                twice == rem * 2,
        ;
        (q * 2, twice)
    }
}

impl Planet {
    /// The planet's parameters admit the computations below.
    pub open spec fn wf(&self) -> bool {
        &&& self.period > 0
        &&& self.ref_date.seconds == REFERENCE_EPOCH_SECONDS
    }

    /// Position at a date, as the model defines it.
    pub open spec fn position_at(&self, date: Instant) -> int {
        position_of(
            self.mean_longitude as int,
            self.period as int,
            days_elapsed(self.ref_date.seconds as int, date.seconds as int),
        )
    }

    /// Makes a planet measured from 2000-01-01T00:00:00 UTC; a period of zero
    /// is refused.
    pub fn new(name: String, mean_longitude: i64, period: u32) -> (r: Result<Planet, OrbitError>)
        ensures
            r is Ok <==> period > 0,
            period == 0 ==> r == Err::<Planet, OrbitError>(OrbitError::InvalidParameter),
            r matches Ok(p) ==> {
                &&& p.wf()
                &&& p.name == name
                &&& p.mean_longitude == mean_longitude
                &&& p.period == period
                &&& p.ref_date.seconds == REFERENCE_EPOCH_SECONDS
            },
    {
        if period == 0 {
            return Err(OrbitError::InvalidParameter);
        }
        Ok(Planet { name, mean_longitude, period, ref_date: Instant::reference_epoch() })
    }

    /// Angular speed, 360 / period degrees per day, in 10^-12 degree per day.
    pub fn get_angular_speed(&self) -> (r: u64)
        requires
            self.wf(),
        ensures
            r == angular_speed_of(self.period as int),
            r * self.period <= TURN_SPEED_NUMERATOR < (r + 1) * self.period,
    {
        let r: u64 = TURN_SPEED_NUMERATOR / (self.period as u64);
        proof {
            let n = TURN_SPEED_NUMERATOR as int;
            let d = self.period as int;
            lemma_fundamental_div_mod(n, d);
            assert(r * d <= n < (r + 1) * d) by (nonlinear_arith)
                requires
                    n == d * r + n % d,
                    0 <= n as int % d < d,
            ;
        }
        r
    }

    /// Orbital period in years, period / 365.256, in 10^-15 year.
    pub fn get_years(&self) -> (r: u64)
        ensures
            r == years_of(self.period as int),
            r * YEAR_MILLIDAYS <= self.period * YEAR_UNITS < (r + 1) * YEAR_MILLIDAYS,
    {
        let p: u128 = self.period as u128;
        assert(p * 1_000_000_000_000_000 <= 0xffff_ffff * 1_000_000_000_000_000) by (nonlinear_arith)
            requires
                p <= 0xffff_ffff,
        ;
        let n: u128 = p * (YEAR_UNITS as u128);
        let q: u128 = n / (YEAR_MILLIDAYS as u128);
        proof {
            let d = YEAR_MILLIDAYS as int;
            lemma_fundamental_div_mod(n as int, d);
            assert(q * d <= n < (q + 1) * d) by (nonlinear_arith)
                requires
                    n == d * q + n as int % d,
                    0 <= n as int % d < d,
            ;
            assert(q <= 0xffff_ffff_ffff_ffff) by (nonlinear_arith)
                requires
                    q * d <= n,
                    d == 365_256,
                    n <= 0xffff_ffff * 1_000_000_000_000_000,
            ;
        }
        q as u64
    }

    /// Distance from the sun in astronomical units by Kepler's third law,
    /// the cube root of the squared period in years, as `mantissa / 2^shift`
    /// rounded down: `shift` is the least at which the mantissa reaches
    /// `2^41`, so the relative error stays below `2^-41`.
    pub fn get_au(&self) -> (r: Distance)
        requires
            self.wf(),
        ensures
            r.mantissa == cube_root_floor(scaled_radicand(self.period as int, r.shift as nat) as nat),
            scaled_radicand(self.period as int, r.shift as nat) >= RADICAND_FLOOR,
            r.shift == 0 || scaled_radicand(self.period as int, (r.shift - 1) as nat)
                < RADICAND_FLOOR,
            0x200_0000_0000 <= r.mantissa < 0x400_0000_0000,
            r.mantissa * r.mantissa * r.mantissa * (YEAR_MILLIDAYS * YEAR_MILLIDAYS) <= self.period
                * self.period * eight_pow(r.shift as nat),
            self.period * self.period * eight_pow(r.shift as nat) < (r.mantissa + 1) * (r.mantissa
                + 1) * (r.mantissa + 1) * (YEAR_MILLIDAYS * YEAR_MILLIDAYS),
    {
        let p: u128 = self.period as u128;
        assert(p * p <= 0xffff_ffff * 0xffff_ffff) by (nonlinear_arith)
            requires
                p <= 0xffff_ffff,
        ;
        let square: u128 = p * p;
        let d: u128 = (YEAR_MILLIDAYS * YEAR_MILLIDAYS) as u128;
        let mut q: u128 = square / d;
        let mut rem: u128 = square % d;
        let mut shift: u32 = 0;
        proof {
            lemma_fundamental_div_mod(square as int, d as int);
            assert(eight_pow(0) == 1);
            assert(q * d + rem == square * eight_pow(0)) by (nonlinear_arith)
                requires
                    square == d * q + rem,
                    eight_pow(0) == 1,
            ;
            assert(square >= 1) by (nonlinear_arith)
                requires
                    square == p * p,
                    p >= 1,
            ;
        }
        while q < RADICAND_FLOOR
            invariant
                d == 133_411_945_536,
                1 <= square < 0x1_0000_0000_0000_0000,
                q * d + rem == square * eight_pow(shift as nat),
                rem < d,
                shift <= 54,
                q < 0x4000_0000_0000_0000_0000_0000_0000_0000,
                shift == 0 || square * eight_pow((shift - 1) as nat) < RADICAND_FLOOR * d,
                shift > 0 || q < 0x1_0000_0000_0000_0000,
            decreases 54 - shift,
        {
            let ghost before: int = q * d + rem;
            proof {
                assert(before < RADICAND_FLOOR * d) by (nonlinear_arith)
                    requires
                        before == q * d + rem,
                        q < RADICAND_FLOOR,
                        rem < d,
                ;
                assert(square * eight_pow(shift as nat) >= eight_pow(shift as nat)) by (nonlinear_arith)
                    requires
                        square >= 1,
                ;
                lemma_eight_pow_positive(shift as nat);
                if shift >= 54 {
                    lemma_eight_pow_large(shift as nat);
                }
            }
            let (q1, r1) = double_dividend(q, rem, d);
            let (q2, r2) = double_dividend(q1, r1, d);
            let (q3, r3) = double_dividend(q2, r2, d);
            q = q3;
            rem = r3;
            shift = shift + 1;
            proof {
                assert(q * d + rem == 8 * before);
                assert(eight_pow(shift as nat) == 8 * eight_pow((shift - 1) as nat));
                assert(q * d + rem == square * eight_pow(shift as nat)) by (nonlinear_arith)
                    requires
                        q * d + rem == 8 * before,
                        before == square * eight_pow((shift - 1) as nat),
                        eight_pow(shift as nat) == 8 * eight_pow((shift - 1) as nat),
                ;
                assert(q * d + rem > before);
                assert(q < 0x4000_0000_0000_0000_0000_0000_0000_0000) by (nonlinear_arith)
                    requires
                        q * d + rem == 8 * before,
                        before < RADICAND_FLOOR * d,
                        d > 0,
                        rem >= 0,
                ;
            }
        }
        proof {
            let total = q * d + rem;
            lemma_fundamental_div_mod_converse(total, d as int, q as int, rem as int);
            if shift > 0 {
                let earlier = square * eight_pow((shift - 1) as nat);
                lemma_fundamental_div_mod(earlier, d as int);
                assert(earlier / (d as int) < RADICAND_FLOOR) by (nonlinear_arith)
                    requires
                        earlier < RADICAND_FLOOR * d,
                        earlier == d * (earlier / (d as int)) + earlier % (d as int),
                        earlier % (d as int) >= 0,
                        d > 0,
                ;
                assert(eight_pow(shift as nat) == 8 * eight_pow((shift - 1) as nat));
                assert(total == 8 * earlier) by (nonlinear_arith)
                    requires
                        total == square * eight_pow(shift as nat),
                        earlier == square * eight_pow((shift - 1) as nat),
                        eight_pow(shift as nat) == 8 * eight_pow((shift - 1) as nat),
                ;
                assert(q < 0x400_0000_0000 * 0x400_0000_0000 * 0x400_0000_0000) by (nonlinear_arith)
                    requires
                        total == 8 * earlier,
                        earlier < RADICAND_FLOOR * d,
                        total == q * d + rem,
                        d > 0,
                        rem >= 0,
                ;
            }
        }
        let mantissa = cube_root_floor_exec(q);
        proof {
            lemma_cube_root_floor_unique(0x200_0000_0000, RADICAND_FLOOR as nat);
            lemma_cube_root_floor_monotonic(RADICAND_FLOOR as nat, q as nat);
            lemma_cube_root_floor_bounds(q as nat);
            let m = mantissa as int;
            let total = q * d + rem;
            assert(m * m * m * d <= total && total < (m + 1) * (m + 1) * (m + 1) * d)
                by (nonlinear_arith)
                requires
                    m * m * m <= q,
                    q < (m + 1) * (m + 1) * (m + 1),
                    total == q * d + rem,
                    0 <= rem < d,
            ;
            if mantissa >= 0x400_0000_0000 {
                assert(mantissa * mantissa * mantissa >= 0x400_0000_0000 * 0x400_0000_0000
                    * 0x400_0000_0000) by (nonlinear_arith)
                    requires
                        mantissa >= 0x400_0000_0000,
                ;
            }
        }
        Distance { mantissa, shift }
    }

    /// Position at `date`, in millionths of a degree within [0, 360 degrees):
    /// the mean longitude times the angle traversed over the whole days
    /// elapsed since the reference date (negative before it), rounded toward
    /// zero and reduced modulo a full turn. The product of the two angles is
    /// the model's own rule, kept as it is rather than replaced by their sum.
    pub fn get_position_at_date(&self, date: Instant) -> (r: i64)
        requires
            self.wf(),
        ensures
            r == self.position_at(date),
            0 <= r < FULL_TURN,
    {
        let elapsed: i128 = date.seconds as i128 - self.ref_date.seconds as i128;
        let (days, rest) = floor_div_mod(elapsed, SECONDS_PER_DAY as i128);
        proof {
            lemma_fundamental_div_mod(elapsed as int, SECONDS_PER_DAY as int);
            assert(-0x1_0000_0000_0000_0000 <= days <= 0x1_0000_0000_0000_0000) by (nonlinear_arith)
                requires
                    elapsed == 86_400 * days + rest,
                    0 <= rest < 86_400,
                    -0x1_0000_0000_0000_0000 <= elapsed <= 0x1_0000_0000_0000_0000,
            ;
        }
        let negative: bool = (self.mean_longitude < 0) != (days < 0);
        let longitude_size: i128 = if self.mean_longitude < 0 {
            -(self.mean_longitude as i128)
        } else {
            self.mean_longitude as i128
        };
        let days_size: i128 = if days < 0 { -days } else { days };
        let span_factor: i128 = (360 * MILLIDAYS_PER_DAY) as i128;
        let span: i128 = days_size * span_factor;
        let p: i128 = self.period as i128;
        assert(p * 360_000_000 <= 0xffff_ffff * 360_000_000) by (nonlinear_arith)
            requires
                0 < p <= 0xffff_ffff,
        ;
        let turn: i128 = p * (FULL_TURN as i128);
        let (_, a) = floor_div_mod(longitude_size, turn);
        let (_, b) = floor_div_mod(span, turn);
        assert(a * b < turn * turn) by (nonlinear_arith)
            requires
                0 <= a < turn,
                0 <= b < turn,
        ;
        assert(turn * turn <= 0x2000_0000_0000_0000 * 0x2000_0000_0000_0000) by (nonlinear_arith)
            requires
                0 < turn <= 0xffff_ffff * 360_000_000,
        ;
        let (_, n) = floor_div_mod(a * b, turn);
        let (angle, _) = floor_div_mod(n, p);
        proof {
            let ml = self.mean_longitude as int;
            let size = longitude_size * span;
            let whole = ml * (360 * MILLIDAYS_PER_DAY) as int * days;
            lemma_mul_mod_noop(longitude_size as int, span as int, turn as int);
            lemma_mod_then_div(size, p as int, FULL_TURN as int);
            lemma_fundamental_div_mod(n as int, p as int);
            assert(0 <= longitude_size);
            assert(0 <= days_size);
            assert(0 <= span);
            assert(0 <= size) by (nonlinear_arith)
                requires
                    size == longitude_size * span,
                    0 <= longitude_size,
                    0 <= span,
            ;
            if negative {
                assert(whole == -size) by (nonlinear_arith)
                    requires
                        span == days_size * 360_000,
                        (ml < 0 && longitude_size == -ml && days >= 0 && days_size == days)
                            || (ml >= 0 && longitude_size == ml && days < 0 && days_size
                            == -days),
                        whole == ml * 360_000 * days,
                        size == longitude_size * span,
                ;
                lemma_mod_negate(size / p as int, FULL_TURN as int);
            } else {
                assert(whole == size) by (nonlinear_arith)
                    requires
                        span == days_size * 360_000,
                        (ml < 0 && longitude_size == -ml && days < 0 && days_size == -days)
                            || (ml >= 0 && longitude_size == ml && days >= 0 && days_size
                            == days),
                        whole == ml * 360_000 * days,
                        size == longitude_size * span,
                ;
            }
        }
        if negative && angle != 0 {
            (FULL_TURN as i128 - angle) as i64
        } else {
            angle as i64
        }
    }
}

/// Positions the same whole number of days after and before the reference
/// date mirror each other: they add up to a full turn, or are both zero.
pub proof fn lemma_position_symmetric(planet: &Planet, after: Instant, before: Instant, k: int)
    requires
        planet.wf(),
        after.seconds == planet.ref_date.seconds + k * SECONDS_PER_DAY,
        before.seconds == planet.ref_date.seconds - k * SECONDS_PER_DAY,
    ensures
        planet.position_at(before) == (FULL_TURN - planet.position_at(after)) % FULL_TURN as int,
{
    let d = SECONDS_PER_DAY as int;
    let r = planet.ref_date.seconds as int;
    assert(before.seconds - r == (-k) * d) by (nonlinear_arith)
        requires
            before.seconds == r - k * d,
    ;
    lemma_fundamental_div_mod_converse(after.seconds - r, d, k, 0);
    lemma_fundamental_div_mod_converse(before.seconds - r, d, -k, 0);
    let ml = planet.mean_longitude as int;
    let p = planet.period as int;
    let x = ml * (360 * MILLIDAYS_PER_DAY) as int * k;
    assert(ml * (360 * MILLIDAYS_PER_DAY) as int * (-k) == -x) by (nonlinear_arith)
        requires
            x == ml * (360 * MILLIDAYS_PER_DAY) as int * k,
    ;
    assert(div_toward_zero(-x, p) == -div_toward_zero(x, p)) by {
        if x == 0 {
            assert(0int / p == 0) by (nonlinear_arith)
                requires
                    p > 0,
            ;
        }
    }
    lemma_mod_negate(div_toward_zero(x, p), FULL_TURN as int);
}

/// A longer orbital period never gives a shorter period in years, nor, at
/// one scale, a smaller distance from the sun.
pub proof fn lemma_distance_monotonic(p1: int, p2: int, shift: nat)
    requires
        0 <= p1 <= p2,
    ensures
        years_of(p1) <= years_of(p2),
        scaled_radicand(p1, shift) <= scaled_radicand(p2, shift),
        cube_root_floor(scaled_radicand(p1, shift) as nat) <= cube_root_floor(
            scaled_radicand(p2, shift) as nat,
        ),
{
    assert(p1 * YEAR_UNITS as int <= p2 * YEAR_UNITS as int);
    lemma_div_is_ordered(p1 * YEAR_UNITS as int, p2 * YEAR_UNITS as int, YEAR_MILLIDAYS as int);
    let c = eight_pow(shift) as int;
    let d = (YEAR_MILLIDAYS * YEAR_MILLIDAYS) as int;
    assert(p1 * p1 * c <= p2 * p2 * c) by (nonlinear_arith)
        requires
            0 <= p1 <= p2,
            c >= 0,
    ;
    assert(0 <= p1 * p1 * c) by (nonlinear_arith)
        requires
            0 <= p1,
            c >= 0,
    ;
    lemma_div_is_ordered(p1 * p1 * c, p2 * p2 * c, d);
    lemma_div_pos_is_pos(p1 * p1 * c, d);
    lemma_cube_root_floor_monotonic(
        scaled_radicand(p1, shift) as nat,
        scaled_radicand(p2, shift) as nat,
    );
}

/// `2` to the power `n`.
pub open spec fn two_pow(n: nat) -> nat
    decreases n,
{
    if n == 0 {
        1
    } else {
        2 * two_pow((n - 1) as nat)
    }
}

/// The cube of `2^n` is `8^n`.
proof fn lemma_two_pow_cubed(n: nat)
    ensures
        two_pow(n) * two_pow(n) * two_pow(n) == eight_pow(n),
        two_pow(n) >= 1,
    decreases n,
{
    if n > 0 {
        lemma_two_pow_cubed((n - 1) as nat);
        let t = two_pow((n - 1) as nat);
        let u = two_pow(n);
        assert(u == 2 * t);
        assert(eight_pow(n) == 8 * eight_pow((n - 1) as nat));
        assert(u * u * u == 8 * (t * t * t)) by (nonlinear_arith)
            requires
                u == 2 * t,
        ;
    } else {
        assert(two_pow(n) == 1 && eight_pow(n) == 1);
        assert(two_pow(n) * two_pow(n) * two_pow(n) == 1) by (nonlinear_arith)
            requires
                two_pow(n) == 1,
        ;
    }
}

/// Where the mantissa is large beside the period, one more thousandth of a
/// day outweighs the rounding of the cube root.
proof fn lemma_rounding_outweighed(b: int, p: int)
    requires
        1 <= p,
        4 * p <= b,
    ensures
        (b + 1) * (b + 1) * (b + 1) * (p * p) <= (p + 1) * (p + 1) * (b * b * b),
{
    assert(2 * b * b * b * p >= 8 * b * b * p * p) by (nonlinear_arith)
        requires
            4 * p <= b,
            1 <= p,
    ;
    assert(3 * b * b * p * p + 3 * b * p * p + p * p <= 8 * b * b * p * p) by (nonlinear_arith)
        requires
            4 * p <= b,
            1 <= p,
    ;
    assert((b + 1) * (b + 1) * (b + 1) * (p * p) == b * b * b * p * p + 3 * b * b * p * p + 3 * b
        * p * p + p * p) by (nonlinear_arith);
    assert((p + 1) * (p + 1) * (b * b * b) == b * b * b * p * p + 2 * b * b * b * p + b * b * b)
        by (nonlinear_arith);
    assert(b * b * b >= 0) by (nonlinear_arith)
        requires
            b >= 0,
    ;
}

/// A strictly longer period gives a strictly greater distance, the
/// distances compared as the numbers `mantissa / 2^shift` that `get_au`
/// returns.
pub proof fn lemma_distance_strictly_increasing(p1: int, p2: int, a: Distance, b: Distance)
    requires
        1 <= p1 < p2 <= 0xffff_ffff,
        a.mantissa == cube_root_floor(scaled_radicand(p1, a.shift as nat) as nat),
        b.mantissa == cube_root_floor(scaled_radicand(p2, b.shift as nat) as nat),
        0x200_0000_0000 <= a.mantissa,
        0x200_0000_0000 <= b.mantissa,
    ensures
        a.mantissa * two_pow(b.shift as nat) < b.mantissa * two_pow(a.shift as nat),
{
    let am = a.mantissa as int;
    let bm = b.mantissa as int;
    let ea = eight_pow(a.shift as nat) as int;
    let eb = eight_pow(b.shift as nat) as int;
    let ta = two_pow(a.shift as nat) as int;
    let tb = two_pow(b.shift as nat) as int;
    let d = (YEAR_MILLIDAYS * YEAR_MILLIDAYS) as int;
    lemma_two_pow_cubed(a.shift as nat);
    lemma_two_pow_cubed(b.shift as nat);
    lemma_eight_pow_positive(a.shift as nat);
    lemma_eight_pow_positive(b.shift as nat);
    let n1 = p1 * p1 * ea;
    let n2 = p2 * p2 * eb;
    let r1 = scaled_radicand(p1, a.shift as nat);
    let r2 = scaled_radicand(p2, b.shift as nat);
    assert(n1 >= 0 && n2 >= 0) by (nonlinear_arith)
        requires
            n1 == p1 * p1 * ea,
            n2 == p2 * p2 * eb,
            ea >= 1,
            eb >= 1,
    ;
    lemma_fundamental_div_mod(n1, d);
    lemma_fundamental_div_mod(n2, d);
    lemma_div_pos_is_pos(n1, d);
    lemma_div_pos_is_pos(n2, d);
    lemma_cube_root_floor_bounds(r1 as nat);
    lemma_cube_root_floor_bounds(r2 as nat);
    // am^3 * d <= n1 and n2 < (bm + 1)^3 * d
    assert(am * am * am * d <= n1) by (nonlinear_arith)
        requires
            am * am * am <= r1,
            n1 == d * r1 + n1 % d,
            n1 % d >= 0,
            d > 0,
    ;
    assert(n2 < (bm + 1) * (bm + 1) * (bm + 1) * d) by (nonlinear_arith)
        requires
            r2 < (bm + 1) * (bm + 1) * (bm + 1),
            n2 == d * r2 + n2 % d,
            n2 % d < d,
            d > 0,
    ;
    if am * tb >= bm * ta {
        if (am * tb) * (am * tb) * (am * tb) < (bm * ta) * (bm * ta) * (bm * ta) {
            assert(am * tb >= 0 && bm * ta >= 0) by (nonlinear_arith)
                requires
                    am >= 0,
                    bm >= 0,
                    ta >= 1,
                    tb >= 1,
            ;
            lemma_cube_strictly_ordered(am * tb, bm * ta);
        }
        assert(am * am * am * eb >= bm * bm * bm * ea) by (nonlinear_arith)
            requires
                (am * tb) * (am * tb) * (am * tb) >= (bm * ta) * (bm * ta) * (bm * ta),
                ta * ta * ta == ea,
                tb * tb * tb == eb,
        ;
        let e = ea * eb;
        let f = d * ea;
        assert(p1 * p1 * e >= bm * bm * bm * f) by (nonlinear_arith)
            requires
                am * am * am * d <= n1,
                n1 == p1 * p1 * ea,
                am * am * am * eb >= bm * bm * bm * ea,
                e == ea * eb,
                f == d * ea,
                eb >= 1,
                d > 0,
        ;
        assert((bm + 1) * (bm + 1) * (bm + 1) * f > (p1 + 1) * (p1 + 1) * e) by (nonlinear_arith)
            requires
                n2 < (bm + 1) * (bm + 1) * (bm + 1) * d,
                n2 == p2 * p2 * eb,
                p1 + 1 <= p2,
                p1 >= 1,
                e == ea * eb,
                f == d * ea,
                ea >= 1,
                eb >= 1,
        ;
        assert(e >= 1 && f >= 1) by (nonlinear_arith)
            requires
                e == ea * eb,
                f == d * ea,
                ea >= 1,
                eb >= 1,
                d > 0,
        ;
        assert((bm + 1) * (bm + 1) * (bm + 1) * (p1 * p1) > (p1 + 1) * (p1 + 1) * (bm * bm * bm))
            by (nonlinear_arith)
            requires
                p1 * p1 * e >= bm * bm * bm * f,
                (bm + 1) * (bm + 1) * (bm + 1) * f > (p1 + 1) * (p1 + 1) * e,
                e >= 1,
                f >= 1,
                p1 >= 1,
        ;
        lemma_rounding_outweighed(bm, p1);
    }
}

/// At its own reference date a planet stands at position zero, whatever its
/// mean longitude.
pub proof fn lemma_position_at_reference_date(planet: &Planet)
    requires
        planet.wf(),
    ensures
        planet.position_at(planet.ref_date) == 0,
{
    assert(days_elapsed(planet.ref_date.seconds as int, planet.ref_date.seconds as int) == 0);
    assert(planet.mean_longitude as int * (360 * MILLIDAYS_PER_DAY) as int * 0 == 0);
}

/// The position depends on the mean longitude, the period, the reference date
/// and the date alone: asking twice gives the same answer.
pub proof fn lemma_position_repeatable(a: &Planet, b: &Planet, date_a: Instant, date_b: Instant)
    requires
        a.mean_longitude == b.mean_longitude,
        a.period == b.period,
        a.ref_date == b.ref_date,
        date_a == date_b,
    ensures
        a.position_at(date_a) == b.position_at(date_b),
{
}

} // verus!
