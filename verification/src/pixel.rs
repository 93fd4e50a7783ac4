//! Pixel <-> axial coordinate transforms.
//!
//! Pixel space is continuous; here it is carried in fixed-point form: a
//! `PixelVec` holds coordinates in units of `1 / PIXEL_SCALE` of a pixel, and
//! a fractional cube coordinate is a triple of numerators over one common
//! denominator. The linear maps use the flat-top hex layout constants
//! `{sqrt(3), sqrt(3)/2, 3/2}` scaled by the hex radius, with `sqrt(3)`
//! approximated by `SQRT3_NUM / SQRT3_DEN`.

use vstd::prelude::*;

verus! {

use vstd::math::abs;
use vstd::arithmetic::div_mod::lemma_fundamental_div_mod;
use vstd::arithmetic::div_mod::lemma_fundamental_div_mod_converse_div;
use vstd::arithmetic::div_mod::lemma_div_is_ordered;
use crate::hex::Axial;
use crate::hex::Cube;

/// Sub-pixel units per pixel.
pub const PIXEL_SCALE: i64 = 10_000;

/// Hex radius in pixels.
pub const HEX_RADIUS: i64 = 30;

/// `SQRT3_NUM / SQRT3_DEN` approximates sqrt(3).
pub const SQRT3_NUM: i64 = 17_320_508;

pub const SQRT3_DEN: i64 = 10_000_000;

/// `2 * SQRT3_DEN`.
pub const SQRT3_DEN_X2: i64 = 20_000_000;

/// `HEX_RADIUS * sqrt(3) * PIXEL_SCALE`, rounded: sub-pixel x per unit of q.
pub const PIXEL_X_PER_Q: i64 = 519_615;

/// `HEX_RADIUS * (sqrt(3)/2) * PIXEL_SCALE`, rounded: sub-pixel x per unit of r.
pub const PIXEL_X_PER_R: i64 = 259_808;

/// `HEX_RADIUS * (3/2) * PIXEL_SCALE`: sub-pixel y per unit of r.
pub const PIXEL_Y_PER_R: i64 = 450_000;

/// Common denominator of the fractional axial coordinates read off a pixel
/// position: `90 * SQRT3_DEN * PIXEL_SCALE`.
pub const FRAC_DEN: i64 = 9_000_000_000_000;

/// Magnitude bound on the value of a fractional coordinate, and so on every
/// rounded coordinate.
pub const FRAC_COORD_LIMIT: i64 = 1_000_000_000_000_000;

/// Axial magnitude accepted by `to_vec3_pixel` without leaving `i64`.
pub const AXIAL_PIXEL_LIMIT: i64 = 1_000_000_000_000;

/// Pixel magnitude (in sub-pixel units) accepted by `from_pixel_vec3`.
pub const PIXEL_LIMIT: i64 = 100_000_000_000;

/// A pixel-space position in fixed-point form: `(x, y)` in units of
/// `1 / PIXEL_SCALE` of a pixel.
#[derive(Clone, Copy, Debug, PartialEq, Eq, Structural)]
pub struct PixelVec {
    pub x: i64,
    pub y: i64,
}

/// A fractional cube coordinate: the exact rational triple
/// `(q / den, r / den, s / den)`.
#[derive(Clone, Copy, Debug, PartialEq, Eq, Structural)]
pub struct FracCube {
    pub q: i64,
    pub r: i64,
    pub s: i64,
    pub den: i64,
}

/// The denominator is positive and every component stays within
/// `FRAC_COORD_LIMIT` hexes of the origin.
pub open spec fn frac_cube_wf(f: FracCube) -> bool {
    &&& 1 <= f.den
    &&& -(FRAC_COORD_LIMIT * f.den) <= f.q <= FRAC_COORD_LIMIT * f.den
    &&& -(FRAC_COORD_LIMIT * f.den) <= f.r <= FRAC_COORD_LIMIT * f.den
    &&& -(FRAC_COORD_LIMIT * f.den) <= f.s <= FRAC_COORD_LIMIT * f.den
}

/// The integer nearest to `n / d`, ties rounded away from zero.
pub open spec fn round_to_nearest(n: int, d: int) -> int
    recommends
        1 <= d,
{
    if n >= 0 {
        (n + d / 2) / d
    } else {
        -((-n + d / 2) / d)
    }
}

/// Rounding a fraction that lies strictly within a half of an integer `k`
/// yields `k`.
pub proof fn lemma_round_to_nearest_exact(n: int, d: int, k: int)
    requires
        1 <= d,
        -d < 2 * (n - k * d) < d,
    ensures
        round_to_nearest(n, d) == k,
{
    let hd = d / 2;
    lemma_fundamental_div_mod(d, 2);
    assert(d == 2 * hd + d % 2);
    if n >= 0 {
        assert(n + hd == k * d + (n - k * d + hd));
        assert(0 <= n - k * d + hd < d);
        lemma_fundamental_div_mod_converse_div(n + hd, d, k, n - k * d + hd);
    } else {
        assert((-k) * d == -(k * d)) by (nonlinear_arith);
        assert(-n + hd == (-k) * d + (-(n - k * d) + hd));
        assert(0 <= -(n - k * d) + hd < d);
        lemma_fundamental_div_mod_converse_div(-n + hd, d, -k, -(n - k * d) + hd);
    }
}

/// Cube rounding of a fractional cube coordinate: round each axis to the
/// nearest integer, then recompute the axis with the largest rounding error
/// as the negated sum of the other two, restoring `q + r + s == 0`.
pub open spec fn cube_round3(fq: int, fr: int, fs: int, den: int) -> (int, int, int)
    recommends
        1 <= den,
{
    let q = round_to_nearest(fq, den);
    let r = round_to_nearest(fr, den);
    let s = round_to_nearest(fs, den);
    let qd = abs(q * den - fq);
    let rd = abs(r * den - fr);
    let sd = abs(s * den - fs);
    if qd > rd && qd > sd {
        (-r - s, r, s)
    } else if rd > sd {
        (q, -q - s, s)
    } else {
        (q, r, -q - r)
    }
}

/// When every axis of the fraction lies strictly within a half of an integer
/// point whose axes sum to zero, cube rounding lands exactly on that point.
pub proof fn lemma_cube_round_exact(fq: int, fr: int, fs: int, den: int, a: int, b: int, c: int)
    requires
        1 <= den,
        -den < 2 * (fq - a * den) < den,
        -den < 2 * (fr - b * den) < den,
        -den < 2 * (fs - c * den) < den,
        a + b + c == 0,
    ensures
        cube_round3(fq, fr, fs, den) == (a, b, c),
{
    lemma_round_to_nearest_exact(fq, den, a);
    lemma_round_to_nearest_exact(fr, den, b);
    lemma_round_to_nearest_exact(fs, den, c);
}

/// Nearest-integer division of `n` by `d`, ties away from zero.
fn round_div(n: i64, d: i64) -> (r: i64)
    requires
        1 <= d,
        -(FRAC_COORD_LIMIT * d) <= n <= FRAC_COORD_LIMIT * d,
    ensures
        r as int == round_to_nearest(n as int, d as int),
        -FRAC_COORD_LIMIT <= r <= FRAC_COORD_LIMIT,
{
    let du: u128 = d as u128;
    let half: u128 = du / 2;
    proof {
        lemma_round_div_bound(n as int, d as int);
    }
    if n >= 0 {
        let nu: u128 = n as u128;
        let v: u128 = (nu + half) / du;
        v as i64
    } else {
        let nu: u128 = (-(n as i128)) as u128;
        let v: u128 = (nu + half) / du;
        -(v as i64)
    }
}

/// `|n| <= FRAC_COORD_LIMIT * d` bounds the rounded quotient by
/// `FRAC_COORD_LIMIT`.
proof fn lemma_round_div_bound(n: int, d: int)
    requires
        1 <= d,
        -(FRAC_COORD_LIMIT * d) <= n <= FRAC_COORD_LIMIT * d,
    ensures
        0 <= abs(n) + d / 2,
        (abs(n) + d / 2) / d <= FRAC_COORD_LIMIT,
        0 <= (abs(n) + d / 2) / d,
        round_to_nearest(n, d) == if n >= 0 {
            (abs(n) + d / 2) / d
        } else {
            -((abs(n) + d / 2) / d)
        },
{
    let m = abs(n) as int;
    let hd = d / 2;
    lemma_fundamental_div_mod(d, 2);
    assert(hd <= d - 1);
    assert(m + hd <= FRAC_COORD_LIMIT * d + (d - 1));
    lemma_div_is_ordered(m + hd, FRAC_COORD_LIMIT * d + (d - 1), d);
    lemma_fundamental_div_mod_converse_div(
        FRAC_COORD_LIMIT * d + (d - 1),
        d,
        FRAC_COORD_LIMIT as int,
        d - 1,
    );
    lemma_div_is_ordered(0, m + hd, d);
}

impl Cube {
    pub fn new(q: i64, r: i64, s: i64) -> (c: Self)
        ensures
            c.q == q,
            c.r == r,
            c.s == s,
    {
        Self { q, r, s }
    }

    /// Lift an axial coordinate to the cube plane `q + r + s == 0`.
    pub fn from_axial(axial: Axial) -> (c: Self)
        requires
            i64::MIN < axial.q,
            i64::MIN <= -axial.q - axial.r <= i64::MAX,
        ensures
            c.q == axial.q,
            c.r == axial.r,
            c.s == -axial.q - axial.r,
            c.q + c.r + c.s == 0,
    {
        Self { q: axial.q, r: axial.r, s: -axial.q - axial.r }
    }

    /// Round a fractional cube coordinate to the nearest hex: round each axis
    /// independently, then recompute the axis with the largest rounding error
    /// from the other two, so that `q + r + s == 0` holds exactly.
    pub fn from_cude_not_rounded(cube: FracCube) -> (c: Self)
        requires
            frac_cube_wf(cube),
        ensures
            (c.q as int, c.r as int, c.s as int) == cube_round3(
                cube.q as int,
                cube.r as int,
                cube.s as int,
                cube.den as int,
            ),
            c.q + c.r + c.s == 0,
    {
        let mut q: i64 = round_div(cube.q, cube.den);
        let mut r: i64 = round_div(cube.r, cube.den);
        let mut s: i64 = round_div(cube.s, cube.den);

        let q_diff: i128 = diff_abs(q, cube.q, cube.den);
        let r_diff: i128 = diff_abs(r, cube.r, cube.den);
        let s_diff: i128 = diff_abs(s, cube.s, cube.den);

        if (q_diff > r_diff) && (q_diff > s_diff) {
            q = -r - s;
        } else if r_diff > s_diff {
            r = -q - s;
        } else {
            s = -q - r;
        }

        Cube { q, r, s }
    }
}

/// `|k * d - n|`, the scaled rounding error of `k` against the fraction
/// `n / d`.
fn diff_abs(k: i64, n: i64, d: i64) -> (r: i128)
    requires
        1 <= d,
        -FRAC_COORD_LIMIT <= k <= FRAC_COORD_LIMIT,
    ensures
        r as int == abs(k * d - n),
{
    proof {
        let ki = k as int;
        let di = d as int;
        assert(-1_000_000_000_000_000 * 9_223_372_036_854_775_807
            <= ki * di
            <= 1_000_000_000_000_000 * 9_223_372_036_854_775_807) by (nonlinear_arith)
            requires
                -1_000_000_000_000_000 <= ki <= 1_000_000_000_000_000,
                1 <= di <= 9_223_372_036_854_775_807,
        ;
    }
    let v: i128 = (k as i128) * (d as i128) - (n as i128);
    if v < 0 {
        -v
    } else {
        v
    }
}

/// Sub-pixel x of an axial coordinate under the fixed axial-to-pixel matrix.
pub open spec fn pixel_x_of(a: Axial) -> int {
    a.q * PIXEL_X_PER_Q + a.r * PIXEL_X_PER_R
}

/// Sub-pixel y of an axial coordinate under the fixed axial-to-pixel matrix.
pub open spec fn pixel_y_of(a: Axial) -> int {
    a.r * PIXEL_Y_PER_R
}

/// The axial (cube) coordinate a pixel position falls in: the inverse linear
/// map produces a fractional cube coordinate over `FRAC_DEN`, which cube
/// rounding collapses to a hex.
pub open spec fn pixel_to_axial3(x: int, y: int) -> (int, int, int) {
    let nq = SQRT3_NUM * x - SQRT3_DEN * y;
    let nr = SQRT3_DEN_X2 * y;
    cube_round3(nq, nr, -nq - nr, FRAC_DEN as int)
}

impl Axial {
    /// The pixel-space centre of this hex.
    pub fn to_vec3_pixel(&self) -> (p: PixelVec)
        requires
            -AXIAL_PIXEL_LIMIT <= self.q <= AXIAL_PIXEL_LIMIT,
            -AXIAL_PIXEL_LIMIT <= self.r <= AXIAL_PIXEL_LIMIT,
        ensures
            p.x as int == pixel_x_of(*self),
            p.y as int == pixel_y_of(*self),
    {
        PixelVec {
            x: self.q * PIXEL_X_PER_Q + self.r * PIXEL_X_PER_R,
            y: self.r * PIXEL_Y_PER_R,
        }
    }

    /// The hex a pixel position falls in: inverse linear map, then cube
    /// rounding.
    pub fn from_pixel_vec3(pixel_pos: PixelVec) -> (a: Self)
        requires
            -PIXEL_LIMIT <= pixel_pos.x <= PIXEL_LIMIT,
            -PIXEL_LIMIT <= pixel_pos.y <= PIXEL_LIMIT,
        ensures
            ({
                let (aq, ar, _as) = pixel_to_axial3(pixel_pos.x as int, pixel_pos.y as int);
                a.q == aq && a.r == ar
            }),
    {
        let nq: i64 = SQRT3_NUM * pixel_pos.x - SQRT3_DEN * pixel_pos.y;
        let nr: i64 = SQRT3_DEN_X2 * pixel_pos.y;
        let ns: i64 = -nq - nr;
        let cube = Cube::from_cude_not_rounded(FracCube { q: nq, r: nr, s: ns, den: FRAC_DEN });
        Axial::from_cube(cube)
    }

    /// Drop the redundant `s` axis of a cube coordinate.
    pub fn from_cube(cube: Cube) -> (a: Self)
        ensures
            a.q == cube.q,
            a.r == cube.r,
    {
        Self { q: cube.q, r: cube.r }
    }
}

/// Round-trip identity: a hex sent to pixel space and read back is itself.
/// The fixed-point error of one unit of q is 4235580 / FRAC_DEN of a hex and
/// of one unit of r is 6542464 / FRAC_DEN, so within 50 hexes of the origin
/// the total error stays far below the half-hex that cube rounding absorbs.
pub proof fn lemma_pixel_round_trip(a: Axial)
    requires
        -50 <= a.q <= 50,
        -50 <= a.r <= 50,
    ensures
        pixel_to_axial3(pixel_x_of(a), pixel_y_of(a)) == (a.q as int, a.r as int, -(a.q as int) - (a.r as int)),
{
    let q = a.q as int;
    let r = a.r as int;
    let x = pixel_x_of(a);
    let y = pixel_y_of(a);
    let nq = SQRT3_NUM * x - SQRT3_DEN * y;
    let nr = SQRT3_DEN_X2 * y;
    assert(SQRT3_NUM * PIXEL_X_PER_Q == 8999995764420);
    assert(SQRT3_NUM * PIXEL_X_PER_R - SQRT3_DEN * PIXEL_Y_PER_R == 6542464);
    assert(SQRT3_DEN_X2 * PIXEL_Y_PER_R == FRAC_DEN);
    assert(nq == q * 8999995764420 + r * 6542464);
    assert(nq - q * FRAC_DEN == q * (-4235580) + r * 6542464);
    assert(nr == r * FRAC_DEN);
    assert(-FRAC_DEN < 2 * (nq - q * FRAC_DEN) < FRAC_DEN);
    assert((-nq - nr) - (-q - r) * FRAC_DEN == -(nq - q * FRAC_DEN));
    lemma_cube_round_exact(nq, nr, -nq - nr, FRAC_DEN as int, q, r, -q - r);
}

} // verus!
