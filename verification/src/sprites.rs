//! Procedural RGBA sprites of the flappy-bird demo: the mascot bird, the
//! neon pipe, the ground and ceiling strips and the faint background grid.
//!
//! Every generator returns a row-major buffer of `w * h` pixels, four bytes
//! (red, green, blue, alpha) per pixel. The rules of the ground, ceiling,
//! grid and bird compute in single precision, at any size: coordinates
//! `x as f32 / w as f32` and `y as f32 / h as f32`, the decimal constants
//! they are compared with and the arithmetic on them are binary32 values,
//! rounded as `binary32` describes.
use vstd::arithmetic::power2::pow2;
use vstd::prelude::*;

use crate::binary32;
use crate::binary32::{
    at_most, diff_at, f32_diff, f32_product, f32_quotient, f32_sum, f32_trunc, fl_le, fl_lt, fv,
    int_at, int_to_f32, is_canonical, lemma_rounds_large_exists, lemma_to_f32_bounded, round_large,
    rounded_large, rounds_large, in_binade, rounds_to, le_at, lemma_at_most_mono, lemma_below_one, lemma_exponent_below,
    lemma_int_to_f32_monotone, lemma_to_f32, pow2_u128, product_at, quotient_at, round_ratio, sum_at, to_f32,
    trunc_at,
};

verus! {

/// One pixel: red, green, blue, alpha.
pub type Rgba = (u8, u8, u8, u8);

/// Channel `c` (0 red, 1 green, 2 blue, 3 alpha) of a pixel.
pub open spec fn channel(p: Rgba, c: int) -> u8 {
    if c == 0 {
        p.0
    } else if c == 1 {
        p.1
    } else if c == 2 {
        p.2
    } else {
        p.3
    }
}

/// The row-major RGBA bytes of a `w` by `h` image whose pixel at column `x`,
/// row `y` is `pixel(x, y)`.
pub open spec fn image_bytes(w: int, h: int, pixel: spec_fn(int, int) -> Rgba) -> Seq<u8> {
    pixel_prefix(w, w * h, pixel)
}

/// The bytes of the first `n` pixels, in row-major order, of an image `w`
/// pixels wide.
pub open spec fn pixel_prefix(w: int, n: int, pixel: spec_fn(int, int) -> Rgba) -> Seq<u8> {
    Seq::new((n * 4) as nat, |i: int| channel(pixel((i / 4) % w, (i / 4) / w), i % 4))
}

/// Byte `(y * w + x) * 4 + c` of an image is channel `c` of the pixel at `(x, y)`.
pub proof fn lemma_image_pixel(w: int, h: int, pixel: spec_fn(int, int) -> Rgba, x: int, y: int, c: int)
    requires
        0 <= x < w,
        0 <= y < h,
        0 <= c < 4,
    ensures
        (y * w + x) * 4 + c < image_bytes(w, h, pixel).len(),
        image_bytes(w, h, pixel)[(y * w + x) * 4 + c] == channel(pixel(x, y), c),
{
    let i = (y * w + x) * 4 + c;
    assert(0 <= y * w + x < w * h) by (nonlinear_arith)
        requires
            0 <= x < w,
            0 <= y < h,
    ;
    assert(i / 4 == y * w + x);
    assert(i % 4 == c);
    assert(y * w == w * y) by (nonlinear_arith);
    vstd::arithmetic::div_mod::lemma_fundamental_div_mod_converse(y * w + x, w, y, x);
}

pub const NEON: Rgba = (0u8, 240u8, 118u8, 255u8);

pub const NEON_LINE: Rgba = (0u8, 230u8, 118u8, 255u8);

pub const SLATE: Rgba = (14u8, 20u8, 28u8, 255u8);

// ---------------------------------------------------------------------------
// Ground and ceiling
// ---------------------------------------------------------------------------

/// The pixel coordinate `v` relative to the side `n`, as computed in single
/// precision: `v as f32 / n as f32`, both conversions and the quotient
/// rounded to binary32.
pub open spec fn coordinate(v: int, n: int) -> (int, nat) {
    to_f32(int_to_f32(v), int_to_f32(n))
}

/// The binary32 literal for `p / 100`.
pub open spec fn hundredths(p: int) -> (int, nat) {
    to_f32(p, 100)
}

/// Ground: with `fy = y / h` in binary32, a bright line where `fy < 0.06`,
/// a glow band where `fy < 0.12`, a dark slate base below.
pub open spec fn ground_pixel(x: int, y: int, w: int, h: int) -> Rgba {
    if fl_lt(coordinate(y, h), hundredths(6)) {
        NEON_LINE
    } else if fl_lt(coordinate(y, h), hundredths(12)) {
        NEON
    } else {
        SLATE
    }
}

/// Ceiling: the ground flipped vertically, so that the bright line runs
/// along the bottom edge; row `y` is row `h - 1 - y` of the ground.
pub open spec fn ceiling_pixel(x: int, y: int, w: int, h: int) -> Rgba {
    ground_pixel(x, h - 1 - y, w, h)
}

/// The ceiling image is the ground image flipped vertically: each byte of
/// ceiling row `y` equals the same byte of ground row `h - 1 - y`.
pub proof fn law_ceiling_flips_ground(w: int, h: int, x: int, y: int, c: int)
    requires
        0 <= x < w,
        0 <= y < h,
        0 <= c < 4,
    ensures
        image_bytes(w, h, |x: int, y: int| ceiling_pixel(x, y, w, h))[(y * w + x) * 4 + c] == image_bytes(
            w,
            h,
            |x: int, y: int| ground_pixel(x, y, w, h),
        )[((h - 1 - y) * w + x) * 4 + c],
{
    lemma_image_pixel(w, h, |x: int, y: int| ceiling_pixel(x, y, w, h), x, y, c);
    lemma_image_pixel(w, h, |x: int, y: int| ground_pixel(x, y, w, h), x, h - 1 - y, c);
}

/// `v as f32 / n as f32` for `v < n`, with its exponent bound.
fn ratio_at(v: usize, n: usize) -> (r: (u64, u32))
    requires
        v < n,
    ensures
        fv(r) == coordinate(v as int, n as int),
        r.1 < 90,
        is_canonical(fv(r)),
        at_most(fv(r), 0),
{
    let fv_v = int_at(v as u64);
    let fv_n = int_at(n as u64);
    proof {
        vstd::arithmetic::power2::lemma2_to64();
        vstd::arithmetic::power2::lemma_pow2_unfold(65);
        vstd::arithmetic::power2::lemma_pow2_adds(65, 35);
        vstd::arithmetic::power2::lemma_pow2_adds(24, 65);
        vstd::arithmetic::power2::lemma_pow2_pos(35);
        lemma_int_to_f32_monotone(v as int, n as int, fv_v as int, fv_n as int);
        assert(fv_n < pow2(65));
        assert(fv_n < pow2(100)) by (nonlinear_arith)
            requires
                fv_n < pow2(65),
                pow2(100) == pow2(65) * pow2(35),
                0 < pow2(35),
        ;
        assert((fv_v as int) < pow2(23) * (fv_n as int)) by (nonlinear_arith)
            requires
                fv_v <= fv_n,
                0 < fv_n,
                pow2(23) == 0x80_0000,
        ;
    }
    let r = round_ratio(fv_v, fv_n);
    proof {
        if fv_v > 0 {
            assert(pow2(24) * (fv_n as int) <= pow2(89)) by (nonlinear_arith)
                requires
                    fv_n < pow2(65),
                    pow2(89) == pow2(24) * pow2(65),
                    0 < pow2(24),
            ;
            lemma_exponent_below(r.1 as nat, 89);
        }
    }
    r
}

/// A binary32 literal `p / 100`, with its exponent bound.
fn hundredths_at(p: u128) -> (r: (u64, u32))
    requires
        0 < p <= 100,
    ensures
        (r.0 as int, r.1 as nat) == hundredths(p as int),
        r.0 <= 0x100_0000,
        r.1 < 31,
        is_canonical(fv(r)),
{
    proof {
        vstd::arithmetic::power2::lemma2_to64();
        vstd::arithmetic::power2::lemma_pow2_adds(64, 36);
        vstd::arithmetic::power2::lemma_pow2_adds(32, 4);
    }
    let r = round_ratio(p, 100);
    proof {
        lemma_exponent_below(r.1 as nat, 31);
    }
    r
}

// ---------------------------------------------------------------------------
// Pipe
// ---------------------------------------------------------------------------

/// Distance in pixels from `(x, y)` to the nearest edge of a `w` by `h` image.
pub open spec fn edge_distance(x: int, y: int, w: int, h: int) -> int {
    let dx = if x <= w - 1 - x { x } else { w - 1 - x };
    let dy = if y <= h - 1 - y { y } else { h - 1 - y };
    if dx <= dy { dx } else { dy }
}

/// Alpha of the pipe glow `k` pixels inside the border: the value of
/// `30 * (1 - k / 9)` computed in binary32 and truncated, which gives 19
/// rather than 20 at `k = 3` and 9 rather than 10 at `k = 6`.
pub open spec fn pipe_glow_alpha(k: int) -> u8 {
    if k == 0 {
        30
    } else if k == 1 {
        26
    } else if k == 2 {
        23
    } else if k == 3 {
        19
    } else if k == 4 {
        16
    } else if k == 5 {
        13
    } else if k == 6 {
        9
    } else if k == 7 {
        6
    } else {
        3
    }
}

/// Pipe: a 3-pixel neon border, a 9-pixel glow fading inwards, a dark body.
pub open spec fn pipe_pixel(x: int, y: int, w: int, h: int) -> Rgba {
    let e = edge_distance(x, y, w, h);
    if e < 3 {
        NEON
    } else if e < 12 {
        (0u8, 240u8, 118u8, pipe_glow_alpha(e - 3))
    } else {
        (10u8, 20u8, 13u8, 255u8)
    }
}

fn pipe_at(x: usize, y: usize, w: usize, h: usize) -> (p: Rgba)
    requires
        x < w,
        y < h,
    ensures
        p == pipe_pixel(x as int, y as int, w as int, h as int),
{
    let dx = if x <= w - 1 - x { x } else { w - 1 - x };
    let dy = if y <= h - 1 - y { y } else { h - 1 - y };
    let e = if dx <= dy { dx } else { dy };
    if e < 3 {
        NEON
    } else if e < 12 {
        let a: u8 = match e - 3 {
            0 => 30,
            1 => 26,
            2 => 23,
            3 => 19,
            4 => 16,
            5 => 13,
            6 => 9,
            7 => 6,
            _ => 3,
        };
        (0u8, 240u8, 118u8, a)
    } else {
        (10u8, 20u8, 13u8, 255u8)
    }
}

// ---------------------------------------------------------------------------
// Grid
// ---------------------------------------------------------------------------

/// `p / q` rounded to binary32, as a fraction `(num, den)`: below 2^23 the
/// value `m / 2^k`, from 2^23 on an integer (`den` 1).
pub open spec fn f32_fraction(p: int, q: int) -> (int, int) {
    if p < pow2(23) * q {
        let r = to_f32(p, q);
        (r.0, pow2(r.1) as int)
    } else {
        (rounded_large(p, q), 1)
    }
}

/// The grid spacing `max(30 * (w as f32 / 700), 8)` in binary32, as a
/// fraction `(num, den)`.
pub open spec fn grid_spacing(w: int) -> (int, int) {
    let cell = f32_fraction(int_to_f32(w), 700);
    let s = f32_fraction(30 * cell.0, cell.1);
    if 8 * s.1 < s.0 { s } else { (8, 1) }
}

/// Coordinate `v` lies less than one pixel past a grid line: the binary32
/// remainder `v as f32 % spacing` is below 1, which for a spacing
/// `num / den` is `(v * den) mod num < den`.
pub open spec fn on_grid_line(v: int, w: int) -> bool {
    let s = grid_spacing(w);
    (int_to_f32(v) * s.1) % s.0 < s.1
}

/// Grid: faint neon lines (alpha 12) every `spacing` pixels in both
/// directions, fully transparent elsewhere.
pub open spec fn grid_pixel(x: int, y: int, w: int, h: int) -> Rgba {
    if on_grid_line(x, w) || on_grid_line(y, w) {
        (0u8, 240u8, 118u8, 12u8)
    } else {
        (0u8, 0u8, 0u8, 0u8)
    }
}

/// `p / q` rounded to binary32, as a fraction.
fn fraction_at(p: u128, q: u128) -> (r: (u128, u128))
    requires
        0 < q < pow2(100),
        p < pow2(100),
    ensures
        (r.0 as int, r.1 as int) == f32_fraction(p as int, q as int),
        0 < r.1 <= pow2(24) * q,
        r.0 <= 0x100_0000 + 2 * p,
{
    proof {
        vstd::arithmetic::power2::lemma2_to64();
        vstd::arithmetic::power2::lemma_pow2_adds(64, 36);
        vstd::arithmetic::power2::lemma_pow2_adds(32, 4);
    }
    if p < 0x80_0000 * q {
        let m = round_ratio(p, q);
        let d = pow2_u128(m.1);
        proof {
            vstd::arithmetic::power2::lemma_pow2_pos(m.1 as nat);
            if p == 0 {
                assert(pow2(0) == 1);
            }
        }
        (m.0 as u128, d)
    } else {
        let r = round_large(p, q);
        proof {
            assert(pow2(24) * q >= 1) by (nonlinear_arith)
                requires
                    q >= 1,
                    pow2(24) == 0x100_0000,
            ;
        }
        (r, 1)
    }
}

fn grid_spacing_at(w: usize) -> (s: (u128, u128))
    ensures
        (s.0 as int, s.1 as int) == grid_spacing(w as int),
        8 <= s.0,
        0 < s.1 <= pow2(58),
{
    let wf = int_at(w as u64);
    proof {
        vstd::arithmetic::power2::lemma2_to64();
        vstd::arithmetic::power2::lemma_pow2_unfold(65);
        vstd::arithmetic::power2::lemma_pow2_adds(65, 35);
        vstd::arithmetic::power2::lemma_pow2_adds(24, 34);
        vstd::arithmetic::power2::lemma_pow2_adds(64, 36);
        vstd::arithmetic::power2::lemma_pow2_adds(32, 4);
        vstd::arithmetic::power2::lemma_pow2_adds(32, 2);
        vstd::arithmetic::power2::lemma_pow2_pos(35);
        assert(wf < pow2(100)) by (nonlinear_arith)
            requires
                wf <= 2 * (w as int),
                w < pow2(64),
                pow2(65) == 2 * pow2(64),
                pow2(100) == pow2(65) * pow2(35),
                0 < pow2(35),
        ;
        assert(700 < pow2(100));
    }
    let cell = fraction_at(wf, 700);
    proof {
        assert(cell.1 <= pow2(34));
        assert(30 * cell.0 < pow2(100)) by (nonlinear_arith)
            requires
                cell.0 <= 0x100_0000 + 2 * wf,
                wf < pow2(65),
                pow2(100) == pow2(65) * pow2(35),
                pow2(35) == 0x8_0000_0000,
        ;
        assert(cell.1 < pow2(100));
    }
    let s = fraction_at(30 * cell.0, cell.1);
    proof {
        assert(s.1 <= pow2(58)) by (nonlinear_arith)
            requires
                s.1 <= pow2(24) * cell.1,
                cell.1 <= pow2(34),
                pow2(58) == pow2(24) * pow2(34),
        ;
    }
    if 8 * s.1 < s.0 {
        s
    } else {
        (8, 1)
    }
}

fn grid_line_at(v: usize, s: (u128, u128)) -> (b: bool)
    requires
        8 <= s.0,
        0 < s.1 <= pow2(58),
    ensures
        b == ((int_to_f32(v as int) * (s.1 as int)) % (s.0 as int) < s.1),
{
    let x = int_at(v as u64);
    proof {
        vstd::arithmetic::power2::lemma2_to64();
        vstd::arithmetic::power2::lemma2_to64_rest();
        assert(x * s.1 <= 0x2_0000_0000_0000_0000 * 0x400_0000_0000_0000) by (nonlinear_arith)
            requires
                x <= 2 * (v as int),
                v < 0x1_0000_0000_0000_0000,
                s.1 <= 0x400_0000_0000_0000,
        ;
    }
    (x * s.1) % s.0 < s.1
}

fn grid_at(x: usize, y: usize, w: usize) -> (p: Rgba)
    ensures
        p == grid_pixel(x as int, y as int, w as int, 0),
{
    let s = grid_spacing_at(w);
    if grid_line_at(x, s) || grid_line_at(y, s) {
        (0u8, 240u8, 118u8, 12u8)
    } else {
        (0u8, 0u8, 0u8, 0u8)
    }
}

// ---------------------------------------------------------------------------
// Bird
// ---------------------------------------------------------------------------

/// The binary32 literal for `p / 1000`.
pub open spec fn thousandths(p: int) -> (int, nat) {
    to_f32(p, 1000)
}

/// `a * a` in binary32, what `powi(2)` computes.
pub open spec fn f32_square(a: (int, nat)) -> (int, nat) {
    f32_product(a, a)
}

/// `|fx - 0.5|` in binary32: how far a column lies from the centre line.
pub open spec fn center_offset(fx: (int, nat)) -> (int, nat) {
    f32_diff(fx, to_f32(1, 2))
}

/// Above the face (`fy < 0.13`) and within 0.06 of the centre line: where
/// the sprout may be.
pub open spec fn sprout_zone(fx: (int, nat), fy: (int, nat)) -> bool {
    fl_lt(fy, hundredths(13)) && fl_lt(center_offset(fx), hundredths(6))
}

/// The stem: `|fy - 0.05| < 0.04` and `|fx - 0.5| < 0.015`.
pub open spec fn sprout_stem(fx: (int, nat), fy: (int, nat)) -> bool {
    fl_lt(f32_diff(fy, hundredths(5)), hundredths(4)) && fl_lt(center_offset(fx), thousandths(15))
}

/// A leaf: `(fy - 0.045)^2 + (d - 0.05)^2 < 0.005` for the inner one and the
/// same with `d + 0.05` for the outer one, `d = |fx - 0.5|`.
pub open spec fn sprout_leaf(fx: (int, nat), fy: (int, nat), outer: bool) -> bool {
    let d = center_offset(fx);
    let across = if outer { f32_sum(d, hundredths(5)) } else { f32_diff(d, hundredths(5)) };
    fl_lt(f32_sum(f32_square(f32_diff(fy, thousandths(45))), f32_square(across)), thousandths(5))
}

/// `lo <= f <= hi`.
pub open spec fn within(f: (int, nat), lo: (int, nat), hi: (int, nat)) -> bool {
    fl_le(lo, f) && fl_le(f, hi)
}

/// The dark cube face: `0.13 <= fx, fy <= 0.87`.
pub open spec fn in_body(fx: (int, nat), fy: (int, nat)) -> bool {
    within(fx, hundredths(13), hundredths(87)) && within(fy, hundredths(13), hundredths(87))
}

/// The inner edge of the neon ring, `0.13 - 0.06` in binary32.
pub open spec fn ring_lo() -> (int, nat) {
    f32_diff(hundredths(13), hundredths(6))
}

/// The outer edge of the neon ring, `0.87 + 0.06` in binary32.
pub open spec fn ring_hi() -> (int, nat) {
    f32_sum(hundredths(87), hundredths(6))
}

/// The face together with its ring.
pub open spec fn in_ring(fx: (int, nat), fy: (int, nat)) -> bool {
    within(fx, ring_lo(), ring_hi()) && within(fy, ring_lo(), ring_hi())
}

/// How far `f` lies outside the ring's span along one axis, 0 within it.
pub open spec fn outside_ring(f: (int, nat)) -> (int, nat) {
    if fl_lt(f, ring_lo()) {
        f32_diff(ring_lo(), f)
    } else if fl_lt(ring_hi(), f) {
        f32_diff(f, ring_hi())
    } else {
        (0, 0)
    }
}

/// The glow's alpha at distance `dist` beyond the ring:
/// `60 * clamp(1 - dist / 0.08, 0, 1)` in binary32, truncated.
pub open spec fn glow_alpha(dist: (int, nat)) -> int {
    let t = f32_quotient(dist, hundredths(8));
    let one = to_f32(1, 1);
    let fade = if fl_lt(t, one) { f32_diff(one, t) } else { (0, 0) };
    f32_trunc(f32_product(to_f32(60, 1), fade))
}

/// The two eye bars: `0.38 <= fy <= 0.60`, `fx` in 0.35..0.42 or 0.58..0.65.
pub open spec fn in_eye(fx: (int, nat), fy: (int, nat)) -> bool {
    within(fy, hundredths(38), hundredths(60)) && (within(fx, hundredths(35), hundredths(42)) || within(
        fx,
        hundredths(58),
        hundredths(65),
    ))
}

/// The mascot at binary32 coordinates `(fx, fy)`: neon eyes over a dark face
/// in a neon ring, a sprout (stem and two leaves) on top, and a glow fading
/// out over 0.08 beyond the ring.
pub open spec fn bird_color(fx: (int, nat), fy: (int, nat)) -> Rgba {
    if in_eye(fx, fy) {
        NEON
    } else if sprout_zone(fx, fy) && (sprout_stem(fx, fy) || sprout_leaf(fx, fy, false) || sprout_leaf(fx, fy, true)) {
        NEON_LINE
    } else if in_body(fx, fy) {
        (5u8, 7u8, 5u8, 255u8)
    } else if in_ring(fx, fy) {
        NEON
    } else {
        (0u8, 240u8, 118u8, glow_alpha(glow_distance(fx, fy)) as u8)
    }
}

/// The mascot's pixel at `(x, y)`, with `fx = x / w` and `fy = y / h` in
/// binary32.
pub open spec fn bird_pixel(x: int, y: int, w: int, h: int) -> Rgba {
    bird_color(coordinate(x, w), coordinate(y, h))
}

/// The binary32 constants of the mascot, as `(m, k)` with value `m / 2^k`.
proof fn lemma_bird_literals()
    ensures
        hundredths(4) == (10737418int, 28nat),
        hundredths(5) == (13421773int, 28nat),
        hundredths(6) == (16106127int, 28nat),
        hundredths(8) == (10737418int, 27nat),
        hundredths(13) == (8724152int, 26nat),
        hundredths(35) == (11744051int, 25nat),
        hundredths(38) == (12750684int, 25nat),
        hundredths(42) == (14092861int, 25nat),
        hundredths(58) == (9730785int, 24nat),
        hundredths(60) == (10066330int, 24nat),
        hundredths(65) == (10905190int, 24nat),
        hundredths(87) == (14596178int, 24nat),
        thousandths(5) == (10737418int, 31nat),
        thousandths(15) == (16106127int, 30nat),
        thousandths(45) == (12079596int, 28nat),
        to_f32(1, 2) == (8388608int, 24nat),
        to_f32(1, 1) == (8388608int, 23nat),
        to_f32(60, 1) == (15728640int, 18nat),
        ring_lo() == (9395240int, 27nat),
        ring_hi() == (15602811int, 24nat),
{
    vstd::arithmetic::power2::lemma2_to64();
    vstd::arithmetic::power2::lemma2_to64_rest();
    lemma_to_f32(4, 100, 10737418, 28);
    lemma_to_f32(5, 100, 13421773, 28);
    lemma_to_f32(6, 100, 16106127, 28);
    lemma_to_f32(8, 100, 10737418, 27);
    lemma_to_f32(13, 100, 8724152, 26);
    lemma_to_f32(35, 100, 11744051, 25);
    lemma_to_f32(38, 100, 12750684, 25);
    lemma_to_f32(42, 100, 14092861, 25);
    lemma_to_f32(58, 100, 9730785, 24);
    lemma_to_f32(60, 100, 10066330, 24);
    lemma_to_f32(65, 100, 10905190, 24);
    lemma_to_f32(87, 100, 14596178, 24);
    lemma_to_f32(5, 1000, 10737418, 31);
    lemma_to_f32(15, 1000, 16106127, 30);
    lemma_to_f32(45, 1000, 12079596, 28);
    lemma_to_f32(1, 2, 8388608, 24);
    lemma_to_f32(1, 1, 8388608, 23);
    lemma_to_f32(60, 1, 15728640, 18);
    let lo_num: int = 8724152 * pow2(28) - 16106127 * pow2(26);
    lemma_to_f32(lo_num, pow2(54) as int, 9395240, 27);
    let hi_num = (14596178 * pow2(28) + 16106127 * pow2(24)) as int;
    lemma_to_f32(hi_num, pow2(52) as int, 15602811, 24);
}

const F4: (u64, u32) = (10737418, 28);

const F5: (u64, u32) = (13421773, 28);

const F6: (u64, u32) = (16106127, 28);

const F8: (u64, u32) = (10737418, 27);

const F13: (u64, u32) = (8724152, 26);

const F35: (u64, u32) = (11744051, 25);

const F38: (u64, u32) = (12750684, 25);

const F42: (u64, u32) = (14092861, 25);

const F58: (u64, u32) = (9730785, 24);

const F60: (u64, u32) = (10066330, 24);

const F65: (u64, u32) = (10905190, 24);

const F87: (u64, u32) = (14596178, 24);

const F_5_THOUSANDTHS: (u64, u32) = (10737418, 31);

const F_15_THOUSANDTHS: (u64, u32) = (16106127, 30);

const F_45_THOUSANDTHS: (u64, u32) = (12079596, 28);

const F_HALF: (u64, u32) = (8388608, 24);

const F_ONE: (u64, u32) = (8388608, 23);

const F_SIXTY: (u64, u32) = (15728640, 18);

const F_RING_LO: (u64, u32) = (9395240, 27);

const F_RING_HI: (u64, u32) = (15602811, 24);

/// A binary32 coordinate `v / n` with `v < n`, as the mascot's rules take it.
pub open spec fn is_coordinate(f: (u64, u32)) -> bool {
    is_canonical(fv(f)) && f.1 < 90 && at_most(fv(f), 0)
}

/// The mascot's constants are the binary32 values of its decimal literals.
proof fn lemma_bird_constants()
    ensures
        fv(F4) == hundredths(4),
        fv(F5) == hundredths(5),
        fv(F6) == hundredths(6),
        fv(F8) == hundredths(8),
        fv(F13) == hundredths(13),
        fv(F35) == hundredths(35),
        fv(F38) == hundredths(38),
        fv(F42) == hundredths(42),
        fv(F58) == hundredths(58),
        fv(F60) == hundredths(60),
        fv(F65) == hundredths(65),
        fv(F87) == hundredths(87),
        fv(F_5_THOUSANDTHS) == thousandths(5),
        fv(F_15_THOUSANDTHS) == thousandths(15),
        fv(F_45_THOUSANDTHS) == thousandths(45),
        fv(F_HALF) == to_f32(1, 2),
        fv(F_ONE) == to_f32(1, 1),
        fv(F_ONE) == (pow2(23) as int, 23nat),
        fv(F_SIXTY) == to_f32(60, 1),
        fv(F_RING_LO) == ring_lo(),
        fv(F_RING_HI) == ring_hi(),
        is_canonical(fv(F4)) && is_canonical(fv(F5)) && is_canonical(fv(F6)) && is_canonical(fv(F8)),
        is_canonical(fv(F13)) && is_canonical(fv(F35)) && is_canonical(fv(F38)) && is_canonical(fv(F42)),
        is_canonical(fv(F58)) && is_canonical(fv(F60)) && is_canonical(fv(F65)) && is_canonical(fv(F87)),
        is_canonical(fv(F_5_THOUSANDTHS)) && is_canonical(fv(F_15_THOUSANDTHS)) && is_canonical(fv(F_45_THOUSANDTHS)),
        is_canonical(fv(F_HALF)) && is_canonical(fv(F_ONE)) && is_canonical(fv(F_SIXTY)),
        is_canonical(fv(F_RING_LO)) && is_canonical(fv(F_RING_HI)),
        at_most(fv(F5), 0) && at_most(fv(F_45_THOUSANDTHS), 0) && at_most(fv(F_HALF), 0),
        at_most(fv(F_ONE), 0) && at_most(fv(F_RING_LO), 0) && at_most(fv(F_RING_HI), 0),
        at_most(fv(F_SIXTY), 6),
{
    lemma_bird_literals();
    vstd::arithmetic::power2::lemma2_to64();
}

/// A binary32 value in canonical form between 0 and 1.
pub open spec fn in_unit(f: (int, nat)) -> bool {
    is_canonical(f) && 0 <= f.0 <= pow2(f.1)
}

/// A pixel coordinate `v / n` (`v < n`) lies between 0 and 1.
proof fn lemma_coordinate_in_unit(v: int, n: int)
    requires
        0 <= v < n,
    ensures
        in_unit(coordinate(v, n)),
{
    vstd::arithmetic::power2::lemma2_to64();
    let xv = int_to_f32(v);
    let xn = int_to_f32(n);
    if v >= pow2(24) {
        lemma_rounds_large_exists(v);
        lemma_large_positive(v);
    }
    if n >= pow2(24) {
        lemma_rounds_large_exists(n);
        lemma_large_positive(n);
    }
    lemma_int_to_f32_monotone(v, n, xv, xn);
    assert(xv <= 1 * xn);
    lemma_to_f32_bounded(xv, xn, 1);
}

/// An integer from 2^24 on converts to a positive binary32 value.
proof fn lemma_large_positive(n: int)
    requires
        n >= pow2(24),
        rounds_large(n, 1, rounded_large(n, 1)),
    ensures
        int_to_f32(n) > 0,
{
    let r = rounded_large(n, 1);
    let (s, m) = choose|s: nat, m: int| in_binade(n, 1, s) && #[trigger] rounds_to(n, 1int * pow2(s), m, 0) && r == m * pow2(s);
    vstd::arithmetic::power2::lemma_pow2_pos(s);
    vstd::arithmetic::power2::lemma2_to64();
    let qs: int = 1int * pow2(s);
    assert(m > 0) by (nonlinear_arith)
        requires
            pow2(23) * qs <= n * pow2(0),
            2 * (n * pow2(0)) <= (2 * m + 1) * qs,
            pow2(0) == 1,
            pow2(23) == 0x80_0000,
            0 < qs,
    ;
    assert(r > 0) by (nonlinear_arith)
        requires
            r == m * pow2(s),
            m > 0,
            pow2(s) > 0,
    ;
}

/// How far a coordinate between 0 and 1 lies outside the ring is between 0
/// and 1.
proof fn lemma_outside_in_unit(f: (int, nat))
    requires
        in_unit(f),
    ensures
        in_unit(outside_ring(f)),
{
    lemma_bird_literals();
    vstd::arithmetic::power2::lemma2_to64();
    vstd::arithmetic::power2::lemma_pow2_pos(f.1);
    let lo = ring_lo();
    let hi = ring_hi();
    vstd::arithmetic::power2::lemma_pow2_adds(lo.1, f.1);
    vstd::arithmetic::power2::lemma_pow2_adds(f.1, hi.1);
    if fl_lt(f, lo) {
        let x = lo.0 * pow2(f.1);
        let y = f.0 * pow2(lo.1);
        assert(0 <= x - y <= 1 * pow2(lo.1 + f.1)) by (nonlinear_arith)
            requires
                y < x,
                x == lo.0 * pow2(f.1),
                y == f.0 * pow2(lo.1),
                0 <= f.0,
                lo.0 <= pow2(lo.1),
                pow2(lo.1 + f.1) == pow2(lo.1) * pow2(f.1),
                0 < pow2(f.1),
        ;
        lemma_to_f32_bounded(x - y, pow2(lo.1 + f.1) as int, 1);
    } else if fl_lt(hi, f) {
        let x = f.0 * pow2(hi.1);
        let y = hi.0 * pow2(f.1);
        assert(0 <= x - y <= 1 * pow2(f.1 + hi.1)) by (nonlinear_arith)
            requires
                y < x,
                x == f.0 * pow2(hi.1),
                y == hi.0 * pow2(f.1),
                0 <= hi.0,
                f.0 <= pow2(f.1),
                pow2(f.1 + hi.1) == pow2(f.1) * pow2(hi.1),
                0 < pow2(hi.1),
        ;
        lemma_to_f32_bounded(x - y, pow2(f.1 + hi.1) as int, 1);
    } else {
        vstd::arithmetic::power2::lemma_pow2_pos(0);
    }
}

/// The glow's alpha at any distance between 0 and 1 is between 0 and 60.
proof fn lemma_glow_alpha_range(dist: (int, nat))
    requires
        in_unit(dist),
    ensures
        0 <= glow_alpha(dist) <= 60,
{
    lemma_bird_literals();
    vstd::arithmetic::power2::lemma2_to64();
    let h8 = hundredths(8);
    vstd::arithmetic::power2::lemma_pow2_pos(dist.1);
    let tp = dist.0 * pow2(h8.1);
    let tq = h8.0 * pow2(dist.1);
    assert(0 <= tp <= 16 * tq && 0 < tq) by (nonlinear_arith)
        requires
            tp == dist.0 * pow2(h8.1),
            tq == h8.0 * pow2(dist.1),
            0 <= dist.0 <= pow2(dist.1),
            h8 == (10737418int, 27nat),
            pow2(27) == 0x800_0000,
            0 < pow2(dist.1),
    ;
    lemma_to_f32_bounded(tp, tq, 16);
    let t = f32_quotient(dist, h8);
    let one = to_f32(1, 1);
    vstd::arithmetic::power2::lemma_pow2_pos(t.1);
    vstd::arithmetic::power2::lemma_pow2_adds(23, t.1);
    let fade = if fl_lt(t, one) { f32_diff(one, t) } else { (0, 0) };
    if fl_lt(t, one) {
        let x = one.0 * pow2(t.1);
        let y = t.0 * pow2(one.1);
        assert(0 <= x - y <= 1 * pow2(one.1 + t.1)) by (nonlinear_arith)
            requires
                y < x,
                x == one.0 * pow2(t.1),
                y == t.0 * pow2(one.1),
                0 <= t.0,
                one == (0x80_0000int, 23nat),
                pow2(23) == 0x80_0000,
                pow2(23 + t.1) == pow2(23) * pow2(t.1),
        ;
        lemma_to_f32_bounded(x - y, pow2(one.1 + t.1) as int, 1);
    } else {
        vstd::arithmetic::power2::lemma_pow2_pos(0);
    }
    let sixty = to_f32(60, 1);
    vstd::arithmetic::power2::lemma_pow2_pos(fade.1);
    vstd::arithmetic::power2::lemma_pow2_adds(18, fade.1);
    let pp = sixty.0 * fade.0;
    assert(0 <= pp <= 60 * pow2(sixty.1 + fade.1)) by (nonlinear_arith)
        requires
            pp == sixty.0 * fade.0,
            sixty == (15728640int, 18nat),
            0 <= fade.0 <= pow2(fade.1),
            pow2(18) == 0x4_0000,
            pow2(18 + fade.1) == pow2(18) * pow2(fade.1),
    ;
    lemma_to_f32_bounded(pp, pow2(sixty.1 + fade.1) as int, 60);
    let prod = f32_product(sixty, fade);
    let pk = pow2(prod.1) as int;
    vstd::arithmetic::power2::lemma_pow2_pos(prod.1);
    vstd::arithmetic::div_mod::lemma_fundamental_div_mod(prod.0, pk);
    assert(0 <= prod.0 / pk <= 60) by (nonlinear_arith)
        requires
            prod.0 == pk * (prod.0 / pk) + prod.0 % pk,
            0 <= prod.0 % pk < pk,
            0 <= prod.0 <= 60 * pk,
            0 < pk,
    ;
}

/// Every pixel of the mascot is opaque (the dark face, neon, or the
/// sprout's line colour) or the neon glow with an alpha of at most 60.
pub proof fn law_bird_colours(x: int, y: int, w: int, h: int)
    requires
        0 <= x < w,
        0 <= y < h,
    ensures
        ({
            let p = bird_pixel(x, y, w, h);
            p == (5u8, 7u8, 5u8, 255u8) || p == NEON || p == NEON_LINE || (p.0 == 0 && p.1 == 240 && p.2 == 118
                && p.3 <= 60)
        }),
{
    let fx = coordinate(x, w);
    let fy = coordinate(y, h);
    lemma_coordinate_in_unit(x, w);
    lemma_coordinate_in_unit(y, h);
    lemma_outside_in_unit(fx);
    lemma_outside_in_unit(fy);
    lemma_glow_alpha_range(glow_distance(fx, fy));
}

/// Whether the sprout (stem or either leaf) covers `(fx, fy)`.
fn sprout_at(fx: (u64, u32), fy: (u64, u32)) -> (b: bool)
    requires
        is_coordinate(fx),
        is_coordinate(fy),
    ensures
        b == (sprout_zone(fv(fx), fv(fy)) && (sprout_stem(fv(fx), fv(fy)) || sprout_leaf(fv(fx), fv(fy), false)
            || sprout_leaf(fv(fx), fv(fy), true))),
{
    proof {
        lemma_bird_constants();
        lemma_at_most_mono(fv(fx), 0, 20);
        lemma_at_most_mono(fv(fy), 0, 20);
        lemma_at_most_mono(fv(F_HALF), 0, 20);
        lemma_at_most_mono(fv(F5), 0, 20);
        lemma_at_most_mono(fv(F_45_THOUSANDTHS), 0, 20);
    }
    let d = diff_at(fx, F_HALF);
    if !(binary32::lt_at(fy, F13) && binary32::lt_at(d, F6)) {
        return false;
    }
    let stem_y = diff_at(fy, F5);
    if binary32::lt_at(stem_y, F4) && binary32::lt_at(d, F_15_THOUSANDTHS) {
        return true;
    }
    let e = diff_at(fy, F_45_THOUSANDTHS);
    proof {
        lemma_at_most_mono(fv(e), 0, 10);
        lemma_at_most_mono(fv(d), 0, 20);
    }
    let e2 = product_at(e, e);
    let inner = diff_at(d, F5);
    proof {
        lemma_at_most_mono(fv(inner), 0, 10);
    }
    let inner2 = product_at(inner, inner);
    let inner_sum = sum_at(e2, inner2);
    let inner_leaf = binary32::lt_at(inner_sum, F_5_THOUSANDTHS);
    let outer = sum_at(d, F5);
    proof {
        lemma_at_most_mono(fv(outer), 1, 10);
    }
    let outer2 = product_at(outer, outer);
    let outer_sum = sum_at(e2, outer2);
    let outer_leaf = binary32::lt_at(outer_sum, F_5_THOUSANDTHS);
    inner_leaf || outer_leaf
}

/// How far `f` lies outside the ring's span along one axis.
fn outside_at(f: (u64, u32)) -> (r: (u64, u32))
    requires
        is_coordinate(f),
    ensures
        fv(r) == outside_ring(fv(f)),
        is_canonical(fv(r)),
        r.1 < 72,
        at_most(fv(r), 0),
{
    proof {
        lemma_bird_constants();
        lemma_at_most_mono(fv(f), 0, 20);
        lemma_at_most_mono(fv(F_RING_LO), 0, 20);
        lemma_at_most_mono(fv(F_RING_HI), 0, 20);
        vstd::arithmetic::power2::lemma_pow2_pos(0);
    }
    if binary32::lt_at(f, F_RING_LO) {
        diff_at(F_RING_LO, f)
    } else if binary32::lt_at(F_RING_HI, f) {
        diff_at(f, F_RING_HI)
    } else {
        (0, 0)
    }
}

/// The larger of the distances outside the ring along the two axes.
pub open spec fn glow_distance(fx: (int, nat), fy: (int, nat)) -> (int, nat) {
    let dx = outside_ring(fx);
    let dy = outside_ring(fy);
    if fl_lt(dx, dy) { dy } else { dx }
}

/// The glow's alpha at `(fx, fy)`, outside the ring.
fn glow_at(fx: (u64, u32), fy: (u64, u32)) -> (a: u8)
    requires
        is_coordinate(fx),
        is_coordinate(fy),
    ensures
        a as int == glow_alpha(glow_distance(fv(fx), fv(fy))),
{
    proof {
        lemma_bird_constants();
    }
    let dx = outside_at(fx);
    let dy = outside_at(fy);
    let dist = if binary32::lt_at(dx, dy) { dy } else { dx };
    proof {
        lemma_at_most_mono(fv(dist), 0, 1);
    }
    let t = quotient_at(dist, F8);
    let fade = if binary32::lt_at(t, F_ONE) {
        proof {
            lemma_below_one(fv(t));
            lemma_at_most_mono(fv(t), 0, 20);
            lemma_at_most_mono(fv(F_ONE), 0, 20);
        }
        diff_at(F_ONE, t)
    } else {
        proof {
            vstd::arithmetic::power2::lemma_pow2_pos(0);
        }
        (0, 0)
    };
    proof {
        lemma_at_most_mono(fv(fade), 0, 10);
        lemma_at_most_mono(fv(F_SIXTY), 6, 10);
    }
    let prod = product_at(F_SIXTY, fade);
    let v = trunc_at(prod);
    proof {
        let pk = pow2(prod.1 as nat);
        vstd::arithmetic::power2::lemma_pow2_pos(prod.1 as nat);
        vstd::arithmetic::power2::lemma_pow2_adds(prod.1 as nat, 6);
        vstd::arithmetic::power2::lemma2_to64();
        vstd::arithmetic::div_mod::lemma_fundamental_div_mod(prod.0 as int, pk as int);
        assert(v <= 64) by (nonlinear_arith)
            requires
                prod.0 as int == pk * (v as int) + (prod.0 as int) % (pk as int),
                0 <= (prod.0 as int) % (pk as int),
                prod.0 <= pow2((prod.1 + 6) as nat),
                pow2((prod.1 + 6) as nat) == pk * pow2(6),
                pow2(6) == 64,
                0 < pk,
        ;
    }
    v as u8
}

fn bird_at(x: usize, y: usize, w: usize, h: usize) -> (p: Rgba)
    requires
        x < w,
        y < h,
    ensures
        p == bird_pixel(x as int, y as int, w as int, h as int),
{
    proof {
        lemma_bird_constants();
    }
    let fx = ratio_at(x, w);
    let fy = ratio_at(y, h);
    if le_at(F38, fy) && le_at(fy, F60) && ((le_at(F35, fx) && le_at(fx, F42)) || (le_at(F58, fx) && le_at(fx, F65))) {
        NEON
    } else if sprout_at(fx, fy) {
        NEON_LINE
    } else if le_at(F13, fx) && le_at(fx, F87) && le_at(F13, fy) && le_at(fy, F87) {
        (5u8, 7u8, 5u8, 255u8)
    } else if le_at(F_RING_LO, fx) && le_at(fx, F_RING_HI) && le_at(F_RING_LO, fy) && le_at(fy, F_RING_HI) {
        NEON
    } else {
        (0u8, 240u8, 118u8, glow_at(fx, fy))
    }
}

fn push_pixel(buf: &mut Vec<u8>, p: Rgba)
    ensures
        final(buf)@ == old(buf)@.push(p.0).push(p.1).push(p.2).push(p.3),
{
    buf.push(p.0);
    buf.push(p.1);
    buf.push(p.2);
    buf.push(p.3);
}

/// Extending the bytes of the first `n` pixels by pixel `n` gives the bytes of
/// the first `n + 1` pixels.
proof fn lemma_prefix_step(w: int, pixel: spec_fn(int, int) -> Rgba, n: int, prefix: Seq<u8>)
    requires
        w > 0,
        n >= 0,
        prefix =~= pixel_prefix(w, n, pixel),
    ensures
        ({
            let p = pixel(n % w, n / w);
            prefix.push(p.0).push(p.1).push(p.2).push(p.3) =~= pixel_prefix(w, n + 1, pixel)
        }),
{
    let p = pixel(n % w, n / w);
    let next = prefix.push(p.0).push(p.1).push(p.2).push(p.3);
    let target = pixel_prefix(w, n + 1, pixel);
    assert forall|i: int| 0 <= i < (n + 1) * 4 implies next[i] == target[i] by {
        if i >= n * 4 {
            assert(i / 4 == n);
            assert(i % 4 == i - n * 4);
        }
    }
}

/// The sprites this module draws.
#[derive(Clone, Copy)]
pub enum Sprite {
    Bird,
    Pipe,
    Ground,
    Ceiling,
    Grid,
}

/// The pixel of `sprite` at `(x, y)` in a `w` by `h` image.
pub open spec fn sprite_pixel(sprite: Sprite, x: int, y: int, w: int, h: int) -> Rgba {
    match sprite {
        Sprite::Ground => ground_pixel(x, y, w, h),
        Sprite::Ceiling => ceiling_pixel(x, y, w, h),
        Sprite::Pipe => pipe_pixel(x, y, w, h),
        Sprite::Grid => grid_pixel(x, y, w, h),
        Sprite::Bird => bird_pixel(x, y, w, h),
    }
}

fn compute_pixel(sprite: Sprite, x: usize, y: usize, w: usize, h: usize) -> (p: Rgba)
    requires
        x < w,
        y < h,
            ensures
        p == sprite_pixel(sprite, x as int, y as int, w as int, h as int),
{
    match sprite {
        Sprite::Ground => ground_at(y, h),
        Sprite::Ceiling => ceiling_at(y, h),
        Sprite::Pipe => pipe_at(x, y, w, h),
        Sprite::Grid => grid_at(x, y, w),
        Sprite::Bird => bird_at(x, y, w, h),
    }
}

fn ground_at(y: usize, h: usize) -> (p: Rgba)
    requires
        y < h,
    ensures
        p == ground_pixel(0, y as int, 0, h as int),
{
    let fy = ratio_at(y, h);
    if binary32::lt_at(fy, hundredths_at(6)) {
        NEON_LINE
    } else if binary32::lt_at(fy, hundredths_at(12)) {
        NEON
    } else {
        SLATE
    }
}

fn ceiling_at(y: usize, h: usize) -> (p: Rgba)
    requires
        y < h,
    ensures
        p == ceiling_pixel(0, y as int, 0, h as int),
{
    ground_at(h - 1 - y, h)
}

/// Draws `sprite` pixel by pixel in row-major order.
fn fill_image(sprite: Sprite, w: usize, h: usize) -> (r: Vec<u8>)
    requires
        w * h * 4 <= usize::MAX,
            ensures
        r@ =~= image_bytes(w as int, h as int, |x: int, y: int| sprite_pixel(sprite, x, y, w as int, h as int)),
{
    let ghost pixel = |x: int, y: int| sprite_pixel(sprite, x, y, w as int, h as int);
    let mut buf: Vec<u8> = Vec::new();
    if w == 0 {
        assert(w * h * 4 == 0);
        return buf;
    }
    let total = w * h;
    let mut n: usize = 0;
    while n < total
        invariant
            w > 0,
            total == w * h,
            total * 4 <= usize::MAX,
            n <= total,
                        pixel == (|x: int, y: int| sprite_pixel(sprite, x, y, w as int, h as int)),
            buf@ =~= pixel_prefix(w as int, n as int, pixel),
        decreases total - n,
    {
        let x = n % w;
        let y = n / w;
        assert(y < h) by (nonlinear_arith)
            requires
                n < total,
                total == w * h,
                y == n / w,
                w > 0,
        ;
        let p = compute_pixel(sprite, x, y, w, h);
        proof {
            lemma_prefix_step(w as int, pixel, n as int, buf@);
        }
        push_pixel(&mut buf, p);
        n = n + 1;
    }
    buf
}

/// The ground strip texture.
pub fn generate_ground_rgba(w: usize, h: usize) -> (r: Vec<u8>)
    requires
        w * h * 4 <= usize::MAX,
    ensures
        r@ =~= image_bytes(w as int, h as int, |x: int, y: int| ground_pixel(x, y, w as int, h as int)),
{
    let r = fill_image(Sprite::Ground, w, h);
    assert(r@ =~= image_bytes(w as int, h as int, |x: int, y: int| ground_pixel(x, y, w as int, h as int)));
    r
}

/// The ceiling strip texture.
pub fn generate_ceiling_rgba(w: usize, h: usize) -> (r: Vec<u8>)
    requires
        w * h * 4 <= usize::MAX,
    ensures
        r@ =~= image_bytes(w as int, h as int, |x: int, y: int| ceiling_pixel(x, y, w as int, h as int)),
{
    let r = fill_image(Sprite::Ceiling, w, h);
    assert(r@ =~= image_bytes(w as int, h as int, |x: int, y: int| ceiling_pixel(x, y, w as int, h as int)));
    r
}

/// The pipe texture.
pub fn generate_pipe_rgba(w: usize, h: usize) -> (r: Vec<u8>)
    requires
        w * h * 4 <= usize::MAX,
    ensures
        r@ =~= image_bytes(w as int, h as int, |x: int, y: int| pipe_pixel(x, y, w as int, h as int)),
{
    let r = fill_image(Sprite::Pipe, w, h);
    assert(r@ =~= image_bytes(w as int, h as int, |x: int, y: int| pipe_pixel(x, y, w as int, h as int)));
    r
}

/// The background grid texture.
pub fn generate_grid_rgba(w: usize, h: usize) -> (r: Vec<u8>)
    requires
        w * h * 4 <= usize::MAX,
    ensures
        r@ =~= image_bytes(w as int, h as int, |x: int, y: int| grid_pixel(x, y, w as int, h as int)),
{
    let r = fill_image(Sprite::Grid, w, h);
    assert(r@ =~= image_bytes(w as int, h as int, |x: int, y: int| grid_pixel(x, y, w as int, h as int)));
    r
}

/// The mascot bird texture.
pub fn generate_bird_rgba(w: usize, h: usize) -> (r: Vec<u8>)
    requires
        w * h * 4 <= usize::MAX,
    ensures
        r@ =~= image_bytes(w as int, h as int, |x: int, y: int| bird_pixel(x, y, w as int, h as int)),
{
    let r = fill_image(Sprite::Bird, w, h);
    assert(r@ =~= image_bytes(w as int, h as int, |x: int, y: int| bird_pixel(x, y, w as int, h as int)));
    r
}

} // verus!
