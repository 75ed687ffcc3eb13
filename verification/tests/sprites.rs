use groot::sprites::{
    generate_bird_rgba, generate_ceiling_rgba, generate_grid_rgba, generate_ground_rgba,
    generate_pipe_rgba,
};

#[test]
fn verify_sprite_pixels() {
    // Bird: border green, interior dark, eyes green
    let b = generate_bird_rgba(128, 128);
    let px = |x: usize, y: usize| (y * 128 + x) * 4;
    let border = (b[px(10, 64) + 0], b[px(10, 64) + 1], b[px(10, 64) + 2], b[px(10, 64) + 3]);
    let interior = (b[px(64, 80) + 0], b[px(64, 80) + 1], b[px(64, 80) + 2]);
    let eye = (b[px(49, 60) + 0], b[px(49, 60) + 1], b[px(49, 60) + 2]);
    let corner_glow = b[px(2, 2) + 3];
    assert_eq!(border, (0, 240, 118, 255), "neon green border, opaque");
    assert_eq!(interior, (5, 7, 5), "dark face");
    assert_eq!(eye, (0, 240, 118), "neon eyes");
    assert!(corner_glow > 0 && corner_glow < 255, "fading glow");

    // Pipe: border green, body dark
    let p = generate_pipe_rgba(64, 256);
    let ppx = |x: usize, y: usize| (y * 64 + x) * 4;
    let pborder = (p[ppx(1, 128) + 0], p[ppx(1, 128) + 1], p[ppx(1, 128) + 2]);
    let pbody = (p[ppx(32, 128) + 0], p[ppx(32, 128) + 1], p[ppx(32, 128) + 2]);
    assert_eq!(pborder, (0, 240, 118));
    assert_eq!(pbody, (10, 20, 13));

    // Ground: top line green, base dark
    let g = generate_ground_rgba(256, 32);
    let gpx = |x: usize, y: usize| (y * 256 + x) * 4;
    let gtop = (g[gpx(128, 1) + 0], g[gpx(128, 1) + 1], g[gpx(128, 1) + 2]);
    let gbase = (g[gpx(128, 30) + 0], g[gpx(128, 30) + 1], g[gpx(128, 30) + 2], g[gpx(128, 30) + 3]);
    let gglow = g[gpx(128, 3) + 3];
    assert_eq!(gtop, (0, 230, 118));
    assert_eq!(gbase, (14, 20, 28, 255));
    assert_eq!(gglow, 255, "ground glow must be fully opaque");

    // Ceiling: bottom line green, base dark
    let c = generate_ceiling_rgba(256, 32);
    let cpx = |x: usize, y: usize| (y * 256 + x) * 4;
    let cbot = (c[cpx(128, 31) + 0], c[cpx(128, 31) + 1], c[cpx(128, 31) + 2]);
    let cbase = (c[cpx(128, 1) + 0], c[cpx(128, 1) + 1], c[cpx(128, 1) + 2], c[cpx(128, 1) + 3]);
    let cglow = c[cpx(128, 29) + 3];
    assert_eq!(cbot, (0, 230, 118));
    assert_eq!(cbase, (14, 20, 28, 255));
    assert_eq!(cglow, 255, "ceiling glow must be fully opaque");

    // Grid: has both transparent and faint-green pixels
    let gr = generate_grid_rgba(256, 144);
    let mut alpha_max = 0u8;
    for i in (3..gr.len()).step_by(4) {
        alpha_max = alpha_max.max(gr[i]);
    }
    assert!(alpha_max > 0 && alpha_max <= 16, "faint grid");
}

// Reference generators in binary32 arithmetic: every generator follows
// binary32 rounding at every size.

fn float_bird(w: usize, h: usize) -> Vec<u8> {
    let mut buf = vec![0u8; w * h * 4];
    let body_lo = 0.13f32;
    let body_hi = 0.87f32;
    let ring = 0.06f32;
    for y in 0..h {
        for x in 0..w {
            let idx = (y * w + x) * 4;
            let fx = x as f32 / w as f32;
            let fy = y as f32 / h as f32;
            let dx_sprout = (fx - 0.5).abs();
            if fy < body_lo && dx_sprout < 0.06 {
                if (fy - 0.05).abs() < 0.04 && dx_sprout < 0.015 {
                    buf[idx..idx + 4].copy_from_slice(&[0, 230, 118, 255]);
                    continue;
                }
                if (fy - 0.045).powi(2) + (dx_sprout - 0.05).powi(2) < 0.005
                    || (fy - 0.045).powi(2) + (dx_sprout + 0.05).powi(2) < 0.005
                {
                    buf[idx..idx + 4].copy_from_slice(&[0, 230, 118, 255]);
                    continue;
                }
            }
            let in_body = fx >= body_lo && fx <= body_hi && fy >= body_lo && fy <= body_hi;
            let in_border = !in_body
                && fx >= body_lo - ring
                && fx <= body_hi + ring
                && fy >= body_lo - ring
                && fy <= body_hi + ring;
            if in_body {
                buf[idx..idx + 4].copy_from_slice(&[5, 7, 5, 255]);
            } else if in_border {
                buf[idx..idx + 4].copy_from_slice(&[0, 240, 118, 255]);
            } else {
                let b_lo = body_lo - ring;
                let b_hi = body_hi + ring;
                let dx = (b_lo - fx).max(fx - b_hi).max(0.0);
                let dy = (b_lo - fy).max(fy - b_hi).max(0.0);
                let dist = dx.max(dy);
                let glow = (1.0 - dist / 0.08).clamp(0.0, 1.0);
                buf[idx..idx + 4].copy_from_slice(&[0, 240, 118, (60.0 * glow) as u8]);
            }
        }
    }
    for y in 0..h {
        for x in 0..w {
            let idx = (y * w + x) * 4;
            let fx = x as f32 / w as f32;
            let fy = y as f32 / h as f32;
            let left_eye_x = fx >= 0.35 && fx <= 0.42;
            let right_eye_x = fx >= 0.58 && fx <= 0.65;
            let eye_y = fy >= 0.38 && fy <= 0.60;
            if eye_y && (left_eye_x || right_eye_x) {
                buf[idx..idx + 4].copy_from_slice(&[0, 240, 118, 255]);
            }
        }
    }
    buf
}

fn float_pipe(w: usize, h: usize) -> Vec<u8> {
    let mut buf = vec![0u8; w * h * 4];
    for y in 0..h {
        for x in 0..w {
            let idx = (y * w + x) * 4;
            let edge_dist = x.min(w - 1 - x).min(y.min(h - 1 - y));
            if edge_dist < 3 {
                buf[idx..idx + 4].copy_from_slice(&[0, 240, 118, 255]);
            } else if edge_dist < 12 {
                let glow = 1.0 - ((edge_dist - 3) as f32 / 9 as f32);
                buf[idx..idx + 4].copy_from_slice(&[0, 240, 118, (30.0 * glow) as u8]);
            } else {
                buf[idx..idx + 4].copy_from_slice(&[10, 20, 13, 255]);
            }
        }
    }
    buf
}

fn float_strip(w: usize, h: usize, ceiling: bool) -> Vec<u8> {
    let mut buf = vec![0u8; w * h * 4];
    for y in 0..h {
        for x in 0..w {
            let idx = (y * w + x) * 4;
            // The ceiling is the ground flipped vertically.
            let row = if ceiling { h - 1 - y } else { y };
            let fy = row as f32 / h as f32;
            let px = if fy < 0.06 {
                [0, 230, 118, 255]
            } else if fy < 0.12 {
                [0, 240, 118, 255]
            } else {
                [14, 20, 28, 255]
            };
            buf[idx..idx + 4].copy_from_slice(&px);
        }
    }
    buf
}

fn float_grid(w: usize, h: usize) -> Vec<u8> {
    let mut buf = vec![0u8; w * h * 4];
    let cell = 30.0 * (w as f32 / 700.0);
    let spacing = cell.max(8.0);
    for y in 0..h {
        for x in 0..w {
            let idx = (y * w + x) * 4;
            if (x as f32 % spacing) < 1.0 || (y as f32 % spacing) < 1.0 {
                buf[idx..idx + 4].copy_from_slice(&[0, 240, 118, 12]);
            }
        }
    }
    buf
}

#[test]
fn sprites_match_float_reference_at_engine_sizes() {
    assert_eq!(generate_bird_rgba(128, 128), float_bird(128, 128));
    assert_eq!(generate_pipe_rgba(64, 256), float_pipe(64, 256));
    assert_eq!(generate_ground_rgba(256, 32), float_strip(256, 32, false));
    assert_eq!(generate_ceiling_rgba(256, 32), float_strip(256, 32, true));
    assert_eq!(generate_grid_rgba(256, 144), float_grid(256, 144));
}

#[test]
fn pipe_glow_fades_inwards_with_binary32_steps() {
    let p = generate_pipe_rgba(64, 64);
    let alpha_at = |x: usize| p[(32 * 64 + x) * 4 + 3];
    let glow: Vec<u8> = (3..12).map(alpha_at).collect();
    assert_eq!(glow, vec![30, 26, 23, 19, 16, 13, 9, 6, 3]);
    assert_eq!(alpha_at(0), 255);
    assert_eq!(alpha_at(12), 255);
}

#[test]
fn empty_sprites_have_no_bytes() {
    assert!(generate_bird_rgba(0, 5).is_empty());
    assert!(generate_grid_rgba(7, 0).is_empty());
    assert_eq!(generate_ground_rgba(3, 2).len(), 24);
}

#[test]
fn grid_follows_binary32_spacing_at_every_width() {
    for w in (1..=400).chain([512, 700, 1280, 1920]) {
        assert_eq!(generate_grid_rgba(w, 40), float_grid(w, 40), "width {w}");
    }
}

#[test]
fn grid_lines_at_width_200() {
    // 30 * (200 / 700) rounds to a spacing just above 60/7 in binary32, so
    // the seventh line falls just past column 60: column 60 is off the grid
    // and column 61 lies less than one pixel past the line.
    let g = generate_grid_rgba(200, 6);
    // Row 5 is off every horizontal line, so only the columns show.
    let alpha = |x: usize| g[(5 * 200 + x) * 4 + 3];
    let lines: Vec<usize> = (0..100).filter(|&x| alpha(x) == 12).collect();
    assert_eq!(lines, vec![0, 9, 18, 26, 35, 43, 52, 61, 69, 78, 86, 95]);
    assert_eq!(alpha(60), 0);
}

#[test]
fn strips_follow_binary32_at_every_height() {
    for h in 1..=300 {
        assert_eq!(generate_ground_rgba(3, h), float_strip(3, h, false), "height {h}");
        assert_eq!(generate_ceiling_rgba(3, h), float_strip(3, h, true), "height {h}");
    }
}

#[test]
fn bird_follows_binary32_at_many_sizes() {
    for side in 1..=48 {
        assert_eq!(generate_bird_rgba(side, side), float_bird(side, side), "side {side}");
    }
    for (w, h) in [(97, 100), (100, 100), (200, 200), (64, 128), (128, 64), (33, 7), (256, 256)] {
        assert_eq!(generate_bird_rgba(w, h), float_bird(w, h), "{w}x{h}");
    }
}

#[test]
fn bird_glow_fades_in_binary32_steps() {
    // At x / w = 0.99 the glow is 0.06 past the ring: 1 - 0.06 / 0.08 is
    // just below 0.25 in binary32, so the alpha truncates to 14, not 15.
    let b = generate_bird_rgba(100, 100);
    let alpha = |x: usize, y: usize| b[(y * 100 + x) * 4 + 3];
    assert_eq!(alpha(99, 50), 14);
    assert_eq!(alpha(97, 50), 29);
    assert_eq!(alpha(50, 50), 255);
}

#[test]
fn ceiling_is_the_ground_flipped() {
    for (w, h) in [(256, 32), (3, 17), (1, 1), (5, 100)] {
        let c = generate_ceiling_rgba(w, h);
        let g = generate_ground_rgba(w, h);
        for y in 0..h {
            for x in 0..w {
                let ci = (y * w + x) * 4;
                let gi = ((h - 1 - y) * w + x) * 4;
                assert_eq!(c[ci..ci + 4], g[gi..gi + 4], "{w}x{h} at ({x}, {y})");
            }
        }
    }
    // 256x32: the bright line is on the bottom row, the glow just above it.
    let c = generate_ceiling_rgba(256, 32);
    assert_eq!(c[(31 * 256) * 4 + 1], 230);
    assert_eq!(c[(30 * 256) * 4 + 1], 230);
    assert_eq!(c[(29 * 256) * 4 + 1], 240);
}
