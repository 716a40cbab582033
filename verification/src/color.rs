//! Fixed-point HSV colour transform.
//!
//! Both directions work on 8-bit quantities only: hue, saturation and value
//! are all quantized to `0..=255` instead of the conventional degree and
//! percent ranges. The value channel is the largest of the three colour
//! channels, which is also the luminance the enhancement pipeline equalizes.

use vstd::arithmetic::div_mod::{
    lemma_div_is_ordered, lemma_div_multiples_vanish, lemma_div_of0, lemma_div_pos_is_pos,
    lemma_fundamental_div_mod, lemma_fundamental_div_mod_converse, lemma_hoist_over_denominator,
    lemma_mod_division_less_than_divisor, lemma_multiply_divide_lt,
};
use vstd::arithmetic::mul::lemma_mul_upper_bound;
use vstd::prelude::*;

verus! {

/// The largest of three channel values: the HSV value channel.
pub open spec fn max_of3(r: int, g: int, b: int) -> int {
    if r >= g && r >= b {
        r
    } else if g >= b {
        g
    } else {
        b
    }
}

/// The smallest of three channel values.
pub open spec fn min_of3(r: int, g: int, b: int) -> int {
    if r <= g && r <= b {
        r
    } else if g <= b {
        g
    } else {
        b
    }
}

/// Hue of an RGB triple, scaled by six: one of the six hue sectors spans 255
/// units here, so the whole circle spans `6 * 255`.
pub open spec fn hue6_spec(r: int, g: int, b: int) -> int {
    let mx = max_of3(r, g, b);
    let mn = min_of3(r, g, b);
    let n = mx - mn;
    if n == 0 {
        0
    } else if mx == r {
        if g < b {
            6 * 255 + g * 255 / n - b * 255 / n
        } else {
            (g - b) * 255 / n
        }
    } else if mx == g {
        2 * 255 + b * 255 / n - r * 255 / n
    } else {
        4 * 255 + r * 255 / n - g * 255 / n
    }
}

/// Hue of an RGB triple, quantized to `0..=255`.
pub open spec fn hue_spec(r: int, g: int, b: int) -> int {
    hue6_spec(r, g, b) / 6
}

/// Saturation of an RGB triple, quantized to `0..=255`.
pub open spec fn sat_spec(r: int, g: int, b: int) -> int {
    let mx = max_of3(r, g, b);
    let mn = min_of3(r, g, b);
    if mx == 0 {
        0
    } else {
        (mx - mn) * 255 / mx
    }
}

/// RGB triple reconstructed from quantized hue, saturation and value.
pub open spec fn hsv_to_rgb_spec(h: int, s: int, v: int) -> (int, int, int) {
    if s == 0 {
        (v, v, v)
    } else {
        let f = (h * 6) % 255;
        let sector = (h * 6) / 255;
        if sector == 1 {
            (v * (65025 - s * f) / 65025, v, v * (255 - s) / 255)
        } else if sector == 2 {
            (v * (255 - s) / 255, v, v * (65025 - s * (255 - f)) / 65025)
        } else if sector == 3 {
            (v * (255 - s) / 255, v * (65025 - s * f) / 65025, v)
        } else if sector == 4 {
            (v * (65025 - s * (255 - f)) / 65025, v * (255 - s) / 255, v)
        } else if sector == 5 {
            (v, v * (255 - s) / 255, v * (65025 - s * f) / 65025)
        } else {
            (v, v * (65025 - s * (255 - f)) / 65025, v * (255 - s) / 255)
        }
    }
}

/// A scaled-down product stays below the scaling factor: `v * x / d <= v`
/// whenever `x <= d`.
proof fn lemma_mul_div_le(v: int, x: int, d: int)
    requires
        0 <= v,
        0 <= x <= d,
        0 < d,
    ensures
        0 <= v * x / d <= v,
{
    assert(v * x <= v * d) by (nonlinear_arith)
        requires
            0 <= v,
            x <= d,
    ;
    assert(0 <= v * x) by (nonlinear_arith)
        requires
            0 <= v,
            0 <= x,
    ;
    lemma_div_pos_is_pos(v * x, d);
    lemma_div_is_ordered(v * x, v * d, d);
    lemma_div_multiples_vanish(v, d);
    assert(v * d == d * v) by (nonlinear_arith);
}

/// Two channels of one pixel are never further apart than the pixel's full
/// range `n`, so their scaled quotients differ by at most 255.
proof fn lemma_scaled_div_close(u: int, w: int, n: int)
    requires
        0 <= u,
        0 <= w,
        1 <= n,
        u <= w + n,
    ensures
        u * 255 / n <= w * 255 / n + 255,
{
    assert(u * 255 <= w * 255 + 255 * n) by (nonlinear_arith)
        requires
            u <= w + n,
            1 <= n,
    ;
    lemma_div_is_ordered(u * 255, w * 255 + 255 * n, n);
    lemma_hoist_over_denominator(w * 255, 255, n as nat);
}

/// Scaling preserves the order of two quotients.
proof fn lemma_scaled_div_mono(u: int, w: int, n: int)
    requires
        0 <= u <= w,
        1 <= n,
    ensures
        0 <= u * 255 / n <= w * 255 / n,
{
    assert(0 <= u * 255 <= w * 255) by (nonlinear_arith)
        requires
            0 <= u <= w,
    ;
    lemma_div_pos_is_pos(u * 255, n);
    lemma_div_is_ordered(u * 255, w * 255, n);
}

/// The quantized hue always fits in a byte.
pub proof fn lemma_hue_range(r: int, g: int, b: int)
    requires
        0 <= r <= 255,
        0 <= g <= 255,
        0 <= b <= 255,
    ensures
        0 <= hue6_spec(r, g, b) <= 1530,
        0 <= hue_spec(r, g, b) <= 255,
{
    let mx = max_of3(r, g, b);
    let mn = min_of3(r, g, b);
    let n = mx - mn;
    if n != 0 {
        if mx == r {
            if g < b {
                lemma_scaled_div_close(b, g, n);
                lemma_scaled_div_mono(g, b, n);
            } else {
                lemma_mul_div_le(255, g - b, n);
                assert((g - b) * 255 == 255 * (g - b)) by (nonlinear_arith);
            }
        } else if mx == g {
            lemma_scaled_div_close(r, b, n);
            lemma_scaled_div_close(b, r, n);
        } else {
            lemma_scaled_div_close(g, r, n);
            lemma_scaled_div_close(r, g, n);
        }
    }
}

/// The quantized saturation always fits in a byte.
pub proof fn lemma_sat_range(r: int, g: int, b: int)
    requires
        0 <= r <= 255,
        0 <= g <= 255,
        0 <= b <= 255,
    ensures
        0 <= sat_spec(r, g, b) <= 255,
{
    let mx = max_of3(r, g, b);
    let mn = min_of3(r, g, b);
    if mx != 0 {
        lemma_mul_div_le(255, mx - mn, mx);
        assert((mx - mn) * 255 == 255 * (mx - mn)) by (nonlinear_arith);
    }
}

/// Decomposes an RGB pixel into quantized hue, saturation and value.
///
/// The value channel is exactly `max(r, g, b)`; saturation is zero exactly
/// when the three channels are equal.
pub fn rgb_to_hsv(r: u8, g: u8, b: u8) -> (hsv: (u8, u8, u8))
    ensures
        hsv.0 == hue_spec(r as int, g as int, b as int),
        hsv.1 == sat_spec(r as int, g as int, b as int),
        hsv.2 == max_of3(r as int, g as int, b as int),
{
    let ri: usize = r as usize;
    let gi: usize = g as usize;
    let bi: usize = b as usize;
    let mx: usize = if ri >= gi && ri >= bi {
        ri
    } else if gi >= bi {
        gi
    } else {
        bi
    };
    let mn: usize = if ri <= gi && ri <= bi {
        ri
    } else if gi <= bi {
        gi
    } else {
        bi
    };
    let n: usize = mx - mn;

    let s: usize = if mx == 0 {
        0
    } else {
        proof {
            lemma_mul_div_le(255, n as int, mx as int);
            assert(n * 255 == 255 * (n as int)) by (nonlinear_arith);
        }
        n * 255 / mx
    };

    let h6: usize = if n == 0 {
        0
    } else if mx == ri {
        if gi < bi {
            proof {
                lemma_scaled_div_close(bi as int, gi as int, n as int);
                lemma_scaled_div_mono(gi as int, bi as int, n as int);
            }
            6 * 255 + gi * 255 / n - bi * 255 / n
        } else {
            proof {
                lemma_mul_div_le(255, gi - bi, n as int);
                assert((gi - bi) * 255 == 255 * (gi - bi)) by (nonlinear_arith);
            }
            (gi - bi) * 255 / n
        }
    } else if mx == gi {
        proof {
            lemma_scaled_div_close(ri as int, bi as int, n as int);
            lemma_scaled_div_close(bi as int, ri as int, n as int);
        }
        2 * 255 + bi * 255 / n - ri * 255 / n
    } else {
        proof {
            lemma_scaled_div_close(gi as int, ri as int, n as int);
            lemma_scaled_div_close(ri as int, gi as int, n as int);
        }
        4 * 255 + ri * 255 / n - gi * 255 / n
    };
    let h: usize = h6 / 6;

    (h as u8, s as u8, mx as u8)
}

/// Recomposes an RGB pixel from quantized hue, saturation and value.
pub fn hsv_to_rgb(h: u8, s: u8, v: u8) -> (rgb: (u8, u8, u8))
    ensures
        rgb.0 == hsv_to_rgb_spec(h as int, s as int, v as int).0,
        rgb.1 == hsv_to_rgb_spec(h as int, s as int, v as int).1,
        rgb.2 == hsv_to_rgb_spec(h as int, s as int, v as int).2,
{
    if s == 0 {
        return (v, v, v);
    }

    let mut rr: usize = v as usize;
    let mut gg: usize = v as usize;
    let mut bb: usize = v as usize;
    let si: usize = s as usize;
    let h6: usize = (h as usize) * 6;

    let f: usize = h6 % 255;
    proof {
        lemma_mul_upper_bound(si as int, 255, f as int, 254);
        lemma_mul_upper_bound(si as int, 255, 255 - f, 255);
        lemma_mul_div_le(v as int, 65025 - si * f, 65025);
        lemma_mul_div_le(v as int, 65025 - si * (255 - f), 65025);
        lemma_mul_div_le(v as int, 255 - si, 255);
    }
    match h6 / 255 {
        1 => {
            rr = rr * (65025 - si * f) / 65025;
            bb = bb * (255 - si) / 255;
        },
        2 => {
            rr = rr * (255 - si) / 255;
            bb = bb * (65025 - si * (255 - f)) / 65025;
        },
        3 => {
            rr = rr * (255 - si) / 255;
            gg = gg * (65025 - si * f) / 65025;
        },
        4 => {
            rr = rr * (65025 - si * (255 - f)) / 65025;
            gg = gg * (255 - si) / 255;
        },
        5 => {
            gg = gg * (255 - si) / 255;
            bb = bb * (65025 - si * f) / 65025;
        },
        _ => {
            gg = gg * (65025 - si * (255 - f)) / 65025;
            bb = bb * (255 - si) / 255;
        },
    }

    (rr as u8, gg as u8, bb as u8)
}

/// Law: an achromatic pixel, one with three equal channels, round-trips
/// through the colour decomposition and recomposition without any change.
pub proof fn lemma_achromatic_round_trip(c: int)
    requires
        0 <= c <= 255,
    ensures
        hue_spec(c, c, c) == 0,
        sat_spec(c, c, c) == 0,
        max_of3(c, c, c) == c,
        hsv_to_rgb_spec(hue_spec(c, c, c), sat_spec(c, c, c), max_of3(c, c, c)) == (c, c, c),
{
    if c != 0 {
        lemma_div_of0(c);
        assert((c - c) * 255 == 0);
    }
}

/// Scaling the value by the complement of the quantized saturation recovers
/// the minimum channel exactly, in both fixed-point forms the recomposition
/// uses.
proof fn lemma_min_channel_reconstruction(mx: int, n: int)
    requires
        1 <= n <= mx <= 255,
    ensures
        1 <= n * 255 / mx <= 255,
        mx * (255 - n * 255 / mx) / 255 == mx - n,
        mx * (65025 - (n * 255 / mx) * 255) / 65025 == mx - n,
{
    let s = n * 255 / mx;
    lemma_fundamental_div_mod(n * 255, mx);
    lemma_mod_division_less_than_divisor(n * 255, mx);
    let rem = (n * 255) % mx;
    assert(mx * s == n * 255 - rem);
    assert(s >= 1) by (nonlinear_arith)
        requires
            mx * s == n * 255 - rem,
            0 <= rem < mx <= 255,
            1 <= n,
            1 <= mx,
    ;
    lemma_mul_div_le(255, n, mx);
    assert(n * 255 == 255 * n) by (nonlinear_arith);
    assert(mx * (255 - s) == mx * 255 - mx * s) by (nonlinear_arith);
    assert(mx * (255 - s) == 255 * (mx - n) + rem) by (nonlinear_arith)
        requires
            mx * (255 - s) == mx * 255 - (n * 255 - rem),
    ;
    lemma_fundamental_div_mod_converse(mx * (255 - s), 255, mx - n, rem);
    assert(mx * (65025 - s * 255) == 255 * (mx * (255 - s))) by (nonlinear_arith);
    assert(255 * (mx * (255 - s)) == 65025 * (mx - n) + 255 * rem) by (nonlinear_arith)
        requires
            mx * (255 - s) == 255 * (mx - n) + rem,
    ;
    lemma_fundamental_div_mod_converse(mx * (65025 - s * 255), 65025, mx - n, 255 * rem);
}

/// The quantized saturation in product form: `mx * s` tracks `255 * n` to
/// within one value step.
proof fn lemma_sat_quantization(mx: int, n: int)
    requires
        1 <= n <= mx <= 255,
    ensures
        1 <= n * 255 / mx <= 255,
        255 * n - mx < mx * (n * 255 / mx) <= 255 * n,
{
    let s = n * 255 / mx;
    lemma_fundamental_div_mod(n * 255, mx);
    lemma_mod_division_less_than_divisor(n * 255, mx);
    let rem = (n * 255) % mx;
    assert(mx * s == n * 255 - rem);
    assert(s >= 1) by (nonlinear_arith)
        requires
            mx * s == n * 255 - rem,
            0 <= rem < mx <= 255,
            1 <= n,
            1 <= mx,
    ;
    lemma_mul_div_le(255, n, mx);
    assert(n * 255 == 255 * n) by (nonlinear_arith);
}

/// The scaled quotient `n * (u * 255 / n)` tracks `255 * u` to within one
/// value step.
proof fn lemma_scaled_quotient(n: int, u: int)
    requires
        1 <= n,
        0 <= u,
    ensures
        255 * u - n < n * (u * 255 / n) <= 255 * u,
{
    lemma_fundamental_div_mod(u * 255, n);
    lemma_mod_division_less_than_divisor(u * 255, n);
    assert(u * 255 == 255 * u) by (nonlinear_arith);
}

/// Two-sided bound on the fixed-point sector interpolation: for a fraction
/// position `ff` of the sector, the recomposed channel lands within one of
/// `(mx - n) + n * ff / 255`.
proof fn lemma_sector_form_bounds(mx: int, n: int, ff: int)
    requires
        1 <= n <= mx <= 255,
        0 <= ff <= 255,
    ensures
        ({
            let s = n * 255 / mx;
            let val = mx * (65025 - s * (255 - ff)) / 65025;
            mx - n + n * ff / 255 <= val <= mx - n + n * ff / 255 + 1
        }),
{
    let s = n * 255 / mx;
    let nn = mx * (65025 - s * (255 - ff));
    lemma_sat_quantization(mx, n);
    assert(nn == 65025 * mx - (mx * s) * (255 - ff)) by (nonlinear_arith)
        requires
            nn == mx * (65025 - s * (255 - ff)),
    ;
    assert((255 * n - mx) * (255 - ff) <= (mx * s) * (255 - ff) <= (255 * n) * (255 - ff))
        by (nonlinear_arith)
        requires
            255 * n - mx < mx * (n * 255 / mx) <= 255 * n,
            s == n * 255 / mx,
            0 <= 255 - ff,
    ;
    let t = n * ff;
    let q = t / 255;
    let rem = t % 255;
    lemma_fundamental_div_mod(t, 255);
    lemma_mod_division_less_than_divisor(t, 255);
    assert(0 <= t) by (nonlinear_arith)
        requires
            t == n * ff,
            0 <= n,
            0 <= ff,
    ;
    // Lower bound: nn >= 65025 * (mx - n + q) + 255 * rem.
    assert(65025 * mx - (255 * n) * (255 - ff) == 65025 * (mx - n) + 255 * t)
        by (nonlinear_arith)
        requires
            t == n * ff,
    ;
    assert(65025 * (mx - n) + 255 * t == 65025 * (mx - n + q) + 255 * rem)
        by (nonlinear_arith)
        requires
            t == 255 * q + rem,
    ;
    assert(nn >= 65025 * (mx - n + q));
    lemma_div_is_ordered(65025 * (mx - n + q), nn, 65025);
    lemma_div_multiples_vanish(mx - n + q, 65025);
    // Upper bound: nn < 65025 * (mx - n + q + 2).
    assert(65025 * mx - (255 * n - mx) * (255 - ff) == 65025 * (mx - n) + 255 * t + mx * (255
        - ff)) by (nonlinear_arith)
        requires
            t == n * ff,
    ;
    assert(mx * (255 - ff) <= 65025) by (nonlinear_arith)
        requires
            0 <= mx <= 255,
            0 <= 255 - ff <= 255,
    ;
    assert(nn < 65025 * (mx - n + q + 2)) by (nonlinear_arith)
        requires
            nn <= 65025 * (mx - n) + 255 * (255 * q + rem) + 65025,
            t == 255 * q + rem,
            rem < 255,
    ;
    lemma_multiply_divide_lt(nn, 65025, mx - n + q + 2);
    assert(65025 * (mx - n + q + 2) == (mx - n + q + 2) * 65025) by (nonlinear_arith);
}

/// Squeezing `n * ff` into a window of `255 * dd` pins `n * ff / 255` into
/// the corresponding window around `dd`.
proof fn lemma_ratio_window(n: int, dd: int, ff: int, aa: int, cc: int)
    requires
        1 <= n,
        0 <= ff,
        255 * (dd - aa) <= n * ff,
        n * ff <= 255 * (dd + cc) + 254,
    ensures
        dd - aa <= n * ff / 255 <= dd + cc,
{
    lemma_div_is_ordered(255 * (dd - aa), n * ff, 255);
    lemma_div_is_ordered(n * ff, 255 * (dd + cc) + 254, 255);
    lemma_div_multiples_vanish(dd - aa, 255);
    lemma_fundamental_div_mod_converse(255 * (dd + cc) + 254, 255, dd + cc, 254);
}

/// Round-trip tolerance in the branch where red is the brightest channel
/// and green at least the blue: red and blue return exactly, green within
/// the hue quantization error.
proof fn lemma_rt_red_major(r: int, g: int, b: int)
    requires
        0 <= b <= g <= r <= 255,
        b < r,
    ensures
        ({
            let out = hsv_to_rgb_spec(hue_spec(r, g, b), sat_spec(r, g, b), max_of3(r, g, b));
            out.0 == r && g - 6 <= out.1 <= g + 1 && out.2 == b
        }),
{
    let mx = r;
    let n = r - b;
    let dd = g - b;
    assert(max_of3(r, g, b) == r && min_of3(r, g, b) == b);
    lemma_sat_quantization(mx, n);
    lemma_min_channel_reconstruction(mx, n);
    let h6 = hue6_spec(r, g, b);
    lemma_mul_div_le(255, dd, n);
    assert(dd * 255 == 255 * dd) by (nonlinear_arith);
    assert(h6 == dd * 255 / n);
    let h = h6 / 6;
    lemma_fundamental_div_mod(h6, 6);
    lemma_mod_division_less_than_divisor(h6, 6);
    let e = h6 % 6;
    assert(h * 6 == h6 - e);
    let f = (h * 6) % 255;
    assert(0 <= h6 - e <= 252);
    lemma_fundamental_div_mod_converse(h6 - e, 255, 0, h6 - e);
    assert(f == h6 - e);
    lemma_sector_form_bounds(mx, n, f);
    lemma_scaled_quotient(n, dd);
    assert(n * f >= n * h6 - 5 * n) by (nonlinear_arith)
        requires
            f >= h6 - 5,
            1 <= n,
    ;
    assert(n * f <= n * h6) by (nonlinear_arith)
        requires
            f <= h6,
            1 <= n,
    ;
    assert(255 * (dd - 6) <= n * f) by (nonlinear_arith)
        requires
            n * f >= n * h6 - 5 * n,
            n * h6 > 255 * dd - n,
            n <= 255,
    ;
    assert(n * f <= 255 * (dd + 0) + 254) by (nonlinear_arith)
        requires
            n * f <= n * h6,
            n * h6 <= 255 * dd,
    ;
    lemma_ratio_window(n, dd, f, 6, 0);
}

/// Round-trip tolerance in the branch where red is the brightest channel
/// and blue over green, including the landing just short of the magenta
/// sector boundary.
proof fn lemma_rt_red_minor(r: int, g: int, b: int)
    requires
        0 <= g < b <= r <= 255,
    ensures
        ({
            let out = hsv_to_rgb_spec(hue_spec(r, g, b), sat_spec(r, g, b), max_of3(r, g, b));
            r - 5 <= out.0 <= r + 1 && out.1 == g && b - 1 <= out.2 <= b + 6
        }),
{
    let mx = r;
    let n = r - g;
    assert(max_of3(r, g, b) == r && min_of3(r, g, b) == g);
    lemma_sat_quantization(mx, n);
    lemma_min_channel_reconstruction(mx, n);
    let qg = g * 255 / n;
    let qb = b * 255 / n;
    lemma_scaled_div_close(b, g, n);
    lemma_scaled_div_mono(g, b, n);
    lemma_scaled_quotient(n, g);
    lemma_scaled_quotient(n, b);
    // qb >= qg + 1, so the hue never reaches the top of the circle.
    lemma_scaled_div_mono(g + 1, b, n);
    lemma_hoist_over_denominator(g * 255, 1, n as nat);
    lemma_div_is_ordered(g * 255 + n, (g + 1) * 255, n);
    let h6 = hue6_spec(r, g, b);
    assert(h6 == 1530 + qg - qb);
    assert(1275 <= h6 <= 1529);
    let h = h6 / 6;
    lemma_fundamental_div_mod(h6, 6);
    lemma_mod_division_less_than_divisor(h6, 6);
    let e = h6 % 6;
    assert(h * 6 == h6 - e);
    let f = (h * 6) % 255;
    if h6 - e >= 1275 {
        lemma_fundamental_div_mod_converse(h6 - e, 255, 5, h6 - e - 1275);
        assert(f == h6 - e - 1275);
        let ff = 255 - f;
        assert(ff == qb - qg + e);
        lemma_sector_form_bounds(mx, n, ff);
        assert(n * ff == n * qb - n * qg + n * e) by (nonlinear_arith)
            requires
                ff == qb - qg + e,
        ;
        assert(0 <= n * e <= 5 * n) by (nonlinear_arith)
            requires
                0 <= e <= 5,
                0 <= n,
        ;
        assert(255 * (b - g - 1) <= n * ff) by (nonlinear_arith)
            requires
                n * ff >= (255 * b - n + 1) - 255 * g + 0,
                n <= 255,
        ;
        assert(n * ff <= 255 * (b - g + 5) + 254) by (nonlinear_arith)
            requires
                n * ff <= 255 * b - (255 * g - n + 1) + 5 * n,
                n <= 255,
        ;
        lemma_ratio_window(n, b - g, ff, 1, 5);
    } else {
        // The quantized hue slipped below the magenta boundary: blue is
        // within a value step of red here, and the roles shift one sector.
        lemma_fundamental_div_mod_converse(h6 - e, 255, 4, h6 - e - 1020);
        assert(f == h6 - e - 1020);
        assert(250 <= f <= 254);
        assert(251 <= qb - qg <= 255);
        lemma_sector_form_bounds(mx, n, f);
        assert(n * f >= 255 * (n - 5)) by (nonlinear_arith)
            requires
                f >= 250,
                1 <= n <= 255,
        ;
        assert(n * f <= 255 * n + 254) by (nonlinear_arith)
            requires
                f <= 254,
                1 <= n,
        ;
        lemma_ratio_window(n, n, f, 5, 0);
        assert(255 * b >= n * qb);
        assert(n * qb == n * qg + (qb - qg) * n) by (nonlinear_arith);
        assert((qb - qg) * n >= 251 * n) by (nonlinear_arith)
            requires
                qb - qg >= 251,
                n >= 0,
        ;
        assert(255 * (b - g) >= 250 * n + 1);
        assert(r - b <= 4);
    }
}

/// Round-trip tolerance in the branch where green is strictly the
/// brightest channel, including the landings just short of the yellow and
/// cyan sector boundaries.
proof fn lemma_rt_green_major(r: int, g: int, b: int)
    requires
        0 <= r < g <= 255,
        0 <= b <= g,
    ensures
        ({
            let out = hsv_to_rgb_spec(hue_spec(r, g, b), sat_spec(r, g, b), max_of3(r, g, b));
            r - 1 <= out.0 <= r + 6 && g - 5 <= out.1 <= g + 1 && b - 6 <= out.2 <= b + 1
        }),
{
    let mx = g;
    let mn = min_of3(r, g, b);
    let n = g - mn;
    assert(max_of3(r, g, b) == g);
    lemma_sat_quantization(mx, n);
    lemma_min_channel_reconstruction(mx, n);
    let qr = r * 255 / n;
    let qb = b * 255 / n;
    lemma_scaled_div_close(b, r, n);
    lemma_scaled_div_close(r, b, n);
    lemma_scaled_quotient(n, r);
    lemma_scaled_quotient(n, b);
    let h6 = hue6_spec(r, g, b);
    assert(h6 == 510 + qb - qr);
    assert(255 <= h6 <= 765);
    let h = h6 / 6;
    lemma_fundamental_div_mod(h6, 6);
    lemma_mod_division_less_than_divisor(h6, 6);
    let e = h6 % 6;
    assert(h * 6 == h6 - e);
    let f = (h * 6) % 255;
    if h6 - e <= 254 {
        // Landed just short of the red-to-yellow boundary: red is within a
        // value step of green here.
        lemma_fundamental_div_mod_converse(h6 - e, 255, 0, h6 - e);
        assert(f == h6 - e);
        assert(250 <= f <= 254);
        assert(251 <= qr - qb <= 255);
        lemma_sector_form_bounds(mx, n, f);
        assert(n * f >= 255 * (n - 5)) by (nonlinear_arith)
            requires
                f >= 250,
                1 <= n <= 255,
        ;
        assert(n * f <= 255 * n + 254) by (nonlinear_arith)
            requires
                f <= 254,
                1 <= n,
        ;
        lemma_ratio_window(n, n, f, 5, 0);
        assert(n * qr == n * qb + (qr - qb) * n) by (nonlinear_arith);
        assert((qr - qb) * n >= 251 * n) by (nonlinear_arith)
            requires
                qr - qb >= 251,
                n >= 0,
        ;
        assert(255 * (r - b) >= 250 * n + 1);
        assert(mn == b);
        assert(g - r <= 4);
    } else if h6 - e <= 509 {
        lemma_fundamental_div_mod_converse(h6 - e, 255, 1, h6 - e - 255);
        assert(f == h6 - e - 255);
        let ff = 255 - f;
        assert(ff == qr - qb + e);
        assert(1 <= ff <= 255);
        lemma_sector_form_bounds(mx, n, ff);
        assert(n * ff == n * qr - n * qb + n * e) by (nonlinear_arith)
            requires
                ff == qr - qb + e,
        ;
        assert(0 <= n * e <= 5 * n) by (nonlinear_arith)
            requires
                0 <= e <= 5,
                0 <= n,
        ;
        if qr >= qb {
            assert(n * qr >= n * qb) by (nonlinear_arith)
                requires
                    qr >= qb,
                    n >= 0,
            ;
            assert(r >= b);
            assert(mn == b);
            assert(255 * (r - b - 1) <= n * ff) by (nonlinear_arith)
                requires
                    n * ff >= (255 * r - n + 1) - 255 * b + 0,
                    n <= 255,
            ;
            assert(n * ff <= 255 * (r - b + 5) + 254) by (nonlinear_arith)
                requires
                    n * ff <= 255 * r - (255 * b - n + 1) + 5 * n,
                    n <= 255,
            ;
            lemma_ratio_window(n, r - b, ff, 1, 5);
        } else {
            // The quantized hue slipped below the yellow-to-green boundary:
            // blue is within a value step of red.
            assert(n * qb >= n * qr + n) by (nonlinear_arith)
                requires
                    qb >= qr + 1,
                    n >= 0,
            ;
            assert(b > r);
            assert(mn == r);
            assert(qb - qr <= 4);
            assert(n * qb == n * qr + (qb - qr) * n) by (nonlinear_arith);
            assert((qb - qr) * n <= 4 * n) by (nonlinear_arith)
                requires
                    qb - qr <= 4,
                    n >= 0,
            ;
            assert(255 * (b - r) <= 5 * n - 1);
            assert(b - r <= 4);
            assert(n * ff <= 255 * (0 + 5) + 254) by (nonlinear_arith)
                requires
                    n * ff == n * qr - n * qb + n * e,
                    n * qr <= n * qb,
                    n * e <= 5 * n,
                    n <= 255,
            ;
            assert(0 <= n * ff) by (nonlinear_arith)
                requires
                    ff >= 0,
                    n >= 0,
            ;
            lemma_ratio_window(n, 0, ff, 0, 5);
        }
    } else {
        if h6 == 765 {
            assert(e == 3);
        }
        assert(510 <= h6 - e <= 764);
        lemma_fundamental_div_mod_converse(h6 - e, 255, 2, h6 - e - 510);
        assert(f == h6 - e - 510);
        assert(qb >= qr);
        assert(n * qb >= n * qr) by (nonlinear_arith)
            requires
                qb >= qr,
                n >= 0,
        ;
        assert(b >= r);
        assert(mn == r);
        assert(f == qb - qr - e);
        lemma_sector_form_bounds(mx, n, f);
        assert(n * f == n * qb - n * qr - n * e) by (nonlinear_arith)
            requires
                f == qb - qr - e,
        ;
        assert(0 <= n * e <= 5 * n) by (nonlinear_arith)
            requires
                0 <= e <= 5,
                0 <= n,
        ;
        assert(255 * (b - r - 6) <= n * f) by (nonlinear_arith)
            requires
                n * f >= (255 * b - n + 1) - 255 * r - 5 * n,
                n <= 255,
        ;
        assert(n * f <= 255 * (b - r + 0) + 254) by (nonlinear_arith)
            requires
                n * f <= 255 * b - (255 * r - n + 1) - 0,
                n <= 255,
        ;
        lemma_ratio_window(n, b - r, f, 6, 0);
    }
}

/// Round-trip tolerance in the branch where blue is strictly the brightest
/// channel, including the landings just short of the green-to-cyan and
/// blue-to-magenta sector boundaries.
proof fn lemma_rt_blue_major(r: int, g: int, b: int)
    requires
        0 <= g < b <= 255,
        0 <= r < b,
    ensures
        ({
            let out = hsv_to_rgb_spec(hue_spec(r, g, b), sat_spec(r, g, b), max_of3(r, g, b));
            r - 6 <= out.0 <= r + 1 && g - 1 <= out.1 <= g + 6 && b - 5 <= out.2 <= b + 1
        }),
{
    let mx = b;
    let mn = min_of3(r, g, b);
    let n = b - mn;
    assert(max_of3(r, g, b) == b);
    lemma_sat_quantization(mx, n);
    lemma_min_channel_reconstruction(mx, n);
    let qr = r * 255 / n;
    let qg = g * 255 / n;
    lemma_scaled_div_close(r, g, n);
    lemma_scaled_div_close(g, r, n);
    lemma_scaled_quotient(n, r);
    lemma_scaled_quotient(n, g);
    let h6 = hue6_spec(r, g, b);
    assert(h6 == 1020 + qr - qg);
    assert(765 <= h6 <= 1275);
    let h = h6 / 6;
    lemma_fundamental_div_mod(h6, 6);
    lemma_mod_division_less_than_divisor(h6, 6);
    let e = h6 % 6;
    assert(h * 6 == h6 - e);
    let f = (h * 6) % 255;
    if h6 - e <= 764 {
        // Landed just short of the green-to-cyan boundary: green is within
        // a value step of blue here.
        lemma_fundamental_div_mod_converse(h6 - e, 255, 2, h6 - e - 510);
        assert(f == h6 - e - 510);
        assert(250 <= f <= 254);
        assert(251 <= qg - qr <= 255);
        lemma_sector_form_bounds(mx, n, f);
        assert(n * f >= 255 * (n - 5)) by (nonlinear_arith)
            requires
                f >= 250,
                1 <= n <= 255,
        ;
        assert(n * f <= 255 * n + 254) by (nonlinear_arith)
            requires
                f <= 254,
                1 <= n,
        ;
        lemma_ratio_window(n, n, f, 5, 0);
        assert(n * qg == n * qr + (qg - qr) * n) by (nonlinear_arith);
        assert((qg - qr) * n >= 251 * n) by (nonlinear_arith)
            requires
                qg - qr >= 251,
                n >= 0,
        ;
        assert(255 * (g - r) >= 250 * n + 1);
        assert(mn == r);
        assert(b - g <= 4);
    } else if h6 - e <= 1019 {
        lemma_fundamental_div_mod_converse(h6 - e, 255, 3, h6 - e - 765);
        assert(f == h6 - e - 765);
        let ff = 255 - f;
        assert(ff == qg - qr + e);
        assert(1 <= ff <= 255);
        lemma_sector_form_bounds(mx, n, ff);
        assert(n * ff == n * qg - n * qr + n * e) by (nonlinear_arith)
            requires
                ff == qg - qr + e,
        ;
        assert(0 <= n * e <= 5 * n) by (nonlinear_arith)
            requires
                0 <= e <= 5,
                0 <= n,
        ;
        if qg >= qr {
            assert(n * qg >= n * qr) by (nonlinear_arith)
                requires
                    qg >= qr,
                    n >= 0,
            ;
            assert(g >= r);
            assert(mn == r);
            assert(255 * (g - r - 1) <= n * ff) by (nonlinear_arith)
                requires
                    n * ff >= (255 * g - n + 1) - 255 * r + 0,
                    n <= 255,
            ;
            assert(n * ff <= 255 * (g - r + 5) + 254) by (nonlinear_arith)
                requires
                    n * ff <= 255 * g - (255 * r - n + 1) + 5 * n,
                    n <= 255,
            ;
            lemma_ratio_window(n, g - r, ff, 1, 5);
        } else {
            // The quantized hue slipped below the cyan-to-blue boundary:
            // red is within a value step of green.
            assert(n * qr >= n * qg + n) by (nonlinear_arith)
                requires
                    qr >= qg + 1,
                    n >= 0,
            ;
            assert(r > g);
            assert(mn == g);
            assert(qr - qg <= 4);
            assert(n * qr == n * qg + (qr - qg) * n) by (nonlinear_arith);
            assert((qr - qg) * n <= 4 * n) by (nonlinear_arith)
                requires
                    qr - qg <= 4,
                    n >= 0,
            ;
            assert(255 * (r - g) <= 5 * n - 1);
            assert(r - g <= 4);
            assert(n * ff <= 255 * (0 + 5) + 254) by (nonlinear_arith)
                requires
                    n * ff == n * qg - n * qr + n * e,
                    n * qg <= n * qr,
                    n * e <= 5 * n,
                    n <= 255,
            ;
            assert(0 <= n * ff) by (nonlinear_arith)
                requires
                    ff >= 0,
                    n >= 0,
            ;
            lemma_ratio_window(n, 0, ff, 0, 5);
        }
    } else {
        if h6 == 1275 {
            assert(e == 3);
        }
        assert(1020 <= h6 - e <= 1274);
        lemma_fundamental_div_mod_converse(h6 - e, 255, 4, h6 - e - 1020);
        assert(f == h6 - e - 1020);
        assert(qr >= qg);
        assert(n * qr >= n * qg) by (nonlinear_arith)
            requires
                qr >= qg,
                n >= 0,
        ;
        assert(r >= g);
        assert(mn == g);
        assert(f == qr - qg - e);
        lemma_sector_form_bounds(mx, n, f);
        assert(n * f == n * qr - n * qg - n * e) by (nonlinear_arith)
            requires
                f == qr - qg - e,
        ;
        assert(0 <= n * e <= 5 * n) by (nonlinear_arith)
            requires
                0 <= e <= 5,
                0 <= n,
        ;
        assert(255 * (r - g - 6) <= n * f) by (nonlinear_arith)
            requires
                n * f >= (255 * r - n + 1) - 255 * g - 5 * n,
                n <= 255,
        ;
        assert(n * f <= 255 * (r - g + 0) + 254) by (nonlinear_arith)
            requires
                n * f <= 255 * r - (255 * g - n + 1) - 0,
                n <= 255,
        ;
        lemma_ratio_window(n, r - g, f, 6, 0);
    }
}

/// Law: a pixel whose two darker channels are equal — any grey, any pure
/// red, green or blue, and every tint or shade of those — round-trips
/// through the colour decomposition and recomposition exactly, not merely
/// within the quantization tolerance.
pub proof fn lemma_primary_hue_round_trip(r: int, g: int, b: int)
    requires
        0 <= r <= 255,
        0 <= g <= 255,
        0 <= b <= 255,
        (g == b && g <= r) || (r == b && r <= g) || (r == g && r <= b),
    ensures
        hsv_to_rgb_spec(hue_spec(r, g, b), sat_spec(r, g, b), max_of3(r, g, b)) == (r, g, b),
{
    let mx = max_of3(r, g, b);
    let mn = min_of3(r, g, b);
    let n = mx - mn;
    if n == 0 {
        lemma_achromatic_round_trip(r);
    } else {
        lemma_div_of0(n);
        lemma_min_channel_reconstruction(mx, n);
        if g == b && g <= r {
            assert(mx == r && mn == g);
            assert(hue_spec(r, g, b) == 0);
        } else if r == b && r <= g {
            assert(mx == g && mn == r);
            assert(hue6_spec(r, g, b) == 510);
            assert(hue_spec(r, g, b) == 85);
        } else {
            assert(mx == b && mn == r);
            assert(hue6_spec(r, g, b) == 1020);
            assert(hue_spec(r, g, b) == 170);
        }
    }
}

/// Law: the colour round trip never moves any channel by more than six.
/// The brightest channel always returns exactly, as do greys and pure-hue
/// tints; on the remaining pixels the hue and saturation quantization can
/// move the two darker channels, and six bounds that drift everywhere.
pub proof fn lemma_round_trip_tolerance(r: int, g: int, b: int)
    requires
        0 <= r <= 255,
        0 <= g <= 255,
        0 <= b <= 255,
    ensures
        ({
            let out = hsv_to_rgb_spec(hue_spec(r, g, b), sat_spec(r, g, b), max_of3(r, g, b));
            r - 6 <= out.0 <= r + 6 && g - 6 <= out.1 <= g + 6 && b - 6 <= out.2 <= b + 6
        }),
{
    if max_of3(r, g, b) == min_of3(r, g, b) {
        lemma_achromatic_round_trip(r);
    } else if r >= g && r >= b {
        if g >= b {
            lemma_rt_red_major(r, g, b);
        } else {
            lemma_rt_red_minor(r, g, b);
        }
    } else if g >= b {
        lemma_rt_green_major(r, g, b);
    } else {
        lemma_rt_blue_major(r, g, b);
    }
}

/// Law: recomposition never produces a channel brighter than the value
/// input, and its brightest channel equals the value input exactly.
pub proof fn lemma_hsv_value_is_max(h: int, s: int, v: int)
    requires
        0 <= h <= 255,
        0 <= s <= 255,
        0 <= v <= 255,
    ensures
        hsv_to_rgb_spec(h, s, v).0 <= v,
        hsv_to_rgb_spec(h, s, v).1 <= v,
        hsv_to_rgb_spec(h, s, v).2 <= v,
        max_of3(hsv_to_rgb_spec(h, s, v).0, hsv_to_rgb_spec(h, s, v).1, hsv_to_rgb_spec(h, s, v).2)
            == v,
{
    if s != 0 {
        let f = (h * 6) % 255;
        lemma_mul_upper_bound(s, 255, f, 254);
        lemma_mul_upper_bound(s, 255, 255 - f, 255);
        lemma_mul_div_le(v, 65025 - s * f, 65025);
        lemma_mul_div_le(v, 65025 - s * (255 - f), 65025);
        lemma_mul_div_le(v, 255 - s, 255);
    }
}

/// Law: the colour round trip preserves the value channel, that is the
/// luminance `max(r, g, b)`, exactly. The enhancement pipeline relies on
/// this: the luminance it writes into a pixel is the luminance the pixel
/// keeps.
pub proof fn lemma_round_trip_value(r: int, g: int, b: int)
    requires
        0 <= r <= 255,
        0 <= g <= 255,
        0 <= b <= 255,
    ensures
        ({
            let rgb2 = hsv_to_rgb_spec(hue_spec(r, g, b), sat_spec(r, g, b), max_of3(r, g, b));
            max_of3(rgb2.0, rgb2.1, rgb2.2) == max_of3(r, g, b)
        }),
{
    lemma_hue_range(r, g, b);
    lemma_sat_range(r, g, b);
    lemma_hsv_value_is_max(hue_spec(r, g, b), sat_spec(r, g, b), max_of3(r, g, b));
}

} // verus!
