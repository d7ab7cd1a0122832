//! Pixel-buffer operations on tightly packed RGBA8 images.

use vstd::prelude::*;
use vstd::arithmetic::div_mod::{lemma_fundamental_div_mod, lemma_div_pos_is_pos};

verus! {

/// Index facts for a pixel at column `a` of row `b` in an image `n` rows by `m` columns.
pub proof fn lemma_pixel_in_bounds(a: int, b: int, n: int, m: int)
    requires
        0 <= a < m,
        0 <= b < n,
    ensures
        0 <= b * m + a < n * m,
        (b * m + a) * 4 + 4 <= n * m * 4,
{
    assert(b * m + a < n * m) by (nonlinear_arith)
        requires
            0 <= a < m,
            0 <= b < n,
    ;
    assert(0 <= b * m) by (nonlinear_arith)
        requires
            0 <= b,
            0 <= a < m,
    ;
}

/// The byte of the clockwise-rotated image at output row `y`, column `x`, channel `c`.
pub open spec fn rotated_source_index(w: int, h: int, x: int, y: int, c: int) -> int {
    ((h - 1 - x) * w + y) * 4 + c
}

/// `out` is `src`, a `w`×`h` RGBA image, turned a quarter clockwise: `out`
/// is `h` wide and `w` high, and its pixel at column `x`, row `y` is the
/// pixel of `src` at column `y`, row `h - 1 - x`.
pub open spec fn rotation_of(src: Seq<u8>, w: int, h: int, out: Seq<u8>) -> bool {
    &&& out.len() == w * h * 4
    &&& forall|y: int, x: int, c: int| 0 <= y < w && 0 <= x < h && 0 <= c < 4
        ==> #[trigger] out[(y * h + x) * 4 + c] == src[rotated_source_index(w, h, x, y, c)]
}

/// Rotates a `w`×`h` RGBA image by 90° clockwise; the result is `h` wide and `w` high.
pub fn rotate_rgba_90_cw(rgba: &[u8], w: usize, h: usize) -> (res: (Vec<u8>, [usize; 2]))
    requires
        w * h * 4 <= usize::MAX,
        rgba@.len() >= w * h * 4,
    ensures
        res.1 == [h, w],
        rotation_of(rgba@, w as int, h as int, res.0@),
{
    let mut out: Vec<u8> = Vec::with_capacity(w * h * 4);
    let mut y: usize = 0;
    while y < w
        invariant
            y <= w,
            w * h * 4 <= usize::MAX,
            rgba@.len() >= w * h * 4,
            out@.len() == y * h * 4,
            forall|yy: int, xx: int, c: int|
                0 <= yy < y && 0 <= xx < h && 0 <= c < 4 ==> #[trigger] out@[(yy * h + xx) * 4 + c]
                    == rgba@[rotated_source_index(w as int, h as int, xx, yy, c)],
        decreases w - y,
    {
        let mut x: usize = 0;
        proof {
            assert forall|yy: int, xx: int, c: int|
                0 <= yy < w && 0 <= xx < h && 0 <= c < 4 && (yy * h + xx) < y * h
                    implies #[trigger] out@[(yy * h + xx) * 4 + c]
                    == rgba@[rotated_source_index(w as int, h as int, xx, yy, c)] by {
                assert(yy < y) by (nonlinear_arith)
                    requires
                        yy * h + xx < y * h,
                        0 <= xx,
                        0 <= yy,
                {
                    if yy >= y {
                        assert(yy * h >= y * h);
                    }
                }
            }
        }
        while x < h
            invariant
                y < w,
                x <= h,
                w * h * 4 <= usize::MAX,
                rgba@.len() >= w * h * 4,
                out@.len() == (y * h + x) * 4,
                forall|yy: int, xx: int, c: int|
                    0 <= yy < w && 0 <= xx < h && 0 <= c < 4 && (yy * h + xx) < y * h + x
                        ==> #[trigger] out@[(yy * h + xx) * 4 + c]
                        == rgba@[rotated_source_index(w as int, h as int, xx, yy, c)],
            decreases h - x,
        {
            proof {
                lemma_pixel_in_bounds(y as int, (h - 1 - x) as int, h as int, w as int);
                lemma_pixel_in_bounds(x as int, y as int, w as int, h as int);
            }
            let src = ((h - 1 - x) * w + y) * 4;
            let ghost before = out@;
            out.push(rgba[src]);
            out.push(rgba[src + 1]);
            out.push(rgba[src + 2]);
            out.push(rgba[src + 3]);
            proof {
                assert forall|yy: int, xx: int, c: int|
                    0 <= yy < w && 0 <= xx < h && 0 <= c < 4 && (yy * h + xx) < y * h + x + 1
                        implies #[trigger] out@[(yy * h + xx) * 4 + c]
                        == rgba@[rotated_source_index(w as int, h as int, xx, yy, c)] by {
                    if yy * h + xx < y * h + x {
                        assert(out@[(yy * h + xx) * 4 + c] == before[(yy * h + xx) * 4 + c]);
                    } else {
                        assert(yy * h + xx == y * h + x);
                        assert(yy == y && xx == x) by (nonlinear_arith)
                            requires
                                yy * h + xx == y * h + x,
                                0 <= xx < h,
                                0 <= x < h,
                                0 <= yy,
                                0 <= y,
                        {
                            if yy < y {
                                assert(yy * h + h <= y * h);
                            } else if yy > y {
                                assert(y * h + h <= yy * h);
                            }
                        }
                    }
                }
            }
            x = x + 1;
        }
        proof {
            assert forall|yy: int, xx: int, c: int|
                0 <= yy < y + 1 && 0 <= xx < h && 0 <= c < 4 implies #[trigger] out@[(yy * h + xx)
                * 4 + c] == rgba@[rotated_source_index(w as int, h as int, xx, yy, c)] by {
                assert(yy * h + xx < (y + 1) * h) by (nonlinear_arith)
                    requires
                        0 <= yy < y + 1,
                        0 <= xx < h,
                ;
                assert((y + 1) * h == y * h + h) by (nonlinear_arith);
            }
            assert(out@.len() == (y + 1) * h * 4) by (nonlinear_arith)
                requires
                    out@.len() == (y * h + h) * 4,
            ;
        }
        y = y + 1;
    }
    (out, [h, w])
}


/// Luma weights (BT.601) as the exact values of the binary32 constants 0.299, 0.587 and
/// 0.114, in units of 2⁻²⁷ (each is exactly representable at that scale).
pub const LUMA_R_FIXED: u64 = 40131100;
pub const LUMA_G_FIXED: u64 = 78785808;
pub const LUMA_B_FIXED: u64 = 15300821;
/// 2²⁷: the fixed-point scale of the luma model.
pub const LUMA_SCALE: u64 = 134217728;
/// 2²⁴: one more than the largest binary32 significand.
pub const SIGNIFICAND_LIMIT: u64 = 16777216;

/// The spacing of binary32 values around `n` (in the model's units), searching upward
/// from `unit`: the least power-of-two multiple of `unit` at which `n` needs at most
/// 24 significant bits.
pub open spec fn binary32_unit(n: nat, unit: nat) -> nat
    decreases n + 1 - unit,
{
    if unit == 0 || n < unit * 16777216 {
        unit
    } else {
        binary32_unit(n, unit * 2)
    }
}

/// Rounds `n` to a multiple of `unit`, to nearest with ties to an even quotient.
pub open spec fn round_to_unit(n: nat, unit: nat) -> nat {
    let q = n / unit;
    let r = n % unit;
    if 2 * r > unit || (2 * r == unit && q % 2 == 1) {
        ((q + 1) * unit) as nat
    } else {
        (q * unit) as nat
    }
}

/// The binary32 value nearest (ties to even) to the non-negative number `n`·2⁻²⁷,
/// again in units of 2⁻²⁷. Only normal magnitudes far below the binary32 maximum occur
/// here, so no subnormal or overflow cases arise.
pub open spec fn round_binary32(n: nat) -> nat {
    round_to_unit(n, binary32_unit(n, 1))
}

/// The luma bucket of one pixel, computed in binary32 arithmetic as an `f32` program does:
/// `((0.299·r + 0.587·g) + 0.114·b)` with every product and sum rounded, truncated to
/// an integer and capped at 255.
pub open spec fn luma_bucket(r: u8, g: u8, b: u8) -> nat {
    let pr = round_binary32((LUMA_R_FIXED as nat) * (r as nat));
    let pg = round_binary32((LUMA_G_FIXED as nat) * (g as nat));
    let pb = round_binary32((LUMA_B_FIXED as nat) * (b as nat));
    let y = round_binary32(round_binary32(pr + pg) + pb);
    let t = y / (LUMA_SCALE as nat);
    if t > 255 {
        255
    } else {
        t
    }
}

proof fn lemma_binary32_unit_bounds(n: nat, unit: nat)
    requires
        unit >= 1,
        unit <= n || n < unit * 16777216,
    ensures
        binary32_unit(n, unit) >= 1,
        binary32_unit(n, unit) <= unit || binary32_unit(n, unit) <= n,
        n < binary32_unit(n, unit) * 16777216,
    decreases n + 1 - unit,
{
    if n >= unit * 16777216 {
        lemma_binary32_unit_bounds(n, unit * 2);
    }
}

/// Rounding to binary32 at most doubles a magnitude.
pub proof fn lemma_round_binary32_bound(n: nat)
    ensures
        round_binary32(n) <= 2 * n,
{
    lemma_binary32_unit_bounds(n, 1);
    let u = binary32_unit(n, 1);
    lemma_fundamental_div_mod(n as int, u as int);
    let q = n / u;
    let r = n % u;
    if n == 0 {
        assert(q == 0 && r == 0) by {
            lemma_div_pos_is_pos(0, u as int);
        }
    } else {
        assert((q + 1) * u == q * u + u) by (nonlinear_arith);
        assert(q * u == u * q) by (nonlinear_arith);
    }
}

/// Rounds `n`·2⁻²⁷ to the nearest binary32 value (see [`round_binary32`]).
fn round_binary32_exec(n: u64) -> (res: u64)
    requires
        n < 0x100_0000_0000,
    ensures
        res == round_binary32(n as nat),
        res <= 2 * n,
{
    proof {
        lemma_round_binary32_bound(n as nat);
    }
    let mut unit: u64 = 1;
    while n >= unit * SIGNIFICAND_LIMIT
        invariant
            n < 0x100_0000_0000,
            1 <= unit <= 0x2_0000,
            unit <= n || n < unit * 16777216,
            binary32_unit(n as nat, unit as nat) == binary32_unit(n as nat, 1),
        decreases n - unit,
    {
        unit = unit * 2;
    }
    let q = n / unit;
    let r = n % unit;
    proof {
        lemma_fundamental_div_mod(n as int, unit as int);
        assert(q * unit == unit * q) by (nonlinear_arith);
        assert((q + 1) * unit == q * unit + unit) by (nonlinear_arith);
    }
    if 2 * r > unit || (2 * r == unit && q % 2 == 1) {
        (q + 1) * unit
    } else {
        q * unit
    }
}

/// The luma bucket of one pixel (see [`luma_bucket`]).
pub fn luma_bucket_exec(r: u8, g: u8, b: u8) -> (res: usize)
    ensures
        res == luma_bucket(r, g, b),
        res < 256,
{
    let pr = round_binary32_exec(LUMA_R_FIXED * r as u64);
    let pg = round_binary32_exec(LUMA_G_FIXED * g as u64);
    let pb = round_binary32_exec(LUMA_B_FIXED * b as u64);
    let s = round_binary32_exec(pr + pg);
    let y = round_binary32_exec(s + pb);
    let t = y / LUMA_SCALE;
    if t > 255 {
        255
    } else {
        t as usize
    }
}

/// The luma bucket of the pixel starting at byte `4·p`.
pub open spec fn pixel_luma(rgba: Seq<u8>, p: int) -> nat {
    luma_bucket(rgba[4 * p], rgba[4 * p + 1], rgba[4 * p + 2])
}

/// The number of pixels among the first `npix` whose luma bucket is `bucket`.
pub open spec fn luma_count(rgba: Seq<u8>, npix: nat, bucket: nat) -> nat
    decreases npix,
{
    if npix == 0 {
        0
    } else {
        luma_count(rgba, (npix - 1) as nat, bucket) + if pixel_luma(rgba, npix - 1) == bucket {
            1nat
        } else {
            0nat
        }
    }
}

/// The number of pixels the histogram visits: one per started group of four bytes.
pub open spec fn pixel_count(len: nat) -> nat {
    (len + 3) / 4
}

proof fn lemma_luma_count_bounded(rgba: Seq<u8>, npix: nat, bucket: nat)
    ensures
        luma_count(rgba, npix, bucket) <= npix,
    decreases npix,
{
    if npix > 0 {
        lemma_luma_count_bounded(rgba, (npix - 1) as nat, bucket);
    }
}

/// Histogram of pixel luma over 256 buckets.
pub fn compute_y_histogram(rgba: &[u8]) -> (hist: [u32; 256])
    requires
        rgba@.len() % 4 == 0 || rgba@.len() % 4 == 3,
        pixel_count(rgba@.len()) <= u32::MAX,
    ensures
        forall|b: int| 0 <= b < 256 ==> #[trigger] hist@[b] == luma_count(
            rgba@,
            pixel_count(rgba@.len()),
            b as nat,
        ),
{
    let mut hist = [0u32; 256];
    let len = rgba.len();
    let npix: usize = len / 4 + if len % 4 == 0 { 0 } else { 1 };
    let mut p: usize = 0;
    while p < npix
        invariant
            len == rgba@.len(),
            len % 4 == 0 || len % 4 == 3,
            npix == pixel_count(len as nat),
            npix <= u32::MAX,
            p <= npix,
            forall|b: int| 0 <= b < 256 ==> #[trigger] hist@[b] == luma_count(
                rgba@,
                p as nat,
                b as nat,
            ),
        decreases npix - p,
    {
        let idx = p * 4;
        let y = luma_bucket_exec(rgba[idx], rgba[idx + 1], rgba[idx + 2]);
        proof {
            lemma_luma_count_bounded(rgba@, p as nat, y as nat);
        }
        hist[y] = hist[y] + 1;
        p = p + 1;
    }
    hist
}

/// Sum of channel `c` over columns `x1 .. x_end` (end excluded) of row `y`
/// of an RGBA image `w` pixels wide.
pub open spec fn row_channel_sum(rgba: Seq<u8>, w: int, y: int, x1: int, x_end: int, c: int) -> nat
    decreases x_end - x1,
{
    if x_end <= x1 {
        0
    } else {
        row_channel_sum(rgba, w, y, x1, x_end - 1, c) + rgba[((y * w + x_end - 1) * 4 + c)] as nat
    }
}

/// Sum of channel `c` over the rectangle of columns `x1 ..= x2` and rows
/// `y1 .. y_end` (end excluded).
pub open spec fn rect_channel_sum(rgba: Seq<u8>, w: int, x1: int, x2: int, y1: int, y_end: int, c: int) -> nat
    decreases y_end - y1,
{
    if y_end <= y1 {
        0
    } else {
        rect_channel_sum(rgba, w, x1, x2, y1, y_end - 1, c) + row_channel_sum(rgba, w, y_end - 1, x1, x2 + 1, c)
    }
}

proof fn lemma_row_sum_bound(rgba: Seq<u8>, w: int, y: int, x1: int, x_end: int, c: int)
    ensures
        row_channel_sum(rgba, w, y, x1, x_end, c) <= 255 * (if x_end > x1 { x_end - x1 } else { 0 }),
    decreases x_end - x1,
{
    if x_end > x1 {
        lemma_row_sum_bound(rgba, w, y, x1, x_end - 1, c);
    }
}

proof fn lemma_rect_sum_bound(rgba: Seq<u8>, w: int, x1: int, x2: int, y1: int, y_end: int, c: int)
    requires
        x1 <= x2,
    ensures
        rect_channel_sum(rgba, w, x1, x2, y1, y_end, c) <= 255 * (x2 - x1 + 1) * (if y_end > y1 { y_end - y1 } else { 0 }),
    decreases y_end - y1,
{
    if y_end > y1 {
        lemma_rect_sum_bound(rgba, w, x1, x2, y1, y_end - 1, c);
        lemma_row_sum_bound(rgba, w, y_end - 1, x1, x2 + 1, c);
        assert(255 * (x2 - x1 + 1) * (y_end - 1 - y1) + 255 * (x2 - x1 + 1) == 255 * (x2 - x1 + 1) * (y_end - y1))
            by (nonlinear_arith);
    }
}

/// Sums of the red, green and blue samples over the pixel rectangle with
/// columns `x1 ..= x2` and rows `y1 ..= y2` of an RGBA image `w` pixels
/// wide, and the number of pixels summed.
pub fn region_sums(rgba: &[u8], w: usize, x1: usize, y1: usize, x2: usize, y2: usize) -> (r: (u64, u64, u64, u64))
    requires
        x1 <= x2 < w,
        y1 <= y2,
        (y2 * w + x2) * 4 + 3 < rgba@.len(),
        255 * (x2 - x1 + 1) * (y2 - y1 + 1) <= u64::MAX,
    ensures
        r.0 == rect_channel_sum(rgba@, w as int, x1 as int, x2 as int, y1 as int, y2 + 1, 0),
        r.1 == rect_channel_sum(rgba@, w as int, x1 as int, x2 as int, y1 as int, y2 + 1, 1),
        r.2 == rect_channel_sum(rgba@, w as int, x1 as int, x2 as int, y1 as int, y2 + 1, 2),
        r.3 == (x2 - x1 + 1) * (y2 - y1 + 1),
{
    let ghost cols = (x2 - x1 + 1) as int;
    let len: usize = rgba.len();
    assert(y2 <= y2 * w) by (nonlinear_arith)
        requires
            1 <= w,
    ;
    let mut r_sum: u64 = 0;
    let mut g_sum: u64 = 0;
    let mut b_sum: u64 = 0;
    let mut count: u64 = 0;
    let mut y: usize = y1;
    while y <= y2
        invariant
            x1 <= x2 < w,
            y1 <= y <= y2 + 1,
            len == rgba@.len(),
            y2 <= y2 * w,
            (y2 * w + x2) * 4 + 3 < rgba@.len(),
            255 * cols * (y2 - y1 + 1) <= u64::MAX,
            cols == x2 - x1 + 1,
            r_sum == rect_channel_sum(rgba@, w as int, x1 as int, x2 as int, y1 as int, y as int, 0),
            g_sum == rect_channel_sum(rgba@, w as int, x1 as int, x2 as int, y1 as int, y as int, 1),
            b_sum == rect_channel_sum(rgba@, w as int, x1 as int, x2 as int, y1 as int, y as int, 2),
            count == cols * (y - y1),
        decreases y2 + 1 - y,
    {
        proof {
            lemma_rect_sum_bound(rgba@, w as int, x1 as int, x2 as int, y1 as int, y as int, 0);
            lemma_rect_sum_bound(rgba@, w as int, x1 as int, x2 as int, y1 as int, y as int, 1);
            lemma_rect_sum_bound(rgba@, w as int, x1 as int, x2 as int, y1 as int, y as int, 2);
        }
        let ghost r0 = r_sum as int;
        let ghost g0 = g_sum as int;
        let ghost b0 = b_sum as int;
        let mut x: usize = x1;
        while x <= x2
            invariant
                x1 <= x2 < w,
                y1 <= y <= y2,
                x1 <= x <= x2 + 1,
                len == rgba@.len(),
                (y2 * w + x2) * 4 + 3 < rgba@.len(),
                255 * cols * (y2 - y1 + 1) <= u64::MAX,
                cols == x2 - x1 + 1,
                r0 <= 255 * cols * (y - y1),
                g0 <= 255 * cols * (y - y1),
                b0 <= 255 * cols * (y - y1),
                r_sum == r0 + row_channel_sum(rgba@, w as int, y as int, x1 as int, x as int, 0),
                g_sum == g0 + row_channel_sum(rgba@, w as int, y as int, x1 as int, x as int, 1),
                b_sum == b0 + row_channel_sum(rgba@, w as int, y as int, x1 as int, x as int, 2),
                count == cols * (y - y1) + (x - x1),
            decreases x2 + 1 - x,
        {
            proof {
                assert(y * w + x <= y2 * w + x2) by (nonlinear_arith)
                    requires
                        y <= y2,
                        x <= x2,
                        0 <= w,
                ;
                assert(0 <= y * w) by (nonlinear_arith)
                    requires
                        0 <= y,
                        0 <= w,
                ;
                lemma_row_sum_bound(rgba@, w as int, y as int, x1 as int, x as int, 0);
                lemma_row_sum_bound(rgba@, w as int, y as int, x1 as int, x as int, 1);
                lemma_row_sum_bound(rgba@, w as int, y as int, x1 as int, x as int, 2);
                assert(255 * cols * (y - y1) + 255 * (x - x1) + 255 <= 255 * cols * (y2 - y1 + 1)) by (nonlinear_arith)
                    requires
                        x <= x2,
                        cols == x2 - x1 + 1,
                        y <= y2,
                        x1 <= x,
                        y1 <= y,
                ;
            }
            assert(cols * (y - y1) + (x - x1) + 1 <= 255 * cols * (y2 - y1 + 1)) by (nonlinear_arith)
                requires
                    x <= x2,
                    cols == x2 - x1 + 1,
                    y <= y2,
                    x1 <= x,
                    y1 <= y,
            ;
            let idx = (y * w + x) * 4;
            r_sum = r_sum + rgba[idx] as u64;
            g_sum = g_sum + rgba[idx + 1] as u64;
            b_sum = b_sum + rgba[idx + 2] as u64;
            count = count + 1;
            x = x + 1;
        }
        proof {
            assert(cols * (y - y1) + cols == cols * (y + 1 - y1)) by (nonlinear_arith);
        }
        y = y + 1;
    }
    proof {
        assert(cols * (y2 + 1 - y1) == (x2 - x1 + 1) * (y2 - y1 + 1));
    }
    (r_sum, g_sum, b_sum, count)
}

/// The counts of buckets `0 .. k` added up.
pub open spec fn bucket_total(rgba: Seq<u8>, npix: nat, k: nat) -> nat
    decreases k,
{
    if k == 0 {
        0
    } else {
        bucket_total(rgba, npix, (k - 1) as nat) + luma_count(rgba, npix, (k - 1) as nat)
    }
}

/// Adding pixel `npix - 1` adds one to the total of the buckets below its own bucket
/// exactly when its bucket is among them.
proof fn lemma_bucket_total_step(rgba: Seq<u8>, npix: nat, k: nat)
    requires
        npix > 0,
    ensures
        bucket_total(rgba, npix, k) == bucket_total(rgba, (npix - 1) as nat, k)
            + if pixel_luma(rgba, npix - 1) < k { 1nat } else { 0nat },
    decreases k,
{
    if k > 0 {
        lemma_bucket_total_step(rgba, npix, (k - 1) as nat);
    }
}

/// Every pixel falls in exactly one bucket: the 256 bucket counts add up to
/// the number of pixels counted.
pub proof fn lemma_histogram_total(rgba: Seq<u8>, npix: nat)
    ensures
        bucket_total(rgba, npix, 256) == npix,
    decreases npix,
{
    if npix == 0 {
        lemma_bucket_total_zero(rgba, 256);
    } else {
        lemma_histogram_total(rgba, (npix - 1) as nat);
        lemma_bucket_total_step(rgba, npix, 256);
        assert(pixel_luma(rgba, npix - 1) < 256);
    }
}

proof fn lemma_bucket_total_zero(rgba: Seq<u8>, k: nat)
    ensures
        bucket_total(rgba, 0, k) == 0,
    decreases k,
{
    if k > 0 {
        lemma_bucket_total_zero(rgba, (k - 1) as nat);
    }
}

/// Four quarter turns give back the image.
pub proof fn lemma_four_turns(a: Seq<u8>, b: Seq<u8>, c2: Seq<u8>, d: Seq<u8>, e: Seq<u8>, w: int, h: int)
    requires
        0 <= w,
        0 <= h,
        a.len() == w * h * 4,
        rotation_of(a, w, h, b),
        rotation_of(b, h, w, c2),
        rotation_of(c2, w, h, d),
        rotation_of(d, h, w, e),
    ensures
        e == a,
{
    assert(e.len() == h * w * 4);
    assert(h * w == w * h) by (nonlinear_arith);
    assert forall|i: int| 0 <= i < a.len() implies e[i] == a[i] by {
        assert(w > 0 && h > 0) by (nonlinear_arith)
            requires
                0 <= i < w * h * 4,
                0 <= w,
                0 <= h,
        ;
        let p = i / 4;
        let c = i % 4;
        let y = p / w;
        let x = p % w;
        lemma_fundamental_div_mod(i, 4);
        lemma_fundamental_div_mod(p, w);
        assert(0 <= p < w * h) by (nonlinear_arith)
            requires
                p == i / 4,
                0 <= i < w * h * 4,
                i == 4 * p + i % 4,
                0 <= i % 4 < 4,
        ;
        assert(0 <= y < h) by (nonlinear_arith)
            requires
                p == w * y + x,
                0 <= x < w,
                0 <= p < w * h,
                0 < w,
        ;
        assert(i == (y * w + x) * 4 + c) by (nonlinear_arith)
            requires
                i == 4 * p + c,
                p == w * y + x,
        ;
        let y1 = w - 1 - x;
        let y2 = h - 1 - y;
        assert(e[(y * w + x) * 4 + c] == d[((w - 1 - x) * h + y) * 4 + c]);
        assert(d[(y1 * h + y) * 4 + c] == c2[((h - 1 - y) * w + y1) * 4 + c]);
        assert(c2[(y2 * w + y1) * 4 + c] == b[((w - 1 - y1) * h + y2) * 4 + c]);
        assert(w - 1 - y1 == x);
        assert(b[(x * h + y2) * 4 + c] == a[((h - 1 - y2) * w + x) * 4 + c]);
        assert(h - 1 - y2 == y);
    }
    assert(e =~= a);
}


/// The luma buckets of the first `npix` pixels, in pixel order.
pub open spec fn lumas(rgba: Seq<u8>, npix: nat) -> Seq<nat> {
    Seq::new(npix, |p: int| pixel_luma(rgba, p))
}

/// A bucket's count is how often it occurs among the pixels' buckets.
proof fn lemma_luma_count_multiset(rgba: Seq<u8>, npix: nat, bucket: nat)
    ensures
        luma_count(rgba, npix, bucket) == lumas(rgba, npix).to_multiset().count(bucket),
    decreases npix,
{
    broadcast use vstd::multiset::group_multiset_axioms;
    if npix == 0 {
        vstd::seq_lib::to_multiset_len(lumas(rgba, 0));
        vstd::multiset::lemma_multiset_empty_len(lumas(rgba, 0).to_multiset());
    } else {
        let m = (npix - 1) as nat;
        lemma_luma_count_multiset(rgba, m, bucket);
        assert(lumas(rgba, npix) =~= lumas(rgba, m).push(pixel_luma(rgba, m as int)));
        vstd::seq_lib::to_multiset_build(lumas(rgba, m), pixel_luma(rgba, m as int));
    }
}

/// Two sequences of equal length, one read from the other through an
/// injective re-indexing, hold the same elements the same number of times.
proof fn lemma_reindex_multiset<A>(s: Seq<A>, t: Seq<A>, f: spec_fn(int) -> int)
    requires
        s.len() == t.len(),
        forall|i: int| 0 <= i < t.len() ==> 0 <= #[trigger] f(i) < s.len() && t[i] == s[f(i)],
        forall|i: int, j: int| 0 <= i < j < t.len() ==> #[trigger] f(i) != #[trigger] f(j),
    ensures
        s.to_multiset() == t.to_multiset(),
    decreases t.len(),
{
    if t.len() == 0 {
        assert(s =~= t);
    } else {
        let n = t.len() - 1;
        let k = f(n);
        let s2 = s.remove(k);
        let t2 = t.drop_last();
        let g = |i: int| if f(i) < k { f(i) } else { f(i) - 1 };
        assert forall|i: int| 0 <= i < t2.len() implies 0 <= #[trigger] g(i) < s2.len() && t2[i] == s2[g(i)] by {
            assert(f(i) != f(n));
        }
        assert forall|i: int, j: int| 0 <= i < j < t2.len() implies #[trigger] g(i) != #[trigger] g(j) by {
            assert(f(i) != f(n));
            assert(f(j) != f(n));
            assert(f(i) != f(j));
        }
        lemma_reindex_multiset(s2, t2, g);
        assert(s2.insert(k, s[k]) =~= s);
        vstd::seq_lib::to_multiset_insert(s2, k, s[k]);
        assert(t2.push(t[n]) =~= t);
        vstd::seq_lib::to_multiset_build(t2, t[n]);
    }
}

/// Turning an image a quarter clockwise leaves its luma histogram unchanged:
/// every bucket counts as many pixels before as after.
pub proof fn lemma_rotation_keeps_histogram(src: Seq<u8>, out: Seq<u8>, w: nat, h: nat, bucket: nat)
    requires
        src.len() == w * h * 4,
        rotation_of(src, w as int, h as int, out),
    ensures
        luma_count(out, pixel_count(out.len()), bucket) == luma_count(src, pixel_count(src.len()), bucket),
{
    let n = w * h;
    assert(pixel_count(src.len()) == n);
    assert(pixel_count(out.len()) == n);
    let f = |q: int| ((h - 1 - q % (h as int)) * w + q / (h as int)) as int;
    let s = lumas(src, n);
    let t = lumas(out, n);
    assert forall|q: int| 0 <= q < t.len() implies 0 <= #[trigger] f(q) < s.len() && t[q] == s[f(q)] by {
        let x = q % (h as int);
        let y = q / (h as int);
        assert(h > 0) by (nonlinear_arith)
            requires
                0 <= q < w * h,
        ;
        lemma_fundamental_div_mod(q, h as int);
        assert(0 <= x < h);
        assert(0 <= y < w) by (nonlinear_arith)
            requires
                q == h * y + x,
                0 <= x < h,
                0 <= q < w * h,
                0 < h,
        ;
        assert(q == y * h + x) by (nonlinear_arith)
            requires
                q == h * y + x,
        ;
        lemma_pixel_in_bounds(y, h - 1 - x, h as int, w as int);
        let fq = (h - 1 - x) * w + y;
        assert(f(q) == fq);
        assert(0 <= fq < w * h) by (nonlinear_arith)
            requires
                0 <= fq < h * w,
        ;
        assert(out[(y * h + x) * 4 + 0] == src[rotated_source_index(w as int, h as int, x, y, 0)]);
        assert(out[(y * h + x) * 4 + 1] == src[rotated_source_index(w as int, h as int, x, y, 1)]);
        assert(out[(y * h + x) * 4 + 2] == src[rotated_source_index(w as int, h as int, x, y, 2)]);
        assert(t[q] == pixel_luma(out, q));
        assert(s[fq] == pixel_luma(src, fq));
    }
    assert forall|i: int, j: int| 0 <= i < j < t.len() implies #[trigger] f(i) != #[trigger] f(j) by {
        assert(h > 0) by (nonlinear_arith)
            requires
                0 <= i < w * h,
        ;
        lemma_fundamental_div_mod(i, h as int);
        lemma_fundamental_div_mod(j, h as int);
        let xi = i % (h as int);
        let yi = i / (h as int);
        let xj = j % (h as int);
        let yj = j / (h as int);
        assert(0 <= yi < w) by (nonlinear_arith)
            requires
                i == h * yi + xi,
                0 <= xi < h,
                0 <= i < w * h,
                0 < h,
        ;
        assert(0 <= yj < w) by (nonlinear_arith)
            requires
                j == h * yj + xj,
                0 <= xj < h,
                0 <= j < w * h,
                0 < h,
        ;
        if f(i) == f(j) {
            assert(xi == xj && yi == yj) by (nonlinear_arith)
                requires
                    (h - 1 - xi) * w + yi == (h - 1 - xj) * w + yj,
                    0 <= xi < h,
                    0 <= xj < h,
                    0 <= yi < w,
                    0 <= yj < w,
            {
                if xi != xj {
                    if xi < xj {
                        assert((h - 1 - xi) * w >= (h - 1 - xj) * w + w);
                    } else {
                        assert((h - 1 - xj) * w >= (h - 1 - xi) * w + w);
                    }
                }
            }
            assert(i == j) by (nonlinear_arith)
                requires
                    i == h * yi + xi,
                    j == h * yj + xj,
                    xi == xj,
                    yi == yj,
            ;
        }
    }
    lemma_reindex_multiset(s, t, f);
    lemma_luma_count_multiset(src, n, bucket);
    lemma_luma_count_multiset(out, n, bucket);
}

} // verus!
