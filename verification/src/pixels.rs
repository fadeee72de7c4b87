//! Byte-level RGBA8 helpers: solid tiles, contain-fit geometry and the
//! letterboxing resize used by the export resolution presets.

use vstd::prelude::*;
use vstd::arithmetic::div_mod::*;
use vstd::arithmetic::mul::*;

verus! {

/// `a / b` rounded to the nearest integer, halves rounding up.
pub open spec fn round_div(a: int, b: int) -> int
    recommends
        b > 0,
{
    (2 * a + b) / (2 * b)
}

/// `v` clamped into `lo..=hi`.
pub open spec fn clamp_int(v: int, lo: int, hi: int) -> int {
    if v < lo {
        lo
    } else if v > hi {
        hi
    } else {
        v
    }
}

/// The pixel `px` repeated `n` times, as RGBA8 bytes.
pub open spec fn tiled(px: Seq<u8>, n: nat) -> Seq<u8> {
    Seq::new(n * 4, |k: int| px[k % 4])
}

/// A solid `w × h` RGBA8 image filled with `px`.
pub fn px_tile(px: &[u8; 4], w: u32, h: u32) -> (out: Vec<u8>)
    requires
        w * h <= u32::MAX,
        w * h * 4 <= usize::MAX,
    ensures
        out@ == tiled(px@, (w * h) as nat),
{
    let n: usize = (w * h) as usize;
    let mut out: Vec<u8> = Vec::new();
    let mut i: usize = 0;
    while i < n
        invariant
            i <= n,
            n == w * h,
            n * 4 <= usize::MAX,
            px@.len() == 4,
            out@.len() == i * 4,
            forall|k: int| 0 <= k < i * 4 ==> #[trigger] out@[k] == px@[k % 4],
        decreases n - i,
    {
        let ghost before = out@;
        out.push(px[0]);
        out.push(px[1]);
        out.push(px[2]);
        out.push(px[3]);
        assert forall|k: int| 0 <= k < (i + 1) * 4 implies #[trigger] out@[k] == px@[k % 4] by {
            if k >= i * 4 {
                assert(k - i * 4 < 4);
                assert(k % 4 == k - i * 4);
            } else {
                assert(out@[k] == before[k]);
            }
        }
        i = i + 1;
    }
    assert(out@ =~= tiled(px@, (w * h) as nat));
    out
}

/// The contain-fit of a `src_w × src_h` image inside `dst_w × dst_h`:
/// `(w, h, off_x, off_y)`. Exactly one side is scaled onto the target's side
/// (the limiting one); the other keeps the aspect ratio, rounded to the
/// nearest pixel (at least one, at most the target), and the offset centres
/// the result. Any zero dimension gives all zeros.
pub open spec fn fit_spec(src_w: int, src_h: int, dst_w: int, dst_h: int) -> (int, int, int, int) {
    if src_w == 0 || src_h == 0 || dst_w == 0 || dst_h == 0 {
        (0, 0, 0, 0)
    } else if dst_w * src_h <= dst_h * src_w {
        let h = clamp_int(round_div(src_h * dst_w, src_w), 1, dst_h);
        (dst_w, h, 0, (dst_h - h) / 2)
    } else {
        let w = clamp_int(round_div(src_w * dst_h, src_h), 1, dst_w);
        (w, dst_h, (dst_w - w) / 2, 0)
    }
}

/// Contain-fit a `src_w × src_h` image inside `dst_w × dst_h`, keeping aspect
/// ratio: returns `(w, h, off_x, off_y)` — the scaled size and the top-left
/// offset that centres it (the black bars of a letterbox fill the rest).
pub fn fit_contain(src_w: u32, src_h: u32, dst_w: u32, dst_h: u32) -> (r: (u32, u32, u32, u32))
    ensures
        (r.0 as int, r.1 as int, r.2 as int, r.3 as int) == fit_spec(
            src_w as int,
            src_h as int,
            dst_w as int,
            dst_h as int,
        ),
        r.0 <= dst_w,
        r.1 <= dst_h,
        r.0 + r.2 <= dst_w,
        r.1 + r.3 <= dst_h,
        (src_w != 0 && src_h != 0 && dst_w != 0 && dst_h != 0) ==> (r.0 >= 1 && r.1 >= 1 && (
        r.0 == dst_w || r.1 == dst_h)),
        (src_w != 0 && src_h != 0 && dst_w != 0 && dst_h != 0 && dst_w * src_h <= dst_h * src_w) ==> (
        r.0 == dst_w && (-src_w < 2 * r.1 * src_w - 2 * src_h * dst_w <= src_w || (r.1 == 1 && 2 * src_h
            * dst_w < src_w))),
        (src_w != 0 && src_h != 0 && dst_w != 0 && dst_h != 0 && dst_w * src_h > dst_h * src_w) ==> (
        r.1 == dst_h && (-src_h < 2 * r.0 * src_h - 2 * src_w * dst_h <= src_h || (r.0 == 1 && 2 * src_w
            * dst_h < src_h))),
{
    proof {
        if src_w != 0 && src_h != 0 && dst_w != 0 && dst_h != 0 {
            law_fit_keeps_the_aspect_ratio(src_w as int, src_h as int, dst_w as int, dst_h as int);
        }
    }
    if src_w == 0 || src_h == 0 || dst_w == 0 || dst_h == 0 {
        return (0, 0, 0, 0);
    }
    let sw = src_w as u128;
    let sh = src_h as u128;
    let dw = dst_w as u128;
    let dh = dst_h as u128;
    assert(dw * sh <= 0xffff_ffff * 0xffff_ffff) by (nonlinear_arith)
        requires
            dw <= 0xffff_ffff,
            sh <= 0xffff_ffff,
    ;
    assert(dh * sw <= 0xffff_ffff * 0xffff_ffff) by (nonlinear_arith)
        requires
            dh <= 0xffff_ffff,
            sw <= 0xffff_ffff,
    ;
    if dw * sh <= dh * sw {
        let num = 2 * (sh * dw) + sw;
        let q = num / (2 * sw);
        let h: u128 = if q < 1 {
            1
        } else if q > dh {
            dh
        } else {
            q
        };
        let h32 = h as u32;
        (dst_w, h32, 0, (dst_h - h32) / 2)
    } else {
        let num = 2 * (sw * dh) + sh;
        let q = num / (2 * sh);
        let w: u128 = if q < 1 {
            1
        } else if q > dw {
            dw
        } else {
            q
        };
        let w32 = w as u32;
        (w32, dst_h, (dst_w - w32) / 2, 0)
    }
}


/// The quotient `(2a + b) / 2b` is `a / b` rounded to nearest, halves up:
/// `-b < 2·q·b - 2a <= b`.
proof fn lemma_round_div_bounds(a: int, b: int)
    requires
        0 <= a,
        0 < b,
    ensures
        -b < 2 * round_div(a, b) * b - 2 * a <= b,
        0 <= round_div(a, b),
{
    let q = round_div(a, b);
    lemma_fundamental_div_mod(2 * a + b, 2 * b);
    lemma_mod_bound(2 * a + b, 2 * b);
    lemma_div_pos_is_pos(2 * a + b, 2 * b);
    assert(2 * b * q == 2 * q * b) by (nonlinear_arith);
}

/// The rounded side of a fit never exceeds the side it is fitted into:
/// `a <= m·b` gives `round(a / b) <= m`.
proof fn lemma_round_div_at_most(a: int, b: int, m: int)
    requires
        0 <= a,
        0 < b,
        0 <= m,
        a <= m * b,
    ensures
        round_div(a, b) <= m,
{
    lemma_round_div_bounds(a, b);
    let q = round_div(a, b);
    if q > m {
        assert(q * b >= (m + 1) * b) by (nonlinear_arith)
            requires
                q >= m + 1,
                b > 0,
        ;
        assert((m + 1) * b == m * b + b) by (nonlinear_arith);
        assert(2 * q * b == 2 * (q * b)) by (nonlinear_arith);
    }
}

/// A contain-fit keeps the source's aspect ratio. When the width is the
/// limiting side (`dst_w / dst_h <= src_w / src_h`) the image spans the full
/// target width and its height is `src_h · dst_w / src_w` rounded to the
/// nearest pixel (halves up; at least one pixel), centred vertically; the
/// other way round it spans the full height, its width rounded likewise and
/// centred horizontally. The fitted image always lies inside the target.
pub proof fn law_fit_keeps_the_aspect_ratio(src_w: int, src_h: int, dst_w: int, dst_h: int)
    requires
        src_w > 0,
        src_h > 0,
        dst_w > 0,
        dst_h > 0,
    ensures
        ({
            let (w, h, ox, oy) = fit_spec(src_w, src_h, dst_w, dst_h);
            &&& dst_w * src_h <= dst_h * src_w ==> {
                &&& w == dst_w
                &&& ox == 0
                &&& 1 <= h <= dst_h
                &&& oy == (dst_h - h) / 2
                &&& (-src_w < 2 * h * src_w - 2 * src_h * dst_w <= src_w || (h == 1 && 2 * src_h * dst_w
                    < src_w))
            }
            &&& dst_w * src_h > dst_h * src_w ==> {
                &&& h == dst_h
                &&& oy == 0
                &&& 1 <= w <= dst_w
                &&& ox == (dst_w - w) / 2
                &&& (-src_h < 2 * w * src_h - 2 * src_w * dst_h <= src_h || (w == 1 && 2 * src_w * dst_h
                    < src_h))
            }
        }),
{
    lemma_mul_nonnegative(src_h, dst_w);
    lemma_mul_nonnegative(src_w, dst_h);
    if dst_w * src_h <= dst_h * src_w {
        let a = src_h * dst_w;
        lemma_mul_is_commutative(src_h, dst_w);
        lemma_round_div_bounds(a, src_w);
        lemma_round_div_at_most(a, src_w, dst_h);
        assert(2 * src_h * dst_w == 2 * a) by (nonlinear_arith)
            requires
                a == src_h * dst_w,
        ;
        let q = round_div(a, src_w);
        if q < 1 {
            assert(2 * q * src_w == 0) by (nonlinear_arith)
                requires
                    q == 0,
            ;
        }
    } else {
        let a = src_w * dst_h;
        lemma_mul_is_commutative(src_w, dst_h);
        lemma_round_div_bounds(a, src_h);
        lemma_round_div_at_most(a, src_h, dst_w);
        assert(2 * src_w * dst_h == 2 * a) by (nonlinear_arith)
            requires
                a == src_w * dst_h,
        ;
        let q = round_div(a, src_h);
        if q < 1 {
            assert(2 * q * src_h == 0) by (nonlinear_arith)
                requires
                    q == 0,
            ;
        }
    }
}

/// The background byte of a letterbox: opaque black.
pub open spec fn black(c: int) -> u8 {
    if c == 3 {
        255
    } else {
        0
    }
}

/// Byte `c` of pixel `(x, y)` of an RGBA8 image `sw` pixels wide.
pub open spec fn src_at(src: Seq<u8>, sw: int, x: int, y: int, c: int) -> int {
    src[(y * sw + x) * 4 + c] as int
}

/// Where output sample `x` of `w` falls on a source axis of `sw` pixels,
/// sampling at pixel centres: the continuous source coordinate is
/// `((2x + 1)·sw − w) / 2w`, clamped to the edge pixels. Returns the two
/// neighbouring source pixels and the fractional weight of the second, in
/// units of `1 / 2w`.
pub open spec fn axis_spec(x: int, w: int, sw: int) -> (int, int, int) {
    let den = 2 * w;
    let cn = clamp_int((2 * x + 1) * sw - w, 0, (sw - 1) * den);
    let i0 = cn / den;
    let i1 = if i0 + 1 <= sw - 1 {
        i0 + 1
    } else {
        sw - 1
    };
    (i0, i1, cn % den)
}

/// Byte `c` of output pixel `(x, y)` when resampling an `sw × sh` RGBA8 image
/// to `w × h` bilinearly, clamping at the edges, rounded to the nearest value.
pub open spec fn bilinear(src: Seq<u8>, sw: int, sh: int, w: int, h: int, x: int, y: int, c: int) -> int {
    let (x0, x1, fx) = axis_spec(x, w, sw);
    let (y0, y1, fy) = axis_spec(y, h, sh);
    let d = 2 * w;
    let e = 2 * h;
    let top = src_at(src, sw, x0, y0, c) * (d - fx) + src_at(src, sw, x1, y0, c) * fx;
    let bot = src_at(src, sw, x0, y1, c) * (d - fx) + src_at(src, sw, x1, y1, c) * fx;
    round_div(top * (e - fy) + bot * fy, d * e)
}

/// Byte `c` of pixel `(px, py)` of the letterboxed `dw × dh` frame: the
/// contain-fitted, bilinearly resampled source inside the fitted rectangle and
/// opaque black around it (everywhere, when the source is too short for its
/// stated size or a dimension is zero).
pub open spec fn letterbox_pixel(
    src: Seq<u8>,
    sw: int,
    sh: int,
    dw: int,
    dh: int,
    px: int,
    py: int,
    c: int,
) -> u8 {
    let (w, h, ox, oy) = fit_spec(sw, sh, dw, dh);
    if w == 0 || h == 0 || src.len() < sw * sh * 4 {
        black(c)
    } else if ox <= px < ox + w && oy <= py < oy + h {
        bilinear(src, sw, sh, w, h, px - ox, py - oy, c) as u8
    } else {
        black(c)
    }
}

/// The whole letterboxed `dw × dh` RGBA8 frame, row-major.
pub open spec fn letterboxed(src: Seq<u8>, sw: int, sh: int, dw: int, dh: int) -> Seq<u8> {
    Seq::new(
        (dw * dh * 4) as nat,
        |k: int| letterbox_pixel(src, sw, sh, dw, dh, (k / 4) % dw, (k / 4) / dw, k % 4),
    )
}

/// Byte `k` of a row-major RGBA8 frame `width` pixels wide belongs to pixel
/// `(x, y)`, channel `c`.
pub proof fn lemma_pixel_index(k: int, width: int, x: int, y: int, c: int)
    requires
        width > 0,
        0 <= x < width,
        0 <= y,
        0 <= c < 4,
        k == (y * width + x) * 4 + c,
    ensures
        k % 4 == c,
        (k / 4) % width == x,
        (k / 4) / width == y,
{
    lemma_fundamental_div_mod_converse(k, 4, y * width + x, c);
    lemma_fundamental_div_mod_converse(y * width + x, width, y, x);
}

/// A pixel `(x, y)` inside a `w × h` image lies inside its byte buffer.
pub proof fn lemma_in_image(x: int, y: int, w: int, h: int)
    requires
        0 <= x < w,
        0 <= y < h,
    ensures
        0 <= y * w + x < w * h,
        (y * w + x) * 4 + 3 < w * h * 4,
{
    lemma_mul_inequality(y, h - 1, w);
    lemma_mul_nonnegative(y, w);
    assert((h - 1) * w == h * w - w) by (nonlinear_arith);
    assert(w * h == h * w) by (nonlinear_arith);
}

/// A weighted pair of bytes stays within `255` times the total weight.
proof fn lemma_weighted_pair(a: int, b: int, d: int, f: int)
    requires
        0 <= a <= 255,
        0 <= b <= 255,
        0 <= f < d,
    ensures
        0 <= a * (d - f) + b * f <= 255 * d,
{
    lemma_mul_inequality(a, 255, d - f);
    lemma_mul_inequality(b, 255, f);
    lemma_mul_nonnegative(a, d - f);
    lemma_mul_nonnegative(b, f);
    lemma_mul_is_distributive_sub(255, d, f);
}

/// Blending two weighted rows keeps the total within `255·d·e`, and its
/// rounded quotient by `d·e` within a byte.
proof fn lemma_weighted_rows(top: int, bot: int, d: int, e: int, f: int)
    requires
        0 <= top <= 255 * d,
        0 <= bot <= 255 * d,
        0 <= f < e,
        0 < d,
    ensures
        0 <= top * (e - f) + bot * f <= 255 * d * e,
        2 * (top * (e - f) + bot * f) + d * e < (2 * (d * e)) * 256,
{
    lemma_mul_inequality(top, 255 * d, e - f);
    lemma_mul_inequality(bot, 255 * d, f);
    lemma_mul_nonnegative(top, e - f);
    lemma_mul_nonnegative(bot, f);
    lemma_mul_is_distributive_sub(255 * d, e, f);
    lemma_mul_is_associative(255, d, e);
    lemma_mul_strictly_positive(d, e - f + f);
}

/// The source pixels and weight for output sample `x` of `w` on an axis of
/// `sw` source pixels (see [`axis_spec`]).
fn sample_axis(x: u32, w: u32, sw: u32) -> (r: (u32, u32, u128))
    requires
        x < w,
        sw >= 1,
    ensures
        r.0 as int == axis_spec(x as int, w as int, sw as int).0,
        r.1 as int == axis_spec(x as int, w as int, sw as int).1,
        r.2 as int == axis_spec(x as int, w as int, sw as int).2,
        r.0 < sw,
        r.1 < sw,
        r.2 < 2 * w,
{
    let den: u128 = 2 * (w as u128);
    proof {
        lemma_mul_upper_bound(2 * x + 1, 0x1_ffff_ffff, sw as int, 0xffff_ffff);
        lemma_mul_upper_bound((sw - 1) as int, 0xffff_ffff, den as int, 0x1_ffff_fffe);
    }
    let a: u128 = (2 * (x as u128) + 1) * (sw as u128);
    let hi: u128 = ((sw - 1) as u128) * den;
    let cn: u128 = if a < (w as u128) {
        0
    } else if a - (w as u128) > hi {
        hi
    } else {
        a - (w as u128)
    };
    let i0 = cn / den;
    let f = cn % den;
    proof {
        lemma_div_is_ordered(cn as int, hi as int, den as int);
        lemma_div_multiples_vanish((sw - 1) as int, den as int);
        lemma_mul_is_commutative((sw - 1) as int, den as int);
    }
    let i0_32 = i0 as u32;
    let i1_32 = if i0_32 + 1 <= sw - 1 {
        i0_32 + 1
    } else {
        sw - 1
    };
    (i0_32, i1_32, f)
}

/// Bilinearly sample output pixel `(x, y)` of a `w × h` resampling of the
/// RGBA8 `src` (`sw × sh`), clamping to the edges. Returns the four channels.
fn sample_bilinear(src: &[u8], sw: u32, sh: u32, w: u32, h: u32, x: u32, y: u32) -> (out: [u8; 4])
    requires
        x < w,
        y < h,
        sw >= 1,
        sh >= 1,
        src@.len() >= sw * sh * 4,
    ensures
        forall|c: int|
            0 <= c < 4 ==> #[trigger] out@[c] as int == bilinear(
                src@,
                sw as int,
                sh as int,
                w as int,
                h as int,
                x as int,
                y as int,
                c,
            ),
{
    let slen = src.len();
    let (x0, x1, fx) = sample_axis(x, w, sw);
    let (y0, y1, fy) = sample_axis(y, h, sh);
    let d: u128 = 2 * (w as u128);
    let e: u128 = 2 * (h as u128);
    proof {
        lemma_in_image(x0 as int, y0 as int, sw as int, sh as int);
        lemma_in_image(x1 as int, y0 as int, sw as int, sh as int);
        lemma_in_image(x0 as int, y1 as int, sw as int, sh as int);
        lemma_in_image(x1 as int, y1 as int, sw as int, sh as int);
        lemma_mul_nonnegative(y0 as int, sw as int);
        lemma_mul_nonnegative(y1 as int, sw as int);
        assert(src@.len() <= usize::MAX);
        assert((y0 * sw + x0) * 4 + 3 < src@.len());
        assert((y0 * sw + x1) * 4 + 3 < src@.len());
        assert((y1 * sw + x0) * 4 + 3 < src@.len());
        assert((y1 * sw + x1) * 4 + 3 < src@.len());
    }
    let r0: usize = (y0 as usize) * (sw as usize);
    let r1: usize = (y1 as usize) * (sw as usize);
    let i00: usize = (r0 + (x0 as usize)) * 4;
    let i10: usize = (r0 + (x1 as usize)) * 4;
    let i01: usize = (r1 + (x0 as usize)) * 4;
    let i11: usize = (r1 + (x1 as usize)) * 4;
    proof {
        lemma_mul_strictly_positive(d as int, e as int);
        lemma_mul_upper_bound(d as int, 0x1_ffff_fffe, e as int, 0x1_ffff_fffe);
    }
    let de: u128 = d * e;
    let mut out: [u8; 4] = [0u8; 4];
    let mut c: usize = 0;
    while c < 4
        invariant
            0 <= c <= 4,
            out@.len() == 4,
            d == 2 * w,
            e == 2 * h,
            de == d * e,
            0 < de <= 0x1_ffff_fffe * 0x1_ffff_fffe,
            fx < d,
            fy < e,
            x0 as int == axis_spec(x as int, w as int, sw as int).0,
            x1 as int == axis_spec(x as int, w as int, sw as int).1,
            fx as int == axis_spec(x as int, w as int, sw as int).2,
            y0 as int == axis_spec(y as int, h as int, sh as int).0,
            y1 as int == axis_spec(y as int, h as int, sh as int).1,
            fy as int == axis_spec(y as int, h as int, sh as int).2,
            i00 == (y0 * sw + x0) * 4,
            i10 == (y0 * sw + x1) * 4,
            i01 == (y1 * sw + x0) * 4,
            i11 == (y1 * sw + x1) * 4,
            i00 + 3 < src@.len(),
            i10 + 3 < src@.len(),
            i01 + 3 < src@.len(),
            i11 + 3 < src@.len(),
            w >= 1,
            h >= 1,
            forall|k: int|
                0 <= k < c ==> #[trigger] out@[k] as int == bilinear(
                    src@,
                    sw as int,
                    sh as int,
                    w as int,
                    h as int,
                    x as int,
                    y as int,
                    k,
                ),
        decreases 4 - c,
    {
        let a00 = src[i00 + c] as u128;
        let a10 = src[i10 + c] as u128;
        let a01 = src[i01 + c] as u128;
        let a11 = src[i11 + c] as u128;
        proof {
            lemma_weighted_pair(a00 as int, a10 as int, d as int, fx as int);
            lemma_weighted_pair(a01 as int, a11 as int, d as int, fx as int);
        }
        let top = a00 * (d - fx) + a10 * fx;
        let bot = a01 * (d - fx) + a11 * fx;
        proof {
            lemma_weighted_rows(top as int, bot as int, d as int, e as int, fy as int);
        }
        let num = top * (e - fy) + bot * fy;
        let v = (2 * num + de) / (2 * de);
        proof {
            lemma_multiply_divide_lt((2 * num + de) as int, (2 * de) as int, 256);
        }
        out[c] = v as u8;
        c = c + 1;
    }
    out
}

/// Resize RGBA8 `src` (`src_w × src_h`) into a fresh `dst_w × dst_h` RGBA8
/// frame, contain-fitted and centred on opaque black (letterbox). Used by the
/// export resolution presets; bilinear sampling, so it up- and down-scales.
/// Returns opaque black if `src` is too short for its stated size.
pub fn letterbox_resize(src: &[u8], src_w: u32, src_h: u32, dst_w: u32, dst_h: u32) -> (out: Vec<u8>)
    requires
        dst_w * dst_h * 4 <= usize::MAX,
    ensures
        out@ == letterboxed(src@, src_w as int, src_h as int, dst_w as int, dst_h as int),
{
    let (w, h, ox, oy) = fit_contain(src_w, src_h, dst_w, dst_h);
    proof {
        lemma_mul_upper_bound(src_w as int, 0xffff_ffff, src_h as int, 0xffff_ffff);
    }
    let need: u128 = (src_w as u128) * (src_h as u128) * 4;
    let blank = w == 0 || h == 0 || (src.len() as u128) < need;
    let ghost spec_frame = letterboxed(src@, src_w as int, src_h as int, dst_w as int, dst_h as int);
    let mut out: Vec<u8> = Vec::new();
    let mut py: u32 = 0;
    while py < dst_h
        invariant
            py <= dst_h,
            dst_w * dst_h * 4 <= usize::MAX,
            (w as int, h as int, ox as int, oy as int) == fit_spec(
                src_w as int,
                src_h as int,
                dst_w as int,
                dst_h as int,
            ),
            blank == (w == 0 || h == 0 || src@.len() < src_w * src_h * 4),
            w + ox <= dst_w,
            h + oy <= dst_h,
            spec_frame == letterboxed(src@, src_w as int, src_h as int, dst_w as int, dst_h as int),
            out@.len() == (py * dst_w) * 4,
            forall|k: int|
                0 <= k < out@.len() ==> #[trigger] out@[k] == letterbox_pixel(
                    src@,
                    src_w as int,
                    src_h as int,
                    dst_w as int,
                    dst_h as int,
                    (k / 4) % (dst_w as int),
                    (k / 4) / (dst_w as int),
                    k % 4,
                ),
        decreases dst_h - py,
    {
        let mut px: u32 = 0;
        while px < dst_w
            invariant
                py < dst_h,
                px <= dst_w,
                dst_w * dst_h * 4 <= usize::MAX,
                (w as int, h as int, ox as int, oy as int) == fit_spec(
                    src_w as int,
                    src_h as int,
                    dst_w as int,
                    dst_h as int,
                ),
                blank == (w == 0 || h == 0 || src@.len() < src_w * src_h * 4),
                w + ox <= dst_w,
                h + oy <= dst_h,
                out@.len() == (py * dst_w + px) * 4,
                forall|k: int|
                    0 <= k < out@.len() ==> #[trigger] out@[k] == letterbox_pixel(
                        src@,
                        src_w as int,
                        src_h as int,
                        dst_w as int,
                        dst_h as int,
                        (k / 4) % (dst_w as int),
                        (k / 4) / (dst_w as int),
                        k % 4,
                    ),
            decreases dst_w - px,
        {
            let ghost base = out@.len() as int;
            proof {
                lemma_in_image(px as int, py as int, dst_w as int, dst_h as int);
            }
            let inside = !blank && ox <= px && px < ox + w && oy <= py && py < oy + h;
            let pixel: [u8; 4] = if inside {
                sample_bilinear(src, src_w, src_h, w, h, px - ox, py - oy)
            } else {
                [0u8, 0u8, 0u8, 255u8]
            };
            let ghost before = out@;
            out.push(pixel[0]);
            out.push(pixel[1]);
            out.push(pixel[2]);
            out.push(pixel[3]);
            assert forall|k: int| 0 <= k < out@.len() implies #[trigger] out@[k] == letterbox_pixel(
                src@,
                src_w as int,
                src_h as int,
                dst_w as int,
                dst_h as int,
                (k / 4) % (dst_w as int),
                (k / 4) / (dst_w as int),
                k % 4,
            ) by {
                if k < base {
                    assert(out@[k] == before[k]);
                } else {
                    let c = k - base;
                    lemma_pixel_index(k, dst_w as int, px as int, py as int, c);
                    if inside {
                        assert(pixel@[c] as int == bilinear(
                            src@,
                            src_w as int,
                            src_h as int,
                            w as int,
                            h as int,
                            (px - ox) as int,
                            (py - oy) as int,
                            c,
                        ));
                    }
                }
            }
            px = px + 1;
        }
        proof {
            lemma_mul_is_distributive_add_other_way(dst_w as int, py as int, 1);
        }
        py = py + 1;
    }
    proof {
        lemma_mul_is_commutative(dst_w as int, dst_h as int);
        assert(out@ =~= spec_frame);
    }
    out
}

/// Rounding `p · x / x` gives back `p`.
proof fn lemma_round_div_exact(p: int, x: int)
    requires
        x > 0,
        p >= 0,
    ensures
        round_div(p * x, x) == p,
{
    assert(2 * (p * x) + x == p * (2 * x) + x) by {
        lemma_mul_is_associative(p, 2, x);
        lemma_mul_is_commutative(p, 2);
        lemma_mul_is_associative(2, p, x);
    }
    lemma_fundamental_div_mod_converse(2 * (p * x) + x, 2 * x, p, x);
}

/// A solid image reads the same byte at every in-range pixel.
proof fn lemma_solid_at(px: Seq<u8>, sw: int, sh: int, x: int, y: int, c: int)
    requires
        px.len() == 4,
        0 <= x < sw,
        0 <= y < sh,
        0 <= c < 4,
    ensures
        src_at(tiled(px, (sw * sh) as nat), sw, x, y, c) == px[c] as int,
{
    lemma_in_image(x, y, sw, sh);
    lemma_mul_is_commutative(sw, sh);
    lemma_fundamental_div_mod_converse((y * sw + x) * 4 + c, 4, y * sw + x, c);
}

/// Letterboxing a solid colour keeps it: every pixel of the fitted rectangle
/// is exactly the source colour, and every other pixel is opaque black.
pub proof fn law_letterbox_keeps_a_solid_colour(
    px: Seq<u8>,
    sw: int,
    sh: int,
    dw: int,
    dh: int,
    x: int,
    y: int,
    c: int,
)
    requires
        px.len() == 4,
        1 <= sw <= u32::MAX,
        1 <= sh <= u32::MAX,
        1 <= dw <= u32::MAX,
        1 <= dh <= u32::MAX,
        0 <= x < dw,
        0 <= y < dh,
        0 <= c < 4,
    ensures
        ({
            let (w, h, ox, oy) = fit_spec(sw, sh, dw, dh);
            letterbox_pixel(tiled(px, (sw * sh) as nat), sw, sh, dw, dh, x, y, c) == if ox <= x < ox
                + w && oy <= y < oy + h {
                px[c]
            } else {
                black(c)
            }
        }),
{
    let (w, h, ox, oy) = fit_spec(sw, sh, dw, dh);
    let src = tiled(px, (sw * sh) as nat);
    lemma_mul_nonnegative(sw, sh);
    if ox <= x < ox + w && oy <= y < oy + h {
        let (x0, x1, fx) = axis_spec(x - ox, w, sw);
        let (y0, y1, fy) = axis_spec(y - oy, h, sh);
        let d = 2 * w;
        let e = 2 * h;
        let cn = clamp_int((2 * (x - ox) + 1) * sw - w, 0, (sw - 1) * d);
        lemma_mul_nonnegative(sw - 1, d);
        lemma_div_is_ordered(cn, (sw - 1) * d, d);
        lemma_div_multiples_vanish(sw - 1, d);
        lemma_mul_is_commutative(sw - 1, d);
        lemma_div_pos_is_pos(cn, d);
        lemma_mod_bound(cn, d);
        let cm = clamp_int((2 * (y - oy) + 1) * sh - h, 0, (sh - 1) * e);
        lemma_mul_nonnegative(sh - 1, e);
        lemma_div_is_ordered(cm, (sh - 1) * e, e);
        lemma_div_multiples_vanish(sh - 1, e);
        lemma_mul_is_commutative(sh - 1, e);
        lemma_div_pos_is_pos(cm, e);
        lemma_mod_bound(cm, e);
        lemma_solid_at(px, sw, sh, x0, y0, c);
        lemma_solid_at(px, sw, sh, x1, y0, c);
        lemma_solid_at(px, sw, sh, x0, y1, c);
        lemma_solid_at(px, sw, sh, x1, y1, c);
        let v = px[c] as int;
        assert(v * (d - fx) + v * fx == v * d) by {
            lemma_mul_is_distributive_add(v, d - fx, fx);
        }
        assert((v * d) * (e - fy) + (v * d) * fy == (v * d) * e) by {
            lemma_mul_is_distributive_add(v * d, e - fy, fy);
        }
        lemma_mul_is_associative(v, d, e);
        lemma_mul_strictly_positive(d, e);
        lemma_round_div_exact(v, d * e);
        assert(src.len() >= sw * sh * 4);
    }
}

/// On a same-size axis every output sample sits exactly on its own source
/// pixel, with no weight on the neighbour.
proof fn lemma_axis_same_size(x: int, w: int)
    requires
        0 <= x < w,
    ensures
        axis_spec(x, w, w).0 == x,
        axis_spec(x, w, w).2 == 0,
        0 <= axis_spec(x, w, w).1 < w,
{
    let den = 2 * w;
    assert((2 * x + 1) * w - w == x * den) by (nonlinear_arith)
        requires
            den == 2 * w,
    ;
    assert(0 <= x * den <= (w - 1) * den) by (nonlinear_arith)
        requires
            0 <= x <= w - 1,
            den > 0,
    ;
    lemma_fundamental_div_mod_converse(x * den, den, x, 0);
}

/// Letterboxing a frame into its own size gives it back unchanged: the fit
/// is the whole frame and every output pixel samples its own source pixel,
/// so the top rows stay on top and the left columns on the left.
pub proof fn law_letterbox_same_size_is_identity(src: Seq<u8>, w: int, h: int)
    requires
        w > 0,
        h > 0,
        src.len() == w * h * 4,
    ensures
        letterboxed(src, w, h, w, h) == src,
{
    lemma_mul_is_commutative(w, h);
    assert(2 * (h * w) + w == h * (2 * w) + w) by (nonlinear_arith);
    lemma_fundamental_div_mod_converse(2 * (h * w) + w, 2 * w, h, w);
    assert(fit_spec(w, h, w, h) == (w, h, 0int, 0int));
    let out = letterboxed(src, w, h, w, h);
    lemma_mul_strictly_positive(w, h);
    assert forall|k: int| 0 <= k < src.len() implies #[trigger] out[k] == src[k] by {
        let p = k / 4;
        let c = k % 4;
        lemma_multiply_divide_lt(k, 4, w * h);
        lemma_multiply_divide_lt(p, w, h);
        lemma_div_pos_is_pos(k, 4);
        lemma_div_pos_is_pos(p, w);
        lemma_mod_bound(p, w);
        lemma_mod_bound(k, 4);
        let x = p % w;
        let y = p / w;
        lemma_fundamental_div_mod(k, 4);
        lemma_fundamental_div_mod(p, w);
        assert(k == (y * w + x) * 4 + c) by (nonlinear_arith)
            requires
                k == 4 * p + c,
                p == w * y + x,
        ;
        lemma_axis_same_size(x, w);
        lemma_axis_same_size(y, h);
        let (x0, x1, fx) = axis_spec(x, w, w);
        let (y0, y1, fy) = axis_spec(y, h, h);
        let d = 2 * w;
        let e = 2 * h;
        let s00 = src_at(src, w, x0, y0, c);
        let s10 = src_at(src, w, x1, y0, c);
        let s01 = src_at(src, w, x0, y1, c);
        let s11 = src_at(src, w, x1, y1, c);
        let top = s00 * (d - fx) + s10 * fx;
        let bot = s01 * (d - fx) + s11 * fx;
        assert(top == s00 * d);
        assert(bot == s01 * d);
        assert(top * (e - fy) + bot * fy == s00 * d * e);
        lemma_mul_strictly_positive(d, e);
        assert(2 * (s00 * d * e) + d * e == s00 * (2 * (d * e)) + d * e) by (nonlinear_arith);
        lemma_fundamental_div_mod_converse(2 * (s00 * d * e) + d * e, 2 * (d * e), s00, d * e);
        assert(bilinear(src, w, h, w, h, x, y, c) == s00);
        assert(s00 == src[k] as int);
    }
    assert(out =~= src);
}

/// Each output pixel of the fitted rectangle samples the source at its own
/// centre: output column `px` (row `py`) reads the continuous source
/// coordinate `(px - ox + ½)·sw/w - ½` (`(py - oy + ½)·sh/h - ½`), clamped
/// to the edge pixels. Writing that coordinate as a whole pixel `x0` plus
/// `fx / 2w` (`y0` plus `fy / 2h`), the output byte is the bilinear blend of
/// the source pixels `x0, x0 + 1` and `y0, y0 + 1` (the last pixel reused at
/// the edge) with those weights, rounded to nearest: the top output rows read
/// the top source rows.
pub proof fn law_letterbox_samples_at_pixel_centres(
    src: Seq<u8>,
    sw: int,
    sh: int,
    dw: int,
    dh: int,
    px: int,
    py: int,
    c: int,
    x0: int,
    fx: int,
    y0: int,
    fy: int,
)
    requires
        sw >= 1,
        sh >= 1,
        dw >= 1,
        dh >= 1,
        src.len() >= sw * sh * 4,
        0 <= c < 4,
        fit_spec(sw, sh, dw, dh).2 <= px < fit_spec(sw, sh, dw, dh).2 + fit_spec(sw, sh, dw, dh).0,
        fit_spec(sw, sh, dw, dh).3 <= py < fit_spec(sw, sh, dw, dh).3 + fit_spec(sw, sh, dw, dh).1,
        0 <= fx < 2 * fit_spec(sw, sh, dw, dh).0,
        0 <= fy < 2 * fit_spec(sw, sh, dw, dh).1,
        x0 * (2 * fit_spec(sw, sh, dw, dh).0) + fx == clamp_int(
            (2 * (px - fit_spec(sw, sh, dw, dh).2) + 1) * sw - fit_spec(sw, sh, dw, dh).0,
            0,
            (sw - 1) * (2 * fit_spec(sw, sh, dw, dh).0),
        ),
        y0 * (2 * fit_spec(sw, sh, dw, dh).1) + fy == clamp_int(
            (2 * (py - fit_spec(sw, sh, dw, dh).3) + 1) * sh - fit_spec(sw, sh, dw, dh).1,
            0,
            (sh - 1) * (2 * fit_spec(sw, sh, dw, dh).1),
        ),
    ensures
        ({
            let (w, h, ox, oy) = fit_spec(sw, sh, dw, dh);
            let x1 = if x0 + 1 <= sw - 1 {
                x0 + 1
            } else {
                sw - 1
            };
            let y1 = if y0 + 1 <= sh - 1 {
                y0 + 1
            } else {
                sh - 1
            };
            let top = src_at(src, sw, x0, y0, c) * (2 * w - fx) + src_at(src, sw, x1, y0, c) * fx;
            let bot = src_at(src, sw, x0, y1, c) * (2 * w - fx) + src_at(src, sw, x1, y1, c) * fx;
            letterbox_pixel(src, sw, sh, dw, dh, px, py, c) == round_div(
                top * (2 * h - fy) + bot * fy,
                (2 * w) * (2 * h),
            ) as u8
        }),
{
    law_fit_keeps_the_aspect_ratio(sw, sh, dw, dh);
    let (w, h, ox, oy) = fit_spec(sw, sh, dw, dh);
    let cn = clamp_int((2 * (px - ox) + 1) * sw - w, 0, (sw - 1) * (2 * w));
    let cm = clamp_int((2 * (py - oy) + 1) * sh - h, 0, (sh - 1) * (2 * h));
    lemma_fundamental_div_mod_converse(cn, 2 * w, x0, fx);
    lemma_fundamental_div_mod_converse(cm, 2 * h, y0, fy);
    assert(axis_spec(px - ox, w, sw) == (x0, if x0 + 1 <= sw - 1 {
        x0 + 1
    } else {
        sw - 1
    }, fx));
    assert(axis_spec(py - oy, h, sh) == (y0, if y0 + 1 <= sh - 1 {
        y0 + 1
    } else {
        sh - 1
    }, fy));
}

} // verus!
