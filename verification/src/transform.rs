//! The deterministic crop / scale / pad transform, on plain RGB buffers.
//!
//! An image is a row-major buffer of three bytes per pixel. Cropping and
//! compositing are implemented and verified here pixel by pixel; only the
//! resampling itself is delegated to the image codec crate.

use vstd::prelude::*;

verus! {

/// A row-major RGB image: three bytes per pixel.
pub struct RgbImage {
    pub width: u32,
    pub height: u32,
    pub pixels: Vec<u8>,
}

impl RgbImage {
    /// The buffer holds exactly three bytes per pixel.
    pub open spec fn wf(self) -> bool {
        self.pixels@.len() == 3 * self.width * self.height
    }

    /// Channel `c` of the pixel at `(x, y)`.
    pub open spec fn ch(self, x: int, y: int, c: int) -> u8 {
        self.pixels@[3 * (y * self.width + x) + c]
    }
}

/// Quotient and remainder of a channel-interleaved index.
proof fn lemma_div3(a: int, c: int)
    requires
        0 <= a,
        0 <= c < 3,
    ensures
        (3 * a + c) / 3 == a,
        (3 * a + c) % 3 == c,
{
    assert((3 * a + c) / 3 == a && (3 * a + c) % 3 == c) by (nonlinear_arith)
        requires
            0 <= a,
            0 <= c < 3,
    ;
}

/// Quotient and remainder of a row-major index.
proof fn lemma_divw(w: int, x: int, y: int)
    requires
        w >= 1,
        0 <= x < w,
        0 <= y,
    ensures
        (y * w + x) / w == y,
        (y * w + x) % w == x,
{
    assert((y * w + x) / w == y && (y * w + x) % w == x) by (nonlinear_arith)
        requires
            w >= 1,
            0 <= x < w,
            0 <= y,
    ;
}

/// Row-major indexing stays within the pixel count.
pub proof fn lemma_grid_bound(w: int, h: int, x: int, y: int)
    requires
        0 <= x < w,
        0 <= y < h,
    ensures
        y * w + x < w * h,
{
    assert(y * w + x < w * h) by (nonlinear_arith)
        requires
            0 <= x < w,
            0 <= y < h,
    ;
}

/// Two channel-interleaved row-major indices agree only on the same
/// pixel and channel.
proof fn lemma_flat3_inj(w: int, x1: int, y1: int, c1: int, x2: int, y2: int, c2: int)
    requires
        w >= 1,
        0 <= x1 < w,
        0 <= x2 < w,
        0 <= c1 < 3,
        0 <= c2 < 3,
        0 <= y1,
        0 <= y2,
        3 * (y1 * w + x1) + c1 == 3 * (y2 * w + x2) + c2,
    ensures
        x1 == x2,
        y1 == y2,
        c1 == c2,
{
    lemma_div3(y1 * w + x1, c1);
    lemma_div3(y2 * w + x2, c2);
    lemma_divw(w, x1, y1);
    lemma_divw(w, x2, y2);
}

/// The buffer of the `cw × ch` sub-image of a `sw`-wide buffer, with its
/// top-left corner at `(l, t)`.
pub open spec fn crop_seq(px: Seq<u8>, sw: nat, l: int, t: int, cw: nat, ch: nat) -> Seq<u8> {
    Seq::new(
        3 * cw * ch,
        |i: int|
            {
                let p = i / 3;
                let c = i % 3;
                let yy = p / (cw as int);
                let xx = p % (cw as int);
                px[3 * ((t + yy) * sw + (l + xx)) + c]
            },
    )
}

/// Crop the image to the rectangle of size `cw × ch` at `(l, t)`.
pub fn crop(src: &RgbImage, l: u32, t: u32, cw: u32, ch: u32) -> (r: RgbImage)
    requires
        src.wf(),
        1 <= cw,
        1 <= ch,
        l + cw <= src.width,
        t + ch <= src.height,
    ensures
        r.width == cw,
        r.height == ch,
        r.wf(),
        r.pixels@ == crop_seq(
            src.pixels@,
            src.width as nat,
            l as int,
            t as int,
            cw as nat,
            ch as nat,
        ),
        forall|x: int, y: int, c: int|
            0 <= x < cw && 0 <= y < ch && 0 <= c < 3 ==> #[trigger] r.ch(x, y, c) == src.ch(
                l + x,
                t + y,
                c,
            ),
{
    let ghost gcrop = crop_seq(
        src.pixels@,
        src.width as nat,
        l as int,
        t as int,
        cw as nat,
        ch as nat,
    );
    let total: usize = src.pixels.len();
    let mut out: Vec<u8> = Vec::new();
    let mut y: u32 = 0;
    while y < ch
        invariant
            src.wf(),
            1 <= cw,
            1 <= ch,
            l + cw <= src.width,
            t + ch <= src.height,
            total == src.pixels@.len(),
            y <= ch,
            out@.len() == 3 * ((y as int) * (cw as int)),
            gcrop == crop_seq(
                src.pixels@,
                src.width as nat,
                l as int,
                t as int,
                cw as nat,
                ch as nat,
            ),
            forall|j: int| 0 <= j < out@.len() ==> out@[j] == gcrop[j],
        decreases ch - y,
    {
        let mut x: u32 = 0;
        while x < cw
            invariant
                src.wf(),
                1 <= cw,
                1 <= ch,
                l + cw <= src.width,
                t + ch <= src.height,
                total == src.pixels@.len(),
                y < ch,
                x <= cw,
                out@.len() == 3 * ((y as int) * (cw as int) + x as int),
                gcrop == crop_seq(
                    src.pixels@,
                    src.width as nat,
                    l as int,
                    t as int,
                    cw as nat,
                    ch as nat,
                ),
                forall|j: int| 0 <= j < out@.len() ==> out@[j] == gcrop[j],
            decreases cw - x,
        {
            proof {
                lemma_grid_bound(
                    src.width as int,
                    src.height as int,
                    (l + x) as int,
                    (t + y) as int,
                );
                assert(3 * ((src.width as int) * (src.height as int)) == 3 * (src.width as int)
                    * (src.height as int)) by (nonlinear_arith);
                assert(3 * (((t + y) as int) * (src.width as int) + ((l + x) as int)) + 2
                    < total);
            }
            let base: usize = 3 * (((t + y) as usize) * (src.width as usize) + ((l + x)
                as usize));
            let p0 = src.pixels[base];
            let p1 = src.pixels[base + 1];
            let p2 = src.pixels[base + 2];
            let ghost len0 = out@.len() as int;
            out.push(p0);
            out.push(p1);
            out.push(p2);
            proof {
                let q = (y as int) * (cw as int) + (x as int);
                lemma_grid_bound(cw as int, ch as int, x as int, y as int);
                lemma_divw(cw as int, x as int, y as int);
                lemma_div3(q, 0);
                lemma_div3(q, 1);
                lemma_div3(q, 2);
                assert(3 * ((cw as int) * (ch as int)) == 3 * (cw as int) * (ch as int))
                    by (nonlinear_arith);
                assert(gcrop.len() == 3 * (cw as int) * (ch as int));
                assert(3 * q + 2 < gcrop.len());
                assert(gcrop[3 * q + 0] == src.pixels@[base as int]);
                assert(gcrop[3 * q + 1] == src.pixels@[base as int + 1]);
                assert(gcrop[3 * q + 2] == src.pixels@[base as int + 2]);
                assert(len0 == 3 * q);
                assert forall|j: int| 0 <= j < out@.len() implies out@[j] == gcrop[j] by {
                    if j < len0 {
                    } else {
                        assert(j == 3 * q || j == 3 * q + 1 || j == 3 * q + 2);
                    }
                }
            }
            x = x + 1;
        }
        y = y + 1;
        proof {
            assert(out@.len() == 3 * ((y as int - 1) * (cw as int) + cw as int));
            assert((y as int - 1) * (cw as int) + cw as int == (y as int) * (cw as int))
                by (nonlinear_arith);
            assert(out@.len() == 3 * ((y as int) * (cw as int)));
        }
    }
    let r = RgbImage { width: cw, height: ch, pixels: out };
    proof {
        assert(3 * ((ch as int) * (cw as int)) == 3 * (cw as int) * (ch as int))
            by (nonlinear_arith);
        assert(r.pixels@ =~= gcrop);
        assert forall|x: int, y: int, c: int|
            0 <= x < cw && 0 <= y < ch && 0 <= c < 3 implies #[trigger] r.ch(x, y, c) == src.ch(
            l + x,
            t + y,
            c,
        ) by {
            let q = y * (cw as int) + x;
            lemma_grid_bound(cw as int, ch as int, x, y);
            lemma_divw(cw as int, x, y);
            lemma_div3(q, c);
            assert(3 * q + c < gcrop.len());
            assert(r.ch(x, y, c) == gcrop[3 * q + c]);
        }
    }
    r
}

/// A canvas of the given size, every channel of every pixel filled with
/// opaque white.
pub fn white_canvas(w: u32, h: u32) -> (r: RgbImage)
    requires
        1 <= w,
        1 <= h,
        3 * w * h <= usize::MAX,
    ensures
        r.width == w,
        r.height == h,
        r.wf(),
        forall|j: int| 0 <= j < r.pixels@.len() ==> r.pixels@[j] == 255,
{
    proof {
        assert(3 * (w as int) <= 3 * (w as int) * (h as int)) by (nonlinear_arith)
            requires
                1 <= h && 0 <= w,
        ;
    }
    let total: usize = 3 * (w as usize) * (h as usize);
    let mut out: Vec<u8> = Vec::new();
    let mut i: usize = 0;
    while i < total
        invariant
            total == 3 * (w as int) * (h as int),
            i <= total,
            out@.len() == i,
            forall|j: int| 0 <= j < i ==> out@[j] == 255,
        decreases total - i,
    {
        out.push(255);
        i = i + 1;
    }
    RgbImage { width: w, height: h, pixels: out }
}

/// The canvas as updated by the composite scan standing at column `sx`
/// of source row `sy`: pixels under already-copied source positions hold
/// the source value, all others their previous value.
pub open spec fn comp_done(
    cv: RgbImage,
    prev: RgbImage,
    src: RgbImage,
    ox: int,
    oy: int,
    sy: int,
    sx: int,
) -> bool {
    forall|xx: int, yy: int, cc: int|
        0 <= xx < cv.width && 0 <= yy < cv.height && 0 <= cc < 3 ==> #[trigger] cv.ch(xx, yy, cc)
            == if (oy <= yy < oy + src.height && ox <= xx < ox + src.width && (yy - oy < sy || (yy
            - oy == sy && xx - ox < sx))) {
            src.ch(xx - ox, yy - oy, cc)
        } else {
            prev.ch(xx, yy, cc)
        }
}

/// Copy the source image onto the canvas with its top-left corner at
/// `(ox, oy)`; pixels outside the copied region keep their value.
pub fn composite(canvas: &mut RgbImage, src: &RgbImage, ox: u32, oy: u32)
    requires
        old(canvas).wf(),
        src.wf(),
        1 <= src.width,
        1 <= src.height,
        ox + src.width <= old(canvas).width,
        oy + src.height <= old(canvas).height,
    ensures
        final(canvas).wf(),
        final(canvas).width == old(canvas).width,
        final(canvas).height == old(canvas).height,
        forall|x: int, y: int, c: int|
            0 <= x < src.width && 0 <= y < src.height && 0 <= c < 3
                ==> #[trigger] final(canvas).ch(ox + x, oy + y, c) == src.ch(x, y, c),
        forall|x: int, y: int, c: int|
            0 <= x < final(canvas).width && 0 <= y < final(canvas).height && 0 <= c < 3 && !(ox
                <= x < ox + src.width && oy <= y < oy + src.height)
                ==> #[trigger] final(canvas).ch(x, y, c) == old(canvas).ch(x, y, c),
{
    let ghost prev = *old(canvas);
    let cw = canvas.width;
    let total: usize = canvas.pixels.len();
    let stotal: usize = src.pixels.len();
    let mut sy: u32 = 0;
    while sy < src.height
        invariant
            prev.wf(),
            src.wf(),
            1 <= src.width,
            1 <= src.height,
            ox + src.width <= prev.width,
            oy + src.height <= prev.height,
            cw == prev.width,
            canvas.width == prev.width,
            canvas.height == prev.height,
            canvas.pixels@.len() == prev.pixels@.len(),
            total == canvas.pixels@.len(),
            stotal == src.pixels@.len(),
            sy <= src.height,
            comp_done(*canvas, prev, *src, ox as int, oy as int, sy as int, 0),
        decreases src.height - sy,
    {
        let mut sx: u32 = 0;
        while sx < src.width
            invariant
                prev.wf(),
                src.wf(),
                1 <= src.width,
                1 <= src.height,
                ox + src.width <= prev.width,
                oy + src.height <= prev.height,
                cw == prev.width,
                canvas.width == prev.width,
                canvas.height == prev.height,
                canvas.pixels@.len() == prev.pixels@.len(),
                total == canvas.pixels@.len(),
                stotal == src.pixels@.len(),
                sy < src.height,
                sx <= src.width,
                comp_done(*canvas, prev, *src, ox as int, oy as int, sy as int, sx as int),
            decreases src.width - sx,
        {
            proof {
                lemma_grid_bound(
                    src.width as int,
                    src.height as int,
                    sx as int,
                    sy as int,
                );
                lemma_grid_bound(
                    prev.width as int,
                    prev.height as int,
                    (ox + sx) as int,
                    (oy + sy) as int,
                );
                assert(3 * ((src.width as int) * (src.height as int)) == 3 * (src.width as int)
                    * (src.height as int)) by (nonlinear_arith);
                assert(3 * ((sy as int) * (src.width as int) + sx as int) + 2 < stotal);
                assert(3 * ((prev.width as int) * (prev.height as int)) == 3 * (prev.width
                    as int) * (prev.height as int)) by (nonlinear_arith);
                assert(3 * (((oy + sy) as int) * (prev.width as int) + ((ox + sx) as int)) + 2
                    < total);
            }
            let sbase: usize = 3 * ((sy as usize) * (src.width as usize) + (sx as usize));
            let dbase: usize = 3 * (((oy + sy) as usize) * (cw as usize) + ((ox + sx)
                as usize));
            let ghost headcv = *canvas;
            let ghost before = canvas.pixels@;
            let v0 = src.pixels[sbase];
            let v1 = src.pixels[sbase + 1];
            let v2 = src.pixels[sbase + 2];
            canvas.pixels[dbase] = v0;
            canvas.pixels[dbase + 1] = v1;
            canvas.pixels[dbase + 2] = v2;
            proof {
                assert(canvas.pixels@ == before.update(dbase as int, v0).update(
                    dbase as int + 1,
                    v1,
                ).update(dbase as int + 2, v2));
                assert forall|xx: int, yy: int, cc: int|
                    0 <= xx < canvas.width && 0 <= yy < canvas.height && 0 <= cc
                        < 3 implies #[trigger] canvas.ch(xx, yy, cc) == if (oy <= yy < oy
                    + src.height && ox <= xx < ox + src.width && (yy - oy < sy as int || (yy - oy
                    == sy as int && xx - ox < sx as int + 1))) {
                    src.ch(xx - ox, yy - oy, cc)
                } else {
                    prev.ch(xx, yy, cc)
                } by {
                    let f = 3 * (yy * (canvas.width as int) + xx) + cc;
                    lemma_grid_bound(canvas.width as int, canvas.height as int, xx, yy);
                    assert(3 * ((prev.width as int) * (prev.height as int)) == 3 * (prev.width
                        as int) * (prev.height as int)) by (nonlinear_arith);
                    assert(0 <= f < before.len());
                    assert(headcv.ch(xx, yy, cc) == before[f]);
                    if xx == ox + sx && yy == oy + sy {
                        assert(f == dbase + cc);
                        assert(canvas.pixels@[f] == src.pixels@[sbase as int + cc]);
                    } else {
                        if f == dbase as int {
                            lemma_flat3_inj(
                                canvas.width as int,
                                xx,
                                yy,
                                cc,
                                (ox + sx) as int,
                                (oy + sy) as int,
                                0,
                            );
                            assert(false);
                        }
                        if f == dbase as int + 1 {
                            lemma_flat3_inj(
                                canvas.width as int,
                                xx,
                                yy,
                                cc,
                                (ox + sx) as int,
                                (oy + sy) as int,
                                1,
                            );
                            assert(false);
                        }
                        if f == dbase as int + 2 {
                            lemma_flat3_inj(
                                canvas.width as int,
                                xx,
                                yy,
                                cc,
                                (ox + sx) as int,
                                (oy + sy) as int,
                                2,
                            );
                            assert(false);
                        }
                        assert(canvas.pixels@[f] == before[f]);
                    }
                }
            }
            sx = sx + 1;
        }
        sy = sy + 1;
        proof {
            assert forall|xx: int, yy: int, cc: int|
                0 <= xx < canvas.width && 0 <= yy < canvas.height && 0 <= cc
                    < 3 implies #[trigger] canvas.ch(xx, yy, cc) == if (oy <= yy < oy
                + src.height && ox <= xx < ox + src.width && (yy - oy < sy as int || (yy - oy
                == sy as int && xx - ox < 0))) {
                src.ch(xx - ox, yy - oy, cc)
            } else {
                prev.ch(xx, yy, cc)
            } by {
            }
        }
    }
    proof {
        assert forall|x: int, y: int, c: int|
            0 <= x < src.width && 0 <= y < src.height && 0 <= c < 3 implies #[trigger] canvas.ch(
            ox + x,
            oy + y,
            c,
        ) == src.ch(x, y, c) by {
        }
    }
}

} // verus!

verus! {

/// No more than the bound.
pub open spec fn capped(v: nat, bound: nat) -> nat {
    if v > bound {
        bound
    } else {
        v
    }
}

/// The scaled size of a `w × h` content region fit into a `tw × th`
/// target box: the longer source dimension maps exactly onto its axis
/// target, the other scales proportionally, floored to an integer pixel
/// count, and clamped into the box. A very elongated region can floor
/// to a zero off-axis dimension.
pub open spec fn scaled_dims_spec(w: nat, h: nat, tw: nat, th: nat) -> (nat, nat) {
    if w > h {
        (tw, capped((h * tw) / w, th))
    } else {
        (capped((w * th) / h, tw), th)
    }
}

/// The floored proportional dimension stays under its own axis bound.
proof fn lemma_scale_bound(a: nat, b: nat, t: nat)
    requires
        a <= b,
        b >= 1,
    ensures
        (a * t) / b <= t,
{
    assert((a * t) / b <= t) by (nonlinear_arith)
        requires
            a <= b,
            b >= 1,
            0 <= t,
    ;
}

/// Strictly under it, where the ratio is strictly under one.
proof fn lemma_scale_bound_strict(a: nat, b: nat, t: nat)
    requires
        a < b,
        t >= 1,
    ensures
        (a * t) / b < t,
{
    assert((a * t) / b < t) by (nonlinear_arith)
        requires
            a < b,
            t >= 1,
    ;
}

/// Scaling by a ratio of one is the identity.
proof fn lemma_scale_self(a: nat, t: nat)
    requires
        t >= 1,
    ensures
        (a * t) / t == a,
{
    assert((a * t) / t == a) by (nonlinear_arith)
        requires
            t >= 1,
            0 <= a,
    ;
}

/// Fit a `w × h` region into a `tw × th` box, preserving aspect ratio:
/// the longer source side fills its axis target exactly, the other is
/// the floored proportional count.
pub fn scaled_dims(w: u32, h: u32, tw: u32, th: u32) -> (r: (u32, u32))
    requires
        1 <= w,
        1 <= h,
        1 <= tw,
        1 <= th,
    ensures
        (r.0 as nat, r.1 as nat) == scaled_dims_spec(w as nat, h as nat, tw as nat, th as nat),
        r.0 <= tw,
        r.1 <= th,
{
    if w > h {
        proof {
            assert((h as int) * (tw as int) <= 0xffff_ffff * 0xffff_ffff) by (nonlinear_arith)
                requires
                    0 <= h <= 0xffff_ffff && 0 <= tw <= 0xffff_ffff,
            ;
        }
        let scaled: u64 = (h as u64) * (tw as u64) / (w as u64);
        proof {
            lemma_scale_bound(h as nat, w as nat, tw as nat);
        }
        let mut nh: u32 = scaled as u32;
        if nh > th {
            nh = th;
        }
        (tw, nh)
    } else {
        proof {
            assert((w as int) * (th as int) <= 0xffff_ffff * 0xffff_ffff) by (nonlinear_arith)
                requires
                    0 <= w <= 0xffff_ffff && 0 <= th <= 0xffff_ffff,
            ;
        }
        let scaled: u64 = (w as u64) * (th as u64) / (h as u64);
        proof {
            lemma_scale_bound(w as nat, h as nat, th as nat);
        }
        let mut nw: u32 = scaled as u32;
        if nw > tw {
            nw = tw;
        }
        (nw, th)
    }
}

/// Scaling is idempotent: feeding the fitted size back into the same
/// target box returns it unchanged, so a second normalization pass with
/// the same content box recomputes the same geometry.
pub proof fn lemma_scaled_dims_idempotent(w: nat, h: nat, tw: nat, th: nat)
    requires
        1 <= w,
        1 <= h,
        1 <= tw,
        1 <= th,
    ensures
        scaled_dims_spec(
            scaled_dims_spec(w, h, tw, th).0,
            scaled_dims_spec(w, h, tw, th).1,
            tw,
            th,
        ) == scaled_dims_spec(w, h, tw, th),
{
    let (nw, nh) = scaled_dims_spec(w, h, tw, th);
    if w > h {
        assert(nw == tw);
        lemma_scale_bound_strict(h, w, tw);
        assert(nh < tw);
        assert(nw > nh);
        lemma_scale_self(nh, tw);
        assert(scaled_dims_spec(nw, nh, tw, th) == (tw, capped((nh * tw) / tw, th)));
        assert(capped(nh, th) == nh);
    } else {
        assert(nh == th);
        lemma_scale_bound(w, h, th);
        assert(nw <= th);
        assert(!(nw > nh));
        lemma_scale_self(nw, th);
        assert(scaled_dims_spec(nw, nh, tw, th) == (capped((nw * th) / th, tw), th));
        assert(capped(nw, tw) == nw);
    }
}

} // verus!
