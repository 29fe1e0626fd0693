//! The normalization pipeline: output-format validation, the decode
//! retry policy, artifact naming, and the full crop / scale / pad
//! transform from input bytes to encoded output bytes.

use vstd::prelude::*;
use crate::bbox::{bounding_box, valid_content_box};
use crate::errors::NormalizeError;
use crate::filter::{bytes_eq, copy_bytes, lower_seq, norm_marker, to_ascii_lower};
use crate::imgio::{decode_of, decode_rgb, encode_of, encode_rgb, luma_of, resize_gaussian,
    resize_of, to_luma};
use crate::transform::{composite, crop, crop_seq, scaled_dims, scaled_dims_spec, white_canvas,
    RgbImage};

verus! {

/// A supported output codec.
#[derive(Clone, Copy, Debug, PartialEq, Eq, Structural)]
pub enum OutputFormat {
    Jpeg,
    Png,
    Gif,
    Bmp,
    Tiff,
    Webp,
}

impl OutputFormat {
    /// A stable code for each codec, used to name what the encoder
    /// writes.
    pub open spec fn code(self) -> int {
        match self {
            OutputFormat::Jpeg => 0,
            OutputFormat::Png => 1,
            OutputFormat::Gif => 2,
            OutputFormat::Bmp => 3,
            OutputFormat::Tiff => 4,
            OutputFormat::Webp => 5,
        }
    }
}

/// The codec a lowercased extension names: jpg and jpeg, png, gif, bmp,
/// tiff, webp; anything else names none.
pub open spec fn format_of(s: Seq<u8>) -> Option<OutputFormat> {
    if s == seq![106u8, 112u8, 103u8] || s == seq![106u8, 112u8, 101u8, 103u8] {
        Some(OutputFormat::Jpeg)
    } else if s == seq![112u8, 110u8, 103u8] {
        Some(OutputFormat::Png)
    } else if s == seq![103u8, 105u8, 102u8] {
        Some(OutputFormat::Gif)
    } else if s == seq![98u8, 109u8, 112u8] {
        Some(OutputFormat::Bmp)
    } else if s == seq![116u8, 105u8, 102u8, 102u8] {
        Some(OutputFormat::Tiff)
    } else if s == seq![119u8, 101u8, 98u8, 112u8] {
        Some(OutputFormat::Webp)
    } else {
        None
    }
}

fn fmt_bytes3(a: u8, b: u8, c: u8) -> (v: Vec<u8>)
    ensures
        v@ == seq![a, b, c],
{
    let mut v: Vec<u8> = Vec::new();
    v.push(a);
    v.push(b);
    v.push(c);
    proof {
        assert(v@ =~= seq![a, b, c]);
    }
    v
}

fn fmt_bytes4(a: u8, b: u8, c: u8, d: u8) -> (v: Vec<u8>)
    ensures
        v@ == seq![a, b, c, d],
{
    let mut v: Vec<u8> = Vec::new();
    v.push(a);
    v.push(b);
    v.push(c);
    v.push(d);
    proof {
        assert(v@ =~= seq![a, b, c, d]);
    }
    v
}

/// Parse a configured output extension, case-insensitively.
pub fn parse_output_format(ext: &Vec<u8>) -> (r: Option<OutputFormat>)
    ensures
        r == format_of(lower_seq(ext@)),
{
    let le = to_ascii_lower(ext);
    if bytes_eq(&le, &fmt_bytes3(106, 112, 103)) || bytes_eq(&le, &fmt_bytes4(106, 112, 101, 103))
    {
        Some(OutputFormat::Jpeg)
    } else if bytes_eq(&le, &fmt_bytes3(112, 110, 103)) {
        Some(OutputFormat::Png)
    } else if bytes_eq(&le, &fmt_bytes3(103, 105, 102)) {
        Some(OutputFormat::Gif)
    } else if bytes_eq(&le, &fmt_bytes3(98, 109, 112)) {
        Some(OutputFormat::Bmp)
    } else if bytes_eq(&le, &fmt_bytes4(116, 105, 102, 102)) {
        Some(OutputFormat::Tiff)
    } else if bytes_eq(&le, &fmt_bytes4(119, 101, 98, 112)) {
        Some(OutputFormat::Webp)
    } else {
        None
    }
}

/// Validate the configured output extension before any decode work: an
/// unrecognized name is the one configuration error the pipeline
/// detects itself.
pub fn validate_output_format(ext: &Vec<u8>) -> (r: Result<OutputFormat, NormalizeError>)
    ensures
        match r {
            Ok(f) => format_of(lower_seq(ext@)) == Some(f),
            Err(e) => e == NormalizeError::UnsupportedFormat && format_of(lower_seq(ext@))
                is None,
        },
{
    match parse_output_format(ext) {
        Some(f) => Ok(f),
        None => Err(NormalizeError::UnsupportedFormat),
    }
}

// ---------------------------------------------------------------------------
// Decode retry policy
// ---------------------------------------------------------------------------

/// How many times a failed decode is retried before giving up.
pub const MAX_DECODE_RETRIES: u32 = 5;

/// The fixed delay between decode attempts, in milliseconds.
pub const RETRY_DELAY_MS: u64 = 200;

/// What the driver should do after a failed decode attempt.
#[derive(Clone, Copy, Debug, PartialEq, Eq, Structural)]
pub enum RetryAction {
    /// Sleep this many milliseconds, re-read the file and try again.
    RetryAfterMs(u64),
    /// The retries are exhausted: fail with `DecodeFailed`.
    GiveUp,
}

/// The state of one bounded decode retry loop.
pub struct RetryState {
    pub failures: u32,
}

impl RetryState {
    /// A fresh loop: no attempt has failed yet.
    pub fn new() -> (r: Self)
        ensures
            r.failures == 0,
    {
        RetryState { failures: 0 }
    }

    /// Count a failed attempt and decide whether to retry: the first
    /// `MAX_DECODE_RETRIES` failures are retried after the fixed delay,
    /// the next one gives up.
    pub fn on_failure(&mut self) -> (a: RetryAction)
        requires
            old(self).failures <= MAX_DECODE_RETRIES,
        ensures
            final(self).failures == old(self).failures + 1,
            a == if old(self).failures < MAX_DECODE_RETRIES {
                RetryAction::RetryAfterMs(RETRY_DELAY_MS)
            } else {
                RetryAction::GiveUp
            },
    {
        self.failures = self.failures + 1;
        if self.failures <= MAX_DECODE_RETRIES {
            RetryAction::RetryAfterMs(RETRY_DELAY_MS)
        } else {
            RetryAction::GiveUp
        }
    }
}

// ---------------------------------------------------------------------------
// Artifact naming
// ---------------------------------------------------------------------------

/// Append a byte string.
fn append_bytes(dst: &mut Vec<u8>, src: &Vec<u8>)
    ensures
        final(dst)@ == old(dst)@ + src@,
{
    let mut i: usize = 0;
    while i < src.len()
        invariant
            i <= src@.len(),
            dst@.len() == old(dst)@.len() + i,
            forall|k: int| 0 <= k < old(dst)@.len() ==> dst@[k] == old(dst)@[k],
            forall|k: int| 0 <= k < i ==> dst@[old(dst)@.len() + k] == src@[k],
        decreases src@.len() - i,
    {
        dst.push(src[i]);
        i = i + 1;
    }
    proof {
        assert(dst@ =~= old(dst)@ + src@);
    }
}

/// The name of the temporary sibling the normalizer writes first:
/// `<stem>.normalized.<ext>`.
pub fn tmp_name(stem: &Vec<u8>, ext: &Vec<u8>) -> (r: Vec<u8>)
    ensures
        r@ == stem@ + norm_marker() + ext@,
{
    let mut out = copy_bytes(stem);
    let marker = crate::filter::norm_marker_bytes();
    append_bytes(&mut out, &marker);
    append_bytes(&mut out, ext);
    proof {
        assert(out@ =~= stem@ + norm_marker() + ext@);
    }
    out
}

/// The final output name: `<stem>.<ext>`.
pub fn final_name(stem: &Vec<u8>, ext: &Vec<u8>) -> (r: Vec<u8>)
    ensures
        r@ == stem@ + seq![46u8] + ext@,
{
    let mut out = copy_bytes(stem);
    out.push(46);
    append_bytes(&mut out, ext);
    proof {
        assert(out@ =~= stem@ + seq![46u8] + ext@);
    }
    out
}

/// The normalizer's own temporary artifact always carries the
/// normalized-output marker, so the ignore filter drops it and the
/// feedback loop cannot close.
pub proof fn lemma_tmp_name_ignored(stem: Seq<u8>, ext: Seq<u8>)
    ensures
        crate::filter::has_marker(stem + norm_marker() + ext),
{
    let full = stem + norm_marker() + ext;
    assert forall|j: int| 0 <= j < norm_marker().len() implies full[stem.len() + j]
        == norm_marker()[j] by {
        assert((stem + norm_marker())[stem.len() + j] == norm_marker()[j]);
        assert(full[stem.len() + j] == (stem + norm_marker())[stem.len() + j]);
    }
    assert(crate::filter::is_sub_at(full, norm_marker(), stem.len() as int));
}

} // verus!

verus! {

// ---------------------------------------------------------------------------
// The full transform
// ---------------------------------------------------------------------------

/// The per-request configuration: canvas size, padding, background
/// tolerance and output codec.
#[derive(Clone, Copy, Debug)]
pub struct NormalizeConfig {
    pub canvas_w: u32,
    pub canvas_h: u32,
    pub pad: u32,
    pub tol: u8,
    pub format: OutputFormat,
}

impl NormalizeConfig {
    /// The canvas leaves room for content inside the padding, and its
    /// buffer fits in memory.
    pub open spec fn wf(self) -> bool {
        &&& self.canvas_w > 2 * self.pad
        &&& self.canvas_h > 2 * self.pad
        &&& 3 * self.canvas_w * self.canvas_h <= usize::MAX
    }

    /// Build a configuration, rejecting a canvas that leaves no room
    /// inside the padding or does not fit in memory.
    pub fn make(canvas_w: u32, canvas_h: u32, pad: u32, tol: u8, format: OutputFormat) -> (r:
        Option<NormalizeConfig>)
        ensures
            match r {
                Some(c) => c.wf() && c.canvas_w == canvas_w && c.canvas_h == canvas_h && c.pad
                    == pad && c.tol == tol && c.format == format,
                None => !(NormalizeConfig {
                    canvas_w,
                    canvas_h,
                    pad,
                    tol,
                    format,
                }).wf(),
            },
    {
        proof {
            assert((canvas_w as int) * (canvas_h as int) <= 0xffff_ffff * 0xffff_ffff)
                by (nonlinear_arith)
                requires
                    0 <= canvas_w <= 0xffff_ffff && 0 <= canvas_h <= 0xffff_ffff,
            ;
        }
        let prod: u128 = (canvas_w as u128) * (canvas_h as u128);
        if pad < 0x8000_0000 && canvas_w > 2 * pad && canvas_h > 2 * pad && 3u128 * prod
            <= (usize::MAX as u128) {
            proof {
                assert(3 * ((canvas_w as int) * (canvas_h as int)) == 3 * (canvas_w as int)
                    * (canvas_h as int)) by (nonlinear_arith);
            }
            Some(NormalizeConfig { canvas_w, canvas_h, pad, tol, format })
        } else {
            proof {
                assert(3 * ((canvas_w as int) * (canvas_h as int)) == 3 * (canvas_w as int)
                    * (canvas_h as int)) by (nonlinear_arith);
            }
            None
        }
    }
}

/// The output buffer is the white canvas of the configured size with the
/// codec's resampling of the source's content box composited at its
/// center — the whole transform geometry, pinned pixel by pixel.
pub open spec fn normalized_render(
    src_px: Seq<u8>,
    sw: nat,
    sh: nat,
    cfg: NormalizeConfig,
    out: Seq<u8>,
) -> bool {
    let luma = luma_of(src_px, sw, sh);
    let cvw = cfg.canvas_w as int;
    let cvh = cfg.canvas_h as int;
    let tw = (cfg.canvas_w - 2 * cfg.pad) as nat;
    let th = (cfg.canvas_h - 2 * cfg.pad) as nat;
    exists|l: int, t: int, r: int, b: int|
        {
            &&& #[trigger] valid_content_box(luma, sw, sh, cfg.tol, l, t, r, b)
            &&& {
                let cw = (r - l) as nat;
                let ch = (b - t) as nat;
                let dims = scaled_dims_spec(cw, ch, tw, th);
                let nw = dims.0 as int;
                let nh = dims.1 as int;
                let ox = (cvw - nw) / 2;
                let oy = (cvh - nh) / 2;
                &&& out.len() == 3 * cfg.canvas_w * cfg.canvas_h
                &&& forall|x: int, y: int, c: int|
                    0 <= x < nw && 0 <= y < nh && 0 <= c < 3 ==> #[trigger] out[3 * ((oy + y)
                        * cvw + (ox + x)) + c] == resize_of(
                        crop_seq(src_px, sw, l, t, cw, ch),
                        cw,
                        ch,
                        dims.0,
                        dims.1,
                    )[3 * (y * nw + x) + c]
                &&& forall|x: int, y: int, c: int|
                    0 <= x < cvw && 0 <= y < cvh && 0 <= c < 3 && !(ox <= x < ox + nw && oy <= y
                        < oy + nh) ==> #[trigger] out[3 * (y * cvw + x) + c] == 255
            }
        }
}

/// Run the whole transform on a decoded image: luminance scan, content
/// bounding box, crop, aspect-preserving Gaussian rescale, and centered
/// composite onto a white canvas of exactly the configured size. Where
/// the proportional scale floors a dimension to zero pixels, nothing is
/// composited and the bare white canvas is returned.
pub fn process_image(img: &RgbImage, cfg: &NormalizeConfig) -> (r: RgbImage)
    requires
        img.wf(),
        1 <= img.width,
        1 <= img.height,
        cfg.wf(),
    ensures
        r.wf(),
        r.width == cfg.canvas_w,
        r.height == cfg.canvas_h,
        normalized_render(img.pixels@, img.width as nat, img.height as nat, *cfg, r.pixels@),
{
    let luma = to_luma(&img.pixels, img.width, img.height);
    let bx = bounding_box(&luma, img.width, img.height, cfg.tol);
    let l = bx.0;
    let t = bx.1;
    let rr = bx.2;
    let b = bx.3;
    proof {
        assert(l < rr <= img.width && t < b <= img.height);
    }
    let cw = rr - l;
    let ch2 = b - t;
    let tw = cfg.canvas_w - 2 * cfg.pad;
    let th = cfg.canvas_h - 2 * cfg.pad;
    let cropped = crop(img, l, t, cw, ch2);
    let dims = scaled_dims(cw, ch2, tw, th);
    let nw = dims.0;
    let nh = dims.1;
    if nw == 0 || nh == 0 {
        // an extremely elongated content box floors its off-axis
        // dimension to zero pixels: nothing remains to composite, and
        // the output is the bare background canvas
        let canvas = white_canvas(cfg.canvas_w, cfg.canvas_h);
        proof {
            let sw = img.width as nat;
            let sh = img.height as nat;
            let gl = l as int;
            let gt = t as int;
            let gr = rr as int;
            let gb = b as int;
            let gcw = (gr - gl) as nat;
            let gch = (gb - gt) as nat;
            let gdims = scaled_dims_spec(gcw, gch, tw as nat, th as nat);
            assert(gdims == (nw as nat, nh as nat));
            let gnw = gdims.0 as int;
            let gnh = gdims.1 as int;
            let cvw = cfg.canvas_w as int;
            let cvh = cfg.canvas_h as int;
            let gox = (cvw - gnw) / 2;
            let goy = (cvh - gnh) / 2;
            assert forall|x: int, y: int, c: int|
                0 <= x < cvw && 0 <= y < cvh && 0 <= c < 3 && !(gox <= x < gox + gnw && goy <= y
                    < goy + gnh) implies #[trigger] canvas.pixels@[3 * (y * cvw + x) + c]
                == 255 by {
                crate::transform::lemma_grid_bound(cvw, cvh, x, y);
                assert(3 * ((cvw) * (cvh)) == 3 * cvw * cvh) by (nonlinear_arith);
                assert(0 <= 3 * (y * cvw + x) + c < canvas.pixels@.len());
            }
            assert(normalized_render(img.pixels@, sw, sh, *cfg, canvas.pixels@)) by {
                assert(valid_content_box(
                    luma_of(img.pixels@, sw, sh),
                    sw,
                    sh,
                    cfg.tol,
                    gl,
                    gt,
                    gr,
                    gb,
                ));
            }
        }
        return canvas;
    }
    let resized_px = resize_gaussian(&cropped.pixels, cw, ch2, nw, nh);
    let resized = RgbImage { width: nw, height: nh, pixels: resized_px };
    let mut canvas = white_canvas(cfg.canvas_w, cfg.canvas_h);
    let ox = (cfg.canvas_w - nw) / 2;
    let oy = (cfg.canvas_h - nh) / 2;
    let ghost white = canvas;
    composite(&mut canvas, &resized, ox, oy);
    proof {
        let sw = img.width as nat;
        let sh = img.height as nat;
        let gl = l as int;
        let gt = t as int;
        let gr = rr as int;
        let gb = b as int;
        let gcw = (gr - gl) as nat;
        let gch = (gb - gt) as nat;
        let gdims = scaled_dims_spec(gcw, gch, tw as nat, th as nat);
        assert(gdims == (nw as nat, nh as nat));
        let gnw = gdims.0 as int;
        let gnh = gdims.1 as int;
        let cvw = cfg.canvas_w as int;
        let cvh = cfg.canvas_h as int;
        let gox = (cvw - gnw) / 2;
        let goy = (cvh - gnh) / 2;
        assert(gox == ox as int && goy == oy as int);
        let rsz = resize_of(
            crop_seq(img.pixels@, sw, gl, gt, gcw, gch),
            gcw,
            gch,
            gdims.0,
            gdims.1,
        );
        assert(cropped.pixels@ == crop_seq(img.pixels@, sw, gl, gt, gcw, gch));
        assert(resized.pixels@ == rsz);
        assert forall|x: int, y: int, c: int|
            0 <= x < gnw && 0 <= y < gnh && 0 <= c < 3 implies #[trigger] canvas.pixels@[3 * ((goy
            + y) * cvw + (gox + x)) + c] == rsz[3 * (y * gnw + x) + c] by {
            assert(canvas.ch(gox + x, goy + y, c) == resized.ch(x, y, c));
        }
        assert forall|x: int, y: int, c: int|
            0 <= x < cvw && 0 <= y < cvh && 0 <= c < 3 && !(gox <= x < gox + gnw && goy <= y < goy
                + gnh) implies #[trigger] canvas.pixels@[3 * (y * cvw + x) + c] == 255 by {
            assert(canvas.ch(x, y, c) == white.ch(x, y, c));
            crate::transform::lemma_grid_bound(cvw, cvh, x, y);
            assert(3 * ((cvw) * (cvh)) == 3 * cvw * cvh) by (nonlinear_arith);
            assert(0 <= 3 * (y * cvw + x) + c < white.pixels@.len());
        }
        assert(normalized_render(
            img.pixels@,
            sw,
            sh,
            *cfg,
            canvas.pixels@,
        )) by {
            assert(valid_content_box(
                luma_of(img.pixels@, sw, sh),
                sw,
                sh,
                cfg.tol,
                gl,
                gt,
                gr,
                gb,
            ));
        }
    }
    canvas
}

/// Normalize encoded image bytes: decode, transform, re-encode. Fails
/// with `DecodeFailed` where the codec cannot parse the bytes (or
/// reports a degenerate image without pixels), with `EncodeFailed`
/// where the encoder cannot write the canvas; otherwise returns exactly
/// the encoder's bytes for the rendered canvas.
pub fn normalize_bytes(input: &Vec<u8>, cfg: &NormalizeConfig) -> (r: Result<
    Vec<u8>,
    NormalizeError,
>)
    requires
        cfg.wf(),
    ensures
        match decode_of(input@) {
            None => r == Err::<Vec<u8>, NormalizeError>(NormalizeError::DecodeFailed),
            Some(m) => if m.1 == 0 || m.2 == 0 {
                r == Err::<Vec<u8>, NormalizeError>(NormalizeError::DecodeFailed)
            } else {
                exists|op: Seq<u8>|
                    #[trigger] normalized_render(m.0, m.1 as nat, m.2 as nat, *cfg, op) && match
                        encode_of(
                        op,
                        cfg.canvas_w as nat,
                        cfg.canvas_h as nat,
                        cfg.format.code(),
                    ) {
                        Some(bytes) => r matches Ok(v) && v@ == bytes,
                        None => r == Err::<Vec<u8>, NormalizeError>(NormalizeError::EncodeFailed),
                    }
            },
        },
{
    match decode_rgb(input) {
        Err(_) => Err(NormalizeError::DecodeFailed),
        Ok((px, w, h)) => {
            if w == 0 || h == 0 {
                return Err(NormalizeError::DecodeFailed);
            }
            let img = RgbImage { width: w, height: h, pixels: px };
            let out = process_image(&img, cfg);
            let res: Result<Vec<u8>, NormalizeError> = match encode_rgb(
                &out.pixels,
                out.width,
                out.height,
                cfg.format,
            ) {
                Ok(bytes) => Ok(bytes),
                Err(_) => Err(NormalizeError::EncodeFailed),
            };
            proof {
                assert(decode_of(input@) == Some((px@, w, h)));
                let m = decode_of(input@)->Some_0;
                assert(m == (px@, w, h));
                assert(normalized_render(m.0, m.1 as nat, m.2 as nat, *cfg, out.pixels@));
                assert(match encode_of(
                    out.pixels@,
                    cfg.canvas_w as nat,
                    cfg.canvas_h as nat,
                    cfg.format.code(),
                ) {
                    Some(bytes) => res matches Ok(v) && v@ == bytes,
                    None => res == Err::<Vec<u8>, NormalizeError>(NormalizeError::EncodeFailed),
                });
            }
            res
        },
    }
}

} // verus!
