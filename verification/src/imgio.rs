//! Trusted boundary to the image codec crate: decoding, luminance
//! conversion, Gaussian resampling and encoding. Each wrapper's contract
//! names the codec's result; everything around these calls is verified.

use vstd::prelude::*;
use crate::normalize::OutputFormat;

verus! {

/// The luminance buffer the codec derives from an RGB buffer, one byte
/// per pixel.
pub uninterp spec fn luma_of(pixels: Seq<u8>, w: nat, h: nat) -> Seq<u8>;

/// The buffer the codec's Gaussian resampler produces for the requested
/// dimensions.
pub uninterp spec fn resize_of(pixels: Seq<u8>, w: nat, h: nat, nw: nat, nh: nat) -> Seq<u8>;

/// What the codec decodes from a byte stream: the RGB buffer and the
/// image's width and height, or nothing where the bytes parse as no
/// supported image.
pub uninterp spec fn decode_of(bytes: Seq<u8>) -> Option<(Seq<u8>, u32, u32)>;

/// What the codec writes for an RGB buffer in the format of the given
/// code, or nothing where the encoder fails.
pub uninterp spec fn encode_of(pixels: Seq<u8>, w: nat, h: nat, fmt: int) -> Option<Seq<u8>>;

/// Relies on image::RgbImage::from_raw (a buffer of exactly three bytes
/// per pixel is accepted) and image::DynamicImage::to_luma8: the
/// luminance image has one byte per pixel of the same dimensions and
/// depends on the buffer alone.
#[verifier::external_body]
pub(crate) fn to_luma(pixels: &Vec<u8>, w: u32, h: u32) -> (r: Vec<u8>)
    requires
        pixels@.len() == 3 * w * h,
        1 <= w,
        1 <= h,
    ensures
        r@ == luma_of(pixels@, w as nat, h as nat),
        r@.len() == w * h,
{
    let buf = image::RgbImage::from_raw(w, h, pixels.clone()).unwrap();
    image::DynamicImage::ImageRgb8(buf).to_luma8().into_raw()
}

/// Relies on image::DynamicImage::resize_exact with the Gaussian filter:
/// the result has exactly the requested dimensions and depends on the
/// buffer and the sizes alone.
#[verifier::external_body]
pub(crate) fn resize_gaussian(pixels: &Vec<u8>, w: u32, h: u32, nw: u32, nh: u32) -> (r: Vec<
    u8,
>)
    requires
        pixels@.len() == 3 * w * h,
        1 <= w,
        1 <= h,
        1 <= nw,
        1 <= nh,
    ensures
        r@ == resize_of(pixels@, w as nat, h as nat, nw as nat, nh as nat),
        r@.len() == 3 * nw * nh,
{
    let buf = image::RgbImage::from_raw(w, h, pixels.clone()).unwrap();
    let img = image::DynamicImage::ImageRgb8(buf);
    img.resize_exact(nw, nh, image::imageops::FilterType::Gaussian).to_rgb8().into_raw()
}

/// Relies on image::load_from_memory and image::DynamicImage::to_rgb8:
/// decoding depends on the bytes alone, and a decoded buffer holds three
/// bytes per pixel of its reported dimensions.
#[verifier::external_body]
pub(crate) fn decode_rgb(bytes: &Vec<u8>) -> (r: Result<(Vec<u8>, u32, u32), ()>)
    ensures
        r matches Ok(v) ==> decode_of(bytes@) == Some((v.0@, v.1, v.2)) && v.0@.len() == 3 * v.1
            * v.2,
        r is Err ==> decode_of(bytes@) is None,
{
    match image::load_from_memory(bytes) {
        Ok(img) => {
            let rgb = img.to_rgb8();
            let (w, h) = rgb.dimensions();
            Ok((rgb.into_raw(), w, h))
        },
        Err(_) => Err(()),
    }
}

/// Relies on image::DynamicImage::write_to into an in-memory cursor: the
/// encoded bytes depend on the buffer, the dimensions and the format
/// alone.
#[verifier::external_body]
pub(crate) fn encode_rgb(pixels: &Vec<u8>, w: u32, h: u32, fmt: OutputFormat) -> (r: Result<
    Vec<u8>,
    (),
>)
    requires
        pixels@.len() == 3 * w * h,
        1 <= w,
        1 <= h,
    ensures
        r matches Ok(v) ==> encode_of(pixels@, w as nat, h as nat, fmt.code()) == Some(v@),
        r is Err ==> encode_of(pixels@, w as nat, h as nat, fmt.code()) is None,
{
    let format = match fmt {
        OutputFormat::Jpeg => image::ImageFormat::Jpeg,
        OutputFormat::Png => image::ImageFormat::Png,
        OutputFormat::Gif => image::ImageFormat::Gif,
        OutputFormat::Bmp => image::ImageFormat::Bmp,
        OutputFormat::Tiff => image::ImageFormat::Tiff,
        OutputFormat::Webp => image::ImageFormat::WebP,
    };
    let buf = image::RgbImage::from_raw(w, h, pixels.clone()).unwrap();
    let mut out = std::io::Cursor::new(Vec::new());
    let res = image::DynamicImage::ImageRgb8(buf).write_to(&mut out, format);
    res.map(|_| out.into_inner()).map_err(|_| ())
}

} // verus!
