use ni_watcher::bbox::bounding_box;
use ni_watcher::errors::NormalizeError;
use ni_watcher::normalize::{
    final_name, normalize_bytes, process_image, tmp_name, validate_output_format,
    NormalizeConfig, OutputFormat, RetryAction, RetryState, MAX_DECODE_RETRIES,
    RETRY_DELAY_MS,
};
use ni_watcher::transform::{scaled_dims, white_canvas, RgbImage};

fn cfg(canvas_w: u32, canvas_h: u32, pad: u32, tol: u8, format: OutputFormat) -> NormalizeConfig {
    NormalizeConfig::make(canvas_w, canvas_h, pad, tol, format).unwrap()
}

#[test]
fn bbox_pure_background_degenerates_to_full_bounds() {
    let luma = vec![255u8; 4 * 3];
    assert_eq!(bounding_box(&luma, 4, 3, 10), (0, 0, 4, 3));
}

#[test]
fn bbox_single_content_pixel() {
    let mut luma = vec![255u8; 5 * 4];
    luma[1 * 5 + 2] = 0;
    assert_eq!(bounding_box(&luma, 5, 4, 10), (2, 1, 3, 2));
}

#[test]
fn bbox_tolerance_threshold() {
    // luminance 245 is background under tolerance 10 (threshold 245),
    // 244 is content
    let mut luma = vec![255u8; 3 * 3];
    luma[4] = 245;
    assert_eq!(bounding_box(&luma, 3, 3, 10), (0, 0, 3, 3));
    luma[4] = 244;
    assert_eq!(bounding_box(&luma, 3, 3, 10), (1, 1, 2, 2));
}

#[test]
fn bbox_spanning_content() {
    let mut luma = vec![255u8; 6 * 5];
    luma[1 * 6 + 1] = 0;
    luma[3 * 6 + 4] = 0;
    assert_eq!(bounding_box(&luma, 6, 5, 10), (1, 1, 5, 4));
}

#[test]
fn scaled_dims_wide_content() {
    // width is the longer side: it maps exactly onto its axis target
    assert_eq!(scaled_dims(1_000, 400, 700, 700), (700, 280));
}

#[test]
fn scaled_dims_tall_content() {
    assert_eq!(scaled_dims(400, 1_000, 700, 700), (280, 700));
}

#[test]
fn scaled_dims_floors_to_zero_on_extreme_aspect() {
    // the proportional dimension is the plain floor: 1 * 700 / 701 == 0
    assert_eq!(scaled_dims(701, 1, 700, 700), (700, 0));
}

#[test]
fn extreme_aspect_content_yields_bare_canvas() {
    // with a zero scaled dimension nothing is composited: the output is
    // the background canvas alone
    let img = RgbImage { width: 701, height: 1, pixels: vec![0u8; 3 * 701] };
    let c = cfg(800, 800, 50, 10, OutputFormat::Png);
    let out = process_image(&img, &c);
    assert_eq!((out.width, out.height), (800, 800));
    assert!(out.pixels.iter().all(|&b| b == 255));
}

#[test]
fn scaled_dims_idempotent_on_result() {
    let (nw, nh) = scaled_dims(1_000, 400, 700, 700);
    assert_eq!(scaled_dims(nw, nh, 700, 700), (nw, nh));
}

#[test]
fn white_canvas_is_all_white() {
    let c = white_canvas(8, 4);
    assert_eq!(c.width, 8);
    assert_eq!(c.height, 4);
    assert_eq!(c.pixels.len(), 3 * 8 * 4);
    assert!(c.pixels.iter().all(|&b| b == 255));
}

#[test]
fn process_image_scenario_wide_input() {
    // 1000 × 400 all-black input, tolerance 10, canvas 800 × 800,
    // padding 50: content spans the full input, width maps to 700,
    // height to 280, centered at offsets (50, 260)
    let img = RgbImage { width: 1_000, height: 400, pixels: vec![0u8; 3 * 1_000 * 400] };
    let c = cfg(800, 800, 50, 10, OutputFormat::Png);
    let out = process_image(&img, &c);
    assert_eq!(out.width, 800);
    assert_eq!(out.height, 800);
    assert_eq!(out.pixels.len(), 3 * 800 * 800);
    let px = |x: usize, y: usize| -> (u8, u8, u8) {
        let i = 3 * (y * 800 + x);
        (out.pixels[i], out.pixels[i + 1], out.pixels[i + 2])
    };
    // outside the composited region: opaque white
    assert_eq!(px(0, 0), (255, 255, 255));
    assert_eq!(px(10, 400), (255, 255, 255));
    assert_eq!(px(789, 400), (255, 255, 255));
    assert_eq!(px(400, 100), (255, 255, 255));
    assert_eq!(px(400, 700), (255, 255, 255));
    // inside: the resampled black content
    let (r, g, b) = px(400, 400);
    assert!(r < 64 && g < 64 && b < 64);
    // the vertical margins (260 rows) exceed the horizontal ones (50)
    assert_eq!(px(51, 400).0 < 64, true);
    assert_eq!(px(400, 261).0 < 64, true);
}

#[test]
fn normalize_bytes_round_trip_png() {
    // encode a small red image with the codec, normalize it, decode the
    // result and check canvas size and white padding
    let src = image::RgbImage::from_raw(4, 2, vec![200u8, 0, 0].repeat(8)).unwrap();
    let mut bytes = std::io::Cursor::new(Vec::new());
    image::DynamicImage::ImageRgb8(src)
        .write_to(&mut bytes, image::ImageFormat::Png)
        .unwrap();
    let c = cfg(100, 100, 10, 10, OutputFormat::Png);
    let out = normalize_bytes(&bytes.into_inner(), &c).unwrap();
    let decoded = image::load_from_memory(&out).unwrap().to_rgb8();
    assert_eq!(decoded.dimensions(), (100, 100));
    // corner is padding: white
    assert_eq!(decoded.get_pixel(0, 0).0, [255, 255, 255]);
    // center carries the red content
    let center = decoded.get_pixel(50, 50).0;
    assert!(center[0] > 150 && center[1] < 64 && center[2] < 64);
}

#[test]
fn normalize_bytes_empty_input_fails_decode() {
    let c = cfg(800, 800, 50, 10, OutputFormat::Jpeg);
    assert_eq!(
        normalize_bytes(&Vec::new(), &c),
        Err(NormalizeError::DecodeFailed)
    );
}

#[test]
fn normalize_bytes_garbage_input_fails_decode() {
    let c = cfg(800, 800, 50, 10, OutputFormat::Jpeg);
    assert_eq!(
        normalize_bytes(&vec![0u8; 64], &c),
        Err(NormalizeError::DecodeFailed)
    );
}

#[test]
fn retry_policy_gives_up_after_five_retries() {
    let mut state = RetryState::new();
    for _ in 0..MAX_DECODE_RETRIES {
        assert_eq!(state.on_failure(), RetryAction::RetryAfterMs(RETRY_DELAY_MS));
    }
    // the sixth failure exhausts the retries
    assert_eq!(state.on_failure(), RetryAction::GiveUp);
}

#[test]
fn output_format_parsing() {
    assert_eq!(validate_output_format(&b"JPG".to_vec()), Ok(OutputFormat::Jpeg));
    assert_eq!(validate_output_format(&b"jpeg".to_vec()), Ok(OutputFormat::Jpeg));
    assert_eq!(validate_output_format(&b"png".to_vec()), Ok(OutputFormat::Png));
    assert_eq!(validate_output_format(&b"gif".to_vec()), Ok(OutputFormat::Gif));
    assert_eq!(validate_output_format(&b"bmp".to_vec()), Ok(OutputFormat::Bmp));
    assert_eq!(validate_output_format(&b"TIFF".to_vec()), Ok(OutputFormat::Tiff));
    assert_eq!(validate_output_format(&b"webp".to_vec()), Ok(OutputFormat::Webp));
    assert_eq!(
        validate_output_format(&b"webm".to_vec()),
        Err(NormalizeError::UnsupportedFormat)
    );
}

#[test]
fn artifact_names() {
    assert_eq!(
        tmp_name(&b"photo".to_vec(), &b"png".to_vec()),
        b"photo.normalized.png".to_vec()
    );
    assert_eq!(
        final_name(&b"photo".to_vec(), &b"png".to_vec()),
        b"photo.png".to_vec()
    );
}

#[test]
fn tmp_artifact_is_ignored_by_filter() {
    // the anti-feedback loop: the normalizer's own temp output never
    // re-enters the pipeline
    let mut f = ni_watcher::filter::IgnoreFilter::new(2_000);
    let name = tmp_name(&b"photo".to_vec(), &b"jpg".to_vec());
    assert!(f.should_ignore(&name, 0));
}

#[test]
fn second_pass_keeps_canvas_geometry() {
    // normalizing an already-normalized image keeps the exact canvas
    // size; the scale geometry is idempotent
    let img = RgbImage { width: 300, height: 200, pixels: vec![0u8; 3 * 300 * 200] };
    let c = cfg(200, 200, 20, 10, OutputFormat::Png);
    let once = process_image(&img, &c);
    let twice = process_image(&once, &c);
    assert_eq!((twice.width, twice.height), (200, 200));
    assert_eq!((once.width, once.height), (200, 200));
}
