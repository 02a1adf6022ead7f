use rustic_eye::error::AppError;
use rustic_eye::pack::horiz_stack;
use rustic_eye::raster::{ColorImage, DepthMap, Rgba};
use rustic_eye::size::parse_effect_size;
use rustic_eye::warp::infer_left_channel;

const A: Rgba = [10, 20, 30, 255];
const B: Rgba = [40, 50, 60, 255];
const C: Rgba = [70, 80, 90, 255];
const D: Rgba = [100, 110, 120, 255];

fn color(width: u32, height: u32, pixels: &[Rgba]) -> ColorImage {
    let bytes: Vec<u8> = pixels.iter().flat_map(|p| p.iter().copied()).collect();
    ColorImage::from_raw(width, height, &bytes).expect("pixel count matches")
}

fn depth(width: u32, height: u32, samples: &[u8]) -> DepthMap {
    DepthMap::from_raw(width, height, samples).expect("sample count matches")
}

fn pixels(img: &ColorImage) -> Vec<Rgba> {
    img.to_raw().chunks(4).map(|c| [c[0], c[1], c[2], c[3]]).collect()
}

fn numbered(n: usize) -> Vec<Rgba> {
    (0..n).map(|i| [i as u8 + 1, 2 * i as u8 + 1, 3, 255]).collect()
}

fn is_arg_error(r: Result<u32, AppError>) -> bool {
    matches!(r, Err(AppError::ArgError(_)))
}

#[test]
fn resolve_percent_of_width() {
    assert_eq!(parse_effect_size("50%", 200).unwrap(), 100);
    assert_eq!(parse_effect_size("2%", 1000).unwrap(), 20);
    assert_eq!(parse_effect_size("2%", 640).unwrap(), 12);
}

#[test]
fn resolve_pixels() {
    assert_eq!(parse_effect_size("10px", 200).unwrap(), 10);
    assert_eq!(parse_effect_size("10", 200).unwrap(), 10);
    assert_eq!(parse_effect_size("+7", 200).unwrap(), 7);
}

#[test]
fn resolve_fraction_rounds_down() {
    assert_eq!(parse_effect_size("7.9", 200).unwrap(), 7);
    assert_eq!(parse_effect_size("7.9px", 200).unwrap(), 7);
    assert_eq!(parse_effect_size("12.5%", 8).unwrap(), 1);
    assert_eq!(parse_effect_size(".5%", 400).unwrap(), 2);
    assert_eq!(parse_effect_size("33.34%", 3).unwrap(), 1);
    assert_eq!(parse_effect_size("33.33%", 3).unwrap(), 0);
    assert_eq!(parse_effect_size("5.", 10).unwrap(), 5);
    assert_eq!(parse_effect_size("0.5", 10).unwrap(), 0);
}

#[test]
fn resolve_saturates() {
    assert_eq!(parse_effect_size("99999999999999999999", 10).unwrap(), u32::MAX);
    assert_eq!(parse_effect_size("99999999999999999999%", 1).unwrap(), u32::MAX);
    assert_eq!(parse_effect_size("4294967296", 10).unwrap(), u32::MAX);
    assert_eq!(parse_effect_size("4294967295", 10).unwrap(), u32::MAX);
    assert_eq!(parse_effect_size("4294967294", 10).unwrap(), 4294967294);
    assert_eq!(parse_effect_size("50%", 0).unwrap(), 0);
}

#[test]
fn resolve_rejects_non_positive() {
    assert!(is_arg_error(parse_effect_size("0", 200)));
    assert!(is_arg_error(parse_effect_size("-5%", 200)));
    assert!(is_arg_error(parse_effect_size("0.000", 200)));
    assert!(is_arg_error(parse_effect_size("-0", 200)));
}

#[test]
fn resolve_rejects_malformed() {
    assert!(is_arg_error(parse_effect_size("abc", 200)));
    assert!(is_arg_error(parse_effect_size("", 200)));
    assert!(is_arg_error(parse_effect_size("%", 200)));
    assert!(is_arg_error(parse_effect_size("px", 200)));
    assert!(is_arg_error(parse_effect_size(".", 200)));
    assert!(is_arg_error(parse_effect_size("1.2.3", 200)));
    assert!(is_arg_error(parse_effect_size("5pt", 200)));
    assert!(is_arg_error(parse_effect_size(" 5", 200)));
    assert!(is_arg_error(parse_effect_size("5%%", 200)));
}

#[test]
fn resolve_rejects_values_infinite_as_f32() {
    assert!(is_arg_error(parse_effect_size("1000000000000000000000000000000000000000", 10)));
    assert!(is_arg_error(parse_effect_size("340282356779733661637539395458142568448", 10)));
    assert!(is_arg_error(parse_effect_size("340282356779733661637539395458142568448.0%", 10)));
    assert_eq!(
        parse_effect_size("340282356779733661637539395458142568447.99", 10).unwrap(),
        u32::MAX
    );
}

#[test]
fn resolve_exponent_notation() {
    assert_eq!(parse_effect_size("1e5", 200).unwrap(), 100000);
    assert_eq!(parse_effect_size("1E2", 200).unwrap(), 100);
    assert_eq!(parse_effect_size("2.5e1%", 200).unwrap(), 50);
    assert_eq!(parse_effect_size("1e+2px", 200).unwrap(), 100);
    assert_eq!(parse_effect_size("150e-1", 200).unwrap(), 15);
    assert_eq!(parse_effect_size("0.05e2%", 300).unwrap(), 15);
    assert_eq!(parse_effect_size("1e-37", 200).unwrap(), 0);
    assert_eq!(parse_effect_size("1e9999999999999999999999999999999999999999", 10).ok(), None);
}

#[test]
fn resolve_rejects_malformed_exponent() {
    assert!(is_arg_error(parse_effect_size("1e", 200)));
    assert!(is_arg_error(parse_effect_size("e5", 200)));
    assert!(is_arg_error(parse_effect_size("1e5.5", 200)));
    assert!(is_arg_error(parse_effect_size("1e-", 200)));
    assert!(is_arg_error(parse_effect_size("1ee5", 200)));
}

#[test]
fn resolve_rejects_subnormal_values() {
    let tiny = format!("0.{}1", "0".repeat(40));
    assert!(is_arg_error(parse_effect_size(&tiny, 200)));
    assert!(is_arg_error(parse_effect_size("1e-39", 200)));
    assert!(is_arg_error(parse_effect_size("1e-9999999999999999999999999999999999999999", 200)));
    assert!(is_arg_error(parse_effect_size("1e39", 200)));
    assert!(is_arg_error(parse_effect_size("1e-38", 200)));
}

#[test]
fn resolve_normal_threshold_is_exact() {
    assert!(is_arg_error(parse_effect_size("1.1754942e-38", 200)));
    assert_eq!(parse_effect_size("1.1754943e-38", 200).unwrap(), 0);
    assert_eq!(parse_effect_size("1.1754942807573642917278829910357665133228589927589904276829631184250030649651730385585324256680905818939208984375e-38", 200).unwrap(), 0);
    assert!(is_arg_error(parse_effect_size("1.1754942807573642917278829910357665133228589927589904276829631184250030649651730385585324256680905818939208984374e-38", 200)));
    assert_eq!(parse_effect_size("0.000000000000000000000000000000000000011754942807573642917278829910357665133228589927589904276829631184250030649651730385585324256680905818939208984375", 200).unwrap(), 0);
}

#[test]
fn warp_collision_and_hole() {
    let base = color(4, 1, &[A, B, C, D]);
    let map = depth(4, 1, &[0, 0, 255, 0]);
    let out = infer_left_channel(&base, &map, 2);
    assert_eq!(pixels(&out), vec![A, B, B, C]);
}

#[test]
fn warp_keeps_dimensions() {
    let base = color(5, 3, &numbered(15));
    let map = depth(5, 3, &[7, 200, 0, 13, 255, 1, 2, 3, 4, 5, 90, 80, 70, 60, 50]);
    let out = infer_left_channel(&base, &map, 3);
    assert_eq!(out.dimensions(), (5, 3));
}

#[test]
fn warp_writes_every_column() {
    let base = color(6, 2, &numbered(12));
    let map = depth(6, 2, &[255, 0, 255, 0, 255, 0, 0, 0, 0, 255, 255, 255]);
    let out = infer_left_channel(&base, &map, 2);
    let got = pixels(&out);
    let source = numbered(12);
    for (i, p) in got.iter().enumerate() {
        assert_ne!(*p, [0, 0, 0, 0]);
        let row = i / 6;
        assert!(source[row * 6..row * 6 + 6].contains(p));
    }
}

#[test]
fn warp_flat_depth_is_identity() {
    let src = numbered(12);
    let base = color(4, 3, &src);
    let map = depth(4, 3, &[0; 12]);
    let out = infer_left_channel(&base, &map, 50);
    assert_eq!(pixels(&out), src);
}

#[test]
fn warp_full_depth_shifts_right() {
    let src = numbered(5);
    let base = color(5, 1, &src);
    let map = depth(5, 1, &[255; 5]);
    let out = infer_left_channel(&base, &map, 2);
    assert_eq!(pixels(&out), vec![src[0], src[0], src[0], src[1], src[2]]);
}

#[test]
fn warp_full_depth_beyond_width() {
    let src = numbered(3);
    let base = color(3, 1, &src);
    let map = depth(3, 1, &[255; 3]);
    let out = infer_left_channel(&base, &map, 10);
    assert_eq!(pixels(&out), vec![src[0], src[0], src[0]]);
}

#[test]
fn warp_partial_depth_scales_shift() {
    // 2 * 128 / 255 = 1.0039..., so the first column moves by one.
    let src = numbered(3);
    let base = color(3, 1, &src);
    let map = depth(3, 1, &[128, 0, 0]);
    let out = infer_left_channel(&base, &map, 2);
    assert_eq!(pixels(&out), vec![src[0], src[0], src[2]]);
}

#[test]
fn warp_empty_image() {
    let base = color(0, 2, &[]);
    let map = depth(0, 2, &[]);
    let out = infer_left_channel(&base, &map, 4);
    assert_eq!(out.dimensions(), (0, 2));
}

#[test]
fn pack_side_by_side() {
    let left = color(2, 2, &[A, B, C, D]);
    let right = color(1, 2, &[D, A]);
    let out = horiz_stack(&left, &right).unwrap();
    assert_eq!(out.dimensions(), (3, 2));
    assert_eq!(pixels(&out), vec![A, B, D, C, D, A]);
    assert_eq!(out.get_pixel(2, 1), Some(A));
    assert_eq!(out.get_pixel(3, 0), None);
}

#[test]
fn pack_rejects_height_mismatch() {
    let left = color(1, 2, &[A, B]);
    let right = color(1, 1, &[C]);
    assert!(matches!(horiz_stack(&left, &right), Err(AppError::BadImage(_))));
}

#[test]
fn error_messages() {
    assert_eq!(AppError::BadImage("too small".to_string()).message(), "Unusable image: too small");
    assert_eq!(AppError::ArgError("type".to_string()).message(), "Bad argument: type");
    let left = color(1, 2, &[A, B]);
    let right = color(1, 1, &[C]);
    let err = horiz_stack(&left, &right).err().unwrap();
    assert_eq!(err.message(), "Unusable image: image heights mismatched");
    let err = parse_effect_size("0", 10).err().unwrap();
    assert_eq!(err.message(), "Bad argument: size must be strictly positive");
}

#[test]
fn error_from_outside_errors() {
    let io = std::io::Error::new(std::io::ErrorKind::NotFound, "missing file");
    let err = AppError::from(io);
    assert!(matches!(err, AppError::IOError(_)));
    assert_eq!(err.message(), "missing file");
}

#[test]
fn pack_mismatch_of_wide_images() {
    let left = color(0, 3, &[]);
    let right = color(0, 1, &[]);
    assert!(matches!(horiz_stack(&left, &right), Err(AppError::BadImage(_))));
}

#[test]
fn pack_zero_width_left() {
    let left = color(0, 2, &[]);
    let right = color(2, 2, &[A, B, C, D]);
    let out = horiz_stack(&left, &right).unwrap();
    assert_eq!(pixels(&out), vec![A, B, C, D]);
}

#[test]
fn raw_round_trip() {
    let bytes: Vec<u8> = (0u8..24).collect();
    let img = ColorImage::from_raw(3, 2, &bytes).unwrap();
    assert_eq!(img.to_raw(), bytes);
    assert_eq!(img.get_pixel(1, 1), Some([16, 17, 18, 19]));
}

#[test]
fn raw_rejects_wrong_length() {
    assert!(ColorImage::from_raw(2, 2, &[0u8; 15]).is_none());
    assert!(DepthMap::from_raw(2, 2, &[0u8; 5]).is_none());
}
