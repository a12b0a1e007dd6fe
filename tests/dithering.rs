use dither::buffer::RgbBuffer;
use dither::diffusion::{add_quant_error, calculate_quant_error, QuantError, WEIGHT_DENOMINATOR};
use dither::pixel::{find_closest_palette_color, Pixel};
use dither::raster::{
    dither_pixels, WEIGHT_BELOW, WEIGHT_BELOW_RIGHT, WEIGHT_LEFT, WEIGHT_RIGHT,
};

fn gray(v: u8) -> Pixel {
    Pixel::new(v, v, v)
}

fn dithered(width: u32, height: u32, pixels: Vec<Pixel>) -> Vec<Pixel> {
    let mut buf = RgbBuffer::from_pixels(width, height, pixels).unwrap();
    buf.dither();
    assert_eq!(buf.width(), width);
    assert_eq!(buf.height(), height);
    buf.into_pixels()
}

fn is_level(c: u8) -> bool {
    c == 0 || c == 255
}

fn all_levels(pixels: &[Pixel]) -> bool {
    pixels.iter().all(|p| is_level(p.r) && is_level(p.g) && is_level(p.b))
}

#[test]
fn quantizer_thresholds_each_channel_at_127() {
    assert_eq!(find_closest_palette_color(&gray(127)), gray(0));
    assert_eq!(find_closest_palette_color(&gray(128)), gray(255));
    assert_eq!(find_closest_palette_color(&gray(0)), gray(0));
    assert_eq!(find_closest_palette_color(&gray(255)), gray(255));
    assert_eq!(
        find_closest_palette_color(&Pixel::new(200, 100, 50)),
        Pixel::new(255, 0, 0)
    );
}

#[test]
fn quantizer_is_idempotent() {
    for r in [0u8, 255] {
        for g in [0u8, 255] {
            for b in [0u8, 255] {
                let p = Pixel::new(r, g, b);
                assert_eq!(find_closest_palette_color(&p), p);
            }
        }
    }
    let once = find_closest_palette_color(&Pixel::new(13, 140, 127));
    assert_eq!(find_closest_palette_color(&once), once);
}

#[test]
fn pure_red_survives_per_channel_quantization() {
    assert_eq!(
        find_closest_palette_color(&Pixel::new(255, 0, 0)),
        Pixel::new(255, 0, 0)
    );
}

#[test]
fn quant_error_is_original_minus_quantized() {
    let e = calculate_quant_error(&gray(200), &gray(255));
    assert_eq!(e, QuantError { r: -55, g: -55, b: -55 });
    let e = calculate_quant_error(&Pixel::new(255, 0, 100), &Pixel::new(0, 255, 0));
    assert_eq!(e, QuantError { r: 255, g: -255, b: 100 });
}

#[test]
fn add_quant_error_truncates_toward_zero() {
    let mut p = gray(50);
    add_quant_error(&mut p, &QuantError { r: -55, g: -55, b: -55 }, WEIGHT_RIGHT);
    assert_eq!(p, gray(25));
    let mut p = gray(0);
    add_quant_error(&mut p, &QuantError { r: 1, g: 2, b: 3 }, WEIGHT_RIGHT);
    assert_eq!(p, Pixel::new(0, 0, 1));
    let mut p = gray(100);
    add_quant_error(&mut p, &QuantError { r: -1, g: -1, b: -1 }, WEIGHT_BELOW_RIGHT);
    assert_eq!(p, gray(99));
}

#[test]
fn add_quant_error_saturates() {
    let mut p = gray(250);
    add_quant_error(&mut p, &QuantError { r: 255, g: 255, b: 255 }, WEIGHT_RIGHT);
    assert_eq!(p, gray(255));
    let mut p = gray(10);
    add_quant_error(&mut p, &QuantError { r: -255, g: -255, b: -255 }, WEIGHT_RIGHT);
    assert_eq!(p, gray(0));
}

#[test]
fn add_quant_error_uses_each_channel_independently() {
    let mut p = Pixel::new(10, 20, 30);
    add_quant_error(&mut p, &QuantError { r: 16, g: -32, b: 48 }, WEIGHT_BELOW);
    assert_eq!(p, Pixel::new(15, 10, 45));
}

#[test]
fn weights_sum_to_denominator() {
    assert_eq!(
        WEIGHT_RIGHT + WEIGHT_LEFT + WEIGHT_BELOW + WEIGHT_BELOW_RIGHT,
        WEIGHT_DENOMINATOR
    );
}

#[test]
fn two_by_one_scenario() {
    let out = dithered(2, 1, vec![gray(200), gray(50)]);
    assert_eq!(out, vec![gray(255), gray(0)]);
}

#[test]
fn two_by_one_intermediate_values() {
    let p = gray(200);
    let q = find_closest_palette_color(&p);
    assert_eq!(q, gray(255));
    let e = calculate_quant_error(&p, &q);
    assert_eq!(e, QuantError { r: -55, g: -55, b: -55 });
    let mut next = gray(50);
    add_quant_error(&mut next, &e, WEIGHT_RIGHT);
    assert_eq!(next, gray(25));
    assert_eq!(find_closest_palette_color(&next), gray(0));
}

#[test]
fn share_to_the_left_can_move_a_finished_pixel_off_the_palette() {
    let out = dithered(2, 1, vec![gray(200), gray(200)]);
    assert_eq!(out, vec![gray(240), gray(255)]);
}

#[test]
fn two_by_two_gray() {
    let out = dithered(2, 2, vec![gray(100), gray(100), gray(100), gray(100)]);
    assert_eq!(out, vec![gray(0), gray(255), gray(255), gray(0)]);
}

#[test]
fn empty_images_are_left_empty() {
    assert_eq!(dithered(0, 0, vec![]), Vec::<Pixel>::new());
    assert_eq!(dithered(0, 5, vec![]), Vec::<Pixel>::new());
    assert_eq!(dithered(7, 0, vec![]), Vec::<Pixel>::new());
}

#[test]
fn one_by_one_is_only_quantized() {
    assert_eq!(dithered(1, 1, vec![Pixel::new(128, 0, 200)]), vec![Pixel::new(255, 0, 255)]);
    assert_eq!(dithered(1, 1, vec![gray(127)]), vec![gray(0)]);
}

#[test]
fn single_column_and_single_row_stay_in_bounds() {
    let column = dithered(1, 5, vec![gray(100), gray(30), gray(220), gray(128), gray(5)]);
    assert_eq!(column.len(), 5);
    assert!(all_levels(&column));
    let row = dithered(5, 1, vec![gray(100), gray(30), gray(220), gray(128), gray(5)]);
    assert_eq!(row.len(), 5);
    let mut long = Vec::new();
    for i in 0..300u32 {
        long.push(gray((i % 256) as u8));
    }
    assert_eq!(dithered(300, 1, long.clone()).len(), 300);
    assert_eq!(dithered(1, 300, long).len(), 300);
}

#[test]
fn every_last_column_pixel_is_on_the_palette() {
    let mut pixels = Vec::new();
    for i in 0..12u32 {
        pixels.push(Pixel::new((i * 21) as u8, (i * 37 % 256) as u8, (255 - i * 9) as u8));
    }
    let out = dithered(4, 3, pixels);
    for y in 0..3 {
        assert!(all_levels(&out[y * 4 + 3..y * 4 + 4]));
    }
}

#[test]
fn running_twice_gives_identical_output() {
    let mut pixels = Vec::new();
    for i in 0..20u32 {
        pixels.push(Pixel::new((i * 13) as u8, (i * 29 % 256) as u8, (i * 7) as u8));
    }
    let a = dithered(5, 4, pixels.clone());
    let b = dithered(5, 4, pixels);
    assert_eq!(a, b);
}

#[test]
fn dither_pixels_matches_buffer_dither() {
    let pixels = vec![gray(100), gray(100), gray(100), gray(100)];
    let mut raw = pixels.clone();
    dither_pixels(&mut raw, 2, 2);
    assert_eq!(raw, dithered(2, 2, pixels));
}

#[test]
fn from_pixels_rejects_wrong_sizes() {
    assert!(RgbBuffer::from_pixels(2, 2, vec![gray(1), gray(2), gray(3)]).is_none());
    assert!(RgbBuffer::from_pixels(0, 3, vec![gray(1)]).is_none());
    let buf = RgbBuffer::from_pixels(3, 1, vec![gray(1), gray(2), gray(3)]).unwrap();
    assert_eq!(buf.get_pixel(2, 0), gray(3));
    assert_eq!(buf.pixels().len(), 3);
}

#[test]
fn raw_bytes_round_trip() {
    let bytes: Vec<u8> = vec![1, 2, 3, 4, 5, 6, 7, 8, 9, 10, 11, 12];
    let buf = RgbBuffer::from_raw(2, 2, &bytes).unwrap();
    assert_eq!(buf.get_pixel(1, 0), Pixel::new(4, 5, 6));
    assert_eq!(buf.get_pixel(0, 1), Pixel::new(7, 8, 9));
    assert_eq!(buf.into_raw(), bytes);
}

#[test]
fn from_raw_rejects_wrong_sizes() {
    assert!(RgbBuffer::from_raw(2, 2, &vec![0u8; 11]).is_none());
    assert!(RgbBuffer::from_raw(2, 2, &vec![0u8; 13]).is_none());
    assert!(RgbBuffer::from_raw(1, 1, &vec![0u8; 4]).is_none());
    assert!(RgbBuffer::from_raw(0, 0, &vec![]).is_some());
}

#[test]
fn raw_bytes_dither_end_to_end() {
    let buf = RgbBuffer::from_raw(2, 1, &vec![200, 200, 200, 50, 50, 50]);
    let mut buf = buf.unwrap();
    buf.dither();
    assert_eq!(buf.into_raw(), vec![255, 255, 255, 0, 0, 0]);
}
