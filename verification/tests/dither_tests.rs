use kmeans_dither::dither::{
    dither_checked, dither_floyd_steinberg, draw_selection_to_image, DitherError, PixelBuffer,
};
use kmeans_dither::sample::Sample;
use rand::rngs::StdRng;
use rand::Rng;
use rand::SeedableRng;

fn s(r: i32, g: i32, b: i32) -> Sample {
    Sample { r, g, b, x: 0, y: 0 }
}

fn sp(r: i32, g: i32, b: i32, x: i32, y: i32) -> Sample {
    Sample { r, g, b, x, y }
}

fn buffer_from(width: usize, height: usize, pixels: &[(i32, i32, i32)]) -> PixelBuffer {
    assert_eq!(pixels.len(), width * height);
    let mut buf = PixelBuffer::new(width, height);
    for y in 0..height {
        for x in 0..width {
            let (r, g, b) = pixels[y * width + x];
            buf.set_pixel(x, y, r, g, b);
        }
    }
    buf
}

fn colors_of(buf: &PixelBuffer, width: usize, height: usize) -> Vec<(i32, i32, i32)> {
    let mut out = Vec::new();
    for y in 0..height {
        for x in 0..width {
            let c = buf.get_pixel(x, y);
            out.push((c.r, c.g, c.b));
        }
    }
    out
}

#[test]
fn checkerboard_with_exact_palette_is_unchanged() {
    let pixels = [(0, 0, 0), (255, 255, 255), (0, 0, 0), (255, 255, 255)];
    let mut buf = buffer_from(2, 2, &pixels);
    let palette = vec![s(0, 0, 0), s(255, 255, 255)];
    dither_floyd_steinberg(&mut buf, &palette);
    assert_eq!(colors_of(&buf, 2, 2), pixels.to_vec());
}

#[test]
fn singleton_palette_on_quantized_image_is_identity() {
    let pixels = [(200, 10, 30); 9];
    let mut buf = buffer_from(3, 3, &pixels);
    let palette = vec![s(200, 10, 30)];
    dither_floyd_steinberg(&mut buf, &palette);
    assert_eq!(colors_of(&buf, 3, 3), pixels.to_vec());
}

#[test]
fn positive_error_diffuses_in_sixteenths() {
    let pixels = [(10, 10, 10); 4];
    let mut buf = buffer_from(2, 2, &pixels);
    let palette = vec![s(0, 0, 0), s(255, 255, 255)];
    dither_floyd_steinberg(&mut buf, &palette);
    // Only (0, 0) is scanned; its error of 10 spreads east (round(70/16)),
    // south (round(50/16)) and south-east (round(10/16) = 1); the
    // south-west write is off-grid.
    assert_eq!(
        colors_of(&buf, 2, 2),
        vec![(0, 0, 0), (14, 14, 14), (13, 13, 13), (11, 11, 11)]
    );
}

#[test]
fn negative_error_rounds_half_away_from_zero() {
    let pixels = [(250, 250, 250); 4];
    let mut buf = buffer_from(2, 2, &pixels);
    let palette = vec![s(255, 255, 255)];
    dither_floyd_steinberg(&mut buf, &palette);
    // The error is -5: east gets -round(35/16) = -2, south
    // -round(25/16) = -2 (the half rounds away from zero), south-east
    // -round(5/16) = 0.
    assert_eq!(
        colors_of(&buf, 2, 2),
        vec![(255, 255, 255), (248, 248, 248), (248, 248, 248), (250, 250, 250)]
    );
}

#[test]
fn error_diffusion_clamps_to_the_intensity_range() {
    let pixels = [(250, 3, 130), (250, 0, 255), (250, 2, 0), (250, 1, 128)];
    let mut buf = buffer_from(2, 2, &pixels);
    let palette = vec![s(0, 0, 0), s(255, 255, 255)];
    dither_floyd_steinberg(&mut buf, &palette);
    // (0, 0) quantizes to white: errors (-5, -252, -125). The east, south
    // and south-east shares drive several green and blue channels below
    // zero, which clamp to 0.
    assert_eq!(
        colors_of(&buf, 2, 2),
        vec![(255, 255, 255), (248, 0, 200), (248, 0, 0), (250, 0, 120)]
    );
}

#[test]
fn undersized_buffers_are_left_unchanged() {
    let palette = vec![s(0, 0, 0)];

    let mut empty = PixelBuffer::new(0, 0);
    dither_floyd_steinberg(&mut empty, &palette);

    let row = [(5, 6, 7), (8, 9, 10), (11, 12, 13)];
    let mut one_row = buffer_from(3, 1, &row);
    dither_floyd_steinberg(&mut one_row, &palette);
    assert_eq!(colors_of(&one_row, 3, 1), row.to_vec());

    let mut one_col = buffer_from(1, 3, &row);
    dither_floyd_steinberg(&mut one_col, &palette);
    assert_eq!(colors_of(&one_col, 1, 3), row.to_vec());
}

#[test]
fn dither_checked_rejects_an_empty_palette() {
    let mut buf = PixelBuffer::new(2, 2);
    let res = dither_checked(&mut buf, &Vec::new());
    assert_eq!(res, Err(DitherError::EmptyPalette));
}

#[test]
fn dither_checked_rejects_an_invalid_palette() {
    let mut buf = PixelBuffer::new(2, 2);
    let res = dither_checked(&mut buf, &vec![s(0, 0, 0), s(300, 0, 0)]);
    assert_eq!(res, Err(DitherError::InvalidPalette));
}

#[test]
fn dither_checked_rejects_a_malformed_buffer() {
    let mut buf = PixelBuffer { width: 2, height: 2, data: vec![s(0, 0, 0)] };
    let res = dither_checked(&mut buf, &vec![s(0, 0, 0)]);
    assert_eq!(res, Err(DitherError::MalformedBuffer));
}

#[test]
fn dither_checked_succeeds_on_valid_input() {
    let pixels = [(10, 10, 10); 4];
    let mut buf = buffer_from(2, 2, &pixels);
    let res = dither_checked(&mut buf, &vec![s(0, 0, 0), s(255, 255, 255)]);
    assert_eq!(res, Ok(()));
    assert_eq!(
        colors_of(&buf, 2, 2),
        vec![(0, 0, 0), (14, 14, 14), (13, 13, 13), (11, 11, 11)]
    );
}

#[test]
fn mean_intensity_survives_dithering_of_a_random_image() {
    // The kernel hands on sixteen sixteenths of every error, so over a
    // large uniform-random gray image the mean intensity must not drift.
    let width = 64usize;
    let height = 64usize;
    let mut rng = StdRng::seed_from_u64(2024);
    let mut buf = PixelBuffer::new(width, height);
    let mut sum_before: i64 = 0;
    for y in 0..height {
        for x in 0..width {
            let v: i32 = rng.gen_range(0..256);
            buf.set_pixel(x, y, v, v, v);
            sum_before += v as i64;
        }
    }
    let palette = vec![s(0, 0, 0), s(255, 255, 255)];
    dither_floyd_steinberg(&mut buf, &palette);
    let mut sum_after: i64 = 0;
    for y in 0..height {
        for x in 0..width {
            sum_after += buf.get_pixel(x, y).r as i64;
        }
    }
    let pixels = (width * height) as i64;
    let drift = (sum_after - sum_before).abs();
    assert!(drift <= 4 * pixels, "mean drifted by {} over {} pixels", drift, pixels);
}

#[test]
fn draw_selection_paints_members_with_their_mean_color() {
    let mut buf = PixelBuffer::new(2, 2);
    let selections = vec![
        vec![sp(10, 20, 30, 0, 0), sp(20, 30, 40, 1, 0)],
        vec![],
        vec![sp(200, 100, 50, 0, 1)],
    ];
    draw_selection_to_image(&mut buf, &selections);
    assert_eq!(
        colors_of(&buf, 2, 2),
        vec![(15, 25, 35), (15, 25, 35), (200, 100, 50), (0, 0, 0)]
    );
}

#[test]
fn draw_selection_skips_out_of_range_positions() {
    let mut buf = PixelBuffer::new(2, 1);
    let selections = vec![vec![sp(40, 50, 60, 0, 0), sp(40, 50, 60, 5, -3)]];
    draw_selection_to_image(&mut buf, &selections);
    assert_eq!(colors_of(&buf, 2, 1), vec![(40, 50, 60), (0, 0, 0)]);
}
