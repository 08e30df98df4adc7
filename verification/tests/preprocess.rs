use face_auth_core::auth::FACE_CROP_MARGIN_BITS;
use face_auth_core::capture::IrFrame;
use face_auth_core::detector::FaceBox;
use face_auth_core::equalize::{neighbor_weights, tile_bounds, tile_mapping};
use face_auth_core::float32::Float32;
use face_auth_core::preprocess::{
    clahe, crop_to_face, frame_motion_fraction, normalize_for_encoder, preprocess_ir_frame,
};

fn soft(x: f32) -> Float32 {
    Float32::from_bits(x.to_bits())
}

fn hard(x: Float32) -> f32 {
    f32::from_bits(x.to_bits())
}

fn frame(data: Vec<u16>) -> IrFrame {
    IrFrame { data, width: 2, height: 2 }
}

fn motion(a: &IrFrame, b: &IrFrame) -> f32 {
    hard(frame_motion_fraction(a, b))
}

#[test]
fn identical_frames_have_zero_motion() {
    let a = frame(vec![1000, 2000, 3000, 4000]);
    let b = a.clone();
    assert_eq!(motion(&a, &b), 0.0);
}

#[test]
fn large_change_in_one_pixel_is_detected() {
    let a = frame(vec![1000, 2000, 3000, 4000]);
    let b = frame(vec![1000, 2000, 3000, 40000]);
    assert_eq!(motion(&a, &b), 0.25);
}

#[test]
fn small_noise_is_ignored() {
    let a = frame(vec![1000, 2000, 3000, 4000]);
    let b = frame(vec![1050, 2050, 2950, 3950]);
    assert_eq!(motion(&a, &b), 0.0);
}

#[test]
fn mismatched_dimensions_return_zero() {
    let a = frame(vec![1000, 2000, 3000, 4000]);
    let b = IrFrame { data: vec![1000, 2000], width: 2, height: 1 };
    assert_eq!(motion(&a, &b), 0.0);
}

#[test]
fn motion_counts_changes_beyond_the_noise_floor() {
    let a = frame(vec![0, 1500, 65535, 10000]);
    let b = frame(vec![1500, 3001, 0, 8499]);
    assert_eq!(motion(&a, &b), 0.75);
    assert_eq!(motion(&b, &a), 0.75);
    let empty = IrFrame { data: vec![], width: 2, height: 2 };
    assert_eq!(motion(&empty, &empty), 0.0);
    let turned = IrFrame { data: vec![0, 1500, 65535, 10000], width: 4, height: 1 };
    assert_eq!(motion(&a, &turned), 0.0);
}

fn noise(n: usize, seed: u64) -> Vec<u16> {
    let mut s = seed;
    (0..n)
        .map(|i| {
            s = s.wrapping_mul(6364136223846793005).wrapping_add(1442695040888963407);
            let v = ((s >> 40) as u16 & 0x3f) + (i % 150) as u16;
            v.min(255) * 257
        })
        .collect()
}

fn plain_tile_bounds(dim: u32, tiles: u32) -> Vec<(u32, u32)> {
    (0..tiles).map(|i| (i * dim / tiles, (i + 1) * dim / tiles)).collect()
}

fn plain_tile_mapping(frame: &IrFrame, x0: u32, x1: u32, y0: u32, y1: u32) -> Vec<u8> {
    let mut hist = [0u32; 256];
    let mut count = 0u32;
    for y in y0..y1 {
        for x in x0..x1 {
            hist[(frame.data[(y * frame.width + x) as usize] / 257) as usize] += 1;
            count += 1;
        }
    }
    if count == 0 {
        return (0..=255u8).collect();
    }
    let clip = (4.0f32 * (count as f32 / 256.0)).max(1.0) as u32;
    let mut excess = 0u32;
    for bin in hist.iter_mut() {
        if *bin > clip {
            excess += *bin - clip;
            *bin = clip;
        }
    }
    let mut mapping = vec![0u8; 256];
    let mut cumulative = 0u32;
    for i in 0..256usize {
        hist[i] += excess / 256 + if (i as u32) < excess % 256 { 1 } else { 0 };
        cumulative += hist[i];
        mapping[i] = ((cumulative as f32 / count as f32) * 255.0).round() as u8;
    }
    mapping
}

fn plain_weights(pos: f32, centers: &[f32]) -> (usize, usize, f32) {
    let n = centers.len();
    if n <= 1 || pos <= centers[0] {
        return (0, 0, 0.0);
    }
    if pos >= centers[n - 1] {
        return (n - 1, n - 1, 0.0);
    }
    for i in 0..n - 1 {
        if pos >= centers[i] && pos <= centers[i + 1] {
            let span = centers[i + 1] - centers[i];
            return (i, i + 1, if span > 0.0 { (pos - centers[i]) / span } else { 0.0 });
        }
    }
    (n - 1, n - 1, 0.0)
}

fn plain_clahe(frame: &IrFrame) -> Vec<u16> {
    let (width, height) = (frame.width, frame.height);
    let cols = plain_tile_bounds(width, 8.min(width).max(1));
    let rows = plain_tile_bounds(height, 8.min(height).max(1));
    let maps: Vec<Vec<Vec<u8>>> = rows
        .iter()
        .map(|&(y0, y1)| {
            cols.iter().map(|&(x0, x1)| plain_tile_mapping(frame, x0, x1, y0, y1)).collect()
        })
        .collect();
    let cc: Vec<f32> = cols.iter().map(|&(s, e)| (s + e) as f32 / 2.0).collect();
    let rc: Vec<f32> = rows.iter().map(|&(s, e)| (s + e) as f32 / 2.0).collect();
    let mut out = vec![0u16; frame.data.len()];
    for y in 0..height {
        let (ty0, ty1, wy) = plain_weights(y as f32, &rc);
        for x in 0..width {
            let (tx0, tx1, wx) = plain_weights(x as f32, &cc);
            let idx = (y * width + x) as usize;
            let val = (frame.data[idx] / 257) as usize;
            let v00 = maps[ty0][tx0][val] as f32;
            let v01 = maps[ty0][tx1][val] as f32;
            let v10 = maps[ty1][tx0][val] as f32;
            let v11 = maps[ty1][tx1][val] as f32;
            let top = v00 * (1.0 - wx) + v01 * wx;
            let bottom = v10 * (1.0 - wx) + v11 * wx;
            out[idx] = ((top * (1.0 - wy) + bottom * wy).round() as u16) * 257;
        }
    }
    out
}

#[test]
fn clahe_agrees_with_plain_arithmetic() {
    for (w, h, seed) in [(1u32, 1u32, 1u64), (3, 5, 2), (8, 8, 3), (37, 23, 4), (64, 48, 5), (97, 61, 6)] {
        let mut f = IrFrame { data: noise((w * h) as usize, seed), width: w, height: h };
        let expected = plain_clahe(&f);
        clahe(&mut f);
        assert_eq!(f.data, expected);
        assert_eq!((f.width, f.height), (w, h));
        assert!(f.data.iter().all(|v| v % 257 == 0));
    }
}

#[test]
fn clahe_leaves_frames_without_pixels_alone() {
    let mut f = IrFrame { data: vec![5, 6], width: 0, height: 3 };
    clahe(&mut f);
    assert_eq!(f.data, vec![5, 6]);
    let mut f = IrFrame { data: vec![], width: 3, height: 3 };
    clahe(&mut f);
    assert_eq!(f.data, vec![]);
}

#[test]
fn clahe_clears_surplus_samples() {
    let mut f = IrFrame { data: vec![257, 514, 771, 1028, 9999], width: 2, height: 2 };
    clahe(&mut f);
    assert_eq!(f.data.len(), 5);
    assert_eq!(f.data[4], 0);
}

#[test]
fn tiles_cover_the_axis() {
    assert_eq!(tile_bounds(10, 4), vec![(0, 2), (2, 5), (5, 7), (7, 10)]);
    assert_eq!(tile_bounds(8, 8).len(), 8);
    assert_eq!(tile_bounds(3, 0), vec![]);
}

#[test]
fn tone_curves_agree_and_rise() {
    let f = IrFrame { data: noise(40 * 30, 9), width: 40, height: 30 };
    let curve = tile_mapping(&f, 3, 17, 4, 30);
    assert_eq!(curve, plain_tile_mapping(&f, 3, 17, 4, 30));
    assert!(curve.windows(2).all(|w| w[0] <= w[1]));
    assert_eq!(curve[255], 255);
    let identity: Vec<u8> = (0..=255u8).collect();
    assert_eq!(tile_mapping(&f, 5, 5, 0, 30), identity);
}

#[test]
fn weights_do_not_extrapolate() {
    let centers: Vec<Float32> = [2.0f32, 6.0, 10.0].iter().map(|&c| soft(c)).collect();
    assert_eq!(neighbor_weights(soft(0.0), &centers), (0, 0, soft(0.0)));
    assert_eq!(neighbor_weights(soft(2.0), &centers), (0, 0, soft(0.0)));
    assert_eq!(neighbor_weights(soft(3.0), &centers), (0, 1, soft(0.25)));
    assert_eq!(neighbor_weights(soft(6.0), &centers), (0, 1, soft(1.0)));
    assert_eq!(neighbor_weights(soft(9.0), &centers), (1, 2, soft(0.75)));
    assert_eq!(neighbor_weights(soft(10.0), &centers), (2, 2, soft(0.0)));
    assert_eq!(neighbor_weights(soft(99.0), &centers), (2, 2, soft(0.0)));
    assert_eq!(neighbor_weights(soft(1.0), &vec![soft(5.0)]), (0, 0, soft(0.0)));
}

fn plain_crop(frame: &IrFrame, b: [f32; 4], margin: f32) -> (u32, u32, u32, u32) {
    let width = frame.width as f32;
    let height = frame.height as f32;
    let x1 = (b[0] * width).clamp(0.0, width);
    let y1 = (b[1] * height).clamp(0.0, height);
    let x2 = (b[2] * width).clamp(0.0, width);
    let y2 = (b[3] * height).clamp(0.0, height);
    let mx = (x2 - x1).max(1.0) * margin;
    let my = (y2 - y1).max(1.0) * margin;
    let (ex1, ey1, ex2, ey2) = (x1 - mx, y1 - my, x2 + mx, y2 + my);
    let cx = (ex1 + ex2) / 2.0;
    let cy = (ey1 + ey2) / 2.0;
    let side = (ex2 - ex1).max(ey2 - ey1).min(width.min(height));
    let mut sx1 = cx - side / 2.0;
    let mut sy1 = cy - side / 2.0;
    let mut sx2 = cx + side / 2.0;
    let mut sy2 = cy + side / 2.0;
    if sx1 < 0.0 {
        sx2 -= sx1;
        sx1 = 0.0;
    }
    if sy1 < 0.0 {
        sy2 -= sy1;
        sy1 = 0.0;
    }
    if sx2 > width {
        sx1 -= sx2 - width;
        sx2 = width;
    }
    if sy2 > height {
        sy1 -= sy2 - height;
        sy2 = height;
    }
    let ix1 = sx1.clamp(0.0, width).round() as u32;
    let iy1 = sy1.clamp(0.0, height).round() as u32;
    let ix2 = (sx2.clamp(0.0, width).round() as u32).max(ix1 + 1).min(frame.width);
    let iy2 = (sy2.clamp(0.0, height).round() as u32).max(iy1 + 1).min(frame.height);
    (ix1, iy1, ix2, iy2)
}

fn face(b: [f32; 4]) -> FaceBox {
    FaceBox { x1: soft(b[0]), y1: soft(b[1]), x2: soft(b[2]), y2: soft(b[3]) }
}

#[test]
fn crops_agree_with_plain_arithmetic() {
    let f = IrFrame { data: (0..(90u32 * 60)).map(|i| i as u16).collect(), width: 90, height: 60 };
    let boxes = [
        [0.2f32, 0.3, 0.5, 0.7],
        [-0.4, -0.1, 0.2, 0.3],
        [0.8, 0.8, 1.4, 1.1],
        [0.0, 0.0, 1.0, 1.0],
        [0.5, 0.5, 0.5, 0.5],
        [1.0, 1.0, 1.0, 1.0],
        [0.9, 0.1, 0.1, 0.9],
        [f32::NAN, 0.2, 0.4, 0.6],
        [f32::NEG_INFINITY, 0.0, f32::INFINITY, 0.5],
        [0.123, 0.456, 0.234, 0.789],
    ];
    for b in boxes {
        for margin in [0.0f32, 0.3, 1.0] {
            let (x1, y1, x2, y2) = plain_crop(&f, b, margin);
            let crop = crop_to_face(&f, &face(b), soft(margin));
            assert_eq!((crop.width, crop.height), (x2 - x1, y2 - y1));
            let mut expected = Vec::new();
            for y in y1..y2 {
                for x in x1..x2 {
                    expected.push(f.data[(y * 90 + x) as usize]);
                }
            }
            assert_eq!(crop.data, expected);
        }
    }
}

#[test]
fn crops_are_square_even_at_the_edge() {
    let f = IrFrame { data: vec![0; 360 * 300], width: 360, height: 300 };
    let margin = Float32::from_bits(FACE_CROP_MARGIN_BITS);
    assert_eq!(hard(margin), 0.3);
    let middle = crop_to_face(&f, &face([0.4, 0.4, 0.6, 0.6]), margin);
    let corner = crop_to_face(&f, &face([-0.1, -0.1, 0.2, 0.2]), margin);
    assert_eq!((middle.width, middle.height), (116, 116));
    assert_eq!((corner.width, corner.height), (115, 115));
}

#[test]
fn encoder_input_is_normalized_in_three_planes() {
    let pixels: Vec<u16> = (0..12544u32).map(|i| (i * 41 % 65536) as u16).collect();
    let input = normalize_for_encoder(&pixels);
    assert_eq!(input.len(), 3 * 12544);
    for i in 0..12544usize {
        let expected = (pixels[i] as f32 / 65535.0 - 0.5) / 0.5;
        for c in 0..3 {
            assert_eq!(hard(input[c * 12544 + i]), expected);
        }
    }
    let ends = normalize_for_encoder(&vec![65535u16; 12544]);
    assert_eq!(hard(ends[0]), 1.0);
    assert_eq!(hard(normalize_for_encoder(&vec![0u16; 12544])[0]), -1.0);
}

#[test]
fn encoder_input_agrees_with_the_image_library() {
    let data = noise(50 * 70, 21);
    let f = IrFrame { data: data.clone(), width: 50, height: 70 };
    let buffer: image::ImageBuffer<image::Luma<u16>, Vec<u16>> =
        image::ImageBuffer::from_raw(50, 70, data).unwrap();
    let gray = image::DynamicImage::ImageLuma16(buffer)
        .resize_exact(112, 112, image::imageops::FilterType::Lanczos3)
        .to_luma16();
    let input = preprocess_ir_frame(&f);
    for y in 0..112usize {
        for x in 0..112usize {
            let p = gray.get_pixel(x as u32, y as u32).0[0] as f32 / 65535.0;
            assert_eq!(hard(input[y * 112 + x]), (p - 0.5) / 0.5);
        }
    }
}

#[test]
fn pixels_without_samples_are_black_to_the_encoder() {
    let mut data: Vec<u16> = vec![65535; 12544];
    data.truncate(12000);
    let f = IrFrame { data, width: 112, height: 112 };
    let input = preprocess_ir_frame(&f);
    assert_eq!(hard(input[11999]), 1.0);
    assert_eq!(hard(input[12000]), -1.0);
    assert_eq!(hard(input[2 * 12544 + 12543]), -1.0);
    let nothing = preprocess_ir_frame(&IrFrame { data: vec![], width: 0, height: 0 });
    assert!(nothing.iter().all(|&v| hard(v) == -1.0));
}

#[test]
fn clahe_sees_only_levels() {
    let levels = IrFrame {
        data: noise(37 * 29, 5).iter().map(|v| v / 257 * 257).collect(),
        width: 37,
        height: 29,
    };
    let mut fine = levels.clone();
    for (i, v) in fine.data.iter_mut().enumerate() {
        if *v < 65535 {
            *v += (i % 257) as u16;
        }
    }
    assert_ne!(fine.data, levels.data);
    let mut levels = levels;
    clahe(&mut levels);
    clahe(&mut fine);
    assert_eq!(fine.data, levels.data);
}

#[test]
fn contrast_stays_limited_in_a_flat_tile() {
    let f = IrFrame { data: vec![100 * 257; 40 * 40], width: 40, height: 40 };
    let curve = tile_mapping(&f, 0, 40, 0, 40);
    assert!(curve[0] <= 6);
    assert!(curve.windows(2).all(|w| w[1] - w[0] <= 6));
    // the one level that is there: the limit, its share of the excess, and one that was left over
    assert_eq!(curve[100] - curve[99], 5);
}

#[test]
fn crops_show_the_whole_face() {
    let data = (0..90 * 60).map(|i| i as u16).collect();
    let f = IrFrame { data, width: 90, height: 60 };
    let margin = Float32::from_bits(FACE_CROP_MARGIN_BITS);
    for b in [[0.3f32, 0.3, 0.5, 0.6], [0.0, 0.0, 0.2, 0.25], [0.75, 0.8, 1.0, 1.0]] {
        let crop = crop_to_face(&f, &face(b), margin);
        let (x1, y1) = (crop.data[0] as u32 % 90, crop.data[0] as u32 / 90);
        assert!(x1 <= (b[0] * 90.0).round() as u32);
        assert!(y1 <= (b[1] * 60.0).round() as u32);
        assert!(x1 + crop.width >= (b[2] * 90.0).round() as u32);
        assert!(y1 + crop.height >= (b[3] * 60.0).round() as u32);
        assert!(crop.width.abs_diff(crop.height) <= 1);
    }
}

#[test]
fn crops_differ_by_a_pixel_at_most() {
    let f = IrFrame { data: noise(97 * 61, 11), width: 97, height: 61 };
    let margin = Float32::from_bits(FACE_CROP_MARGIN_BITS);
    for i in 0..400u32 {
        let x = (i % 20) as f32 * 0.0517 - 0.1;
        let y = (i / 20) as f32 * 0.0493 - 0.1;
        let size = 0.05 + (i % 7) as f32 * 0.0331;
        for m in [margin, soft(0.0), soft(1.0)] {
            let crop = crop_to_face(&f, &face([x, y, x + size, y + 1.3 * size]), m);
            assert!(crop.width.abs_diff(crop.height) <= 1);
        }
    }
}

#[test]
fn crops_without_a_margin_show_the_face_up_to_a_pixel() {
    let data = (0..90 * 60).map(|i| i as u16).collect();
    let f = IrFrame { data, width: 90, height: 60 };
    for b in [[0.31f32, 0.33, 0.52, 0.61], [0.0, 0.0, 0.2, 0.25], [0.75, 0.8, 1.0, 1.0]] {
        let crop = crop_to_face(&f, &face(b), soft(0.0));
        let (x1, y1) = (crop.data[0] as u32 % 90, crop.data[0] as u32 / 90);
        assert!(x1 <= (b[0] * 90.0).round() as u32 + 1);
        assert!(y1 <= (b[1] * 60.0).round() as u32 + 1);
        assert!(x1 + crop.width + 1 >= (b[2] * 90.0).round() as u32);
        assert!(y1 + crop.height + 1 >= (b[3] * 60.0).round() as u32);
    }
}
