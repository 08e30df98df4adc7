use face_auth_core::capture::IrFrame;
use face_auth_core::detector::{
    decode_box, frame_mean, frame_variance, normalize_for_detector, preprocess_for_detector, priors,
    raw_frame_has_content, size_exponents, BoxDelta, FaceBox, FaceDetector, Prior,
};
use face_auth_core::error::FaceAuthError;
use face_auth_core::float32::Float32;
use face_auth_core::inference::Backend;

fn soft(x: f32) -> Float32 {
    Float32::from_bits(x.to_bits())
}

fn hard(x: Float32) -> f32 {
    f32::from_bits(x.to_bits())
}

fn decode(prior: &Prior, d: &[f32]) -> FaceBox {
    let delta = BoxDelta { dx: soft(d[0]), dy: soft(d[1]), dw: soft(d[2]), dh: soft(d[3]) };
    let (ew, eh) = size_exponents(&delta);
    decode_box(prior, &delta, (soft(hard(ew).exp()), soft(hard(eh).exp())))
}

#[test]
fn zero_delta_reproduces_the_anchor_itself() {
    let p = priors()[0];
    let b = decode(&p, &[0.0, 0.0, 0.0, 0.0]);
    assert!((hard(b.x1) - (hard(p.cx) - hard(p.w) / 2.0)).abs() < 1e-6);
    assert!((hard(b.x2) - (hard(p.cx) + hard(p.w) / 2.0)).abs() < 1e-6);
}

#[test]
fn prior_count_is_4420() {
    assert_eq!(priors().len(), 4420);
}

#[test]
fn decoded_box_for_small_delta_stays_well_ordered() {
    let p = priors()[2000];
    let b = decode(&p, &[0.1, -0.1, 0.05, -0.05]);
    assert!(hard(b.x1) < hard(b.x2));
    assert!(hard(b.y1) < hard(b.y2));
}

#[test]
fn priors_are_the_anchor_grid() {
    let feature_w = [40usize, 20, 10, 5];
    let feature_h = [30usize, 15, 8, 4];
    let min_boxes: Vec<Vec<f32>> = vec![
        vec![10.0, 16.0, 24.0],
        vec![32.0, 48.0],
        vec![64.0, 96.0],
        vec![128.0, 192.0, 256.0],
    ];
    let all = priors();
    let mut k = 0;
    for level in 0..4 {
        for j in 0..feature_h[level] {
            for i in 0..feature_w[level] {
                for &size in &min_boxes[level] {
                    let p = all[k];
                    assert_eq!(hard(p.cx), (i as f32 + 0.5) / feature_w[level] as f32);
                    assert_eq!(hard(p.cy), (j as f32 + 0.5) / feature_h[level] as f32);
                    assert_eq!(hard(p.w), size / 320.0);
                    assert_eq!(hard(p.h), size / 240.0);
                    k += 1;
                }
            }
        }
    }
    assert_eq!(k, 4420);
}

#[test]
fn anchors_are_centered_in_the_picture() {
    for p in priors() {
        assert!(hard(p.cx) > 0.0 && hard(p.cx) < 1.0);
        assert!(hard(p.cy) > 0.0 && hard(p.cy) < 1.0);
        assert!(hard(p.w) > 0.0 && hard(p.h) > 0.0);
    }
}

#[test]
fn decoding_agrees_with_the_formula() {
    let p = priors()[4000];
    let d = [0.7f32, -1.3, 0.4, -0.9];
    let b = decode(&p, &d);
    let cx = d[0] * 0.1 * hard(p.w) + hard(p.cx);
    let cy = d[1] * 0.1 * hard(p.h) + hard(p.cy);
    let w = (d[2] * 0.2).exp() * hard(p.w);
    let h = (d[3] * 0.2).exp() * hard(p.h);
    assert_eq!(hard(b.x1), cx - w / 2.0);
    assert_eq!(hard(b.y1), cy - h / 2.0);
    assert_eq!(hard(b.x2), cx + w / 2.0);
    assert_eq!(hard(b.y2), cy + h / 2.0);
}

fn scores(face: &[f32]) -> Vec<Float32> {
    let mut v = Vec::new();
    for &f in face {
        v.push(soft(1.0 - f));
        v.push(soft(f));
    }
    v
}

#[test]
fn the_first_best_score_wins() {
    let detector = FaceDetector::new(soft(0.5), "tract").unwrap();
    assert_eq!(detector.backend, Backend::Tract);
    let boxes: Vec<Float32> = (0..20).map(|i| soft(i as f32)).collect();
    let found = detector.detect(&scores(&[0.1, 0.9, f32::NAN, 0.9, 0.3]), &boxes).unwrap();
    assert_eq!(found.prior, priors()[1]);
    assert_eq!(hard(found.delta.dx), 4.0);
    assert_eq!(hard(found.delta.dy), 5.0);
    assert_eq!(hard(found.delta.dw), 6.0);
    assert_eq!(hard(found.delta.dh), 7.0);
}

#[test]
fn scores_below_the_threshold_are_no_face() {
    let boxes: Vec<Float32> = (0..12).map(|i| soft(i as f32)).collect();
    let detector = FaceDetector::new(soft(0.5), "").unwrap();
    assert!(detector.detect(&scores(&[0.1, 0.49, 0.3]), &boxes).is_none());
    assert!(detector.detect(&scores(&[0.1, 0.5, 0.3]), &boxes).is_some());
    assert!(detector.detect(&vec![], &boxes).is_none());
    let eager = FaceDetector::new(soft(0.0), "").unwrap();
    assert_eq!(eager.detect(&vec![], &boxes).unwrap().prior, priors()[0]);
}

#[test]
fn openvino_is_not_part_of_this_build() {
    assert!(matches!(
        FaceDetector::new(soft(0.5), "openvino"),
        Err(FaceAuthError::BackendUnavailable)
    ));
}

fn noise(n: usize, seed: u64) -> Vec<u16> {
    let mut s = seed;
    (0..n)
        .map(|_| {
            s = s.wrapping_mul(6364136223846793005).wrapping_add(1442695040888963407);
            ((s >> 40) as u16 & 0xff) * 257
        })
        .collect()
}

#[test]
fn mean_and_variance_agree_with_the_formulas() {
    for (n, seed) in [(1usize, 1u64), (2, 2), (3, 3), (7, 4), (1000, 5), (4097, 6), (129600, 7)] {
        let data = noise(n, seed);
        let len = data.len() as f64;
        let sum: f64 = data.iter().map(|&v| v as f64).sum();
        let mean = (sum / len) as f32;
        let variance = data
            .iter()
            .map(|&v| {
                let d = (v as f32) - mean;
                d * d
            })
            .sum::<f32>()
            / data.len() as f32;
        let frame = IrFrame { data, width: n as u32, height: 1 };
        assert_eq!(hard(frame_mean(&frame)), mean);
        assert_eq!(hard(frame_variance(&frame)), variance);
        assert_eq!(raw_frame_has_content(&frame), variance > 100_000.0);
    }
}

#[test]
fn blank_and_empty_frames_have_no_content() {
    let empty = IrFrame { data: vec![], width: 0, height: 0 };
    assert_eq!(hard(frame_mean(&empty)), 0.0);
    assert_eq!(hard(frame_variance(&empty)), 0.0);
    assert!(!raw_frame_has_content(&empty));
    for level in [0u16, 1, 12345, 65535] {
        let blank = IrFrame { data: vec![level; 1001], width: 7, height: 143 };
        assert_eq!(hard(frame_mean(&blank)), level as f32);
        assert_eq!(hard(frame_variance(&blank)), 0.0);
        assert!(!raw_frame_has_content(&blank));
    }
    let lively = IrFrame { data: vec![0, 65535, 0, 65535], width: 2, height: 2 };
    assert!(raw_frame_has_content(&lively));
}

#[test]
fn detector_input_is_normalized_plane_by_plane() {
    let rgb: Vec<u8> = (0..230400usize).map(|i| (i * 7 % 256) as u8).collect();
    let input = normalize_for_detector(&rgb);
    assert_eq!(input.len(), 230400);
    for (c, y, x) in [(0usize, 0usize, 0usize), (1, 0, 5), (2, 239, 319), (0, 100, 200)] {
        let pixel = rgb[3 * (y * 320 + x) + c];
        assert_eq!(hard(input[c * 76800 + y * 320 + x]), (pixel as f32 - 127.0) / 128.0);
    }
}

#[test]
fn detector_input_of_a_frame_of_the_right_size_is_not_resampled() {
    let data: Vec<u16> = (0..76800u32).map(|i| (i * 31 % 65536) as u16).collect();
    let frame = IrFrame { data: data.clone(), width: 320, height: 240 };
    let input = preprocess_for_detector(&frame);
    for i in [0usize, 1, 777, 40000, 76799] {
        let level = ((data[i] as f32 * (1.0 / 65535.0)) * 255.0).round();
        for c in 0..3 {
            assert_eq!(hard(input[c * 76800 + i]), (level - 127.0) / 128.0);
        }
    }
}

#[test]
fn detector_input_agrees_with_the_image_library() {
    let data = noise(60 * 40, 11);
    let frame = IrFrame { data: data.clone(), width: 60, height: 40 };
    let buffer: image::ImageBuffer<image::Luma<u16>, Vec<u16>> =
        image::ImageBuffer::from_raw(60, 40, data).unwrap();
    let rgb = image::DynamicImage::ImageLuma16(buffer)
        .resize_exact(320, 240, image::imageops::FilterType::Lanczos3)
        .to_rgb8();
    let input = preprocess_for_detector(&frame);
    for y in 0..240usize {
        for x in 0..320usize {
            let p = rgb.get_pixel(x as u32, y as u32);
            for c in 0..3 {
                assert_eq!(
                    hard(input[c * 76800 + y * 320 + x]),
                    (p.0[c] as f32 - 127.0) / 128.0
                );
            }
        }
    }
}

#[test]
fn a_frame_without_pixels_is_black_to_the_detector() {
    let frame = IrFrame { data: vec![], width: 0, height: 0 };
    let detector = FaceDetector::new(soft(0.5), "tract").unwrap();
    let input = detector.input(&frame);
    assert!(input.iter().all(|&v| hard(v) == -127.0 / 128.0));
}

#[test]
fn moderate_deltas_give_boxes_in_strict_order() {
    for p in priors() {
        for d in [[0.1f32, -0.1, 0.05, -0.05], [4096.0, -4096.0, 3.4, -3.4]] {
            let b = decode(&p, &d);
            assert!(hard(b.x1) < hard(b.x2));
            assert!(hard(b.y1) < hard(b.y2));
        }
    }
}
