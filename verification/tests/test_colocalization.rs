use imgal::colocalization::neighborhood::{gather, Kernel, MAX_RADIUS};
use imgal::colocalization::saca::{
    default_config, flat_score, pixel_score, saca_2d, saca_3d, score_at, separated, PixelScore,
    SacaConfig,
};
use imgal::colocalization::significance::{
    is_significant, saca_significance_mask, z_score, z_scores,
};
use imgal::error::ImgalError;
use imgal::image::Image;
use imgal::statistics::kendall_tau::TauB;

/// A round blob of the given height around a centre, on a dark background.
fn blob(rows: usize, cols: usize, cr: f64, cc: f64, amp: f64, sigma_sq: f64) -> Image {
    let mut data: Vec<i64> = Vec::with_capacity(rows * cols);
    for r in 0..rows {
        for c in 0..cols {
            let d2 = (r as f64 - cr) * (r as f64 - cr) + (c as f64 - cc) * (c as f64 - cc);
            data.push((amp * (-d2 / (2.0 * sigma_sq)).exp()) as i64);
        }
    }
    Image::from_plane(rows, cols, data).unwrap()
}

fn ramp_a() -> Image {
    let data: Vec<i64> = (0..36).collect();
    Image::from_plane(6, 6, data).unwrap()
}

fn ramp_b() -> Image {
    let mut data: Vec<i64> = Vec::new();
    for r in 0..6i64 {
        for c in 0..6i64 {
            data.push((r * 7 + c * 3) % 11);
        }
    }
    Image::from_plane(6, 6, data).unwrap()
}

fn kernel(row: usize, col: usize, radius: usize, ta: i64, tb: i64) -> Kernel {
    Kernel { plane: 0, row, col, radius, threshold_a: ta, threshold_b: tb }
}

#[test]
fn image_constructors_check_the_length() {
    let img = Image::from_plane(2, 3, vec![1, 2, 3, 4, 5, 6]).unwrap();
    assert_eq!((img.planes, img.rows, img.cols), (1, 2, 3));
    assert_eq!(img.get(0, 1, 2), 6);
    assert_eq!(img.get(0, 0, 1), 2);
    match Image::from_plane(2, 3, vec![1, 2, 3]) {
        Err(ImgalError::InvalidArrayLength { expected, got, .. }) => {
            assert_eq!(expected, 6);
            assert_eq!(got, 3);
        }
        _ => panic!("a wrong length must be reported"),
    }
    let stack = Image::from_stack(2, 2, 2, vec![0, 1, 2, 3, 4, 5, 6, 7]).unwrap();
    assert_eq!(stack.get(1, 0, 1), 5);
    assert_eq!(stack.get(1, 1, 0), 6);
    match Image::from_stack(usize::MAX, 2, 2, vec![]) {
        Err(ImgalError::InvalidArrayLength { expected, got, .. }) => {
            assert_eq!(expected, usize::MAX);
            assert_eq!(got, 0);
        }
        _ => panic!("a wrong length must be reported"),
    }
    assert!(Image::from_stack(usize::MAX, 2, 0, vec![]).is_ok());
    assert!(img.same_shape(&img));
    assert!(!img.same_shape(&stack));
}

#[test]
fn gather_collects_a_disc_with_decaying_weights() {
    let a = Image::from_plane(3, 3, vec![1, 2, 3, 4, 5, 6, 7, 8, 9]).unwrap();
    let b = Image::from_plane(3, 3, vec![9, 8, 7, 6, 5, 4, 3, 2, 1]).unwrap();
    let (va, vb, w) = gather(&a, &b, &kernel(1, 1, 1, 0, 0));
    assert_eq!(va, vec![2, 4, 5, 6, 8]);
    assert_eq!(vb, vec![8, 6, 5, 4, 2]);
    assert_eq!(w, vec![1, 1, 2, 1, 1]);
    // radius two reaches the whole image: the corners are at squared distance two
    let (va, _, w) = gather(&a, &b, &kernel(1, 1, 2, 0, 0));
    assert_eq!(va, vec![1, 2, 3, 4, 5, 6, 7, 8, 9]);
    assert_eq!(w, vec![3, 4, 3, 4, 5, 4, 3, 4, 3]);
}

#[test]
fn gather_skips_what_lies_outside_the_image() {
    let a = Image::from_plane(3, 3, vec![1, 2, 3, 4, 5, 6, 7, 8, 9]).unwrap();
    let b = Image::from_plane(3, 3, vec![9, 8, 7, 6, 5, 4, 3, 2, 1]).unwrap();
    let (va, vb, w) = gather(&a, &b, &kernel(0, 0, 1, 0, 0));
    assert_eq!(va, vec![1, 2, 4]);
    assert_eq!(vb, vec![9, 8, 6]);
    assert_eq!(w, vec![2, 1, 1]);
    let (va, _, w) = gather(&a, &b, &kernel(2, 2, MAX_RADIUS, 0, 0));
    assert_eq!(va.len(), 9);
    // the centre has the greatest weight: the square of the radius and one
    assert_eq!(w[8], 2305);
}

#[test]
fn gather_gives_no_weight_below_a_threshold() {
    let a = Image::from_plane(3, 3, vec![1, 2, 3, 4, 5, 6, 7, 8, 9]).unwrap();
    let b = Image::from_plane(3, 3, vec![9, 8, 7, 6, 5, 4, 3, 2, 1]).unwrap();
    let (va, vb, w) = gather(&a, &b, &kernel(1, 1, 1, 3, 3));
    assert_eq!(va, vec![2, 4, 5, 6, 8]);
    assert_eq!(vb, vec![8, 6, 5, 4, 2]);
    assert_eq!(w, vec![0, 1, 2, 1, 0]);
}

#[test]
fn gather_collects_a_ball_in_a_stack() {
    let data: Vec<i64> = (0..27).collect();
    let a = Image::from_stack(3, 3, 3, data.clone()).unwrap();
    let k = Kernel { plane: 1, row: 1, col: 1, radius: 1, threshold_a: 0, threshold_b: 0 };
    let (va, _, w) = gather(&a, &a, &k);
    assert_eq!(va, vec![4, 10, 12, 13, 14, 16, 22]);
    assert_eq!(w, vec![1, 1, 1, 2, 1, 1, 1]);
}

#[test]
fn score_at_scores_one_neighbourhood() {
    let a = Image::from_plane(3, 3, vec![1, 2, 3, 4, 5, 6, 7, 8, 9]).unwrap();
    let b = Image::from_plane(3, 3, vec![9, 8, 7, 6, 5, 4, 3, 2, 1]).unwrap();
    let s = score_at(&a, &b, &kernel(1, 1, 1, 0, 0));
    assert_eq!(
        s,
        PixelScore {
            tau: TauB::Ratio { numerator: -28, untied_a: 28, untied_b: 28 },
            radius: 1,
            weight_sum: 6,
            weight_square_sum: 8,
        }
    );
    assert_eq!(z_score(&s), Some(-3_181_980));
    let s = score_at(&a, &a, &kernel(1, 1, 1, 0, 0));
    assert_eq!(s.tau, TauB::Ratio { numerator: 28, untied_a: 28, untied_b: 28 });
    assert_eq!(z_score(&s), Some(3_181_980));
}

#[test]
fn separated_compares_in_millionths() {
    let one = TauB::Ratio { numerator: 20, untied_a: 20, untied_b: 20 };
    let most = TauB::Ratio { numerator: 16, untied_a: 20, untied_b: 20 };
    // 1.0 against 0.8
    assert!(separated(one, most, 199_999));
    assert!(!separated(one, most, 200_000));
    assert!(!separated(most, one, 200_000));
    assert!(separated(TauB::Zero, one, 999_999));
    assert!(!separated(TauB::Zero, one, 1_000_000));
    // without a coefficient the growth goes on
    assert!(separated(TauB::Undefined, one, u32::MAX));
    assert!(separated(one, TauB::Undefined, u32::MAX));
}

#[test]
fn pixel_score_grows_until_the_coefficient_settles() {
    let a = ramp_a();
    let b = ramp_b();
    // a tolerance that nothing exceeds: the growth ends at the second radius
    let wide = SacaConfig { max_radius: 3, tolerance: 4_000_000 };
    assert_eq!(
        pixel_score(&a, &b, 0, 0, 0, 0, 0, &wide),
        PixelScore {
            tau: TauB::Ratio { numerator: 216, untied_a: 256, untied_b: 248 },
            radius: 2,
            weight_sum: 18,
            weight_square_sum: 68,
        }
    );
    assert_eq!(
        pixel_score(&a, &b, 0, 2, 3, 0, 0, &wide),
        PixelScore {
            tau: TauB::Ratio { numerator: -120, untied_a: 1240, untied_b: 1176 },
            radius: 2,
            weight_sum: 37,
            weight_square_sum: 129,
        }
    );
    // no tolerance: the growth goes on to the greatest radius
    let none = SacaConfig { max_radius: 3, tolerance: 0 };
    assert_eq!(
        pixel_score(&a, &b, 0, 2, 3, 0, 0, &none),
        PixelScore {
            tau: TauB::Ratio { numerator: -1704, untied_a: 22062, untied_b: 20828 },
            radius: 3,
            weight_sum: 152,
            weight_square_sum: 1042,
        }
    );
    // a greatest radius of one leaves nothing to grow
    let one = SacaConfig { max_radius: 1, tolerance: 0 };
    assert_eq!(pixel_score(&a, &b, 0, 2, 3, 0, 0, &one).radius, 1);
    // by position in the data
    assert_eq!(flat_score(&a, &b, 15, 0, 0, &none), pixel_score(&a, &b, 0, 2, 3, 0, 0, &none));
}

#[test]
fn saca_2d_scores_every_sample_in_row_major_order() {
    let a = ramp_a();
    let b = ramp_b();
    let cfg = SacaConfig { max_radius: 3, tolerance: 50_000 };
    let field = saca_2d(&a, &b, 0, 0, &cfg, false).unwrap();
    assert_eq!(field.len(), 36);
    let z = z_scores(&field);
    assert_eq!(z[0], Some(1_995_120));
    assert_eq!(z[2 * 6 + 3], Some(-561_460));
    assert_eq!(z[5 * 6 + 5], Some(484_866));
    for r in 0..6 {
        for c in 0..6 {
            assert_eq!(field[r * 6 + c], pixel_score(&a, &b, 0, r, c, 0, 0, &cfg));
        }
    }
}

#[test]
fn saca_2d_shape_validation() {
    let a = Image::from_plane(10, 10, vec![0; 100]).unwrap();
    let b = Image::from_plane(10, 12, vec![0; 120]).unwrap();
    let cfg = SacaConfig { max_radius: 3, tolerance: 50_000 };
    for parallel in [false, true] {
        match saca_2d(&a, &b, 0, 0, &cfg, parallel) {
            Err(ImgalError::MismatchedArrayShapes { a_shape, b_shape, .. }) => {
                assert_eq!(a_shape, vec![10, 10]);
                assert_eq!(b_shape, vec![10, 12]);
            }
            _ => panic!("a shape mismatch must be reported"),
        }
    }
}

#[test]
fn saca_3d_shape_validation() {
    let a = Image::from_stack(2, 3, 4, vec![0; 24]).unwrap();
    let b = Image::from_stack(3, 2, 4, vec![0; 24]).unwrap();
    let cfg = SacaConfig { max_radius: 3, tolerance: 50_000 };
    match saca_3d(&a, &b, 0, 0, &cfg, false) {
        Err(ImgalError::MismatchedArrayShapes { a_shape, b_shape, .. }) => {
            assert_eq!(a_shape, vec![2, 3, 4]);
            assert_eq!(b_shape, vec![3, 2, 4]);
        }
        _ => panic!("a shape mismatch must be reported"),
    }
}

#[test]
fn saca_rejects_a_radius_out_of_range() {
    let a = ramp_a();
    let zero = SacaConfig { max_radius: 0, tolerance: 0 };
    match saca_2d(&a, &a, 0, 0, &zero, false) {
        Err(ImgalError::InvalidParameterValueEqual { value, .. }) => assert_eq!(value, 0),
        _ => panic!("a radius of zero must be reported"),
    }
    let far = SacaConfig { max_radius: MAX_RADIUS + 1, tolerance: 0 };
    match saca_2d(&a, &a, 0, 0, &far, true) {
        Err(ImgalError::InvalidParameterValueGreater { value, .. }) => {
            assert_eq!(value, MAX_RADIUS)
        }
        _ => panic!("too great a radius must be reported"),
    }
    let most = SacaConfig { max_radius: MAX_RADIUS, tolerance: u32::MAX };
    assert!(saca_2d(&a, &a, 0, 0, &most, false).is_ok());
}

#[test]
fn saca_2d_is_the_same_in_parallel_and_in_sequence() {
    let a = blob(32, 32, 16.0, 16.0, 1000.0, 16.0);
    let b = blob(32, 32, 16.0, 19.0, 1000.0, 16.0);
    let cfg = SacaConfig { max_radius: 4, tolerance: 20_000 };
    let par = saca_2d(&a, &b, 50, 50, &cfg, true).unwrap();
    let seq = saca_2d(&a, &b, 50, 50, &cfg, false).unwrap();
    assert_eq!(par.len(), 32 * 32);
    assert_eq!(par, seq);
    assert_eq!(z_scores(&par), z_scores(&seq));
}

#[test]
fn saca_3d_is_the_same_in_parallel_and_in_sequence() {
    let mut da: Vec<i64> = Vec::new();
    let mut db: Vec<i64> = Vec::new();
    for p in 0..4i64 {
        for r in 0..5i64 {
            for c in 0..6i64 {
                da.push((p * 31 + r * 17 + c * 5) % 23);
                db.push((p * 7 + r * 3 + c * 11) % 19);
            }
        }
    }
    let a = Image::from_stack(4, 5, 6, da).unwrap();
    let b = Image::from_stack(4, 5, 6, db).unwrap();
    let cfg = SacaConfig { max_radius: 2, tolerance: 100_000 };
    let par = saca_3d(&a, &b, 3, 3, &cfg, true).unwrap();
    let seq = saca_3d(&a, &b, 3, 3, &cfg, false).unwrap();
    assert_eq!(par.len(), 120);
    assert_eq!(par, seq);
    // the sample at plane 2, row 3, column 4
    let k = Kernel { plane: 2, row: 3, col: 4, radius: seq[2 * 30 + 3 * 6 + 4].radius,
        threshold_a: 3, threshold_b: 3 };
    assert_eq!(seq[2 * 30 + 3 * 6 + 4], score_at(&a, &b, &k));
}

#[test]
fn saca_2d_colocalization_sanity() {
    let cfg = SacaConfig { max_radius: 4, tolerance: 20_000 };
    // the same blob in both images: strongly positive wherever there is signal
    let a = blob(32, 32, 16.0, 16.0, 1000.0, 16.0);
    let z = z_scores(&saca_2d(&a, &a, 50, 50, &cfg, false).unwrap());
    assert_eq!(z[16 * 32 + 16], Some(4_886_502));
    assert_eq!(z[0], None);
    for v in z.iter() {
        if let Some(v) = v {
            assert!(*v >= 1_500_000);
        }
    }
    // a blob against its negative: negative wherever there is signal
    let inverse =
        Image::from_plane(32, 32, a.data.iter().map(|v| 1000 - *v).collect()).unwrap();
    let z = z_scores(&saca_2d(&a, &inverse, 50, 50, &cfg, false).unwrap());
    assert!(z[16 * 32 + 16].unwrap() <= -3_000_000);
    for v in z.iter() {
        if let Some(v) = v {
            assert!(*v <= 0);
        }
    }
    // two blobs far apart: no sample has a positive score
    let c = blob(32, 32, 6.0, 6.0, 1000.0, 9.0);
    let d = blob(32, 32, 25.0, 25.0, 1000.0, 9.0);
    let z = z_scores(&saca_2d(&c, &d, 50, 50, &cfg, true).unwrap());
    for v in z.iter() {
        assert!(v.unwrap_or(0) <= 0);
    }
}

#[test]
fn z_score_exact_values() {
    // five samples of equal weight in perfect agreement
    let s = PixelScore {
        tau: TauB::Ratio { numerator: 20, untied_a: 20, untied_b: 20 },
        radius: 1,
        weight_sum: 5,
        weight_square_sum: 5,
    };
    // 1.5 * 1.0 * sqrt(5), the root rounded down to 2.236067
    assert_eq!(z_score(&s), Some(3_354_100));
    let zero = PixelScore { tau: TauB::Zero, radius: 1, weight_sum: 5, weight_square_sum: 5 };
    assert_eq!(z_score(&zero), Some(0));
    let undefined =
        PixelScore { tau: TauB::Undefined, radius: 1, weight_sum: 5, weight_square_sum: 5 };
    assert_eq!(z_score(&undefined), None);
    let empty = PixelScore { tau: TauB::Zero, radius: 1, weight_sum: 0, weight_square_sum: 0 };
    assert_eq!(z_score(&empty), None);
}

#[test]
fn significance_mask_marks_only_the_extreme_sample() {
    // a hundred samples, one of them at z = 10; at alpha = 0.05 the critical
    // value is the normal quantile at 1 - 0.05 / 200, which is 3.4808
    let critical: u64 = 3_480_800;
    let mut z: Vec<Option<i128>> = vec![Some(0); 100];
    z[37] = Some(10_000_000);
    for parallel in [false, true] {
        let mask = saca_significance_mask(&z, critical, parallel);
        assert_eq!(mask.len(), 100);
        for (j, m) in mask.iter().enumerate() {
            assert_eq!(*m, j == 37);
        }
    }
}

#[test]
fn significance_mask_is_false_without_a_score() {
    let z: Vec<Option<i128>> =
        vec![None, Some(-5_000_000), Some(5_000_000), Some(2_000_000), Some(-2_000_000), None];
    for parallel in [false, true] {
        let mask = saca_significance_mask(&z, 2_000_000, parallel);
        assert_eq!(mask, vec![false, true, true, false, false, false]);
    }
    assert!(!is_significant(None, 0));
    assert!(is_significant(Some(1), 0));
    assert!(is_significant(Some(-1), 0));
    assert!(!is_significant(Some(0), 0));
    assert!(!is_significant(Some(i128::MAX), u64::MAX) || i128::MAX > u64::MAX as i128);
    let none: Vec<Option<i128>> = vec![];
    assert_eq!(saca_significance_mask(&none, 1, true), Vec::<bool>::new());
}

#[test]
fn default_config_is_a_radius_of_eight_and_a_fiftieth() {
    assert_eq!(default_config(), SacaConfig { max_radius: 8, tolerance: 20_000 });
    let a = ramp_a();
    assert!(saca_2d(&a, &a, 0, 0, &default_config(), false).is_ok());
}

#[test]
fn pixel_score_reaches_the_greatest_radius() {
    // without a coefficient the growth goes on to the end
    let a = Image::from_plane(3, 3, vec![4; 9]).unwrap();
    let most = SacaConfig { max_radius: MAX_RADIUS, tolerance: 0 };
    let s = pixel_score(&a, &a, 0, 1, 1, 0, 0, &most);
    assert_eq!(s.radius, MAX_RADIUS);
    assert_eq!(s.tau, TauB::Undefined);
    // nine samples, the centre with the weight 2305
    assert_eq!(s.weight_sum, 2305 + 4 * 2304 + 4 * 2303);
    assert_eq!(z_score(&s), None);
}
