use imgal::error::ImgalError;
use imgal::statistics::kendall_tau::{weighted_kendall_tau_b, TauB};
use imgal::statistics::min_max::{max, min, min_max};
use imgal::statistics::rank::rank_with_weights;
use imgal::statistics::sort::{total_weight, weighted_merge_sort_mut};
use imgal::statistics::sum::sum;
use imgal::threshold::manual_mask;

/// The coefficient as a floating-point number, clamped to [-1, 1].
fn tau_value(tau: TauB) -> f64 {
    match tau {
        TauB::Undefined => f64::NAN,
        TauB::Zero => 0.0,
        TauB::Ratio { numerator, untied_a, untied_b } => {
            let denom = ((untied_a as f64) * (untied_b as f64)).sqrt();
            let tau = numerator as f64 / denom;
            if tau >= 1.0 {
                1.0
            } else if tau <= -1.0 {
                -1.0
            } else {
                tau
            }
        }
    }
}

#[test]
fn statistics_weighted_merge_sort_mut() {
    // weights in hundredths: 0.51, 12.83, 4.24, 9.25, 0.32
    let mut d: Vec<i64> = vec![3, 10, 87, 22, 5];
    let mut w: Vec<u64> = vec![51, 1283, 424, 925, 32];

    let s = weighted_merge_sort_mut(&mut d, &mut w).unwrap();

    assert_eq!(d, vec![3, 5, 10, 22, 87]);
    assert_eq!(w, vec![51, 32, 1283, 925, 424]);
    // the count is in ten-thousandths
    assert_eq!(s, 476424);
    assert!((s as f64 / 10000.0 - 47.64239999999998).abs() < 1e-9);
}

#[test]
fn statistics_weighted_merge_sort_mut_len_4() {
    // the sorted output ends in the caller's vectors without a final copy
    let mut d: Vec<i64> = vec![8, 3, 1, 7];
    let mut w: Vec<u64> = vec![1, 1, 1, 1];
    let _s = weighted_merge_sort_mut(&mut d, &mut w).unwrap();
    assert_eq!(d, vec![1, 3, 7, 8]);
    assert_eq!(w, vec![1, 1, 1, 1]);
}

#[test]
fn statistics_weighted_merge_sort_mut_len_8() {
    // the sorted output ends in the buffers and is copied back
    let mut d: Vec<i64> = vec![64, 34, 25, 12, 22, 11, 90, 45];
    let mut w: Vec<u64> = vec![1, 2, 3, 4, 5, 6, 7, 8];
    let _s = weighted_merge_sort_mut(&mut d, &mut w).unwrap();
    assert_eq!(d, vec![11, 12, 22, 25, 34, 45, 64, 90]);
    assert_eq!(w, vec![6, 4, 5, 3, 2, 8, 1, 7]);
}

#[test]
fn weighted_merge_sort_mut_length_mismatch() {
    let mut d: Vec<i64> = vec![1, 2, 3, 4, 5];
    let mut w: Vec<u64> = vec![1, 1, 1, 1];
    let r = weighted_merge_sort_mut(&mut d, &mut w);
    match r {
        Err(ImgalError::MismatchedArrayLengths { a_arr_len, b_arr_len, .. }) => {
            assert_eq!(a_arr_len, 5);
            assert_eq!(b_arr_len, 4);
        }
        _ => panic!("a length mismatch must be reported"),
    }
    assert_eq!(d, vec![1, 2, 3, 4, 5]);
    assert_eq!(w, vec![1, 1, 1, 1]);
}

#[test]
fn weighted_merge_sort_mut_empty_and_single() {
    let mut d: Vec<i64> = vec![];
    let mut w: Vec<u64> = vec![];
    assert_eq!(weighted_merge_sort_mut(&mut d, &mut w).unwrap(), 0);
    let mut d: Vec<i64> = vec![7];
    let mut w: Vec<u64> = vec![9];
    assert_eq!(weighted_merge_sort_mut(&mut d, &mut w).unwrap(), 0);
    assert_eq!(d, vec![7]);
    assert_eq!(w, vec![9]);
}

#[test]
fn weighted_merge_sort_mut_unit_weights_count_inversions() {
    // the inversions of 5 4 3 2 1 are all ten pairs
    let mut d: Vec<i64> = vec![5, 4, 3, 2, 1];
    let mut w: Vec<u64> = vec![1; 5];
    assert_eq!(weighted_merge_sort_mut(&mut d, &mut w).unwrap(), 10);
    assert_eq!(d, vec![1, 2, 3, 4, 5]);
    // 2 3 1: the pairs (2,1) and (3,1)
    let mut d: Vec<i64> = vec![2, 3, 1];
    let mut w: Vec<u64> = vec![1; 3];
    assert_eq!(weighted_merge_sort_mut(&mut d, &mut w).unwrap(), 2);
}

#[test]
fn weighted_merge_sort_mut_keeps_equal_values_in_order() {
    let mut d: Vec<i64> = vec![2, 1, 2, 1, 2, 1, 2];
    let mut w: Vec<u64> = vec![10, 20, 30, 40, 50, 60, 70];
    let s = weighted_merge_sort_mut(&mut d, &mut w).unwrap();
    assert_eq!(d, vec![1, 1, 1, 2, 2, 2, 2]);
    assert_eq!(w, vec![20, 40, 60, 10, 30, 50, 70]);
    // 10*(20+40+60) + 30*(40+60) + 50*60
    assert_eq!(s, 1200 + 3000 + 3000);
}

#[test]
fn weighted_merge_sort_mut_large_weights() {
    let big: u64 = u64::MAX / 2;
    let mut d: Vec<i64> = vec![i64::MAX, i64::MIN];
    let mut w: Vec<u64> = vec![big, big];
    let s = weighted_merge_sort_mut(&mut d, &mut w).unwrap();
    assert_eq!(s, (big as u128) * (big as u128));
    assert_eq!(d, vec![i64::MIN, i64::MAX]);
}

#[test]
fn total_weight_sums_or_reports_overflow() {
    assert_eq!(total_weight(&vec![]), Some(0));
    assert_eq!(total_weight(&vec![1, 2, 3]), Some(6));
    assert_eq!(total_weight(&vec![u64::MAX, 0]), Some(u64::MAX));
    assert_eq!(total_weight(&vec![u64::MAX, 1]), None);
}

#[test]
fn statistics_weighted_kendall_tau_b_correlation_perfect_positive() {
    let a: Vec<i64> = vec![1, 2, 3, 4, 5];
    let b: Vec<i64> = vec![1, 2, 3, 4, 5];
    let w: Vec<u64> = vec![1; 5];
    let tau = tau_value(weighted_kendall_tau_b(&a, &b, &w).unwrap());
    assert!((tau - 1.0).abs() < 1e-12);
}

#[test]
fn statistics_weighted_kendall_tau_b_correlation_one_disagreement() {
    let a: Vec<i64> = vec![1, 2, 3, 4, 5];
    let b: Vec<i64> = vec![1, 2, 3, 5, 4];
    let w: Vec<u64> = vec![1; 5];
    let tau = tau_value(weighted_kendall_tau_b(&a, &b, &w).unwrap());
    assert!((tau - 0.8).abs() < 1e-12);
}

#[test]
fn statistics_weighted_kendall_tau_b_correlation_perfect_negative() {
    let a: Vec<i64> = vec![1, 2, 3, 4, 5];
    let b: Vec<i64> = vec![5, 4, 3, 2, 1];
    let w: Vec<u64> = vec![1; 5];
    let tau = tau_value(weighted_kendall_tau_b(&a, &b, &w).unwrap());
    assert!((tau + 1.0).abs() < 1e-12);
}

#[test]
fn statistics_weighted_kendall_tau_b_correlation_all_ties_returns_nan() {
    let a: Vec<i64> = vec![2, 2, 2, 2];
    let b: Vec<i64> = vec![3, 3, 3, 3];
    let w: Vec<u64> = vec![1; 4];
    let exact = weighted_kendall_tau_b(&a, &b, &w).unwrap();
    assert_eq!(exact, TauB::Undefined);
    let tau = tau_value(exact);

    assert!(tau.is_nan());
}

#[test]
fn statistics_weighted_kendall_tau_b_correlation_order_invariant() {
    let a_no_ties_fwd: Vec<i64> = vec![10, 21, 22, 23, 30, 40, 50];
    let a_no_ties_rev: Vec<i64> = vec![50, 40, 30, 23, 22, 21, 10];
    let a_with_ties_fwd: Vec<i64> = vec![10, 20, 20, 20, 30, 40, 50];
    let a_with_ties_rev: Vec<i64> = vec![50, 40, 30, 20, 20, 20, 10];
    let b_no_ties_fwd: Vec<i64> = vec![5, 3, 8, 6, 2, 9, 10];
    let b_no_ties_rev: Vec<i64> = vec![10, 9, 2, 6, 8, 3, 5];
    let w: Vec<u64> = vec![1; 7];
    let tau_no_ties_fwd =
        tau_value(weighted_kendall_tau_b(&a_no_ties_fwd, &b_no_ties_fwd, &w).unwrap());
    let tau_no_ties_rev =
        tau_value(weighted_kendall_tau_b(&a_no_ties_rev, &b_no_ties_rev, &w).unwrap());
    let tau_with_ties_fwd =
        tau_value(weighted_kendall_tau_b(&a_with_ties_fwd, &b_no_ties_fwd, &w).unwrap());
    let tau_with_ties_rev =
        tau_value(weighted_kendall_tau_b(&a_with_ties_rev, &b_no_ties_rev, &w).unwrap());
    assert_eq!(tau_no_ties_fwd, 0.42857142857142855);
    assert_eq!(tau_no_ties_rev, 0.42857142857142855);
    assert_eq!(tau_with_ties_fwd, 0.41147559989891175);
    assert_eq!(tau_with_ties_rev, 0.41147559989891175);
}

#[test]
fn weighted_kendall_tau_b_exact_parts() {
    // one adjacent swap among five: nine concordant pairs and one discordant
    let a: Vec<i64> = vec![1, 2, 3, 4, 5];
    let b: Vec<i64> = vec![1, 2, 3, 5, 4];
    let w: Vec<u64> = vec![1; 5];
    assert_eq!(
        weighted_kendall_tau_b(&a, &b, &w).unwrap(),
        TauB::Ratio { numerator: 16, untied_a: 20, untied_b: 20 }
    );
    // weights 1 2 3 on a reversed order: every pair is discordant
    let a: Vec<i64> = vec![1, 2, 3];
    let b: Vec<i64> = vec![9, 8, 7];
    let w: Vec<u64> = vec![1, 2, 3];
    // pair mass 1*2 + 1*3 + 2*3 = 11
    assert_eq!(
        weighted_kendall_tau_b(&a, &b, &w).unwrap(),
        TauB::Ratio { numerator: -22, untied_a: 22, untied_b: 22 }
    );
}

#[test]
fn weighted_kendall_tau_b_degenerate_cases() {
    let w1: Vec<u64> = vec![1];
    assert_eq!(weighted_kendall_tau_b(&vec![], &vec![], &vec![]).unwrap(), TauB::Zero);
    assert_eq!(weighted_kendall_tau_b(&vec![4], &vec![2], &w1).unwrap(), TauB::Zero);
    // one variable constant
    let a: Vec<i64> = vec![1, 1, 1];
    let b: Vec<i64> = vec![1, 2, 3];
    let w: Vec<u64> = vec![1; 3];
    assert_eq!(weighted_kendall_tau_b(&a, &b, &w).unwrap(), TauB::Zero);
    assert_eq!(weighted_kendall_tau_b(&b, &a, &w).unwrap(), TauB::Zero);
    // no weight at all
    let w0: Vec<u64> = vec![0; 3];
    assert_eq!(weighted_kendall_tau_b(&b, &b, &w0).unwrap(), TauB::Undefined);
}

#[test]
fn weighted_kendall_tau_b_ties_in_both() {
    // (1,1) twice, then (2,2): the tied pair counts for neither side
    let a: Vec<i64> = vec![1, 1, 2];
    let b: Vec<i64> = vec![1, 1, 2];
    let w: Vec<u64> = vec![1; 3];
    assert_eq!(
        weighted_kendall_tau_b(&a, &b, &w).unwrap(),
        TauB::Ratio { numerator: 4, untied_a: 4, untied_b: 4 }
    );
}

#[test]
fn weighted_kendall_tau_b_length_mismatch() {
    let a: Vec<i64> = vec![1, 2, 3];
    let b: Vec<i64> = vec![1, 2];
    let w: Vec<u64> = vec![1; 3];
    match weighted_kendall_tau_b(&a, &b, &w) {
        Err(ImgalError::MismatchedArrayLengths { a_arr_len, b_arr_len, .. }) => {
            assert_eq!(a_arr_len, 3);
            assert_eq!(b_arr_len, 2);
        }
        _ => panic!("a length mismatch must be reported"),
    }
    let w4: Vec<u64> = vec![1; 4];
    assert!(weighted_kendall_tau_b(&a, &a, &w4).is_err());
}

#[test]
fn rank_with_weights_shares_ranks_among_ties() {
    let d: Vec<i64> = vec![10, 20, 20, 20, 30];
    let w: Vec<u64> = vec![1, 2, 3, 4, 5];
    let (ranks, tie_corr) = rank_with_weights(&d, &w);
    // the ranks 1, 3, 3, 3 and 5, doubled
    assert_eq!(ranks, vec![2, 6, 6, 6, 10]);
    // twice 2*3 + 2*4 + 3*4
    assert_eq!(tie_corr, 52);
}

#[test]
fn rank_with_weights_follows_the_values_not_the_positions() {
    let d: Vec<i64> = vec![50, -3, 50, 7, -3, 7, 7, 0];
    let w: Vec<u64> = vec![1; 8];
    let (ranks, tie_corr) = rank_with_weights(&d, &w);
    // sorted: -3 -3 0 7 7 7 50 50
    // the ranks 7.5, 1.5, 7.5, 5, 1.5, 5, 5 and 3, doubled
    assert_eq!(ranks, vec![15, 3, 15, 10, 3, 10, 10, 6]);
    // pairs of equal values: one, three and one
    assert_eq!(tie_corr, 10);
    let (ranks, tie_corr) = rank_with_weights(&vec![], &vec![]);
    assert_eq!(ranks, Vec::<u64>::new());
    assert_eq!(tie_corr, 0);
    let (ranks, tie_corr) = rank_with_weights(&vec![4, 2, 9], &vec![5, 6, 7]);
    assert_eq!(ranks, vec![4, 2, 6]);
    assert_eq!(tie_corr, 0);
}

#[test]
fn min_max_of_samples() {
    let d: Vec<i64> = vec![1, 5, 10, 20, 4, -7, 20];
    assert_eq!(min_max(&d), (-7, 20));
    assert_eq!(min(&d), -7);
    assert_eq!(max(&d), 20);
    assert_eq!(min_max(&vec![3]), (3, 3));
    assert_eq!(min_max(&vec![]), (0, 0));
    assert_eq!(max(&vec![]), 0);
    assert_eq!(min_max(&vec![i64::MAX, i64::MIN]), (i64::MIN, i64::MAX));
}

#[test]
fn sum_of_samples() {
    assert_eq!(sum(&vec![2, 5, 10, 23]), 40);
    assert_eq!(sum(&vec![]), 0);
    assert_eq!(sum(&vec![i64::MAX, i64::MAX, i64::MAX]), 3 * (i64::MAX as i128));
    assert_eq!(sum(&vec![i64::MIN, i64::MIN]), 2 * (i64::MIN as i128));
    assert_eq!(sum(&vec![-4, 4, 1]), 1);
}

#[test]
fn manual_mask_marks_what_is_above_the_threshold() {
    let d: Vec<i64> = vec![140, 13, 160, 11, 141];
    assert_eq!(manual_mask(&d, 140), vec![false, false, true, false, true]);
    assert_eq!(manual_mask(&vec![], 0), Vec::<bool>::new());
    assert_eq!(manual_mask(&vec![i64::MIN], i64::MIN), vec![false]);
}

#[test]
fn statistics_max_1d() {
    let data: Vec<i64> = vec![1, 5, 3, 9, 2];
    assert_eq!(max(&data), 9);
    let data: Vec<i64> = vec![1, 5, 4];
    assert_eq!(max(&data), 5);
}

#[test]
fn statistics_min_1d() {
    let data: Vec<i64> = vec![1, 5, 3, 9, 2];
    assert_eq!(min(&data), 1);
    let data: Vec<i64> = vec![1, 5, 4];
    assert_eq!(min(&data), 1);
}

#[test]
fn statistics_min_max_1d() {
    let data: Vec<i64> = vec![1, 5, 3, 9, 2];
    assert_eq!(min_max(&data), (1, 9));
    let data: Vec<i64> = vec![1, 5, 4];
    assert_eq!(min_max(&data), (1, 5));
}

#[test]
fn statistics_sum() {
    let int_data: Vec<i64> = vec![2, 5, 10, 23];
    assert_eq!(sum(&int_data), 40);
}

#[test]
fn threshold_manual_mask() {
    // a gradient that rises by twenty from row to row, from the fifth row on
    let mut data: Vec<i64> = Vec::new();
    for r in 0..20i64 {
        for _ in 0..20 {
            data.push(if r > 5 { (r - 5) * 20 } else { 0 });
        }
    }
    let mask = manual_mask(&data, 140);

    assert_eq!(data[13 * 20], 160);
    assert_eq!(mask[11 * 20], false);
    assert_eq!(mask[13 * 20], true);
}

#[test]
fn weighted_merge_sort_mut_rejects_weights_too_large_to_sum() {
    let mut d: Vec<i64> = vec![2, 1];
    let mut w: Vec<u64> = vec![u64::MAX, 1];
    match weighted_merge_sort_mut(&mut d, &mut w) {
        Err(ImgalError::InvalidParameterValueGreater { value, .. }) => {
            assert_eq!(value, usize::MAX)
        }
        _ => panic!("weights too large to sum must be reported"),
    }
    assert_eq!(d, vec![2, 1]);
    assert_eq!(w, vec![u64::MAX, 1]);
    // the greatest sum that fits
    let mut w: Vec<u64> = vec![u64::MAX - 1, 1];
    assert_eq!(weighted_merge_sort_mut(&mut d, &mut w).unwrap(), (u64::MAX - 1) as u128);
    assert_eq!(d, vec![1, 2]);
}

#[test]
fn weighted_kendall_tau_b_rejects_weights_too_large_to_sum() {
    let a: Vec<i64> = vec![1, 2];
    let big: u64 = i64::MAX as u64;
    assert!(matches!(
        weighted_kendall_tau_b(&a, &a, &vec![big, 1]),
        Err(ImgalError::InvalidParameterValueGreater { .. })
    ));
    assert!(matches!(
        weighted_kendall_tau_b(&a, &a, &vec![u64::MAX, u64::MAX]),
        Err(ImgalError::InvalidParameterValueGreater { .. })
    ));
    // the greatest sum that is taken: 1 and i64::MAX - 1 in agreement
    let most = weighted_kendall_tau_b(&a, &a, &vec![1, big - 1]).unwrap();
    let pairs = 2 * (big as u128 - 1);
    assert_eq!(
        most,
        TauB::Ratio { numerator: pairs as i128, untied_a: pairs, untied_b: pairs }
    );
}

#[test]
fn rank_with_weights_gives_a_tied_pair_the_rank_between() {
    let d: Vec<i64> = vec![10, 20, 20, 30];
    let w: Vec<u64> = vec![1, 2, 3, 4];
    let (ranks, tie_corr) = rank_with_weights(&d, &w);
    // the ranks 1, 2.5, 2.5 and 4, doubled
    assert_eq!(ranks, vec![2, 5, 5, 8]);
    assert_eq!(tie_corr, 12);
    let halves: Vec<f64> = ranks.iter().map(|r| *r as f64 / 2.0).collect();
    assert_eq!(halves, vec![1.0, 2.5, 2.5, 4.0]);
}

#[test]
fn weighted_kendall_tau_b_of_one_observation_is_zero_whatever_its_weight() {
    assert_eq!(weighted_kendall_tau_b(&vec![1], &vec![2], &vec![u64::MAX]).unwrap(), TauB::Zero);
    assert_eq!(weighted_kendall_tau_b(&vec![], &vec![], &vec![]).unwrap(), TauB::Zero);
    let over: u64 = i64::MAX as u64 + 1;
    assert_eq!(weighted_kendall_tau_b(&vec![7], &vec![7], &vec![over]).unwrap(), TauB::Zero);
}

#[test]
fn errors_give_their_text() {
    let mut d: Vec<i64> = vec![1, 2, 3, 4, 5];
    let mut w: Vec<u64> = vec![1, 1, 1, 1];
    let e = weighted_merge_sort_mut(&mut d, &mut w).unwrap_err();
    assert_eq!(
        e.message(),
        "Mismatched array lengths, \"data\" of length 5 and \"weights\" of length 4 do not match."
    );
    let e = ImgalError::InvalidArrayLength { arr_name: "data", expected: 120, got: 0 };
    assert_eq!(e.message(), "Invalid array length, \"data\" of length 120 expected, but got 0.");
    let e = ImgalError::InvalidAxisValueNotAMultipleOf { arr_name: "shape", axis_idx: 1, multiple: 7 };
    assert_eq!(e.message(), "Invalid axis value, axis 1 of \"shape\" is not a multiple of 7.");
    let e = ImgalError::InvalidParameterEmptyArray { param_name: "tile_stack" };
    assert_eq!(e.message(), "Invalid array parameter, the array \"tile_stack\" can not be empty.");
    let e = ImgalError::InvalidParameterValueEqual { param_name: "div", value: 0 };
    assert_eq!(e.message(), "Invalid parameter value, the parameter \"div\" can not equal 0.");
    let e = ImgalError::InvalidParameterValueGreater { param_name: "max_radius", value: 48 };
    assert_eq!(
        e.message(),
        "Invalid parameter value, the parameter \"max_radius\" can not be greater than 48."
    );
    let e = ImgalError::MismatchedArrayShapes {
        a_arr_name: "data_a",
        a_shape: vec![10, 10],
        b_arr_name: "data_b",
        b_shape: vec![10, 12],
    };
    assert_eq!(
        e.message(),
        "Mismatched array shapes, array \"data_a\" with shape [10, 10] and array \"data_b\" with shape [10, 12] do not match."
    );
    let e = ImgalError::MismatchedArrayShapes {
        a_arr_name: "a",
        a_shape: vec![],
        b_arr_name: "b",
        b_shape: vec![usize::MAX],
    };
    assert_eq!(
        e.message(),
        format!(
            "Mismatched array shapes, array \"a\" with shape [] and array \"b\" with shape [{}] do not match.",
            usize::MAX
        )
    );
}
