use imgal::histogram::{histogram, histogram_bin_midpoint, histogram_bin_range};
use imgal::statistics::min_max::min_max;

/// A gradient that rises by `scale` from row to row, from the row `offset`
/// on.
fn linear_2d(offset: usize, scale: i64, shape: (usize, usize)) -> Vec<i64> {
    let mut data: Vec<i64> = Vec::new();
    for r in 0..shape.0 {
        for _ in 0..shape.1 {
            data.push(if r > offset { (r - offset) as i64 * scale } else { 0 });
        }
    }
    data
}

#[test]
fn image_histogram() {
    // create data with known values and get the histogram
    let data = linear_2d(5, 20, (20, 20));
    let hist = histogram(&data, Some(20));

    let mm = min_max(&hist);

    assert_eq!(mm.0, 0);
    assert_eq!(mm.1, 120);
    assert_eq!(hist[0], 120);
    assert_eq!(hist[10], 20);
    assert_eq!(hist.len(), 20);
}

#[test]
fn image_histogram_bin_range() {
    let (start, end) = histogram_bin_range(30, 0, 1200, 256);

    assert_eq!(start, 140);
    assert_eq!(end, 145);
}

#[test]
fn image_histogram_bin_value() {
    assert_eq!(histogram_bin_midpoint(30, 0, 1200, 256), 142);
}

#[test]
fn histogram_counts_every_sample_once() {
    let data: Vec<i64> = vec![0, 1, 2, 3, 4, 5, 6, 7, 8, 9, 10];
    // five bins of width two over 0..10; the greatest sample joins the last
    assert_eq!(histogram(&data, Some(5)), vec![2, 2, 2, 2, 3]);
    assert_eq!(histogram(&data, Some(1)), vec![11]);
    let hist = histogram(&data, None);
    assert_eq!(hist.len(), 256);
    assert_eq!(hist.iter().sum::<i64>(), 11);
    assert_eq!(hist[255], 1);
    assert_eq!(hist[0], 1);
}

#[test]
fn histogram_edge_cases() {
    assert_eq!(histogram(&vec![], Some(8)), vec![0]);
    assert_eq!(histogram(&vec![1, 2, 3], Some(0)), vec![0]);
    // equal samples share the first bin
    assert_eq!(histogram(&vec![7, 7, 7], Some(4)), vec![3, 0, 0, 0]);
    // the whole range of the samples
    assert_eq!(histogram(&vec![i64::MIN, -1, 0, i64::MAX], Some(2)), vec![2, 2]);
    // bins of width one from -5: the greatest sample joins the last
    assert_eq!(histogram(&vec![-5, -4, -1], Some(4)), vec![1, 1, 0, 1]);
}

#[test]
fn histogram_bins_round_towards_zero() {
    // widths of 2.5 from -10: -10, -7.5, -5, -2.5, 0
    assert_eq!(histogram_bin_range(0, -10, 0, 4), (-10, -7));
    assert_eq!(histogram_bin_range(1, -10, 0, 4), (-7, -5));
    assert_eq!(histogram_bin_range(3, -10, 0, 4), (-2, 0));
    assert_eq!(histogram_bin_midpoint(0, -10, 0, 4), -8);
    assert_eq!(histogram_bin_midpoint(3, -10, 0, 4), -1);
    assert_eq!(histogram_bin_range(0, 5, 5, 1), (5, 5));
    assert_eq!(histogram_bin_midpoint(0, i64::MIN, i64::MAX, 1), 0);
    assert_eq!(histogram_bin_range(0, i64::MIN, i64::MAX, 1), (i64::MIN, i64::MAX));
}
