use imgal::statistics::kendall_tau::{weighted_kendall_tau_b, TauB};
use imgal::statistics::rank::rank_with_weights;
use imgal::statistics::sort::weighted_merge_sort_mut;

/// A small generator of numbers that repeat often.
fn numbers(seed: u64, n: usize, span: u64) -> Vec<u64> {
    let mut x = seed;
    let mut out = Vec::with_capacity(n);
    for _ in 0..n {
        x = x.wrapping_mul(6364136223846793005).wrapping_add(1442695040888963407);
        out.push((x >> 33) % span);
    }
    out
}

#[test]
fn merge_sort_counts_what_the_definition_counts() {
    for seed in 0..40u64 {
        let n = (seed as usize * 7) % 37;
        let data: Vec<i64> = numbers(seed, n, 9).iter().map(|v| *v as i64 - 4).collect();
        let weights: Vec<u64> = numbers(seed + 1000, n, 50);
        let mut want: u128 = 0;
        for j in 0..n {
            for i in 0..j {
                if data[i] > data[j] {
                    want += weights[i] as u128 * weights[j] as u128;
                }
            }
        }
        // a stable sort of the pairs by their values
        let mut tagged: Vec<(i64, usize)> = data.iter().cloned().zip(0..n).collect();
        tagged.sort();
        let mut d = data.clone();
        let mut w = weights.clone();
        assert_eq!(weighted_merge_sort_mut(&mut d, &mut w).unwrap(), want);
        for k in 0..n {
            assert_eq!(d[k], tagged[k].0);
            assert_eq!(w[k], weights[tagged[k].1]);
        }
    }
}

#[test]
fn kendall_tau_b_is_what_the_definition_says() {
    for seed in 0..40u64 {
        let n = 2 + (seed as usize * 5) % 23;
        let a: Vec<i64> = numbers(seed, n, 6).iter().map(|v| *v as i64).collect();
        let b: Vec<i64> = numbers(seed + 500, n, 5).iter().map(|v| *v as i64 - 2).collect();
        let w: Vec<u64> = numbers(seed + 900, n, 4);
        let (mut pairs, mut ta, mut tb, mut conc, mut disc) = (0i128, 0i128, 0i128, 0i128, 0i128);
        for j in 0..n {
            for i in 0..j {
                let ww = w[i] as i128 * w[j] as i128;
                pairs += ww;
                if a[i] == a[j] {
                    ta += ww;
                }
                if b[i] == b[j] {
                    tb += ww;
                }
                let s = (a[i] - a[j]).signum() * (b[i] - b[j]).signum();
                if s > 0 {
                    conc += ww;
                }
                if s < 0 {
                    disc += ww;
                }
            }
        }
        let ua = 2 * (pairs - ta);
        let ub = 2 * (pairs - tb);
        let want = if ua == 0 && ub == 0 {
            TauB::Undefined
        } else if ua == 0 || ub == 0 {
            TauB::Zero
        } else {
            TauB::Ratio {
                numerator: 2 * (conc - disc),
                untied_a: ua as u128,
                untied_b: ub as u128,
            }
        };
        assert_eq!(weighted_kendall_tau_b(&a, &b, &w).unwrap(), want);
        // the order of the observations does not matter
        let ar: Vec<i64> = a.iter().rev().cloned().collect();
        let br: Vec<i64> = b.iter().rev().cloned().collect();
        let wr: Vec<u64> = w.iter().rev().cloned().collect();
        assert_eq!(weighted_kendall_tau_b(&ar, &br, &wr).unwrap(), want);
    }
}

#[test]
fn ranks_are_what_the_definition_says() {
    for seed in 0..30u64 {
        let n = (seed as usize * 3) % 29;
        let data: Vec<i64> = numbers(seed, n, 7).iter().map(|v| *v as i64).collect();
        let w: Vec<u64> = numbers(seed + 77, n, 9);
        let (ranks, tie_corr) = rank_with_weights(&data, &w);
        let mut want_corr: u128 = 0;
        for i in 0..n {
            let below = data.iter().filter(|v| **v < data[i]).count();
            let equal = data.iter().filter(|v| **v == data[i]).count();
            // twice the mean of the ranks from `below + 1` to `below + equal`
            assert_eq!(ranks[i], (2 * below + equal + 1) as u64);
            for j in 0..i {
                if data[i] == data[j] {
                    want_corr += 2 * w[i] as u128 * w[j] as u128;
                }
            }
        }
        assert_eq!(tie_corr, want_corr);
    }
}
