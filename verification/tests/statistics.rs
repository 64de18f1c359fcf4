use http_load_gen::sorting::sorted_copy;
use http_load_gen::statistics::{aggregate, Statistics, HUNDREDTHS, MAX_LATENCY};

fn ramp(n: u32) -> Vec<u32> {
    (1..=n).collect()
}

#[test]
fn figures_of_four_samples() {
    let stats = aggregate(200, &vec![30, 10, 40, 20]);
    assert_eq!(
        stats,
        Statistics {
            code: 200,
            requests: 4,
            min: 1000,
            max: 4000,
            mean: 2500,
            sd: 1118,
            p90: 4000,
            p99: 4000,
        }
    );
}

#[test]
fn figures_of_one_sample() {
    let stats = aggregate(404, &vec![1234]);
    assert_eq!(stats.code, 404);
    assert_eq!(stats.requests, 1);
    assert_eq!(stats.min, 123400);
    assert_eq!(stats.max, 123400);
    assert_eq!(stats.mean, 123400);
    assert_eq!(stats.p90, 123400);
    assert_eq!(stats.p99, 123400);
    assert_eq!(stats.sd, 0);
}

#[test]
fn percentiles_of_ten() {
    let stats = aggregate(200, &ramp(10));
    assert_eq!(stats.p90, 900);
    assert_eq!(stats.p99, 1000);
}

#[test]
fn percentiles_of_a_hundred() {
    let stats = aggregate(200, &ramp(100));
    assert_eq!(stats.p90, 9000);
    assert_eq!(stats.p99, 9900);
    assert_eq!(stats.min, 100);
    assert_eq!(stats.max, 10000);
    assert_eq!(stats.mean, 5050);
    assert_eq!(stats.sd, 2887);
}

#[test]
fn percentiles_of_a_thousand_and_one() {
    let stats = aggregate(200, &ramp(1001));
    assert_eq!(stats.p90, 90100);
    assert_eq!(stats.p99, 99100);
}

#[test]
fn percentiles_of_two() {
    let stats = aggregate(200, &vec![7, 3]);
    assert_eq!(stats.min, 300);
    assert_eq!(stats.p90, 700);
    assert_eq!(stats.p99, 700);
    assert_eq!(stats.max, 700);
}

#[test]
fn mean_is_rounded_to_the_nearest_hundredth() {
    assert_eq!(aggregate(200, &vec![1, 2]).mean, 150);
    assert_eq!(aggregate(200, &vec![1, 1, 2]).mean, 133);
    assert_eq!(aggregate(200, &vec![1, 2, 2]).mean, 167);
    assert_eq!(aggregate(200, &vec![0, 0, 1]).mean, 33);
    assert_eq!(aggregate(200, &vec![0, 0, 2]).mean, 67);
    assert_eq!(aggregate(200, &vec![1, 1, 1, 1, 1, 1, 2]).mean, 114);
}

#[test]
fn mean_halfway_goes_up() {
    let mut samples = vec![0u32; 199];
    samples.push(1);
    assert_eq!(aggregate(200, &samples).mean, 1);
    samples.push(0);
    samples.push(0);
    assert_eq!(aggregate(200, &samples).mean, 0);
    let mut more = vec![0u32; 197];
    more.extend_from_slice(&[1, 1, 1]);
    assert_eq!(aggregate(200, &more).mean, 2);
}

#[test]
fn deviation_is_rounded_to_the_nearest_hundredth() {
    assert_eq!(aggregate(200, &vec![1, 2]).sd, 50);
    assert_eq!(aggregate(200, &vec![1, 1, 2]).sd, 47);
    assert_eq!(aggregate(200, &vec![2, 4, 4, 4, 5, 5, 7, 9]).sd, 200);
    assert_eq!(aggregate(200, &vec![1, 2, 3, 4, 5]).sd, 141);
    assert_eq!(aggregate(200, &vec![1, 2, 3, 4]).sd, 112);
    assert_eq!(aggregate(200, &vec![1, 2, 3]).sd, 82);
    assert_eq!(aggregate(200, &vec![0, 3]).sd, 150);
    assert_eq!(aggregate(200, &vec![5, 5, 5, 5]).sd, 0);
}

#[test]
fn figures_render_as_the_rounded_fractions() {
    let mut seed: u64 = 0x9E37_79B9_7F4A_7C15;
    for n in 1..40usize {
        let mut samples: Vec<u32> = Vec::new();
        for _ in 0..n {
            seed ^= seed << 13;
            seed ^= seed >> 7;
            seed ^= seed << 17;
            samples.push((seed % 50_000) as u32);
        }
        let stats = aggregate(200, &samples);
        let count = samples.len() as f64;
        let mean = samples.iter().map(|x| *x as f64).sum::<f64>() / count;
        let variance = samples.iter().map(|x| (*x as f64 - mean).powi(2)).sum::<f64>() / count;
        let sd = variance.sqrt();
        let near = |shown: u64, real: f64| (shown as f64 / 100.0 - real).abs() <= 0.005 + 1e-6;
        assert!(near(stats.mean, mean), "{:?}", samples);
        assert!(near(stats.sd, sd), "{:?}", samples);
    }
}

#[test]
fn uniform_samples_have_uniform_figures() {
    for n in [1usize, 2, 3, 10, 99, 1000] {
        let stats = aggregate(200, &vec![10_000; n]);
        assert_eq!(
            stats,
            Statistics {
                code: 200,
                requests: n as u64,
                min: 1_000_000,
                max: 1_000_000,
                mean: 1_000_000,
                sd: 0,
                p90: 1_000_000,
                p99: 1_000_000,
            }
        );
    }
}

#[test]
fn figures_at_the_limits() {
    let stats = aggregate(200, &vec![0, MAX_LATENCY]);
    assert_eq!(stats.min, 0);
    assert_eq!(stats.max, 429496729500);
    assert_eq!(stats.mean, 214748364750);
    assert_eq!(stats.sd, 214748364750);
    let top = aggregate(200, &vec![MAX_LATENCY, MAX_LATENCY, MAX_LATENCY]);
    assert_eq!(top.mean, HUNDREDTHS * MAX_LATENCY as u64);
    assert_eq!(top.sd, 0);
    let zero = aggregate(200, &vec![0, 0]);
    assert_eq!(zero.mean, 0);
    assert_eq!(zero.sd, 0);
}

#[test]
fn figures_ignore_the_order() {
    let a = vec![12, 7, 7, 300, 45, 1, 99, 12];
    let mut b = a.clone();
    b.reverse();
    let mut c = a.clone();
    c.sort();
    let first = aggregate(500, &a);
    assert_eq!(first, aggregate(500, &b));
    assert_eq!(first, aggregate(500, &c));
    assert_eq!(first, aggregate(500, &a));
}

#[test]
fn figures_are_in_order() {
    let mut seed: u64 = 0x2545_F491_4F6C_DD1D;
    for n in 1..60usize {
        let mut samples: Vec<u32> = Vec::new();
        for _ in 0..n {
            seed ^= seed << 13;
            seed ^= seed >> 7;
            seed ^= seed << 17;
            samples.push((seed % 100_000) as u32);
        }
        let stats = aggregate(200, &samples);
        assert_eq!(stats.requests, n as u64);
        assert!(stats.min <= stats.p90);
        assert!(stats.p90 <= stats.p99);
        assert!(stats.p99 <= stats.max);
        assert!(stats.min <= stats.mean && stats.mean <= stats.max);
    }
}

#[test]
fn figures_agree_with_floating_point() {
    let mut seed: u64 = 88172645463325252;
    let mut samples: Vec<u32> = Vec::new();
    for _ in 0..5000 {
        seed ^= seed << 13;
        seed ^= seed >> 7;
        seed ^= seed << 17;
        samples.push((seed % 2_000_000) as u32);
    }
    let stats = aggregate(200, &samples);
    let n = samples.len() as f64;
    let mean = samples.iter().map(|x| *x as f64).sum::<f64>() / n;
    let variance = samples.iter().map(|x| (*x as f64 - mean).powi(2)).sum::<f64>() / n;
    let sd = variance.sqrt();
    assert!((stats.mean as f64 / 100.0 - mean).abs() < 0.006);
    assert!((stats.sd as f64 / 100.0 - sd).abs() < 0.006);
    let mut sorted = samples.clone();
    sorted.sort();
    assert_eq!(stats.p90, 100 * sorted[(0.90f64 * n).ceil() as usize - 1] as u64);
    assert_eq!(stats.p99, 100 * sorted[(0.99f64 * n).ceil() as usize - 1] as u64);
}

#[test]
fn many_samples() {
    let mut samples: Vec<u32> = Vec::new();
    for i in 0..200_000u32 {
        samples.push(i.wrapping_mul(2654435761) % 1_000_003);
    }
    let stats = aggregate(200, &samples);
    assert_eq!(stats.requests, 200_000);
    assert!(stats.min <= stats.p90 && stats.p90 <= stats.p99 && stats.p99 <= stats.max);
}

#[test]
fn sorted_copy_sorts() {
    let samples = vec![5, 3, 9, 3, 0, 4_000_000_000, 7];
    assert_eq!(sorted_copy(&samples), vec![0, 3, 3, 5, 7, 9, 4_000_000_000]);
    assert_eq!(samples, vec![5, 3, 9, 3, 0, 4_000_000_000, 7]);
    assert_eq!(sorted_copy(&Vec::new()), Vec::<u32>::new());
    assert_eq!(sorted_copy(&vec![1]), vec![1]);
}
