use flamenco_tuner::dsp::visibility::{horizontal_visibility, Ratio, VisMetrics, HIST_BINS};
use flamenco_tuner::ieee::Real32;

fn metrics(series: &[f32]) -> VisMetrics {
    horizontal_visibility(&series.iter().map(|v| Real32::from_bits(v.to_bits())).collect())
}

fn quotient(r: Ratio) -> f32 {
    r.num as f32 / r.den as f32
}

/// The graph by its definition: two samples see each other if every sample
/// strictly between them is lower than both.
fn degrees(series: &[f32]) -> Vec<usize> {
    let n = series.len();
    let mut degree = vec![0; n];
    for a in 0..n {
        for b in a + 1..n {
            if (a + 1..b).all(|k| series[k] < series[a] && series[k] < series[b]) {
                degree[a] += 1;
                degree[b] += 1;
            }
        }
    }
    degree
}

#[test]
fn constant_series_is_a_chain() {
    let m = metrics(&[1.0; 64]);
    // Equal neighbors see only each other: n−1 edges, mean degree → 2.
    assert_eq!(m.edges, 63);
    let mean = quotient(m.mean_degree);
    assert!((mean - 2.0).abs() < 0.1, "{}", mean);
}

#[test]
fn alternating_series_known_structure() {
    // 1,2,1,2,... high nodes see both neighbors and over the lows:
    // every adjacent pair connects (n−1) plus each pair of consecutive
    // highs connects over the low between them.
    let series: Vec<f32> = (0..64)
        .map(|i| if i % 2 == 0 { 1.0 } else { 2.0 })
        .collect();
    let m = metrics(&series);
    let highs = 32;
    assert_eq!(m.edges, 63 + (highs - 1));
    assert!(m.max_degree >= 4);
}

#[test]
fn noise_is_more_complex_than_constant() {
    let mut x = 99u32;
    let noise: Vec<f32> = (0..256)
        .map(|_| {
            x = x.wrapping_mul(1664525).wrapping_add(1013904223);
            x as f32 / u32::MAX as f32
        })
        .collect();
    let noisy = quotient(metrics(&noise).mean_degree);
    let constant = quotient(metrics(&[0.5; 256]).mean_degree);
    assert!(
        noisy > constant + 0.5,
        "noise {} vs constant {}",
        noisy,
        constant
    );
}

#[test]
fn metrics_agree_with_the_definition() {
    let mut x = 7u32;
    for n in 2..40usize {
        let series: Vec<f32> = (0..n)
            .map(|_| {
                x = x.wrapping_mul(1664525).wrapping_add(1013904223);
                ((x >> 24) % 7) as f32 - 3.0
            })
            .collect();
        let degree = degrees(&series);
        let m = metrics(&series);
        let sum: usize = degree.iter().sum();
        assert_eq!(m.nodes, n);
        assert_eq!(2 * m.edges, sum);
        assert_eq!(m.max_degree, *degree.iter().max().unwrap());
        assert_eq!(quotient(m.mean_degree), sum as f32 / n as f32);
        assert_eq!(quotient(m.density), sum as f32 / (n * (n - 1)) as f32);
        for bin in 0..HIST_BINS {
            let count = degree.iter().filter(|&&d| d.min(HIST_BINS - 1) == bin).count();
            assert_eq!(m.histogram[bin] as usize, count);
        }
    }
}

#[test]
fn short_series_have_no_metrics() {
    for series in [vec![], vec![1.0]] {
        let m = metrics(&series);
        assert_eq!((m.nodes, m.edges, m.max_degree), (0, 0, 0));
        assert_eq!(m.histogram, [0; HIST_BINS]);
        assert_eq!(m.mean_degree.num, 0);
        assert_eq!(m.density.num, 0);
    }
}

#[test]
fn zeros_of_either_sign_are_equal() {
    let m = metrics(&[0.0, -0.0, 0.0]);
    assert_eq!(m.edges, 2);
}

#[test]
fn direction_and_scale_do_not_matter() {
    let series: Vec<f32> = (0..60).map(|i| ((i * 37) % 23) as f32 - 11.0).collect();
    let m = metrics(&series);
    let numbers = |m: VisMetrics| (m.nodes, m.edges, m.mean_degree, m.density, m.max_degree, m.histogram);
    let mirrored: Vec<f32> = series.iter().rev().copied().collect();
    assert_eq!(numbers(metrics(&mirrored)), numbers(m));
    // Only the order of the samples counts.
    let cubed: Vec<f32> = series.iter().map(|v| v * v * v + 5.0).collect();
    assert_eq!(numbers(metrics(&cubed)), numbers(m));
    // 2n - 3 edges at most; an envelope that opens both ways has them all.
    assert!(m.edges <= 2 * 60 - 3);
    let ridge = [9.0, 1.0, 2.0, 3.0, 4.0, 8.0];
    assert_eq!(metrics(&[9.0, 1.0, 2.0, 3.0]).edges, 2 * 4 - 3);
    assert_eq!(metrics(&ridge).edges, 2 * 6 - 3);
}
