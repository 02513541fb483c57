use rustics::log_histogram::LogHistogram;
use rustics::float_histogram::FloatHistogram;
use rustics::merge::{sum_float_histogram, sum_log_histogram, sum_totals, SampleTotals};

fn total(histogram: &LogHistogram) -> u64 {
    histogram.negative.iter().sum::<u64>() + histogram.positive.iter().sum::<u64>()
}

// Merging histograms adds their counts bucket by bucket.
#[test]
fn merge_log_histograms() {
    let mut a = LogHistogram::new();
    let mut b = LogHistogram::new();

    for i in -50..50 {
        a.record(i);
        b.record(i * 3);
    }

    let before_a = a.clone();
    sum_log_histogram(&mut a, &b);

    for i in 0..64 {
        assert_eq!(a.negative[i], before_a.negative[i] + b.negative[i]);
        assert_eq!(a.positive[i], before_a.positive[i] + b.positive[i]);
    }

    assert_eq!(total(&a), 200);
}

#[test]
fn merge_float_histograms() {
    let mut a = FloatHistogram::new(&None);
    let mut b = FloatHistogram::new(&None);

    a.record_bits(1.5_f64.to_bits());
    a.record_bits(f64::NAN.to_bits());
    b.record_bits((-1.5_f64).to_bits());
    b.record_bits(f64::INFINITY.to_bits());

    sum_float_histogram(&mut a, &b);

    assert_eq!(a.samples, 3);
    assert_eq!(a.nans, 1);
    assert_eq!(a.infinities, 1);
    assert_eq!(a.positive[63], 1);
    assert_eq!(a.negative[63], 1);
    assert_eq!(a.positive[127], 1);
}

#[test]
fn merge_sample_totals() {
    let parts = vec![
        SampleTotals { count: 3, nans: 1, infinities: 0, min_i64: -5, max_i64: 10 },
        SampleTotals { count: 0, nans: 0, infinities: 0, min_i64: i64::MAX, max_i64: i64::MIN },
        SampleTotals { count: 4, nans: 2, infinities: 7, min_i64: 2, max_i64: 40 },
    ];

    let merged = sum_totals(&parts);

    assert_eq!(merged.count, 7);
    assert_eq!(merged.nans, 3);
    assert_eq!(merged.infinities, 7);
    assert_eq!(merged.min_i64, -5);
    assert_eq!(merged.max_i64, 40);

    let empty = sum_totals(&Vec::new());

    assert_eq!(empty.count, 0);
    assert_eq!(empty.min_i64, i64::MAX);
    assert_eq!(empty.max_i64, i64::MIN);
}
