use rustics::Printer;
use rustics::PrintOpts;
use rustics::exponent_bias;
use rustics::max_biased_exponent;
use rustics::min_exponent;
use rustics::float_histogram::FloatHistogram;
use rustics::float_histogram::HistoOpts;
use rustics::float_histogram::bucket_divisor;
use rustics::float_histogram::{biased_exponent_of_bits, sign_of_bits, mantissa_of_bits, bucket_of_bits};

// Hands each printed line of a histogram to a printer, in order.
fn print_float_lines(lines: Vec<String>, printer: &mut dyn Printer) {
    for line in lines {
        printer.print(&line);
    }
}

struct StdoutPrinter;

impl Printer for StdoutPrinter {
    fn print(&mut self, output: &str) {
        println!("{}", output);
    }
}

struct Collector {
    lines: Vec<String>,
}

impl Printer for Collector {
    fn print(&mut self, output: &str) {
        self.lines.push(output.to_string());
    }
}

fn record(histogram: &mut FloatHistogram, sample: f64) {
    histogram.record_bits(sample.to_bits());
}

fn simple_test() {
    let     merge_min    = min_exponent();
    let     merge_max    = min_exponent();
    let     no_zero_rows = true;
    let     printer      = None;
    let     title        = None;
    let     units        = None;
    let     histo_opts   = HistoOpts { merge_min, merge_max, no_zero_rows };
    let     histo_opts   = Some(histo_opts);
    let     print_opts   = PrintOpts { printer, title, units, histo_opts };
    let mut histogram    = FloatHistogram::new(&Some(print_opts));
    let     max_index    = max_biased_exponent() / bucket_divisor();

    for i in 0..= max_index {
        histogram.negative[i as usize] = i as u64;
    }

    for i in 0..= max_index {
        histogram.positive[i as usize] = i as u64;
    }

    let printer = &mut StdoutPrinter;

    print_float_lines(histogram.lines(), printer);

    histogram.clear();

    for data in &histogram.negative {
        assert!(*data == 0);
    }

    for data in &histogram.positive {
        assert!(*data == 0);
    }

    assert!(histogram.samples    == 0);
    assert!(histogram.nans       == 0);
    assert!(histogram.infinities == 0);

    print_float_lines(histogram.lines(), printer);

    let sample_count = 1000;

    for i in 0..sample_count {
        record(&mut histogram, -(i as f64));
    }

    print_float_lines(histogram.lines(), printer);

    assert!(histogram.samples     == sample_count as usize);
    assert!(histogram.nans        == 0);
    assert!(histogram.infinities  == 0);

    // Values -0.0 and -1.0 should be in the same bucket.

    let zero_bucket = exponent_bias() / bucket_divisor();
    let zero_bucket = zero_bucket as usize;

    assert!(histogram.negative[zero_bucket    ] == 2);
    assert!(histogram.negative[zero_bucket + 1] == sample_count - 2);

    for i in 0..sample_count {
        record(&mut histogram, i as f64);
    }

    print_float_lines(histogram.lines(), printer);

    assert!(histogram.samples     == 2 * sample_count as usize);
    assert!(histogram.nans        == 0);
    assert!(histogram.infinities  == 0);

    assert!(histogram.positive[zero_bucket    ] == 2);
    assert!(histogram.positive[zero_bucket + 1] == sample_count - 2);

    record(&mut histogram, f64::INFINITY);
    record(&mut histogram, f64::NEG_INFINITY);
    record(&mut histogram, f64::NAN);

    print_float_lines(histogram.lines(), printer);

    let index = max_biased_exponent() / bucket_divisor();
    let index = index as usize;

    assert!(histogram.positive[index] == 1);
    assert!(histogram.positive[index] == 1);

    assert!(histogram.samples == (2 * sample_count + 2) as usize);

    assert!(histogram.nans       == 1);
    assert!(histogram.infinities == 2);
}

fn test_documentation() {
    let merge_min    = 10;
    let merge_max    = 11;
    let no_zero_rows = false;
    let histo_opts   = HistoOpts { merge_min, merge_max, no_zero_rows };
    let printer      = None;
    let title        = None;
    let units        = None;
    let histo_opts   = Some(histo_opts);
    let print_opts   = PrintOpts { printer, title, units, histo_opts };

    let mut histogram = FloatHistogram::new(&Some(print_opts));

    let sample_count = 1000;

    for i in 0..sample_count {
         record(&mut histogram, -(i as f64));
    }

    let printer = &mut StdoutPrinter;

    print_float_lines(histogram.lines(), printer);

    assert!(histogram.samples     == sample_count as usize);
    assert!(histogram.nans        == 0);
    assert!(histogram.infinities  == 0);

    let zero_bucket = exponent_bias() / bucket_divisor();
    let zero_bucket = zero_bucket as usize;

    assert!(histogram.negative[zero_bucket    ] == 2);
    assert!(histogram.negative[zero_bucket + 1] == sample_count - 2);

    record(&mut histogram, f64::INFINITY);
    record(&mut histogram, f64::NEG_INFINITY);
    record(&mut histogram, f64::NAN);

    assert!(histogram.nans       == 1);
    assert!(histogram.infinities == 2);
    assert!(histogram.samples    == sample_count as usize + 2);

    let (nans, infinities) = histogram.non_finites();

    assert!(nans       == 1);
    assert!(infinities == 2);

    print_float_lines(histogram.lines(), printer);
    histogram.clear();

    let (nans, infinities) = histogram.non_finites();

    assert!(nans       == 0);
    assert!(infinities == 0);

    let histo_opts = histogram.histo_opts();

    assert!(histo_opts.merge_min    == merge_min);
    assert!(histo_opts.merge_max    == merge_max);
    assert!(histo_opts.no_zero_rows == no_zero_rows);
}

fn test_log_mode() {
    let merge_min    = 0;
    let merge_max    = 0;
    let no_zero_rows = false;
    let histo_opts   = HistoOpts { merge_min, merge_max, no_zero_rows };

    let printer      = None;
    let title        = None;
    let units        = None;
    let histo_opts   = Some(histo_opts);
    let print_opts   = PrintOpts { printer, title, units, histo_opts };

    let mut histogram = FloatHistogram::new(&Some(print_opts));

    let sample_count = 1000;

    for i in 0..sample_count {
         record(&mut histogram, -(i as f64));
    }

    // Samples 2 through 999 have biased exponents 1024 through 1032, so
    // the mode is negative bucket 64, whose middle exponent is 9.

    let (sign, exponent) = histogram.convert_log_mode();

    assert_eq!(sign, -1);
    assert_eq!(exponent, 64 * 16 + 8 - 1023);

    let sign     = sign as f64;
    let value    = 2_f64.powi(exponent as i32);
    let value    = value - value / 4.0;
    let expected = sign * value;

    assert!(expected == -384.0);
}

fn test_float_equals() {
    let mut histo_1 = FloatHistogram::new(&None);
    let mut histo_2 = FloatHistogram::new(&None);

    for i in 0..1000 {
        let sample = i as f64;

        record(&mut histo_1,  sample);
        record(&mut histo_1, -sample);
        record(&mut histo_2,  sample);
        record(&mut histo_2, -sample);
    }

    assert!(histo_1.equals(&histo_2));

    histo_1.positive[1] += 1;
    assert!(! histo_1.equals(&histo_2));
    histo_1.positive[1] -= 1;
    assert!(histo_1.equals(&histo_2));

    histo_1.negative[1] += 1;
    assert!(! histo_1.equals(&histo_2));
    histo_1.negative[1] -= 1;
    assert!(histo_1.equals(&histo_2));

    histo_1.samples += 1;
    assert!(! histo_1.equals(&histo_2));
    histo_1.samples -= 1;
    assert!(histo_1.equals(&histo_2));

    histo_1.nans += 1;
    assert!(! histo_1.equals(&histo_2));
    histo_1.nans -= 1;
    assert!(histo_1.equals(&histo_2));

    histo_1.infinities += 1;
    assert!(! histo_1.equals(&histo_2));
    histo_1.infinities -= 1;
    assert!(histo_1.equals(&histo_2));
}

#[test]
fn float_histogram_run_tests() {
    simple_test();
    test_documentation();
    test_log_mode();
    test_float_equals();
}

// An empty histogram reports the first negative bucket as its mode.
#[test]
fn float_histogram_empty_mode() {
    let histogram = FloatHistogram::new(&None);

    assert_eq!(histogram.convert_log_mode(), (-1, 8 - 1023));
}

// The printed lines of a small histogram.
#[test]
fn float_histogram_print_lines() {
    let mut histogram = FloatHistogram::new(&None);

    record(&mut histogram, 1.0);
    record(&mut histogram, 1.0);
    record(&mut histogram, -3.0);
    record(&mut histogram, f64::NAN);

    let mut printer = Collector { lines: Vec::new() };

    print_float_lines(histogram.lines(), &mut printer);

    // -3.0 has biased exponent 1024 (negative bucket 64, exponent label
    // 64 * 16 - 1023 = 1); 1.0 has biased exponent 1023 (positive bucket
    // 63, in the row starting at bucket 60).

    let expected = vec![
        "  Float Histogram:  (1 NaN, 0 infinite, 3 samples)".to_string(),
        format!("    -2^{:>5}:    {:>10}    {:>10}    {:>10}    {:>10}", 1, 1, 0, 0, 0),
        "  -----------------------".to_string(),
        format!("    2^{:>5}:    {:>10}    {:>10}    {:>10}    {:>10}", -63, 0, 0, 0, 2),
    ];

    assert_eq!(printer.lines, expected);
}

#[test]
fn float_histogram_no_zero_rows_option() {
    let histo_opts = HistoOpts { merge_min: 0, merge_max: 0, no_zero_rows: false };
    let mut histogram = FloatHistogram::new(&None);

    record(&mut histogram, 1.0);

    let lines = histogram.lines_opts(&histo_opts);

    // Only rows with a non-zero count are printed when the flag is clear.

    assert_eq!(lines.len(), 3);
    assert_eq!(lines[2],
        format!("    2^{:>5}:    {:>10}    {:>10}    {:>10}    {:>10}", 60 * 16 - 1023, 0, 0, 0, "1"));

    // Setting the flag suppresses rows that are all zeros, too.

    let histo_opts = HistoOpts { merge_min: 0, merge_max: 0, no_zero_rows: true };
    let suppressed = histogram.lines_opts(&histo_opts);

    assert_eq!(suppressed, lines);
}

#[test]
fn float_bit_functions() {
    assert_eq!(mantissa_of_bits(1.0_f64.to_bits()), 0);
    assert_eq!(biased_exponent_of_bits(f64::NAN.to_bits()), 0);
    assert_eq!(biased_exponent_of_bits(f64::INFINITY.to_bits()), 1023);
    assert_eq!(biased_exponent_of_bits(1.0_f64.to_bits()), 1023);
    assert_eq!(biased_exponent_of_bits(4.0_f64.to_bits()), 1025);
    assert_eq!(sign_of_bits((-0.0_f64).to_bits()), -1);
    assert_eq!(sign_of_bits(2.0_f64.to_bits()), 1);
    assert_eq!(bucket_of_bits(1.0_f64.to_bits()), 63);
    assert_eq!(bucket_of_bits(0.0_f64.to_bits()), 63);
    assert_eq!(bucket_of_bits(f64::NEG_INFINITY.to_bits()), 127);
    assert_eq!(bucket_of_bits(4.0_f64.to_bits()), 64);
}
