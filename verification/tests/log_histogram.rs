use rustics::Printer;
use rustics::log_histogram::LogHistogram;
use rustics::log_histogram::pseudo_log_index;

// Hands each printed line of a histogram to a printer, in order.
fn print_log_lines(lines: Vec<String>, printer: &mut dyn Printer) {
    for line in lines {
        printer.print(&line);
    }
}

struct TestPrinter {
    prefix: String,
}

impl TestPrinter {
    fn new(prefix: &str) -> TestPrinter {
        TestPrinter { prefix: prefix.to_string() }
    }
}

impl Printer for TestPrinter {
    fn print(&mut self, output: &str) {
        println!("{}:  {}", self.prefix, output);
    }
}

fn test_log_histogram() {
    let mut histogram = LogHistogram::new();
    let     printer   = &mut TestPrinter::new(&"Test Output");
    let     test      = [ 1, -1, 4, 25, 4109, -4108, -8, -9, -16, -17, 3, 8, 16 ];

    for i in test.iter() {
        let pseudo_log_index = pseudo_log_index(*i) as usize;

        let expected =
            if *i < 0 {
                histogram.negative[pseudo_log_index] + 1
            } else {
                histogram.positive[pseudo_log_index] + 1
            };

        histogram.record(*i);

        let actual =
            if *i < 0 {
                histogram.negative[pseudo_log_index]
            } else {
                histogram.positive[pseudo_log_index]
            };

        assert!(actual == expected);
    }

    print_log_lines(histogram.lines(), printer);
}

fn test_pseudo_log() {
    let test   = [ 1, 0, -1, -4, -3, i64::MIN, 3, 4, 5, 8, i64::MAX ];
    let expect = [ 0, 0,  0,  2,  2,       63, 2, 2, 3, 3,       63 ];

    let mut i = 0;

    for sample in test.iter() {
        println!("pseudo_log_index({}) = {}", *sample, pseudo_log_index(*sample));
        assert_eq!(pseudo_log_index(*sample), expect[i]);
        i += 1;
    }
}

#[test]
fn log_histogram_run_tests() {
    test_log_histogram();
    test_pseudo_log();
}

struct Collector {
    lines: Vec<String>,
}

impl Printer for Collector {
    fn print(&mut self, output: &str) {
        self.lines.push(output.to_string());
    }
}

// The documentation's definition: the pseudo-log of 5 is 3, of -5 is 3 in
// the negative array, and of 0 is 0.
#[test]
fn log_histogram_pseudo_log_examples() {
    assert_eq!(pseudo_log_index(5), 3);
    assert_eq!(pseudo_log_index(-5), 3);
    assert_eq!(pseudo_log_index(0), 0);
    assert_eq!(pseudo_log_index(1 << 40), 40);
    assert_eq!(pseudo_log_index((1 << 40) + 1), 41);
}

#[test]
fn log_histogram_mode_and_clear() {
    let mut histogram = LogHistogram::default();

    assert_eq!(histogram.log_mode(), 0);

    histogram.record(-100);
    histogram.record(-100);
    histogram.record(100);

    assert_eq!(histogram.log_mode(), -7);

    histogram.record(100);
    histogram.record(100);

    assert_eq!(histogram.log_mode(), 7);

    // A tie goes to the negative bucket seen first.

    histogram.record(-100);
    assert_eq!(histogram.log_mode(), -7);

    histogram.clear();

    for i in 0..64 {
        assert_eq!(histogram.negative[i], 0);
        assert_eq!(histogram.positive[i], 0);
    }
}

#[test]
fn log_histogram_printed_lines() {
    let mut histogram = LogHistogram::new();

    histogram.record(-5);
    histogram.record(1000);
    histogram.record(1000);

    let mut printer = Collector { lines: Vec::new() };

    print_log_lines(histogram.lines(), &mut printer);

    let row = |label: i64, a: &str, b: &str, c: &str, d: &str| {
        format!("  {:>3}:    {:>14}    {:>14}    {:>14}    {:>14}", label, a, b, c, d)
    };

    let expected = vec![
        "  Log Histogram".to_string(),
        row(0, "0", "0", "0", "1"),
        "  -----------------------".to_string(),
        row(0, "0", "0", "0", "0"),
        row(4, "0", "0", "0", "0"),
        row(8, "0", "0", "2", "0"),
    ];

    assert_eq!(printer.lines, expected);
    assert_eq!(histogram.lines(), expected);
}
