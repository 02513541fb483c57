use rustics::{make_title, parse_histo_opts, parse_title, parse_units, index_of_id};
use rustics::{exponent_bias, max_biased_exponent, max_exponent, min_exponent};
use rustics::{PrintOpts, Printer, PrinterBox, Units};
use rustics::float_histogram::HistoOpts;
use std::cell::RefCell;
use std::rc::Rc;

struct NullPrinter;

impl Printer for NullPrinter {
    fn print(&mut self, _output: &str) {
    }
}

fn bytes() -> Option<Units> {
    let singular = "byte".to_string();
    let plural   = "bytes".to_string();

    Some(Units { singular, plural })
}

fn test_make_title() {
    let title  = "";
    let name   = "hello";
    let result = make_title(title, name);

    assert!(result == name);

    let title = "say";
    let result = make_title(title, name);

    assert!(result == "say ==> hello");
}

fn test_units() {
    let singular = "byte";
    let plural   = "bytes";
    let result   = Units::new(singular, plural);

    assert!(result.singular == "byte" );
    assert!(result.plural   == "bytes");
}

fn test_parsing() {
    let printer: PrinterBox = Rc::new(RefCell::new(NullPrinter));
    let printer      = Some(printer);
    let title        = Some("Title".to_string());
    let merge_min    = 24;
    let merge_max    = 28;
    let no_zero_rows = true;
    let histo_opts   = Some(HistoOpts { merge_min, merge_max, no_zero_rows });
    let units        = bytes();

    let print_opts = Some(PrintOpts { printer, title, histo_opts, units });

    let title = parse_title     (&print_opts, "default");
    let histo = parse_histo_opts(&print_opts);
    let units = parse_units     (&print_opts);

    assert!( histo.no_zero_rows          );
    assert!( histo.merge_min == merge_min);
    assert!( histo.merge_max == merge_max);
    assert!( units.singular  == "byte"   );
    assert!( units.plural    == "bytes"  );
    assert!( title           == "Title"  );

    let printer    = None;
    let title      = None;
    let histo_opts = None;
    let units      = None;
    let print_opts = Some(PrintOpts { printer, title, histo_opts, units });

    let title = parse_title     (&print_opts, "default");
    let histo = parse_histo_opts(&print_opts);
    let units = parse_units     (&print_opts);

    assert!(!histo.no_zero_rows          );
    assert!( histo.merge_min == 0        );
    assert!( histo.merge_max == 0        );
    assert!( units.singular  == ""       );
    assert!( units.plural    == ""       );
    assert!( title           == "default");
}

fn test_float_functions() {
    let value = max_biased_exponent();
    assert!(value == 2046);
}

#[test]
fn run_lib_tests() {
    test_float_functions();
    test_make_title();
    test_units();
    test_parsing();
}

#[test]
fn lib_exponent_constants() {
    assert_eq!(max_exponent(), 1023);
    assert_eq!(min_exponent(), -1022);
    assert_eq!(exponent_bias(), 1023);
    assert_eq!(max_biased_exponent(), max_exponent() + exponent_bias());
}

#[test]
fn lib_parsing_without_options() {
    assert_eq!(parse_title(&None, "name"), "name");

    let units = parse_units(&None);

    assert_eq!(units.singular, "");
    assert_eq!(units.plural, "");

    let histo = parse_histo_opts(&None);

    assert!(!histo.no_zero_rows);
    assert_eq!(histo.merge_min, 0);
    assert_eq!(histo.merge_max, 0);

    let units = Units::default();

    assert_eq!(units.singular, "");

    let copy = Units::new("a", "b").clone();

    assert_eq!(copy.singular, "a");
    assert_eq!(copy.plural, "b");
}

#[test]
fn lib_index_of_id() {
    let ids = vec![4, 9, 2, 9];

    assert_eq!(index_of_id(&ids, 9), Some(1));
    assert_eq!(index_of_id(&ids, 4), Some(0));
    assert_eq!(index_of_id(&ids, 2), Some(2));
    assert_eq!(index_of_id(&ids, 7), None);
    assert_eq!(index_of_id(&Vec::new(), 7), None);
}
