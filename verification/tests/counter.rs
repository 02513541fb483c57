use rustics::counter::Counter;
use rustics::{PrintOpts, Printer, PrinterBox, Units};
use std::cell::RefCell;
use std::rc::Rc;

fn bytes() -> Option<Units> {
    let singular = "byte".to_string();
    let plural   = "bytes".to_string();

    Some(Units { singular, plural })
}

fn test_simple_counter() {
    let test_limit  = 20;
    let test_title  = "Test Counter";
    let mut counter = Counter::new(test_title, &None);

    assert!(counter.title() == test_title);

    for i in 1..=test_limit {
        counter.record_event();
        counter.record_i64(i);
    }

    // record_event increments by one.

    let events   = test_limit;
    let sequence = ((test_limit + 1) * test_limit) / 2;
    let expected = events + sequence;

    assert!(counter.count() == expected as u64);

    let i = counter.record_event_report();
    assert!(i == counter.event_increment());

    // Check that set_units works.

    counter.set_units(bytes().unwrap());

    assert!(counter.units().singular == "byte");

    // Check that clear works.

    assert!(counter.count() != 0);
    counter.clear();
    assert!(counter.count() == 0);

    // Now test set_id.

    counter.set_id(1);
    let test_id = counter.id() + 1;
    counter.set_id(test_id);
    assert!(counter.id() == test_id);
}

#[test]
fn counter_run_tests() {
    test_simple_counter();
}

#[test]
fn counter_documentation_example() {
    let test_limit  = 20;
    let singular    = "byte".to_string();
    let plural      = "bytes".to_string();
    let units       = Some(Units { singular, plural });
    let printer     = None;
    let title       = None;
    let histo_opts  = None;
    let print_opts  = Some(PrintOpts { printer, title, units, histo_opts });
    let mut counter = Counter::new("test counter", &print_opts);

    for i in 1..=test_limit {
        counter.record_event();
        counter.record_i64(i);
    }

    let events   = test_limit;
    let sequence = ((test_limit + 1) * test_limit) / 2;
    let expected = events + sequence;

    assert!(counter.count() == expected as u64);
    assert!(counter.units().plural == "bytes");
    assert!(counter.name() == "test counter");
    assert!(counter.title() == "test counter");
    assert!(counter.id() == usize::MAX);
    assert!(counter.printer().is_none());

    counter.set_title("renamed");
    assert!(counter.title() == "renamed");
}

struct Discard;

impl Printer for Discard {
    fn print(&mut self, _output: &str) {
    }
}

// The counter prints through the very printer given in its options.
#[test]
fn counter_shares_printer() {
    let printer: PrinterBox = Rc::new(RefCell::new(Discard));
    let print_opts = PrintOpts { printer: Some(printer.clone()), title: None, units: None, histo_opts: None };
    let print_opts = Some(print_opts);
    let counter    = Counter::new("shared", &print_opts);

    let given = counter.printer().unwrap();

    assert!(Rc::ptr_eq(&given, &printer));
    assert!(Counter::new("alone", &None).printer().is_none());

    let copy = print_opts.unwrap().clone();

    assert!(Rc::ptr_eq(&copy.printer.unwrap(), &printer));
}
