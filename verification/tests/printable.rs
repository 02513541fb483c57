use rustics::Units;
use rustics::printable::{commas, commas_i64, commas_u64, decimal_i64, decimal_u64, integer_line, log_mode_value, scientific_parts};

fn test_commas() {
    let test   = [ 123456, 12, -1, -1234, 4000000, -200, -2000, -20000 ];

    let expect =
        [ "123,456", "12", "-1", "-1,234", "4,000,000", "-200", "-2,000", "-20,000" ];

    for i in 0..test.len() {
        println!("Test:  {} vs {}", commas_i64(test[i]), expect[i]);

        assert_eq!(commas_i64(test[i]), expect[i]);
    }

    assert_eq!(commas(    "+21"),      "+21");
    assert_eq!(commas(   "+212"),     "+212");
    assert_eq!(commas(  "+2123"),   "+2,123");
    assert_eq!(commas( "+21234"),  "+21,234");
    assert_eq!(commas("+212345"), "+212,345");

    assert_eq!(commas(     "12"),       "12");
    assert_eq!(commas(    "123"),      "123");
    assert_eq!(commas(   "2345"),    "2,345");
    assert_eq!(commas(  "23456"),   "23,456");
    assert_eq!(commas( "345678"),  "345,678");

    assert_eq!(commas(    "+12"),      "+12");
    assert_eq!(commas(   "+123"),     "+123");
    assert_eq!(commas(  "+2345"),   "+2,345");
    assert_eq!(commas( "+23456"),  "+23,456");
    assert_eq!(commas("+345678"), "+345,678");

    assert_eq!(commas(    "-12"),      "-12");
    assert_eq!(commas(   "-123"),     "-123");
    assert_eq!(commas(  "-2345"),   "-2,345");
    assert_eq!(commas( "-23456"),  "-23,456");
    assert_eq!(commas("-345678"), "-345,678");

    assert_eq!(commas(    "+20"),      "+20");
    assert_eq!(commas(   "+200"),     "+200");
    assert_eq!(commas(  "+2000"),   "+2,000");
    assert_eq!(commas( "+20000"),  "+20,000");
    assert_eq!(commas("+200000"), "+200,000");

    assert_eq!(commas(    "-20"),      "-20");
    assert_eq!(commas(   "-200"),     "-200");
    assert_eq!(commas(  "-2000"),   "-2,000");
    assert_eq!(commas( "-20000"),  "-20,000");
    assert_eq!(commas("-200000"), "-200,000");
}

fn comma_examples() {
    assert_eq!(commas(   "+20"),       "+20");
    assert_eq!(commas(  "-200"),      "-200");
    assert_eq!(commas(  "2000"),     "2,000");
    assert_eq!(commas("+12345"),   "+12,345");
    assert_eq!(commas("-12345"),   "-12,345");
    assert_eq!(commas("200000"),   "200,000");
}

#[test]
fn printable_run_tests() {
    test_commas();
    comma_examples();
}

#[test]
fn printable_extreme_commas() {
    let test   = [ 0, 1000, i64::MIN, i64::MAX ];
    let expect = [ "0", "1,000", "-9,223,372,036,854,775,808", "9,223,372,036,854,775,807" ];

    for i in 0..test.len() {
        assert_eq!(commas_i64(test[i]), expect[i]);
    }
}

#[test]
fn printable_unsigned_commas() {
    assert_eq!(commas_u64(0), "0");
    assert_eq!(commas_u64(1_000), "1,000");
    assert_eq!(commas_u64(u64::MAX), "18,446,744,073,709,551,615");
}

#[test]
fn printable_decimal() {
    assert_eq!(decimal_u64(0), "0");
    assert_eq!(decimal_u64(907), "907");
    assert_eq!(decimal_i64(-45), "-45");
    assert_eq!(decimal_i64(i64::MIN), i64::MIN.to_string());
    assert_eq!(decimal_u64(u64::MAX), u64::MAX.to_string());
}

// The counter's printed count line: the name left-justified in twelve
// columns, the value with commas right-justified in twelve, then the unit.
#[test]
fn printable_integer_line() {
    assert_eq!(integer_line("Count", 1000, &Units::empty()), "    Count               1,000 ");

    let bytes = Units::new("byte", "bytes");

    assert_eq!(integer_line("Size", 1, &bytes), "    Size                    1 byte");
    assert_eq!(integer_line("Size", -20, &bytes), "    Size                  -20 bytes");
    assert_eq!(integer_line("A very long name", 5, &bytes), "    A very long name            5 bytes");
}

// Commas go between groups of three bytes counted from the right, so text
// whose groups are whole characters keeps them intact.
#[test]
fn printable_commas_utf8() {
    assert_eq!(commas("日本語"), "日,本,語");
    assert_eq!(commas("+日本語"), "+日,本,語");
    assert_eq!(commas("1234日"), "1,234,日");
    assert_eq!(commas("日"), "日");
    assert_eq!(commas("-1234"), "-1,234");
}

#[test]
fn printable_log_mode_value() {
    assert_eq!(log_mode_value(0), 1);
    assert_eq!(log_mode_value(1), 2);
    assert_eq!(log_mode_value(2), 3);
    assert_eq!(log_mode_value(3), 6);
    assert_eq!(log_mode_value(-3), -6);
    assert_eq!(log_mode_value(62), (1_i64 << 62) - (1_i64 << 60));
    assert_eq!(log_mode_value(63), 6_917_529_027_641_081_856);
    assert_eq!(log_mode_value(-63), -6_917_529_027_641_081_856);
}

// The scientific text of a number is split into an eight-character
// mantissa and an exponent of at least four bytes.
#[test]
fn printable_scientific_parts() {
    let (mantissa, exponent) = scientific_parts("+1.5e-3");
    assert_eq!(mantissa, "+1.50000");
    assert_eq!(exponent, "e-3 ");

    let (mantissa, exponent) = scientific_parts("+1e3");
    assert_eq!(mantissa, "+1.00000");
    assert_eq!(exponent, "e+3 ");

    let (mantissa, exponent) = scientific_parts("-1.23456789e100");
    assert_eq!(mantissa, "-1.23456");
    assert_eq!(exponent, "e+100");

    let (mantissa, exponent) = scientific_parts("NaN");
    assert_eq!(mantissa, "NaN.0000");
    assert_eq!(exponent, "NaN ");
}
