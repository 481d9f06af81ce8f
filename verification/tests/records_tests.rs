use lgrep::records::format_record;
use lgrep::records::usize_to_decimal;
use lgrep::scan::ScanEvent;

#[test]
fn decimal_of_zero() {
    assert_eq!(usize_to_decimal(0), "0");
}

#[test]
fn decimal_of_single_digit() {
    assert_eq!(usize_to_decimal(7), "7");
}

#[test]
fn decimal_of_two_digits() {
    assert_eq!(usize_to_decimal(10), "10");
    assert_eq!(usize_to_decimal(42), "42");
}

#[test]
fn decimal_of_larger_numbers() {
    assert_eq!(usize_to_decimal(255), "255");
    assert_eq!(usize_to_decimal(90210), "90210");
}

#[test]
fn context_record_has_dash_and_spaced_colon() {
    let ev = ScanEvent::Context { index: 2, text: "gamma".to_string() };
    assert_eq!(format_record("dir/f.txt", &ev), "dir/f.txt-2: gamma");
}

#[test]
fn match_record_tints_prefix_and_appends_highlight() {
    let ev = ScanEvent::Match { index: 13, text: "\x1b[91;1mbeta\x1b[0m".to_string() };
    assert_eq!(
        format_record("f.txt", &ev),
        "\x1b[32mf.txt-13:\x1b[0m\x1b[91;1mbeta\x1b[0m"
    );
}
