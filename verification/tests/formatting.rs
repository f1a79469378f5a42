use lang_stats::present::abbreviate_number;
use lang_stats::present::decimal_string;
use lang_stats::present::format_lang_name;
use lang_stats::present::pad_lang_name;
use lang_stats::present::percent_string;
use lang_stats::present::percentage_centi;
use lang_stats::present::render_progress_bar;

#[test]
fn abbreviation_boundaries() {
    assert_eq!(abbreviate_number(0), "0");
    assert_eq!(abbreviate_number(999), "999");
    assert_eq!(abbreviate_number(1000), "1.0k");
    assert_eq!(abbreviate_number(12345), "12.3k");
}

#[test]
fn abbreviation_examples() {
    assert_eq!(abbreviate_number(950), "950");
    assert_eq!(abbreviate_number(2345), "2.3k");
    assert_eq!(abbreviate_number(999999), "1000.0k");
}

#[test]
fn decimal_rendering() {
    assert_eq!(decimal_string(0), "0");
    assert_eq!(decimal_string(7), "7");
    assert_eq!(decimal_string(1234567), "1234567");
}

#[test]
fn bar_at_zero_percent_is_all_empty() {
    assert_eq!(render_progress_bar(0), "░░░░░░░░░░");
}

#[test]
fn bar_at_hundred_percent_is_all_filled() {
    assert_eq!(render_progress_bar(10000), "▓▓▓▓▓▓▓▓▓▓");
}

#[test]
fn bar_at_forty_five_percent_rounds_half_up() {
    assert_eq!(render_progress_bar(4500), "▓▓▓▓▓░░░░░");
}

#[test]
fn bar_at_ninety_four_point_nine() {
    assert_eq!(render_progress_bar(9490), "▓▓▓▓▓▓▓▓▓░");
}

#[test]
fn bar_beyond_hundred_does_not_fail() {
    assert_eq!(render_progress_bar(15000), "▓▓▓▓▓▓▓▓▓▓▓▓▓▓▓");
}

#[test]
fn display_name_overrides() {
    assert_eq!(format_lang_name("Jupyter Notebook"), "Jupyter");
    assert_eq!(format_lang_name("Visual Basic .NET"), "VB.NET");
    assert_eq!(format_lang_name("Rust"), "Rust");
}

#[test]
fn names_are_left_justified_to_fifteen() {
    assert_eq!(pad_lang_name("Go"), "Go             ");
    assert_eq!(pad_lang_name("Go").len(), 15);
    assert_eq!(pad_lang_name("A rather long language"), "A rather long language");
}

#[test]
fn percentage_rounding_and_rendering() {
    assert_eq!(percentage_centi(500, 1000), 5000);
    assert_eq!(percentage_centi(1, 3), 3333);
    assert_eq!(percentage_centi(2, 3), 6667);
    assert_eq!(percentage_centi(1000, 1000), 10000);
    assert_eq!(percent_string(5000), "50.00%");
    assert_eq!(percent_string(3333), "33.33%");
    assert_eq!(percent_string(10000), "100.00%");
    assert_eq!(percent_string(5), "0.05%");
}
