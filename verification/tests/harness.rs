use buildcost::harness::{measure_outcome, parse_report};

fn report_with_count_line(line: &str) -> Vec<u8> {
    let mut text = String::new();
    text.push('\n');
    text.push_str(" Performance counter stats for 'cargo build':\n");
    text.push('\n');
    text.push_str("   some preamble\n");
    text.push_str("   more preamble\n");
    text.push_str(line);
    text.push('\n');
    text.push('\n');
    text.into_bytes()
}

#[test]
fn parses_a_grouped_count() {
    let report = report_with_count_line("     1,234,567      instructions");
    assert_eq!(parse_report(&report), Some(1234567));
}

#[test]
fn parses_an_ungrouped_count() {
    let report = report_with_count_line("123 instructions");
    assert_eq!(parse_report(&report), Some(123));
}

#[test]
fn parses_a_count_line_with_a_carriage_return() {
    let report = report_with_count_line("42\r");
    assert_eq!(parse_report(&report), Some(42));
}

#[test]
fn parses_the_largest_count() {
    let report = report_with_count_line("18,446,744,073,709,551,615 instructions");
    assert_eq!(parse_report(&report), Some(u64::MAX));
}

#[test]
fn rejects_a_count_past_the_counter_width() {
    let report = report_with_count_line("18,446,744,073,709,551,616 instructions");
    assert_eq!(parse_report(&report), None);
}

#[test]
fn rejects_a_report_with_too_few_lines() {
    assert_eq!(parse_report(b"one\ntwo\nthree\n"), None);
    assert_eq!(parse_report(b""), None);
}

#[test]
fn rejects_a_non_numeric_token() {
    let report = report_with_count_line("  <not counted>  instructions");
    assert_eq!(parse_report(&report), None);
}

#[test]
fn rejects_a_blank_count_line() {
    let report = report_with_count_line("        ");
    assert_eq!(parse_report(&report), None);
}

#[test]
fn rejects_a_token_of_commas_alone() {
    let report = report_with_count_line(",,,");
    assert_eq!(parse_report(&report), None);
}

#[test]
fn a_successful_build_yields_its_count() {
    assert_eq!(measure_outcome(true, 777), Some(777));
}

#[test]
fn a_failed_build_yields_no_measurement() {
    assert_eq!(measure_outcome(false, 777), None);
}
