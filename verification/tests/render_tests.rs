use xml_structer::validation::render::{append_decimal, message_line, render_html, totals_line};
use xml_structer::validation::report::{Message, Report, Severity};
use xml_structer::validation::validate::run;

fn decimal(number: usize) -> String {
    let mut text = String::new();
    append_decimal(&mut text, number);
    text
}

#[test]
fn numbers_are_written_in_decimal() {
    assert_eq!(decimal(0), "0");
    assert_eq!(decimal(7), "7");
    assert_eq!(decimal(10), "10");
    assert_eq!(decimal(1203), "1203");
    assert_eq!(decimal(usize::MAX), usize::MAX.to_string());
    let mut text = "n=".to_string();
    append_decimal(&mut text, 42);
    assert_eq!(text, "n=42");
}

#[test]
fn message_line_has_place_and_words() {
    let message = Message { line: 3, column: 14, text: "<pb> missing @n".to_string() };
    assert_eq!(message_line(&message), "3:14  <pb> missing @n");
}

#[test]
fn totals_line_counts_each_severity() {
    let mut report = Report::new();
    report.push(1, 1, "a".to_string(), Severity::Error);
    report.push(1, 1, "b".to_string(), Severity::Error);
    report.push(1, 1, "c".to_string(), Severity::Info);
    assert_eq!(totals_line(&report), "Total: 2 errors, 0 warnings, 1 info");
}

#[test]
fn html_of_a_clean_report() {
    let report = run("<TEI/>");
    assert_eq!(
        render_html(&report),
        "<div class=\"report\"><div class=\"ok\">✔ Validation passed</div></div>"
    );
}

#[test]
fn html_lists_errors_then_warnings() {
    let report = run("<book><pb/><head/></book>");
    assert_eq!(
        render_html(&report),
        "<div class=\"report\">\
<div class=\"err\">✗ 1:7  <pb> missing @ed</div>\
<div class=\"err\">✗ 1:7  <pb> missing @n</div>\
<div class=\"warn\">⚠ 0:0  Root element should contain 'tei' (case-insensitive), found <book></div>\
<div class=\"warn\">⚠ 1:12  <head> should be inside <div></div>\
</div>"
    );
}
