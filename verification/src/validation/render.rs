//! A report as text: the lines of the console report and the HTML of the
//! report for a browser.

use crate::validation::report::{message_models, Message, MessageModel, Report, ReportModel};
use vstd::prelude::*;
use vstd::string::StringExecFns;

verus! {

/// The decimal digit of a value below ten.
pub open spec fn digit(value: nat) -> char {
    if value == 0 {
        '0'
    } else if value == 1 {
        '1'
    } else if value == 2 {
        '2'
    } else if value == 3 {
        '3'
    } else if value == 4 {
        '4'
    } else if value == 5 {
        '5'
    } else if value == 6 {
        '6'
    } else if value == 7 {
        '7'
    } else if value == 8 {
        '8'
    } else {
        '9'
    }
}

/// A number in decimal digits, without leading zeros.
pub open spec fn decimal(number: nat) -> Seq<char>
    decreases number,
{
    if number < 10 {
        seq![digit(number)]
    } else {
        decimal(number / 10).push(digit(number % 10))
    }
}

/// The digits of the values.
pub open spec fn digit_texts(values: Seq<usize>) -> Seq<char> {
    values.map_values(|value: usize| digit(value as nat))
}

/// A message as it stands in a report: line and column with a colon between
/// them, two blanks, and the words.
pub open spec fn message_text(message: MessageModel) -> Seq<char> {
    decimal(message.line) + seq![':'] + decimal(message.column) + seq![' ', ' '] + message.text
}

/// The line that sums a report up.
pub open spec fn totals_text(report: ReportModel) -> Seq<char> {
    "Total: "@ + decimal(report.errors.len()) + " errors, "@ + decimal(report.warnings.len())
        + " warnings, "@ + decimal(report.info.len()) + " info"@
}

/// The messages as HTML, each in a `div` of the given class behind the given
/// mark.
pub open spec fn html_messages(
    messages: Seq<MessageModel>,
    opening: Seq<char>,
) -> Seq<char>
    decreases messages.len(),
{
    if messages.len() == 0 {
        Seq::empty()
    } else {
        html_messages(messages.drop_last(), opening) + opening + message_text(messages.last())
            + "</div>"@
    }
}

/// A report as HTML: the errors, the warnings, and a note that the document
/// passed where there is neither.
pub open spec fn html_text(report: ReportModel) -> Seq<char> {
    "<div class=\"report\">"@ + html_messages(report.errors, "<div class=\"err\">✗ "@)
        + html_messages(report.warnings, "<div class=\"warn\">⚠ "@) + (if report.errors.len() == 0
        && report.warnings.len() == 0 {
        "<div class=\"ok\">✔ Validation passed</div>"@
    } else {
        Seq::empty()
    }) + "</div>"@
}

/// Appends the decimal digit of a value below ten.
fn append_digit(out: &mut String, value: usize)
    requires
        value < 10,
    ensures
        final(out)@ == old(out)@.push(digit(value as nat)),
{
    proof {
        reveal_strlit("0");
        reveal_strlit("1");
        reveal_strlit("2");
        reveal_strlit("3");
        reveal_strlit("4");
        reveal_strlit("5");
        reveal_strlit("6");
        reveal_strlit("7");
        reveal_strlit("8");
        reveal_strlit("9");
    }
    if value == 0 {
        out.append("0");
    } else if value == 1 {
        out.append("1");
    } else if value == 2 {
        out.append("2");
    } else if value == 3 {
        out.append("3");
    } else if value == 4 {
        out.append("4");
    } else if value == 5 {
        out.append("5");
    } else if value == 6 {
        out.append("6");
    } else if value == 7 {
        out.append("7");
    } else if value == 8 {
        out.append("8");
    } else {
        out.append("9");
    }
    assert(out@ =~= old(out)@.push(digit(value as nat)));
}

/// Appends a number in decimal digits.
pub fn append_decimal(out: &mut String, number: usize)
    ensures
        final(out)@ == old(out)@ + decimal(number as nat),
{
    // the digits, the last one first
    let mut digits: Vec<usize> = Vec::new();
    digits.push(number % 10);
    let mut rest: usize = number / 10;
    while rest > 0
        invariant
            digits@.len() > 0,
            forall|i: int| 0 <= i < digits@.len() ==> #[trigger] digits@[i] < 10,
            decimal(number as nat) == (if rest > 0 {
                decimal(rest as nat)
            } else {
                Seq::empty()
            }) + digit_texts(digits@).reverse(),
        decreases rest,
    {
        let ghost before = digit_texts(digits@);
        digits.push(rest % 10);
        proof {
            assert(digit_texts(digits@) =~= before.push(digit((rest % 10) as nat)));
            assert(digit_texts(digits@).reverse() =~= seq![digit((rest % 10) as nat)]
                + before.reverse());
            if rest >= 10 {
                assert(decimal(rest as nat) == decimal((rest / 10) as nat).push(
                    digit((rest % 10) as nat),
                ));
            }
            assert(decimal(number as nat) =~= (if rest / 10 > 0 {
                decimal((rest / 10) as nat)
            } else {
                Seq::empty()
            }) + digit_texts(digits@).reverse());
        }
        rest = rest / 10;
    }
    let mut left: usize = digits.len();
    while left > 0
        invariant
            left <= digits@.len(),
            forall|i: int| 0 <= i < digits@.len() ==> #[trigger] digits@[i] < 10,
            out@ == old(out)@ + digit_texts(digits@).reverse().take(digits@.len() - left),
        decreases left,
    {
        left = left - 1;
        append_digit(out, digits[left]);
        proof {
            let shown = digit_texts(digits@).reverse();
            let count = digits@.len() - left;
            assert(shown.take(count) =~= shown.take(count - 1).push(
                digit(digits@[left as int] as nat),
            ));
        }
    }
    assert(digit_texts(digits@).reverse().take(digits@.len() as int) =~= digit_texts(
        digits@,
    ).reverse());
}

/// Appends a message as it stands in a report.
pub fn append_message(out: &mut String, message: &Message)
    ensures
        final(out)@ == old(out)@ + message_text(message@),
{
    append_decimal(out, message.line);
    proof {
        reveal_strlit(":");
        reveal_strlit("  ");
    }
    out.append(":");
    append_decimal(out, message.column);
    out.append("  ");
    out.append(message.text.as_str());
    assert(out@ =~= old(out)@ + message_text(message@));
}

/// A message as it stands in a report.
pub fn message_line(message: &Message) -> (line: String)
    ensures
        line@ == message_text(message@),
{
    let mut line = String::new();
    append_message(&mut line, message);
    line
}

/// The line that sums a report up.
pub fn totals_line(report: &Report) -> (line: String)
    ensures
        line@ == totals_text(report@),
{
    let mut line = "Total: ".to_string();
    append_decimal(&mut line, report.errors.len());
    line.append(" errors, ");
    append_decimal(&mut line, report.warnings.len());
    line.append(" warnings, ");
    append_decimal(&mut line, report.info.len());
    line.append(" info");
    assert(line@ =~= totals_text(report@));
    line
}

/// Appends the messages as HTML.
fn append_html_messages(out: &mut String, messages: &Vec<Message>, opening: &str)
    ensures
        final(out)@ == old(out)@ + html_messages(
            message_models(messages@),
            opening@,
        ),
{
    let ghost all = message_models(messages@);
    let mut i: usize = 0;
    assert(all.take(0) =~= Seq::empty());
    while i < messages.len()
        invariant
            i <= messages.len(),
            all == message_models(messages@),
            out@ == old(out)@ + html_messages(all.take(i as int), opening@),
        decreases messages.len() - i,
    {
        proof {
            assert(all.take(i + 1).drop_last() =~= all.take(i as int));
            assert(all.take(i + 1).last() == messages@[i as int]@);
        }
        out.append(opening);
        append_message(out, &messages[i]);
        out.append("</div>");
        assert(out@ =~= old(out)@ + html_messages(all.take(i + 1), opening@));
        i = i + 1;
    }
    assert(all.take(i as int) =~= all);
}

/// A report as HTML: the errors, the warnings, and a note that the document
/// passed where there is neither. The words of a message stand as they
/// are.
pub fn render_html(report: &Report) -> (html: String)
    ensures
        html@ == html_text(report@),
{
    let mut html = "<div class=\"report\">".to_string();
    append_html_messages(&mut html, &report.errors, "<div class=\"err\">✗ ");
    append_html_messages(&mut html, &report.warnings, "<div class=\"warn\">⚠ ");
    let ghost main = html@;
    if report.is_valid() && report.warnings.len() == 0 {
        html.append("<div class=\"ok\">✔ Validation passed</div>");
    }
    html.append("</div>");
    assert(html@ =~= html_text(report@));
    html
}

} // verus!
