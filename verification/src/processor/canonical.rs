//! The canonical text of a skeleton: a JSON object whose keys come in a fixed
//! order, so that equal skeletons have equal texts. The strings in it are
//! written by `serde_json`.

use crate::processor::skeleton::SkeletonModel;
use crate::processor::text::comma_joined;
use vstd::prelude::*;
use vstd::string::StringExecFns;

verus! {

/// The key under which the attribute names of a level are recorded. No XML
/// element name begins with `@`, so no child bucket has this name.
pub const ATTRIBUTES_KEY: &'static str = "@attributes";

/// The characters of [`ATTRIBUTES_KEY`].
pub open spec fn reserved_key() -> Seq<char> {
    seq!['@', 'a', 't', 't', 'r', 'i', 'b', 'u', 't', 'e', 's']
}

/// The lower-case hexadecimal digit of a value below sixteen.
pub open spec fn hex_digit(value: int) -> char {
    if value == 0 {
        '0'
    } else if value == 1 {
        '1'
    } else if value == 2 {
        '2'
    } else if value == 3 {
        '3'
    } else if value == 4 {
        '4'
    } else if value == 5 {
        '5'
    } else if value == 6 {
        '6'
    } else if value == 7 {
        '7'
    } else if value == 8 {
        '8'
    } else if value == 9 {
        '9'
    } else if value == 10 {
        'a'
    } else if value == 11 {
        'b'
    } else if value == 12 {
        'c'
    } else if value == 13 {
        'd'
    } else if value == 14 {
        'e'
    } else {
        'f'
    }
}

/// How a character stands inside a JSON string: the quote, the backslash and
/// the control characters are escaped, every other character stands for
/// itself.
pub open spec fn escaped_char(c: char) -> Seq<char> {
    if c == '"' {
        seq!['\\', '"']
    } else if c == '\\' {
        seq!['\\', '\\']
    } else if c == '\u{8}' {
        seq!['\\', 'b']
    } else if c == '\t' {
        seq!['\\', 't']
    } else if c == '\n' {
        seq!['\\', 'n']
    } else if c == '\u{c}' {
        seq!['\\', 'f']
    } else if c == '\r' {
        seq!['\\', 'r']
    } else if (c as u32) < 0x20 {
        seq![
            '\\',
            'u',
            '0',
            '0',
            hex_digit((c as u32) as int / 16),
            hex_digit((c as u32) as int % 16),
        ]
    } else {
        seq![c]
    }
}

/// The characters of a text, each as it stands inside a JSON string.
pub open spec fn escaped(text: Seq<char>) -> Seq<char>
    decreases text.len(),
{
    if text.len() == 0 {
        Seq::empty()
    } else {
        escaped(text.drop_last()) + escaped_char(text.last())
    }
}

/// A text as a JSON string.
pub open spec fn quoted(text: Seq<char>) -> Seq<char> {
    seq!['"'] + escaped(text) + seq!['"']
}

/// The entry of a level's attribute names: the reserved key and the array of
/// the names.
pub open spec fn attributes_entry(keys: Seq<Seq<char>>) -> Seq<char> {
    quoted(reserved_key()) + seq![':', '['] + comma_joined(
        keys.map_values(|key: Seq<char>| quoted(key)),
    ) + seq![']']
}

/// The canonical text of a merged shape: a JSON object that holds the
/// attribute names, where there are any, under the reserved key, and then
/// each bucket under its name, in ascending order of the names.
pub open spec fn canonical_text(shape: SkeletonModel) -> Seq<char>
    decreases shape, 1nat,
{
    seq!['{'] + comma_joined(entry_texts(shape)) + seq!['}']
}

/// The entries of the canonical text of a merged shape, in their order.
pub open spec fn entry_texts(shape: SkeletonModel) -> Seq<Seq<char>>
    decreases shape, 0nat,
{
    (if shape.attributes.len() > 0 {
        seq![attributes_entry(shape.attributes)]
    } else {
        Seq::empty()
    }) + Seq::new(
        shape.children.len(),
        |i: int|
            if 0 <= i < shape.children.len() {
                quoted(shape.children[i].name) + seq![':'] + canonical_text(shape.children[i].shape)
            } else {
                Seq::empty()
            },
    )
}

/// `serde_json::Value`'s `Display`, on a JSON string: the text between
/// double quotes, with the quote and the backslash behind a backslash, the
/// control characters backspace, tab, line feed, form feed and carriage
/// return as `\b`, `\t`, `\n`, `\f` and `\r`, every other character below
/// U+0020 as `\u00` and two lower-case hexadecimal digits, and every other
/// character as it is.
#[verifier::external_body]
pub(crate) fn json_quoted(text: &str) -> (literal: String)
    ensures
        literal@ == quoted(text@),
{
    serde_json::Value::String(text.to_string()).to_string()
}

/// Appends a text as a JSON string.
pub fn append_quoted(out: &mut String, text: &str)
    ensures
        final(out)@ == old(out)@ + quoted(text@),
{
    let literal = json_quoted(text);
    out.append(literal.as_str());
}

} // verus!
