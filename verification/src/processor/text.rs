//! Small helpers for building and searching text.

use vstd::prelude::*;
use vstd::std_specs::iter::IteratorSpec;
use vstd::string::StringExecFns;

verus! {

/// The parts, with a comma between each two.
pub open spec fn comma_joined(parts: Seq<Seq<char>>) -> Seq<char>
    decreases parts.len(),
{
    if parts.len() == 0 {
        Seq::empty()
    } else if parts.len() == 1 {
        parts[0]
    } else {
        comma_joined(parts.drop_last()) + seq![','] + parts.last()
    }
}

/// The lower-case form of a text, as `str::to_lowercase` gives it.
pub uninterp spec fn lowercase_of(text: Seq<char>) -> Seq<char>;

/// `str::to_lowercase`: the lower-case equivalent of the text. The outcome
/// depends on the text alone.
#[verifier::external_body]
pub(crate) fn to_lowercase(text: &str) -> (lowered: String)
    ensures
        lowered@ == lowercase_of(text@),
{
    text.to_lowercase()
}

/// Whether `pattern` stands somewhere in `text`.
pub open spec fn holds_text(text: Seq<char>, pattern: Seq<char>) -> bool {
    exists|at: int|
        0 <= at && at + pattern.len() <= text.len() && #[trigger] text.subrange(
            at,
            at + pattern.len(),
        ) == pattern
}

/// The characters of a text.
pub fn characters(text: &str) -> (all: Vec<char>)
    ensures
        all@ == text@,
{
    let mut all: Vec<char> = Vec::new();
    let mut rest = text.chars();
    let ghost mut done: int = 0;
    assert(text@.skip(0) =~= text@);
    loop
        invariant_except_break
            0 <= done <= text@.len(),
            rest.obeys_prophetic_iter_laws(),
            rest.remaining() == text@.skip(done),
            all@ == text@.take(done),
        ensures
            all@ == text@,
        decreases text@.len() - done,
    {
        match rest.next() {
            Some(c) => {
                proof {
                    assert(text@.skip(done).drop_first() =~= text@.skip(done + 1));
                    assert(c == text@[done]);
                }
                all.push(c);
                proof {
                    done = done + 1;
                    assert(all@ =~= text@.take(done));
                }
            },
            None => {
                assert(text@.take(done) =~= text@);
                break ;
            },
        }
    }
    all
}

/// Whether `pattern` stands in `text` at `at`.
fn stands_at(text: &Vec<char>, pattern: &Vec<char>, at: usize) -> (found: bool)
    requires
        at + pattern@.len() <= text@.len(),
    ensures
        found == (text@.subrange(at as int, at + pattern@.len()) == pattern@),
{
    let length = text.len();
    let mut i: usize = 0;
    while i < pattern.len()
        invariant
            i <= pattern.len(),
            length == text@.len(),
            at + pattern@.len() <= text@.len(),
            forall|j: int| 0 <= j < i ==> text@[at + j] == pattern@[j],
        decreases pattern.len() - i,
    {
        if text[at + i] != pattern[i] {
            assert(text@.subrange(at as int, at + pattern@.len())[i as int] != pattern@[i as int]);
            return false;
        }
        i = i + 1;
    }
    assert(text@.subrange(at as int, at + pattern@.len()) =~= pattern@);
    true
}

/// Whether `pattern` stands somewhere in `text`.
pub fn text_contains(text: &str, pattern: &str) -> (found: bool)
    ensures
        found == holds_text(text@, pattern@),
{
    let whole = characters(text);
    let part = characters(pattern);
    if part.len() > whole.len() {
        return false;
    }
    let last = whole.len() - part.len();
    let mut at: usize = 0;
    loop
        invariant
            at <= last,
            last + part@.len() == whole@.len(),
            whole@ == text@,
            part@ == pattern@,
            forall|earlier: int|
                0 <= earlier < at ==> #[trigger] whole@.subrange(earlier, earlier + part@.len())
                    != part@,
        decreases last - at,
    {
        if stands_at(&whole, &part, at) {
            return true;
        }
        if at == last {
            return false;
        }
        at = at + 1;
    }
}

/// Appends the parts to `out`, with a comma between each two.
pub fn append_comma_joined(out: &mut String, parts: &Vec<String>)
    ensures
        final(out)@ == old(out)@ + comma_joined(parts@.map_values(|part: String| part@)),
{
    let ghost texts = parts@.map_values(|part: String| part@);
    let mut i: usize = 0;
    while i < parts.len()
        invariant
            i <= parts.len(),
            texts == parts@.map_values(|part: String| part@),
            out@ == old(out)@ + comma_joined(texts.take(i as int)),
        decreases parts.len() - i,
    {
        if i > 0 {
            proof {
                reveal_strlit(",");
            }
            out.append(",");
        }
        out.append(parts[i].as_str());
        proof {
            assert(texts.take(i + 1).drop_last() =~= texts.take(i as int));
            assert(texts.take(i + 1).last() == parts@[i as int]@);
            assert(out@ =~= old(out)@ + comma_joined(texts.take(i + 1)));
        }
        i = i + 1;
    }
    assert(texts.take(i as int) =~= texts);
}

} // verus!
