//! The canonical text tells skeletons apart: different merged shapes have
//! different texts, so what is hashed differs wherever the shapes differ.

use crate::processor::canonical::{
    attributes_entry, canonical_text, entry_texts, escaped, escaped_char, hex_digit, quoted,
    reserved_key,
};
use crate::processor::skeleton::{BucketModel, SkeletonModel};
use crate::processor::text::comma_joined;
use crate::processor::xml_struct::text_stream;
use vstd::prelude::*;
use vstd::utf8::*;

verus! {

/// The escapes of characters form a prefix code: where two texts that begin
/// with the escape of a character are the same, the characters are the same
/// and so is what follows.
pub proof fn lemma_escaped_char_prefix_free(c: char, d: char, u: Seq<char>, v: Seq<char>)
    requires
        escaped_char(c) + u == escaped_char(d) + v,
    ensures
        c == d,
        u == v,
{
    let left = escaped_char(c) + u;
    let right = escaped_char(d) + v;
    assert(escaped_char(c).len() >= 1 && escaped_char(d).len() >= 1);
    assert(left[0] == right[0]);
    assert(left[0] == escaped_char(c)[0]);
    assert(right[0] == escaped_char(d)[0]);
    if escaped_char(c).len() >= 2 {
        assert(left[1] == escaped_char(c)[1]);
    }
    if escaped_char(d).len() >= 2 {
        assert(right[1] == escaped_char(d)[1]);
    }
    if escaped_char(c).len() == 1 {
        // a plain character is no backslash, so the other one is plain too
        assert(escaped_char(d).len() == 1);
    } else {
        assert(escaped_char(d).len() >= 2);
        assert(left[1] == right[1]);
        if escaped_char(c).len() == 6 {
            assert(escaped_char(d).len() == 6);
            assert(left[4] == escaped_char(c)[4]);
            assert(left[5] == escaped_char(c)[5]);
            assert(right[4] == escaped_char(d)[4]);
            assert(right[5] == escaped_char(d)[5]);
            assert(left[4] == right[4]);
            assert(left[5] == right[5]);
            let cv = (c as u32) as int;
            let dv = (d as u32) as int;
            assert(hex_digit(cv / 16) == hex_digit(dv / 16));
            assert(hex_digit(cv % 16) == hex_digit(dv % 16));
            assert(0 <= cv < 32 && 0 <= dv < 32);
            assert(cv / 16 == dv / 16);
            assert(cv % 16 == dv % 16);
            assert(cv == dv);
        }
    }
    assert(c == d);
    assert(u =~= left.skip(escaped_char(c).len() as int));
    assert(v =~= right.skip(escaped_char(d).len() as int));
}

/// The escape of a text that begins with `c` begins with the escape of `c`.
pub proof fn lemma_escaped_first(text: Seq<char>)
    requires
        text.len() > 0,
    ensures
        escaped(text) == escaped_char(text[0]) + escaped(text.drop_first()),
    decreases text.len(),
{
    if text.len() == 1 {
        assert(text.drop_last() =~= Seq::<char>::empty());
        assert(text.drop_first() =~= Seq::<char>::empty());
        assert(escaped(text.drop_last()) =~= Seq::<char>::empty());
        assert(escaped(text) =~= escaped_char(text[0]) + escaped(text.drop_first()));
    } else {
        lemma_escaped_first(text.drop_last());
        assert(text.drop_last().drop_first() =~= text.drop_first().drop_last());
        assert(text.drop_last()[0] == text[0]);
        assert(text.drop_first().last() == text.last());
        assert(escaped(text) =~= escaped_char(text[0]) + escaped(text.drop_first()));
    }
}

/// No escape of a character begins with a double quote.
pub proof fn lemma_escaped_char_is_no_quote(c: char)
    ensures
        escaped_char(c).len() > 0,
        escaped_char(c)[0] != '"',
{
}

/// Where two texts that begin with an escaped text and the closing quote
/// are the same, the escaped texts are those of the same text and what
/// follows is the same.
pub proof fn lemma_escaped_prefix_free(a: Seq<char>, b: Seq<char>, x: Seq<char>, y: Seq<char>)
    requires
        escaped(a) + seq!['"'] + x == escaped(b) + seq!['"'] + y,
    ensures
        a == b,
        x == y,
    decreases a.len(),
{
    let left = escaped(a) + seq!['"'] + x;
    let right = escaped(b) + seq!['"'] + y;
    if a.len() == 0 {
        if b.len() > 0 {
            lemma_escaped_first(b);
            lemma_escaped_char_is_no_quote(b[0]);
            assert(left[0] == '"');
            assert(right[0] == escaped_char(b[0])[0]);
        }
        assert(a =~= b);
        assert(x =~= left.skip(1));
        assert(y =~= right.skip(1));
    } else {
        lemma_escaped_first(a);
        lemma_escaped_char_is_no_quote(a[0]);
        assert(left[0] == escaped_char(a[0])[0]);
        if b.len() == 0 {
            assert(right[0] == '"');
        } else {
            lemma_escaped_first(b);
            let rest_a = escaped(a.drop_first()) + seq!['"'] + x;
            let rest_b = escaped(b.drop_first()) + seq!['"'] + y;
            assert(left =~= escaped_char(a[0]) + rest_a);
            assert(right =~= escaped_char(b[0]) + rest_b);
            lemma_escaped_char_prefix_free(a[0], b[0], rest_a, rest_b);
            lemma_escaped_prefix_free(a.drop_first(), b.drop_first(), x, y);
            assert(a =~= seq![a[0]] + a.drop_first());
            assert(b =~= seq![b[0]] + b.drop_first());
        }
    }
}

/// JSON strings are self-delimiting: where two texts that begin with a
/// JSON string are the same, the strings are those of the same text and
/// what follows is the same. So different texts have different JSON
/// strings.
pub proof fn lemma_quoted_prefix_free(a: Seq<char>, b: Seq<char>, x: Seq<char>, y: Seq<char>)
    requires
        quoted(a) + x == quoted(b) + y,
    ensures
        a == b,
        x == y,
{
    let left = quoted(a) + x;
    let right = quoted(b) + y;
    let inner_a = escaped(a) + seq!['"'] + x;
    let inner_b = escaped(b) + seq!['"'] + y;
    assert(left =~= seq!['"'] + inner_a);
    assert(right =~= seq!['"'] + inner_b);
    assert(inner_a =~= left.skip(1));
    assert(inner_b =~= right.skip(1));
    lemma_escaped_prefix_free(a, b, x, y);
}

/// The parts with a comma between each two, and the closing character
/// behind them.
pub open spec fn closed_list(parts: Seq<Seq<char>>, close: char) -> Seq<char> {
    comma_joined(parts) + seq![close]
}

/// A list of two parts or more is its first part, a comma, and the list of
/// the other parts.
pub proof fn lemma_comma_joined_first(parts: Seq<Seq<char>>)
    requires
        parts.len() >= 2,
    ensures
        comma_joined(parts) == parts[0] + seq![','] + comma_joined(parts.drop_first()),
    decreases parts.len(),
{
    let front = parts.drop_last();
    let back = parts.drop_first();
    if parts.len() == 2 {
        assert(front.len() == 1 && back.len() == 1);
        assert(comma_joined(front) == front[0]);
        assert(comma_joined(back) == back[0]);
        assert(front[0] == parts[0]);
        assert(back[0] == parts.last());
    } else {
        lemma_comma_joined_first(front);
        assert(front.drop_first() =~= back.drop_last());
        assert(front[0] == parts[0]);
        assert(back.last() == parts.last());
        assert(comma_joined(back) == comma_joined(back.drop_last()) + seq![','] + back.last());
        assert(comma_joined(parts) =~= parts[0] + seq![','] + comma_joined(back));
    }
}

/// A closed list is the closing character alone, or its first part and
/// then the closing character or a comma and the list of the other parts.
pub proof fn lemma_closed_list_first(parts: Seq<Seq<char>>, close: char)
    ensures
        closed_list(parts, close) == if parts.len() == 0 {
            seq![close]
        } else if parts.len() == 1 {
            parts[0] + seq![close]
        } else {
            parts[0] + (seq![','] + closed_list(parts.drop_first(), close))
        },
{
    if parts.len() == 0 {
        assert(closed_list(parts, close) =~= seq![close]);
    } else if parts.len() == 1 {
    } else {
        lemma_comma_joined_first(parts);
        assert(closed_list(parts, close) =~= parts[0] + (seq![','] + closed_list(
            parts.drop_first(),
            close,
        )));
    }
}

/// The keys as JSON strings.
pub open spec fn quoted_keys(keys: Seq<Seq<char>>) -> Seq<Seq<char>> {
    keys.map_values(|key: Seq<char>| quoted(key))
}

/// A JSON string begins with a double quote.
proof fn lemma_quoted_first(text: Seq<char>)
    ensures
        quoted(text).len() >= 2,
        quoted(text)[0] == '"',
{
    assert(quoted(text) =~= seq!['"'] + (escaped(text) + seq!['"']));
}

/// Arrays of JSON strings are self-delimiting: where two texts that begin
/// with such an array, behind its opening bracket, are the same, the arrays
/// hold the same keys and what follows is the same.
pub proof fn lemma_key_list_prefix_free(
    ks: Seq<Seq<char>>,
    ls: Seq<Seq<char>>,
    x: Seq<char>,
    y: Seq<char>,
)
    requires
        closed_list(quoted_keys(ks), ']') + x == closed_list(quoted_keys(ls), ']') + y,
    ensures
        ks == ls,
        x == y,
    decreases ks.len(),
{
    let left = closed_list(quoted_keys(ks), ']') + x;
    let right = closed_list(quoted_keys(ls), ']') + y;
    lemma_closed_list_first(quoted_keys(ks), ']');
    lemma_closed_list_first(quoted_keys(ls), ']');
    if ks.len() > 0 {
        lemma_quoted_first(ks[0]);
        assert(quoted_keys(ks)[0] == quoted(ks[0]));
        assert(left[0] == '"');
    } else {
        assert(left[0] == ']');
    }
    if ls.len() > 0 {
        lemma_quoted_first(ls[0]);
        assert(quoted_keys(ls)[0] == quoted(ls[0]));
        assert(right[0] == '"');
    } else {
        assert(right[0] == ']');
    }
    if ks.len() == 0 {
        assert(ks =~= ls);
        assert(x =~= left.skip(1));
        assert(y =~= right.skip(1));
    } else {
        let ks1 = ks.drop_first();
        let ls1 = ls.drop_first();
        assert(quoted_keys(ks).drop_first() =~= quoted_keys(ks1));
        assert(quoted_keys(ls).drop_first() =~= quoted_keys(ls1));
        let rest_k = if ks.len() == 1 {
            seq![']'] + x
        } else {
            seq![','] + (closed_list(quoted_keys(ks1), ']') + x)
        };
        let rest_l = if ls.len() == 1 {
            seq![']'] + y
        } else {
            seq![','] + (closed_list(quoted_keys(ls1), ']') + y)
        };
        assert(left =~= quoted(ks[0]) + rest_k);
        assert(right =~= quoted(ls[0]) + rest_l);
        lemma_quoted_prefix_free(ks[0], ls[0], rest_k, rest_l);
        assert(rest_k[0] == rest_l[0]);
        if ks.len() == 1 {
            assert(ls.len() == 1);
            assert(x =~= rest_k.skip(1));
            assert(y =~= rest_l.skip(1));
            assert(ks =~= ls);
        } else {
            assert(ls.len() > 1);
            assert(closed_list(quoted_keys(ks1), ']') + x =~= rest_k.skip(1));
            assert(closed_list(quoted_keys(ls1), ']') + y =~= rest_l.skip(1));
            lemma_key_list_prefix_free(ks1, ls1, x, y);
            assert(ks =~= seq![ks[0]] + ks1);
            assert(ls =~= seq![ls[0]] + ls1);
        }
    }
}

/// A key as a JSON string.
#[verifier::opaque]
pub closed spec fn key_text(key: Seq<char>) -> Seq<char> {
    quoted(key)
}

/// The canonical text of a merged shape.
#[verifier::opaque]
pub closed spec fn shape_text(shape: SkeletonModel) -> Seq<char> {
    canonical_text(shape)
}

/// The entry of a bucket in the canonical text: its name as a JSON string,
/// a colon, and the canonical text of its shape.
pub closed spec fn bucket_entry(bucket: BucketModel) -> Seq<char> {
    key_text(bucket.name) + (seq![':'] + shape_text(bucket.shape))
}

/// The entries of the buckets, in their order.
pub closed spec fn bucket_entries(buckets: Seq<BucketModel>) -> Seq<Seq<char>> {
    buckets.map_values(|bucket: BucketModel| bucket_entry(bucket))
}

/// What stands behind the entry of the attribute names: the closing brace,
/// or a comma and the entries of the buckets.
pub closed spec fn after_attributes(buckets: Seq<BucketModel>) -> Seq<char> {
    if buckets.len() == 0 {
        seq!['}']
    } else {
        seq![','] + closed_list(bucket_entries(buckets), '}')
    }
}

/// The canonical text behind its opening brace.
pub closed spec fn canonical_body(shape: SkeletonModel) -> Seq<char> {
    if shape.attributes.len() > 0 {
        key_text(reserved_key()) + (seq![':', '['] + (closed_list(
            quoted_keys(shape.attributes),
            ']',
        ) + after_attributes(shape.children)))
    } else {
        closed_list(bucket_entries(shape.children), '}')
    }
}

/// The canonical text is the opening brace and the body.
proof fn lemma_canonical_body(shape: SkeletonModel)
    ensures
        shape_text(shape) == seq!['{'] + canonical_body(shape),
        shape_text(shape) == canonical_text(shape),
{
    reveal(key_text);
    reveal(shape_text);
    let entries = entry_texts(shape);
    let buckets = bucket_entries(shape.children);
    let of_children = Seq::new(
        shape.children.len(),
        |i: int|
            if 0 <= i < shape.children.len() {
                quoted(shape.children[i].name) + seq![':'] + canonical_text(shape.children[i].shape)
            } else {
                Seq::empty()
            },
    );
    assert(of_children.len() == buckets.len());
    assert forall|i: int| 0 <= i < buckets.len() implies of_children[i] == buckets[i] by {
        assert(buckets[i] == bucket_entry(shape.children[i]));
        assert(of_children[i] =~= key_text(shape.children[i].name) + (seq![':'] + shape_text(
            shape.children[i].shape,
        )));
    }
    assert(of_children =~= buckets);
    if shape.attributes.len() > 0 {
        let first = attributes_entry(shape.attributes);
        assert(entries =~= seq![first] + buckets);
        lemma_closed_list_first(entries, '}');
        assert(entries[0] == first);
        assert(entries.drop_first() =~= buckets);
        assert(first =~= quoted(reserved_key()) + (seq![':', '['] + closed_list(
            quoted_keys(shape.attributes),
            ']',
        )));
        assert(closed_list(entries, '}') =~= canonical_body(shape));
    } else {
        assert(entries =~= buckets);
    }
    assert(canonical_text(shape) =~= seq!['{'] + closed_list(entries, '}'));
}

/// A key's text begins with a double quote, and key texts are
/// self-delimiting.
proof fn lemma_key_text_first(key: Seq<char>)
    ensures
        key_text(key).len() >= 2,
        key_text(key)[0] == '"',
{
    reveal(key_text);
    lemma_quoted_first(key);
}

proof fn lemma_key_text_prefix_free(a: Seq<char>, b: Seq<char>, x: Seq<char>, y: Seq<char>)
    requires
        key_text(a) + x == key_text(b) + y,
    ensures
        a == b,
        x == y,
{
    reveal(key_text);
    lemma_quoted_prefix_free(a, b, x, y);
}

/// A shape's text begins with an opening brace.
proof fn lemma_shape_text_first(shape: SkeletonModel)
    ensures
        shape_text(shape).len() >= 1,
        shape_text(shape)[0] == '{',
{
    lemma_canonical_body(shape);
}

/// Two texts that are the same are the same behind their first character.
proof fn lemma_strip_first(c: char, u: Seq<char>, v: Seq<char>)
    requires
        seq![c] + u == seq![c] + v,
    ensures
        u == v,
{
    assert(u =~= (seq![c] + u).skip(1));
    assert(v =~= (seq![c] + v).skip(1));
}

/// The entry of a bucket is what a text begins with.
proof fn lemma_bucket_list_first(cs: Seq<BucketModel>, x: Seq<char>)
    ensures
        closed_list(bucket_entries(cs), '}') + x == if cs.len() == 0 {
            seq!['}'] + x
        } else {
            key_text(cs[0].name) + (seq![':'] + (shape_text(cs[0].shape) + after_attributes(
                cs.drop_first(),
            ) + x))
        },
{
    lemma_closed_list_first(bucket_entries(cs), '}');
    if cs.len() > 0 {
        assert(bucket_entries(cs)[0] == bucket_entry(cs[0]));
        assert(bucket_entries(cs).drop_first() =~= bucket_entries(cs.drop_first()));
        if cs.len() == 1 {
            assert(closed_list(bucket_entries(cs), '}') + x =~= key_text(cs[0].name) + (seq![':']
                + (shape_text(cs[0].shape) + after_attributes(cs.drop_first()) + x)));
        } else {
            assert(closed_list(bucket_entries(cs), '}') + x =~= key_text(cs[0].name) + (seq![':']
                + (shape_text(cs[0].shape) + after_attributes(cs.drop_first()) + x)));
        }
    } else {
        assert(closed_list(bucket_entries(cs), '}') + x =~= seq!['}'] + x);
    }
}

/// The canonical text is self-delimiting and tells shapes apart: where two
/// texts that begin with a canonical text are the same, the canonical
/// texts are those of the same merged shape, and what follows is the same.
pub proof fn lemma_canonical_prefix_free(
    s: SkeletonModel,
    t: SkeletonModel,
    x: Seq<char>,
    y: Seq<char>,
)
    requires
        canonical_text(s) + x == canonical_text(t) + y,
    ensures
        s == t,
        x == y,
    decreases s, 2nat,
{
    lemma_canonical_body(s);
    lemma_canonical_body(t);
    assert(canonical_text(s) + x =~= seq!['{'] + (canonical_body(s) + x));
    assert(canonical_text(t) + y =~= seq!['{'] + (canonical_body(t) + y));
    lemma_strip_first('{', canonical_body(s) + x, canonical_body(t) + y);
    lemma_body_prefix_free(s, t, x, y);
}

/// The same, of the texts behind their opening braces.
proof fn lemma_body_prefix_free(s: SkeletonModel, t: SkeletonModel, x: Seq<char>, y: Seq<char>)
    requires
        canonical_body(s) + x == canonical_body(t) + y,
    ensures
        s == t,
        x == y,
    decreases s, 1nat,
{
    if s.attributes.len() > 0 && t.attributes.len() > 0 {
        let list_s = closed_list(quoted_keys(s.attributes), ']') + (after_attributes(s.children)
            + x);
        let list_t = closed_list(quoted_keys(t.attributes), ']') + (after_attributes(t.children)
            + y);
        let rest_s = seq![':'] + (seq!['['] + list_s);
        let rest_t = seq![':'] + (seq!['['] + list_t);
        assert(canonical_body(s) + x =~= key_text(reserved_key()) + rest_s);
        assert(canonical_body(t) + y =~= key_text(reserved_key()) + rest_t);
        lemma_key_text_prefix_free(reserved_key(), reserved_key(), rest_s, rest_t);
        lemma_strip_first(':', seq!['['] + list_s, seq!['['] + list_t);
        lemma_strip_first('[', list_s, list_t);
        lemma_key_list_prefix_free(
            s.attributes,
            t.attributes,
            after_attributes(s.children) + x,
            after_attributes(t.children) + y,
        );
        lemma_after_attributes_prefix_free(s.children, t.children, x, y);
    } else if s.attributes.len() == 0 && t.attributes.len() == 0 {
        lemma_bucket_list_prefix_free(s.children, t.children, x, y);
        assert(s.attributes =~= t.attributes);
    } else if s.attributes.len() > 0 {
        lemma_attributes_entry_is_no_bucket_entry(s, t, x, y);
    } else {
        lemma_attributes_entry_is_no_bucket_entry(t, s, y, x);
    }
}

/// A text that begins with the entry of attribute names is none that
/// begins with the closing brace or with the entry of a bucket.
proof fn lemma_attributes_entry_is_no_bucket_entry(
    with: SkeletonModel,
    without: SkeletonModel,
    x: Seq<char>,
    y: Seq<char>,
)
    requires
        with.attributes.len() > 0,
        without.attributes.len() == 0,
    ensures
        canonical_body(with) + x != canonical_body(without) + y,
{
    let one = canonical_body(with) + x;
    let other = canonical_body(without) + y;
    if one == other {
        let list = closed_list(quoted_keys(with.attributes), ']') + (after_attributes(
            with.children,
        ) + x);
        let rest_with = seq![':'] + (seq!['['] + list);
        assert(one =~= key_text(reserved_key()) + rest_with);
        lemma_key_text_first(reserved_key());
        assert(one[0] == '"');
        lemma_bucket_list_first(without.children, y);
        if without.children.len() == 0 {
            assert(other[0] == '}');
        } else {
            let first = without.children[0];
            let behind = shape_text(first.shape) + after_attributes(without.children.drop_first())
                + y;
            let rest_without = seq![':'] + behind;
            lemma_key_text_prefix_free(reserved_key(), first.name, rest_with, rest_without);
            lemma_shape_text_first(first.shape);
            assert(rest_with[1] == '[');
            assert(rest_without[1] == behind[0]);
            assert(behind[0] == shape_text(first.shape)[0]);
        }
    }
}

/// What stands behind the attribute names is self-delimiting.
proof fn lemma_after_attributes_prefix_free(
    cs: Seq<BucketModel>,
    ds: Seq<BucketModel>,
    x: Seq<char>,
    y: Seq<char>,
)
    requires
        after_attributes(cs) + x == after_attributes(ds) + y,
    ensures
        cs == ds,
        x == y,
    decreases cs, 1nat,
{
    let left = after_attributes(cs) + x;
    let right = after_attributes(ds) + y;
    assert(left[0] == right[0]);
    if cs.len() == 0 {
        assert(left =~= seq!['}'] + x);
        assert(left[0] == '}');
        if ds.len() > 0 {
            assert(right =~= seq![','] + (closed_list(bucket_entries(ds), '}') + y));
            assert(right[0] == ',');
        }
        assert(right =~= seq!['}'] + y);
        lemma_strip_first('}', x, y);
        assert(cs =~= ds);
    } else {
        assert(left =~= seq![','] + (closed_list(bucket_entries(cs), '}') + x));
        assert(left[0] == ',');
        if ds.len() == 0 {
            assert(right =~= seq!['}'] + y);
            assert(right[0] == '}');
        }
        assert(right =~= seq![','] + (closed_list(bucket_entries(ds), '}') + y));
        lemma_strip_first(
            ',',
            closed_list(bucket_entries(cs), '}') + x,
            closed_list(bucket_entries(ds), '}') + y,
        );
        lemma_bucket_list_prefix_free(cs, ds, x, y);
    }
}

/// Lists of bucket entries are self-delimiting: where two texts that begin
/// with such a list and the closing brace are the same, the lists are those
/// of the same buckets and what follows is the same.
proof fn lemma_bucket_list_prefix_free(
    cs: Seq<BucketModel>,
    ds: Seq<BucketModel>,
    x: Seq<char>,
    y: Seq<char>,
)
    requires
        closed_list(bucket_entries(cs), '}') + x == closed_list(bucket_entries(ds), '}') + y,
    ensures
        cs == ds,
        x == y,
    decreases cs, 0nat,
{
    let left = closed_list(bucket_entries(cs), '}') + x;
    let right = closed_list(bucket_entries(ds), '}') + y;
    lemma_bucket_list_first(cs, x);
    lemma_bucket_list_first(ds, y);
    assert(left[0] == right[0]);
    if cs.len() > 0 {
        lemma_key_text_first(cs[0].name);
        assert(left[0] == '"');
    } else {
        assert(left[0] == '}');
    }
    if ds.len() > 0 {
        lemma_key_text_first(ds[0].name);
        assert(right[0] == '"');
    } else {
        assert(right[0] == '}');
    }
    if cs.len() == 0 {
        lemma_strip_first('}', x, y);
        assert(cs =~= ds);
    } else {
        let cs1 = cs.drop_first();
        let ds1 = ds.drop_first();
        let behind_c = shape_text(cs[0].shape) + after_attributes(cs1) + x;
        let behind_d = shape_text(ds[0].shape) + after_attributes(ds1) + y;
        lemma_key_text_prefix_free(
            cs[0].name,
            ds[0].name,
            seq![':'] + behind_c,
            seq![':'] + behind_d,
        );
        lemma_strip_first(':', behind_c, behind_d);
        lemma_canonical_body(cs[0].shape);
        lemma_canonical_body(ds[0].shape);
        assert(behind_c =~= canonical_text(cs[0].shape) + (after_attributes(cs1) + x));
        assert(behind_d =~= canonical_text(ds[0].shape) + (after_attributes(ds1) + y));
        lemma_canonical_prefix_free(
            cs[0].shape,
            ds[0].shape,
            after_attributes(cs1) + x,
            after_attributes(ds1) + y,
        );
        lemma_after_attributes_prefix_free(cs1, ds1, x, y);
        assert(cs[0] == ds[0]);
        assert(cs =~= seq![cs[0]] + cs1);
        assert(ds =~= seq![ds[0]] + ds1);
    }
}

/// Different merged shapes have different canonical texts: what is hashed
/// differs wherever the shapes differ.
pub proof fn lemma_canonical_text_injective(s: SkeletonModel, t: SkeletonModel)
    requires
        canonical_text(s) == canonical_text(t),
    ensures
        s == t,
{
    lemma_canonical_prefix_free(s, t, Seq::empty(), Seq::empty());
}

/// Different merged shapes feed different bytes to the hasher: their hashes
/// are the same only where the hash function itself collides.
pub proof fn lemma_distinct_shapes_are_hashed_apart(s: SkeletonModel, t: SkeletonModel)
    requires
        s != t,
    ensures
        canonical_text(s) != canonical_text(t),
        text_stream(canonical_text(s)) != text_stream(canonical_text(t)),
{
    if canonical_text(s) == canonical_text(t) {
        lemma_canonical_text_injective(s, t);
    }
    if text_stream(canonical_text(s)) == text_stream(canonical_text(t)) {
        assert(text_stream(canonical_text(s))[0] == text_stream(canonical_text(t))[0]);
        encode_utf8_decode_utf8(canonical_text(s));
        encode_utf8_decode_utf8(canonical_text(t));
    }
}

} // verus!
