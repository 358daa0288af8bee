//! The key order is the order of texts by their characters: UTF-8 keeps the
//! order of code points.

use crate::processor::key_order::{
    bytes_before, key_before, lemma_bytes_before_irreflexive, lemma_bytes_before_transitive,
};
use vstd::prelude::*;
use vstd::utf8::*;

verus! {

/// Strict lexicographic order on texts by the code points of their
/// characters: a proper prefix comes first, otherwise the first differing
/// character decides.
pub open spec fn characters_before(a: Seq<char>, b: Seq<char>) -> bool
    decreases a.len(),
{
    if b.len() == 0 {
        false
    } else if a.len() == 0 {
        true
    } else if a[0] != b[0] {
        (a[0] as u32) < (b[0] as u32)
    } else {
        characters_before(a.drop_first(), b.drop_first())
    }
}

proof fn lemma_leading_bytes_rise_with_width(c: u32, d: u32)
    by (bit_vector)
    requires
        is_scalar(c),
        is_scalar(d),
    ensures
        has_width_1_encoding(c) ==> leading_byte_width_1(c) <= 0x7f,
        has_width_2_encoding(d) ==> 0xc0 <= leading_byte_width_2(d) <= 0xdf,
        has_width_3_encoding(d) ==> 0xe0 <= leading_byte_width_3(d) <= 0xef,
        has_width_4_encoding(d) ==> 0xf0 <= leading_byte_width_4(d) <= 0xf7,
        has_width_2_encoding(c) ==> 0xc0 <= leading_byte_width_2(c) <= 0xdf,
        has_width_3_encoding(c) ==> 0xe0 <= leading_byte_width_3(c) <= 0xef,
{
}

proof fn lemma_width_1_order(c: u32, d: u32)
    by (bit_vector)
    requires
        has_width_1_encoding(c),
        has_width_1_encoding(d),
        c < d,
    ensures
        leading_byte_width_1(c) < leading_byte_width_1(d),
{
}

proof fn lemma_width_2_order(c: u32, d: u32)
    by (bit_vector)
    requires
        has_width_2_encoding(c),
        has_width_2_encoding(d),
        c < d,
    ensures
        leading_byte_width_2(c) < leading_byte_width_2(d) || (leading_byte_width_2(c)
            == leading_byte_width_2(d) && last_continuation_byte(c) < last_continuation_byte(d)),
{
}

proof fn lemma_width_3_order(c: u32, d: u32)
    by (bit_vector)
    requires
        has_width_3_encoding(c),
        has_width_3_encoding(d),
        c < d,
    ensures
        leading_byte_width_3(c) < leading_byte_width_3(d) || (leading_byte_width_3(c)
            == leading_byte_width_3(d) && (second_last_continuation_byte(c)
            < second_last_continuation_byte(d) || (second_last_continuation_byte(c)
            == second_last_continuation_byte(d) && last_continuation_byte(c)
            < last_continuation_byte(d)))),
{
}

proof fn lemma_width_4_order(c: u32, d: u32)
    by (bit_vector)
    requires
        has_width_4_encoding(c),
        has_width_4_encoding(d),
        c < d,
    ensures
        leading_byte_width_4(c) < leading_byte_width_4(d) || (leading_byte_width_4(c)
            == leading_byte_width_4(d) && (third_last_continuation_byte(c)
            < third_last_continuation_byte(d) || (third_last_continuation_byte(c)
            == third_last_continuation_byte(d) && (second_last_continuation_byte(c)
            < second_last_continuation_byte(d) || (second_last_continuation_byte(c)
            == second_last_continuation_byte(d) && last_continuation_byte(c)
            < last_continuation_byte(d)))))),
{
}

/// Two byte strings differ first at `at`, where the first has the smaller
/// byte.
pub open spec fn parts_at(x: Seq<u8>, y: Seq<u8>, at: int) -> bool {
    &&& 0 <= at < x.len()
    &&& at < y.len()
    &&& x[at] < y[at]
    &&& forall|i: int| 0 <= i < at ==> x[i] == y[i]
}

/// A byte string that has the smaller byte where two first differ stands
/// before the other.
proof fn lemma_first_difference_decides(x: Seq<u8>, y: Seq<u8>, at: int)
    requires
        parts_at(x, y, at),
    ensures
        bytes_before(x, y),
    decreases at,
{
    if at > 0 {
        assert(x[0] == y[0]);
        let x1 = x.drop_first();
        let y1 = y.drop_first();
        assert forall|i: int| 0 <= i < at - 1 implies x1[i] == y1[i] by {
            assert(x1[i] == x[i + 1]);
            assert(y1[i] == y[i + 1]);
        }
        assert(x1[at - 1] == x[at]);
        assert(y1[at - 1] == y[at]);
        lemma_first_difference_decides(x1, y1, at - 1);
    }
}

/// The encodings of two characters differ, and where they first do the
/// smaller character has the smaller byte.
proof fn lemma_scalar_order(c: u32, d: u32) -> (at: int)
    requires
        is_scalar(c),
        is_scalar(d),
        c < d,
    ensures
        0 <= at < encode_scalar(c).len(),
        at < encode_scalar(d).len(),
        encode_scalar(c)[at] < encode_scalar(d)[at],
        forall|i: int| 0 <= i < at ==> encode_scalar(c)[i] == encode_scalar(d)[i],
{
    let x = encode_scalar(c);
    let y = encode_scalar(d);
    lemma_leading_bytes_rise_with_width(c, d);
    if has_width_1_encoding(c) {
        if has_width_1_encoding(d) {
            lemma_width_1_order(c, d);
        }
        0
    } else if has_width_2_encoding(c) {
        if has_width_2_encoding(d) {
            lemma_width_2_order(c, d);
            if x[0] < y[0] {
                0
            } else {
                1
            }
        } else {
            0
        }
    } else if has_width_3_encoding(c) {
        if has_width_3_encoding(d) {
            lemma_width_3_order(c, d);
            if x[0] < y[0] {
                0
            } else if x[1] < y[1] {
                1
            } else {
                2
            }
        } else {
            0
        }
    } else {
        lemma_width_4_order(c, d);
        if x[0] < y[0] {
            0
        } else if x[1] < y[1] {
            1
        } else if x[2] < y[2] {
            2
        } else {
            3
        }
    }
}

/// Behind the same bytes, what follows decides.
proof fn lemma_same_head(head: Seq<u8>, u: Seq<u8>, v: Seq<u8>)
    ensures
        bytes_before(head + u, head + v) == bytes_before(u, v),
    decreases head.len(),
{
    if head.len() == 0 {
        assert(head + u =~= u);
        assert(head + v =~= v);
    } else {
        let rest = head.drop_first();
        assert((head + u).drop_first() =~= rest + u);
        assert((head + v).drop_first() =~= rest + v);
        assert((head + u)[0] == (head + v)[0]);
        lemma_same_head(rest, u, v);
    }
}

/// The key order is the order by characters: UTF-8 keeps the order of code
/// points, so comparing the bytes of two keys compares their characters.
pub proof fn lemma_key_order_is_character_order(a: Seq<char>, b: Seq<char>)
    ensures
        key_before(a, b) == characters_before(a, b),
    decreases a.len(),
{
    let x = encode_utf8(a);
    let y = encode_utf8(b);
    if b.len() == 0 {
    } else if a.len() == 0 {
        assert(encode_scalar(b[0] as u32).len() > 0);
        assert(y.len() > 0);
    } else {
        let c = a[0] as u32;
        let d = b[0] as u32;
        char_is_scalar(a[0]);
        char_is_scalar(b[0]);
        char_u32_cast(a[0], c);
        char_u32_cast(b[0], d);
        let u = encode_utf8(a.drop_first());
        let v = encode_utf8(b.drop_first());
        assert(x == encode_scalar(c) + u);
        assert(y == encode_scalar(d) + v);
        if a[0] == b[0] {
            lemma_same_head(encode_scalar(c), u, v);
            lemma_key_order_is_character_order(a.drop_first(), b.drop_first());
        } else if c < d {
            let at = lemma_scalar_order(c, d);
            assert(parts_at(x, y, at)) by {
                assert(x[at] == encode_scalar(c)[at]);
                assert(y[at] == encode_scalar(d)[at]);
                assert forall|i: int| 0 <= i < at implies x[i] == y[i] by {
                    assert(x[i] == encode_scalar(c)[i]);
                    assert(y[i] == encode_scalar(d)[i]);
                }
            }
            lemma_first_difference_decides(x, y, at);
        } else {
            let at = lemma_scalar_order(d, c);
            assert(parts_at(y, x, at)) by {
                assert(x[at] == encode_scalar(c)[at]);
                assert(y[at] == encode_scalar(d)[at]);
                assert forall|i: int| 0 <= i < at implies y[i] == x[i] by {
                    assert(x[i] == encode_scalar(c)[i]);
                    assert(y[i] == encode_scalar(d)[i]);
                }
            }
            lemma_first_difference_decides(y, x, at);
            if bytes_before(x, y) {
                lemma_bytes_before_transitive(x, y, x);
                lemma_bytes_before_irreflexive(x);
            }
        }
    }
}

} // verus!
