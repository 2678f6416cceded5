//! Lexicographic order on byte strings and on text.
//!
//! Text is ordered by the bytes of its UTF-8 encoding, which is the order that
//! `str` and `String` have in Rust.

use crate::assoc::strict_total_order;
use vstd::prelude::*;
use vstd::utf8::*;
use vstd::string::*;

verus! {

/// The outcome of a three-way comparison.
#[derive(Clone, Copy, Debug, PartialEq, Eq, Structural)]
pub enum Order {
    Less,
    Equal,
    Greater,
}

/// `a` and `b` agree on their first `i` bytes, and at position `i` either `a`
/// ends while `b` goes on, or `a` holds the smaller byte.
pub open spec fn falls_below_at(a: Seq<u8>, b: Seq<u8>, i: int) -> bool {
    &&& 0 <= i <= a.len()
    &&& i < b.len()
    &&& a.take(i) == b.take(i)
    &&& (i < a.len() ==> a[i] < b[i])
}

/// `a` comes strictly before `b` in lexicographic byte order.
pub open spec fn lex_lt(a: Seq<u8>, b: Seq<u8>) -> bool {
    exists|i: int| falls_below_at(a, b, i)
}

/// `a` comes before `b` in lexicographic byte order, or equals it.
pub open spec fn lex_le(a: Seq<u8>, b: Seq<u8>) -> bool {
    a == b || lex_lt(a, b)
}

/// What a three-way comparison of `a` with `b` yields.
pub open spec fn lex_order(a: Seq<u8>, b: Seq<u8>) -> Order {
    if a == b {
        Order::Equal
    } else if lex_lt(a, b) {
        Order::Less
    } else {
        Order::Greater
    }
}

/// The order is asymmetric: of two byte strings at most one comes first.
pub proof fn lemma_lex_asymmetric(a: Seq<u8>, b: Seq<u8>)
    ensures
        !(lex_lt(a, b) && lex_lt(b, a)),
{
    if lex_lt(a, b) && lex_lt(b, a) {
        let i = choose|i: int| falls_below_at(a, b, i);
        let j = choose|j: int| falls_below_at(b, a, j);
        if i < j {
            assert(b.take(j)[i] == a.take(j)[i]);
        } else if j < i {
            assert(a.take(i)[j] == b.take(i)[j]);
        }
    }
}

/// The order is transitive.
pub proof fn lemma_lex_transitive(a: Seq<u8>, b: Seq<u8>, c: Seq<u8>)
    requires
        lex_lt(a, b),
        lex_lt(b, c),
    ensures
        lex_lt(a, c),
{
    let i = choose|i: int| falls_below_at(a, b, i);
    let j = choose|j: int| falls_below_at(b, c, j);
    let k = if i <= j { i } else { j };
    assert(a.take(k) =~= c.take(k)) by {
        assert forall|n: int| 0 <= n < k implies a[n] == c[n] by {
            assert(a.take(i)[n] == b.take(i)[n]);
            assert(b.take(j)[n] == c.take(j)[n]);
        }
    }
    if i < j {
        assert(b.take(j)[i] == c.take(j)[i]);
    } else if j < i {
        assert(a.take(i)[j] == b.take(i)[j]);
    }
    assert(falls_below_at(a, c, k));
}

/// The order is total: two distinct byte strings are ordered one way or the other.
pub proof fn lemma_lex_total(a: Seq<u8>, b: Seq<u8>)
    ensures
        a == b || lex_lt(a, b) || lex_lt(b, a),
{
    assert(a.take(0) =~= b.take(0));
    lemma_first_difference(a, b, 0);
}

/// A common prefix followed by an equal byte is a longer common prefix.
proof fn lemma_common_prefix_grows(a: Seq<u8>, b: Seq<u8>, i: int)
    requires
        0 <= i < a.len(),
        i < b.len(),
        a.take(i) == b.take(i),
        a[i] == b[i],
    ensures
        a.take(i + 1) == b.take(i + 1),
{
    assert(a.take(i + 1) =~= a.take(i).push(a[i]));
    assert(b.take(i + 1) =~= b.take(i).push(b[i]));
}

/// From a common prefix of length `i` on, either the two strings are equal or
/// a first difference orders them.
proof fn lemma_first_difference(a: Seq<u8>, b: Seq<u8>, i: int)
    requires
        0 <= i <= a.len(),
        i <= b.len(),
        a.take(i) == b.take(i),
    ensures
        a == b || lex_lt(a, b) || lex_lt(b, a),
    decreases a.len() - i,
{
    if i == a.len() {
        if i == b.len() {
            assert(a.take(i) == a);
            assert(b.take(i) == b);
        } else {
            assert(falls_below_at(a, b, i));
        }
    } else if i == b.len() {
        assert(falls_below_at(b, a, i));
    } else if a[i] < b[i] {
        assert(falls_below_at(a, b, i));
    } else if b[i] < a[i] {
        assert(falls_below_at(b, a, i));
    } else {
        lemma_common_prefix_grows(a, b, i);
        lemma_first_difference(a, b, i + 1);
    }
}

/// Compares two byte strings lexicographically.
pub fn compare_bytes(a: &[u8], b: &[u8]) -> (r: Order)
    ensures
        r == lex_order(a@, b@),
{
    let mut i: usize = 0;
    while i < a.len() && i < b.len()
        invariant
            i <= a.len(),
            i <= b.len(),
            a@.take(i as int) == b@.take(i as int),
        decreases a.len() - i,
    {
        if a[i] < b[i] {
            proof {
                assert(falls_below_at(a@, b@, i as int));
                lemma_lex_asymmetric(a@, b@);
            }
            return Order::Less;
        }
        if a[i] > b[i] {
            proof {
                assert(falls_below_at(b@, a@, i as int));
                lemma_lex_asymmetric(a@, b@);
            }
            return Order::Greater;
        }
        proof {
            lemma_common_prefix_grows(a@, b@, i as int);
        }
        i += 1;
    }
    if i < b.len() {
        proof {
            assert(falls_below_at(a@, b@, i as int));
            lemma_lex_asymmetric(a@, b@);
        }
        Order::Less
    } else if i < a.len() {
        proof {
            assert(falls_below_at(b@, a@, i as int));
            lemma_lex_asymmetric(a@, b@);
        }
        Order::Greater
    } else {
        proof {
            assert(a@.take(i as int) == a@);
            assert(b@.take(i as int) == b@);
        }
        Order::Equal
    }
}

/// The bytes by which a text is ordered: its UTF-8 encoding.
pub open spec fn text_bytes(t: Seq<char>) -> Seq<u8> {
    encode_utf8(t)
}

/// `a` comes strictly before `b` in the order of texts.
pub open spec fn text_lt(a: Seq<char>, b: Seq<char>) -> bool {
    lex_lt(text_bytes(a), text_bytes(b))
}

/// What a three-way comparison of the text `a` with the text `b` yields.
pub open spec fn text_order(a: Seq<char>, b: Seq<char>) -> Order {
    if a == b {
        Order::Equal
    } else if text_lt(a, b) {
        Order::Less
    } else {
        Order::Greater
    }
}

/// Two texts with the same bytes are the same text.
pub proof fn lemma_text_bytes_injective(a: Seq<char>, b: Seq<char>)
    requires
        text_bytes(a) == text_bytes(b),
    ensures
        a == b,
{
    encode_utf8_decode_utf8(a);
    encode_utf8_decode_utf8(b);
}

/// The order of texts is a strict total order.
pub proof fn lemma_text_order(a: Seq<char>, b: Seq<char>, c: Seq<char>)
    ensures
        !text_lt(a, a),
        !(text_lt(a, b) && text_lt(b, a)),
        text_lt(a, b) && text_lt(b, c) ==> text_lt(a, c),
        a == b || text_lt(a, b) || text_lt(b, a),
{
    lemma_lex_asymmetric(text_bytes(a), text_bytes(b));
    if text_lt(a, b) && text_lt(b, c) {
        lemma_lex_transitive(text_bytes(a), text_bytes(b), text_bytes(c));
    }
    lemma_lex_total(text_bytes(a), text_bytes(b));
    if text_bytes(a) == text_bytes(b) {
        lemma_text_bytes_injective(a, b);
    }
}

/// The bytes of a text that is not empty are not empty, and the last of them
/// is below 255.
pub proof fn lemma_text_bytes_last(t: Seq<char>)
    requires
        t.len() > 0,
    ensures
        text_bytes(t).len() > 0,
        text_bytes(t).last() <= 0xbf,
{
    encode_utf8_valid_utf8(t);
    assert(encode_scalar(t[0] as u32).len() > 0);
    valid_utf8_last(text_bytes(t));
}

/// The bytes of two texts put together are the bytes of the one followed by
/// the bytes of the other.
pub proof fn lemma_text_bytes_concat(a: Seq<char>, b: Seq<char>)
    ensures
        text_bytes(a + b) == text_bytes(a) + text_bytes(b),
    decreases a.len(),
{
    if a.len() == 0 {
        assert(a + b =~= b);
        assert(text_bytes(a) + text_bytes(b) =~= text_bytes(b));
    } else {
        assert((a + b).drop_first() =~= a.drop_first() + b);
        lemma_text_bytes_concat(a.drop_first(), b);
        assert((a + b)[0] == a[0]);
        assert(text_bytes(a + b) =~= text_bytes(a) + text_bytes(b));
    }
}

/// A text begins with another just where its bytes begin with the bytes of
/// the other.
pub proof fn lemma_text_prefix(prefix: Seq<char>, value: Seq<char>)
    ensures
        text_bytes(prefix).is_prefix_of(text_bytes(value)) <==> prefix.is_prefix_of(value),
    decreases prefix.len(),
{
    let pb = text_bytes(prefix);
    let vb = text_bytes(value);
    if prefix.is_prefix_of(value) {
        let rest = value.skip(prefix.len() as int);
        assert(value =~= prefix + rest);
        lemma_text_bytes_concat(prefix, rest);
        assert(pb =~= vb.subrange(0, pb.len() as int));
    }
    if pb.is_prefix_of(vb) {
        if prefix.len() == 0 {
            assert(prefix =~= value.subrange(0, 0));
        } else {
            lemma_text_bytes_last(prefix);
            if value.len() == 0 {
                assert(vb.len() == 0);
            }
            let first = encode_scalar(prefix[0] as u32);
            let n = first.len() as int;
            encode_utf8_first_scalar(prefix);
            encode_utf8_first_scalar(value);
            assert forall|k: int| 0 <= k < pb.len() implies vb[k] == pb[k] by {
                assert(vb.subrange(0, pb.len() as int)[k] == vb[k]);
            }
            assert(pb =~= first + text_bytes(prefix.drop_first()));
            assert(n <= pb.len());
            assert(decode_first_scalar(vb) == decode_first_scalar(pb));
            char_u32_cast(prefix[0], prefix[0] as u32);
            char_u32_cast(value[0], value[0] as u32);
            assert(prefix[0] == value[0]);
            assert(vb =~= first + text_bytes(value.drop_first()));
            let pr = text_bytes(prefix.drop_first());
            let vr = text_bytes(value.drop_first());
            assert(pr =~= vr.subrange(0, pr.len() as int)) by {
                assert forall|k: int| 0 <= k < pr.len() implies pr[k] == vr[k] by {
                    assert(pb[n + k] == pr[k]);
                    assert(vb[n + k] == vr[k]);
                }
            }
            lemma_text_prefix(prefix.drop_first(), value.drop_first());
            assert(prefix =~= value.subrange(0, prefix.len() as int)) by {
                assert forall|k: int| 0 <= k < prefix.len() implies prefix[k] == value[k] by {
                    if k > 0 {
                        assert(prefix.drop_first()[k - 1] == value.drop_first().subrange(
                            0,
                            prefix.len() - 1,
                        )[k - 1]);
                    }
                }
            }
        }
    }
}

/// The order of texts as a value, for what is stated of orders in general.
pub open spec fn text_lt_fn() -> spec_fn(Seq<char>, Seq<char>) -> bool {
    |a: Seq<char>, b: Seq<char>| text_lt(a, b)
}

/// The order of texts is a strict total order.
pub proof fn lemma_text_lt_fn_is_order()
    ensures
        strict_total_order(text_lt_fn()),
{
    let lt = text_lt_fn();
    assert forall|a: Seq<char>| !#[trigger] lt(a, a) by {
        lemma_text_order(a, a, a);
    }
    assert forall|a: Seq<char>, b: Seq<char>, c: Seq<char>| #[trigger]
        lt(a, b) && #[trigger] lt(b, c) implies lt(a, c) by {
        lemma_text_order(a, b, c);
    }
    assert forall|a: Seq<char>, b: Seq<char>| a == b || #[trigger] lt(a, b) || #[trigger] lt(
        b,
        a,
    ) by {
        lemma_text_order(a, b, b);
    }
}

/// Compares two texts in the order of texts.
pub fn compare_text(a: &str, b: &str) -> (r: Order)
    ensures
        r == text_order(a@, b@),
{
    let r = compare_bytes(a.as_bytes(), b.as_bytes());
    proof {
        if text_bytes(a@) == text_bytes(b@) {
            lemma_text_bytes_injective(a@, b@);
        }
    }
    r
}

} // verus!
