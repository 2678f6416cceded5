//! The query engine: the weight of the labels of one key whose value begins
//! with a prefix.
//!
//! The values that begin with a prefix are taken to be those in the range
//! from the prefix to the prefix with its last byte raised by one. For a
//! prefix that is not empty and whose last byte is below 255 these are
//! exactly the values that begin with the prefix; the range of an empty
//! prefix, or of one that ends in the byte 255, is empty.

use crate::inverted_index::{
    ascending_postings, count_matches, in_range, posting_weight, range_of, saturated,
    InvertedIndex, Label, Posting,
};
use crate::lex::{
    falls_below_at, lemma_lex_asymmetric, lemma_lex_transitive, lemma_text_bytes_last,
    lemma_text_prefix, lex_le, lex_lt, text_bytes,
};
use std::time::Duration;
use vstd::prelude::*;
use vstd::slice::slice_to_vec;

verus! {

/// The end of the range of values that begin with `prefix`: the prefix with
/// its last byte raised by one, the byte 255 turning into 0.
pub open spec fn prefix_end(prefix: Seq<u8>) -> Seq<u8> {
    if prefix.len() == 0 {
        prefix
    } else {
        let last = prefix.last();
        prefix.update(
            prefix.len() - 1,
            if last == 255 {
                0u8
            } else {
                (last + 1) as u8
            },
        )
    }
}

/// The summed sizes of the posting sets of the labels with the key `key`
/// whose value lies between `prefix` and `prefix_end(prefix)`, stopping at
/// the greatest 64-bit number.
pub open spec fn prefix_weight(
    postings: Map<Label, Set<u32>>,
    key: Seq<char>,
    prefix: Seq<u8>,
) -> u64 {
    saturated(
        posting_weight(range_of(ascending_postings(postings), key, prefix, prefix_end(prefix))),
    )
}

/// Where the last byte of the prefix is below 255, the byte strings from
/// `prefix` up to `prefix_end(prefix)` are exactly those that begin with the
/// prefix.
pub proof fn lemma_prefix_range(prefix: Seq<u8>, value: Seq<u8>)
    requires
        prefix.len() > 0,
        prefix.last() < 255,
    ensures
        lex_le(prefix, value) && lex_lt(value, prefix_end(prefix)) <==> prefix.is_prefix_of(value),
{
    let n = prefix.len() as int;
    let end = prefix_end(prefix);
    if prefix.is_prefix_of(value) {
        assert(value.take(n) == prefix);
        if value.len() > n {
            assert(falls_below_at(prefix, value, n)) by {
                assert(prefix.take(n) =~= prefix);
            }
        } else {
            assert(value =~= prefix);
        }
        assert(falls_below_at(value, end, n - 1)) by {
            assert(value.take(n - 1) =~= end.take(n - 1));
        }
    }
    if lex_le(prefix, value) && lex_lt(value, end) {
        if prefix != value {
            let i = choose|i: int| falls_below_at(prefix, value, i);
            let j = choose|j: int| falls_below_at(value, end, j);
            if i < n {
                // the value leaves the prefix at `i` upwards, and yet stays below the end
                if j < i {
                    assert(prefix.take(i)[j] == value.take(i)[j]);
                } else if j > i {
                    assert(value.take(j)[i] == end.take(j)[i]);
                }
                assert(false);
            }
            assert(prefix.take(n) =~= prefix);
            assert(prefix =~= value.subrange(0, n));
        } else {
            assert(prefix =~= value.subrange(0, n));
        }
    }
}

/// The range of an empty prefix is empty, and so is the range of a prefix
/// that ends in the byte 255.
pub proof fn lemma_prefix_range_empty(prefix: Seq<u8>, value: Seq<u8>)
    requires
        prefix.len() == 0 || prefix.last() == 255,
    ensures
        !(lex_le(prefix, value) && lex_lt(value, prefix_end(prefix))),
{
    let end = prefix_end(prefix);
    if prefix.len() > 0 && lex_le(prefix, value) && lex_lt(value, end) {
        let n = prefix.len() as int;
        assert(falls_below_at(end, prefix, n - 1)) by {
            assert(end.take(n - 1) =~= prefix.take(n - 1));
        }
        if prefix != value {
            lemma_lex_transitive(end, prefix, value);
        }
        lemma_lex_asymmetric(end, value);
    }
}

/// A search with a prefix that is not empty matches the labels with the key
/// asked for whose value begins with the prefix. The bytes of a text never
/// end in 255, so that the range of the search is exact.
pub proof fn lemma_search_matches_prefix(label: Label, key: Seq<char>, prefix: Seq<char>)
    requires
        prefix.len() > 0,
    ensures
        in_range(label, key, text_bytes(prefix), prefix_end(text_bytes(prefix))) <==> label.0
            == key && prefix.is_prefix_of(label.1),
{
    lemma_text_bytes_last(prefix);
    lemma_prefix_range(text_bytes(prefix), text_bytes(label.1));
    lemma_text_prefix(prefix, label.1);
}

/// The test that picks out the postings with the key `key` whose value begins
/// with `prefix`.
pub open spec fn prefix_test(key: Seq<char>, prefix: Seq<char>) -> spec_fn(Posting) -> bool {
    |p: Posting| p.0.0 == key && prefix.is_prefix_of(p.0.1)
}

/// The range that a search with a prefix that is not empty scans holds the
/// postings with the key asked for whose value begins with the prefix, and
/// no others.
pub proof fn lemma_search_range(postings: Seq<Posting>, key: Seq<char>, prefix: Seq<char>)
    requires
        prefix.len() > 0,
    ensures
        range_of(postings, key, text_bytes(prefix), prefix_end(text_bytes(prefix)))
            == postings.filter(prefix_test(key, prefix)),
    decreases postings.len(),
{
    reveal(Seq::filter);
    if postings.len() > 0 {
        lemma_search_range(postings.drop_last(), key, prefix);
        lemma_search_matches_prefix(postings.last().0, key, prefix);
    }
}

/// Computes the end of the range of values that begin with `prefix`.
pub fn prefix_upper_bound(prefix: &[u8]) -> (end: Vec<u8>)
    ensures
        end@ == prefix_end(prefix@),
{
    let mut end = slice_to_vec(prefix);
    let n = end.len();
    if n > 0 {
        let last = end[n - 1];
        end[n - 1] = last.wrapping_add(1);
    }
    end
}

/// What a search found, and how long the scan of the index took.
pub struct QueryResult {
    pub matched_weight: u64,
    pub elapsed: Duration,
}

/// Scans `index` for the labels with the key `label_key` whose value begins
/// with `value_prefix` and sums the sizes of their posting sets.
pub fn matched_weight(index: &InvertedIndex, label_key: &str, value_prefix: &str) -> (weight: u64)
    requires
        index.wf(),
    ensures
        weight == prefix_weight(index@, label_key@, text_bytes(value_prefix@)),
{
    let lo = value_prefix.as_bytes();
    let hi = prefix_upper_bound(lo);
    let entries = index.range_query(label_key, lo, hi.as_slice());
    count_matches(entries)
}

} // verus!
