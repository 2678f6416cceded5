//! The inverted index: for each `(key, value)` label the set of series that
//! carry it, held in ascending order of the labels.

use crate::assoc::{
    ascending_keys, lemma_ascending_insert, lemma_ascending_is_distinct, lemma_ascending_unique,
    lemma_ascending_update, lemma_to_map_insert, lemma_to_map_lookup, lemma_to_map_update,
    strict_total_order, to_map,
};
use crate::bitmap::members;
use crate::lex::{
    compare_bytes, compare_text, lemma_lex_asymmetric, lemma_lex_total, lemma_lex_transitive,
    lemma_text_order, lex_le, lex_lt, text_bytes, text_lt, Order,
};
use roaring::RoaringBitmap;
use vstd::prelude::*;
use vstd::slice::slice_subrange;

verus! {

/// A label: a key and a value.
pub type Label = (Seq<char>, Seq<char>);

/// A label with its posting set.
pub type Posting = (Label, Set<u32>);

/// `a` comes before `b`: by key, and by value where the keys are equal.
pub open spec fn label_lt(a: Label, b: Label) -> bool {
    text_lt(a.0, b.0) || (a.0 == b.0 && text_lt(a.1, b.1))
}

/// The order of labels as a value, for what is stated of orders in general.
pub open spec fn label_lt_fn() -> spec_fn(Label, Label) -> bool {
    |a: Label, b: Label| label_lt(a, b)
}

/// The order of labels is a strict total order.
pub proof fn lemma_label_lt_fn_is_order()
    ensures
        strict_total_order(label_lt_fn()),
{
    let lt = label_lt_fn();
    assert forall|a: Label| !#[trigger] lt(a, a) by {
        lemma_text_order(a.0, a.0, a.0);
        lemma_text_order(a.1, a.1, a.1);
    }
    assert forall|a: Label, b: Label, c: Label| #[trigger] lt(a, b) && #[trigger] lt(
        b,
        c,
    ) implies lt(a, c) by {
        lemma_text_order(a.0, b.0, c.0);
        lemma_text_order(a.1, b.1, c.1);
    }
    assert forall|a: Label, b: Label| a == b || #[trigger] lt(a, b) || #[trigger] lt(b, a) by {
        lemma_text_order(a.0, b.0, b.0);
        lemma_text_order(a.1, b.1, b.1);
    }
}

/// The label lies strictly before the point `(key, bound)`, the bound being
/// held against the bytes of the label's value.
pub open spec fn before_point(label: Label, key: Seq<char>, bound: Seq<u8>) -> bool {
    text_lt(label.0, key) || (label.0 == key && lex_lt(text_bytes(label.1), bound))
}

/// The label has the key `key`, and its value lies in `[lo, hi)` by the order
/// of its bytes.
pub open spec fn in_range(label: Label, key: Seq<char>, lo: Seq<u8>, hi: Seq<u8>) -> bool {
    label.0 == key && lex_le(lo, text_bytes(label.1)) && lex_lt(text_bytes(label.1), hi)
}

/// The test that picks the postings of the range out of a list.
pub open spec fn range_test(key: Seq<char>, lo: Seq<u8>, hi: Seq<u8>) -> spec_fn(Posting) -> bool {
    |p: Posting| in_range(p.0, key, lo, hi)
}

/// The postings of `postings` whose label has the key `key` and a value in
/// `[lo, hi)`, in the order in which they stand.
pub open spec fn range_of(postings: Seq<Posting>, key: Seq<char>, lo: Seq<u8>, hi: Seq<u8>) -> Seq<
    Posting,
> {
    postings.filter(range_test(key, lo, hi))
}

/// The sizes of the posting sets of `postings`, summed. A series that is in
/// two of the sets counts twice.
pub open spec fn posting_weight(postings: Seq<Posting>) -> nat
    decreases postings.len(),
{
    if postings.len() == 0 {
        0
    } else {
        posting_weight(postings.drop_last()) + postings.last().1.len()
    }
}

/// `n` where it fits in 64 bits, and the greatest 64-bit number where it does
/// not.
pub open spec fn saturated(n: nat) -> u64 {
    if n <= u64::MAX {
        n as u64
    } else {
        u64::MAX
    }
}

/// The posting set of `label`: empty where the index does not hold the label.
pub open spec fn posting_set(postings: Map<Label, Set<u32>>, label: Label) -> Set<u32> {
    if postings.contains_key(label) {
        postings[label]
    } else {
        Set::empty()
    }
}

/// The postings of an index in ascending order of their labels: the one
/// ascending list that stands for the mapping.
pub open spec fn ascending_postings(postings: Map<Label, Set<u32>>) -> Seq<Posting> {
    choose|list: Seq<Posting>| ascending_keys(list, label_lt_fn()) && to_map(list) == postings
}

/// An ascending list is the list of ascending postings of its mapping.
pub proof fn lemma_ascending_postings(list: Seq<Posting>)
    requires
        ascending_keys(list, label_lt_fn()),
    ensures
        ascending_postings(to_map(list)) == list,
{
    let chosen = ascending_postings(to_map(list));
    lemma_label_lt_fn_is_order();
    lemma_ascending_unique(chosen, list, label_lt_fn());
}

/// One entry of the index: a label and the series that carry it.
pub struct PostingEntry {
    pub key: String,
    pub value: String,
    pub ids: RoaringBitmap,
}

impl View for PostingEntry {
    type V = Posting;

    open spec fn view(&self) -> Posting {
        ((self.key@, self.value@), members(self.ids))
    }
}

/// The postings that a vector of entries holds.
pub open spec fn postings_view(entries: Seq<PostingEntry>) -> Seq<Posting> {
    Seq::new(entries.len(), |i: int| entries[i]@)
}

/// A label that comes before a label that lies before a point lies before
/// that point.
proof fn lemma_before_point_closed(a: Label, b: Label, key: Seq<char>, bound: Seq<u8>)
    requires
        label_lt(a, b),
        before_point(b, key, bound),
    ensures
        before_point(a, key, bound),
{
    lemma_text_order(a.0, b.0, key);
    if a.0 == b.0 && b.0 == key {
        lemma_lex_transitive(text_bytes(a.1), text_bytes(b.1), bound);
    }
}

/// A filter keeps a list whole where every element passes.
proof fn lemma_filter_keeps_all(postings: Seq<Posting>, test: spec_fn(Posting) -> bool)
    requires
        forall|i: int| 0 <= i < postings.len() ==> test(#[trigger] postings[i]),
    ensures
        postings.filter(test) == postings,
    decreases postings.len(),
{
    reveal(Seq::filter);
    if postings.len() > 0 {
        let front = postings.drop_last();
        assert forall|i: int| 0 <= i < front.len() implies test(#[trigger] front[i]) by {
            assert(front[i] == postings[i]);
        }
        lemma_filter_keeps_all(front, test);
        assert(test(postings[postings.len() - 1]));
        assert(front.push(postings.last()) =~= postings);
    }
}

/// A filter leaves nothing of a list where no element passes.
proof fn lemma_filter_drops_all(postings: Seq<Posting>, test: spec_fn(Posting) -> bool)
    requires
        forall|i: int| 0 <= i < postings.len() ==> !test(#[trigger] postings[i]),
    ensures
        postings.filter(test) == Seq::<Posting>::empty(),
    decreases postings.len(),
{
    reveal(Seq::filter);
    if postings.len() > 0 {
        let front = postings.drop_last();
        assert forall|i: int| 0 <= i < front.len() implies !test(#[trigger] front[i]) by {
            assert(front[i] == postings[i]);
        }
        lemma_filter_drops_all(front, test);
        assert(!test(postings[postings.len() - 1]));
    }
}

/// In an ascending list the postings of a range stand together: they are the
/// stretch between the first posting not before `(key, lo)` and the first
/// not before `(key, hi)`.
proof fn lemma_range_is_stretch(
    postings: Seq<Posting>,
    key: Seq<char>,
    lo: Seq<u8>,
    hi: Seq<u8>,
    start: int,
    end: int,
)
    requires
        0 <= start <= end <= postings.len(),
        forall|i: int| 0 <= i < start ==> before_point((#[trigger] postings[i]).0, key, lo),
        forall|i: int|
            start <= i < postings.len() ==> !before_point((#[trigger] postings[i]).0, key, lo),
        forall|i: int| start <= i < end ==> before_point((#[trigger] postings[i]).0, key, hi),
        forall|i: int|
            end <= i < postings.len() ==> !before_point((#[trigger] postings[i]).0, key, hi),
    ensures
        range_of(postings, key, lo, hi) == postings.subrange(start, end),
{
    let test = range_test(key, lo, hi);
    let a = postings.subrange(0, start);
    let b = postings.subrange(start, end);
    let c = postings.subrange(end, postings.len() as int);
    assert forall|i: int| 0 <= i < a.len() implies !test(#[trigger] a[i]) by {
        let label = postings[i].0;
        assert(before_point(label, key, lo));
        lemma_lex_asymmetric(lo, text_bytes(label.1));
        lemma_text_order(label.0, key, key);
    }
    assert forall|i: int| 0 <= i < b.len() implies test(#[trigger] b[i]) by {
        let label = postings[start + i].0;
        assert(b[i] == postings[start + i]);
        assert(!before_point(label, key, lo));
        assert(before_point(label, key, hi));
        lemma_text_order(label.0, key, key);
        lemma_lex_total(lo, text_bytes(label.1));
    }
    assert forall|i: int| 0 <= i < c.len() implies !test(#[trigger] c[i]) by {
        assert(c[i] == postings[end + i]);
        assert(!before_point(postings[end + i].0, key, hi));
    }
    lemma_filter_drops_all(a, test);
    lemma_filter_keeps_all(b, test);
    lemma_filter_drops_all(c, test);
    assert(postings =~= a + b + c);
    Seq::filter_distributes_over_add(a + b, c, test);
    Seq::filter_distributes_over_add(a, b, test);
    assert(postings.filter(test) =~= b);
}

/// The weight of a list grows by the size of the set that is added at its
/// end.
proof fn lemma_posting_weight_take(postings: Seq<Posting>, i: int)
    requires
        0 <= i < postings.len(),
    ensures
        posting_weight(postings.take(i + 1)) == posting_weight(postings.take(i))
            + postings[i].1.len(),
{
    assert(postings.take(i + 1).drop_last() =~= postings.take(i));
}

/// Tells whether the entry lies strictly before the point `(key, bound)`.
fn lies_before(entry: &PostingEntry, key: &str, bound: &[u8]) -> (r: bool)
    ensures
        r == before_point(entry@.0, key@, bound@),
{
    match compare_text(entry.key.as_str(), key) {
        Order::Less => true,
        Order::Equal => match compare_bytes(entry.value.as_str().as_bytes(), bound) {
            Order::Less => true,
            Order::Equal => {
                proof {
                    lemma_lex_asymmetric(bound@, bound@);
                }
                false
            },
            Order::Greater => false,
        },
        Order::Greater => {
            proof {
                lemma_text_order(key@, key@, key@);
            }
            false
        },
    }
}

/// Sums the sizes of the posting sets of `entries`. A series that is in two
/// of the sets counts twice. The sum stops at the greatest 64-bit number.
pub fn count_matches(entries: &[PostingEntry]) -> (weight: u64)
    ensures
        weight == saturated(posting_weight(postings_view(entries@))),
{
    let mut weight: u64 = 0;
    let mut i: usize = 0;
    while i < entries.len()
        invariant
            i <= entries.len(),
            weight == saturated(posting_weight(postings_view(entries@).take(i as int))),
        decreases entries.len() - i,
    {
        proof {
            lemma_posting_weight_take(postings_view(entries@), i as int);
        }
        weight = weight.saturating_add(entries[i].ids.len());
        i += 1;
    }
    proof {
        assert(postings_view(entries@).take(i as int) =~= postings_view(entries@));
    }
    weight
}

/// For each label the set of series that carry it. The entries are kept in
/// ascending order of their labels.
pub struct InvertedIndex {
    entries: Vec<PostingEntry>,
}

impl View for InvertedIndex {
    type V = Map<Label, Set<u32>>;

    /// The posting set of each label that the index holds.
    closed spec fn view(&self) -> Map<Label, Set<u32>> {
        to_map(self.ordered())
    }
}

impl InvertedIndex {
    /// The postings that the entries hold, in the order of the entries.
    pub closed spec fn ordered(&self) -> Seq<Posting> {
        postings_view(self.entries@)
    }

    /// The invariant of the type: the labels of the entries ascend strictly.
    pub closed spec fn wf(&self) -> bool {
        ascending_keys(self.ordered(), label_lt_fn())
    }

    /// The entries of a well-formed index are its ascending postings.
    pub proof fn lemma_ordered(&self)
        requires
            self.wf(),
        ensures
            self.ordered() == ascending_postings(self@),
            ascending_keys(self.ordered(), label_lt_fn()),
            to_map(self.ordered()) == self@,
    {
        lemma_ascending_postings(self.ordered());
    }

    /// An index without labels.
    pub fn new() -> (index: InvertedIndex)
        ensures
            index.wf(),
            index@ == Map::<Label, Set<u32>>::empty(),
    {
        let index = InvertedIndex { entries: Vec::new() };
        assert(index.ordered() =~= Seq::empty());
        index
    }

    /// The number of labels in the index.
    pub fn len(&self) -> (n: usize)
        requires
            self.wf(),
        ensures
            n == self@.len(),
    {
        proof {
            lemma_label_lt_fn_is_order();
            lemma_ascending_is_distinct(self.ordered(), label_lt_fn());
            lemma_to_map_lookup(self.ordered());
        }
        self.entries.len()
    }

    /// All entries in ascending order of their labels.
    pub fn entries(&self) -> (entries: &[PostingEntry])
        requires
            self.wf(),
        ensures
            postings_view(entries@) == ascending_postings(self@),
    {
        proof {
            self.lemma_ordered();
        }
        self.entries.as_slice()
    }

    /// Gives the entries up, in ascending order of their labels.
    pub fn into_entries(self) -> (entries: Vec<PostingEntry>)
        requires
            self.wf(),
        ensures
            postings_view(entries@) == ascending_postings(self@),
    {
        proof {
            self.lemma_ordered();
        }
        self.entries
    }

    /// The number of entries that lie strictly before the point
    /// `(key, bound)`: they are the first entries of the index.
    fn partition_point(&self, key: &str, bound: &[u8]) -> (p: usize)
        requires
            self.wf(),
        ensures
            p <= self.ordered().len(),
            forall|i: int|
                0 <= i < p ==> before_point((#[trigger] self.ordered()[i]).0, key@, bound@),
            forall|i: int|
                p <= i < self.ordered().len() ==> !before_point(
                    (#[trigger] self.ordered()[i]).0,
                    key@,
                    bound@,
                ),
    {
        let mut low: usize = 0;
        let mut high: usize = self.entries.len();
        while low < high
            invariant
                self.wf(),
                low <= high <= self.entries.len(),
                forall|i: int|
                    0 <= i < low ==> before_point((#[trigger] self.ordered()[i]).0, key@, bound@),
                forall|i: int|
                    high <= i < self.ordered().len() ==> !before_point(
                        (#[trigger] self.ordered()[i]).0,
                        key@,
                        bound@,
                    ),
            decreases high - low,
        {
            let mid = low + (high - low) / 2;
            let ghost postings = self.ordered();
            if lies_before(&self.entries[mid], key, bound) {
                proof {
                    assert forall|i: int| 0 <= i < mid + 1 implies before_point(
                        (#[trigger] postings[i]).0,
                        key@,
                        bound@,
                    ) by {
                        if i < mid {
                            assert(label_lt_fn()(postings[i].0, postings[mid as int].0));
                            lemma_before_point_closed(
                                postings[i].0,
                                postings[mid as int].0,
                                key@,
                                bound@,
                            );
                        }
                    }
                }
                low = mid + 1;
            } else {
                proof {
                    assert forall|i: int| mid <= i < postings.len() implies !before_point(
                        (#[trigger] postings[i]).0,
                        key@,
                        bound@,
                    ) by {
                        if mid < i && before_point(postings[i].0, key@, bound@) {
                            assert(label_lt_fn()(postings[mid as int].0, postings[i].0));
                            lemma_before_point_closed(
                                postings[mid as int].0,
                                postings[i].0,
                                key@,
                                bound@,
                            );
                        }
                    }
                }
                high = mid;
            }
        }
        low
    }

    /// Where the label `(key, value)` stands in the index, and whether it is
    /// there: the entries before the position have smaller labels, those from
    /// it on have greater labels, but for the entry of the label itself.
    fn locate(&self, key: &str, value: &str) -> (r: (usize, bool))
        requires
            self.wf(),
        ensures
            r.0 <= self.ordered().len(),
            r.1 ==> r.0 < self.ordered().len() && self.ordered()[r.0 as int].0 == (key@, value@),
            !r.1 ==> forall|j: int|
                0 <= j < r.0 ==> label_lt((#[trigger] self.ordered()[j]).0, (key@, value@)),
            !r.1 ==> forall|j: int|
                r.0 <= j < self.ordered().len() ==> label_lt(
                    (key@, value@),
                    (#[trigger] self.ordered()[j]).0,
                ),
    {
        let p = self.partition_point(key, value.as_bytes());
        let found = p < self.entries.len() && match compare_text(
            self.entries[p].key.as_str(),
            key,
        ) {
            Order::Equal => match compare_text(self.entries[p].value.as_str(), value) {
                Order::Equal => true,
                _ => false,
            },
            _ => false,
        };
        proof {
            let postings = self.ordered();
            let label = (key@, value@);
            lemma_label_lt_fn_is_order();
            if !found {
                assert forall|j: int| p <= j < postings.len() implies label_lt(
                    label,
                    (#[trigger] postings[j]).0,
                ) by {
                    assert(!before_point(postings[j].0, key@, text_bytes(value@)));
                    assert(!label_lt_fn()(postings[j].0, label));
                    if postings[j].0 == label {
                        assert(label_lt_fn()(postings[p as int].0, postings[j].0));
                        assert(!before_point(postings[p as int].0, key@, text_bytes(value@)));
                    }
                    assert(label_lt_fn()(label, postings[j].0));
                }
            }
        }
        (p, found)
    }

    /// The entry of the label `(key, value)`, if the index holds the label.
    pub fn get(&self, key: &str, value: &str) -> (entry: Option<&PostingEntry>)
        requires
            self.wf(),
        ensures
            match entry {
                Some(entry) => entry@.0 == (key@, value@) && self@.contains_key((key@, value@))
                    && self@[(key@, value@)] == entry@.1,
                None => !self@.contains_key((key@, value@)),
            },
    {
        let (p, found) = self.locate(key, value);
        proof {
            lemma_label_lt_fn_is_order();
            lemma_ascending_is_distinct(self.ordered(), label_lt_fn());
            lemma_to_map_lookup(self.ordered());
        }
        if found {
            assert(self.entries[p as int]@ == self.ordered()[p as int]);
            Some(&self.entries[p])
        } else {
            proof {
                let postings = self.ordered();
                let label = (key@, value@);
                if self@.contains_key(label) {
                    let i = choose|i: int|
                        0 <= i < postings.len() && (#[trigger] postings[i]).0 == label;
                    assert(!label_lt_fn()(label, label));
                }
            }
            None
        }
    }

    /// Adds the series `id` to the posting set of the label `(key, value)`,
    /// which starts out empty where the index did not hold the label. Adding
    /// a series that is in the set already changes nothing.
    pub fn add_posting(&mut self, key: &str, value: &str, id: u32)
        requires
            old(self).wf(),
        ensures
            final(self).wf(),
            final(self)@ == old(self)@.insert(
                (key@, value@),
                posting_set(old(self)@, (key@, value@)).insert(id),
            ),
    {
        let (p, found) = self.locate(key, value);
        let ghost before = self.ordered();
        let ghost label = (key@, value@);
        proof {
            lemma_label_lt_fn_is_order();
            lemma_ascending_is_distinct(before, label_lt_fn());
            lemma_to_map_lookup(before);
        }
        if found {
            self.entries[p].ids.insert(id);
            proof {
                let after = self.ordered();
                assert(after =~= before.update(p as int, (label, before[p as int].1.insert(id))));
                lemma_to_map_update(before, p as int, before[p as int].1.insert(id));
                lemma_ascending_update(
                    before,
                    p as int,
                    before[p as int].1.insert(id),
                    label_lt_fn(),
                );
            }
        } else {
            let mut ids = RoaringBitmap::new();
            ids.insert(id);
            let entry = PostingEntry { key: key.to_owned(), value: value.to_owned(), ids };
            self.entries.insert(p, entry);
            proof {
                let after = self.ordered();
                let set = Set::<u32>::empty().insert(id);
                assert(after =~= before.insert(p as int, (label, set)));
                lemma_ascending_insert(before, p as int, label, set, label_lt_fn());
                if to_map(before).contains_key(label) {
                    let i = choose|i: int|
                        0 <= i < before.len() && (#[trigger] before[i]).0 == label;
                }
                lemma_to_map_insert(before, p as int, label, set);
            }
        }
    }

    /// Puts the label `(key, value)` with the posting set `ids` into the
    /// index, in place of the set that the label had, if it had one.
    pub fn insert(&mut self, key: String, value: String, ids: RoaringBitmap)
        requires
            old(self).wf(),
        ensures
            final(self).wf(),
            final(self)@ == old(self)@.insert((key@, value@), members(ids)),
    {
        let (p, found) = self.locate(key.as_str(), value.as_str());
        let ghost before = self.ordered();
        let ghost label = (key@, value@);
        proof {
            lemma_label_lt_fn_is_order();
            lemma_ascending_is_distinct(before, label_lt_fn());
        }
        if found {
            self.entries[p].ids = ids;
            proof {
                let after = self.ordered();
                assert(after =~= before.update(p as int, (label, members(ids))));
                lemma_to_map_update(before, p as int, members(ids));
                lemma_ascending_update(before, p as int, members(ids), label_lt_fn());
            }
        } else {
            self.entries.insert(p, PostingEntry { key, value, ids });
            proof {
                let after = self.ordered();
                assert(after =~= before.insert(p as int, (label, members(ids))));
                lemma_ascending_insert(before, p as int, label, members(ids), label_lt_fn());
                lemma_to_map_insert(before, p as int, label, members(ids));
            }
        }
    }

    /// The entries whose label has the key `key` and a value in `[lo, hi)` by
    /// the order of its bytes, in ascending order. Entries of other keys are
    /// left out, and where `hi` does not come after `lo` there are none.
    pub fn range_query(&self, key: &str, lo: &[u8], hi: &[u8]) -> (entries: &[PostingEntry])
        requires
            self.wf(),
        ensures
            postings_view(entries@) == range_of(ascending_postings(self@), key@, lo@, hi@),
    {
        proof {
            self.lemma_ordered();
        }
        let start = self.partition_point(key, lo);
        let mut end = self.partition_point(key, hi);
        if end < start {
            end = start;
        }
        proof {
            let postings = self.ordered();
            assert forall|i: int| start <= i < end implies before_point(
                (#[trigger] postings[i]).0,
                key@,
                hi@,
            ) by {}
            lemma_range_is_stretch(postings, key@, lo@, hi@, start as int, end as int);
        }
        let entries = slice_subrange(self.entries.as_slice(), start, end);
        proof {
            assert(postings_view(entries@) =~= self.ordered().subrange(start as int, end as int));
        }
        entries
    }
}

} // verus!
