//! Label sets and their canonical form.
//!
//! A label set maps label keys to label values. Its canonical form lists the
//! pairs by ascending key; the series name renders each pair as `key=value`
//! and joins the pairs with `|`.

use crate::assoc::{
    ascending_keys, lemma_ascending_insert, lemma_ascending_is_distinct, lemma_ascending_unique,
    lemma_ascending_update, lemma_to_map_insert, lemma_to_map_lookup, lemma_to_map_update, to_map,
};
use crate::error::DbError;
use crate::lex::{
    compare_text, lemma_text_lt_fn_is_order, lemma_text_order, text_lt, text_lt_fn, Order,
};
use vstd::prelude::*;
use vstd::string::*;

verus! {

/// The keys of `pairs` ascend strictly in the order of texts.
pub open spec fn keys_ascending(pairs: Seq<(Seq<char>, Seq<char>)>) -> bool {
    ascending_keys(pairs, text_lt_fn())
}

/// One pair as it appears in a series name: `key=value`.
pub open spec fn pair_text(pair: (Seq<char>, Seq<char>)) -> Seq<char> {
    pair.0 + seq!['='] + pair.1
}

/// The series name of a list of pairs: the pairs in the given order, each
/// rendered as `key=value`, joined with `|`.
pub open spec fn series_name(pairs: Seq<(Seq<char>, Seq<char>)>) -> Seq<char>
    decreases pairs.len(),
{
    if pairs.len() == 0 {
        Seq::empty()
    } else if pairs.len() == 1 {
        pair_text(pairs[0])
    } else {
        series_name(pairs.drop_last()) + seq!['|'] + pair_text(pairs.last())
    }
}

/// The pairs hold no separator where it could be taken for one: no key holds
/// `=` or `|`, and no value holds `|`.
pub open spec fn free_of_separators(pairs: Seq<(Seq<char>, Seq<char>)>) -> bool {
    forall|i: int|
        0 <= i < pairs.len() ==> !(#[trigger] pairs[i]).0.contains('=') && !pairs[i].0.contains(
            '|',
        ) && !pairs[i].1.contains('|')
}

/// The texts of a vector of pairs of strings.
pub open spec fn pairs_view(pairs: Seq<(String, String)>) -> Seq<(Seq<char>, Seq<char>)> {
    Seq::new(pairs.len(), |i: int| (pairs[i].0@, pairs[i].1@))
}

/// A set of labels: label keys with their values, each key at most once.
pub struct Labels {
    pairs: Vec<(String, String)>,
}

impl View for Labels {
    type V = Map<Seq<char>, Seq<char>>;

    closed spec fn view(&self) -> Map<Seq<char>, Seq<char>> {
        to_map(self.sorted_pairs())
    }
}

impl Labels {
    /// The pairs of the set by ascending key.
    pub closed spec fn sorted_pairs(&self) -> Seq<(Seq<char>, Seq<char>)> {
        pairs_view(self.pairs@)
    }

    /// The invariant of the type: the pairs are held by strictly ascending key.
    pub closed spec fn wf(&self) -> bool {
        keys_ascending(self.sorted_pairs())
    }

    /// An empty label set.
    pub fn new() -> (labels: Labels)
        ensures
            labels.wf(),
            labels@ == Map::<Seq<char>, Seq<char>>::empty(),
    {
        let labels = Labels { pairs: Vec::new() };
        assert(labels.sorted_pairs() =~= Seq::empty());
        labels
    }

    /// The sorted pairs of a well-formed label set list each key of its
    /// mapping once, by ascending key, with the value of the key.
    pub proof fn lemma_sorted_pairs(&self)
        requires
            self.wf(),
        ensures
            keys_ascending(self.sorted_pairs()),
            to_map(self.sorted_pairs()) == self@,
            self.sorted_pairs().len() == self@.len(),
    {
        lemma_text_lt_fn_is_order();
        lemma_ascending_is_distinct(self.sorted_pairs(), text_lt_fn());
        lemma_to_map_lookup(self.sorted_pairs());
    }

    /// The number of labels in the set.
    pub fn len(&self) -> (n: usize)
        requires
            self.wf(),
        ensures
            n == self@.len(),
    {
        proof {
            self.lemma_sorted_pairs();
        }
        self.pairs.len()
    }

    /// Where `key` stands among the sorted pairs, and whether it is there:
    /// the pairs before the position have smaller keys, those from it on have
    /// greater keys, but for the pair at the position where the key is found.
    fn position(&self, key: &str) -> (r: (usize, bool))
        requires
            self.wf(),
        ensures
            r.0 <= self.sorted_pairs().len(),
            forall|j: int| 0 <= j < r.0 ==> text_lt((#[trigger] self.sorted_pairs()[j]).0, key@),
            r.1 ==> r.0 < self.sorted_pairs().len() && self.sorted_pairs()[r.0 as int].0 == key@,
            !r.1 ==> forall|j: int|
                r.0 <= j < self.sorted_pairs().len() ==> text_lt(
                    key@,
                    (#[trigger] self.sorted_pairs()[j]).0,
                ),
    {
        let mut i: usize = 0;
        while i < self.pairs.len()
            invariant
                self.wf(),
                i <= self.pairs.len(),
                forall|j: int| 0 <= j < i ==> text_lt((#[trigger] self.sorted_pairs()[j]).0, key@),
            decreases self.pairs.len() - i,
        {
            let order = compare_text(self.pairs[i].0.as_str(), key);
            match order {
                Order::Less => {
                    i += 1;
                },
                Order::Equal => {
                    return (i, true);
                },
                Order::Greater => {
                    proof {
                        let pairs = self.sorted_pairs();
                        lemma_text_order(pairs[i as int].0, key@, key@);
                        assert forall|j: int| i <= j < pairs.len() implies text_lt(
                            key@,
                            (#[trigger] pairs[j]).0,
                        ) by {
                            if i < j {
                                assert(text_lt(pairs[i as int].0, pairs[j].0));
                                lemma_text_order(key@, pairs[i as int].0, pairs[j].0);
                            }
                        }
                    }
                    return (i, false);
                },
            }
        }
        (i, false)
    }

    /// Sets the value of `key` to `value`, whether or not the key was there.
    pub fn insert(&mut self, key: String, value: String)
        requires
            old(self).wf(),
        ensures
            final(self).wf(),
            final(self)@ == old(self)@.insert(key@, value@),
    {
        let (i, found) = self.position(key.as_str());
        let ghost before = self.sorted_pairs();
        proof {
            lemma_text_lt_fn_is_order();
            lemma_ascending_is_distinct(before, text_lt_fn());
        }
        if found {
            self.pairs[i] = (key, value);
            proof {
                assert(self.sorted_pairs() =~= before.update(
                    i as int,
                    (before[i as int].0, value@),
                ));
                lemma_to_map_update(before, i as int, value@);
                lemma_ascending_update(before, i as int, value@, text_lt_fn());
            }
        } else {
            self.pairs.insert(i, (key, value));
            proof {
                assert(self.sorted_pairs() =~= before.insert(i as int, (key@, value@)));
                lemma_ascending_insert(before, i as int, key@, value@, text_lt_fn());
                lemma_to_map_insert(before, i as int, key@, value@);
            }
        }
    }
}

/// The canonical form of a label set depends on its mapping alone, not on the
/// order in which the labels were inserted: two label sets with the same
/// mapping have the same sorted pairs and the same series name.
pub proof fn lemma_canonical_form_determined(a: Labels, b: Labels)
    requires
        a.wf(),
        b.wf(),
        a@ == b@,
    ensures
        a.sorted_pairs() == b.sorted_pairs(),
        series_name(a.sorted_pairs()) == series_name(b.sorted_pairs()),
{
    lemma_text_lt_fn_is_order();
    lemma_ascending_unique(a.sorted_pairs(), b.sorted_pairs(), text_lt_fn());
}

/// Renders the series name of `pairs`, taken in the order given.
fn render_series_name(pairs: &Vec<(String, String)>) -> (name: String)
    ensures
        name@ == series_name(pairs_view(pairs@)),
{
    let mut name = String::new();
    let mut i: usize = 0;
    proof {
        reveal_strlit("|");
        reveal_strlit("=");
    }
    while i < pairs.len()
        invariant
            i <= pairs.len(),
            name@ == series_name(pairs_view(pairs@).take(i as int)),
            "|"@ == seq!['|'],
            "="@ == seq!['='],
        decreases pairs.len() - i,
    {
        let ghost before = name@;
        if i > 0 {
            name.append("|");
        }
        name.append(pairs[i].0.as_str());
        name.append("=");
        name.append(pairs[i].1.as_str());
        proof {
            let all = pairs_view(pairs@);
            let done = all.take(i + 1);
            assert(done.drop_last() =~= all.take(i as int));
            assert(done.last() == all[i as int]);
            let pair = pairs[i as int];
            assert(pair_text(all[i as int]) =~= pair.0@ + seq!['='] + pair.1@);
            if i > 0 {
                assert(name@ =~= before + seq!['|'] + pair_text(all[i as int]));
            } else {
                assert(before =~= Seq::<char>::empty());
                assert(name@ =~= pair_text(all[i as int]));
                assert(done[0] == all[0]);
            }
        }
        i += 1;
    }
    proof {
        assert(pairs_view(pairs@).take(i as int) =~= pairs_view(pairs@));
    }
    name
}

/// Puts a label set into canonical form: its series name and its pairs by
/// ascending key. A label set without labels has no canonical form.
pub fn canonicalize(labels: Labels) -> (r: Result<(String, Vec<(String, String)>), DbError>)
    requires
        labels.wf(),
    ensures
        labels.sorted_pairs().len() == 0 ==> r == Err::<(String, Vec<(String, String)>), DbError>(
            DbError::InvalidInput,
        ),
        labels.sorted_pairs().len() > 0 ==> r is Ok && r->Ok_0.0@ == series_name(
            labels.sorted_pairs(),
        ) && pairs_view(r->Ok_0.1@) == labels.sorted_pairs(),
{
    let pairs = labels.pairs;
    if pairs.len() == 0 {
        return Err(DbError::InvalidInput);
    }
    let name = render_series_name(&pairs);
    Ok((name, pairs))
}

/// Two pairs whose keys hold no `=` and that are rendered alike are the same
/// pair.
proof fn lemma_pair_text_injective(p: (Seq<char>, Seq<char>), q: (Seq<char>, Seq<char>))
    requires
        !p.0.contains('='),
        !q.0.contains('='),
        pair_text(p) == pair_text(q),
    ensures
        p == q,
{
    let text = pair_text(p);
    let n = p.0.len() as int;
    let m = q.0.len() as int;
    assert(pair_text(p)[n] == '=');
    assert(pair_text(q)[m] == '=');
    if n < m {
        assert(pair_text(q)[n] == q.0[n]);
        assert(q.0.contains('='));
    }
    if m < n {
        assert(pair_text(p)[m] == p.0[m]);
        assert(p.0.contains('='));
    }
    assert(p.0 =~= text.take(n));
    assert(q.0 =~= text.take(n));
    assert(p.1 =~= text.skip(n + 1));
    assert(q.1 =~= text.skip(n + 1));
}

/// The series name of pairs that are free of separators holds `|` only
/// between the pairs: none where there is one pair, and after the last `|`
/// stands the last pair.
proof fn lemma_series_name_shape(pairs: Seq<(Seq<char>, Seq<char>)>)
    requires
        free_of_separators(pairs),
    ensures
        pairs.len() > 0 ==> series_name(pairs).len() > 0,
        pairs.len() <= 1 ==> !series_name(pairs).contains('|'),
        pairs.len() >= 2 ==> series_name(pairs).contains('|'),
        !pair_text(pairs.last()).contains('|') || pairs.len() == 0,
    decreases pairs.len(),
{
    if pairs.len() > 0 {
        let last = pairs.last();
        let text = pair_text(last);
        assert(text[last.0.len() as int] == '=');
        assert(!text.contains('|')) by {
            if text.contains('|') {
                let i = choose|i: int| 0 <= i < text.len() && text[i] == '|';
                if i < last.0.len() {
                    assert(last.0[i] == '|');
                    assert(last.0.contains('|'));
                } else if i > last.0.len() {
                    assert(last.1[i - last.0.len() - 1] == '|');
                    assert(last.1.contains('|'));
                }
            }
        }
        if pairs.len() >= 2 {
            let name = series_name(pairs);
            let front = series_name(pairs.drop_last());
            assert(name[front.len() as int] == '|');
        }
    }
}

/// Label sets whose pairs are free of separators have different series names
/// where they differ: from the name the pairs can be told.
pub proof fn lemma_series_name_injective(
    a: Seq<(Seq<char>, Seq<char>)>,
    b: Seq<(Seq<char>, Seq<char>)>,
)
    requires
        free_of_separators(a),
        free_of_separators(b),
        series_name(a) == series_name(b),
    ensures
        a == b,
    decreases a.len(),
{
    lemma_series_name_shape(a);
    lemma_series_name_shape(b);
    if a.len() == 0 {
        assert(a =~= b);
    } else if a.len() == 1 {
        lemma_pair_text_injective(a[0], b[0]);
        assert(a =~= b);
    } else {
        let name = series_name(a);
        let fa = a.drop_last();
        let fb = b.drop_last();
        let ta = pair_text(a.last());
        let tb = pair_text(b.last());
        let na = series_name(fa);
        let nb = series_name(fb);
        assert(name == na + seq!['|'] + ta);
        assert(name == nb + seq!['|'] + tb);
        assert(name.len() == na.len() + 1 + ta.len());
        assert(name.len() == nb.len() + 1 + tb.len());
        // the last `|` of the name stands before the last pair, in both readings
        if na.len() < nb.len() {
            let i = nb.len() - na.len() - 1;
            assert(name[nb.len() as int] == '|');
            assert(name[nb.len() as int] == ta[i]);
            assert(ta.contains('|'));
        }
        if nb.len() < na.len() {
            let i = na.len() - nb.len() - 1;
            assert(name[na.len() as int] == '|');
            assert(name[na.len() as int] == tb[i]);
            assert(tb.contains('|'));
        }
        assert(na =~= name.take(na.len() as int));
        assert(nb =~= name.take(na.len() as int));
        assert(ta =~= name.skip(na.len() as int + 1));
        assert(tb =~= name.skip(na.len() as int + 1));
        assert(free_of_separators(fa)) by {
            assert forall|i: int| 0 <= i < fa.len() implies !(#[trigger] fa[i]).0.contains('=')
                && !fa[i].0.contains('|') && !fa[i].1.contains('|') by {
                assert(fa[i] == a[i]);
            }
        }
        assert(free_of_separators(fb)) by {
            assert forall|i: int| 0 <= i < fb.len() implies !(#[trigger] fb[i]).0.contains('=')
                && !fb[i].0.contains('|') && !fb[i].1.contains('|') by {
                assert(fb[i] == b[i]);
            }
        }
        lemma_series_name_injective(fa, fb);
        lemma_pair_text_injective(a.last(), b.last());
        assert(a =~= fa.push(a.last()));
        assert(b =~= fb.push(b.last()));
    }
}

} // verus!
