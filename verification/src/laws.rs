//! What holds of the store as a whole: of every sequence of ingested samples,
//! of every range query, and of saving and loading.

use crate::assoc::{ascending_keys, lemma_ascending_is_distinct, lemma_to_map_lookup, to_map};
use crate::bitmap::decoded_members;
use crate::column_store::Sample;
use crate::db::DB;
use crate::error::DbError;
use crate::inverted_index::{
    ascending_postings, in_range, label_lt_fn, lemma_label_lt_fn_is_order, range_of, range_test,
    InvertedIndex, Label, Posting,
};
use crate::labels::series_name;
use crate::model::{
    after_ingest, empty_db, id_assigned, ingest_all, lemma_ingest_keeps_shape, resolve_outcome,
    DbView,
};
use crate::persist::{
    decoded_postings, first_undecodable, is_image, load_outcome, PersistedIndex,
};
use crate::registry::lemma_id_of;
use vstd::prelude::*;

verus! {

/// The sample at position `i` was given an identifier, and its series name
/// stands at that identifier in `db`.
pub open spec fn named_by_id(db: DbView, samples: Seq<(Seq<Label>, Sample)>, i: int) -> bool {
    match id_assigned(empty_db(), samples, i) {
        Ok(id) => id < db.names.len() && db.names[id as int] == series_name(samples[i].0),
        Err(_) => false,
    }
}

/// The sample at position `i` was given an identifier, and `db` has that
/// identifier in the posting set of `label`.
pub open spec fn posted(
    db: DbView,
    samples: Seq<(Seq<Label>, Sample)>,
    i: int,
    label: Label,
) -> bool {
    match id_assigned(empty_db(), samples, i) {
        Ok(id) => db.postings.contains_key(label) && db.postings[label].contains(id),
        Err(_) => false,
    }
}

/// One of the first `n` samples has labels and was given the identifier
/// `id`.
pub open spec fn given_before(samples: Seq<(Seq<Label>, Sample)>, n: int, id: int) -> bool {
    exists|i: int|
        0 <= i < n && samples[i].0.len() > 0 && #[trigger] id_assigned(empty_db(), samples, i)
            == Ok::<u32, DbError>(id as u32)
}

/// One of the first `n` samples carries `label` and was given the
/// identifier `id`.
pub open spec fn carried_before(
    samples: Seq<(Seq<Label>, Sample)>,
    n: int,
    label: Label,
    id: u32,
) -> bool {
    exists|i: int|
        0 <= i < n && samples[i].0.contains(label) && #[trigger] id_assigned(empty_db(), samples, i)
            == Ok::<u32, DbError>(id)
}

/// The state of the store after each prefix of the samples, for the laws
/// below.
proof fn lemma_ingested_prefix(samples: Seq<(Seq<Label>, Sample)>, n: int)
    requires
        0 <= n <= samples.len(),
        samples.len() <= u32::MAX,
    ensures
        ({
            let db = ingest_all(empty_db(), samples.take(n));
            &&& db.names.no_duplicates()
            &&& db.columns.len() == db.names.len()
            &&& db.names.len() <= n
            &&& forall|i: int|
                0 <= i < n && samples[i].0.len() > 0 ==> #[trigger] named_by_id(db, samples, i)
            &&& forall|id: int| 0 <= id < db.names.len() ==> #[trigger] given_before(samples, n, id)
            &&& forall|i: int, label: Label|
                0 <= i < n && #[trigger] samples[i].0.contains(label) ==> posted(
                    db,
                    samples,
                    i,
                    label,
                )
            &&& forall|label: Label, id: u32|
                db.postings.contains_key(label) && #[trigger] db.postings[label].contains(id)
                    ==> carried_before(samples, n, label, id)
        }),
    decreases n,
{
    if n > 0 {
        lemma_ingested_prefix(samples, n - 1);
        let before = ingest_all(empty_db(), samples.take(n - 1));
        let pairs = samples[n - 1].0;
        let sample = samples[n - 1].1;
        assert(samples.take(n).drop_last() =~= samples.take(n - 1));
        let db = ingest_all(empty_db(), samples.take(n));
        assert(db == after_ingest(before, pairs, sample));
        lemma_ingest_keeps_shape(before, pairs, sample);
        lemma_id_of(before.names, series_name(pairs));
        let outcome = id_assigned(empty_db(), samples, n - 1);
        assert(outcome == resolve_outcome(before.names, pairs));
        assert forall|id: int| 0 <= id < db.names.len() implies #[trigger] given_before(
            samples,
            n,
            id,
        ) by {
            if id < before.names.len() {
                assert(given_before(samples, n - 1, id));
                let i = choose|i: int|
                    0 <= i < n - 1 && samples[i].0.len() > 0 && #[trigger] id_assigned(
                        empty_db(),
                        samples,
                        i,
                    ) == Ok::<u32, DbError>(id as u32);
                assert(0 <= i < n);
            } else {
                assert(outcome == Ok::<u32, DbError>(id as u32));
            }
        }
        assert forall|i: int| 0 <= i < n && samples[i].0.len() > 0 implies #[trigger] named_by_id(
            db,
            samples,
            i,
        ) by {
            if i < n - 1 {
                assert(named_by_id(before, samples, i));
            }
        }
        assert forall|i: int, label: Label|
            0 <= i < n && #[trigger] samples[i].0.contains(label) implies posted(
            db,
            samples,
            i,
            label,
        ) by {
            if i == n - 1 {
                assert(pairs.to_set().contains(label));
            } else {
                assert(posted(before, samples, i, label));
            }
        }

        assert forall|label: Label, id: u32|
            db.postings.contains_key(label) && #[trigger] db.postings[label].contains(
                id,
            ) implies carried_before(samples, n, label, id) by {
            if before.postings.contains_key(label) && before.postings[label].contains(id) {
                assert(carried_before(samples, n - 1, label, id));
                let i = choose|i: int|
                    0 <= i < n - 1 && samples[i].0.contains(label) && #[trigger] id_assigned(
                        empty_db(),
                        samples,
                        i,
                    ) == Ok::<u32, DbError>(id);
                assert(0 <= i < n);
            } else {
                assert(pairs.contains(label));
                assert(outcome == Ok::<u32, DbError>(id));
            }
        }
    } else {
        assert(samples.take(0) =~= Seq::empty());
    }
}

/// Identifiers are dense. After any samples were ingested into a store
/// without series, the names are distinct, each sample with labels was given
/// the identifier at which its series name stands, and each identifier below
/// the number of series was given to some sample: the identifiers in use are
/// exactly those from zero up to the number of distinct series names, and two
/// samples share one just where they share their series name.
pub proof fn lemma_ids_dense(samples: Seq<(Seq<Label>, Sample)>)
    requires
        samples.len() <= u32::MAX,
    ensures
        ({
            let db = ingest_all(empty_db(), samples);
            &&& db.names.no_duplicates()
            &&& db.columns.len() == db.names.len()
            &&& forall|i: int|
                0 <= i < samples.len() && samples[i].0.len() > 0 ==> #[trigger] named_by_id(
                    db,
                    samples,
                    i,
                )
            &&& forall|id: int|
                0 <= id < db.names.len() ==> #[trigger] given_before(
                    samples,
                    samples.len() as int,
                    id,
                )
        }),
{
    lemma_ingested_prefix(samples, samples.len() as int);
    assert(samples.take(samples.len() as int) =~= samples);
}

/// Identifiers tell label sets apart. When samples are ingested into a store
/// without series, two samples with labels are given the same identifier
/// just where their label sets are the same, provided that the two label sets
/// do not differ and yet have the same series name. Label sets that are free
/// of separators never do.
pub proof fn lemma_ids_tell_label_sets_apart(samples: Seq<(Seq<Label>, Sample)>, i: int, j: int)
    requires
        samples.len() <= u32::MAX,
        0 <= i < samples.len(),
        0 <= j < samples.len(),
        samples[i].0.len() > 0,
        samples[j].0.len() > 0,
        series_name(samples[i].0) == series_name(samples[j].0) ==> samples[i].0 == samples[j].0,
    ensures
        id_assigned(empty_db(), samples, i) is Ok,
        id_assigned(empty_db(), samples, j) is Ok,
        id_assigned(empty_db(), samples, i) == id_assigned(empty_db(), samples, j)
            <==> samples[i].0 == samples[j].0,
{
    lemma_ids_dense(samples);
    let db = ingest_all(empty_db(), samples);
    assert(named_by_id(db, samples, i));
    assert(named_by_id(db, samples, j));
}

/// Postings are complete. After any samples were ingested into a store
/// without series, the series of each sample is in the posting set of each
/// label of the sample, and each series in a posting set was given to a
/// sample that carries the label of that set.
pub proof fn lemma_postings_complete(samples: Seq<(Seq<Label>, Sample)>)
    requires
        samples.len() <= u32::MAX,
    ensures
        ({
            let db = ingest_all(empty_db(), samples);
            &&& forall|i: int, label: Label|
                0 <= i < samples.len() && #[trigger] samples[i].0.contains(label) ==> posted(
                    db,
                    samples,
                    i,
                    label,
                )
            &&& forall|label: Label, id: u32|
                db.postings.contains_key(label) && #[trigger] db.postings[label].contains(id)
                    ==> carried_before(samples, samples.len() as int, label, id)
        }),
{
    lemma_ingested_prefix(samples, samples.len() as int);
    assert(samples.take(samples.len() as int) =~= samples);
}

/// Records that list postings one by one, each with bytes that decode to the
/// posting set, all decode, and they stand for the mapping of the postings.
proof fn lemma_decoded_image(records: Seq<(Label, Seq<u8>)>, postings: Seq<Posting>)
    requires
        records.len() == postings.len(),
        forall|i: int|
            0 <= i < postings.len() ==> (#[trigger] records[i]).0 == postings[i].0
                && decoded_members(records[i].1) == Some(postings[i].1),
    ensures
        first_undecodable(records) is None,
        decoded_postings(records) == to_map(postings),
    decreases records.len(),
{
    if records.len() > 0 {
        let n = records.len() - 1;
        assert(records[n].0 == postings[n].0);
        assert forall|i: int| 0 <= i < n implies (#[trigger] records.drop_last()[i]).0
            == postings.drop_last()[i].0 && decoded_members(records.drop_last()[i].1) == Some(
            postings.drop_last()[i].1,
        ) by {
            assert(records[i].0 == postings[i].0);
        }
        lemma_decoded_image(records.drop_last(), postings.drop_last());
    }
}

/// Saving and loading gives the store back. Whatever records are an image of
/// a store, loading them succeeds and yields the same names, the same
/// columns with the same samples in the same order, and the same posting set
/// for each label.
pub proof fn lemma_round_trip(db: DB, persisted: PersistedIndex)
    requires
        db.wf(),
        is_image(persisted@, db@),
    ensures
        load_outcome(persisted@) == Ok::<DbView, DbError>(db@),
{
    db.lemma_wf();
    lemma_decoded_image(persisted@.index, ascending_postings(db@.postings));
}

/// What a filter keeps of an ascending list is ascending, passes the test
/// and comes from the list, and it keeps every posting that passes.
proof fn lemma_filter_ascending(postings: Seq<Posting>, test: spec_fn(Posting) -> bool)
    requires
        ascending_keys(postings, label_lt_fn()),
    ensures
        ascending_keys(postings.filter(test), label_lt_fn()),
        forall|i: int|
            0 <= i < postings.filter(test).len() ==> test(#[trigger] postings.filter(test)[i])
                && postings.contains(postings.filter(test)[i]),
        forall|j: int|
            0 <= j < postings.len() && test(#[trigger] postings[j]) ==> postings.filter(
                test,
            ).contains(postings[j]),
    decreases postings.len(),
{
    reveal(Seq::filter);
    if postings.len() > 0 {
        let front = postings.drop_last();
        let last = postings.last();
        let kept = front.filter(test);
        let all = postings.filter(test);
        assert forall|i: int, j: int| 0 <= i < j < front.len() implies label_lt_fn()(
            (#[trigger] front[i]).0,
            (#[trigger] front[j]).0,
        ) by {
            assert(front[i] == postings[i] && front[j] == postings[j]);
        }
        lemma_filter_ascending(front, test);
        assert forall|i: int| 0 <= i < kept.len() implies postings.contains(
            #[trigger] kept[i],
        ) && label_lt_fn()(kept[i].0, last.0) by {
            assert(front.contains(kept[i]));
            let j = choose|j: int| 0 <= j < front.len() && front[j] == kept[i];
            assert(postings[j] == kept[i]);
            assert(label_lt_fn()(postings[j].0, postings[postings.len() - 1].0));
        }
        assert forall|i: int| 0 <= i < all.len() implies test(#[trigger] all[i])
            && postings.contains(all[i]) by {
            if i < kept.len() {
                assert(all[i] == kept[i]);
            } else {
                assert(all[i] == postings[postings.len() - 1]);
            }
        }
        assert forall|j: int| 0 <= j < postings.len() && test(
            #[trigger] postings[j],
        ) implies all.contains(postings[j]) by {
            if j < front.len() {
                assert(front[j] == postings[j]);
                assert(kept.contains(front[j]));
                let i = choose|i: int| 0 <= i < kept.len() && kept[i] == front[j];
                assert(all[i] == postings[j]);
            } else {
                assert(all[all.len() - 1] == postings[j]);
            }
        }
        assert forall|i: int, j: int| 0 <= i < j < all.len() implies label_lt_fn()(
            (#[trigger] all[i]).0,
            (#[trigger] all[j]).0,
        ) by {
            if j < kept.len() {
                assert(all[i] == kept[i] && all[j] == kept[j]);
            } else {
                assert(all[i] == kept[i]);
            }
        }
    }
}

/// A range query is exact. What it yields ascends by label; each of its
/// postings has the key asked for and a value in `[lo, hi)`, and is a label
/// of the index with its posting set; and no label of the index with that
/// key and a value in the range is left out.
pub proof fn lemma_range_query_exact(
    index: InvertedIndex,
    key: Seq<char>,
    lo: Seq<u8>,
    hi: Seq<u8>,
)
    requires
        index.wf(),
    ensures
        ({
            let found = range_of(ascending_postings(index@), key, lo, hi);
            &&& ascending_keys(found, label_lt_fn())
            &&& forall|i: int|
                0 <= i < found.len() ==> in_range((#[trigger] found[i]).0, key, lo, hi)
                    && index@.contains_key(found[i].0) && index@[found[i].0] == found[i].1
            &&& forall|label: Label|
                #[trigger] index@.contains_key(label) && in_range(label, key, lo, hi)
                    ==> exists|i: int| 0 <= i < found.len() && (#[trigger] found[i]).0 == label
        }),
{
    index.lemma_ordered();
    let postings = ascending_postings(index@);
    let test = range_test(key, lo, hi);
    let found = range_of(postings, key, lo, hi);
    lemma_label_lt_fn_is_order();
    lemma_ascending_is_distinct(postings, label_lt_fn());
    lemma_to_map_lookup(postings);
    lemma_filter_ascending(postings, test);
    assert forall|i: int| 0 <= i < found.len() implies in_range(
        (#[trigger] found[i]).0,
        key,
        lo,
        hi,
    ) && index@.contains_key(found[i].0) && index@[found[i].0] == found[i].1 by {
        assert(test(found[i]));
        assert(postings.contains(found[i]));
        let j = choose|j: int| 0 <= j < postings.len() && postings[j] == found[i];
        assert(index@.contains_key(postings[j].0));
    }
    assert forall|label: Label| #[trigger]
        index@.contains_key(label) && in_range(label, key, lo, hi) implies exists|i: int|
        0 <= i < found.len() && (#[trigger] found[i]).0 == label by {
        let j = choose|j: int| 0 <= j < postings.len() && (#[trigger] postings[j]).0 == label;
        assert(test(postings[j]));
        assert(found.contains(postings[j]));
        let i = choose|i: int| 0 <= i < found.len() && found[i] == postings[j];
        assert(found[i].0 == label);
    }
}

} // verus!
