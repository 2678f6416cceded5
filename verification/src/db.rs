//! The store: registry, column store and inverted index, kept in step.

use crate::assoc::{ascending_keys, to_map};
use crate::bitmap::{decoded_members, from_bytes, to_bytes};
use crate::column_store::{ColumnStore, Sample};
use crate::error::{DbError, IndexFile};
use crate::inverted_index::{
    ascending_postings, label_lt_fn, postings_view, InvertedIndex, Label, PostingEntry,
};
use crate::labels::{canonicalize, pairs_view, Labels};
use crate::lex::text_bytes;
use crate::model::{
    after_ingest, after_resolve, build_outcome, empty_db, lemma_build_error_stays,
    lemma_ingest_keeps_shape, lemma_with_postings_step, resolve_outcome, with_postings, DbView,
};
use crate::persist::{
    decodable, decoded_postings, first_undecodable, is_image, lemma_first_failing_stays,
    load_outcome, records_view, PersistedIndex, TagIndex,
};
use crate::query::{matched_weight, prefix_weight, QueryResult};
use crate::registry::{lemma_id_of, SeriesRegistry};
use std::time::Instant;
use vstd::prelude::*;

verus! {

/// A metric sample as it is ingested: a timestamp in milliseconds, the bit
/// pattern of the value, and the labels of the series it belongs to.
pub struct MetricSample {
    pub timestamp_ms: i64,
    pub value_bits: u64,
    pub labels: Labels,
}

/// A label-indexed time-series store.
pub struct DB {
    registry: SeriesRegistry,
    columns: ColumnStore,
    index: InvertedIndex,
}

impl View for DB {
    type V = DbView;

    closed spec fn view(&self) -> DbView {
        DbView { names: self.registry@, columns: self.columns@, postings: self.index@ }
    }
}

impl DB {
    /// The invariant of the type: the parts are well formed, and every series
    /// has a column.
    pub closed spec fn wf(&self) -> bool {
        &&& self.registry.wf()
        &&& self.index.wf()
        &&& self.columns@.len() == self.registry@.len()
    }

    /// A well-formed store has one column for each series and no more series
    /// than there are identifiers, and its postings can be listed in
    /// ascending order of their labels.
    pub proof fn lemma_wf(&self)
        requires
            self.wf(),
        ensures
            self@.columns.len() == self@.names.len(),
            self@.names.len() <= u32::MAX,
            ascending_keys(ascending_postings(self@.postings), label_lt_fn()),
            to_map(ascending_postings(self@.postings)) == self@.postings,
    {
        self.registry.lemma_count_fits();
        self.index.lemma_ordered();
    }

    /// A store without series.
    pub fn new() -> (db: DB)
        ensures
            db.wf(),
            db@ == empty_db(),
    {
        DB {
            registry: SeriesRegistry::new(),
            columns: ColumnStore::new(),
            index: InvertedIndex::new(),
        }
    }

    /// The number of series.
    pub fn num_timeseries(&self) -> (n: u32)
        requires
            self.wf(),
        ensures
            n == self@.names.len(),
    {
        self.registry.count()
    }

    /// Finds the series of a sample with the given labels, creating it where
    /// its name is new, and enters the series in the posting set of each of
    /// its labels.
    pub fn get_timeseries_id(&mut self, labels: Labels) -> (r: Result<u32, DbError>)
        requires
            old(self).wf(),
            labels.wf(),
        ensures
            final(self).wf(),
            r == resolve_outcome(old(self)@.names, labels.sorted_pairs()),
            final(self)@ == after_resolve(old(self)@, labels.sorted_pairs()),
    {
        let ghost sorted = labels.sorted_pairs();
        let (name, pairs) = match canonicalize(labels) {
            Ok(canonical) => canonical,
            Err(e) => {
                return Err(e);
            },
        };
        proof {
            lemma_id_of(self@.names, name@);
        }
        let (id, created) = match self.registry.get_or_create_id(name) {
            Ok(found) => found,
            Err(e) => {
                return Err(e);
            },
        };
        if created {
            self.columns.push_series();
        }
        let ghost start = self.index@;
        let mut i: usize = 0;
        proof {
            assert(sorted.take(0).to_set() =~= Set::<Label>::empty());
            assert(self.index@ =~= with_postings(start, sorted.take(0).to_set(), id));
        }
        while i < pairs.len()
            invariant
                i <= pairs.len(),
                pairs_view(pairs@) == sorted,
                self.registry.wf(),
                self.index.wf(),
                self.registry@ == after_resolve(old(self)@, sorted).names,
                self.columns@ == after_resolve(old(self)@, sorted).columns,
                self.columns@.len() == self.registry@.len(),
                self.index@ == with_postings(start, sorted.take(i as int).to_set(), id),
            decreases pairs.len() - i,
        {
            let ghost before = self.index@;
            self.index.add_posting(pairs[i].0.as_str(), pairs[i].1.as_str(), id);
            proof {
                let done = sorted.take(i as int).to_set();
                let label = sorted[i as int];
                assert(sorted.take(i + 1) =~= sorted.take(i as int).push(label));
                sorted.take(i as int).lemma_push_to_set_commute(label);
                lemma_with_postings_step(start, done, label, id);
            }
            i += 1;
        }
        proof {
            assert(sorted.take(i as int) =~= sorted);
        }
        Ok(id)
    }

    /// Ingests a sample: finds or creates its series and appends the sample
    /// to the column of that series. The result is the identifier of the
    /// series.
    pub fn ingest(&mut self, s: MetricSample) -> (r: Result<u32, DbError>)
        requires
            old(self).wf(),
            s.labels.wf(),
        ensures
            final(self).wf(),
            r == resolve_outcome(old(self)@.names, s.labels.sorted_pairs()),
            final(self)@ == after_ingest(
                old(self)@,
                s.labels.sorted_pairs(),
                (s.timestamp_ms, s.value_bits),
            ),
    {
        proof {
            lemma_id_of(
                self@.names,
                crate::labels::series_name(s.labels.sorted_pairs()),
            );
        }
        let id = match self.get_timeseries_id(s.labels) {
            Ok(id) => id,
            Err(e) => {
                return Err(e);
            },
        };
        self.columns.append(id, s.timestamp_ms, s.value_bits);
        Ok(id)
    }

    /// Sums the sizes of the posting sets of the labels with the key
    /// `label_key` whose value begins with `value_prefix`, and times the
    /// scan.
    pub fn search(&self, label_key: &str, value_prefix: &str) -> (r: QueryResult)
        requires
            self.wf(),
        ensures
            r.matched_weight == prefix_weight(
                self@.postings,
                label_key@,
                text_bytes(value_prefix@),
            ),
    {
        let start = Instant::now();
        let weight = matched_weight(&self.index, label_key, value_prefix);
        let elapsed = start.elapsed();
        QueryResult { matched_weight: weight, elapsed }
    }

    /// The samples of series `id` in the order in which they were ingested,
    /// or `None` where there is no such series.
    pub fn samples(&self, id: u32) -> (samples: Option<&Vec<Sample>>)
        requires
            self.wf(),
        ensures
            id < self@.columns.len() ==> samples is Some && samples->Some_0@
                == self@.columns[id as int],
            id >= self@.columns.len() ==> samples is None,
    {
        self.columns.get(id)
    }

    /// The entry of the label `(key, value)` with its posting set, or `None`
    /// where no series carries the label.
    pub fn posting(&self, key: &str, value: &str) -> (entry: Option<&PostingEntry>)
        requires
            self.wf(),
        ensures
            match entry {
                Some(entry) => entry@.0 == (key@, value@) && self@.postings.contains_key(
                    (key@, value@),
                ) && self@.postings[(key@, value@)] == entry@.1,
                None => !self@.postings.contains_key((key@, value@)),
            },
    {
        self.index.get(key, value)
    }

    /// Turns the store into the records of its three files. This fails where
    /// an identifier has no name left, which is where a name stands at two
    /// positions of the list of names.
    pub fn save_and_close(self) -> (r: Result<PersistedIndex, DbError>)
        requires
            self.wf(),
        ensures
            self@.names.no_duplicates() ==> r is Ok && is_image(r->Ok_0@, self@),
            !self@.names.no_duplicates() ==> r == Err::<PersistedIndex, DbError>(
                DbError::InternalConsistency,
            ),
    {
        let names = match self.registry.id_to_name() {
            Ok(names) => names,
            Err(e) => {
                return Err(e);
            },
        };
        let ghost postings = ascending_postings(self@.postings);
        let timeseries = self.columns.into_columns();
        let entries = self.index.into_entries();
        let mut index: Vec<TagIndex> = Vec::new();
        for entry in it: entries.into_iter()
            invariant
                it.seq() == entries@,
                postings_view(entries@) == postings,
                index@.len() == it.index(),
                forall|j: int|
                    0 <= j < it.index() ==> (#[trigger] records_view(index@)[j]).0 == postings[j].0
                        && decoded_members(records_view(index@)[j].1) == Some(postings[j].1),
        {
            let ghost before = records_view(index@);
            let ghost i = it.index();
            let b = to_bytes(&entry.ids);
            index.push(TagIndex { k: entry.key, v: entry.value, b });
            proof {
                let after = records_view(index@);
                assert(postings[i] == entry@);
                assert forall|j: int| 0 <= j < i + 1 implies (#[trigger] after[j]).0
                    == postings[j].0 && decoded_members(after[j].1) == Some(postings[j].1) by {
                    if j < i {
                        assert(after[j] == before[j]);
                    }
                }
            }
        }
        Ok(PersistedIndex { names, timeseries, index })
    }

    /// Builds the store that the records of a persisted index describe.
    /// Identifiers go by position, and each posting set is decoded and put
    /// into the index as it is.
    pub fn load(persisted: PersistedIndex) -> (r: Result<DB, DbError>)
        ensures
            match load_outcome(persisted@) {
                Ok(db) => r is Ok && r->Ok_0.wf() && r->Ok_0@ == db,
                Err(e) => r is Err && r->Err_0 == e,
            },
    {
        let PersistedIndex { names, timeseries, index: records } = persisted;
        let registry = match SeriesRegistry::from_names(names) {
            Ok(registry) => registry,
            Err(e) => {
                return Err(e);
            },
        };
        if registry.count() as usize != timeseries.len() {
            return Err(DbError::InternalConsistency);
        }
        let columns = ColumnStore::from_columns(timeseries);
        let mut index = InvertedIndex::new();
        let ghost all = records_view(records@);
        let count = records.len();
        let mut line: usize = 0;
        for record in it: records.into_iter()
            invariant
                it.seq() == records@,
                records@.len() == count,
                line == it.index(),
                all == records_view(records@),
                all == persisted@.index,
                persisted@.names.len() <= u32::MAX,
                persisted@.names.len() == persisted@.timeseries.len(),
                index.wf(),
                first_undecodable(all.take(line as int)) is None,
                index@ == decoded_postings(all.take(line as int)),
        {
            proof {
                assert(all.take(line + 1).drop_last() =~= all.take(line as int));
                assert(all.take(line + 1).last() == all[line as int]);
                assert(all[line as int] == record@);
            }
            match from_bytes(record.b.as_slice()) {
                Some(ids) => {
                    index.insert(record.k, record.v, ids);
                },
                None => {
                    proof {
                        lemma_first_failing_stays(all, decodable(), line + 1);
                    }
                    return Err(DbError::CorruptData { file: IndexFile::Index, line });
                },
            }
            line += 1;
        }
        proof {
            assert(all.take(line as int) =~= all);
        }
        Ok(DB { registry, columns, index })
    }
}

/// Loads a persisted index and searches it: sums the sizes of the posting
/// sets of the labels with the key `name` whose value begins with
/// `value_prefix`.
pub fn cmd_search(persisted: PersistedIndex, name: &str, value_prefix: &str) -> (r: Result<
    QueryResult,
    DbError,
>)
    ensures
        match load_outcome(persisted@) {
            Ok(db) => r is Ok && r->Ok_0.matched_weight == prefix_weight(
                db.postings,
                name@,
                text_bytes(value_prefix@),
            ),
            Err(e) => r is Err && r->Err_0 == e,
        },
{
    let db = match DB::load(persisted) {
        Ok(db) => db,
        Err(e) => {
            return Err(e);
        },
    };
    Ok(db.search(name, value_prefix))
}

/// The samples as the model of the store takes them: the sorted label pairs
/// of each, and its timestamp and value.
pub open spec fn samples_view(samples: Seq<MetricSample>) -> Seq<(Seq<Label>, Sample)> {
    Seq::new(
        samples.len(),
        |i: int|
            (samples[i].labels.sorted_pairs(), (samples[i].timestamp_ms, samples[i].value_bits)),
    )
}

/// Builds a store from the samples, starting without series, and turns it
/// into the records of its three files. The first sample that is refused
/// ends the build with its error.
pub fn cmd_build(samples: Vec<MetricSample>) -> (r: Result<PersistedIndex, DbError>)
    requires
        forall|i: int| 0 <= i < samples@.len() ==> (#[trigger] samples@[i]).labels.wf(),
    ensures
        match build_outcome(samples_view(samples@)) {
            Ok(db) => r is Ok && is_image(r->Ok_0@, db),
            Err(e) => r is Err && r->Err_0 == e,
        },
{
    let mut db = DB::new();
    let ghost all = samples_view(samples@);
    proof {
        assert(all.take(0) =~= Seq::empty());
    }
    for sample in it: samples.into_iter()
        invariant
            it.seq() == samples@,
            all == samples_view(samples@),
            forall|i: int| 0 <= i < samples@.len() ==> (#[trigger] samples@[i]).labels.wf(),
            db.wf(),
            db@.names.no_duplicates(),
            build_outcome(all.take(it.index() as int)) == Ok::<DbView, DbError>(db@),
    {
        let ghost n = it.index() as int;
        let ghost before = db@;
        proof {
            assert(sample == samples@[n]);
            assert(all.take(n + 1).drop_last() =~= all.take(n));
            assert(all.take(n + 1).last() == all[n]);
            db.lemma_wf();
            lemma_ingest_keeps_shape(before, all[n].0, all[n].1);
        }
        match db.ingest(sample) {
            Ok(_) => {},
            Err(e) => {
                proof {
                    lemma_build_error_stays(all, n + 1);
                }
                return Err(e);
            },
        }
    }
    proof {
        assert(all.take(samples@.len() as int) =~= all);
    }
    db.save_and_close()
}

/// The number of series to report when the series `id` has just been
/// ingested: every 100,000th series is a milestone of the build.
pub fn progress_milestone(id: u32) -> (count: Option<u64>)
    ensures
        (id + 1) % 100_000 == 0 ==> count == Some((id + 1) as u64),
        (id + 1) % 100_000 != 0 ==> count is None,
{
    let count: u64 = id as u64 + 1;
    if count % 100_000 == 0 {
        Some(count)
    } else {
        None
    }
}

} // verus!
