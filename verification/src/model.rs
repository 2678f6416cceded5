//! The store as a mathematical value, and what ingestion does to it.

use crate::column_store::Sample;
use crate::error::DbError;
use crate::inverted_index::{posting_set, Label};
use crate::labels::series_name;
use crate::registry::{id_of, lemma_id_of};
use vstd::prelude::*;

verus! {

/// What a store holds.
pub struct DbView {
    /// The series names; the name at index `i` belongs to series `i`.
    pub names: Seq<Seq<char>>,
    /// The samples of each series, in the order in which they were appended.
    pub columns: Seq<Seq<Sample>>,
    /// For each label the series that carry it.
    pub postings: Map<Label, Set<u32>>,
}

/// A store without series.
pub open spec fn empty_db() -> DbView {
    DbView { names: Seq::empty(), columns: Seq::empty(), postings: Map::empty() }
}

/// The postings after the series `id` was added to the posting set of each of
/// `labels`.
pub open spec fn with_postings(postings: Map<Label, Set<u32>>, labels: Set<Label>, id: u32) -> Map<
    Label,
    Set<u32>,
> {
    Map::new(
        |label: Label| postings.contains_key(label) || labels.contains(label),
        |label: Label|
            if labels.contains(label) {
                posting_set(postings, label).insert(id)
            } else {
                postings[label]
            },
    )
}

/// Adding a series to the posting sets of some labels and then to that of one
/// more label adds it to the posting sets of all of them.
pub proof fn lemma_with_postings_step(
    postings: Map<Label, Set<u32>>,
    labels: Set<Label>,
    label: Label,
    id: u32,
)
    ensures
        with_postings(postings, labels, id).insert(
            label,
            posting_set(with_postings(postings, labels, id), label).insert(id),
        ) == with_postings(postings, labels.insert(label), id),
{
    let step = with_postings(postings, labels, id);
    assert(step.insert(label, posting_set(step, label).insert(id)) =~~= with_postings(
        postings,
        labels.insert(label),
        id,
    ));
}

/// The series that a sample with the sorted label pairs `pairs` belongs to,
/// in a store with the series `names`: that of its series name, or a new one
/// where the name is not registered. A sample without labels is refused, and
/// so is a new name where all identifiers are taken.
pub open spec fn resolve_outcome(names: Seq<Seq<char>>, pairs: Seq<Label>) -> Result<u32, DbError> {
    if pairs.len() == 0 {
        Err(DbError::InvalidInput)
    } else {
        match id_of(names, series_name(pairs)) {
            Some(id) => Ok(id as u32),
            None => if names.len() < u32::MAX {
                Ok(names.len() as u32)
            } else {
                Err(DbError::SeriesLimit)
            },
        }
    }
}

/// The store after the series of `pairs` was looked up or created: a new
/// series has its name registered and starts with an empty column, and the
/// series is in the posting set of each of its labels. A refused sample
/// leaves the store as it was.
pub open spec fn after_resolve(db: DbView, pairs: Seq<Label>) -> DbView {
    match resolve_outcome(db.names, pairs) {
        Err(_) => db,
        Ok(id) => {
            let known = id_of(db.names, series_name(pairs)) is Some;
            DbView {
                names: if known {
                    db.names
                } else {
                    db.names.push(series_name(pairs))
                },
                columns: if known {
                    db.columns
                } else {
                    db.columns.push(Seq::empty())
                },
                postings: with_postings(db.postings, pairs.to_set(), id),
            }
        },
    }
}

/// The store after a sample with the sorted label pairs `pairs` was ingested:
/// its series was looked up or created, and the sample stands at the end of
/// the column of that series. A refused sample leaves the store as it was.
pub open spec fn after_ingest(db: DbView, pairs: Seq<Label>, sample: Sample) -> DbView {
    match resolve_outcome(db.names, pairs) {
        Err(_) => db,
        Ok(id) => {
            let found = after_resolve(db, pairs);
            DbView {
                names: found.names,
                columns: found.columns.update(id as int, found.columns[id as int].push(sample)),
                postings: found.postings,
            }
        },
    }
}

/// The store after the samples were ingested one after the other, each given
/// by its sorted label pairs and its timestamp and value. A refused sample is
/// passed over.
pub open spec fn ingest_all(db: DbView, samples: Seq<(Seq<Label>, Sample)>) -> DbView
    decreases samples.len(),
{
    if samples.len() == 0 {
        db
    } else {
        after_ingest(ingest_all(db, samples.drop_last()), samples.last().0, samples.last().1)
    }
}

/// What ingesting the sample at position `i` returns, when the samples are
/// ingested one after the other into `db`.
pub open spec fn id_assigned(db: DbView, samples: Seq<(Seq<Label>, Sample)>, i: int) -> Result<
    u32,
    DbError,
> {
    resolve_outcome(ingest_all(db, samples.take(i)).names, samples[i].0)
}

/// The store that is built from the samples, starting without series: the
/// samples are ingested one after the other, and the first refusal ends the
/// build with its error.
pub open spec fn build_outcome(samples: Seq<(Seq<Label>, Sample)>) -> Result<DbView, DbError>
    decreases samples.len(),
{
    if samples.len() == 0 {
        Ok(empty_db())
    } else {
        match build_outcome(samples.drop_last()) {
            Err(e) => Err(e),
            Ok(db) => match resolve_outcome(db.names, samples.last().0) {
                Err(e) => Err(e),
                Ok(_) => Ok(after_ingest(db, samples.last().0, samples.last().1)),
            },
        }
    }
}

/// Ingesting a sample keeps the names distinct and one column for each name,
/// and leaves the names that were there where they were.
pub proof fn lemma_ingest_keeps_shape(db: DbView, pairs: Seq<Label>, sample: Sample)
    requires
        db.names.no_duplicates(),
        db.columns.len() == db.names.len(),
        db.names.len() <= u32::MAX,
    ensures
        after_ingest(db, pairs, sample).names.no_duplicates(),
        after_ingest(db, pairs, sample).columns.len() == after_ingest(
            db,
            pairs,
            sample,
        ).names.len(),
        db.names.len() <= after_ingest(db, pairs, sample).names.len() <= db.names.len() + 1,
        forall|j: int|
            0 <= j < db.names.len() ==> after_ingest(db, pairs, sample).names[j] == db.names[j],
        resolve_outcome(db.names, pairs) matches Ok(id) ==> id < after_ingest(
            db,
            pairs,
            sample,
        ).names.len() && after_ingest(db, pairs, sample).names[id as int] == series_name(pairs),
{
    lemma_id_of(db.names, series_name(pairs));
}

/// A build that succeeds yields the store after all the samples were
/// ingested: none was refused.
pub proof fn lemma_build_ingests_all(samples: Seq<(Seq<Label>, Sample)>)
    requires
        build_outcome(samples) is Ok,
    ensures
        build_outcome(samples) == Ok::<DbView, DbError>(ingest_all(empty_db(), samples)),
    decreases samples.len(),
{
    if samples.len() > 0 {
        lemma_build_ingests_all(samples.drop_last());
    }
}

/// A build that has failed on the first `n` samples fails in the same way on
/// all of them.
pub proof fn lemma_build_error_stays(samples: Seq<(Seq<Label>, Sample)>, n: int)
    requires
        0 <= n <= samples.len(),
        build_outcome(samples.take(n)) is Err,
    ensures
        build_outcome(samples) == build_outcome(samples.take(n)),
    decreases samples.len() - n,
{
    if n < samples.len() {
        assert(samples.take(n + 1).drop_last() =~= samples.take(n));
        lemma_build_error_stays(samples, n + 1);
    } else {
        assert(samples.take(n) =~= samples);
    }
}

} // verus!
