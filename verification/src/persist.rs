//! The persisted form of a store: the records of its three files.
//!
//! The names file lists the series names in identifier order, the timeseries
//! file the sample sequences in identifier order, and the index file the
//! labels in ascending order, each with its posting set in the on-disk format
//! of compressed bitmaps.

use crate::bitmap::decoded_members;
use crate::column_store::{columns_view, Sample};
use crate::error::{DbError, IndexFile};
use crate::inverted_index::{ascending_postings, Label};
use crate::model::DbView;
use crate::registry::texts;
use vstd::prelude::*;
use vstd::string::*;

verus! {

/// The suffix by which a file of a persisted index is told from the others.
pub open spec fn suffix_text(file: IndexFile) -> Seq<char> {
    match file {
        IndexFile::Names => "names"@,
        IndexFile::Timeseries => "timeseries"@,
        IndexFile::Index => "index"@,
    }
}

/// The suffix of a file of a persisted index.
pub fn suffix(file: IndexFile) -> (text: &'static str)
    ensures
        text@ == suffix_text(file),
{
    match file {
        IndexFile::Names => "names",
        IndexFile::Timeseries => "timeseries",
        IndexFile::Index => "index",
    }
}

/// The path of a file of the persisted index with the base path
/// `base_file`: the base path, a dot and the suffix of the file.
pub fn file_path(base_file: &str, file: IndexFile) -> (path: String)
    ensures
        path@ == base_file@ + seq!['.'] + suffix_text(file),
{
    proof {
        reveal_strlit(".");
    }
    let mut path = base_file.to_owned();
    path.append(".");
    path.append(suffix(file));
    path
}

/// One record of the index file: a label and the bytes of its posting set.
pub struct TagIndex {
    pub k: String,
    pub v: String,
    pub b: Vec<u8>,
}

impl View for TagIndex {
    type V = (Label, Seq<u8>);

    open spec fn view(&self) -> (Label, Seq<u8>) {
        ((self.k@, self.v@), self.b@)
    }
}

/// The records of the three files of a persisted index.
pub struct PersistedIndex {
    pub names: Vec<String>,
    pub timeseries: Vec<Vec<Sample>>,
    pub index: Vec<TagIndex>,
}

/// What the records of a persisted index hold.
pub struct PersistedView {
    pub names: Seq<Seq<char>>,
    pub timeseries: Seq<Seq<Sample>>,
    pub index: Seq<(Label, Seq<u8>)>,
}

/// What a vector of index records holds.
pub open spec fn records_view(records: Seq<TagIndex>) -> Seq<(Label, Seq<u8>)> {
    Seq::new(records.len(), |i: int| records[i]@)
}

impl View for PersistedIndex {
    type V = PersistedView;

    open spec fn view(&self) -> PersistedView {
        PersistedView {
            names: texts(self.names@),
            timeseries: columns_view(self.timeseries@),
            index: records_view(self.index@),
        }
    }
}

/// The position of the first of `items` that fails the test `ok`, if one
/// fails.
pub open spec fn first_failing<A>(items: Seq<A>, ok: spec_fn(A) -> bool) -> Option<int>
    decreases items.len(),
{
    if items.len() == 0 {
        None
    } else {
        match first_failing(items.drop_last(), ok) {
            Some(i) => Some(i),
            None => if ok(items.last()) {
                None
            } else {
                Some(items.len() - 1)
            },
        }
    }
}

/// An item that is the first to fail among the first `n` items is the first
/// to fail among all of them.
pub proof fn lemma_first_failing_stays<A>(items: Seq<A>, ok: spec_fn(A) -> bool, n: int)
    requires
        0 <= n <= items.len(),
        first_failing(items.take(n), ok) is Some,
    ensures
        first_failing(items, ok) == first_failing(items.take(n), ok),
    decreases items.len() - n,
{
    if n < items.len() {
        assert(items.take(n + 1).drop_last() =~= items.take(n));
        lemma_first_failing_stays(items, ok, n + 1);
    } else {
        assert(items.take(n) =~= items);
    }
}

/// The bytes of the record decode to a posting set.
pub open spec fn decodable() -> spec_fn((Label, Seq<u8>)) -> bool {
    |record: (Label, Seq<u8>)| decoded_members(record.1) is Some
}

/// The position of the first index record whose bytes do not decode to a
/// posting set, if there is one.
pub open spec fn first_undecodable(records: Seq<(Label, Seq<u8>)>) -> Option<int> {
    first_failing(records, decodable())
}

/// The postings that index records stand for. Where a label has two records
/// the later one counts.
pub open spec fn decoded_postings(records: Seq<(Label, Seq<u8>)>) -> Map<Label, Set<u32>>
    decreases records.len(),
{
    if records.len() == 0 {
        Map::empty()
    } else {
        decoded_postings(records.drop_last()).insert(
            records.last().0,
            decoded_members(records.last().1).unwrap(),
        )
    }
}

/// What loading makes of a persisted index. Identifiers go by position: the
/// name and the column at index `i` belong to series `i`. More names than
/// there are identifiers are refused, and so are names and columns that
/// differ in number, and an index record that does not decode.
pub open spec fn load_outcome(persisted: PersistedView) -> Result<DbView, DbError> {
    if persisted.names.len() > u32::MAX {
        Err(DbError::SeriesLimit)
    } else if persisted.names.len() != persisted.timeseries.len() {
        Err(DbError::InternalConsistency)
    } else {
        match first_undecodable(persisted.index) {
            Some(line) => Err(DbError::CorruptData { file: IndexFile::Index, line: line as usize }),
            None => Ok(
                DbView {
                    names: persisted.names,
                    columns: persisted.timeseries,
                    postings: decoded_postings(persisted.index),
                },
            ),
        }
    }
}

/// The records are an image of the store: they list its names and its columns
/// in identifier order and its labels in ascending order, each label with
/// bytes that decode to its posting set.
pub open spec fn is_image(persisted: PersistedView, db: DbView) -> bool {
    let postings = ascending_postings(db.postings);
    &&& persisted.names == db.names
    &&& persisted.timeseries == db.columns
    &&& persisted.index.len() == postings.len()
    &&& forall|i: int|
        0 <= i < postings.len() ==> (#[trigger] persisted.index[i]).0 == postings[i].0
            && decoded_members(persisted.index[i].1) == Some(postings[i].1)
}

} // verus!
