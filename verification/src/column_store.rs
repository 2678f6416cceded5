//! The column store: for each series the samples appended to it.

use vstd::prelude::*;

verus! {

/// A sample: a timestamp in milliseconds and the bit pattern of a 64-bit
/// floating-point value. The store carries the bits through untouched.
pub type Sample = (i64, u64);

/// The sample sequences of a vector of columns.
pub open spec fn columns_view(columns: Seq<Vec<Sample>>) -> Seq<Seq<Sample>> {
    Seq::new(columns.len(), |i: int| columns[i]@)
}

/// For each series identifier the samples of that series, in the order in
/// which they were appended.
pub struct ColumnStore {
    columns: Vec<Vec<Sample>>,
}

impl View for ColumnStore {
    type V = Seq<Seq<Sample>>;

    closed spec fn view(&self) -> Seq<Seq<Sample>> {
        columns_view(self.columns@)
    }
}

impl ColumnStore {
    /// A store without series.
    pub fn new() -> (store: ColumnStore)
        ensures
            store@ == Seq::<Seq<Sample>>::empty(),
    {
        let store = ColumnStore { columns: Vec::new() };
        assert(store@ =~= Seq::empty());
        store
    }

    /// A store that holds the given columns, the column at index `i` for
    /// series `i`.
    pub fn from_columns(columns: Vec<Vec<Sample>>) -> (store: ColumnStore)
        ensures
            store@ == columns_view(columns@),
    {
        ColumnStore { columns }
    }

    /// Gives the columns up, the column of series `i` at index `i`.
    pub fn into_columns(self) -> (columns: Vec<Vec<Sample>>)
        ensures
            columns_view(columns@) == self@,
    {
        self.columns
    }

    /// The number of series in the store.
    pub fn len(&self) -> (n: usize)
        ensures
            n == self@.len(),
    {
        self.columns.len()
    }

    /// Adds a series without samples; its identifier is the number of series
    /// that the store held before.
    pub fn push_series(&mut self)
        ensures
            final(self)@ == old(self)@.push(Seq::<Sample>::empty()),
    {
        self.columns.push(Vec::new());
        assert(self@ =~= old(self)@.push(Seq::<Sample>::empty()));
    }

    /// Appends a sample to the end of the sequence of series `id`. Timestamps
    /// need not ascend, and a timestamp may occur twice.
    pub fn append(&mut self, id: u32, timestamp_ms: i64, value_bits: u64)
        requires
            id < old(self)@.len(),
        ensures
            final(self)@ == old(self)@.update(
                id as int,
                old(self)@[id as int].push((timestamp_ms, value_bits)),
            ),
    {
        self.columns[id as usize].push((timestamp_ms, value_bits));
        assert(self@ =~= old(self)@.update(
            id as int,
            old(self)@[id as int].push((timestamp_ms, value_bits)),
        ));
    }

    /// The samples of series `id` in the order in which they were appended,
    /// or `None` where the store has no such series.
    pub fn get(&self, id: u32) -> (samples: Option<&Vec<Sample>>)
        ensures
            id < self@.len() ==> samples is Some && samples->Some_0@ == self@[id as int],
            id >= self@.len() ==> samples is None,
    {
        if (id as usize) < self.columns.len() {
            Some(&self.columns[id as usize])
        } else {
            None
        }
    }
}

} // verus!
