use om::column_store::ColumnStore;
use om::inverted_index::{count_matches, InvertedIndex};
use om::query::{matched_weight, prefix_upper_bound};
use om::registry::SeriesRegistry;
use om::{file_path, progress_milestone, suffix, DbError, IndexFile};
use roaring::RoaringBitmap;

#[test]
fn registry_hands_out_identifiers_in_first_seen_order() {
    let mut registry = SeriesRegistry::new();
    assert_eq!(registry.count(), 0);
    assert_eq!(registry.get_or_create_id("a=1".to_string()), Ok((0, true)));
    assert_eq!(registry.get_or_create_id("b=2".to_string()), Ok((1, true)));
    assert_eq!(registry.get_or_create_id("a=1".to_string()), Ok((0, false)));
    assert_eq!(registry.get_or_create_id("c=3".to_string()), Ok((2, true)));
    assert_eq!(registry.get_or_create_id("b=2".to_string()), Ok((1, false)));
    assert_eq!(registry.count(), 3);
    assert_eq!(registry.lookup("c=3"), Some(2));
    assert_eq!(registry.lookup("d=4"), None);
    assert_eq!(
        registry.id_to_name(),
        Ok(vec!["a=1".to_string(), "b=2".to_string(), "c=3".to_string()])
    );
}

#[test]
fn registry_from_names_is_positional() {
    let names = vec!["x=1".to_string(), "y=2".to_string(), "z=3".to_string()];
    let mut registry = SeriesRegistry::from_names(names.clone()).unwrap();
    assert_eq!(registry.count(), 3);
    assert_eq!(registry.lookup("x=1"), Some(0));
    assert_eq!(registry.lookup("y=2"), Some(1));
    assert_eq!(registry.lookup("z=3"), Some(2));
    assert_eq!(registry.id_to_name(), Ok(names));
    assert_eq!(registry.get_or_create_id("w=0".to_string()), Ok((3, true)));
}

#[test]
fn registry_with_a_repeated_name_cannot_be_inverted() {
    let names = vec!["x=1".to_string(), "y=2".to_string(), "x=1".to_string()];
    let registry = SeriesRegistry::from_names(names).unwrap();
    assert_eq!(registry.count(), 3);
    assert_eq!(registry.lookup("x=1"), Some(2));
    assert_eq!(registry.id_to_name(), Err(DbError::InternalConsistency));
}

#[test]
fn empty_registry_has_no_names() {
    let registry = SeriesRegistry::new();
    assert_eq!(registry.id_to_name(), Ok(Vec::<String>::new()));
    assert_eq!(registry.lookup(""), None);
}

#[test]
fn column_store_appends_in_order() {
    let mut store = ColumnStore::new();
    assert_eq!(store.len(), 0);
    assert_eq!(store.get(0), None);
    store.push_series();
    store.push_series();
    assert_eq!(store.len(), 2);
    assert_eq!(store.get(0), Some(&vec![]));
    store.append(1, 30, 2.5f64.to_bits());
    store.append(1, 10, 1.5f64.to_bits());
    store.append(1, 10, 1.5f64.to_bits());
    store.append(0, -5, f64::NAN.to_bits());
    assert_eq!(
        store.get(1),
        Some(&vec![(30, 2.5f64.to_bits()), (10, 1.5f64.to_bits()), (10, 1.5f64.to_bits())])
    );
    assert_eq!(store.get(0), Some(&vec![(-5, f64::NAN.to_bits())]));
    assert_eq!(store.get(2), None);
    let columns = store.into_columns();
    assert_eq!(columns.len(), 2);
    let again = ColumnStore::from_columns(columns);
    assert_eq!(again.get(1).map(|c| c.len()), Some(3));
}

fn index_of(postings: &[(&str, &str, u32)]) -> InvertedIndex {
    let mut index = InvertedIndex::new();
    for (k, v, id) in postings {
        index.add_posting(k, v, *id);
    }
    index
}

fn labels_of(entries: &[om::inverted_index::PostingEntry]) -> Vec<(String, String)> {
    entries.iter().map(|e| (e.key.clone(), e.value.clone())).collect()
}

fn pair(k: &str, v: &str) -> (String, String) {
    (k.to_string(), v.to_string())
}

#[test]
fn postings_are_sets() {
    let mut index = InvertedIndex::new();
    assert_eq!(index.len(), 0);
    index.add_posting("pod", "abc1", 7);
    index.add_posting("pod", "abc1", 7);
    index.add_posting("pod", "abc1", 3);
    assert_eq!(index.len(), 1);
    let entry = index.get("pod", "abc1").unwrap();
    assert_eq!(entry.ids.len(), 2);
    assert_eq!(entry.ids.iter().collect::<Vec<u32>>(), vec![3, 7]);
    assert!(index.get("pod", "abc").is_none());
    assert!(index.get("po", "abc1").is_none());
}

#[test]
fn entries_are_kept_in_label_order() {
    let index = index_of(&[
        ("zone", "b", 0),
        ("pod", "abd1", 1),
        ("pod", "abc2", 2),
        ("app", "x", 3),
        ("pod", "abc1", 4),
        ("zone", "a", 5),
        ("pod", "", 6),
    ]);
    assert_eq!(
        labels_of(index.entries()),
        vec![
            pair("app", "x"),
            pair("pod", ""),
            pair("pod", "abc1"),
            pair("pod", "abc2"),
            pair("pod", "abd1"),
            pair("zone", "a"),
            pair("zone", "b"),
        ]
    );
}

#[test]
fn range_query_returns_the_half_open_range_of_one_key() {
    let index = index_of(&[
        ("pod", "abb9", 0),
        ("pod", "abc", 1),
        ("pod", "abc1", 2),
        ("pod", "abc2", 3),
        ("pod", "abd", 4),
        ("pod", "abd1", 5),
        ("poe", "abc1", 6),
        ("po", "abc1", 7),
        ("zone", "abc1", 8),
    ]);
    let found = index.range_query("pod", b"abc", b"abd");
    assert_eq!(
        labels_of(found),
        vec![pair("pod", "abc"), pair("pod", "abc1"), pair("pod", "abc2")]
    );
    let found = index.range_query("pod", b"abc1", b"abd1");
    assert_eq!(
        labels_of(found),
        vec![pair("pod", "abc1"), pair("pod", "abc2"), pair("pod", "abd")]
    );
    assert_eq!(labels_of(index.range_query("pod", b"", b"abc")), vec![pair("pod", "abb9")]);
    assert_eq!(labels_of(index.range_query("po", b"", b"\xff")), vec![pair("po", "abc1")]);
}

#[test]
fn range_query_is_empty_where_the_bounds_do_not_ascend() {
    let index = index_of(&[("pod", "abc1", 0), ("pod", "abc2", 1)]);
    assert!(index.range_query("pod", b"abc1", b"abc1").is_empty());
    assert!(index.range_query("pod", b"abd", b"abc").is_empty());
    assert!(index.range_query("pod", b"abc3", b"abd").is_empty());
    assert!(index.range_query("none", b"", b"\xff").is_empty());
    assert!(InvertedIndex::new().range_query("pod", b"", b"\xff").is_empty());
}

#[test]
fn count_matches_sums_cardinalities() {
    let index = index_of(&[
        ("pod", "abc1", 0),
        ("pod", "abc1", 1),
        ("pod", "abc2", 1),
        ("pod", "abc2", 2),
        ("pod", "abc2", 3),
        ("pod", "abd1", 4),
    ]);
    assert_eq!(count_matches(index.range_query("pod", b"abc", b"abd")), 5);
    assert_eq!(count_matches(index.range_query("pod", b"abd", b"abe")), 1);
    assert_eq!(count_matches(index.range_query("pod", b"x", b"y")), 0);
    assert_eq!(count_matches(index.entries()), 6);
    assert_eq!(count_matches(&[]), 0);
}

#[test]
fn insert_replaces_a_posting_set() {
    let mut index = index_of(&[("pod", "abc1", 0), ("pod", "abc1", 1)]);
    let mut ids = RoaringBitmap::new();
    ids.insert(9);
    index.insert("pod".to_string(), "abc1".to_string(), ids);
    let mut other = RoaringBitmap::new();
    other.insert(4);
    other.insert(5);
    index.insert("app".to_string(), "x".to_string(), other);
    assert_eq!(index.len(), 2);
    assert_eq!(index.get("pod", "abc1").unwrap().ids.iter().collect::<Vec<u32>>(), vec![9]);
    assert_eq!(index.get("app", "x").unwrap().ids.iter().collect::<Vec<u32>>(), vec![4, 5]);
    let entries = index.into_entries();
    assert_eq!(labels_of(&entries), vec![pair("app", "x"), pair("pod", "abc1")]);
}

#[test]
fn prefix_upper_bound_raises_the_last_byte() {
    assert_eq!(prefix_upper_bound(b"abc"), b"abd".to_vec());
    assert_eq!(prefix_upper_bound(b"a"), b"b".to_vec());
    assert_eq!(prefix_upper_bound(b"ab\x7f"), b"ab\x80".to_vec());
    assert_eq!(prefix_upper_bound(b""), Vec::<u8>::new());
    assert_eq!(prefix_upper_bound(b"ab\xff"), b"ab\x00".to_vec());
}

#[test]
fn matched_weight_takes_the_prefix_range() {
    let index = index_of(&[
        ("pod", "abc", 0),
        ("pod", "abc1", 1),
        ("pod", "abc1", 2),
        ("pod", "abcz", 3),
        ("pod", "abd", 4),
        ("pod", "ab", 5),
        ("zone", "abc1", 6),
    ]);
    assert_eq!(matched_weight(&index, "pod", "abc"), 4);
    assert_eq!(matched_weight(&index, "pod", "ab"), 6);
    assert_eq!(matched_weight(&index, "pod", "abd"), 1);
    assert_eq!(matched_weight(&index, "zone", "a"), 1);
    assert_eq!(matched_weight(&index, "pod", "x"), 0);
    assert_eq!(matched_weight(&index, "pod", ""), 0);
}

#[test]
fn every_hundred_thousandth_series_is_a_milestone() {
    assert_eq!(progress_milestone(0), None);
    assert_eq!(progress_milestone(99_998), None);
    assert_eq!(progress_milestone(99_999), Some(100_000));
    assert_eq!(progress_milestone(100_000), None);
    assert_eq!(progress_milestone(199_999), Some(200_000));
    assert_eq!(progress_milestone(u32::MAX), None);
    assert_eq!(progress_milestone(4_294_899_999), Some(4_294_900_000));
}

#[test]
fn index_files_share_a_base_path() {
    assert_eq!(suffix(IndexFile::Names), "names");
    assert_eq!(suffix(IndexFile::Timeseries), "timeseries");
    assert_eq!(suffix(IndexFile::Index), "index");
    assert_eq!(file_path("/tmp/idx", IndexFile::Names), "/tmp/idx.names");
    assert_eq!(file_path("idx", IndexFile::Timeseries), "idx.timeseries");
    assert_eq!(file_path("", IndexFile::Index), ".index");
}
