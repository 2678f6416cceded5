use om::{
    cmd_build, cmd_search, DbError, IndexFile, Labels, MetricSample, PersistedIndex, TagIndex, DB,
};
use roaring::RoaringBitmap;

fn labels(pairs: &[(&str, &str)]) -> Labels {
    let mut labels = Labels::new();
    for (k, v) in pairs {
        labels.insert(k.to_string(), v.to_string());
    }
    labels
}

fn sample(timestamp_ms: i64, value: f64, pairs: &[(&str, &str)]) -> MetricSample {
    MetricSample { timestamp_ms, value_bits: value.to_bits(), labels: labels(pairs) }
}

fn ids(db: &DB, key: &str, value: &str) -> Vec<u32> {
    match db.posting(key, value) {
        Some(entry) => entry.ids.iter().collect(),
        None => vec![],
    }
}

fn three_pods() -> DB {
    let mut db = DB::new();
    assert_eq!(db.ingest(sample(1, 1.0, &[("pod", "abc1"), ("region", "us")])), Ok(0));
    assert_eq!(db.ingest(sample(2, 2.0, &[("pod", "abc2"), ("region", "us")])), Ok(1));
    assert_eq!(db.ingest(sample(3, 3.0, &[("pod", "abd1"), ("region", "us")])), Ok(2));
    db
}

fn bitmap_bytes(members: &[u32]) -> Vec<u8> {
    let mut bitmap = RoaringBitmap::new();
    for m in members {
        bitmap.insert(*m);
    }
    let mut bytes = vec![];
    bitmap.serialize_into(&mut bytes).unwrap();
    bytes
}

fn record(k: &str, v: &str, members: &[u32]) -> TagIndex {
    TagIndex { k: k.to_string(), v: v.to_string(), b: bitmap_bytes(members) }
}

#[test]
fn new_store_is_empty() {
    let db = DB::new();
    assert_eq!(db.num_timeseries(), 0);
    assert_eq!(db.samples(0), None);
    assert!(db.posting("pod", "abc1").is_none());
    assert_eq!(db.search("pod", "abc").matched_weight, 0);
}

#[test]
fn prefix_query_weighs_matching_pods() {
    let db = three_pods();
    assert_eq!(db.num_timeseries(), 3);
    assert_eq!(db.search("pod", "abc").matched_weight, 2);
    assert_eq!(db.search("pod", "abd").matched_weight, 1);
    assert_eq!(db.search("pod", "ab").matched_weight, 3);
    assert_eq!(db.search("region", "us").matched_weight, 3);
    assert_eq!(db.search("region", "eu").matched_weight, 0);
    assert_eq!(db.search("po", "abc").matched_weight, 0);
}

#[test]
fn prefix_query_gives_the_same_weight_after_save_and_load() {
    let persisted = three_pods().save_and_close().unwrap();
    assert_eq!(
        persisted.names,
        vec![
            "pod=abc1|region=us".to_string(),
            "pod=abc2|region=us".to_string(),
            "pod=abd1|region=us".to_string(),
        ]
    );
    let loaded = DB::load(persisted).unwrap();
    assert_eq!(loaded.num_timeseries(), 3);
    assert_eq!(loaded.search("pod", "abc").matched_weight, 2);
    assert_eq!(ids(&loaded, "pod", "abd1"), vec![2]);
}

#[test]
fn cmd_search_loads_and_searches() {
    let persisted = three_pods().save_and_close().unwrap();
    assert_eq!(cmd_search(persisted, "pod", "abc").unwrap().matched_weight, 2);
    let persisted = three_pods().save_and_close().unwrap();
    assert_eq!(cmd_search(persisted, "region", "u").unwrap().matched_weight, 3);
}

#[test]
fn sample_without_labels_is_refused() {
    let mut db = DB::new();
    assert_eq!(db.ingest(sample(1, 1.0, &[])), Err(DbError::InvalidInput));
    assert_eq!(db.num_timeseries(), 0);
    assert_eq!(db.samples(0), None);
    assert_eq!(db.ingest(sample(1, 1.0, &[("pod", "a")])), Ok(0));
    assert_eq!(db.ingest(sample(2, 2.0, &[])), Err(DbError::InvalidInput));
    assert_eq!(db.num_timeseries(), 1);
    assert_eq!(db.samples(0), Some(&vec![(1, 1.0f64.to_bits())]));
}

#[test]
fn build_fails_on_a_sample_without_labels() {
    let samples =
        vec![sample(1, 1.0, &[("pod", "a")]), sample(2, 2.0, &[]), sample(3, 3.0, &[("pod", "b")])];
    assert!(matches!(cmd_build(samples), Err(DbError::InvalidInput)));
    assert!(matches!(cmd_build(vec![sample(2, 2.0, &[])]), Err(DbError::InvalidInput)));
}

#[test]
fn same_label_set_resolves_to_one_series() {
    let mut db = DB::new();
    assert_eq!(db.ingest(sample(100, 1.5, &[("pod", "abc1"), ("region", "us")])), Ok(0));
    assert_eq!(db.ingest(sample(50, 2.5, &[("region", "us"), ("pod", "abc1")])), Ok(0));
    assert_eq!(db.num_timeseries(), 1);
    assert_eq!(db.samples(0), Some(&vec![(100, 1.5f64.to_bits()), (50, 2.5f64.to_bits())]));
    assert_eq!(ids(&db, "pod", "abc1"), vec![0]);
    assert_eq!(ids(&db, "region", "us"), vec![0]);
    assert_eq!(db.search("pod", "abc").matched_weight, 1);
}

#[test]
fn identifiers_are_dense() {
    let mut db = DB::new();
    let sets: [&[(&str, &str)]; 4] =
        [&[("a", "1")], &[("a", "2")], &[("a", "1"), ("b", "1")], &[("b", "1")]];
    let order = [0usize, 1, 0, 2, 1, 3, 3, 2, 0];
    let expected = [0u32, 1, 0, 2, 1, 3, 3, 2, 0];
    for (n, which) in order.iter().enumerate() {
        assert_eq!(db.ingest(sample(n as i64, 0.0, sets[*which])), Ok(expected[n]));
    }
    assert_eq!(db.num_timeseries(), 4);
    assert_eq!(db.samples(0).map(|c| c.len()), Some(3));
    assert_eq!(db.samples(1).map(|c| c.len()), Some(2));
    assert_eq!(db.samples(2).map(|c| c.len()), Some(2));
    assert_eq!(db.samples(3).map(|c| c.len()), Some(2));
    assert_eq!(db.samples(4), None);
}

#[test]
fn postings_hold_exactly_the_series_that_carry_the_label() {
    let mut db = DB::new();
    db.ingest(sample(1, 0.0, &[("pod", "a"), ("region", "us"), ("tier", "web")])).unwrap();
    db.ingest(sample(2, 0.0, &[("pod", "b"), ("region", "us")])).unwrap();
    db.ingest(sample(3, 0.0, &[("pod", "c"), ("region", "eu"), ("tier", "web")])).unwrap();
    db.ingest(sample(4, 0.0, &[("pod", "a"), ("region", "us"), ("tier", "web")])).unwrap();
    assert_eq!(ids(&db, "pod", "a"), vec![0]);
    assert_eq!(ids(&db, "pod", "b"), vec![1]);
    assert_eq!(ids(&db, "pod", "c"), vec![2]);
    assert_eq!(ids(&db, "region", "us"), vec![0, 1]);
    assert_eq!(ids(&db, "region", "eu"), vec![2]);
    assert_eq!(ids(&db, "tier", "web"), vec![0, 2]);
    assert_eq!(ids(&db, "tier", "db"), Vec::<u32>::new());
    assert_eq!(ids(&db, "pod", "us"), Vec::<u32>::new());
}

#[test]
fn get_timeseries_id_creates_a_series_without_samples() {
    let mut db = DB::new();
    assert_eq!(db.get_timeseries_id(labels(&[("pod", "a")])), Ok(0));
    assert_eq!(db.get_timeseries_id(labels(&[("pod", "b")])), Ok(1));
    assert_eq!(db.get_timeseries_id(labels(&[("pod", "a")])), Ok(0));
    assert_eq!(db.get_timeseries_id(labels(&[])), Err(DbError::InvalidInput));
    assert_eq!(db.num_timeseries(), 2);
    assert_eq!(db.samples(0), Some(&vec![]));
    assert_eq!(db.samples(1), Some(&vec![]));
    assert_eq!(ids(&db, "pod", "b"), vec![1]);
}

#[test]
fn save_lists_names_columns_and_labels_in_order() {
    let mut db = DB::new();
    db.ingest(sample(10, 0.5, &[("zone", "b"), ("app", "x")])).unwrap();
    db.ingest(sample(20, -1.0, &[("zone", "a")])).unwrap();
    db.ingest(sample(5, 4.0, &[("zone", "b"), ("app", "x")])).unwrap();
    db.get_timeseries_id(labels(&[("app", "y")])).unwrap();
    let persisted = db.save_and_close().unwrap();
    assert_eq!(
        persisted.names,
        vec!["app=x|zone=b".to_string(), "zone=a".to_string(), "app=y".to_string()]
    );
    assert_eq!(
        persisted.timeseries,
        vec![
            vec![(10, 0.5f64.to_bits()), (5, 4.0f64.to_bits())],
            vec![(20, (-1.0f64).to_bits())],
            vec![],
        ]
    );
    let listed: Vec<(String, String, Vec<u32>)> = persisted
        .index
        .iter()
        .map(|r| {
            let ids = RoaringBitmap::deserialize_from(&r.b[..]).unwrap();
            (r.k.clone(), r.v.clone(), ids.iter().collect())
        })
        .collect();
    assert_eq!(
        listed,
        vec![
            ("app".to_string(), "x".to_string(), vec![0]),
            ("app".to_string(), "y".to_string(), vec![2]),
            ("zone".to_string(), "a".to_string(), vec![1]),
            ("zone".to_string(), "b".to_string(), vec![0]),
        ]
    );
}

#[test]
fn saved_bytes_decode_to_the_posting_set() {
    let mut db = DB::new();
    for n in 0..5000 {
        let pod = format!("p{}", n);
        db.ingest(sample(n, 0.0, &[("pod", pod.as_str()), ("all", "yes")])).unwrap();
    }
    let persisted = db.save_and_close().unwrap();
    assert_eq!(persisted.index.len(), 5001);
    let all = persisted.index.iter().find(|r| r.k == "all").unwrap();
    let mut expected = RoaringBitmap::new();
    expected.insert_range(0..5000);
    assert_eq!(RoaringBitmap::deserialize_from(&all.b[..]).unwrap(), expected);
    let one = persisted.index.iter().find(|r| r.k == "pod" && r.v == "p4999").unwrap();
    assert_eq!(one.b, bitmap_bytes(&[4999]));
    let loaded = DB::load(persisted).unwrap();
    assert_eq!(loaded.posting("all", "yes").unwrap().ids, expected);
    assert_eq!(loaded.search("all", "y").matched_weight, 5000);
    assert_eq!(loaded.search("pod", "p49").matched_weight, 111);
}

#[test]
fn load_of_save_gives_the_store_back() {
    let mut db = DB::new();
    let sets: [&[(&str, &str)]; 3] = [
        &[("pod", "abc1"), ("region", "us")],
        &[("pod", "abc2")],
        &[("region", "eu"), ("pod", "abc1")],
    ];
    for n in 0..30i64 {
        db.ingest(sample(100 - n, n as f64 / 4.0, sets[(n % 3) as usize])).unwrap();
    }
    let columns: Vec<Vec<(i64, u64)>> = (0..3).map(|id| db.samples(id).unwrap().clone()).collect();
    let labels = [("pod", "abc1"), ("pod", "abc2"), ("region", "us"), ("region", "eu")];
    let postings: Vec<Vec<u32>> = labels.iter().map(|(k, v)| ids(&db, k, v)).collect();
    assert_eq!(postings, vec![vec![0, 2], vec![1], vec![0], vec![2]]);

    let loaded = DB::load(db.save_and_close().unwrap()).unwrap();
    assert_eq!(loaded.num_timeseries(), 3);
    for id in 0..3u32 {
        assert_eq!(loaded.samples(id), Some(&columns[id as usize]));
    }
    assert_eq!(loaded.samples(3), None);
    assert_eq!(ids(&loaded, "pod", "abc1"), postings[0]);
    assert_eq!(ids(&loaded, "pod", "abc2"), postings[1]);
    assert_eq!(ids(&loaded, "region", "us"), postings[2]);
    assert_eq!(ids(&loaded, "region", "eu"), postings[3]);
    assert!(loaded.posting("region", "asia").is_none());

    let again = loaded.save_and_close().unwrap();
    let reloaded = DB::load(again).unwrap();
    assert_eq!(reloaded.search("pod", "abc").matched_weight, 3);
}

#[test]
fn loaded_store_goes_on_ingesting() {
    let mut loaded = DB::load(three_pods().save_and_close().unwrap()).unwrap();
    assert_eq!(loaded.ingest(sample(9, 9.0, &[("region", "us"), ("pod", "abc2")])), Ok(1));
    assert_eq!(loaded.ingest(sample(9, 9.0, &[("pod", "abc3"), ("region", "us")])), Ok(3));
    assert_eq!(loaded.samples(1), Some(&vec![(2, 2.0f64.to_bits()), (9, 9.0f64.to_bits())]));
    assert_eq!(loaded.search("pod", "abc").matched_weight, 3);
    assert_eq!(ids(&loaded, "region", "us"), vec![0, 1, 2, 3]);
}

#[test]
fn load_takes_identifiers_by_position() {
    let persisted = PersistedIndex {
        names: vec!["b=2".to_string(), "a=1".to_string()],
        timeseries: vec![vec![(7, 1)], vec![]],
        index: vec![record("b", "2", &[0]), record("a", "1", &[1])],
    };
    let mut db = DB::load(persisted).unwrap();
    assert_eq!(db.num_timeseries(), 2);
    assert_eq!(db.samples(0), Some(&vec![(7, 1)]));
    assert_eq!(ids(&db, "a", "1"), vec![1]);
    assert_eq!(ids(&db, "b", "2"), vec![0]);
    assert_eq!(db.ingest(sample(1, 0.0, &[("a", "1")])), Ok(1));
    assert_eq!(db.ingest(sample(1, 0.0, &[("c", "3")])), Ok(2));
}

#[test]
fn load_keeps_the_later_record_of_a_label() {
    let persisted = PersistedIndex {
        names: vec![],
        timeseries: vec![],
        index: vec![
            record("pod", "a", &[1, 2]),
            record("pod", "b", &[3]),
            record("pod", "a", &[9]),
        ],
    };
    let db = DB::load(persisted).unwrap();
    assert_eq!(ids(&db, "pod", "a"), vec![9]);
    assert_eq!(ids(&db, "pod", "b"), vec![3]);
    assert_eq!(db.search("pod", "").matched_weight, 0);
    assert_eq!(db.search("pod", "a").matched_weight, 1);
}

#[test]
fn load_reports_the_first_record_that_does_not_decode() {
    let mut broken = bitmap_bytes(&[1, 2, 3]);
    broken.truncate(broken.len() - 1);
    let persisted = PersistedIndex {
        names: vec!["pod=a".to_string()],
        timeseries: vec![vec![]],
        index: vec![
            record("pod", "a", &[0]),
            TagIndex { k: "pod".to_string(), v: "b".to_string(), b: broken },
            TagIndex { k: "pod".to_string(), v: "c".to_string(), b: vec![1, 2, 3, 4] },
        ],
    };
    assert!(matches!(
        DB::load(persisted),
        Err(DbError::CorruptData { file: IndexFile::Index, line: 1 })
    ));
    let persisted = PersistedIndex {
        names: vec![],
        timeseries: vec![],
        index: vec![TagIndex { k: "pod".to_string(), v: "b".to_string(), b: vec![] }],
    };
    assert!(matches!(
        cmd_search(persisted, "pod", "b"),
        Err(DbError::CorruptData { file: IndexFile::Index, line: 0 })
    ));
}

#[test]
fn load_refuses_names_and_columns_that_differ_in_number() {
    let persisted = PersistedIndex {
        names: vec!["pod=a".to_string(), "pod=b".to_string()],
        timeseries: vec![vec![]],
        index: vec![],
    };
    assert!(matches!(DB::load(persisted), Err(DbError::InternalConsistency)));
    let persisted = PersistedIndex {
        names: vec![],
        timeseries: vec![vec![]],
        index: vec![TagIndex { k: "pod".to_string(), v: "b".to_string(), b: vec![] }],
    };
    assert!(matches!(DB::load(persisted), Err(DbError::InternalConsistency)));
}

#[test]
fn store_with_a_repeated_name_cannot_be_saved() {
    let persisted = PersistedIndex {
        names: vec!["pod=a".to_string(), "pod=a".to_string()],
        timeseries: vec![vec![(1, 1)], vec![(2, 2)]],
        index: vec![record("pod", "a", &[0, 1])],
    };
    let mut db = DB::load(persisted).unwrap();
    assert_eq!(db.num_timeseries(), 2);
    assert_eq!(db.search("pod", "a").matched_weight, 2);
    assert_eq!(db.ingest(sample(3, 0.0, &[("pod", "a")])), Ok(1));
    assert!(matches!(db.save_and_close(), Err(DbError::InternalConsistency)));
}

#[test]
fn build_makes_the_records_of_the_store() {
    let samples = vec![
        sample(1, 1.0, &[("pod", "abc1"), ("region", "us")]),
        sample(2, 2.0, &[("pod", "abc2"), ("region", "us")]),
        sample(3, 3.0, &[("pod", "abd1"), ("region", "us")]),
        sample(4, 4.0, &[("region", "us"), ("pod", "abc1")]),
    ];
    let persisted = cmd_build(samples).unwrap();
    assert_eq!(persisted.names.len(), 3);
    assert_eq!(persisted.timeseries[0], vec![(1, 1.0f64.to_bits()), (4, 4.0f64.to_bits())]);
    assert_eq!(persisted.index.len(), 4);
    assert_eq!(cmd_search(persisted, "pod", "abc").unwrap().matched_weight, 2);
    let empty = cmd_build(vec![]).unwrap();
    assert!(empty.names.is_empty() && empty.timeseries.is_empty() && empty.index.is_empty());
}

#[test]
fn a_series_under_two_values_of_the_range_counts_twice() {
    let persisted = PersistedIndex {
        names: vec!["x".to_string()],
        timeseries: vec![vec![]],
        index: vec![
            record("pod", "abc1", &[0]),
            record("pod", "abc2", &[0]),
            record("pod", "abd", &[0]),
        ],
    };
    assert_eq!(cmd_search(persisted, "pod", "abc").unwrap().matched_weight, 2);
}

#[test]
fn label_sets_that_render_alike_share_a_series() {
    let mut db = DB::new();
    assert_eq!(db.ingest(sample(1, 0.0, &[("a", "1|b=2")])), Ok(0));
    assert_eq!(db.ingest(sample(2, 0.0, &[("a", "1"), ("b", "2")])), Ok(0));
    assert_eq!(db.num_timeseries(), 1);
    assert_eq!(ids(&db, "a", "1|b=2"), vec![0]);
    assert_eq!(ids(&db, "a", "1"), vec![0]);
    assert_eq!(ids(&db, "b", "2"), vec![0]);
    assert_eq!(db.save_and_close().unwrap().names, vec!["a=1|b=2".to_string()]);
}
