use std::collections::{BTreeMap, BTreeSet, HashMap};

use om::inverted_index::InvertedIndex;
use om::{Labels, MetricSample, DB};

/// A store kept with the collections of the standard library, to hold the
/// library against.
struct StdStore {
    ids: HashMap<String, u32>,
    columns: Vec<Vec<(i64, u64)>>,
    postings: BTreeMap<(String, String), BTreeSet<u32>>,
}

impl StdStore {
    fn new() -> StdStore {
        StdStore { ids: HashMap::new(), columns: Vec::new(), postings: BTreeMap::new() }
    }

    fn ingest(
        &mut self,
        timestamp_ms: i64,
        value_bits: u64,
        labels: &BTreeMap<String, String>,
    ) -> u32 {
        let pairs: Vec<String> = labels.iter().map(|(k, v)| format!("{}={}", k, v)).collect();
        let name = pairs.join("|");
        let next = self.ids.len() as u32;
        let id = *self.ids.entry(name).or_insert(next);
        if id == next {
            self.columns.push(Vec::new());
        }
        for (k, v) in labels {
            self.postings.entry((k.clone(), v.clone())).or_default().insert(id);
        }
        self.columns[id as usize].push((timestamp_ms, value_bits));
        id
    }
}

struct Random(u64);

impl Random {
    fn next(&mut self, bound: u64) -> u64 {
        self.0 = self.0.wrapping_mul(6364136223846793005).wrapping_add(1442695040888963407);
        (self.0 >> 33) % bound
    }

    fn word(&mut self, alphabet: &[&str], longest: u64) -> String {
        let len = self.next(longest + 1);
        (0..len).map(|_| alphabet[self.next(alphabet.len() as u64) as usize]).collect()
    }
}

fn library_labels(labels: &BTreeMap<String, String>, reversed: bool) -> Labels {
    let mut set = Labels::new();
    let mut pairs: Vec<(&String, &String)> = labels.iter().collect();
    if reversed {
        pairs.reverse();
    }
    for (k, v) in pairs {
        set.insert(k.clone(), v.clone());
    }
    set
}

fn check_against_std(db: &DB, plain: &StdStore, random: &mut Random) {
    assert_eq!(db.num_timeseries() as usize, plain.columns.len());
    for (id, column) in plain.columns.iter().enumerate() {
        assert_eq!(db.samples(id as u32), Some(column));
    }
    assert_eq!(db.samples(plain.columns.len() as u32), None);
    for ((k, v), set) in &plain.postings {
        let entry = db.posting(k, v).unwrap();
        let expected: Vec<u32> = set.iter().copied().collect();
        assert_eq!(entry.ids.iter().collect::<Vec<u32>>(), expected);
    }
    assert!(db.posting("none", "none").is_none());
    let keys = ["a", "b", "c", "é", "ab", ""];
    let alphabet = ["a", "b", "é", "z", "0"];
    for _ in 0..300 {
        let key = keys[random.next(keys.len() as u64) as usize];
        let prefix = random.word(&alphabet, 3);
        let found = db.search(key, &prefix).matched_weight;
        let expected: u64 = plain
            .postings
            .iter()
            .filter(|((k, v), _)| k == key && !prefix.is_empty() && v.starts_with(&prefix))
            .map(|(_, set)| set.len() as u64)
            .sum();
        assert_eq!(found, expected, "key {:?} prefix {:?}", key, prefix);
    }
}

#[test]
fn library_agrees_with_the_standard_collections() {
    let mut random = Random(2024);
    let keys = ["a", "b", "c", "é", "ab", ""];
    let alphabet = ["a", "b", "é", "z", "0"];
    let mut db = DB::new();
    let mut plain = StdStore::new();
    for n in 0..3000i64 {
        let mut labels = BTreeMap::new();
        let count = 1 + random.next(3);
        for _ in 0..count {
            let key = keys[random.next(keys.len() as u64) as usize].to_string();
            labels.insert(key, random.word(&alphabet, 3));
        }
        let value_bits = random.next(u64::MAX);
        let expected = plain.ingest(n, value_bits, &labels);
        let sample = MetricSample {
            timestamp_ms: n,
            value_bits,
            labels: library_labels(&labels, n % 2 == 0),
        };
        assert_eq!(db.ingest(sample), Ok(expected));
    }
    check_against_std(&db, &plain, &mut random);
    let loaded = DB::load(db.save_and_close().unwrap()).unwrap();
    check_against_std(&loaded, &plain, &mut random);
}

#[test]
fn range_queries_agree_with_an_ordered_map() {
    let mut random = Random(7);
    let keys = ["k", "kk", "l"];
    let alphabet = ["a", "b", "c", "é", "\u{7f}"];
    let mut index = InvertedIndex::new();
    let mut plain: BTreeMap<(String, String), BTreeSet<u32>> = BTreeMap::new();
    for _ in 0..1500 {
        let key = keys[random.next(3) as usize].to_string();
        let value = random.word(&alphabet, 4);
        let id = random.next(40) as u32;
        index.add_posting(&key, &value, id);
        plain.entry((key, value)).or_default().insert(id);
    }
    let listed: Vec<(String, String)> =
        index.entries().iter().map(|e| (e.key.clone(), e.value.clone())).collect();
    let expected: Vec<(String, String)> = plain.keys().cloned().collect();
    assert_eq!(listed, expected);
    assert_eq!(index.len(), plain.len());
    for _ in 0..1000 {
        let key = keys[random.next(3) as usize].to_string();
        let lo = random.word(&alphabet, 3);
        let hi = random.word(&alphabet, 3);
        let found: Vec<(String, Vec<u32>)> = index
            .range_query(&key, lo.as_bytes(), hi.as_bytes())
            .iter()
            .map(|e| {
                assert_eq!(e.key, key);
                (e.value.clone(), e.ids.iter().collect())
            })
            .collect();
        let expected: Vec<(String, Vec<u32>)> = if lo < hi {
            plain
                .range((key.clone(), lo.clone())..(key.clone(), hi.clone()))
                .map(|((_, v), set)| (v.clone(), set.iter().copied().collect()))
                .collect()
        } else {
            vec![]
        };
        assert_eq!(found, expected, "{:?} {:?} {:?}", key, lo, hi);
    }
}
