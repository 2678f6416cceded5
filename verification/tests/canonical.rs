use om::labels::{canonicalize, Labels};
use om::lex::{compare_bytes, compare_text, Order};
use om::DbError;

fn labels(pairs: &[(&str, &str)]) -> Labels {
    let mut labels = Labels::new();
    for (k, v) in pairs {
        labels.insert(k.to_string(), v.to_string());
    }
    labels
}

fn owned(pairs: &[(&str, &str)]) -> Vec<(String, String)> {
    pairs.iter().map(|(k, v)| (k.to_string(), v.to_string())).collect()
}

#[test]
fn bytes_are_compared_lexicographically() {
    assert_eq!(compare_bytes(b"", b""), Order::Equal);
    assert_eq!(compare_bytes(b"", b"a"), Order::Less);
    assert_eq!(compare_bytes(b"a", b""), Order::Greater);
    assert_eq!(compare_bytes(b"abc", b"abd"), Order::Less);
    assert_eq!(compare_bytes(b"abd", b"abc"), Order::Greater);
    assert_eq!(compare_bytes(b"abc", b"abc"), Order::Equal);
    assert_eq!(compare_bytes(b"ab", b"abc"), Order::Less);
    assert_eq!(compare_bytes(b"abc", b"ab"), Order::Greater);
    assert_eq!(compare_bytes(&[0x7f], &[0x80]), Order::Less);
    assert_eq!(compare_bytes(&[0xff], &[0x00, 0x01]), Order::Greater);
}

#[test]
fn text_is_compared_as_rust_compares_strings() {
    let samples =
        ["", "a", "ab", "abc", "abd", "b", "pod", "région", "zone", "é", "日本", "\u{10ffff}"];
    for a in samples {
        for b in samples {
            let expected = match a.cmp(b) {
                std::cmp::Ordering::Less => Order::Less,
                std::cmp::Ordering::Equal => Order::Equal,
                std::cmp::Ordering::Greater => Order::Greater,
            };
            assert_eq!(compare_text(a, b), expected, "{:?} against {:?}", a, b);
        }
    }
}

#[test]
fn series_name_joins_sorted_pairs() {
    let (name, pairs) = canonicalize(labels(&[("region", "us"), ("pod", "abc1")])).unwrap();
    assert_eq!(name, "pod=abc1|region=us");
    assert_eq!(pairs, owned(&[("pod", "abc1"), ("region", "us")]));
}

#[test]
fn series_name_of_one_label_has_no_separator() {
    let (name, pairs) = canonicalize(labels(&[("job", "api")])).unwrap();
    assert_eq!(name, "job=api");
    assert_eq!(pairs, owned(&[("job", "api")]));
}

#[test]
fn canonical_form_does_not_depend_on_insertion_order() {
    let orders: [[(&str, &str); 3]; 6] = [
        [("a", "1"), ("b", "2"), ("c", "3")],
        [("a", "1"), ("c", "3"), ("b", "2")],
        [("b", "2"), ("a", "1"), ("c", "3")],
        [("b", "2"), ("c", "3"), ("a", "1")],
        [("c", "3"), ("a", "1"), ("b", "2")],
        [("c", "3"), ("b", "2"), ("a", "1")],
    ];
    for order in orders {
        let (name, pairs) = canonicalize(labels(&order)).unwrap();
        assert_eq!(name, "a=1|b=2|c=3");
        assert_eq!(pairs, owned(&[("a", "1"), ("b", "2"), ("c", "3")]));
    }
}

#[test]
fn keys_are_sorted_by_their_bytes() {
    let set = labels(&[("b", "1"), ("B", "2"), ("a", "3"), ("é", "4"), ("ab", "5")]);
    let (name, _) = canonicalize(set).unwrap();
    assert_eq!(name, "B=2|a=3|ab=5|b=1|é=4");
}

#[test]
fn inserting_a_key_again_replaces_its_value() {
    let mut set = Labels::new();
    set.insert("pod".to_string(), "old".to_string());
    set.insert("zone".to_string(), "z".to_string());
    set.insert("pod".to_string(), "new".to_string());
    assert_eq!(set.len(), 2);
    let (name, _) = canonicalize(set).unwrap();
    assert_eq!(name, "pod=new|zone=z");
}

#[test]
fn empty_label_set_has_no_canonical_form() {
    assert_eq!(Labels::new().len(), 0);
    assert_eq!(canonicalize(Labels::new()), Err(DbError::InvalidInput));
}

#[test]
fn different_mappings_have_different_names() {
    let (a, _) = canonicalize(labels(&[("pod", "abc1"), ("region", "us")])).unwrap();
    let (b, _) = canonicalize(labels(&[("pod", "abc2"), ("region", "us")])).unwrap();
    let (c, _) = canonicalize(labels(&[("pod", "abc1")])).unwrap();
    assert_ne!(a, b);
    assert_ne!(a, c);
    assert_ne!(b, c);
}
