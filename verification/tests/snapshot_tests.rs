use docsense::model::InMemoryModel;
use docsense::snapshot::{deserialize, serialize};

fn chars(s: &str) -> Vec<char> {
    s.chars().collect()
}

fn sample_index() -> InMemoryModel {
    let mut m = InMemoryModel::new();
    m.add_document(chars("/notes/cats.txt"), &chars("cat dog cat"), 11).unwrap();
    m.add_document(chars("/notes/dogs.txt"), &chars("dog dog dog"), 22).unwrap();
    m.add_document(chars("/empty"), &chars(""), 33).unwrap();
    m
}

#[test]
fn snapshot_round_trips() {
    let m = sample_index();
    let text = serialize(&m);
    let m2 = deserialize(&text).expect("a saved snapshot loads");

    assert_eq!(m2.document_count(), m.document_count());
    assert_eq!(m2.unique_terms(), m.unique_terms());
    for p in ["/notes/cats.txt", "/notes/dogs.txt", "/empty"] {
        let d = m.get_document(&chars(p)).unwrap();
        let d2 = m2.get_document(&chars(p)).unwrap();
        assert_eq!(d2.term_count(), d.term_count());
        assert_eq!(d2.last_modified(), d.last_modified());
        for t in ["CAT", "DOG"] {
            assert_eq!(d2.frequency(&chars(t)), d.frequency(&chars(t)));
        }
    }
    for t in ["CAT", "DOG", "BIRD"] {
        assert_eq!(m2.global_frequency(&chars(t)), m.global_frequency(&chars(t)));
    }
}

#[test]
fn reserializing_a_loaded_snapshot_is_stable() {
    let m = sample_index();
    let text = serialize(&m);
    let m2 = deserialize(&text).unwrap();
    let text2 = serialize(&m2);
    let m3 = deserialize(&text2).unwrap();
    assert_eq!(m3.document_count(), m.document_count());
    assert_eq!(m3.global_frequency(&chars("DOG")), m.global_frequency(&chars("DOG")));
    // Loading is a fixed point: the second save equals its own reload's save.
    assert_eq!(serialize(&m3), text2);
}

#[test]
fn empty_index_round_trips() {
    let m = InMemoryModel::new();
    let text = serialize(&m);
    let m2 = deserialize(&text).unwrap();
    assert_eq!(m2.document_count(), 0);
    assert_eq!(m2.unique_terms(), 0);
}

#[test]
fn malformed_snapshots_are_refused() {
    assert!(deserialize(&chars("not a snapshot")).is_none());
    assert!(deserialize(&chars("")).is_none());
    assert!(deserialize(&chars("0000000000000000")).is_none());

    // Truncating a valid snapshot breaks it.
    let m = sample_index();
    let mut text = serialize(&m);
    text.truncate(text.len() - 1);
    assert!(deserialize(&text).is_none());

    // Trailing garbage breaks it too.
    let mut text2 = serialize(&m);
    text2.push('x');
    assert!(deserialize(&text2).is_none());
}
