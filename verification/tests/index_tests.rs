use docsense::model::InMemoryModel;

fn chars(s: &str) -> Vec<char> {
    s.chars().collect()
}

fn conserve_path() -> Vec<char> {
    chars("/conserve.txt")
}

#[test]
fn empty_index_stats() {
    let m = InMemoryModel::new();
    assert_eq!(m.document_count(), 0);
    assert_eq!(m.unique_terms(), 0);
    assert!(m.get_document(&chars("/a")).is_none());
}

#[test]
fn add_document_builds_frequency_table() {
    let mut m = InMemoryModel::new();
    m.add_document(chars("/a"), &chars("cat dog cat"), 1).unwrap();
    assert_eq!(m.document_count(), 1);
    let d = m.get_document(&chars("/a")).unwrap();
    assert_eq!(d.term_count(), 3);
    assert_eq!(d.frequency(&chars("CAT")), 2);
    assert_eq!(d.frequency(&chars("DOG")), 1);
    assert_eq!(d.frequency(&chars("BIRD")), 0);
    assert_eq!(d.last_modified(), 1);
}

#[test]
fn conservation_term_count_is_table_sum() {
    let mut m = InMemoryModel::new();
    m.add_document(conserve_path(), &chars("one two two three three three"), 5).unwrap();
    let d = m.get_document(&conserve_path()).unwrap();
    let sum = d.frequency(&chars("ONE")) + d.frequency(&chars("TWO")) + d.frequency(&chars("THREE"));
    assert_eq!(d.term_count(), sum);
    assert_eq!(d.term_count(), 6);
}



#[test]
fn global_term_frequency_uses_document_frequency_semantics() {
    let mut m = InMemoryModel::new();
    m.add_document(chars("/a"), &chars("cat dog cat"), 1).unwrap();
    m.add_document(chars("/b"), &chars("dog dog dog"), 1).unwrap();
    // DOG occurs in two documents, CAT in one: counted per document.
    assert_eq!(m.global_frequency(&chars("CAT")), 1);
    assert_eq!(m.global_frequency(&chars("DOG")), 2);
    assert_eq!(m.unique_terms(), 2);
}

#[test]
fn gtf_bounded_by_document_count() {
    let mut m = InMemoryModel::new();
    m.add_document(chars("/a"), &chars("x y z"), 1).unwrap();
    m.add_document(chars("/b"), &chars("x x"), 1).unwrap();
    m.add_document(chars("/c"), &chars("y"), 1).unwrap();
    let n = m.document_count() as u64;
    for t in ["X", "Y", "Z", "W"] {
        assert!(m.global_frequency(&chars(t)) <= n);
    }
}

#[test]
fn remove_document_decrements_global_counts() {
    let mut m = InMemoryModel::new();
    m.add_document(chars("/a"), &chars("cat dog"), 1).unwrap();
    m.add_document(chars("/b"), &chars("dog"), 1).unwrap();
    m.remove_document(&chars("/a"));
    assert_eq!(m.document_count(), 1);
    assert!(m.get_document(&chars("/a")).is_none());
    assert_eq!(m.global_frequency(&chars("CAT")), 0);
    assert_eq!(m.global_frequency(&chars("DOG")), 1);
    m.remove_document(&chars("/b"));
    assert_eq!(m.document_count(), 0);
    assert_eq!(m.global_frequency(&chars("DOG")), 0);
}

#[test]
fn removing_missing_document_changes_nothing() {
    let mut m = InMemoryModel::new();
    m.add_document(chars("/a"), &chars("cat"), 1).unwrap();
    m.remove_document(&chars("/zzz"));
    assert_eq!(m.document_count(), 1);
    assert_eq!(m.global_frequency(&chars("CAT")), 1);
}

#[test]
fn reindex_is_idempotent() {
    let mut once = InMemoryModel::new();
    once.add_document(chars("/a"), &chars("cat dog cat"), 7).unwrap();

    let mut twice = InMemoryModel::new();
    twice.add_document(chars("/a"), &chars("cat dog cat"), 7).unwrap();
    twice.add_document(chars("/a"), &chars("cat dog cat"), 7).unwrap();

    assert_eq!(twice.document_count(), once.document_count());
    assert_eq!(twice.unique_terms(), once.unique_terms());
    for t in ["CAT", "DOG"] {
        assert_eq!(twice.global_frequency(&chars(t)), once.global_frequency(&chars(t)));
    }
    let d1 = once.get_document(&chars("/a")).unwrap();
    let d2 = twice.get_document(&chars("/a")).unwrap();
    assert_eq!(d1.term_count(), d2.term_count());
    assert_eq!(d1.last_modified(), d2.last_modified());
    assert_eq!(d1.frequency(&chars("CAT")), d2.frequency(&chars("CAT")));
    assert_eq!(d1.frequency(&chars("DOG")), d2.frequency(&chars("DOG")));
}

#[test]
fn replace_document_swaps_contents() {
    let mut m = InMemoryModel::new();
    m.add_document(chars("/a"), &chars("cat cat"), 1).unwrap();
    m.add_document(chars("/a"), &chars("dog"), 2).unwrap();
    assert_eq!(m.document_count(), 1);
    let d = m.get_document(&chars("/a")).unwrap();
    assert_eq!(d.term_count(), 1);
    assert_eq!(d.frequency(&chars("CAT")), 0);
    assert_eq!(d.frequency(&chars("DOG")), 1);
    assert_eq!(m.global_frequency(&chars("CAT")), 0);
    assert_eq!(m.global_frequency(&chars("DOG")), 1);
}

#[test]
fn staleness_detection() {
    let mut m = InMemoryModel::new();
    m.add_document(chars("/a"), &chars("cat"), 10).unwrap();
    // Stored stamp strictly older than the supplied one: reindex.
    assert_eq!(m.requires_reindexing(&chars("/a"), 11), Ok(true));
    // Equal or newer: no reindex.
    assert_eq!(m.requires_reindexing(&chars("/a"), 10), Ok(false));
    assert_eq!(m.requires_reindexing(&chars("/a"), 9), Ok(false));
    // Unknown path: reindex.
    assert_eq!(m.requires_reindexing(&chars("/b"), 0), Ok(true));
}
