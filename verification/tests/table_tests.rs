use docsense::model::{FreqTable, InMemoryModel};

fn chars(s: &str) -> Vec<char> {
    s.chars().collect()
}

#[test]
fn fresh_table_is_empty() {
    let ft = FreqTable::new();
    assert_eq!(ft.num_entries(), 0);
    assert_eq!(ft.get(&chars("CAT")), 0);
    assert!(!ft.contains(&chars("CAT")));
    assert_eq!(ft.total_checked(), Some(0));
}

#[test]
fn increment_counts_occurrences() {
    let mut ft = FreqTable::new();
    ft.increment(&chars("CAT"));
    ft.increment(&chars("CAT"));
    ft.increment(&chars("DOG"));
    assert_eq!(ft.get(&chars("CAT")), 2);
    assert_eq!(ft.get(&chars("DOG")), 1);
    assert_eq!(ft.num_entries(), 2);
    assert_eq!(ft.total_checked(), Some(3));
}

#[test]
fn decrement_floors_at_zero_and_drops_entries() {
    let mut ft = FreqTable::new();
    ft.increment(&chars("CAT"));
    ft.increment(&chars("CAT"));
    ft.decrement(&chars("CAT"));
    assert_eq!(ft.get(&chars("CAT")), 1);
    assert!(ft.contains(&chars("CAT")));
    ft.decrement(&chars("CAT"));
    assert_eq!(ft.get(&chars("CAT")), 0);
    assert!(!ft.contains(&chars("CAT")));
    assert_eq!(ft.num_entries(), 0);
    // A term the table misses stays untouched.
    ft.decrement(&chars("CAT"));
    assert_eq!(ft.get(&chars("CAT")), 0);
}

#[test]
fn push_entry_seeds_a_parsed_table() {
    let mut ft = FreqTable::new();
    ft.push_entry(chars("CAT"), 4);
    ft.push_entry(chars("DOG"), 1);
    assert_eq!(ft.get(&chars("CAT")), 4);
    assert_eq!(ft.get(&chars("DOG")), 1);
    assert_eq!(ft.total_checked(), Some(5));
}

#[test]
fn entry_iteration_matches_contents() {
    let mut ft = FreqTable::new();
    ft.increment(&chars("A"));
    ft.increment(&chars("B"));
    ft.increment(&chars("B"));
    let mut seen = Vec::new();
    for i in 0..ft.num_entries() {
        let term: String = ft.term_at(i).iter().collect();
        seen.push((term, ft.count_at(i)));
    }
    seen.sort();
    assert_eq!(seen, vec![("A".to_string(), 1), ("B".to_string(), 2)]);
}

#[test]
fn default_index_is_empty() {
    let m = InMemoryModel::default();
    assert_eq!(m.document_count(), 0);
    assert_eq!(m.unique_terms(), 0);
}
