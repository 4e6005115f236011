use docsense::model::InMemoryModel;
use docsense::rank::{log2_fixed, SCALE};
use docsense::RankMethod;

fn chars(s: &str) -> Vec<char> {
    s.chars().collect()
}

fn two_doc_index() -> InMemoryModel {
    let mut m = InMemoryModel::new();
    m.add_document(chars("/a"), &chars("cat dog cat"), 1).unwrap();
    m.add_document(chars("/b"), &chars("dog dog dog"), 1).unwrap();
    m
}

#[test]
fn log2_fixed_exact_values() {
    let s = SCALE as i64;
    assert_eq!(log2_fixed(1, 1), 0);
    assert_eq!(log2_fixed(2, 1), s);
    assert_eq!(log2_fixed(8, 1), 3 * s);
    assert_eq!(log2_fixed(1, 2), -s);
    // log2(3/2) to twenty binary fraction digits.
    assert_eq!(log2_fixed(3, 2), 613377);
}

#[test]
fn tfidf_ranks_matching_document_first() {
    let m = two_doc_index();
    let r = m.search_query(&chars("cat"), RankMethod::Tfidf).unwrap();
    assert_eq!(r.len(), 2);
    let first: String = r[0].0.iter().collect();
    let second: String = r[1].0.iter().collect();
    assert_eq!(first, "/a");
    assert_eq!(second, "/b");
    // tf(CAT, A) = 2/3 and idf = log10(2/1), in fixed point.
    assert_eq!(r[0].1, 210435);
    assert!(r[0].1 > 0);
    assert_eq!(r[1].1, 0);
}

#[test]
fn bm25_ranks_matching_document_first() {
    let m = two_doc_index();
    let r = m.search_query(&chars("cat"), RankMethod::Bm25).unwrap();
    assert_eq!(r.len(), 2);
    let first: String = r[0].0.iter().collect();
    assert_eq!(first, "/a");
    assert_eq!(r[0].1, 803457);
    assert!(r[0].1 > 0);
    assert_eq!(r[1].1, 0);
}

#[test]
fn ranking_is_deterministic() {
    let m = two_doc_index();
    for method in [RankMethod::Tfidf, RankMethod::Bm25] {
        let r1 = m.search_query(&chars("dog cat"), method).unwrap();
        let r2 = m.search_query(&chars("dog cat"), method).unwrap();
        assert_eq!(r1, r2);
    }
}

#[test]
fn scores_never_rise_along_the_list() {
    let mut m = two_doc_index();
    m.add_document(chars("/c"), &chars("cat cat cat cat"), 1).unwrap();
    m.add_document(chars("/d"), &chars("bird"), 1).unwrap();
    for method in [RankMethod::Tfidf, RankMethod::Bm25] {
        let r = m.search_query(&chars("cat dog"), method).unwrap();
        assert_eq!(r.len(), 4);
        for w in r.windows(2) {
            assert!(w[0].1 >= w[1].1);
        }
    }
}

#[test]
fn empty_query_scores_zero() {
    let m = two_doc_index();
    let r = m.search_query(&chars(""), RankMethod::Tfidf).unwrap();
    assert_eq!(r.len(), 2);
    assert!(r.iter().all(|p| p.1 == 0));
}

#[test]
fn empty_corpus_returns_no_results() {
    let m = InMemoryModel::new();
    for method in [RankMethod::Tfidf, RankMethod::Bm25] {
        assert!(m.search_query(&chars("cat"), method).unwrap().is_empty());
    }
}

#[test]
fn document_frequency_scans_all_documents() {
    let m = two_doc_index();
    assert_eq!(m.doc_frequency(&chars("DOG")), 2);
    assert_eq!(m.doc_frequency(&chars("CAT")), 1);
    assert_eq!(m.doc_frequency(&chars("BIRD")), 0);
    assert_eq!(m.corpus_total(), 6);
}
