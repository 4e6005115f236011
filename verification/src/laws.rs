//! The index's standing guarantees, each proved from the contracts in
//! `model`: conservation of term counts, non-negativity and boundedness of
//! the corpus-wide counts, and idempotence of reindexing.

use crate::alist::{
    has_key, strip_key, lemma_lookup_push, lemma_lookup_some_index,
    lemma_strip_push_absent,
};
use crate::lexer::spec_tokens;
use crate::model::{df, fcount, occ, InMemoryModel, add_outcome, lemma_df_bounds, lemma_df_push, lemma_df_witness};
use vstd::prelude::*;

verus! {

/// A term table with all counts at least one holds a term exactly when the
/// term's count is positive.
pub proof fn lemma_contains_iff_positive(s: Seq<(Vec<char>, u64)>, t: Seq<char>)
    requires
        forall|i: int| 0 <= i < s.len() ==> #[trigger] s[i].1 >= 1,
    ensures
        has_key(s, t) == (fcount(s, t) >= 1),
{
    if has_key(s, t) {
        let i = lemma_lookup_some_index(s, t);
    }
}

/// Conservation: every indexed document's recorded term count is the sum of
/// its frequency table's values.
pub proof fn lemma_conservation(m: InMemoryModel, p: Seq<char>)
    requires
        m.wf(),
    ensures
        m.doc(p) matches Some(d) ==> d.spec_count() == d.spec_ft().total(),
{
    if m.has_doc(p) {
        let i = lemma_lookup_some_index(m.docs_view(), p);
    }
}

/// The corpus-wide count of a term is never negative, and a term the global
/// table holds counts at least one.
pub proof fn lemma_gtf_nonnegative(m: InMemoryModel)
    requires
        m.wf(),
    ensures
        forall|t: Seq<char>| #[trigger] m.gtf_count(t) >= 0,
        forall|t: Seq<char>| #[trigger]
            m.spec_gtf().contains_term(t) ==> m.gtf_count(t) >= 1,
    {
    assert forall|t: Seq<char>| #[trigger]
        m.spec_gtf().contains_term(t) implies m.gtf_count(t) >= 1 by {
        lemma_contains_iff_positive(m.spec_gtf().entries_view(), t);
    }
}

/// Every term present in any document's frequency table is counted at least
/// once in the corpus-wide table.
pub proof fn lemma_doc_terms_counted(m: InMemoryModel, p: Seq<char>, t: Seq<char>)
    requires
        m.wf(),
    ensures
        (m.doc(p) matches Some(d) && d.spec_ft().contains_term(t)) ==> m.gtf_count(t) >= 1,
{
    if m.has_doc(p) {
        let w = lemma_lookup_some_index(m.docs_view(), p);
        let d = m.doc(p)->Some_0;
        if d.spec_ft().contains_term(t) {
            lemma_df_witness(m.docs_view(), t, w);
            assert(m.gtf_count(t) == df(m.docs_view(), t));
        }
    }
}

/// Document-frequency bound: no term occurs in more documents than the index
/// holds.
pub proof fn lemma_gtf_bounded_by_doc_count(m: InMemoryModel)
    requires
        m.wf(),
    ensures
        forall|t: Seq<char>| #[trigger] m.gtf_count(t) <= m.doc_count(),
{
    assert forall|t: Seq<char>| #[trigger] m.gtf_count(t) <= m.doc_count() by {
        assert(m.gtf_count(t) == df(m.docs_view(), t));
        lemma_df_bounds(m.docs_view(), t);
    }
}

/// Idempotent reindex: adding the same content under the same path twice
/// leaves every observation of the index as after the first add — the same
/// document count, the same corpus-wide count for every term, the same set
/// of indexed paths, every other document untouched, and a document for the
/// path with the same term count, stamp and frequencies.
pub proof fn lemma_add_document_idempotent(
    m0: InMemoryModel,
    m1: InMemoryModel,
    m2: InMemoryModel,
    p1: Vec<char>,
    p2: Vec<char>,
    content: Seq<char>,
    last_modified: u64,
)
    requires
        m0.wf(),
        m1.wf(),
        m2.wf(),
        p1@ == p2@,
        add_outcome(m0, m1, p1, content, last_modified),
        add_outcome(m1, m2, p2, content, last_modified),
    ensures
        m2.doc_count() == m1.doc_count(),
        forall|t: Seq<char>| #[trigger] m2.gtf_count(t) == m1.gtf_count(t),
        forall|q: Seq<char>| #[trigger] m2.has_doc(q) == m1.has_doc(q),
        forall|q: Seq<char>| q != p1@ ==> #[trigger] m2.doc(q) == m1.doc(q),
        ({
            let d1 = m1.docs_view().last().1;
            let d2 = m2.docs_view().last().1;
            &&& d2.spec_count() == d1.spec_count()
            &&& d2.spec_last_modified() == d1.spec_last_modified()
            &&& forall|t: Seq<char>| #[trigger]
                d2.spec_ft().count(t) == d1.spec_ft().count(t)
        }),
{
    let s0 = strip_key(m0.docs_view(), p1@);
    let d1 = m1.docs_view().last().1;
    let d2 = m2.docs_view().last().1;
    assert(m1.docs_view() == s0.push((p1, d1)));
    crate::alist::lemma_strip_lookup(m0.docs_view(), p1@, p1@);
    assert(!has_key(s0, p1@));
    lemma_strip_push_absent(s0, (p1, d1), p1@);
    assert(strip_key(m1.docs_view(), p2@) =~= s0);
    assert(m2.docs_view() == s0.push((p2, d2)));

    assert forall|q: Seq<char>| #[trigger] m2.has_doc(q) == m1.has_doc(q) by {
        lemma_lookup_push(s0, (p1, d1), q);
        lemma_lookup_push(s0, (p2, d2), q);
    }
    assert forall|q: Seq<char>| q != p1@ implies #[trigger] m2.doc(q) == m1.doc(q) by {
        lemma_lookup_push(s0, (p1, d1), q);
        lemma_lookup_push(s0, (p2, d2), q);
    }
    assert forall|t: Seq<char>| #[trigger] m2.gtf_count(t) == m1.gtf_count(t) by {
        assert(m1.gtf_count(t) == df(m1.docs_view(), t));
        assert(m2.gtf_count(t) == df(m2.docs_view(), t));
        lemma_df_push(s0, (p1, d1), t);
        lemma_df_push(s0, (p2, d2), t);
        lemma_contains_iff_positive(d1.spec_ft().entries_view(), t);
        lemma_contains_iff_positive(d2.spec_ft().entries_view(), t);
        assert(d1.spec_ft().count(t) == occ(spec_tokens(content), t));
        assert(d2.spec_ft().count(t) == occ(spec_tokens(content), t));
    }
}

} // verus!
