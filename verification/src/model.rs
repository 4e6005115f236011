//! The corpus index: per-document frequency tables, the corpus-wide
//! document-frequency table, and the mutations that keep the two consistent.
//!
//! The binding invariant of the whole model is `InMemoryModel::wf`: for every
//! term, the global table holds exactly the number of indexed documents whose
//! frequency table contains that term.

use crate::alist::{lookup, has_key, distinct_keys, strip_key, lemma_lookup_first, lemma_lookup_none, lemma_lookup_push, lemma_lookup_update, lemma_strip_absent, lemma_strip_is_remove, lemma_strip_lookup, lemma_lookup_some_index, lemma_index_has_key};
use crate::lexer::{spec_tokens, tokens_of};
use vstd::prelude::*;

verus! {

/// Sum of the counts of an entry list.
pub open spec fn sum_counts(s: Seq<(Vec<char>, u64)>) -> int
    decreases s.len(),
{
    if s.len() == 0 {
        0
    } else {
        s[0].1 + sum_counts(s.drop_first())
    }
}

/// The count bound to a term, zero when the term is absent.
pub open spec fn fcount(s: Seq<(Vec<char>, u64)>, t: Seq<char>) -> u64 {
    match lookup(s, t) {
        Some(v) => v,
        None => 0,
    }
}

/// How many times term `t` occurs in a token stream.
pub open spec fn occ(toks: Seq<Seq<char>>, t: Seq<char>) -> int
    decreases toks.len(),
{
    if toks.len() == 0 {
        0
    } else {
        (if toks[0] == t {
            1int
        } else {
            0int
        }) + occ(toks.drop_first(), t)
    }
}

pub proof fn lemma_occ_push(toks: Seq<Seq<char>>, x: Seq<char>, t: Seq<char>)
    ensures
        occ(toks.push(x), t) == occ(toks, t) + (if x == t {
            1int
        } else {
            0int
        }),
    decreases toks.len(),
{
    if toks.len() == 0 {
        assert(toks.push(x)[0] == x);
        assert(toks.push(x).drop_first() =~= Seq::<Seq<char>>::empty());
        assert(occ(Seq::<Seq<char>>::empty(), t) == 0);
    } else {
        assert(toks.push(x)[0] == toks[0]);
        assert(toks.push(x).drop_first() =~= toks.drop_first().push(x));
        lemma_occ_push(toks.drop_first(), x, t);
    }
}

/// Occurrence counts are never negative and never exceed the stream length.
pub proof fn lemma_occ_bounds(toks: Seq<Seq<char>>, t: Seq<char>)
    ensures
        0 <= occ(toks, t) <= toks.len(),
    decreases toks.len(),
{
    if toks.len() > 0 {
        lemma_occ_bounds(toks.drop_first(), t);
    }
}

pub proof fn lemma_sum_nonneg(s: Seq<(Vec<char>, u64)>)
    ensures
        sum_counts(s) >= 0,
    decreases s.len(),
{
    if s.len() > 0 {
        lemma_sum_nonneg(s.drop_first());
    }
}

pub proof fn lemma_sum_push(s: Seq<(Vec<char>, u64)>, e: (Vec<char>, u64))
    ensures
        sum_counts(s.push(e)) == sum_counts(s) + e.1,
    decreases s.len(),
{
    if s.len() == 0 {
        assert(s.push(e)[0] == e);
        assert(s.push(e).drop_first() =~= Seq::<(Vec<char>, u64)>::empty());
        assert(sum_counts(Seq::<(Vec<char>, u64)>::empty()) == 0);
    } else {
        assert(s.push(e)[0] == s[0]);
        assert(s.push(e).drop_first() =~= s.drop_first().push(e));
        lemma_sum_push(s.drop_first(), e);
    }
}

pub proof fn lemma_sum_update(s: Seq<(Vec<char>, u64)>, i: int, e: (Vec<char>, u64))
    requires
        0 <= i < s.len(),
    ensures
        sum_counts(s.update(i, e)) == sum_counts(s) - s[i].1 + e.1,
    decreases s.len(),
{
    if i == 0 {
        assert(s.update(0, e).drop_first() =~= s.drop_first());
    } else {
        assert(s.update(i, e)[0] == s[0]);
        assert(s.update(i, e).drop_first() =~= s.drop_first().update(i - 1, e));
        lemma_sum_update(s.drop_first(), i - 1, e);
    }
}

pub proof fn lemma_sum_remove(s: Seq<(Vec<char>, u64)>, i: int)
    requires
        0 <= i < s.len(),
    ensures
        sum_counts(s.remove(i)) == sum_counts(s) - s[i].1,
    decreases s.len(),
{
    if i == 0 {
        assert(s.remove(0) =~= s.drop_first());
    } else {
        assert(s.remove(i)[0] == s[0]);
        assert(s.remove(i).drop_first() =~= s.drop_first().remove(i - 1));
        lemma_sum_remove(s.drop_first(), i - 1);
    }
}

/// No single term counts for more than the table total.
pub proof fn lemma_count_le_sum(s: Seq<(Vec<char>, u64)>, t: Seq<char>)
    ensures
        fcount(s, t) <= sum_counts(s),
    decreases s.len(),
{
    if s.len() > 0 {
        lemma_sum_nonneg(s.drop_first());
        lemma_count_le_sum(s.drop_first(), t);
    }
}

/// Equality of two character vectors.
pub fn chars_eq(a: &Vec<char>, b: &Vec<char>) -> (r: bool)
    ensures
        r == (a@ == b@),
{
    if a.len() != b.len() {
        return false;
    }
    let mut i: usize = 0;
    while i < a.len()
        invariant
            a@.len() == b@.len(),
            i <= a@.len(),
            forall|j: int| 0 <= j < i ==> a@[j] == b@[j],
        decreases a@.len() - i,
    {
        if a[i] != b[i] {
            return false;
        }
        i = i + 1;
    }
    proof {
        assert(a@ =~= b@);
    }
    true
}

/// A per-document table mapping each term to how often it occurs; also used
/// corpus-wide, mapping each term to the number of documents containing it.
pub struct FreqTable {
    entries: Vec<(Vec<char>, u64)>,
}

/// Corpus-wide table: term to number of documents containing the term.
pub type GlobalTermFreq = FreqTable;

impl FreqTable {
    /// The stored entries, in order.
    pub closed spec fn entries_view(&self) -> Seq<(Vec<char>, u64)> {
        self.entries@
    }

    /// The count recorded for a term; absent terms count zero.
    pub open spec fn count(&self, t: Seq<char>) -> u64 {
        fcount(self.entries_view(), t)
    }

    pub open spec fn contains_term(&self, t: Seq<char>) -> bool {
        has_key(self.entries_view(), t)
    }

    /// Number of distinct terms in the table.
    pub open spec fn num_terms(&self) -> nat {
        self.entries_view().len()
    }

    /// Sum of all recorded counts.
    pub open spec fn total(&self) -> int {
        sum_counts(self.entries_view())
    }

    /// Terms are distinct and every recorded count is at least one.
    pub open spec fn wf(&self) -> bool {
        &&& distinct_keys(self.entries_view())
        &&& forall|i: int| 0 <= i < self.entries_view().len() ==> #[trigger] self.entries_view()[i].1 >= 1
    }

    /// A stored table is a real vector, so its length fits `usize`.
    pub proof fn lemma_entries_len_bound(&self)
        ensures
            self.entries_view().len() <= usize::MAX,
    {
        vstd::std_specs::vec::axiom_spec_len(&self.entries);
    }

    pub fn new() -> (r: Self)
        ensures
            r.wf(),
            r.entries_view() =~= Seq::<(Vec<char>, u64)>::empty(),
            r.num_terms() == 0,
            r.total() == 0,
            forall|t: Seq<char>| !(#[trigger] r.contains_term(t)) && r.count(t) == 0,
    {
        let r = FreqTable { entries: Vec::new() };
        proof {
            assert forall|t: Seq<char>| !(#[trigger] r.contains_term(t)) && r.count(t) == 0 by {
                assert(lookup(r.entries_view(), t) is None);
            }
        }
        r
    }

    /// Index of the entry for a term, if the table holds one.
    fn index_of(&self, t: &Vec<char>) -> (r: Option<usize>)
        ensures
            match r {
                Some(i) => {
                    &&& i < self.num_terms()
                    &&& self.entries_view()[i as int].0@ == t@
                    &&& lookup(self.entries_view(), t@) == Some(self.entries_view()[i as int].1)
                },
                None => !self.contains_term(t@),
            },
    {
        let mut i: usize = 0;
        let n = self.entries.len();
        while i < n
            invariant
                n == self.entries_view().len(),
                i <= n,
                forall|j: int| 0 <= j < i ==> self.entries_view()[j].0@ != t@,
            decreases n - i,
        {
            let e = &self.entries[i];
            if chars_eq(&e.0, t) {
                proof {
                    lemma_lookup_first(self.entries_view(), t@, i as int);
                }
                return Some(i);
            }
            i = i + 1;
        }
        proof {
            lemma_lookup_none(self.entries_view(), t@);
        }
        None
    }

    pub fn get(&self, t: &Vec<char>) -> (r: u64)
        ensures
            r == self.count(t@),
    {
        match self.index_of(t) {
            Some(i) => self.entries[i].1,
            None => 0,
        }
    }

    pub fn contains(&self, t: &Vec<char>) -> (r: bool)
        ensures
            r == self.contains_term(t@),
    {
        self.index_of(t).is_some()
    }

    pub fn num_entries(&self) -> (r: usize)
        ensures
            r == self.num_terms(),
    {
        self.entries.len()
    }

    pub fn term_at(&self, i: usize) -> (r: &Vec<char>)
        requires
            i < self.num_terms(),
        ensures
            r@ == self.entries_view()[i as int].0@,
    {
        &self.entries[i].0
    }

    pub fn count_at(&self, i: usize) -> (r: u64)
        requires
            i < self.num_terms(),
        ensures
            r == self.entries_view()[i as int].1,
    {
        self.entries[i].1
    }

    /// Raise the count of a term by one, inserting it at count one when new.
    pub fn increment(&mut self, t: &Vec<char>)
        requires
            old(self).wf(),
            old(self).count(t@) < u64::MAX,
        ensures
            final(self).wf(),
            final(self).count(t@) == old(self).count(t@) + 1,
            forall|q: Seq<char>| q != t@ ==> final(self).count(q) == old(self).count(q),
            forall|q: Seq<char>|
                final(self).contains_term(q) == (old(self).contains_term(q) || q == t@),
            final(self).total() == old(self).total() + 1,
            final(self).num_terms() == old(self).num_terms() + (if old(self).contains_term(t@) {
                0int
            } else {
                1int
            }),
    {
        let ghost s0 = self.entries_view();
        match self.index_of(t) {
            Some(i) => {
                let v = self.entries[i].1;
                self.entries[i].1 = v + 1;
                proof {
                    let e = self.entries_view()[i as int];
                    assert(self.entries_view() =~= s0.update(i as int, e));
                    assert forall|q: Seq<char>| #![auto]
                        lookup(self.entries_view(), q) == if q == t@ {
                            Some(e.1)
                        } else {
                            lookup(s0, q)
                        } by {
                        lemma_lookup_update(s0, i as int, e, q);
                    }
                    lemma_lookup_update(s0, i as int, e, t@);
                    lemma_sum_update(s0, i as int, e);
                }
            },
            None => {
                let te = t.clone();
                proof {
                    assert(te@ == t@);
                }
                self.entries.push((te, 1));
                proof {
                    let e = ((te, 1u64)).0;
                    let s1 = self.entries_view();
                    assert(s1 =~= s0.push(s1.last()));
                    assert(s1.last().0@ == t@ && s1.last().1 == 1u64);
                    assert forall|q: Seq<char>| #![auto]
                        lookup(s1, q) == if q == t@ {
                            Some(1u64)
                        } else {
                            lookup(s0, q)
                        } by {
                        lemma_lookup_push(s0, s1.last(), q);
                        if q != t@ && has_key(s0, q) {
                        }
                    }
                    lemma_sum_push(s0, s1.last());
                    assert forall|i: int, j: int| 0 <= i < j < s1.len() implies s1[i].0@
                        != s1[j].0@ by {
                        if j == s1.len() - 1 {
                            lemma_lookup_first(s0, s0[i].0@, i);
                        }
                    }
                }
            },
        }
    }

    /// Lower the count of a term by one, dropping the entry at zero; terms
    /// the table misses stay untouched.
    pub fn decrement(&mut self, t: &Vec<char>)
        requires
            old(self).wf(),
        ensures
            final(self).wf(),
            final(self).count(t@) == if old(self).count(t@) >= 1 {
                (old(self).count(t@) - 1) as u64
            } else {
                0u64
            },
            forall|q: Seq<char>| q != t@ ==> final(self).count(q) == old(self).count(q),
            forall|q: Seq<char>| q != t@ ==> final(self).contains_term(q) == old(
                self,
            ).contains_term(q),
            final(self).total() == old(self).total() - (if old(self).count(t@) >= 1 {
                1int
            } else {
                0int
            }),
            final(self).num_terms() == old(self).num_terms() - (if old(self).count(t@) == 1 {
                1int
            } else {
                0int
            }),
    {
        let ghost s0 = self.entries_view();
        match self.index_of(t) {
            Some(i) => {
                let v = self.entries[i].1;
                if v > 1 {
                    self.entries[i].1 = v - 1;
                    proof {
                        let e = self.entries_view()[i as int];
                        assert(self.entries_view() =~= s0.update(i as int, e));
                        assert forall|q: Seq<char>| #![auto]
                            lookup(self.entries_view(), q) == if q == t@ {
                                Some(e.1)
                            } else {
                                lookup(s0, q)
                            } by {
                            lemma_lookup_update(s0, i as int, e, q);
                        }
                        lemma_sum_update(s0, i as int, e);
                    }
                } else {
                    self.entries.remove(i);
                    proof {
                        assert(self.entries_view() =~= s0.remove(i as int));
                        lemma_strip_is_remove(s0, t@, i as int);
                        assert forall|q: Seq<char>| #![auto]
                            lookup(self.entries_view(), q) == if q == t@ {
                                None::<u64>
                            } else {
                                lookup(s0, q)
                            } by {
                            lemma_strip_lookup(s0, t@, q);
                        }
                        lemma_strip_lookup(s0, t@, t@);
                        lemma_sum_remove(s0, i as int);
                    }
                }
            },
            None => {},
        }
    }

    /// Append an entry for a term the table does not hold yet.
    pub fn push_entry(&mut self, t: Vec<char>, c: u64)
        requires
            old(self).wf(),
            !old(self).contains_term(t@),
            c >= 1,
        ensures
            final(self).wf(),
            final(self).entries_view() == old(self).entries_view().push((t, c)),
            final(self).count(t@) == c,
            forall|q: Seq<char>| q != t@ ==> final(self).count(q) == old(self).count(q),
            forall|q: Seq<char>|
                final(self).contains_term(q) == (old(self).contains_term(q) || q == t@),
            final(self).total() == old(self).total() + c,
            final(self).num_terms() == old(self).num_terms() + 1,
    {
        let ghost s0 = self.entries_view();
        let ghost e = (t, c);
        self.entries.push((t, c));
        proof {
            let s1 = self.entries_view();
            assert(s1 =~= s0.push(e));
            assert forall|q: Seq<char>| #![auto]
                lookup(s1, q) == if q == t@ && !has_key(s0, q) {
                    Some(c)
                } else {
                    lookup(s0, q)
                } by {
                lemma_lookup_push(s0, e, q);
            }
            lemma_sum_push(s0, e);
            assert forall|i: int, j: int| 0 <= i < j < s1.len() implies s1[i].0@ != s1[j].0@ by {
                if j == s1.len() - 1 {
                    lemma_lookup_first(s0, s0[i].0@, i);
                }
            }
        }
    }

    /// Sum every count, reporting `None` when the sum leaves `u64`.
    pub fn total_checked(&self) -> (r: Option<u64>)
        ensures
            match r {
                Some(v) => v == self.total(),
                None => self.total() > u64::MAX,
            },
    {
        let mut acc: u64 = 0;
        let mut i: usize = 0;
        let n = self.entries.len();
        while i < n
            invariant
                n == self.entries_view().len(),
                i <= n,
                acc == sum_counts(self.entries_view().take(i as int)),
            decreases n - i,
        {
            let v = self.entries[i].1;
            proof {
                let s = self.entries_view();
                assert(s.take(i + 1) =~= s.take(i as int).push(s[i as int]));
                lemma_sum_push(s.take(i as int), s[i as int]);
                lemma_sum_split_tail(s, i + 1);
            }
            if acc > u64::MAX - v {
                proof {
                    lemma_sum_nonneg(self.entries_view().skip(i + 1));
                }
                return None;
            }
            acc = acc + v;
            i = i + 1;
        }
        proof {
            assert(self.entries_view().take(n as int) =~= self.entries_view());
        }
        Some(acc)
    }
}

/// One indexed document: its total term count, its frequency table and the
/// source file's modification stamp recorded at indexing time.
pub struct Doc {
    count: u64,
    ft: FreqTable,
    last_modified: u64,
}

impl Doc {
    pub closed spec fn spec_count(&self) -> u64 {
        self.count
    }

    pub closed spec fn spec_last_modified(&self) -> u64 {
        self.last_modified
    }

    pub closed spec fn spec_ft(&self) -> FreqTable {
        self.ft
    }

    /// Conservation: the recorded term count is the sum of the frequency
    /// table's values.
    pub open spec fn wf(&self) -> bool {
        &&& self.spec_ft().wf()
        &&& self.spec_count() == self.spec_ft().total()
    }

    pub(crate) fn new(count: u64, ft: FreqTable, last_modified: u64) -> (r: Self)
        requires
            ft.wf(),
            count == ft.total(),
        ensures
            r.wf(),
            r.spec_count() == count,
            r.spec_ft() == ft,
            r.spec_last_modified() == last_modified,
    {
        Doc { count, ft, last_modified }
    }

    /// Total number of term occurrences in the document.
    pub fn term_count(&self) -> (r: u64)
        ensures
            r == self.spec_count(),
    {
        self.count
    }

    /// Modification stamp of the source file when it was indexed.
    pub fn last_modified(&self) -> (r: u64)
        ensures
            r == self.spec_last_modified(),
    {
        self.last_modified
    }

    /// How often a term occurs in this document.
    pub fn frequency(&self, t: &Vec<char>) -> (r: u64)
        ensures
            r == self.spec_ft().count(t@),
    {
        self.ft.get(t)
    }

    pub fn freq_table(&self) -> (r: &FreqTable)
        ensures
            *r == self.spec_ft(),
    {
        &self.ft
    }
}

/// The indexed documents, keyed by source path.
pub struct Docs {
    entries: Vec<(Vec<char>, Doc)>,
}

impl Docs {
    pub closed spec fn entries_view(&self) -> Seq<(Vec<char>, Doc)> {
        self.entries@
    }

    pub open spec fn num_docs(&self) -> nat {
        self.entries_view().len()
    }

    pub open spec fn wf(&self) -> bool {
        &&& distinct_keys(self.entries_view())
        &&& forall|i: int|
            0 <= i < self.entries_view().len() ==> (#[trigger] self.entries_view()[i].1).wf()
    }

    pub fn new() -> (r: Self)
        ensures
            r.wf(),
            r.entries_view() =~= Seq::<(Vec<char>, Doc)>::empty(),
    {
        Docs { entries: Vec::new() }
    }

    pub fn len(&self) -> (r: usize)
        ensures
            r == self.num_docs(),
    {
        self.entries.len()
    }

    fn index_of(&self, p: &Vec<char>) -> (r: Option<usize>)
        ensures
            match r {
                Some(i) => {
                    &&& i < self.num_docs()
                    &&& self.entries_view()[i as int].0@ == p@
                    &&& lookup(self.entries_view(), p@) == Some(self.entries_view()[i as int].1)
                },
                None => !has_key(self.entries_view(), p@),
            },
    {
        let mut i: usize = 0;
        let n = self.entries.len();
        while i < n
            invariant
                n == self.entries_view().len(),
                i <= n,
                forall|j: int| 0 <= j < i ==> self.entries_view()[j].0@ != p@,
            decreases n - i,
        {
            let e = &self.entries[i];
            if chars_eq(&e.0, p) {
                proof {
                    lemma_lookup_first(self.entries_view(), p@, i as int);
                }
                return Some(i);
            }
            i = i + 1;
        }
        proof {
            lemma_lookup_none(self.entries_view(), p@);
        }
        None
    }

    pub fn get(&self, p: &Vec<char>) -> (r: Option<&Doc>)
        ensures
            match r {
                Some(d) => lookup(self.entries_view(), p@) == Some(*d),
                None => !has_key(self.entries_view(), p@),
            },
    {
        match self.index_of(p) {
            Some(i) => Some(&self.entries[i].1),
            None => None,
        }
    }

    pub fn path_at(&self, i: usize) -> (r: &Vec<char>)
        requires
            i < self.num_docs(),
        ensures
            r@ == self.entries_view()[i as int].0@,
    {
        &self.entries[i].0
    }

    pub fn doc_at(&self, i: usize) -> (r: &Doc)
        requires
            i < self.num_docs(),
        ensures
            *r == self.entries_view()[i as int].1,
    {
        &self.entries[i].1
    }

    /// Remove and return the document at a path.
    pub fn remove(&mut self, p: &Vec<char>) -> (r: Option<Doc>)
        requires
            old(self).wf(),
        ensures
            final(self).wf(),
            final(self).entries_view() == strip_key(old(self).entries_view(), p@),
            r == lookup(old(self).entries_view(), p@),
    {
        let ghost s0 = self.entries_view();
        match self.index_of(p) {
            Some(i) => {
                let e = self.entries.remove(i);
                proof {
                    lemma_strip_is_remove(s0, p@, i as int);
                    assert(final(self).entries_view() =~= strip_key(s0, p@));
                    s0.remove_ensures(i as int);
                    assert forall|q: Seq<char>| #![auto]
                        lookup(self.entries_view(), q) == if q == p@ {
                            None::<Doc>
                        } else {
                            lookup(s0, q)
                        } by {
                        lemma_strip_lookup(s0, p@, q);
                    }
                    assert forall|k: int|
                        0 <= k < self.entries_view().len() implies (
                        #[trigger] self.entries_view()[k].1).wf() by {
                        if k < i {
                            assert(self.entries_view()[k] == s0[k]);
                        } else {
                            assert(self.entries_view()[k] == s0[k + 1]);
                        }
                    }
                    lemma_strip_lookup(s0, p@, p@);
                }
                Some(e.1)
            },
            None => {
                proof {
                    lemma_strip_absent(s0, p@);
                }
                None
            },
        }
    }

    /// Append a document under a path the table does not hold yet.
    pub fn push_new(&mut self, p: Vec<char>, d: Doc)
        requires
            old(self).wf(),
            !has_key(old(self).entries_view(), p@),
            d.wf(),
        ensures
            final(self).wf(),
            final(self).entries_view() == old(self).entries_view().push((p, d)),
    {
        let ghost s0 = self.entries_view();
        self.entries.push((p, d));
        proof {
            let s1 = self.entries_view();
            assert(s1 =~= s0.push(s1.last()));
            assert forall|i: int, j: int| 0 <= i < j < s1.len() implies s1[i].0@ != s1[j].0@ by {
                if j == s1.len() - 1 {
                    lemma_lookup_first(s0, s0[i].0@, i);
                }
            }
            assert forall|k: int|
                0 <= k < s1.len() implies (#[trigger] s1[k].1).wf() by {
                if k < s1.len() - 1 {
                    assert(s1[k] == s0[k]);
                }
            }
        }
    }
}

/// Document frequency: in how many of the listed documents the term occurs.
pub open spec fn df(s: Seq<(Vec<char>, Doc)>, t: Seq<char>) -> int
    decreases s.len(),
{
    if s.len() == 0 {
        0
    } else {
        (if s[0].1.spec_ft().contains_term(t) {
            1int
        } else {
            0int
        }) + df(s.drop_first(), t)
    }
}

/// Document frequency lies between zero and the number of documents.
pub proof fn lemma_df_bounds(s: Seq<(Vec<char>, Doc)>, t: Seq<char>)
    ensures
        0 <= df(s, t) <= s.len(),
    decreases s.len(),
{
    if s.len() > 0 {
        lemma_df_bounds(s.drop_first(), t);
    }
}

pub proof fn lemma_df_push(s: Seq<(Vec<char>, Doc)>, e: (Vec<char>, Doc), t: Seq<char>)
    ensures
        df(s.push(e), t) == df(s, t) + (if e.1.spec_ft().contains_term(t) {
            1int
        } else {
            0int
        }),
    decreases s.len(),
{
    if s.len() == 0 {
        assert(s.push(e)[0] == e);
        assert(s.push(e).drop_first() =~= Seq::<(Vec<char>, Doc)>::empty());
        assert(df(Seq::<(Vec<char>, Doc)>::empty(), t) == 0);
    } else {
        assert(s.push(e)[0] == s[0]);
        assert(s.push(e).drop_first() =~= s.drop_first().push(e));
        lemma_df_push(s.drop_first(), e, t);
    }
}

/// A term contained in the document at any index has positive document
/// frequency.
pub proof fn lemma_df_witness(s: Seq<(Vec<char>, Doc)>, t: Seq<char>, w: int)
    requires
        0 <= w < s.len(),
        s[w].1.spec_ft().contains_term(t),
    ensures
        df(s, t) >= 1,
    decreases s.len(),
{
    lemma_df_bounds(s.drop_first(), t);
    if w > 0 {
        lemma_df_witness(s.drop_first(), t, w - 1);
    }
}

/// Removing a path's document lowers the document frequency of exactly the
/// terms that document contains.
pub proof fn lemma_df_strip(s: Seq<(Vec<char>, Doc)>, k: Seq<char>, t: Seq<char>)
    requires
        distinct_keys(s),
    ensures
        df(strip_key(s, k), t) == df(s, t) - (match lookup(s, k) {
            Some(d) => if d.spec_ft().contains_term(t) {
                1int
            } else {
                0int
            },
            None => 0int,
        }),
    decreases s.len(),
{
    if s.len() == 0 {
    } else if s[0].0@ == k {
    } else {
        assert(distinct_keys(s.drop_first()));
        lemma_df_strip(s.drop_first(), k, t);
        let st = seq![s[0]] + strip_key(s.drop_first(), k);
        assert(st[0] == s[0]);
        assert(st.drop_first() =~= strip_key(s.drop_first(), k));
        assert(st.len() > 0);
        assert(df(st, t) == (if s[0].1.spec_ft().contains_term(t) {
            1int
        } else {
            0int
        }) + df(strip_key(s.drop_first(), k), t));
    }
}

/// Whether some entry with index in `[lo, hi)` binds key `t`.
pub open spec fn key_in_range(s: Seq<(Vec<char>, u64)>, lo: int, hi: int, t: Seq<char>) -> bool {
    exists|j: int| lo <= j < hi && s[j].0@ == t
}

/// What `add_document` leaves behind: the previous document at the path is
/// gone, a fresh document for the path sits at the end of the table, and
/// that document records exactly the token statistics of the content.
pub open spec fn add_outcome(
    pre: InMemoryModel,
    post: InMemoryModel,
    file_path: Vec<char>,
    content: Seq<char>,
    last_modified: u64,
) -> bool {
    &&& post.docs_view().len() == strip_key(pre.docs_view(), file_path@).len() + 1
    &&& post.docs_view() == strip_key(pre.docs_view(), file_path@).push(
        (file_path, post.docs_view().last().1),
    )
    &&& {
        let d = post.docs_view().last().1;
        &&& d.wf()
        &&& d.spec_count() == spec_tokens(content).len()
        &&& d.spec_last_modified() == last_modified
        &&& forall|t: Seq<char>| #[trigger] d.spec_ft().count(t) == occ(spec_tokens(content), t)
    }
}

/// The in-memory corpus index: all indexed documents plus the corpus-wide
/// document-frequency table, kept exactly consistent with each other.
pub struct InMemoryModel {
    pub(crate) gtf: GlobalTermFreq,
    pub(crate) docs: Docs,
}

impl InMemoryModel {
    pub closed spec fn spec_gtf(&self) -> FreqTable {
        self.gtf
    }

    pub closed spec fn spec_docs(&self) -> Docs {
        self.docs
    }

    /// The stored documents, as `(path, document)` entries in storage order.
    pub open spec fn docs_view(&self) -> Seq<(Vec<char>, Doc)> {
        self.spec_docs().entries_view()
    }

    /// The corpus-wide count for a term: in how many documents it occurs.
    pub open spec fn gtf_count(&self, t: Seq<char>) -> u64 {
        self.spec_gtf().count(t)
    }

    pub open spec fn doc_count(&self) -> nat {
        self.docs_view().len()
    }

    pub open spec fn unique_term_count(&self) -> nat {
        self.spec_gtf().num_terms()
    }

    pub open spec fn has_doc(&self, p: Seq<char>) -> bool {
        has_key(self.docs_view(), p)
    }

    pub open spec fn doc(&self, p: Seq<char>) -> Option<Doc> {
        lookup(self.docs_view(), p)
    }

    /// Inside the crate, the specification views are the fields themselves.
    pub(crate) proof fn lemma_fields(&self)
        ensures
            self.spec_docs() == self.docs,
            self.spec_gtf() == self.gtf,
    {
    }

    /// The index's binding invariant: paths are unique, every document
    /// conserves its term count, and for every term the global table holds
    /// exactly the number of documents containing it.
    pub open spec fn wf(&self) -> bool {
        &&& self.spec_docs().wf()
        &&& self.spec_gtf().wf()
        &&& forall|t: Seq<char>| #[trigger] self.gtf_count(t) == df(self.docs_view(), t)
    }

    pub fn new() -> (r: Self)
        ensures
            r.wf(),
            r.doc_count() == 0,
            r.unique_term_count() == 0,
            r.docs_view() =~= Seq::<(Vec<char>, Doc)>::empty(),
    {
        let r = InMemoryModel { gtf: FreqTable::new(), docs: Docs::new() };
        proof {
            assert forall|t: Seq<char>| #[trigger] r.gtf_count(t) == df(r.docs_view(), t) by {
                assert(lookup(r.spec_gtf().entries_view(), t) is None);
                assert(df(r.docs_view(), t) == 0);
            }
        }
        r
    }

    /// Number of indexed documents.
    pub fn document_count(&self) -> (r: usize)
        ensures
            r == self.doc_count(),
    {
        self.docs.len()
    }

    /// Number of distinct terms across the whole corpus.
    pub fn unique_terms(&self) -> (r: usize)
        ensures
            r == self.unique_term_count(),
    {
        self.gtf.num_entries()
    }

    /// The document indexed under a path, if any.
    pub fn get_document(&self, file_path: &Vec<char>) -> (r: Option<&Doc>)
        ensures
            match r {
                Some(d) => self.doc(file_path@) == Some(*d),
                None => !self.has_doc(file_path@),
            },
    {
        self.docs.get(file_path)
    }

    /// Corpus-wide count for a term.
    pub fn global_frequency(&self, t: &Vec<char>) -> (r: u64)
        ensures
            r == self.gtf_count(t@),
    {
        self.gtf.get(t)
    }

    /// A path needs (re)indexing when it is unknown, or when its stored
    /// stamp is strictly older than the supplied one.
    pub fn requires_reindexing(&self, file_path: &Vec<char>, last_modified: u64) -> (r: Result<
        bool,
        (),
    >)
        ensures
            r == Ok::<bool, ()>(
                match self.doc(file_path@) {
                    Some(d) => d.spec_last_modified() < last_modified,
                    None => true,
                },
            ),
    {
        match self.docs.get(file_path) {
            Some(doc) => Ok(doc.last_modified() < last_modified),
            None => Ok(true),
        }
    }

    /// Drop the document at a path, lowering the corpus-wide count of every
    /// term it contained by one.
    pub fn remove_document(&mut self, file_path: &Vec<char>)
        requires
            old(self).wf(),
        ensures
            final(self).wf(),
            final(self).docs_view() == strip_key(old(self).docs_view(), file_path@),
            forall|t: Seq<char>| #[trigger]
                final(self).gtf_count(t) == old(self).gtf_count(t) - (match old(self).doc(
                    file_path@,
                ) {
                    Some(d) => if d.spec_ft().contains_term(t) {
                        1int
                    } else {
                        0int
                    },
                    None => 0int,
                }),
    {
        let ghost s0 = self.docs.entries_view();
        let removed = self.docs.remove(file_path);
        match removed {
            None => {
                proof {
                    assert forall|t: Seq<char>| #[trigger]
                        self.gtf_count(t) == df(self.docs_view(), t) by {
                        assert(old(self).gtf_count(t) == df(s0, t));
                        lemma_df_strip(s0, file_path@, t);
                    }
                }
            },
            Some(doc) => {
                let ghost ftv = doc.spec_ft().entries_view();
                let ghost s1 = self.docs.entries_view();
                proof {
                    let w = lemma_lookup_some_index(s0, file_path@);
                    assert(s0[w].1.wf());
                    assert(doc.wf());
                    assert forall|t: Seq<char>| #[trigger]
                        self.gtf.count(t) == df(s1, t) + (if key_in_range(ftv, 0, ftv.len() as int, t) {
                            1int
                        } else {
                            0int
                        }) by {
                        assert(old(self).gtf_count(t) == df(s0, t));
                        lemma_df_strip(s0, file_path@, t);
                        if doc.spec_ft().contains_term(t) {
                            let w = lemma_lookup_some_index(ftv, t);
                            assert(key_in_range(ftv, 0, ftv.len() as int, t));
                        } else if key_in_range(ftv, 0, ftv.len() as int, t) {
                            let j = choose|j: int| 0 <= j < ftv.len() && ftv[j].0@ == t;
                            lemma_index_has_key(ftv, t, j);
                        }
                    }
                }
                let ft = doc.freq_table();
                let n = ft.num_entries();
                let mut i: usize = 0;
                while i < n
                    invariant
                        n == ftv.len(),
                        i <= n,
                        doc.spec_ft().entries_view() == ftv,
                        doc.wf(),
                        self.docs.entries_view() == s1,
                        self.docs.wf(),
                        self.gtf.wf(),
                        forall|t: Seq<char>| #[trigger]
                            self.gtf.count(t) == df(s1, t) + (if key_in_range(ftv, i as int, n as int, t) {
                                1int
                            } else {
                                0int
                            }),
                    decreases n - i,
                {
                    let term = doc.freq_table().term_at(i);
                    let ghost key = ftv[i as int].0@;
                    let ghost gtf0 = self.gtf;
                    proof {
                        assert(key_in_range(ftv, i as int, n as int, key));
                        lemma_df_bounds(s1, key);
                    }
                    self.gtf.decrement(term);
                    proof {
                        assert forall|t: Seq<char>| #[trigger]
                            self.gtf.count(t) == df(s1, t) + (if key_in_range(ftv, i + 1, n as int, t) {
                                1int
                            } else {
                                0int
                            }) by {
                            if t == key {
                                // Every later entry has a different key.
                                assert(gtf0.count(t) == df(s1, t) + 1);
                                if key_in_range(ftv, i + 1, n as int, t) {
                                    let j = choose|j: int| i + 1 <= j < n && ftv[j].0@ == t;
                                    assert(ftv[i as int].0@ == ftv[j].0@);
                                    assert(doc.spec_ft().wf());
                                    assert(false);
                                }
                            } else {
                                assert(self.gtf.count(t) == gtf0.count(t));
                                if key_in_range(ftv, i as int, n as int, t) {
                                    let j = choose|j: int| i <= j < n && ftv[j].0@ == t;
                                    assert(j != i);
                                    assert(key_in_range(ftv, i + 1, n as int, t));
                                }
                            }
                        }
                    }
                    i = i + 1;
                }
                proof {
                    assert forall|t: Seq<char>| #[trigger]
                        self.gtf_count(t) == df(self.docs_view(), t) by {
                        assert(!key_in_range(ftv, n as int, n as int, t));
                    }
                }
            },
        }
        proof {
            assert forall|t: Seq<char>| #[trigger]
                self.gtf_count(t) == old(self).gtf_count(t) - (match old(self).doc(file_path@) {
                    Some(d) => if d.spec_ft().contains_term(t) {
                        1int
                    } else {
                        0int
                    },
                    None => 0int,
                }) by {
                assert(old(self).gtf_count(t) == df(s0, t));
                assert(self.gtf_count(t) == df(self.docs_view(), t));
                lemma_df_strip(s0, file_path@, t);
            }
        }
    }

    /// Index or reindex the document at a path: the previous document at the
    /// path, if any, leaves first (its terms' corpus counts drop by one),
    /// then the content is tokenized and stored as a fresh document whose
    /// distinct terms raise the corpus counts by one each.
    pub fn add_document(&mut self, file_path: Vec<char>, content: &[char], last_modified: u64) -> (r:
        Result<(), ()>)
        requires
            old(self).wf(),
        ensures
            final(self).wf(),
            r is Ok,
            add_outcome(*old(self), *final(self), file_path, content@, last_modified),
    {
        self.remove_document(&file_path);
        let ghost mid = *self;
        let ghost stripped = self.docs.entries_view();

        let tokens = tokens_of(content);
        let ghost tv = tokens.deep_view();
        let mut ft = FreqTable::new();
        let n = tokens.len();
        let mut i: usize = 0;
        proof {
            assert(tv.take(0) =~= Seq::<Seq<char>>::empty());
            assert forall|t: Seq<char>| #[trigger] ft.count(t) == occ(tv.take(0), t) by {
                assert(occ(Seq::<Seq<char>>::empty(), t) == 0);
            }
        }
        while i < n
            invariant
                n == tokens@.len(),
                tokens.deep_view() == tv,
                i <= n,
                ft.wf(),
                ft.total() == i,
                forall|t: Seq<char>| #[trigger] ft.count(t) == occ(tv.take(i as int), t),
            decreases n - i,
        {
            let ghost tok = tv[i as int];
            proof {
                assert(tok == tokens@[i as int]@);
                lemma_count_le_sum(ft.entries_view(), tok);
            }
            ft.increment(&tokens[i]);
            proof {
                assert(tv.take(i + 1) =~= tv.take(i as int).push(tok));
                assert forall|t: Seq<char>| #[trigger] ft.count(t) == occ(tv.take(i + 1), t) by {
                    lemma_occ_push(tv.take(i as int), tok, t);
                }
            }
            i = i + 1;
        }
        proof {
            assert(tv.take(n as int) =~= tv);
        }

        let count: u64 = n as u64;
        let doc = Doc::new(count, ft, last_modified);
        proof {
            lemma_strip_lookup(old(self).docs_view(), file_path@, file_path@);
        }
        self.insert_document(file_path, doc);
        Ok(())
    }

    /// Store a fresh document under a path the index does not hold yet,
    /// raising the corpus-wide count of each of its terms by one.
    pub fn insert_document(&mut self, file_path: Vec<char>, doc: Doc)
        requires
            old(self).wf(),
            doc.wf(),
            !old(self).has_doc(file_path@),
        ensures
            final(self).wf(),
            final(self).docs_view() == old(self).docs_view().push((file_path, doc)),
    {
        let ghost mid = *self;
        let ghost stripped = self.docs.entries_view();
        let ghost ftv = doc.spec_ft().entries_view();
        let ghost doc0 = doc;
        self.docs.push_new(file_path, doc);
        let ghost s2 = self.docs.entries_view();
        proof {
            assert(s2 == stripped.push((file_path, doc0)));
            assert(s2.last() == (file_path, doc0));
        }

        let idx = self.docs.len() - 1;
        let m = self.docs.doc_at(idx).freq_table().num_entries();
        proof {
            assert(mid.wf());
            assert(mid.docs_view() == stripped);
            assert(self.gtf == mid.spec_gtf());
            assert forall|t: Seq<char>| #[trigger]
                self.gtf.count(t) == df(stripped, t) + (if key_in_range(ftv, 0, 0, t) {
                    1int
                } else {
                    0int
                }) by {
                assert(mid.gtf_count(t) == df(mid.docs_view(), t));
                assert(!key_in_range(ftv, 0, 0, t));
            }
        }
        let mut j: usize = 0;
        while j < m
            invariant
                self.docs.entries_view() == s2,
                s2 == stripped.push((file_path, doc0)),
                idx == s2.len() - 1,
                s2.len() <= usize::MAX,
                s2[idx as int].1 == doc0,
                doc0.wf(),
                ftv == doc0.spec_ft().entries_view(),
                m == ftv.len(),
                j <= m,
                self.docs.wf(),
                self.gtf.wf(),
                forall|t: Seq<char>| #[trigger]
                    self.gtf.count(t) == df(stripped, t) + (if key_in_range(ftv, 0, j as int, t) {
                        1int
                    } else {
                        0int
                    }),
            decreases m - j,
        {
            let term = self.docs.doc_at(idx).freq_table().term_at(j);
            let ghost key = ftv[j as int].0@;
            let ghost gtf0 = self.gtf;
            proof {
                assert(term@ == key);
                if key_in_range(ftv, 0, j as int, key) {
                    let w = choose|w: int| 0 <= w < j && ftv[w].0@ == key;
                    assert(ftv[w].0@ == ftv[j as int].0@);
                    assert(false);
                }
                lemma_df_bounds(stripped, key);
                assert(stripped.len() == s2.len() - 1);
                assert(self.gtf.count(key) == df(stripped, key));
                assert(df(stripped, key) <= s2.len() - 1);
                assert(s2.len() - 1 <= usize::MAX - 1);
                assert(usize::MAX - 1 < u64::MAX);
                assert(self.gtf.count(key) < u64::MAX);
            }
            self.gtf.increment(term);
            proof {
                assert forall|t: Seq<char>| #[trigger]
                    self.gtf.count(t) == df(stripped, t) + (if key_in_range(ftv, 0, j + 1, t) {
                        1int
                    } else {
                        0int
                    }) by {
                    if t == key {
                        assert(key_in_range(ftv, 0, j + 1, t));
                        assert(self.gtf.count(t) == gtf0.count(t) + 1);
                    } else {
                        assert(self.gtf.count(t) == gtf0.count(t));
                        if key_in_range(ftv, 0, j + 1, t) {
                            let w = choose|w: int| 0 <= w < j + 1 && ftv[w].0@ == t;
                            assert(w != j);
                            assert(key_in_range(ftv, 0, j as int, t));
                        }
                    }
                }
            }
            j = j + 1;
        }
        proof {
            assert forall|t: Seq<char>| #[trigger]
                self.gtf_count(t) == df(self.docs_view(), t) by {
                lemma_df_push(stripped, s2.last(), t);
                if doc0.spec_ft().contains_term(t) {
                    let w = lemma_lookup_some_index(ftv, t);
                    assert(key_in_range(ftv, 0, m as int, t));
                } else if key_in_range(ftv, 0, m as int, t) {
                    let w = choose|w: int| 0 <= w < m && ftv[w].0@ == t;
                    lemma_index_has_key(ftv, t, w);
                    assert(false);
                }
            }
        }
    }
}

impl InMemoryModel {
    /// Every stored vector is a real vector, so its length fits `usize`.
    pub proof fn lemma_len_bounds(&self)
        ensures
            self.spec_gtf().entries_view().len() <= usize::MAX,
            self.docs_view().len() <= usize::MAX,
            forall|i: int|
                0 <= i < self.spec_gtf().entries_view().len() ==> (
                #[trigger] self.spec_gtf().entries_view()[i]).0@.len() <= usize::MAX,
            forall|i: int|
                0 <= i < self.docs_view().len() ==> (#[trigger] self.docs_view()[i]).0@.len()
                    <= usize::MAX,
            forall|i: int|
                0 <= i < self.docs_view().len() ==> (
                #[trigger] self.docs_view()[i]).1.spec_ft().entries_view().len() <= usize::MAX,
            forall|i: int, j: int|
                0 <= i < self.docs_view().len() && 0 <= j
                    < self.docs_view()[i].1.spec_ft().entries_view().len() ==> (
                #[trigger] self.docs_view()[i].1.spec_ft().entries_view()[j]).0@.len()
                    <= usize::MAX,
    {
        vstd::std_specs::vec::axiom_spec_len(&self.gtf.entries);
        vstd::std_specs::vec::axiom_spec_len(&self.docs.entries);
        assert forall|i: int|
            0 <= i < self.spec_gtf().entries_view().len() implies (
        #[trigger] self.spec_gtf().entries_view()[i]).0@.len() <= usize::MAX by {
            let v = self.spec_gtf().entries_view()[i].0;
            vstd::std_specs::vec::axiom_spec_len(&v);
        }
        assert forall|i: int|
            0 <= i < self.docs_view().len() implies (#[trigger] self.docs_view()[i]).0@.len()
            <= usize::MAX by {
            let v = self.docs_view()[i].0;
            vstd::std_specs::vec::axiom_spec_len(&v);
        }
        assert forall|i: int|
            0 <= i < self.docs_view().len() implies (
        #[trigger] self.docs_view()[i]).1.spec_ft().entries_view().len() <= usize::MAX by {
            let v = self.docs_view()[i].1.spec_ft();
            v.lemma_entries_len_bound();
        }
        assert forall|i: int, j: int|
            0 <= i < self.docs_view().len() && 0 <= j
                < self.docs_view()[i].1.spec_ft().entries_view().len() implies (
        #[trigger] self.docs_view()[i].1.spec_ft().entries_view()[j]).0@.len() <= usize::MAX by {
            let v = self.docs_view()[i].1.spec_ft().entries_view()[j].0;
            vstd::std_specs::vec::axiom_spec_len(&v);
        }
    }
}

impl Default for InMemoryModel {
    /// An empty index.
    fn default() -> (r: Self)
        ensures
            r.wf(),
            r.doc_count() == 0,
            r.unique_term_count() == 0,
    {
        InMemoryModel::new()
    }
}

/// A table total splits at any index into the prefix total plus the rest.
pub proof fn lemma_sum_split_tail(s: Seq<(Vec<char>, u64)>, k: int)
    requires
        0 <= k <= s.len(),
    ensures
        sum_counts(s) == sum_counts(s.take(k)) + sum_counts(s.skip(k)),
    decreases k,
{
    if k == 0 {
        assert(s.take(0) =~= Seq::<(Vec<char>, u64)>::empty());
        assert(s.skip(0) =~= s);
    } else {
        lemma_sum_split_tail(s, k - 1);
        assert(s.take(k) =~= s.take(k - 1).push(s[k - 1]));
        lemma_sum_push(s.take(k - 1), s[k - 1]);
        assert(s.skip(k - 1) =~= seq![s[k - 1]] + s.skip(k));
        assert(s.skip(k - 1).drop_first() =~= s.skip(k));
        assert(sum_counts(s.skip(k - 1)) == s[k - 1].1 + sum_counts(s.skip(k)));
    }
}

} // verus!
