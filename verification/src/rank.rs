//! The ranking engine. Scores are fixed-point integers scaled by `SCALE`
//! (2^20): the logarithms that TF-IDF and BM25 call for are computed by a
//! deterministic binary-digit algorithm over integers, so every score is an
//! exact function of the index and the query, and ranking is reproducible.

use vstd::arithmetic::div_mod::{
    lemma_div_is_ordered, lemma_div_multiples_vanish, lemma_multiply_divide_lt,
};
use vstd::arithmetic::mul::lemma_mul_inequality;
use vstd::arithmetic::power2::{
    lemma2_to64, lemma_pow2_adds, lemma_pow2_strictly_increases, pow2,
};
use crate::lexer::tokens_of;
use crate::model::{df, Doc, InMemoryModel};
use crate::RankMethod;
use vstd::prelude::*;

verus! {

/// One unit of score: fixed-point values carry this factor.
pub const SCALE: u64 = 1048576;

/// `log10(2) * SCALE`, rounded.
pub const LOG10_2_FIXED: u64 = 315653;

/// `ln(2) * SCALE`, rounded.
pub const LN_2_FIXED: u64 = 726817;

/// Largest argument `log2_fixed` accepts; covers every count the index can
/// produce with room for the BM25 numerator `2n + 3`.
pub const MAX_LOG_ARG: u128 = 73786976294838206464;

/// Double `n` until the ratio `n/d` reaches one; each doubling lowers the
/// binary exponent by one.
pub open spec fn spec_norm_down(n: int, d: int, e: int) -> (int, int)
    decreases 2 * d - n when 1 <= n
{
    if n < d {
        spec_norm_down(2 * n, d, e - 1)
    } else {
        (n, e)
    }
}

/// Double `d` until the ratio `n/d` drops below two; each doubling raises
/// the binary exponent by one.
pub open spec fn spec_norm_up(n: int, d: int, e: int) -> (int, int)
    decreases n - d when 1 <= d
{
    if n >= 2 * d {
        spec_norm_up(n, 2 * d, e + 1)
    } else {
        (d, e)
    }
}

/// Extract `k` binary fraction digits of `log2` of a mantissa `m` in
/// `[2^32, 2^33)`, accumulating them into `acc` by repeated squaring.
pub open spec fn spec_frac_bits(m: int, k: nat, acc: int) -> int
    decreases k,
{
    if k == 0 {
        acc
    } else {
        let m2 = (m * m) / 0x100000000;
        if m2 >= 0x200000000 {
            spec_frac_bits(m2 / 2, (k - 1) as nat, acc * 2 + 1)
        } else {
            spec_frac_bits(m2, (k - 1) as nat, acc * 2)
        }
    }
}

/// `log2(num/den) * SCALE`, computed to twenty binary fraction digits.
pub open spec fn spec_log2_fixed(num: int, den: int) -> int {
    let a = spec_norm_down(num, den, 0);
    let b = spec_norm_up(a.0, den, a.1);
    let m = a.0 * 0x100000000 / b.0;
    b.1 * (SCALE as int) + spec_frac_bits(m, 20, 0)
}

/// The scaled binary logarithm of `num/den`.
pub fn log2_fixed(num: u128, den: u128) -> (r: i64)
    requires
        1 <= num <= MAX_LOG_ARG,
        1 <= den <= MAX_LOG_ARG,
    ensures
        r == spec_log2_fixed(num as int, den as int),
        -67 * (SCALE as int) <= r <= 68 * (SCALE as int),
{
    let mut n: u128 = num;
    let mut d: u128 = den;
    let mut e: i64 = 0;

    proof {
        lemma2_to64();
        lemma_pow2_adds(64, 2);
        lemma_pow2_adds(64, 3);
        assert(pow2(0) == 1);
    }
    while n < d
        invariant
            1 <= n <= 2 * MAX_LOG_ARG,
            d == den,
            1 <= den <= MAX_LOG_ARG,
            -66 <= e <= 0,
            pow2((-e) as nat) <= n,
            spec_norm_down(num as int, den as int, 0) == spec_norm_down(n as int, d as int, e as int),
        decreases 2 * d - n,
    {
        proof {
            lemma_pow2_adds((-e) as nat, 1);
            lemma2_to64();
            if -e + 1 > 66 {
                lemma_pow2_adds(64, 2);
                lemma_pow2_strictly_increases(66, (-e + 1) as nat);
                assert(false);
            }
        }
        n = n * 2;
        e = e - 1;
    }
    let ghost nd = spec_norm_down(num as int, den as int, 0);
    proof {
        assert(spec_norm_down(n as int, d as int, e as int) == (n as int, e as int));
        assert(nd == (n as int, e as int));
    }

    let ghost e1 = e as int;
    while n >= 2 * d
        invariant
            1 <= d <= n,
            n <= 2 * MAX_LOG_ARG,
            e1 <= e <= 67,
            pow2((e - e1) as nat) <= d,
            -66 <= e1 <= 0,
            spec_norm_up(n as int, d as int, e as int) == spec_norm_up(nd.0, den as int, nd.1),
            n as int == nd.0,
        decreases n - d,
    {
        proof {
            lemma_pow2_adds((e - e1) as nat, 1);
            lemma2_to64();
            if e - e1 + 1 > 68 {
                lemma_pow2_adds(64, 4);
                lemma_pow2_strictly_increases(68, (e - e1 + 1) as nat);
                assert(false);
            }
            if e + 1 > 67 {
                // d would exceed n, which 2^67 bounds.
                lemma_pow2_adds(64, 3);
                lemma_pow2_strictly_increases(67, (e - e1 + 1) as nat);
            }
        }
        d = d * 2;
        e = e + 1;
    }
    let ghost nu = spec_norm_up(nd.0, den as int, nd.1);
    proof {
        assert(spec_norm_up(n as int, d as int, e as int) == (d as int, e as int));
        assert(nu == (d as int, e as int));
    }

    let m0: u128 = n * 0x100000000 / d;
    proof {
        lemma_div_is_ordered((d * 0x100000000) as int, (n * 0x100000000) as int, d as int);
        lemma_div_multiples_vanish(0x100000000, d as int);
        assert(m0 >= 0x100000000);
        lemma_multiply_divide_lt((n * 0x100000000) as int, d as int, 0x200000000);
        assert(m0 < 0x200000000);
    }

    let mut mm: u128 = m0;
    let mut frac: i64 = 0;
    let mut k: usize = 0;
    while k < 20
        invariant
            0x100000000 <= mm < 0x200000000,
            k <= 20,
            0 <= frac < pow2(k as nat),
            pow2(k as nat) <= pow2(20),
            spec_frac_bits(m0 as int, 20, 0) == spec_frac_bits(mm as int, (20 - k) as nat, frac as int),
        decreases 20 - k,
    {
        proof {
            assert(mm * mm < 0x200000000 * 0x200000000) by (nonlinear_arith)
                requires
                    mm < 0x200000000,
            ;
            assert(mm * mm >= 0x100000000 * 0x100000000) by (nonlinear_arith)
                requires
                    mm >= 0x100000000,
            ;
            lemma_div_is_ordered((0x100000000u128 * 0x100000000) as int, (mm * mm) as int, 0x100000000);
            lemma_div_multiples_vanish(0x100000000, 0x100000000);
            lemma_multiply_divide_lt((mm * mm) as int, 0x100000000, 0x400000000);
            lemma_pow2_adds(k as nat, 1);
            lemma2_to64();
            lemma_pow2_strictly_increases(k as nat, 20);
            if k + 1 < 20 {
                lemma_pow2_strictly_increases((k + 1) as nat, 20);
            }
        }
        let m2 = (mm * mm) / 0x100000000;
        if m2 >= 0x200000000 {
            mm = m2 / 2;
            frac = frac * 2 + 1;
        } else {
            mm = m2;
            frac = frac * 2;
        }
        k = k + 1;
    }
    proof {
        lemma2_to64();
        assert(spec_frac_bits(mm as int, 0, frac as int) == frac as int);
        assert(frac < pow2(20));
        assert(pow2(20) == SCALE);
        assert(-66 <= e <= 67);
        assert(0 <= frac < 1048576);
        assert(-66 * 1048576 <= e * 1048576 <= 67 * 1048576) by (nonlinear_arith)
            requires
                -66 <= e <= 67,
        ;
    }
    let scaled: i64 = e * 1048576;
    scaled + frac
}

/// Clamp a count to at least one before it divides.
pub open spec fn clamp1(x: int) -> int {
    if x < 1 {
        1
    } else {
        x
    }
}

/// A signed value times a nonnegative factor over a positive divisor, the
/// sign carried outside the unsigned arithmetic.
pub open spec fn s_mul_div(a: int, b: int, d: int) -> int {
    if a >= 0 {
        (a * b) / d
    } else {
        -(((-a) * b) / d)
    }
}

/// When the factor is at most `k` times the divisor, the quotient is at most
/// `k` times the signed value.
pub proof fn lemma_s_mul_div_le(a: int, b: int, d: int, k: int)
    requires
        0 <= b,
        1 <= d,
        0 <= k,
        b <= k * d,
    ensures
        a >= 0 ==> 0 <= s_mul_div(a, b, d) <= k * a,
        a < 0 ==> k * a <= s_mul_div(a, b, d) <= 0,
{
    if a >= 0 {
        lemma_mul_inequality(b, k * d, a);
        assert(a * b == b * a) by (nonlinear_arith);
        assert((k * d) * a == d * (k * a)) by (nonlinear_arith);
        assert(a * b >= 0) by (nonlinear_arith)
            requires
                a >= 0,
                b >= 0,
        ;
        lemma_div_is_ordered(a * b, d * (k * a), d);
        lemma_div_multiples_vanish(k * a, d);
        vstd::arithmetic::div_mod::lemma_div_pos_is_pos(a * b, d);
    } else {
        let na = -a;
        lemma_mul_inequality(b, k * d, na);
        assert(na * b == b * na) by (nonlinear_arith);
        assert((k * d) * na == d * (k * na)) by (nonlinear_arith);
        assert(na * b >= 0) by (nonlinear_arith)
            requires
                na >= 0,
                b >= 0,
        ;
        lemma_div_is_ordered(na * b, d * (k * na), d);
        lemma_div_multiples_vanish(k * na, d);
        vstd::arithmetic::div_mod::lemma_div_pos_is_pos(na * b, d);
        assert(k * na == -(k * a)) by (nonlinear_arith)
            requires
                na == -a,
        ;
    }
}

/// Executable `s_mul_div` for the magnitudes the scoring formulas produce.
fn mul_div(a: i128, b: u128, d: u128) -> (r: i128)
    requires
        -0x40000000 <= a <= 0x40000000,
        b <= 0x40000000000000000000000,
        1 <= d,
    ensures
        r == s_mul_div(a as int, b as int, d as int),
{
    if a >= 0 {
        proof {
            assert((a as int) * (b as int) <= 0x40000000 * 0x40000000000000000000000)
                by (nonlinear_arith)
                requires
                    0 <= a <= 0x40000000,
                    b <= 0x40000000000000000000000,
            ;
        }
        let prod = (a as u128) * b;
        proof {
            lemma_div_is_ordered(0, prod as int, d as int);
            vstd::arithmetic::div_mod::lemma_div_nonincreasing(prod as int, d as int);
        }
        (prod / d) as i128
    } else {
        let na = (-a) as u128;
        proof {
            assert((na as int) * (b as int) <= 0x40000000 * 0x40000000000000000000000)
                by (nonlinear_arith)
                requires
                    na <= 0x40000000,
                    b <= 0x40000000000000000000000,
            ;
        }
        let prod = na * b;
        proof {
            lemma_div_is_ordered(0, prod as int, d as int);
            vstd::arithmetic::div_mod::lemma_div_nonincreasing(prod as int, d as int);
        }
        -((prod / d) as i128)
    }
}

/// Term frequency scaled by `SCALE`: occurrences over document length.
pub open spec fn spec_tf(c: u64, total: u64) -> int {
    (c * (SCALE as int)) / clamp1(total as int)
}

fn tf_fixed(c: u64, total: u64) -> (r: u64)
    requires
        c <= total,
    ensures
        r == spec_tf(c, total),
        r <= SCALE,
{
    let denom: u64 = if total == 0 {
        1
    } else {
        total
    };
    proof {
        lemma_mul_inequality(c as int, denom as int, SCALE as int);
        assert(c * (SCALE as int) == (SCALE as int) * c) by (nonlinear_arith);
        assert(denom * (SCALE as int) == (SCALE as int) * denom) by (nonlinear_arith);
        lemma_div_is_ordered((c * (SCALE as int)) as int, (denom * (SCALE as int)) as int, denom as int);
        lemma_div_multiples_vanish(SCALE as int, denom as int);
        assert((denom * (SCALE as int)) == ((SCALE as int) * denom));
        vstd::arithmetic::div_mod::lemma_div_pos_is_pos((c * (SCALE as int)) as int, denom as int);
        assert(c * (SCALE as int) >= 0) by (nonlinear_arith);
    }
    ((c as u128) * (SCALE as u128) / (denom as u128)) as u64
}

/// The TF-IDF inverse document frequency, scaled: `log10` of document count
/// over the term's corpus count, the latter clamped to one.
pub open spec fn spec_idf10(ndocs: int, g: u64) -> int {
    s_mul_div(spec_log2_fixed(ndocs, clamp1(g as int)), LOG10_2_FIXED as int, SCALE as int)
}

fn idf10(ndocs: u64, g: u64) -> (r: i128)
    requires
        1 <= ndocs,
    ensures
        r == spec_idf10(ndocs as int, g),
        -68 * (SCALE as int) <= r <= 68 * (SCALE as int),
{
    let gden: u64 = if g == 0 {
        1
    } else {
        g
    };
    let l = log2_fixed(ndocs as u128, gden as u128);
    proof {
        lemma_s_mul_div_le(l as int, LOG10_2_FIXED as int, SCALE as int, 1);
    }
    mul_div(l as i128, LOG10_2_FIXED as u128, SCALE as u128)
}

/// The BM25 inverse document frequency, scaled: `ln` of
/// `(n - df + 1.5)/(df + 0.5)`, both sides doubled to stay integral.
pub open spec fn spec_idf_bm25(ndocs: int, dfv: int) -> int {
    s_mul_div(
        spec_log2_fixed(2 * ndocs - 2 * dfv + 3, 2 * dfv + 1),
        LN_2_FIXED as int,
        SCALE as int,
    )
}

fn idf_bm25(ndocs: u64, dfv: u64) -> (r: i128)
    requires
        dfv <= ndocs,
    ensures
        r == spec_idf_bm25(ndocs as int, dfv as int),
        -68 * (SCALE as int) <= r <= 68 * (SCALE as int),
{
    let num2: u128 = 2 * (ndocs as u128) - 2 * (dfv as u128) + 3;
    let den2: u128 = 2 * (dfv as u128) + 1;
    let l = log2_fixed(num2, den2);
    proof {
        lemma_s_mul_div_le(l as int, LN_2_FIXED as int, SCALE as int, 1);
    }
    mul_div(l as i128, LN_2_FIXED as u128, SCALE as u128)
}

/// The TF-IDF contribution of one query term to one document's score.
pub open spec fn spec_tfidf_term(m: InMemoryModel, d: Doc, t: Seq<char>) -> int {
    s_mul_div(
        spec_idf10(m.doc_count() as int, m.gtf_count(t)),
        spec_tf(d.spec_ft().count(t), d.spec_count()),
        SCALE as int,
    )
}

/// Addition that saturates at the largest `u128`.
pub open spec fn sat_add_u128(a: int, b: int) -> int {
    if a + b > u128::MAX {
        u128::MAX as int
    } else {
        a + b
    }
}

/// Sum of all documents' term counts from index `i` on, saturating.
pub open spec fn sat_total_from(s: Seq<(Vec<char>, Doc)>, i: int, acc: int) -> int
    decreases s.len() - i when 0 <= i <= s.len()
{
    if i >= s.len() {
        acc
    } else {
        sat_total_from(s, i + 1, sat_add_u128(acc, s[i].1.spec_count() as int))
    }
}

/// Total number of term occurrences across the whole corpus.
pub open spec fn spec_corpus_total(s: Seq<(Vec<char>, Doc)>) -> int {
    sat_total_from(s, 0, 0)
}

proof fn lemma_sat_total_ge_acc(s: Seq<(Vec<char>, Doc)>, i: int, acc: int)
    requires
        0 <= i <= s.len(),
    ensures
        sat_total_from(s, i, acc) >= acc || sat_total_from(s, i, acc) == u128::MAX,
        acc <= u128::MAX ==> sat_total_from(s, i, acc) >= acc,
        0 <= acc <= u128::MAX ==> 0 <= sat_total_from(s, i, acc) <= u128::MAX,
    decreases s.len() - i,
{
    if i < s.len() {
        lemma_sat_total_ge_acc(s, i + 1, sat_add_u128(acc, s[i].1.spec_count() as int));
    }
}

/// No single document is longer than the corpus total.
pub proof fn lemma_corpus_total_ge_doc(s: Seq<(Vec<char>, Doc)>, j: int)
    requires
        0 <= j < s.len(),
    ensures
        s[j].1.spec_count() <= spec_corpus_total(s),
        0 <= spec_corpus_total(s) <= u128::MAX,
{
    lemma_sat_total_ge_doc(s, 0, 0, j);
    lemma_sat_total_ge_acc(s, 0, 0);
}

proof fn lemma_sat_total_ge_doc(s: Seq<(Vec<char>, Doc)>, i: int, acc: int, j: int)
    requires
        0 <= i <= j < s.len(),
        0 <= acc <= u128::MAX,
    ensures
        sat_total_from(s, i, acc) >= s[j].1.spec_count(),
    decreases j - i,
{
    if i == j {
        lemma_sat_total_ge_acc(s, i + 1, sat_add_u128(acc, s[i].1.spec_count() as int));
    } else {
        lemma_sat_total_ge_doc(s, i + 1, sat_add_u128(acc, s[i].1.spec_count() as int), j);
    }
}

/// `SCALE * 1.5 * dl / avgdl`, as `dl * n` over the corpus total with a
/// fixed-point fraction; beyond astronomically large corpus totals the
/// fractional part is dropped.
pub open spec fn spec_ratio(dl: u64, n: int, tot: int) -> int {
    let prod = dl * n;
    let q = prod / tot;
    let rem = prod % tot;
    let fr = if tot <= 0x10000000000000000000000000 {
        (rem * (SCALE as int)) / tot
    } else {
        0
    };
    q * (SCALE as int) + fr
}

/// The BM25 denominator for one term: `tf + k*(1 - b + b*dl/avgdl)` with
/// `k = 2` and `b = 3/4`, scaled by `SCALE`.
pub open spec fn spec_bm25_denom(tfr: u64, dl: u64, n: int, tot: int) -> int {
    tfr * (SCALE as int) + (SCALE as int) / 2 + (3 * spec_ratio(dl, n, clamp1(tot))) / 2
}

/// The BM25 contribution of one query term to one document's score.
pub open spec fn spec_bm25_term(m: InMemoryModel, d: Doc, t: Seq<char>) -> int {
    s_mul_div(
        spec_idf_bm25(m.doc_count() as int, df(m.docs_view(), t)),
        3 * d.spec_ft().count(t) * (SCALE as int),
        spec_bm25_denom(
            d.spec_ft().count(t),
            d.spec_count(),
            m.doc_count() as int,
            spec_corpus_total(m.docs_view()),
        ),
    )
}

/// One query term's contribution under the selected ranking method.
pub open spec fn spec_term_score(m: InMemoryModel, d: Doc, t: Seq<char>, method: RankMethod) -> int {
    match method {
        RankMethod::Tfidf => spec_tfidf_term(m, d, t),
        RankMethod::Bm25 => spec_bm25_term(m, d, t),
    }
}

/// A document's score: the sum of its query terms' contributions from
/// index `i` on.
pub open spec fn spec_score_from(
    m: InMemoryModel,
    d: Doc,
    toks: Seq<Seq<char>>,
    i: int,
    method: RankMethod,
) -> int
    decreases toks.len() - i when 0 <= i <= toks.len()
{
    if i >= toks.len() {
        0
    } else {
        spec_term_score(m, d, toks[i], method) + spec_score_from(m, d, toks, i + 1, method)
    }
}

/// A document's relevance score for a tokenized query.
pub open spec fn spec_score(m: InMemoryModel, d: Doc, toks: Seq<Seq<char>>, method: RankMethod) -> int {
    spec_score_from(m, d, toks, 0, method)
}

impl InMemoryModel {
    /// In how many indexed documents a term occurs, by scanning every
    /// document's frequency table.
    pub fn doc_frequency(&self, t: &Vec<char>) -> (r: usize)
        ensures
            r as int == df(self.docs_view(), t@),
    {
        let ghost s = self.docs_view();
        proof {
            self.lemma_fields();
            assert(s.take(0) =~= Seq::<(Vec<char>, Doc)>::empty());
        }
        let n = self.docs.len();
        let mut cnt: usize = 0;
        let mut i: usize = 0;
        while i < n
            invariant
                n == s.len(),
                s == self.docs_view(),
                cnt <= i <= n,
                cnt as int == df(s.take(i as int), t@),
            decreases n - i,
        {
            proof {
                self.lemma_fields();
            }
            let c = self.docs.doc_at(i).freq_table().contains(t);
            proof {
                assert(s.take(i + 1) =~= s.take(i as int).push(s[i as int]));
                crate::model::lemma_df_push(s.take(i as int), s[i as int], t@);
            }
            if c {
                cnt = cnt + 1;
            }
            i = i + 1;
        }
        proof {
            assert(s.take(n as int) =~= s);
        }
        cnt
    }

    /// Total term occurrences across the corpus, saturating at `u128::MAX`.
    pub fn corpus_total(&self) -> (r: u128)
        ensures
            r as int == spec_corpus_total(self.docs_view()),
    {
        let ghost s = self.docs_view();
        proof {
            self.lemma_fields();
        }
        let n = self.docs.len();
        let mut acc: u128 = 0;
        let mut i: usize = 0;
        while i < n
            invariant
                n == s.len(),
                s == self.docs_view(),
                i <= n,
                sat_total_from(s, i as int, acc as int) == spec_corpus_total(s),
            decreases n - i,
        {
            proof {
                self.lemma_fields();
            }
            let c = self.docs.doc_at(i).term_count() as u128;
            if acc > u128::MAX - c {
                acc = u128::MAX;
            } else {
                acc = acc + c;
            }
            i = i + 1;
        }
        acc
    }

    /// The TF-IDF score of one indexed document for a tokenized query.
    fn tfidf_score(&self, doc: &Doc, toks: &Vec<Vec<char>>) -> (r: i128)
        requires
            self.wf(),
            doc.wf(),
            1 <= self.doc_count() <= u64::MAX,
        ensures
            r == spec_score(*self, *doc, toks.deep_view(), RankMethod::Tfidf),
    {
        let ghost tv = toks.deep_view();
        let nd64: u64 = self.document_count() as u64;
        let total = doc.term_count();
        let n = toks.len();
        let mut acc: i128 = 0;
        let mut i: usize = 0;
        while i < n
            invariant
                self.wf(),
                doc.wf(),
                nd64 as int == self.doc_count(),
                1 <= nd64,
                total == doc.spec_count(),
                n == tv.len(),
                toks.deep_view() == tv,
                n == toks@.len(),
                i <= n,
                -68 * (SCALE as int) * i <= acc <= 68 * (SCALE as int) * i,
                acc + spec_score_from(*self, *doc, tv, i as int, RankMethod::Tfidf) == spec_score(
                    *self,
                    *doc,
                    tv,
                    RankMethod::Tfidf,
                ),
            decreases n - i,
        {
            let t = &toks[i];
            proof {
                assert(t@ == tv[i as int]);
                crate::model::lemma_count_le_sum(doc.spec_ft().entries_view(), t@);
            }
            let c = doc.frequency(t);
            let tfv = tf_fixed(c, total);
            let g = self.global_frequency(t);
            let idf = idf10(nd64, g);
            proof {
                lemma_s_mul_div_le(idf as int, tfv as int, SCALE as int, 1);
            }
            let term = mul_div(idf, tfv as u128, SCALE as u128);
            proof {
                assert(term == spec_tfidf_term(*self, *doc, tv[i as int]));
                assert(-68 * (SCALE as int) <= term <= 68 * (SCALE as int));
                assert(-68 * (SCALE as int) * i + (-68) * (SCALE as int) == -68 * (SCALE as int) * (
                i + 1)) by (nonlinear_arith);
                assert(68 * (SCALE as int) * i + 68 * (SCALE as int) == 68 * (SCALE as int) * (i
                    + 1)) by (nonlinear_arith);
                assert(i as int <= 0xFFFFFFFFFFFFFFFF);
                assert(68 * (SCALE as int) * (i as int) <= 68 * (SCALE as int)
                    * 0xFFFFFFFFFFFFFFFF) by (nonlinear_arith)
                    requires
                        0 <= (i as int) && (i as int) <= 0xFFFFFFFFFFFFFFFF,
                ;
            }
            acc = acc + term;
            i = i + 1;
        }
        acc
    }

    /// The BM25 score of one indexed document for a tokenized query.
    fn bm25_score(&self, doc: &Doc, toks: &Vec<Vec<char>>) -> (r: i128)
        requires
            self.wf(),
            doc.wf(),
            1 <= self.doc_count() <= u64::MAX,
            exists|j: int| 0 <= j < self.docs_view().len() && self.docs_view()[j].1 == *doc,
        ensures
            r == spec_score(*self, *doc, toks.deep_view(), RankMethod::Bm25),
    {
        let ghost tv = toks.deep_view();
        let nd64: u64 = self.document_count() as u64;
        let dl = doc.term_count();
        let tot = self.corpus_total();
        proof {
            let j = choose|j: int|
                0 <= j < self.docs_view().len() && self.docs_view()[j].1 == *doc;
            lemma_corpus_total_ge_doc(self.docs_view(), j);
            assert(dl as int <= clamp1(tot as int));
        }
        let n = toks.len();
        let mut acc: i128 = 0;
        let mut i: usize = 0;
        while i < n
            invariant
                self.wf(),
                doc.wf(),
                nd64 as int == self.doc_count(),
                1 <= nd64,
                dl == doc.spec_count(),
                tot as int == spec_corpus_total(self.docs_view()),
                dl as int <= clamp1(tot as int),
                n == tv.len(),
                toks.deep_view() == tv,
                n == toks@.len(),
                i <= n,
                -204 * (SCALE as int) * i <= acc <= 204 * (SCALE as int) * i,
                acc + spec_score_from(*self, *doc, tv, i as int, RankMethod::Bm25) == spec_score(
                    *self,
                    *doc,
                    tv,
                    RankMethod::Bm25,
                ),
            decreases n - i,
        {
            let t = &toks[i];
            proof {
                assert(t@ == tv[i as int]);
                crate::model::lemma_df_bounds(self.docs_view(), t@);
            }
            let tfr = doc.frequency(t);
            let dfv = self.doc_frequency(t);
            let idf = idf_bm25(nd64, dfv as u64);
            let denom = bm25_denom(tfr, dl, nd64, tot);
            let tf3s: u128 = 3 * (tfr as u128) * (SCALE as u128);
            proof {
                assert(3 * (tfr as int) * (SCALE as int) <= 3 * (denom as int)) by (nonlinear_arith)
                    requires
                        (tfr as int) * (SCALE as int) <= denom as int,
                ;
                assert(tf3s as int == 3 * (tfr as int) * (SCALE as int));
                lemma_s_mul_div_le(idf as int, tf3s as int, denom as int, 3);
                assert(tf3s <= 0x40000000000000000000000) by (nonlinear_arith)
                    requires
                        tfr <= 0xFFFFFFFFFFFFFFFFu64,
                        tf3s as int == 3 * (tfr as int) * (SCALE as int),
                ;
            }
            let term = mul_div(idf, tf3s, denom);
            proof {
                assert(term == spec_bm25_term(*self, *doc, tv[i as int]));
                if idf >= 0 {
                    assert(3 * (idf as int) <= 204 * (SCALE as int)) by (nonlinear_arith)
                        requires
                            0 <= (idf as int) && (idf as int) <= 68 * (SCALE as int),
                    ;
                } else {
                    assert(-204 * (SCALE as int) <= 3 * (idf as int)) by (nonlinear_arith)
                        requires
                            -68 * (SCALE as int) <= (idf as int) && (idf as int) < 0,
                    ;
                }
                assert(-204 * (SCALE as int) <= term <= 204 * (SCALE as int));
                assert(-204 * (SCALE as int) * i + (-204) * (SCALE as int) == -204 * (SCALE as int)
                    * (i + 1)) by (nonlinear_arith);
                assert(204 * (SCALE as int) * i + 204 * (SCALE as int) == 204 * (SCALE as int) * (i
                    + 1)) by (nonlinear_arith);
                assert(i as int <= 0xFFFFFFFFFFFFFFFF);
                assert(204 * (SCALE as int) * (i as int) <= 204 * (SCALE as int)
                    * 0xFFFFFFFFFFFFFFFF) by (nonlinear_arith)
                    requires
                        0 <= (i as int) && (i as int) <= 0xFFFFFFFFFFFFFFFF,
                ;
            }
            acc = acc + term;
            i = i + 1;
        }
        acc
    }
}

/// A ranked result list at specification level: the view of each path with
/// its score.
pub open spec fn ranked_view(v: Seq<(Vec<char>, i128)>) -> Seq<(Seq<char>, i128)> {
    v.map_values(|p: (Vec<char>, i128)| (p.0@, p.1))
}

/// Insert one scored path into a descending list, after every entry with an
/// equal or higher score.
pub open spec fn spec_insert_desc(
    s: Seq<(Seq<char>, i128)>,
    x: (Seq<char>, i128),
) -> Seq<(Seq<char>, i128)>
    decreases s.len(),
{
    if s.len() == 0 {
        seq![x]
    } else if x.1 > s[0].1 {
        seq![x] + s
    } else {
        seq![s[0]] + spec_insert_desc(s.drop_first(), x)
    }
}

/// Sort scored paths by descending score; entries with equal scores keep
/// their order.
pub open spec fn spec_sort_desc(s: Seq<(Seq<char>, i128)>) -> Seq<(Seq<char>, i128)>
    decreases s.len(),
{
    if s.len() == 0 {
        Seq::empty()
    } else {
        spec_insert_desc(spec_sort_desc(s.drop_last()), s.last())
    }
}

/// Every document of the index scored against a tokenized query, in storage
/// order.
pub open spec fn spec_scored(
    m: InMemoryModel,
    toks: Seq<Seq<char>>,
    method: RankMethod,
) -> Seq<(Seq<char>, i128)> {
    Seq::new(
        m.doc_count() as nat,
        |i: int| (m.docs_view()[i].0@, spec_score(m, m.docs_view()[i].1, toks, method) as i128),
    )
}

/// The answer to a query: every document scored, sorted by descending score.
pub open spec fn spec_rank(m: InMemoryModel, query: Seq<char>, method: RankMethod) -> Seq<
    (Seq<char>, i128),
> {
    spec_sort_desc(spec_scored(m, crate::lexer::spec_tokens(query), method))
}

/// Scores never rise along the list.
pub open spec fn sorted_desc(s: Seq<(Seq<char>, i128)>) -> bool {
    forall|i: int, j: int| 0 <= i < j < s.len() ==> s[i].1 >= s[j].1
}

/// Inserting at the first index whose score falls below the new one is what
/// `spec_insert_desc` does.
proof fn lemma_insert_desc_split(s: Seq<(Seq<char>, i128)>, x: (Seq<char>, i128), j: int)
    requires
        0 <= j <= s.len(),
        forall|k: int| 0 <= k < j ==> s[k].1 >= x.1,
        j == s.len() || s[j].1 < x.1,
    ensures
        spec_insert_desc(s, x) =~= s.take(j).add(seq![x]).add(s.skip(j)),
    decreases s.len(),
{
    if s.len() == 0 {
    } else if x.1 > s[0].1 {
        assert(j == 0);
        assert(s.take(0) =~= Seq::<(Seq<char>, i128)>::empty());
        assert(s.skip(0) =~= s);
    } else {
        assert(j >= 1);
        lemma_insert_desc_split(s.drop_first(), x, j - 1);
        assert(s.drop_first().take(j - 1) =~= s.take(j).drop_first());
        assert(s.drop_first().skip(j - 1) =~= s.skip(j));
    }
}

/// Insertion preserves descending order, grows the list by one, and adds no
/// entry beyond the inserted one.
proof fn lemma_insert_desc_sorted(s: Seq<(Seq<char>, i128)>, x: (Seq<char>, i128))
    requires
        sorted_desc(s),
    ensures
        sorted_desc(spec_insert_desc(s, x)),
        spec_insert_desc(s, x).len() == s.len() + 1,
        forall|i: int|
            0 <= i < spec_insert_desc(s, x).len() ==> (#[trigger] spec_insert_desc(s, x)[i] == x
                || s.contains(spec_insert_desc(s, x)[i])),
    decreases s.len(),
{
    if s.len() == 0 {
    } else if x.1 > s[0].1 {
        let r = seq![x] + s;
        assert forall|i: int|
            0 <= i < r.len() implies (#[trigger] r[i] == x || s.contains(r[i])) by {
            if i >= 1 {
                assert(r[i] == s[i - 1]);
            }
        }
    } else {
        assert(sorted_desc(s.drop_first()));
        lemma_insert_desc_sorted(s.drop_first(), x);
        let t = spec_insert_desc(s.drop_first(), x);
        let r = seq![s[0]] + t;
        assert(r.drop_first() =~= t);
        assert forall|i: int|
            0 <= i < r.len() implies (#[trigger] r[i] == x || s.contains(r[i])) by {
            if i >= 1 {
                assert(r[i] == t[i - 1]);
                if r[i] != x {
                    let w = choose|w: int| 0 <= w < s.drop_first().len() && s.drop_first()[w] == r[i];
                    assert(s[w + 1] == r[i]);
                }
            }
        }
        assert forall|i: int, j: int| 0 <= i < j < r.len() implies r[i].1 >= r[j].1 by {
            if i == 0 {
                if r[j] == x {
                } else {
                    let w = choose|w: int| 0 <= w < s.len() && s[w] == r[j];
                    if w > 0 {
                        assert(s[0].1 >= s[w].1);
                    }
                }
            } else {
                assert(r[i] == t[i - 1] && r[j] == t[j - 1]);
            }
        }
    }
}

/// The sorted list is in descending order and exactly as long as its input.
pub proof fn lemma_sort_desc_sorted(s: Seq<(Seq<char>, i128)>)
    ensures
        sorted_desc(spec_sort_desc(s)),
        spec_sort_desc(s).len() == s.len(),
    decreases s.len(),
{
    if s.len() > 0 {
        lemma_sort_desc_sorted(s.drop_last());
        lemma_insert_desc_sorted(spec_sort_desc(s.drop_last()), s.last());
    }
}

/// Ranking determinism: the ranked list is a function of the index and the
/// query alone, so two queries against an unmutated index return identical
/// ordered results.
pub proof fn lemma_rank_deterministic(
    m: InMemoryModel,
    query: Seq<char>,
    method: RankMethod,
    r1: Seq<(Seq<char>, i128)>,
    r2: Seq<(Seq<char>, i128)>,
)
    requires
        r1 == spec_rank(m, query, method),
        r2 == spec_rank(m, query, method),
    ensures
        r1 == r2,
{
}

/// The ranked list scores every indexed document and never lets a score rise
/// along the list.
pub proof fn lemma_rank_sorted(m: InMemoryModel, query: Seq<char>, method: RankMethod)
    ensures
        sorted_desc(spec_rank(m, query, method)),
        spec_rank(m, query, method).len() == m.doc_count(),
{
    lemma_sort_desc_sorted(spec_scored(m, crate::lexer::spec_tokens(query), method));
}

impl InMemoryModel {
    /// Rank every indexed document against a raw query: tokenize the query
    /// once, score each document under the selected method, and return all
    /// `(path, score)` pairs sorted by descending fixed-point score.
    pub fn search_query(&self, query: &[char], rank_method: RankMethod) -> (r: Result<
        Vec<(Vec<char>, i128)>,
        (),
    >)
        requires
            self.wf(),
        ensures
            r is Ok,
            r matches Ok(v) ==> ranked_view(v@) == spec_rank(*self, query@, rank_method),
    {
        let tokens = tokens_of(query);
        let ghost toks = crate::lexer::spec_tokens(query@);
        let ghost sv = spec_scored(*self, toks, rank_method);
        proof {
            self.lemma_fields();
        }
        let nd = self.docs.len();
        let mut scored: Vec<(Vec<char>, i128)> = Vec::new();
        let mut i: usize = 0;
        proof {
            assert(ranked_view(scored@) =~= sv.take(0));
        }
        while i < nd
            invariant
                self.wf(),
                nd == self.doc_count(),
                nd <= u64::MAX,
                tokens.deep_view() == toks,
                sv == spec_scored(*self, toks, rank_method),
                i <= nd,
                scored@.len() == i,
                ranked_view(scored@) =~= sv.take(i as int),
            decreases nd - i,
        {
            proof {
                self.lemma_fields();
                assert((#[trigger] self.docs_view()[i as int]).1.wf());
            }
            let doc = self.docs.doc_at(i);
            let path = self.docs.path_at(i).clone();
            let sc = match rank_method {
                RankMethod::Tfidf => self.tfidf_score(doc, &tokens),
                RankMethod::Bm25 => {
                    proof {
                        assert(self.docs_view()[i as int].1 == *doc);
                    }
                    self.bm25_score(doc, &tokens)
                },
            };
            let ghost prev = ranked_view(scored@);
            scored.push((path, sc));
            proof {
                assert(sc as int == spec_score(*self, self.docs_view()[i as int].1, toks, rank_method));
                assert forall|k: int|
                    0 <= k < scored@.len() implies #[trigger] ranked_view(scored@)[k] == sv.take(
                    i + 1,
                )[k] by {
                    if k < i {
                        assert(scored@[k] == scored@.subrange(0, i as int)[k]);
                        assert(prev[k] == sv.take(i as int)[k]);
                    } else {
                        assert(scored@[k] == (path, sc));
                        assert(sv[k] == (
                            self.docs_view()[k].0@,
                            spec_score(*self, self.docs_view()[k].1, toks, rank_method) as i128,
                        ));
                    }
                }
                assert(ranked_view(scored@) =~= sv.take(i + 1));
            }
            i = i + 1;
        }
        proof {
            assert(sv.take(nd as int) =~= sv);
        }

        let mut res: Vec<(Vec<char>, i128)> = Vec::new();
        let mut k: usize = 0;
        let ns = scored.len();
        proof {
            assert(ranked_view(res@) =~= spec_sort_desc(sv.take(0)));
        }
        while k < ns
            invariant
                ns == scored@.len(),
                ranked_view(scored@) == sv,
                k <= ns,
                res@.len() == k,
                ranked_view(res@) =~= spec_sort_desc(sv.take(k as int)),
            decreases ns - k,
        {
            let e = &scored[k];
            let p = e.0.clone();
            let sc = e.1;
            let ghost x = (p@, sc);
            proof {
                assert(x == sv[k as int]);
            }
            let mut j: usize = 0;
            while j < res.len() && res[j].1 >= sc
                invariant
                    j <= res@.len(),
                    forall|q: int| 0 <= q < j ==> res@[q].1 >= sc,
                decreases res@.len() - j,
            {
                j = j + 1;
            }
            let ghost rv = ranked_view(res@);
            proof {
                assert forall|q: int| 0 <= q < j implies rv[q].1 >= x.1 by {
                    assert(res@[q].1 >= sc);
                }
                if (j as int) < rv.len() {
                    assert(rv[j as int].1 == res@[j as int].1);
                }
                lemma_insert_desc_split(rv, x, j as int);
            }
            res.insert(j, (p, sc));
            proof {
                assert forall|q: int|
                    0 <= q < res@.len() implies #[trigger] ranked_view(res@)[q]
                    == spec_insert_desc(rv, x)[q] by {
                    if q < j {
                        assert(res@[q] == res@.subrange(0, j as int)[q]);
                    } else if q == j {
                        assert(res@[q] == (p, sc));
                    } else {
                        assert(res@[q] == res@.subrange(j + 1, res@.len() as int)[q - j - 1]);
                    }
                }
                assert(ranked_view(res@) =~= spec_insert_desc(rv, x));
                assert(sv.take(k + 1).drop_last() =~= sv.take(k as int));
                assert(sv.take(k + 1).last() == x);
                assert(spec_sort_desc(sv.take(k + 1)) == spec_insert_desc(
                    spec_sort_desc(sv.take(k as int)),
                    x,
                ));
            }
            k = k + 1;
        }
        proof {
            assert(sv.take(ns as int) =~= sv);
            assert(ranked_view(res@) =~= spec_rank(*self, query@, rank_method));
        }
        Ok(res)
    }
}

/// Executable `spec_bm25_denom`.
fn bm25_denom(tfr: u64, dl: u64, nd: u64, tot0: u128) -> (r: u128)
    requires
        dl as int <= clamp1(tot0 as int),
    ensures
        r as int == spec_bm25_denom(tfr, dl, nd as int, tot0 as int),
        (tfr as int) * (SCALE as int) <= r,
        1 <= r,
{
    let tot: u128 = if tot0 == 0 {
        1
    } else {
        tot0
    };
    proof {
        assert((dl as int) * (nd as int) <= 0xFFFFFFFFFFFFFFFF * 0xFFFFFFFFFFFFFFFF)
            by (nonlinear_arith)
            requires
                dl <= 0xFFFFFFFFFFFFFFFFu64,
                nd <= 0xFFFFFFFFFFFFFFFFu64,
        ;
    }
    let prod: u128 = (dl as u128) * (nd as u128);
    let q = prod / tot;
    let rem = prod % tot;
    proof {
        lemma_mul_inequality(dl as int, tot as int, nd as int);
        assert((dl as int) * (nd as int) == (nd as int) * (dl as int)) by (nonlinear_arith);
        assert((tot as int) * (nd as int) == (tot as int) * (nd as int));
        lemma_div_is_ordered(prod as int, (tot as int) * (nd as int), tot as int);
        lemma_div_multiples_vanish(nd as int, tot as int);
        assert(q <= nd);
        assert((q as int) * (SCALE as int) <= (nd as int) * (SCALE as int)) by (nonlinear_arith)
            requires
                q <= nd,
        ;
        assert((nd as int) * (SCALE as int) <= 0xFFFFFFFFFFFFFFFF * 1048576) by (nonlinear_arith)
            requires
                nd <= 0xFFFFFFFFFFFFFFFFu64,
        ;
    }
    let fr: u128 = if tot <= 0x10000000000000000000000000 {
        proof {
            assert((rem as int) * (SCALE as int) <= 0x10000000000000000000000000 * 1048576)
                by (nonlinear_arith)
                requires
                    rem < tot <= 0x10000000000000000000000000u128,
            ;
            lemma_mul_inequality(rem as int, tot as int, SCALE as int);
            assert((rem as int) * (SCALE as int) == (SCALE as int) * (rem as int))
                by (nonlinear_arith);
            assert((tot as int) * (SCALE as int) == (tot as int) * (SCALE as int));
            assert((SCALE as int) * (rem as int) <= (tot as int) * (SCALE as int))
                by (nonlinear_arith)
                requires
                    rem <= tot,
            ;
            lemma_div_is_ordered((rem as int) * (SCALE as int), (tot as int) * (SCALE as int),
                tot as int);
            lemma_div_multiples_vanish(SCALE as int, tot as int);
            assert((tot as int) * (SCALE as int) == (tot as int) * (SCALE as int));
        }
        rem * (SCALE as u128) / tot
    } else {
        0
    };
    proof {
        assert(fr <= SCALE);
    }
    let ratio: u128 = q * (SCALE as u128) + fr;
    let half: u128 = (SCALE as u128) / 2;
    let r = (tfr as u128) * (SCALE as u128) + half + 3 * ratio / 2;
    proof {
        assert((tfr as int) * (SCALE as int) <= 0xFFFFFFFFFFFFFFFF * 1048576) by (nonlinear_arith)
            requires
                tfr <= 0xFFFFFFFFFFFFFFFFu64,
        ;
        lemma_div_is_ordered(0, 3 * (ratio as int), 2);
    }
    r
}

} // verus!
