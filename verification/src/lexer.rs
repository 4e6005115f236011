//! The tokenizer. It turns a character stream into normalized terms: runs of
//! digits at least two characters long, stemmed and uppercased alphanumeric
//! words, and single punctuation characters. Whitespace separates tokens and
//! lone digits are dropped.

use vstd::prelude::*;

verus! {

/// What `char::is_whitespace` answers for a character.
pub uninterp spec fn is_whitespace_char(c: char) -> bool;

/// Relies on char::is_whitespace: a pure classification of the character.
#[verifier::external_body]
fn char_is_whitespace(c: char) -> (r: bool)
    ensures
        r == is_whitespace_char(c),
{
    c.is_whitespace()
}

/// What `char::is_numeric` answers for a character.
pub uninterp spec fn is_numeric_char(c: char) -> bool;

/// Relies on char::is_numeric: a pure classification of the character.
#[verifier::external_body]
fn char_is_numeric(c: char) -> (r: bool)
    ensures
        r == is_numeric_char(c),
{
    c.is_numeric()
}

/// What `char::is_alphabetic` answers for a character.
pub uninterp spec fn is_alphabetic_char(c: char) -> bool;

/// Relies on char::is_alphabetic: a pure classification of the character.
#[verifier::external_body]
fn char_is_alphabetic(c: char) -> (r: bool)
    ensures
        r == is_alphabetic_char(c),
{
    c.is_alphabetic()
}

/// What `char::is_alphanumeric` answers for a character.
pub uninterp spec fn is_alphanumeric_char(c: char) -> bool;

/// Relies on char::is_alphanumeric: a pure classification of the character.
#[verifier::external_body]
fn char_is_alphanumeric(c: char) -> (r: bool)
    ensures
        r == is_alphanumeric_char(c),
{
    c.is_alphanumeric()
}

/// The Snowball English stem of a word. The stemmer is a pure function of
/// the input characters, so its result carries a name.
pub uninterp spec fn stem_of(s: Seq<char>) -> Seq<char>;

/// Relies on rust_stemmers::Stemmer::create(English) and Stemmer::stem:
/// Snowball stemming, deterministic in the input characters alone.
#[verifier::external_body]
fn stem_token(token: &[char]) -> (r: Vec<char>)
    ensures
        r@ == stem_of(token@),
{
    let word: String = token.iter().collect();
    let stemmer = rust_stemmers::Stemmer::create(rust_stemmers::Algorithm::English);
    stemmer.stem(&word).chars().collect()
}

/// The Unicode uppercasing of a string.
pub uninterp spec fn upper_of(s: Seq<char>) -> Seq<char>;

/// Relies on str::to_uppercase: Unicode uppercasing, a pure function of the
/// input characters.
#[verifier::external_body]
fn upper_token(token: &[char]) -> (r: Vec<char>)
    ensures
        r@ == upper_of(token@),
{
    let word: String = token.iter().collect();
    word.to_uppercase().chars().collect()
}

/// A character test a `Lexer` can chop by: the executable answer must agree
/// with the specification-level one.
pub trait CharPred {
    spec fn holds(&self, c: char) -> bool;

    fn test(&self, c: char) -> (r: bool)
        ensures
            r == self.holds(c),
    ;
}

/// Chops maximal runs of numeric characters.
pub struct NumericPred;

impl CharPred for NumericPred {
    open spec fn holds(&self, c: char) -> bool {
        is_numeric_char(c)
    }

    fn test(&self, c: char) -> (r: bool)
        ensures
            r == self.holds(c),
    {
        char_is_numeric(c)
    }
}

/// Chops maximal runs of alphanumeric characters.
pub struct AlphanumericPred;

impl CharPred for AlphanumericPred {
    open spec fn holds(&self, c: char) -> bool {
        is_alphanumeric_char(c)
    }

    fn test(&self, c: char) -> (r: bool)
        ensures
            r == self.holds(c),
    {
        char_is_alphanumeric(c)
    }
}

/// Length of the maximal leading run of numeric characters.
pub open spec fn num_run(s: Seq<char>) -> nat
    decreases s.len(),
{
    if s.len() > 0 && is_numeric_char(s[0]) {
        1 + num_run(s.drop_first())
    } else {
        0
    }
}

/// Length of the maximal leading run of alphanumeric characters.
pub open spec fn alnum_run(s: Seq<char>) -> nat
    decreases s.len(),
{
    if s.len() > 0 && is_alphanumeric_char(s[0]) {
        1 + alnum_run(s.drop_first())
    } else {
        0
    }
}

pub proof fn lemma_num_run_le(s: Seq<char>)
    ensures
        num_run(s) <= s.len(),
    decreases s.len(),
{
    if s.len() > 0 && is_numeric_char(s[0]) {
        lemma_num_run_le(s.drop_first());
    }
}

pub proof fn lemma_alnum_run_le(s: Seq<char>)
    ensures
        alnum_run(s) <= s.len(),
    decreases s.len(),
{
    if s.len() > 0 && is_alphanumeric_char(s[0]) {
        lemma_alnum_run_le(s.drop_first());
    }
}

/// A leading run is characterized by its contents and its first non-member.
proof fn lemma_num_run_charac(s: Seq<char>, n: int)
    requires
        0 <= n <= s.len(),
        forall|i: int| 0 <= i < n ==> is_numeric_char(s[i]),
        n == s.len() || !is_numeric_char(s[n]),
    ensures
        num_run(s) == n,
    decreases s.len(),
{
    if n > 0 {
        assert(forall|i: int| 0 <= i < n - 1 ==> s.drop_first()[i] == s[i + 1]);
        lemma_num_run_charac(s.drop_first(), n - 1);
    }
}

proof fn lemma_alnum_run_charac(s: Seq<char>, n: int)
    requires
        0 <= n <= s.len(),
        forall|i: int| 0 <= i < n ==> is_alphanumeric_char(s[i]),
        n == s.len() || !is_alphanumeric_char(s[n]),
    ensures
        alnum_run(s) == n,
    decreases s.len(),
{
    if n > 0 {
        assert(forall|i: int| 0 <= i < n - 1 ==> s.drop_first()[i] == s[i + 1]);
        lemma_alnum_run_charac(s.drop_first(), n - 1);
    }
}

/// The next token of a character stream, with the stream that remains after
/// it, or `None` when only whitespace and lone digits are left.
pub open spec fn spec_next_token(s: Seq<char>) -> Option<(Seq<char>, Seq<char>)>
    decreases s.len(),
{
    if s.len() == 0 {
        None
    } else if is_whitespace_char(s[0]) {
        spec_next_token(s.drop_first())
    } else if is_numeric_char(s[0]) {
        let n = 1 + num_run(s.skip(1));
        if n >= 2 {
            Some((s.take(n as int), s.skip(n as int)))
        } else {
            spec_next_token(s.skip(1))
        }
    } else if is_alphabetic_char(s[0]) {
        let n = 1 + alnum_run(s.skip(1));
        Some((upper_of(stem_of(s.take(n as int))), s.skip(n as int)))
    } else {
        Some((s.take(1), s.skip(1)))
    }
}

/// Every emitted token consumes at least one character of the stream.
pub proof fn lemma_next_token_consumes(s: Seq<char>)
    ensures
        spec_next_token(s) matches Some(tr) ==> tr.1.len() < s.len(),
    decreases s.len(),
{
    if s.len() == 0 {
    } else if is_whitespace_char(s[0]) {
        lemma_next_token_consumes(s.drop_first());
    } else if is_numeric_char(s[0]) {
        lemma_num_run_le(s.skip(1));
        lemma_next_token_consumes(s.skip(1));
    } else if is_alphabetic_char(s[0]) {
        lemma_alnum_run_le(s.skip(1));
    }
}

/// The full token stream of a character sequence.
pub open spec fn spec_tokens(s: Seq<char>) -> Seq<Seq<char>>
    decreases s.len(),
    via spec_tokens_decreases
{
    match spec_next_token(s) {
        None => Seq::empty(),
        Some(tr) => seq![tr.0] + spec_tokens(tr.1),
    }
}

#[via_fn]
proof fn spec_tokens_decreases(s: Seq<char>) {
    lemma_next_token_consumes(s);
}

/// A cursor over a borrowed character slice that hands out one normalized
/// token at a time.
#[derive(Debug)]
pub struct Lexer<'a> {
    content: &'a [char],
    pos: usize,
}

impl<'a> Lexer<'a> {
    /// The characters not yet consumed.
    pub closed spec fn remaining(&self) -> Seq<char> {
        self.content@.skip(self.pos as int)
    }

    pub closed spec fn wf(&self) -> bool {
        self.pos <= self.content@.len()
    }

    pub fn new(content: &'a [char]) -> (r: Self)
        ensures
            r.wf(),
            r.remaining() == content@,
    {
        let r = Self { content, pos: 0 };
        proof {
            assert(r.remaining() =~= content@);
        }
        r
    }

    /// Skip leading whitespace. The next token of the stream is unchanged.
    pub fn trim_left(&mut self)
        requires
            old(self).wf(),
        ensures
            final(self).wf(),
            spec_next_token(final(self).remaining()) == spec_next_token(old(self).remaining()),
            spec_tokens(final(self).remaining()) == spec_tokens(old(self).remaining()),
            final(self).remaining().len() == 0 || !is_whitespace_char(final(self).remaining()[0]),
            final(self).remaining().len() <= old(self).remaining().len(),
    {
        while self.pos < self.content.len() && char_is_whitespace(self.content[self.pos])
            invariant
                self.wf(),
                self.content == old(self).content,
                spec_next_token(self.remaining()) == spec_next_token(old(self).remaining()),
                self.remaining().len() <= old(self).remaining().len(),
            decreases self.content@.len() - self.pos,
        {
            proof {
                let rem = self.remaining();
                assert(rem[0] == self.content@[self.pos as int]);
                assert(rem.drop_first() =~= self.content@.skip(self.pos + 1));
            }
            self.pos = self.pos + 1;
        }
        proof {
            if self.pos < self.content@.len() {
                assert(self.remaining()[0] == self.content@[self.pos as int]);
            }
            assert(spec_tokens(self.remaining()) == spec_tokens(old(self).remaining()));
        }
    }

    /// Consume and return the next `n` characters.
    pub fn chop(&mut self, n: usize) -> (r: Vec<char>)
        requires
            old(self).wf(),
            n <= old(self).remaining().len(),
        ensures
            final(self).wf(),
            r@ == old(self).remaining().take(n as int),
            final(self).remaining() == old(self).remaining().skip(n as int),
    {
        let clen = self.content.len();
        let mut out: Vec<char> = Vec::new();
        let mut k: usize = 0;
        while k < n
            invariant
                old(self).wf(),
                *self == *old(self),
                clen == self.content@.len(),
                k <= n,
                n <= old(self).remaining().len(),
                out@ =~= old(self).remaining().take(k as int),
            decreases n - k,
        {
            proof {
                assert(old(self).remaining()[k as int] == self.content@[self.pos + k]);
            }
            out.push(self.content[self.pos + k]);
            k = k + 1;
        }
        self.pos = self.pos + n;
        proof {
            assert(self.remaining() =~= old(self).remaining().skip(n as int));
        }
        out
    }

    /// Consume the maximal leading run of characters the predicate accepts.
    pub fn chop_while<P: CharPred>(&mut self, predicate: &P) -> (r: Vec<char>)
        requires
            old(self).wf(),
        ensures
            final(self).wf(),
            r@.len() <= old(self).remaining().len(),
            r@ == old(self).remaining().take(r@.len() as int),
            final(self).remaining() == old(self).remaining().skip(r@.len() as int),
            forall|i: int| 0 <= i < r@.len() ==> predicate.holds(old(self).remaining()[i]),
            r@.len() == old(self).remaining().len() || !predicate.holds(
                old(self).remaining()[r@.len() as int],
            ),
    {
        let ghost rem = old(self).remaining();
        let mut n: usize = 0;
        while n < self.content.len() - self.pos && predicate.test(self.content[self.pos + n])
            invariant
                self.wf(),
                *self == *old(self),
                rem == self.content@.skip(self.pos as int),
                self.pos + n <= self.content@.len(),
                forall|i: int| 0 <= i < n ==> predicate.holds(rem[i]),
            decreases self.content@.len() - self.pos - n,
        {
            proof {
                assert(n < rem.len());
                assert(rem[n as int] == self.content@[self.pos + n]);
            }
            n = n + 1;
        }
        proof {
            if self.pos + n < self.content@.len() {
                assert(rem[n as int] == self.content@[self.pos + n]);
            }
        }
        self.chop(n)
    }

    /// The next normalized token, or `None` when the stream is exhausted.
    pub fn next_token(&mut self) -> (r: Option<Vec<char>>)
        requires
            old(self).wf(),
        ensures
            final(self).wf(),
            match r {
                Some(tok) => spec_next_token(old(self).remaining()) == Some(
                    (tok@, final(self).remaining()),
                ),
                None => spec_next_token(old(self).remaining()) is None,
            },
            final(self).remaining().len() <= old(self).remaining().len(),
            r is Some ==> final(self).remaining().len() < old(self).remaining().len(),
    {
        loop
            invariant
                self.wf(),
                spec_next_token(self.remaining()) == spec_next_token(old(self).remaining()),
                self.remaining().len() <= old(self).remaining().len(),
            decreases self.remaining().len(),
        {
            self.trim_left();
            let ghost rem = self.remaining();

            if self.pos >= self.content.len() {
                return None;
            }
            proof {
                assert(rem[0] == self.content@[self.pos as int]);
                assert(rem.skip(1) =~= rem.drop_first());
            }

            if char_is_numeric(self.content[self.pos]) {
                let first = self.chop(1);
                let rest = self.chop_while(&NumericPred);
                proof {
                    lemma_num_run_charac(rem.skip(1), rest@.len() as int);
                    assert(rem.skip(1).skip(rest@.len() as int) =~= rem.skip(
                        1 + rest@.len() as int,
                    ));
                }
                if rest.len() == 0 {
                    // A lone digit is noise: drop it and keep scanning.
                    continue;
                }
                let mut token = first;
                let mut k: usize = 0;
                let ghost n = 1 + rest@.len() as int;
                while k < rest.len()
                    invariant
                        k <= rest@.len(),
                        token@ =~= rem.take(1).add(rest@.take(k as int)),
                        rest@ == rem.skip(1).take(rest@.len() as int),
                    decreases rest@.len() - k,
                {
                    token.push(rest[k]);
                    k = k + 1;
                }
                proof {
                    assert(token@ =~= rem.take(n));
                }
                return Some(token);
            }

            if char_is_alphabetic(self.content[self.pos]) {
                let first = self.chop(1);
                let rest = self.chop_while(&AlphanumericPred);
                let ghost n = 1 + rest@.len() as int;
                proof {
                    lemma_alnum_run_charac(rem.skip(1), rest@.len() as int);
                    assert(rem.skip(1).skip(rest@.len() as int) =~= rem.skip(n));
                }
                let mut word = first;
                let mut k: usize = 0;
                while k < rest.len()
                    invariant
                        k <= rest@.len(),
                        word@ =~= rem.take(1).add(rest@.take(k as int)),
                        rest@ == rem.skip(1).take(rest@.len() as int),
                    decreases rest@.len() - k,
                {
                    word.push(rest[k]);
                    k = k + 1;
                }
                proof {
                    assert(word@ =~= rem.take(n));
                }
                let stemmed = stem_token(word.as_slice());
                let token = upper_token(stemmed.as_slice());
                return Some(token);
            }

            let token = self.chop(1);
            return Some(token);
        }
    }
}

/// All tokens of a character stream, in order.
pub fn tokens_of(content: &[char]) -> (r: Vec<Vec<char>>)
    ensures
        r.deep_view() == spec_tokens(content@),
{
    let mut lexer = Lexer::new(content);
    let mut out: Vec<Vec<char>> = Vec::new();
    loop
        invariant
            lexer.wf(),
            out.deep_view() + spec_tokens(lexer.remaining()) =~= spec_tokens(content@),
        decreases lexer.remaining().len(),
    {
        let ghost before = lexer.remaining();
        match lexer.next_token() {
            None => {
                proof {
                    assert(spec_tokens(before) =~= Seq::<Seq<char>>::empty());
                    assert(out.deep_view() =~= spec_tokens(content@));
                }
                return out;
            },
            Some(tok) => {
                let ghost prev = out.deep_view();
                let ghost tokv = tok@;
                proof {
                    assert(spec_tokens(before) == seq![tokv] + spec_tokens(lexer.remaining()));
                }
                out.push(tok);
                proof {
                    assert forall|i: int| 0 <= i < out.deep_view().len() implies out.deep_view()[i]
                        == prev.push(tokv)[i] by {
                        if i < prev.len() {
                            assert(out@[i] == out@.subrange(0, prev.len() as int)[i]);
                        }
                    }
                    assert(out.deep_view() =~= prev.push(tokv));
                    assert(prev.push(tokv) + spec_tokens(lexer.remaining()) =~= prev + spec_tokens(
                        before,
                    ));
                }
            },
        }
    }
}

} // verus!
