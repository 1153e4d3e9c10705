//! The tokenizer: turns text into a sequence of index terms.
//!
//! Whitespace separates terms and is never part of one. A term is a maximal
//! run of numeric characters, or a maximal run of alphanumeric characters that
//! starts with a letter (reduced to its English stem), or any other single
//! character.

use vstd::prelude::*;

use crate::text::{
    char_is_alphabetic, char_is_numeric, char_is_whitespace, string_of_chars,
};

verus! {

/// What the Snowball English stemmer returns for a word.
pub uninterp spec fn stem_of(w: Seq<char>) -> Seq<char>;

/// The length of the longest prefix of `s` whose characters all satisfy `p`.
pub open spec fn run_len(s: Seq<char>, p: spec_fn(char) -> bool) -> nat
    decreases s.len(),
{
    if s.len() > 0 && p(s[0]) {
        1 + run_len(s.drop_first(), p)
    } else {
        0
    }
}

/// Whitespace, which separates terms.
pub open spec fn space() -> spec_fn(char) -> bool {
    |c: char| char_is_whitespace(c)
}

/// The characters of a numeric term.
pub open spec fn numeric() -> spec_fn(char) -> bool {
    |c: char| char_is_numeric(c)
}

/// The characters of a word term.
pub open spec fn alphanumeric() -> spec_fn(char) -> bool {
    |c: char| char_is_alphabetic(c) || char_is_numeric(c)
}

/// `s` with its leading whitespace removed.
pub open spec fn trimmed(s: Seq<char>) -> Seq<char> {
    s.skip(run_len(s, space()) as int)
}

/// The first term of `s` and the text after it, or `None` when `s` holds
/// nothing but whitespace.
pub open spec fn next_token_of(s: Seq<char>) -> Option<(Seq<char>, Seq<char>)> {
    let t = trimmed(s);
    if t.len() == 0 {
        None
    } else if char_is_numeric(t[0]) {
        let n = run_len(t, numeric()) as int;
        Some((t.take(n), t.skip(n)))
    } else if char_is_alphabetic(t[0]) {
        let n = run_len(t, alphanumeric()) as int;
        Some((stem_of(t.take(n)), t.skip(n)))
    } else {
        Some((t.take(1), t.skip(1)))
    }
}

/// Every term of `s`, in order.
pub open spec fn tokens_of(s: Seq<char>) -> Seq<Seq<char>>
    decreases s.len(),
{
    match next_token_of(s) {
        None => seq![],
        Some(p) => {
            proof {
                lemma_next_token_shrinks(s);
            }
            seq![p.0] + tokens_of(p.1)
        },
    }
}

/// A run lies within the text, holds only characters that satisfy `p`, and
/// stops at the first one that does not.
pub proof fn lemma_run_len_bound(s: Seq<char>, p: spec_fn(char) -> bool)
    ensures
        run_len(s, p) <= s.len(),
        s.len() > 0 && p(s[0]) ==> run_len(s, p) >= 1,
        forall|i: int| 0 <= i < run_len(s, p) ==> p(#[trigger] s[i]),
        run_len(s, p) < s.len() ==> !p(s[run_len(s, p) as int]),
    decreases s.len(),
{
    if s.len() > 0 && p(s[0]) {
        lemma_run_len_bound(s.drop_first(), p);
        assert forall|i: int| 0 <= i < run_len(s, p) implies p(#[trigger] s[i]) by {
            if i > 0 {
                assert(s[i] == s.drop_first()[i - 1]);
            }
        }
    }
}

/// The text after a term is strictly shorter than the text it came from.
pub proof fn lemma_next_token_shrinks(s: Seq<char>)
    ensures
        match next_token_of(s) {
            Some(p) => p.1.len() < s.len(),
            None => true,
        },
{
    let t = trimmed(s);
    lemma_run_len_bound(s, space());
    lemma_run_len_bound(t, numeric());
    lemma_run_len_bound(t, alphanumeric());
}

/// Text of `n` characters holds at most `n` terms.
pub proof fn lemma_tokens_len(s: Seq<char>)
    ensures
        tokens_of(s).len() <= s.len(),
    decreases s.len(),
{
    lemma_next_token_shrinks(s);
    match next_token_of(s) {
        Some(p) => lemma_tokens_len(p.1),
        None => {},
    }
}

/// Which run of characters `chop_while` takes.
enum Run {
    Numeric,
    Alphanumeric,
}

impl Run {
    spec fn class(&self) -> spec_fn(char) -> bool {
        match self {
            Run::Numeric => numeric(),
            Run::Alphanumeric => alphanumeric(),
        }
    }

    fn admits(&self, c: char) -> (r: bool)
        ensures
            r == (self.class())(c),
    {
        match self {
            Run::Numeric => c.is_numeric(),
            Run::Alphanumeric => c.is_alphanumeric(),
        }
    }
}

/// A cursor over text that hands out its terms one at a time.
#[derive(Debug)]
pub struct Lexer<'a> {
    content: &'a [char],
}

impl<'a> Lexer<'a> {
    /// The text that is still to be tokenized.
    pub closed spec fn rest(&self) -> Seq<char> {
        self.content@
    }

    /// The terms that are still to come.
    pub open spec fn remaining_tokens(&self) -> Seq<Seq<char>> {
        tokens_of(self.rest())
    }

    pub fn new(content: &'a [char]) -> (r: Self)
        ensures
            r.rest() == content@,
    {
        Self { content }
    }

    fn trim_left(&mut self)
        ensures
            final(self).rest() == trimmed(old(self).rest()),
    {
        proof {
            lemma_run_len_bound(self.content@, space());
        }
        let ghost start = self.content@;
        let ghost skipped: int = 0;
        while self.content.len() > 0 && self.content[0].is_whitespace()
            invariant
                0 <= skipped <= run_len(start, space()),
                self.content@ == start.skip(skipped),
            decreases self.content@.len(),
        {
            proof {
                lemma_run_len_bound(start, space());
            }
            let len = self.content.len();
            self.content = &self.content[1..len];
            proof {
                skipped = skipped + 1;
                assert(self.content@ =~= start.skip(skipped));
            }
        }
        proof {
            let n = run_len(start, space()) as int;
            if skipped < n {
                assert(self.content@[0] == start[skipped]);
            }
        }
    }

    fn chop(&mut self, n: usize) -> (token: &'a [char])
        requires
            n <= old(self).rest().len(),
        ensures
            token@ == old(self).rest().take(n as int),
            final(self).rest() == old(self).rest().skip(n as int),
    {
        let len = self.content.len();
        let token = &self.content[0..n];
        self.content = &self.content[n..len];
        token
    }

    fn chop_while(&mut self, run: Run) -> (token: &'a [char])
        ensures
            ({
                let n = run_len(old(self).rest(), run.class()) as int;
                &&& token@ == old(self).rest().take(n)
                &&& final(self).rest() == old(self).rest().skip(n)
            }),
    {
        proof {
            lemma_run_len_bound(self.content@, run.class());
        }
        let mut n: usize = 0;
        while n < self.content.len() && run.admits(self.content[n])
            invariant
                n <= run_len(self.content@, run.class()),
            decreases self.content@.len() - n,
        {
            proof {
                lemma_run_len_bound(self.content@, run.class());
            }
            n += 1;
        }
        self.chop(n)
    }

    /// Hands out the next term, or `None` once only whitespace is left.
    pub fn next_token(&mut self) -> (r: Option<String>)
        ensures
            match next_token_of(old(self).rest()) {
                Some(p) => r is Some && r->0@ == p.0 && final(self).rest() == p.1,
                None => r is None && final(self).rest().len() == 0,
            },
    {
        self.trim_left();

        if self.content.len() == 0 {
            return None;
        }

        if self.content[0].is_numeric() {
            let token = self.chop_while(Run::Numeric);
            return Some(string_of_chars(token));
        }

        if self.content[0].is_alphabetic() {
            let term = string_of_chars(self.chop_while(Run::Alphanumeric));
            let stemmed_term = stem_word(term);
            return Some(stemmed_term);
        }

        Some(string_of_chars(self.chop(1)))
    }

    /// Hands out the next term, as `next_token` does.
    pub fn next(&mut self) -> (r: Option<String>)
        ensures
            match next_token_of(old(self).rest()) {
                Some(p) => r is Some && r->0@ == p.0 && final(self).rest() == p.1,
                None => r is None && final(self).rest().len() == 0,
            },
    {
        self.next_token()
    }
}

/// Relies on `rust_stemmers::Stemmer::stem` with the English Snowball
/// algorithm: the stem depends on the word alone.
#[verifier::external_body]
fn english_stem(w: &str) -> (r: String)
    ensures
        r@ == stem_of(w@),
{
    rust_stemmers::Stemmer::create(rust_stemmers::Algorithm::English).stem(w).into_owned()
}

/// The English stem of a word.
pub fn stem_word(w: String) -> (r: String)
    ensures
        r@ == stem_of(w@),
{
    english_stem(w.as_str())
}

} // verus!
