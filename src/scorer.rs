//! The exact, integer side of TF-IDF scoring.
//!
//! The term frequency of `t` in a document is the fraction `count / total`;
//! the inverse document frequency of `t` is the base-2 logarithm of the
//! fraction `n / df`. This module computes those numerators and denominators
//! for every document and query term; taking the quotients and logarithms,
//! summing, and ordering by score is floating-point work left to the caller.

use vstd::prelude::*;

use crate::lexer::{lemma_next_token_shrinks, tokens_of, Lexer};
use crate::model::{Doc, DocFreq, Model};
use crate::table::lemma_sum_bound;

verus! {

/// How often `t` occurs in `doc`: zero where it does not occur.
pub open spec fn occurrences(doc: Doc, t: Seq<char>) -> nat {
    if doc.tf@.contains_key(t) {
        doc.tf@[t] as nat
    } else {
        0
    }
}

/// The document frequency that enters the IDF of `t`: a term that `df` does
/// not list, or lists as zero, counts as occurring in one document.
pub open spec fn idf_denominator(df: Map<Seq<char>, usize>, t: Seq<char>) -> nat {
    if df.contains_key(t) && df[t] >= 1 {
        df[t] as nat
    } else {
        1
    }
}

/// The two fractions that score one query term against one document.
#[derive(Debug, Clone, Copy, PartialEq, Eq, Structural)]
pub struct TermFactors {
    /// Occurrences of the term in the document.
    pub count: usize,
    /// Occurrences of all terms in the document.
    pub total: usize,
    /// Documents in the index.
    pub n: usize,
    /// Documents in which the term occurs, at least one.
    pub df: usize,
}

/// The factors of every query term against one document.
pub struct DocScoreFactors {
    pub path: String,
    pub terms: Vec<TermFactors>,
}

/// The factors that score `t` against `doc` in an index of `n` documents
/// with document frequencies `df`.
pub open spec fn factors_of(doc: Doc, t: Seq<char>, n: nat, df: Map<Seq<char>, usize>) -> TermFactors {
    TermFactors {
        count: occurrences(doc, t) as usize,
        total: doc.count,
        n: n as usize,
        df: idf_denominator(df, t) as usize,
    }
}

/// The term frequency of `t` in `document`, as numerator and denominator.
pub fn term_frequency_parts(t: &String, document: &Doc) -> (r: (usize, usize))
    ensures
        r.0 == occurrences(*document, t@),
        r.1 == document.count,
{
    let count_term_in_doc = match document.tf.get(t) {
        Some(c) => *c,
        None => 0,
    };
    (count_term_in_doc, document.count)
}

/// The inverse document frequency of `t` among `n` documents, as the
/// numerator and denominator of the fraction whose logarithm it is.
pub fn inverse_document_frequency_parts(t: &String, n: usize, df: &DocFreq) -> (r: (usize, usize))
    ensures
        r.0 == n,
        r.1 == idf_denominator(df@, t@),
{
    let total_count_for_term_in_document = match df.get(t) {
        Some(c) => *c,
        None => 1,
    };
    if total_count_for_term_in_document >= 1 {
        (n, total_count_for_term_in_document)
    } else {
        (n, 1)
    }
}

/// The terms of a query, tokenized as documents are.
pub fn query_terms(query: &[char]) -> (r: Vec<String>)
    ensures
        r@.map_values(|s: String| s@) == tokens_of(query@),
{
    let mut out: Vec<String> = Vec::new();
    let mut lexer = Lexer::new(query);
    loop
        invariant
            tokens_of(query@) == out@.map_values(|s: String| s@) + lexer.remaining_tokens(),
        ensures
            tokens_of(query@) == out@.map_values(|s: String| s@),
        decreases lexer.rest().len(),
    {
        let ghost before = lexer.rest();
        let ghost seen = out@.map_values(|s: String| s@);
        proof {
            lemma_next_token_shrinks(before);
        }
        match lexer.next() {
            None => {
                assert(tokens_of(query@) =~= seen);
                break;
            },
            Some(term) => {
                let ghost t = term@;
                out.push(term);
                assert(out@.map_values(|s: String| s@) =~= seen.push(t));
                assert(tokens_of(query@) =~= seen.push(t) + lexer.remaining_tokens());
            },
        }
    }
    out
}

/// The factors of every query term against every indexed document, in the
/// order in which the index stores the documents.
pub fn score_factors(model: &Model, query: &[char]) -> (r: Vec<DocScoreFactors>)
    ensures
        model.docs.wf(),
        r@.len() == model.docs.key_seq().len(),
        forall|i: int|
            0 <= i < r@.len() ==> {
                let d = #[trigger] r@[i];
                &&& d.path@ == model.docs.key_seq()[i]
                &&& d.terms@.len() == tokens_of(query@).len()
                &&& forall|j: int|
                    0 <= j < d.terms@.len() ==> #[trigger] d.terms@[j] == factors_of(
                        model.docs@[d.path@],
                        tokens_of(query@)[j],
                        model.docs@.dom().len(),
                        model.df@,
                    )
            },
{
    let terms = query_terms(query);
    let ghost q = tokens_of(query@);
    let n = model.docs.len();
    let mut out: Vec<DocScoreFactors> = Vec::new();
    let mut i: usize = 0;
    while i < n
        invariant
            model.docs.wf(),
            n == model.docs.key_seq().len(),
            n == model.docs@.dom().len(),
            terms@.map_values(|s: String| s@) == q,
            i <= n,
            out@.len() == i,
            forall|k: int|
                0 <= k < i ==> {
                    let d = #[trigger] out@[k];
                    &&& d.path@ == model.docs.key_seq()[k]
                    &&& d.terms@.len() == q.len()
                    &&& forall|j: int|
                        0 <= j < d.terms@.len() ==> #[trigger] d.terms@[j] == factors_of(
                            model.docs@[d.path@],
                            q[j],
                            model.docs@.dom().len(),
                            model.df@,
                        )
                },
        decreases n - i,
    {
        let (path, doc) = model.docs.entry_at(i);
        let mut row: Vec<TermFactors> = Vec::new();
        let mut j: usize = 0;
        while j < terms.len()
            invariant
                terms@.map_values(|s: String| s@) == q,
                j <= terms@.len(),
                row@.len() == j,
                model.docs@[path@] == *doc,
                n == model.docs@.dom().len(),
                forall|k: int|
                    0 <= k < j ==> #[trigger] row@[k] == factors_of(*doc, q[k], n as nat, model.df@),
            decreases terms@.len() - j,
        {
            let t = &terms[j];
            proof {
                assert(q[j as int] == terms@[j as int]@);
            }
            let (count, total) = term_frequency_parts(t, doc);
            let (docs_n, df) = inverse_document_frequency_parts(t, n, &model.df);
            row.push(TermFactors { count, total, n: docs_n, df });
            j += 1;
        }
        out.push(DocScoreFactors { path: path.clone(), terms: row });
        i += 1;
    }
    out
}

/// A term occurs in a document fit for the index at most as often as all
/// terms together, which is at least once; a term that the document does not
/// list occurs zero times. So the term frequency `count / total` lies between
/// 0 and 1, and is 0 for an absent term.
pub proof fn lemma_tf_bounds(doc: Doc, t: Seq<char>)
    requires
        doc.wf(),
    ensures
        0 <= occurrences(doc, t) <= doc.count,
        doc.count > 0,
        !doc.tf@.contains_key(t) ==> occurrences(doc, t) == 0,
{
    if doc.tf@.contains_key(t) {
        doc.tf.lemma_keys();
        assert(doc.tf.key_seq().to_set().contains(t));
        lemma_sum_bound(doc.tf.key_seq(), doc.tf@, t);
    }
}

/// Among a fixed, non-zero number of documents, raising the document
/// frequency of a term strictly lowers the fraction `n / df` whose base-2
/// logarithm is its IDF: with `df2 > df1`, `n / df2 < n / df1`, written here
/// with the denominators multiplied out.
pub proof fn lemma_idf_ratio_decreases(n: nat, df: Map<Seq<char>, usize>, t: Seq<char>, higher: usize)
    requires
        n > 0,
        higher > idf_denominator(df, t),
    ensures
        idf_denominator(df.insert(t, higher), t) == higher,
        n * idf_denominator(df.insert(t, higher), t) > n * idf_denominator(df, t),
{
    let lower = idf_denominator(df, t);
    assert(n * higher > n * lower) by (nonlinear_arith)
        requires
            n > 0,
            higher > lower,
    ;
}

} // verus!
