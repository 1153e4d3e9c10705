//! The index store: per-document term tables, corpus-wide document
//! frequencies, and the staleness rules that decide what re-indexing does.

use vstd::prelude::*;

use crate::lexer::{lemma_next_token_shrinks, lemma_tokens_len, tokens_of, Lexer};
use crate::table::{lemma_sum_agree, lemma_sum_change, Table};
use crate::text::{chars_of, lowercase, lowercase_of};

verus! {

/// How often each term occurs in one document.
pub type TermFreq = Table<usize>;

/// In how many documents each term occurs.
pub type DocFreq = Table<usize>;

/// The indexed documents, by path.
pub type Docs = Table<Doc>;

/// A file modification time: whole seconds since the Unix epoch and the
/// nanoseconds past them.
#[derive(Clone, Copy, Debug, PartialEq, Eq, Structural)]
pub struct Timestamp {
    pub secs: u64,
    pub nanos: u32,
}

impl Timestamp {
    pub fn new(secs: u64, nanos: u32) -> (r: Self)
        ensures
            r.secs == secs,
            r.nanos == nanos,
    {
        Timestamp { secs, nanos }
    }

    /// `self` is strictly earlier than `other`.
    pub open spec fn precedes(self, other: Timestamp) -> bool {
        self.secs < other.secs || (self.secs == other.secs && self.nanos < other.nanos)
    }

    pub fn is_before(&self, other: &Timestamp) -> (r: bool)
        ensures
            r == self.precedes(*other),
    {
        self.secs < other.secs || (self.secs == other.secs && self.nanos < other.nanos)
    }
}

/// How many occurrences of `t` there are in `toks`.
pub open spec fn count_in(toks: Seq<Seq<char>>, t: Seq<char>) -> nat
    decreases toks.len(),
{
    if toks.len() == 0 {
        0
    } else {
        count_in(toks.drop_last(), t) + if toks.last() == t {
            1nat
        } else {
            0nat
        }
    }
}

pub proof fn lemma_count_in(toks: Seq<Seq<char>>, t: Seq<char>)
    ensures
        count_in(toks, t) <= toks.len(),
        toks.contains(t) <==> count_in(toks, t) > 0,
    decreases toks.len(),
{
    if toks.len() > 0 {
        lemma_count_in(toks.drop_last(), t);
        if toks.contains(t) && toks.last() != t {
            let i = toks.index_of(t);
            assert(toks.drop_last()[i] == t);
        }
        if toks.drop_last().contains(t) {
            let i = toks.drop_last().index_of(t);
            assert(toks[i] == t);
        }
    }
}

/// `tf` holds, for each term of `toks`, the number of its occurrences, and
/// no other term.
pub open spec fn tallies(tf: Map<Seq<char>, usize>, toks: Seq<Seq<char>>) -> bool {
    &&& forall|t: Seq<char>| #[trigger] tf.contains_key(t) <==> toks.contains(t)
    &&& forall|t: Seq<char>| #[trigger] tf.contains_key(t) ==> tf[t] == count_in(toks, t)
}

/// The terms of a document whose plain text is `text`: it is case-folded,
/// then tokenized.
pub open spec fn doc_terms(text: Seq<char>) -> Seq<Seq<char>> {
    tokens_of(lowercase_of(text))
}

/// The tally of an indexed document.
pub struct Doc {
    pub tf: TermFreq,
    pub count: usize,
    pub last_modified: Timestamp,
}

impl Doc {
    pub fn new(tf: TermFreq, count: usize, last_modified: Timestamp) -> (r: Self)
        ensures
            r.tf == tf,
            r.count == count,
            r.last_modified == last_modified,
    {
        Self { tf, count, last_modified }
    }

    /// A document fit for the index: `count` is the sum of the term counts,
    /// it is not zero, and every term that is listed occurs.
    pub open spec fn wf(&self) -> bool {
        &&& self.tf.wf()
        &&& self.count == self.tf.total()
        &&& self.count > 0
        &&& forall|t: Seq<char>| #[trigger] self.tf@.contains_key(t) ==> self.tf@[t] > 0
    }

    /// Whether the document is fit for the index.
    pub fn is_indexable(&self) -> (r: bool)
        ensures
            r == self.wf(),
    {
        let n = self.tf.len();
        proof {
            self.tf.lemma_keys();
        }
        match self.tf.checked_total() {
            None => false,
            Some(total) => {
                if total != self.count || self.count == 0 {
                    return false;
                }
                let mut i: usize = 0;
                while i < n
                    invariant
                        n == self.tf.key_seq().len(),
                        self.tf.wf(),
                        i <= n,
                        forall|j: int| 0 <= j < i ==> self.tf@[#[trigger] self.tf.key_seq()[j]] > 0,
                    decreases n - i,
                {
                    let (_, v) = self.tf.entry_at(i);
                    if *v == 0 {
                        return false;
                    }
                    i += 1;
                }
                proof {
                    assert forall|t: Seq<char>| #[trigger]
                        self.tf@.contains_key(t) implies self.tf@[t] > 0 by {
                        self.tf.lemma_keys();
                        assert(self.tf.key_seq().to_set().contains(t));
                        let j = self.tf.key_seq().index_of(t);
                        assert(self.tf.key_seq()[j] == t);
                    }
                }
                true
            },
        }
    }
}

/// Counts the terms of `content` and how often each occurs.
pub fn table_and_count_term_freq(content: Vec<char>) -> (r: (usize, TermFreq))
    ensures
        r.0 == tokens_of(content@).len(),
        tallies(r.1@, tokens_of(content@)),
        r.1.total() == r.0,
        r.1.wf(),
{
    let mut tf = TermFreq::new();
    let mut total_count_term_in_doc: usize = 0;
    let content_len = content.len();
    let mut lexer = Lexer::new(content.as_slice());
    let ghost all = tokens_of(content@);
    let ghost mut seen: Seq<Seq<char>> = seq![];
    proof {
        lemma_tokens_len(content@);
        assert(all == seen + lexer.remaining_tokens());
        tf.lemma_keys();
    }
    loop
        invariant
            all == tokens_of(content@),
            all == seen + lexer.remaining_tokens(),
            all.len() <= content@.len(),
            content_len == content@.len(),
            total_count_term_in_doc == seen.len(),
            tf.wf(),
            tallies(tf@, seen),
            tf.total() == seen.len(),
        ensures
            all == seen,
            total_count_term_in_doc == seen.len(),
            tf.wf(),
            tallies(tf@, seen),
            tf.total() == seen.len(),
        decreases lexer.rest().len(),
    {
        let ghost before = lexer.rest();
        proof {
            lemma_next_token_shrinks(before);
        }
        match lexer.next() {
            None => {
                assert(all =~= seen);
                break;
            },
            Some(term) => {
                let ghost t = term@;
                proof {
                    assert(all =~= seen.push(t) + lexer.remaining_tokens());
                    assert(seen.len() + 1 <= all.len());
                    lemma_count_in(seen, t);
                    tf.lemma_keys();
                }
                let ghost old_tf = tf@;
                let ghost old_keys = tf.key_seq();
                match tf.get(&term) {
                    Some(freq) => {
                        let f = *freq;
                        tf.insert(term, f + 1);
                        proof {
                            assert(old_keys.contains(t));
                            lemma_sum_change(old_keys, old_tf, t, (f + 1) as usize);
                        }
                    },
                    None => {
                        tf.insert(term, 1);
                        proof {
                            lemma_sum_agree(old_keys, old_tf, old_tf.insert(t, 1));
                            assert(tf.key_seq().drop_last() =~= old_keys);
                        }
                    },
                }
                total_count_term_in_doc += 1;
                proof {
                    let s2 = seen.push(t);
                    assert(s2.drop_last() =~= seen);
                    assert forall|x: Seq<char>| #[trigger] tf@.contains_key(x) <==> s2.contains(x) by {
                        if x == t {
                            assert(s2[seen.len() as int] == t);
                        } else if s2.contains(x) {
                            let i = s2.index_of(x);
                            assert(seen[i] == x);
                        }
                    }
                    seen = s2;
                }
            },
        }
    }
    (total_count_term_in_doc, tf)
}

/// What `std::path::Path::extension` returns for a path: the part of the
/// file name after its last `.`, if there is one.
pub uninterp spec fn extension_of(path: Seq<char>) -> Option<Seq<char>>;

/// Relies on `std::path::Path::extension`: the extension depends on the path
/// text alone. The path is UTF-8, so the extension converts to a `String`
/// without loss.
#[verifier::external_body]
fn path_extension(path: &str) -> (r: Option<String>)
    ensures
        match r {
            Some(e) => extension_of(path@) == Some(e@),
            None => extension_of(path@) is None,
        },
{
    std::path::Path::new(path).extension().map(|e| e.to_string_lossy().into_owned())
}

/// The extension of the files that are indexed.
pub open spec fn indexed_extension() -> Seq<char> {
    seq!['x', 'h', 't', 'm', 'l']
}

/// Files with this path are indexed; others are skipped.
pub open spec fn is_indexed_path(path: Seq<char>) -> bool {
    extension_of(path) == Some(indexed_extension())
}

/// Whether files with this path are indexed.
pub fn has_indexed_extension(path: &String) -> (r: bool)
    ensures
        r == is_indexed_path(path@),
{
    match path_extension(path.as_str()) {
        Some(ext) => {
            let wanted = String::from_str("xhtml");
            proof {
                reveal_strlit("xhtml");
                assert(wanted@ =~= indexed_extension());
            }
            ext == wanted
        },
        None => false,
    }
}

/// The tally of a file from its plain text, or `None` where files with such a
/// path are not indexed.
pub fn calculate_document_by_extension(path: &String, last_modified: Timestamp, text: &str) -> (r:
    Option<Doc>)
    ensures
        match r {
            Some(d) => {
                &&& is_indexed_path(path@)
                &&& d.last_modified == last_modified
                &&& d.count == doc_terms(text@).len()
                &&& tallies(d.tf@, doc_terms(text@))
                &&& d.count == d.tf.total()
                &&& d.tf.wf()
            },
            None => !is_indexed_path(path@),
        },
{
    if has_indexed_extension(path) {
        let content = chars_of(lowercase(text).as_str());
        let result = table_and_count_term_freq(content);
        let document = Doc::new(result.1, result.0, last_modified);
        Some(document)
    } else {
        None
    }
}

/// What one indexing pass did: files added, left alone, and re-indexed.
#[derive(Debug, Clone, Copy, PartialEq, Eq, Structural)]
pub struct CountCheck {
    pub add: usize,
    pub stable: usize,
    pub update: usize,
}

impl CountCheck {
    pub fn new() -> (r: Self)
        ensures
            r.add == 0,
            r.stable == 0,
            r.update == 0,
    {
        Self { add: 0, stable: 0, update: 0 }
    }
}

/// How a file stands against the index.
#[derive(Debug, Clone, Copy, PartialEq, Eq, Structural)]
pub enum DocumentState {
    /// Indexed, and the file changed since.
    Update,
    /// Indexed, and the file did not change since.
    Stable,
    /// Not indexed.
    Add,
}

/// How the file at `path`, last modified at `mtime`, stands against `docs`.
pub open spec fn classify(docs: Map<Seq<char>, Doc>, path: Seq<char>, mtime: Timestamp) -> DocumentState {
    if docs.contains_key(path) {
        if docs[path].last_modified.precedes(mtime) {
            DocumentState::Update
        } else {
            DocumentState::Stable
        }
    } else {
        DocumentState::Add
    }

}

/// `d`, stamped with the modification time `mtime`.
pub open spec fn stamped(d: Doc, mtime: Timestamp) -> Doc {
    Doc { tf: d.tf, count: d.count, last_modified: mtime }
}

/// `doc` is present and fit for the index.
pub open spec fn usable(doc: Option<Doc>) -> bool {
    doc is Some && doc->0.wf()
}

/// The documents after the file at `path`, last modified at `mtime` and
/// tallied as `doc`, has been indexed.
pub open spec fn docs_after(
    docs: Map<Seq<char>, Doc>,
    path: Seq<char>,
    mtime: Timestamp,
    doc: Option<Doc>,
) -> Map<Seq<char>, Doc> {
    match classify(docs, path, mtime) {
        DocumentState::Stable => docs,
        DocumentState::Add => if usable(doc) {
            docs.insert(path, stamped(doc->0, mtime))
        } else {
            docs
        },
        DocumentState::Update => if usable(doc) {
            docs.insert(path, stamped(doc->0, mtime))
        } else {
            docs.remove(path)
        },
    }
}

/// Indexing the file leaves the store exactly as it was.
pub open spec fn leaves_alone(docs: Map<Seq<char>, Doc>, path: Seq<char>, mtime: Timestamp, doc: Option<Doc>) -> bool {
    match classify(docs, path, mtime) {
        DocumentState::Stable => true,
        DocumentState::Add => !usable(doc),
        DocumentState::Update => false,
    }
}

/// The counts after the file has been indexed.
pub open spec fn counts_after(
    c: CountCheck,
    docs: Map<Seq<char>, Doc>,
    path: Seq<char>,
    mtime: Timestamp,
    doc: Option<Doc>,
) -> CountCheck {
    match classify(docs, path, mtime) {
        DocumentState::Stable => CountCheck { stable: (c.stable + 1) as usize, ..c },
        DocumentState::Add => if usable(doc) {
            CountCheck { add: (c.add + 1) as usize, ..c }
        } else {
            c
        },
        DocumentState::Update => CountCheck { update: (c.update + 1) as usize, ..c },
    }
}

/// The paths of the documents in which `t` occurs.
pub open spec fn holders(docs: Map<Seq<char>, Doc>, t: Seq<char>) -> Set<Seq<char>> {
    docs.dom().filter(|p: Seq<char>| docs[p].tf@.contains_key(t))
}

/// The document frequency that `df` records for `t`: absent counts as zero.
pub open spec fn df_value(df: Map<Seq<char>, usize>, t: Seq<char>) -> nat {
    if df.contains_key(t) {
        df[t] as nat
    } else {
        0
    }
}

/// Adding a document at a new path adds it to the holders of each of its terms.
pub proof fn lemma_holders_insert(docs: Map<Seq<char>, Doc>, p: Seq<char>, d: Doc, t: Seq<char>)
    requires
        docs.dom().finite(),
        !docs.contains_key(p),
    ensures
        holders(docs.insert(p, d), t) == if d.tf@.contains_key(t) {
            holders(docs, t).insert(p)
        } else {
            holders(docs, t)
        },
        holders(docs.insert(p, d), t).len() == holders(docs, t).len() + if d.tf@.contains_key(t) {
            1int
        } else {
            0int
        },
        holders(docs, t).len() <= docs.dom().len(),
{
    let f = |q: Seq<char>| docs[q].tf@.contains_key(t);
    docs.dom().lemma_len_filter(f);
    if d.tf@.contains_key(t) {
        assert(holders(docs.insert(p, d), t) =~= holders(docs, t).insert(p));
    } else {
        assert(holders(docs.insert(p, d), t) =~= holders(docs, t));
    }
}

/// Removing the document at a path removes it from the holders of each of its terms.
pub proof fn lemma_holders_remove(docs: Map<Seq<char>, Doc>, p: Seq<char>, t: Seq<char>)
    requires
        docs.dom().finite(),
        docs.contains_key(p),
    ensures
        holders(docs.remove(p), t) == holders(docs, t).remove(p),
        holders(docs.remove(p), t).len() == holders(docs, t).len() - if docs[p].tf@.contains_key(
            t,
        ) {
            1int
        } else {
            0int
        },
{
    let f = |q: Seq<char>| docs[q].tf@.contains_key(t);
    docs.dom().lemma_len_filter(f);
    assert(holders(docs.remove(p), t) =~= holders(docs, t).remove(p));
}

/// The index store.
pub struct Model {
    /// The tally of each indexed file, by path.
    pub docs: Docs,
    /// In how many indexed documents each term occurs.
    pub df: DocFreq,
}

impl Model {
    /// The store is consistent: every document is fit for the index, and the
    /// document frequency of every term is the number of documents in which
    /// it occurs.
    pub open spec fn wf(&self) -> bool {
        &&& self.docs.wf()
        &&& self.df.wf()
        &&& forall|p: Seq<char>| #[trigger] self.docs@.contains_key(p) ==> self.docs@[p].wf()
        &&& forall|t: Seq<char>| df_value(self.df@, t) == (#[trigger] holders(self.docs@, t)).len()
    }

    pub fn new() -> (r: Self)
        ensures
            r.wf(),
            r.docs@ == Map::<Seq<char>, Doc>::empty(),
            r.df@ == Map::<Seq<char>, usize>::empty(),
    {
        let r = Self { docs: Docs::new(), df: DocFreq::new() };
        proof {
            assert forall|t: Seq<char>| df_value(r.df@, t) == (#[trigger] holders(r.docs@, t)).len() by {
                assert(holders(r.docs@, t) =~= Set::empty());
            }
        }
        r
    }

    /// How the file at `path`, last modified at `current_last_modified`,
    /// stands against the index.
    pub fn check_document(&self, path: &String, current_last_modified: Timestamp) -> (r:
        DocumentState)
        ensures
            r == classify(self.docs@, path@, current_last_modified),
    {
        if let Some(doc) = self.docs.get(path) {
            if doc.last_modified.is_before(&current_last_modified) {
                return DocumentState::Update;
            } else {
                return DocumentState::Stable;
            }
        }
        DocumentState::Add
    }

    /// Indexes a document at a path that is not indexed yet.
    fn add_document(&mut self, path: String, doc: Doc)
        requires
            old(self).wf(),
            !old(self).docs@.contains_key(path@),
            doc.wf(),
            old(self).docs@.dom().len() < usize::MAX,
        ensures
            final(self).wf(),
            final(self).docs@ == old(self).docs@.insert(path@, doc),
    {
        let ghost docs0 = self.docs@;
        let ghost p = path@;
        proof {
            self.docs.lemma_keys();
            assert forall|t: Seq<char>| #[trigger] doc.tf@.contains_key(t) implies df_value(self.df@, t)
                < usize::MAX by {
                lemma_holders_insert(docs0, p, doc, t);
                assert(df_value(self.df@, t) == holders(docs0, t).len());
            }
        }
        increment_terms(&mut self.df, &doc.tf);
        self.docs.insert(path, doc);
        proof {
            use_type_invariant(&self.df);
            assert forall|q: Seq<char>| #[trigger] self.docs@.contains_key(q) implies self.docs@[q].wf() by {
                if q != p {
                    assert(docs0.contains_key(q));
                }
            }
            assert forall|t: Seq<char>| df_value(self.df@, t) == (#[trigger] holders(self.docs@, t)).len() by {
                lemma_holders_insert(docs0, p, doc, t);
                assert(df_value(old(self).df@, t) == holders(docs0, t).len());
            }
        }
    }

    /// Re-indexes the document at `path` from its new tally: the old tally
    /// leaves the index, and the new one takes its place where it is fit for
    /// the index.
    fn update_document(&mut self, path: String, new_doc: Option<Doc>)
        requires
            old(self).wf(),
            old(self).docs@.contains_key(path@),
        ensures
            final(self).wf(),
            final(self).docs@ == if usable(new_doc) {
                old(self).docs@.insert(path@, new_doc->0)
            } else {
                old(self).docs@.remove(path@)
            },
    {
        let ghost docs0 = self.docs@;
        let ghost p = path@;
        let _ = self.docs.len();
        proof {
            self.docs.lemma_keys();
        }
        let last_doc = self.docs.remove(&path);
        if let Some(last_doc) = last_doc {
            proof {
                assert(docs0[p].wf());
                assert forall|t: Seq<char>| #[trigger] last_doc.tf@.contains_key(t) implies df_value(
                    self.df@,
                    t,
                ) >= 1 by {
                    lemma_holders_remove(docs0, p, t);
                    assert(df_value(self.df@, t) == holders(docs0, t).len());
                }
            }
            decrement_terms(&mut self.df, &last_doc.tf);
        }
        proof {
            use_type_invariant(&self.df);
            assert forall|q: Seq<char>| #[trigger] self.docs@.contains_key(q) implies self.docs@[q].wf() by {
                assert(docs0.contains_key(q));
            }
            assert forall|t: Seq<char>| df_value(self.df@, t) == (#[trigger] holders(self.docs@, t)).len() by {
                lemma_holders_remove(docs0, p, t);
                assert(df_value(old(self).df@, t) == holders(docs0, t).len());
            }
            assert(self.docs@.dom() =~= docs0.dom().remove(p));
        }
        if let Some(new_doc) = new_doc {
            if new_doc.is_indexable() {
                self.add_document(path, new_doc);
            }
        }
    }
}

/// Indexes the file at `path`, last modified at `current_last_modified`, whose
/// tally is `doc` (`None` where the file is not indexed), and counts what was done.
///
/// A file that is not indexed yet is added where its tally is fit for the
/// index. An indexed file that changed since is re-indexed: its old tally
/// leaves the index, and the new one takes its place where it is fit. An
/// indexed file that did not change is left alone. A stored tally carries the
/// modification time it was indexed at.
pub fn index_file(
    model: &mut Model,
    path: String,
    current_last_modified: Timestamp,
    doc: Option<Doc>,
    counter: &mut CountCheck,
)
    requires
        old(model).wf(),
        old(model).docs@.dom().len() < usize::MAX,
        old(counter).add < usize::MAX,
        old(counter).stable < usize::MAX,
        old(counter).update < usize::MAX,
    ensures
        final(model).wf(),
        final(model).docs@ == docs_after(old(model).docs@, path@, current_last_modified, doc),
        leaves_alone(old(model).docs@, path@, current_last_modified, doc) ==> *final(model) == *old(
            model,
        ),
        *final(counter) == counts_after(
            *old(counter),
            old(model).docs@,
            path@,
            current_last_modified,
            doc,
        ),
{
    let doc = match doc {
        Some(mut d) => {
            d.last_modified = current_last_modified;
            Some(d)
        },
        None => None,
    };
    let document_state = model.check_document(&path, current_last_modified);

    match document_state {
        DocumentState::Add => {
            if let Some(doc) = doc {
                if doc.is_indexable() {
                    model.add_document(path, doc);
                    counter.add += 1;
                }
            }
        },
        DocumentState::Stable => {
            counter.stable += 1;
        },
        DocumentState::Update => {
            model.update_document(path, doc);
            counter.update += 1;
        },
    }
}

/// A file that changed after it was indexed is re-indexed from its new tally:
/// afterwards the document at its path is among the holders of exactly the
/// terms of the new tally, so its old terms no longer count it.
pub proof fn lemma_reindex_after_change(m: Model, path: Seq<char>, mtime: Timestamp, doc: Doc, t: Seq<char>)
    requires
        m.wf(),
        m.docs@.contains_key(path),
        m.docs@[path].last_modified.precedes(mtime),
        doc.wf(),
    ensures
        classify(m.docs@, path, mtime) == DocumentState::Update,
        holders(docs_after(m.docs@, path, mtime, Some(doc)), t) == if doc.tf@.contains_key(t) {
            holders(m.docs@, t).insert(path)
        } else {
            holders(m.docs@, t).remove(path)
        },
{
    let docs = m.docs@;
    m.docs.lemma_keys();
    let removed = docs.remove(path);
    assert(docs.insert(path, stamped(doc, mtime)) =~= removed.insert(path, stamped(doc, mtime)));
    lemma_holders_remove(docs, path, t);
    lemma_holders_insert(removed, path, stamped(doc, mtime), t);
    if doc.tf@.contains_key(t) {
        assert(holders(docs, t).remove(path).insert(path) =~= holders(docs, t).insert(path));
    }
}

/// Counts one more document for each term of `tf`.
fn increment_terms(df: &mut DocFreq, tf: &TermFreq)
    requires
        forall|t: Seq<char>| #[trigger] tf@.contains_key(t) ==> df_value(old(df)@, t) < usize::MAX,
    ensures
        forall|t: Seq<char>| #[trigger] df_value(final(df)@, t) == df_value(old(df)@, t) + if tf@.contains_key(t) {
            1nat
        } else {
            0nat
        },
{
    let n = tf.len();
    proof {
        tf.lemma_keys();
    }
    let mut i: usize = 0;
    while i < n
        invariant
            n == tf.key_seq().len(),
            tf.wf(),
            i <= n,
            forall|t: Seq<char>| #[trigger] tf@.contains_key(t) ==> df_value(old(df)@, t) < usize::MAX,
            forall|t: Seq<char>| #[trigger] df_value(df@, t) == df_value(old(df)@, t) + if tf.key_seq().take(i as int).contains(t) {
                1nat
            } else {
                0nat
            },
        decreases n - i,
    {
        let (term, _) = tf.entry_at(i);
        let ghost k = term@;
        proof {
            tf.lemma_keys();
            assert(!tf.key_seq().take(i as int).contains(k)) by {
                if tf.key_seq().take(i as int).contains(k) {
                    let j = tf.key_seq().take(i as int).index_of(k);
                    assert(tf.key_seq()[j] == tf.key_seq()[i as int]);
                }
            }
        }
        let ghost before = df@;
        assert(df_value(before, k) == df_value(old(df)@, k));
        match df.get(term) {
            Some(freq) => {
                let f = *freq;
                df.insert(term.clone(), f + 1);
            },
            None => {
                df.insert(term.clone(), 1);
            },
        }
        assert(df_value(df@, k) == df_value(before, k) + 1);
        assert forall|x: Seq<char>| x != k implies #[trigger] df_value(df@, x) == df_value(before, x) by {
            assert(df@.contains_key(x) == before.contains_key(x));
        }
        proof {
            assert forall|x: Seq<char>| #[trigger] tf.key_seq().take(i + 1).contains(x)
                == (tf.key_seq().take(i as int).contains(x) || x == k) by {
                if x == k {
                    assert(tf.key_seq().take(i + 1)[i as int] == k);
                } else if tf.key_seq().take(i + 1).contains(x) {
                    let j = tf.key_seq().take(i + 1).index_of(x);
                    assert(tf.key_seq().take(i as int)[j] == x);
                } else if tf.key_seq().take(i as int).contains(x) {
                    let j = tf.key_seq().take(i as int).index_of(x);
                    assert(tf.key_seq().take(i + 1)[j] == x);
                }
            }
        }
        i += 1;
    }
    proof {
        assert(tf.key_seq().take(n as int) =~= tf.key_seq());
        assert forall|t: Seq<char>| #[trigger] tf.key_seq().contains(t) == tf@.contains_key(t) by {
            tf.lemma_keys();
            assert(tf.key_seq().to_set().contains(t) == tf.key_seq().contains(t));
        }
    }
}

/// Counts one document fewer for each term of `tf`.
fn decrement_terms(df: &mut DocFreq, tf: &TermFreq)
    requires
        forall|t: Seq<char>| #[trigger] tf@.contains_key(t) ==> df_value(old(df)@, t) >= 1,
    ensures
        forall|t: Seq<char>| #[trigger] df_value(final(df)@, t) == df_value(old(df)@, t) - if tf@.contains_key(t) {
            1nat
        } else {
            0nat
        },
{
    let n = tf.len();
    proof {
        tf.lemma_keys();
    }
    let mut i: usize = 0;
    while i < n
        invariant
            n == tf.key_seq().len(),
            tf.wf(),
            i <= n,
            forall|t: Seq<char>| #[trigger] tf@.contains_key(t) ==> df_value(old(df)@, t) >= 1,
            forall|t: Seq<char>| #[trigger] df_value(df@, t) == df_value(old(df)@, t) - if tf.key_seq().take(i as int).contains(t) {
                1nat
            } else {
                0nat
            },
        decreases n - i,
    {
        let (term, _) = tf.entry_at(i);
        let ghost k = term@;
        proof {
            tf.lemma_keys();
            assert(!tf.key_seq().take(i as int).contains(k)) by {
                if tf.key_seq().take(i as int).contains(k) {
                    let j = tf.key_seq().take(i as int).index_of(k);
                    assert(tf.key_seq()[j] == tf.key_seq()[i as int]);
                }
            }
        }
        let ghost before = df@;
        assert(df_value(before, k) == df_value(old(df)@, k));
        if let Some(freq) = df.get(term) {
            let f = *freq;
            df.insert(term.clone(), f - 1);
        }
        assert(df_value(df@, k) == df_value(before, k) - 1);
        assert forall|x: Seq<char>| x != k implies #[trigger] df_value(df@, x) == df_value(before, x) by {
            assert(df@.contains_key(x) == before.contains_key(x));
        }
        proof {
            assert forall|x: Seq<char>| #[trigger] tf.key_seq().take(i + 1).contains(x)
                == (tf.key_seq().take(i as int).contains(x) || x == k) by {
                if x == k {
                    assert(tf.key_seq().take(i + 1)[i as int] == k);
                } else if tf.key_seq().take(i + 1).contains(x) {
                    let j = tf.key_seq().take(i + 1).index_of(x);
                    assert(tf.key_seq().take(i as int)[j] == x);
                } else if tf.key_seq().take(i as int).contains(x) {
                    let j = tf.key_seq().take(i as int).index_of(x);
                    assert(tf.key_seq().take(i + 1)[j] == x);
                }
            }
        }
        i += 1;
    }
    proof {
        assert(tf.key_seq().take(n as int) =~= tf.key_seq());
        assert forall|t: Seq<char>| #[trigger] tf.key_seq().contains(t) == tf@.contains_key(t) by {
            tf.lemma_keys();
            assert(tf.key_seq().to_set().contains(t) == tf.key_seq().contains(t));
        }
    }
}

} // verus!
