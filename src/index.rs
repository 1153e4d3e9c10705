//! An indexing pass over a list of files, and what running one twice does.

use vstd::prelude::*;

use crate::model::{
    counts_after, docs_after, index_file, leaves_alone, CountCheck, Doc, Model, Timestamp,
};

verus! {

/// One file of a corpus, as seen by an indexing pass: its path, its
/// modification time, and its tally (`None` where the file is not indexed).
pub struct FileEntry {
    pub path: String,
    pub last_modified: Timestamp,
    pub doc: Option<Doc>,
}

/// The documents after indexing `files` in order, starting from `docs`.
pub open spec fn pass_docs(docs: Map<Seq<char>, Doc>, files: Seq<FileEntry>) -> Map<Seq<char>, Doc>
    decreases files.len(),
{
    if files.len() == 0 {
        docs
    } else {
        let f = files.last();
        docs_after(pass_docs(docs, files.drop_last()), f.path@, f.last_modified, f.doc)
    }
}

/// The counts after indexing `files` in order, starting from `docs` and `c`.
pub open spec fn pass_counts(c: CountCheck, docs: Map<Seq<char>, Doc>, files: Seq<FileEntry>) -> CountCheck
    decreases files.len(),
{
    if files.len() == 0 {
        c
    } else {
        let f = files.last();
        counts_after(
            pass_counts(c, docs, files.drop_last()),
            pass_docs(docs, files.drop_last()),
            f.path@,
            f.last_modified,
            f.doc,
        )
    }
}

/// Every file of `files`, checked against `docs`, leaves the store alone.
pub open spec fn pass_leaves_alone(docs: Map<Seq<char>, Doc>, files: Seq<FileEntry>) -> bool {
    forall|i: int|
        0 <= i < files.len() ==> leaves_alone(
            docs,
            (#[trigger] files[i]).path@,
            files[i].last_modified,
            files[i].doc,
        )
}

/// No two files have the same path.
pub open spec fn distinct_paths(files: Seq<FileEntry>) -> bool {
    forall|i: int, j: int|
        0 <= i < j < files.len() ==> (#[trigger] files[i]).path@ != (#[trigger] files[j]).path@
}

/// How many of `files` have a document in `docs`.
pub open spec fn present_count(docs: Map<Seq<char>, Doc>, files: Seq<FileEntry>) -> nat
    decreases files.len(),
{
    if files.len() == 0 {
        0
    } else {
        present_count(docs, files.drop_last()) + if docs.contains_key(files.last().path@) {
            1nat
        } else {
            0nat
        }
    }
}

pub open spec fn zero_counts() -> CountCheck {
    CountCheck { add: 0, stable: 0, update: 0 }
}

/// Indexes `files` in order, one file at a time, and counts what was done.
pub fn begin_index(model: &mut Model, files: Vec<FileEntry>) -> (r: CountCheck)
    requires
        old(model).wf(),
        old(model).docs@.dom().len() + files@.len() < usize::MAX,
    ensures
        final(model).wf(),
        final(model).docs@ == pass_docs(old(model).docs@, files@),
        r == pass_counts(zero_counts(), old(model).docs@, files@),
        pass_leaves_alone(old(model).docs@, files@) ==> *final(model) == *old(model),
{
    let mut counter = CountCheck::new();
    let ghost all = files@;
    let ghost docs0 = model.docs@;
    let mut rest = files;
    let ghost mut i: int = 0;
    let _ = model.docs.len();
    while rest.len() > 0
        invariant
            0 <= i <= all.len(),
            rest@ == all.skip(i),
            model.wf(),
            model.docs@ == pass_docs(docs0, all.take(i)),
            counter == pass_counts(zero_counts(), docs0, all.take(i)),
            counter.add + counter.stable + counter.update <= i,
            model.docs@.dom().len() <= docs0.dom().len() + i,
            docs0.dom().len() + all.len() < usize::MAX,
            docs0 == old(model).docs@,
            pass_leaves_alone(docs0, all.take(i)) ==> *model == *old(model),
        decreases rest@.len(),
    {
        let entry = rest.remove(0);
        proof {
            assert(entry == all[i]);
            assert(all.take(i + 1).drop_last() =~= all.take(i));
            assert(all.take(i + 1).last() == all[i]);
            let d = model.docs@;
            let p = entry.path@;
            model.docs.lemma_keys();
            if docs_after(d, p, entry.last_modified, entry.doc).contains_key(p) && !d.contains_key(p) {
                assert(docs_after(d, p, entry.last_modified, entry.doc).dom() =~= d.dom().insert(p));
            } else if d.contains_key(p) {
                assert(docs_after(d, p, entry.last_modified, entry.doc).dom().subset_of(d.dom()));
                vstd::set_lib::lemma_len_subset(
                    docs_after(d, p, entry.last_modified, entry.doc).dom(),
                    d.dom(),
                );
            }
            if pass_leaves_alone(docs0, all.take(i + 1)) {
                assert(all.take(i + 1)[i] == all[i]);
                assert forall|j: int| 0 <= j < i implies leaves_alone(
                    docs0,
                    (#[trigger] all.take(i)[j]).path@,
                    all.take(i)[j].last_modified,
                    all.take(i)[j].doc,
                ) by {
                    assert(all.take(i)[j] == all.take(i + 1)[j]);
                }
            }
        }
        index_file(model, entry.path, entry.last_modified, entry.doc, &mut counter);
        proof {
            i = i + 1;
            assert(rest@ =~= all.skip(i));
        }
    }
    proof {
        assert(all.take(i) =~= all);
    }
    counter
}

/// After a pass over files with distinct paths, each of those files, checked
/// against the result, leaves the store alone.
pub proof fn lemma_pass_settles(docs: Map<Seq<char>, Doc>, files: Seq<FileEntry>, i: int)
    requires
        distinct_paths(files),
        0 <= i < files.len(),
    ensures
        leaves_alone(pass_docs(docs, files), files[i].path@, files[i].last_modified, files[i].doc),
    decreases files.len(),
{
    let n = files.len() - 1;
    let prev = pass_docs(docs, files.drop_last());
    let f = files.last();
    if i < n {
        assert(distinct_paths(files.drop_last())) by {
            assert forall|a: int, b: int| 0 <= a < b < files.drop_last().len() implies (
            #[trigger] files.drop_last()[a]).path@ != (#[trigger] files.drop_last()[b]).path@ by {
                assert(files.drop_last()[a] == files[a]);
                assert(files.drop_last()[b] == files[b]);
            }
        }
        lemma_pass_settles(docs, files.drop_last(), i);
        assert(files.drop_last()[i] == files[i]);
        assert(files[i].path@ != files[n].path@);
    }
}

/// A pass in which every file leaves the store alone changes nothing and
/// counts each file that has a document as stable.
pub proof fn lemma_quiet_pass(docs: Map<Seq<char>, Doc>, files: Seq<FileEntry>, c: CountCheck)
    requires
        pass_leaves_alone(docs, files),
        c.stable + files.len() <= usize::MAX,
    ensures
        pass_docs(docs, files) == docs,
        pass_counts(c, docs, files) == (CountCheck {
            stable: (c.stable + present_count(docs, files)) as usize,
            ..c
        }),
        present_count(docs, files) <= files.len(),
    decreases files.len(),
{
    if files.len() > 0 {
        let n = files.len() - 1;
        assert(pass_leaves_alone(docs, files.drop_last())) by {
            assert forall|i: int| 0 <= i < files.drop_last().len() implies leaves_alone(
                docs,
                (#[trigger] files.drop_last()[i]).path@,
                files.drop_last()[i].last_modified,
                files.drop_last()[i].doc,
            ) by {
                assert(files.drop_last()[i] == files[i]);
            }
        }
        lemma_quiet_pass(docs, files.drop_last(), c);
        assert(files.last() == files[n]);
    }
}

/// Indexing the same files a second time, with no file changed in between,
/// adds nothing, re-indexes nothing, counts every indexed file as stable, and
/// leaves the store exactly as the first pass left it.
pub proof fn lemma_index_twice(docs: Map<Seq<char>, Doc>, files: Seq<FileEntry>)
    requires
        distinct_paths(files),
        files.len() <= usize::MAX,
    ensures
        ({
            let first = pass_docs(docs, files);
            &&& pass_leaves_alone(first, files)
            &&& pass_docs(first, files) == first
            &&& pass_counts(zero_counts(), first, files) == (CountCheck {
                add: 0,
                stable: present_count(first, files) as usize,
                update: 0,
            })
        }),
{
    let first = pass_docs(docs, files);
    assert forall|i: int| 0 <= i < files.len() implies leaves_alone(
        first,
        (#[trigger] files[i]).path@,
        files[i].last_modified,
        files[i].doc,
    ) by {
        lemma_pass_settles(docs, files, i);
    }
    lemma_quiet_pass(first, files, zero_counts());
}

} // verus!
