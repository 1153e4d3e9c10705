use search_engine::index::{begin_index, FileEntry};
use search_engine::model::{
    calculate_document_by_extension, has_indexed_extension, index_file,
    table_and_count_term_freq, CountCheck, Doc, DocumentState, Model, TermFreq, Timestamp,
};

fn doc_of(path: &str, secs: u64, text: &str) -> Option<Doc> {
    calculate_document_by_extension(&path.to_string(), Timestamp::new(secs, 0), text)
}

fn df_of(model: &Model, term: &str) -> usize {
    model.df.get(&term.to_string()).copied().unwrap_or(0)
}

fn index(model: &mut Model, path: &str, secs: u64, text: &str, counter: &mut CountCheck) {
    let doc = doc_of(path, secs, text);
    index_file(model, path.to_string(), Timestamp::new(secs, 0), doc, counter);
}

fn entry(path: &str, secs: u64, text: &str) -> FileEntry {
    FileEntry {
        path: path.to_string(),
        last_modified: Timestamp::new(secs, 0),
        doc: doc_of(path, secs, text),
    }
}

#[test]
fn timestamps_order_by_seconds_then_nanoseconds() {
    let a = Timestamp::new(10, 5);
    assert!(a.is_before(&Timestamp::new(11, 0)));
    assert!(a.is_before(&Timestamp::new(10, 6)));
    assert!(!a.is_before(&Timestamp::new(10, 5)));
    assert!(!a.is_before(&Timestamp::new(9, 999)));
}

#[test]
fn term_table_counts_each_term() {
    let (count, tf) = table_and_count_term_freq("the cat saw the cats".chars().collect());
    assert_eq!(count, 5);
    assert_eq!(tf.len(), 3);
    assert_eq!(tf.get(&"the".to_string()), Some(&2));
    assert_eq!(tf.get(&"cat".to_string()), Some(&2));
    assert_eq!(tf.get(&"saw".to_string()), Some(&1));
    assert_eq!(tf.checked_total(), Some(5));
}

#[test]
fn only_xhtml_files_are_indexed() {
    assert!(has_indexed_extension(&"docs/a.xhtml".to_string()));
    assert!(!has_indexed_extension(&"docs/a.txt".to_string()));
    assert!(!has_indexed_extension(&"docs/xhtml".to_string()));
    assert!(!has_indexed_extension(&"docs/.xhtml".to_string()));
    assert!(doc_of("a.txt", 1, "the cat").is_none());
}

#[test]
fn documents_are_case_folded() {
    let doc = doc_of("a.xhtml", 7, "The CAT The").unwrap();
    assert_eq!(doc.count, 3);
    assert_eq!(doc.tf.get(&"the".to_string()), Some(&2));
    assert_eq!(doc.tf.get(&"cat".to_string()), Some(&1));
    assert_eq!(doc.tf.get(&"The".to_string()), None);
    assert_eq!(doc.last_modified, Timestamp::new(7, 0));
    assert!(doc.is_indexable());
}

#[test]
fn empty_document_is_not_indexable() {
    let doc = doc_of("a.xhtml", 1, "   ").unwrap();
    assert_eq!(doc.count, 0);
    assert!(!doc.is_indexable());
    let mut model = Model::new();
    let mut counter = CountCheck::new();
    index_file(&mut model, "a.xhtml".to_string(), Timestamp::new(1, 0), Some(doc), &mut counter);
    assert_eq!(model.docs.len(), 0);
    assert_eq!(counter, CountCheck::new());
}

#[test]
fn inconsistent_document_is_not_indexable() {
    let (_, tf) = table_and_count_term_freq("a b".chars().collect());
    assert!(!Doc::new(tf, 3, Timestamp::new(1, 0)).is_indexable());
    let empty = TermFreq::new();
    assert!(!Doc::new(empty, 0, Timestamp::new(1, 0)).is_indexable());
}

#[test]
fn classification_follows_modification_time() {
    let mut model = Model::new();
    let mut counter = CountCheck::new();
    let path = "a.xhtml".to_string();
    assert_eq!(model.check_document(&path, Timestamp::new(5, 0)), DocumentState::Add);
    index(&mut model, "a.xhtml", 5, "the cat", &mut counter);
    assert_eq!(model.check_document(&path, Timestamp::new(5, 0)), DocumentState::Stable);
    assert_eq!(model.check_document(&path, Timestamp::new(4, 0)), DocumentState::Stable);
    assert_eq!(model.check_document(&path, Timestamp::new(5, 1)), DocumentState::Update);
}

#[test]
fn add_counts_each_distinct_term_once() {
    let mut model = Model::new();
    let mut counter = CountCheck::new();
    index(&mut model, "1.xhtml", 1, "the cat sat", &mut counter);
    index(&mut model, "2.xhtml", 1, "the dog sat the", &mut counter);
    assert_eq!(counter, CountCheck { add: 2, stable: 0, update: 0 });
    assert_eq!(model.docs.len(), 2);
    assert_eq!(df_of(&model, "the"), 2);
    assert_eq!(df_of(&model, "sat"), 2);
    assert_eq!(df_of(&model, "cat"), 1);
    assert_eq!(df_of(&model, "dog"), 1);
    assert_eq!(df_of(&model, "bird"), 0);
}

#[test]
fn unsupported_file_is_skipped_and_not_counted() {
    let mut model = Model::new();
    let mut counter = CountCheck::new();
    index(&mut model, "notes.txt", 1, "the cat", &mut counter);
    assert_eq!(model.docs.len(), 0);
    assert_eq!(model.df.len(), 0);
    assert_eq!(counter, CountCheck { add: 0, stable: 0, update: 0 });
}

#[test]
fn reindex_after_modification_moves_document_frequencies() {
    let mut model = Model::new();
    let mut counter = CountCheck::new();
    index(&mut model, "d.xhtml", 10, "the cat sat", &mut counter);
    index(&mut model, "e.xhtml", 10, "the cat", &mut counter);
    assert_eq!(df_of(&model, "sat"), 1);
    assert_eq!(df_of(&model, "cat"), 2);

    index(&mut model, "d.xhtml", 20, "the dog ran", &mut counter);
    assert_eq!(counter, CountCheck { add: 2, stable: 0, update: 1 });
    assert_eq!(df_of(&model, "sat"), 0);
    assert_eq!(df_of(&model, "cat"), 1);
    assert_eq!(df_of(&model, "the"), 2);
    assert_eq!(df_of(&model, "dog"), 1);
    assert_eq!(df_of(&model, "ran"), 1);
    let d = model.docs.get(&"d.xhtml".to_string()).unwrap();
    assert_eq!(d.last_modified, Timestamp::new(20, 0));
    assert_eq!(d.tf.get(&"sat".to_string()), None);
}

#[test]
fn update_to_empty_content_drops_the_document() {
    let mut model = Model::new();
    let mut counter = CountCheck::new();
    index(&mut model, "d.xhtml", 1, "cat", &mut counter);
    index(&mut model, "d.xhtml", 2, "", &mut counter);
    assert_eq!(counter, CountCheck { add: 1, stable: 0, update: 1 });
    assert_eq!(model.docs.len(), 0);
    assert_eq!(df_of(&model, "cat"), 0);
}

#[test]
fn stored_document_carries_the_indexing_time() {
    let mut model = Model::new();
    let mut counter = CountCheck::new();
    let doc = doc_of("d.xhtml", 3, "cat");
    index_file(&mut model, "d.xhtml".to_string(), Timestamp::new(9, 9), doc, &mut counter);
    let d = model.docs.get(&"d.xhtml".to_string()).unwrap();
    assert_eq!(d.last_modified, Timestamp::new(9, 9));
}

#[test]
fn indexing_twice_finds_everything_stable() {
    let corpus = [("a.xhtml", 1, "the cat sat"), ("b.xhtml", 2, "the dog"), ("c.txt", 3, "x")];
    let files = |_: ()| corpus.iter().map(|(p, t, s)| entry(p, *t, s)).collect::<Vec<_>>();
    let mut model = Model::new();
    let first = begin_index(&mut model, files(()));
    assert_eq!(first, CountCheck { add: 2, stable: 0, update: 0 });
    let df_before: Vec<usize> = ["the", "cat", "sat", "dog"].iter().map(|t| df_of(&model, t)).collect();
    let second = begin_index(&mut model, files(()));
    assert_eq!(second, CountCheck { add: 0, stable: 2, update: 0 });
    let df_after: Vec<usize> = ["the", "cat", "sat", "dog"].iter().map(|t| df_of(&model, t)).collect();
    assert_eq!(df_before, df_after);
    assert_eq!(df_after, vec![2, 1, 1, 1]);
    assert_eq!(model.docs.len(), 2);
}

#[test]
fn pass_with_a_changed_file_updates_only_that_file() {
    let mut model = Model::new();
    begin_index(&mut model, vec![entry("a.xhtml", 1, "cat"), entry("b.xhtml", 1, "dog")]);
    let counts = begin_index(&mut model, vec![entry("a.xhtml", 2, "bird"), entry("b.xhtml", 1, "dog")]);
    assert_eq!(counts, CountCheck { add: 0, stable: 1, update: 1 });
    assert_eq!(df_of(&model, "cat"), 0);
    assert_eq!(df_of(&model, "bird"), 1);
    assert_eq!(df_of(&model, "dog"), 1);
}
