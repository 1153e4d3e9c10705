use search_engine::index::{begin_index, FileEntry};
use search_engine::model::{calculate_document_by_extension, Model, Timestamp};
use search_engine::scorer::{
    inverse_document_frequency_parts, score_factors, term_frequency_parts, DocScoreFactors,
};

fn corpus() -> Model {
    let files = [("doc1.xhtml", "the cat sat"), ("doc2.xhtml", "the dog sat"), ("doc3.xhtml", "the cat ran")]
        .iter()
        .map(|(p, s)| FileEntry {
            path: p.to_string(),
            last_modified: Timestamp::new(1, 0),
            doc: calculate_document_by_extension(&p.to_string(), Timestamp::new(1, 0), s),
        })
        .collect();
    let mut model = Model::new();
    begin_index(&mut model, files);
    model
}

fn score(row: &DocScoreFactors) -> f32 {
    row.terms
        .iter()
        .map(|f| (f.count as f32 / f.total as f32) * (f.n as f32 / f.df as f32).log2())
        .sum()
}

fn scores(model: &Model, query: &str) -> Vec<(String, f32)> {
    let q: Vec<char> = query.chars().collect();
    let mut out: Vec<(String, f32)> =
        score_factors(model, &q).iter().map(|r| (r.path.clone(), score(r))).collect();
    out.sort_by(|a, b| b.1.partial_cmp(&a.1).unwrap().then(a.0.cmp(&b.0)));
    out
}

#[test]
fn query_cat_ranks_cat_documents_first() {
    let model = corpus();
    let ranked = scores(&model, "cat");
    assert_eq!(ranked.len(), 3);
    assert_eq!(ranked[0].0, "doc1.xhtml");
    assert_eq!(ranked[1].0, "doc3.xhtml");
    assert_eq!(ranked[2].0, "doc2.xhtml");
    assert_eq!(ranked[2].1, 0.0);
    assert!(ranked[1].1 > 0.0);
    let expected = (1.0f32 / 3.0) * (3.0f32 / 2.0).log2();
    assert!((ranked[0].1 - expected).abs() < 1e-6);
}

#[test]
fn query_on_a_term_in_every_document_scores_zero() {
    let model = corpus();
    let q: Vec<char> = "the".chars().collect();
    let rows = score_factors(&model, &q);
    assert_eq!(rows.len(), 3);
    for row in rows.iter() {
        assert_eq!(row.terms.len(), 1);
        assert_eq!((row.terms[0].n, row.terms[0].df), (3, 3));
        assert_eq!((row.terms[0].count, row.terms[0].total), (1, 3));
        assert_eq!(score(row), 0.0);
    }
}

#[test]
fn unseen_query_term_counts_as_in_one_document() {
    let model = corpus();
    assert_eq!(inverse_document_frequency_parts(&"zebra".to_string(), 3, &model.df), (3, 1));
    let doc = model.docs.get(&"doc1.xhtml".to_string()).unwrap();
    assert_eq!(term_frequency_parts(&"zebra".to_string(), doc), (0, 3));
}

#[test]
fn term_frequency_parts_stay_within_bounds() {
    let model = corpus();
    for path in ["doc1.xhtml", "doc2.xhtml", "doc3.xhtml"] {
        let doc = model.docs.get(&path.to_string()).unwrap();
        for t in ["the", "cat", "dog", "sat", "ran", "bird"] {
            let (count, total) = term_frequency_parts(&t.to_string(), doc);
            assert!(total > 0);
            assert!(count <= total);
        }
    }
}

#[test]
fn idf_ratio_falls_as_document_frequency_rises() {
    let model = corpus();
    let (n, df_cat) = inverse_document_frequency_parts(&"cat".to_string(), 3, &model.df);
    let (_, df_the) = inverse_document_frequency_parts(&"the".to_string(), 3, &model.df);
    let (_, df_dog) = inverse_document_frequency_parts(&"dog".to_string(), 3, &model.df);
    assert_eq!((n, df_dog, df_cat, df_the), (3, 1, 2, 3));
    let idf = |d: usize| (n as f32 / d as f32).log2();
    assert!(idf(df_dog) > idf(df_cat));
    assert!(idf(df_cat) > idf(df_the));
}

#[test]
fn multi_term_query_yields_one_factor_per_term() {
    let model = corpus();
    let q: Vec<char> = "cat, dog".chars().collect();
    let rows = score_factors(&model, &q);
    for row in rows.iter() {
        assert_eq!(row.terms.len(), 3);
        assert_eq!(row.terms[1].df, 1);
    }
}
