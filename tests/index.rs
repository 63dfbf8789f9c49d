use tfidf_index::memory::{InMemoryModel, QueryStats, Snapshot};
use tfidf_index::persisted::{document_rows, stored_stats, StoredDoc};
use tfidf_index::rank::rank_order;
use tfidf_index::stats::{compute_idf, compute_tf, count_terms, Doc, Ratio};

fn toks(s: &str) -> Vec<String> {
    s.split_whitespace().map(|t| t.to_string()).collect()
}

fn ratio(num: usize, den: usize) -> Ratio {
    Ratio { num, den }
}

fn scores(stats: &QueryStats) -> Vec<f32> {
    stats
        .docs
        .iter()
        .map(|d| {
            d.tf
                .iter()
                .zip(stats.idf.iter())
                .map(|(tf, idf)| {
                    (tf.num as f32 / tf.den as f32) * (idf.num as f32 / idf.den as f32).log10()
                })
                .sum()
        })
        .collect()
}

fn order_key(x: f32) -> u64 {
    let bits = x.to_bits();
    let key = if bits >> 31 == 1 { !bits } else { bits | (1 << 31) };
    key as u64
}

fn scenario() -> InMemoryModel {
    let mut m = InMemoryModel::new();
    m.add_document("doc1".to_string(), &toks("the cat sat"));
    m.add_document("doc2".to_string(), &toks("the dog sat"));
    m.add_document("doc3".to_string(), &toks("cat dog bird"));
    m
}

#[test]
fn cat_dog_scenario() {
    let m = scenario();
    let stats = m.query_stats(&toks("cat dog"));
    assert_eq!(stats.idf, vec![ratio(3, 2), ratio(3, 2)]);
    let paths: Vec<&str> = stats.docs.iter().map(|d| d.path.as_str()).collect();
    assert_eq!(paths, vec!["doc1", "doc2", "doc3"]);
    assert_eq!(stats.docs[0].tf, vec![ratio(1, 3), ratio(0, 3)]);
    assert_eq!(stats.docs[1].tf, vec![ratio(0, 3), ratio(1, 3)]);
    assert_eq!(stats.docs[2].tf, vec![ratio(1, 3), ratio(1, 3)]);
    let s = scores(&stats);
    assert!((s[0] - 0.0587).abs() < 1e-4);
    assert!((s[1] - 0.0587).abs() < 1e-4);
    assert!((s[2] - 0.1174).abs() < 1e-4);
    let keys: Vec<u64> = s.iter().map(|x| order_key(*x)).collect();
    assert_eq!(rank_order(&keys), vec![2, 0, 1]);
}

#[test]
fn common_term_contributes_nothing() {
    let m = scenario();
    let stats = m.query_stats(&toks("sat"));
    assert_eq!(stats.idf, vec![ratio(3, 2)]);
    let mut all = InMemoryModel::new();
    all.add_document("a".to_string(), &toks("x y"));
    all.add_document("b".to_string(), &toks("x x z"));
    let stats = all.query_stats(&toks("x"));
    assert_eq!(stats.idf, vec![ratio(2, 2)]);
    assert_eq!(all.doc_freq(&"x".to_string()), 2);
    for s in scores(&stats) {
        assert_eq!(s, 0.0);
    }
}

#[test]
fn unseen_term_counts_as_one_document() {
    let m = scenario();
    let stats = m.query_stats(&toks("zebra"));
    assert_eq!(stats.idf, vec![ratio(3, 1)]);
    assert_eq!(m.doc_freq(&"zebra".to_string()), 0);
    assert!(((3.0f32).log10() - 0.4771).abs() < 1e-4);
    for d in &stats.docs {
        assert_eq!(d.tf[0].num, 0);
    }
}

#[test]
fn empty_corpus_gives_empty_result() {
    let m = InMemoryModel::new();
    let stats = m.query_stats(&toks("cat"));
    assert!(stats.docs.is_empty());
    assert_eq!(stats.idf, vec![ratio(0, 1)]);
    assert_eq!(rank_order(&Vec::new()), Vec::<usize>::new());
    let d = InMemoryModel::default();
    assert_eq!(d.len(), 0);
}

#[test]
fn ranking_descends_and_keeps_order_of_ties() {
    assert_eq!(rank_order(&vec![5, 7, 5, 9]), vec![3, 1, 0, 2]);
    assert_eq!(rank_order(&vec![1, 1, 1]), vec![0, 1, 2]);
    assert_eq!(rank_order(&vec![0, u64::MAX]), vec![1, 0]);
    let keys: Vec<u64> = [0.5f32, -0.25, 0.0, 1.5].iter().map(|x| order_key(*x)).collect();
    assert_eq!(rank_order(&keys), vec![3, 0, 2, 1]);
}

#[test]
fn zero_score_documents_are_kept() {
    let m = scenario();
    let stats = m.query_stats(&toks("bird"));
    assert_eq!(stats.docs.len(), 3);
    assert_eq!(stats.docs[0].tf, vec![ratio(0, 3)]);
    assert_eq!(stats.docs[2].tf, vec![ratio(1, 3)]);
}

#[test]
fn store_rows_rank_as_memory_does() {
    let m = scenario();
    let corpus = [("doc1", "the cat sat"), ("doc2", "the dog sat"), ("doc3", "cat dog bird")];
    let mut docs = Vec::new();
    let mut term_freq: Vec<(String, i64, usize)> = Vec::new();
    for (i, (p, text)) in corpus.iter().enumerate() {
        let rows = document_rows(p.to_string(), &toks(text));
        assert_eq!(rows.path, *p);
        assert_eq!(rows.term_count, 3);
        let id = 10 + i as i64;
        for (t, f) in &rows.term_freq {
            term_freq.push((t.clone(), id, *f));
        }
        docs.push(StoredDoc { id, path: rows.path, term_count: rows.term_count });
    }
    let query = toks("cat dog zebra the");
    let mut matches = Vec::new();
    let mut dfs = Vec::new();
    for t in &query {
        let rows: Vec<(i64, usize)> =
            term_freq.iter().filter(|r| &r.0 == t).map(|r| (r.1, r.2)).collect();
        dfs.push(rows.len());
        matches.push(rows);
    }
    let stored = stored_stats(&docs, &matches, &dfs);
    let memory = m.query_stats(&query);
    assert_eq!(stored, memory);
    let a = scores(&stored);
    let b = scores(&memory);
    for (x, y) in a.iter().zip(b.iter()) {
        assert!((x - y).abs() < 1e-6);
    }
}

#[test]
fn document_rows_count_each_term() {
    let rows = document_rows("p".to_string(), &toks("a b a c a"));
    assert_eq!(rows.term_count, 5);
    let mut tf = rows.term_freq.clone();
    tf.sort();
    assert_eq!(tf, vec![("a".to_string(), 3), ("b".to_string(), 1), ("c".to_string(), 1)]);
}

#[test]
fn export_then_restore_answers_alike() {
    let m = scenario();
    let snap = m.export();
    assert_eq!(snap.docs.len(), 3);
    let r = InMemoryModel::restore(snap).expect("a consistent snapshot");
    for q in ["cat dog", "the", "bird zebra", ""] {
        assert_eq!(r.query_stats(&toks(q)), m.query_stats(&toks(q)));
    }
    assert_eq!(r.doc_freq(&"sat".to_string()), 2);
}

#[test]
fn restore_refuses_inconsistent_snapshots() {
    let m = scenario();
    let mut wrong_df = m.export();
    for e in wrong_df.df.iter_mut() {
        if e.0 == "cat" {
            e.1 = 5;
        }
    }
    assert!(InMemoryModel::restore(wrong_df).is_none());

    let mut twice = m.export();
    let first = twice.docs[0].clone();
    twice.docs.push(first);
    assert!(InMemoryModel::restore(twice).is_none());

    let mut repeated_term = m.export();
    repeated_term.docs[0].1.tf.push(("the".to_string(), 1));
    assert!(InMemoryModel::restore(repeated_term).is_none());

    let mut repeated_df = m.export();
    repeated_df.df.push(("the".to_string(), 2));
    assert!(InMemoryModel::restore(repeated_df).is_none());

    let mut wrong_count = m.export();
    wrong_count.docs[1].1.count = 4;
    assert!(InMemoryModel::restore(wrong_count).is_none());

    let empty = Snapshot { docs: Vec::new(), df: vec![("ghost".to_string(), 0)] };
    assert!(InMemoryModel::restore(empty).is_some());
}

#[test]
fn readding_a_path_replaces_its_statistics() {
    let mut m = InMemoryModel::new();
    m.add_document("p".to_string(), &toks("a b b"));
    m.add_document("q".to_string(), &toks("b"));
    assert_eq!(m.doc_freq(&"a".to_string()), 1);
    assert_eq!(m.doc_freq(&"b".to_string()), 2);
    m.add_document("p".to_string(), &toks("c"));
    assert_eq!(m.len(), 2);
    assert_eq!(m.doc_freq(&"a".to_string()), 0);
    assert_eq!(m.doc_freq(&"b".to_string()), 1);
    assert_eq!(m.doc_freq(&"c".to_string()), 1);
    let stats = m.query_stats(&toks("c a"));
    assert_eq!(stats.docs[0].path, "p");
    assert_eq!(stats.docs[0].tf, vec![ratio(1, 1), ratio(0, 1)]);
    assert_eq!(stats.idf, vec![ratio(2, 1), ratio(2, 1)]);
}

#[test]
fn term_frequency_of_empty_document_is_zero() {
    let d = count_terms(&Vec::new());
    assert_eq!(d.count, 0);
    assert_eq!(compute_tf(&"a".to_string(), &d), ratio(0, 1));
    let d: Doc = count_terms(&toks("a b a"));
    assert_eq!(d.count, 3);
    assert_eq!(compute_tf(&"a".to_string(), &d), ratio(2, 3));
    assert_eq!(compute_tf(&"z".to_string(), &d), ratio(0, 3));
    assert_eq!(d.tf.iter().map(|e| e.1).sum::<usize>(), d.count);
}

#[test]
fn inverse_document_frequency_arguments() {
    let df = vec![("a".to_string(), 4), ("b".to_string(), 0)];
    assert_eq!(compute_idf(&"a".to_string(), 8, &df), ratio(8, 4));
    assert_eq!(compute_idf(&"b".to_string(), 8, &df), ratio(8, 1));
    assert_eq!(compute_idf(&"c".to_string(), 8, &df), ratio(8, 1));
}
