use myai_mvp::batch::output_to_vectors;
use myai_mvp::search::{SearchEvent, SearchSession, SearchStep};
use myai_mvp::types::{AppConfig, Chunk, ChunkMetadata, QueryRequest};

fn chunk(id: &str, text: &str) -> Chunk {
    Chunk {
        id: id.to_string(),
        doc_id: "doc".to_string(),
        text: text.to_string(),
        embedding: None,
        metadata: ChunkMetadata { title: None, section: None },
        created_at: 0,
    }
}

fn owned(v: &[(&str, u64)]) -> Vec<(String, u64)> {
    v.iter().map(|(a, b)| (a.to_string(), *b)).collect()
}

#[test]
fn session_runs_all_stages() {
    let config = AppConfig::default();
    let request = QueryRequest::new("lazy dog".to_string());
    let (mut session, step) = SearchSession::start(&request, &config.retrieval);
    assert!(matches!(step, SearchStep::Lexical { limit: 50 }));
    let step = session.step(SearchEvent::LexicalDone { results: Some(owned(&[("a", 10)])), elapsed_ms: 2 });
    assert!(matches!(step, SearchStep::Dense { limit: 50 }));
    let step = session.step(SearchEvent::DenseDone { results: Some(owned(&[("b", 20)])), elapsed_ms: 3 });
    let ids = match step {
        SearchStep::Hydrate { ids } => ids,
        _ => panic!("expected hydration"),
    };
    assert_eq!(ids, vec!["b".to_string(), "a".to_string()]);
    let chunks = vec![chunk("a", "the lazy dog sleeps"), chunk("b", "a tired hound")];
    let step = session.step(SearchEvent::Hydrated { chunks, fusion_ms: 1 });
    let texts = match step {
        SearchStep::Rerank { texts } => texts,
        _ => panic!("expected reranking"),
    };
    // rows come back in candidate order: b, then a
    assert_eq!(texts[0], "lazy dog [SEP] b [SEP] a tired hound");
    assert_eq!(texts[1], "lazy dog [SEP] a [SEP] the lazy dog sleeps");
    let step = session.step(SearchEvent::Reranked { scores: Some(vec![100_000, 900_000]), elapsed_ms: 4 });
    match step {
        SearchStep::Done { hits, trace, degraded } => {
            assert!(!degraded);
            assert_eq!(hits.len(), 2);
            assert_eq!(hits[0].chunk_id, "a");
            assert_eq!(hits[0].title, "Unknown");
            assert_eq!(hits[0].snippet, "the lazy dog sleeps");
            let names: Vec<&str> = trace.stages.iter().map(|s| s.stage.as_str()).collect();
            assert_eq!(names, vec!["bm25_topN", "ann_topN", "hybrid_union", "rerank_topK"]);
            let ms: Vec<u64> = trace.stages.iter().map(|s| s.elapsed_ms).collect();
            assert_eq!(ms, vec![2, 3, 1, 4]);
        }
        _ => panic!("expected hits"),
    }
}

#[test]
fn session_degrades_one_branch() {
    let config = AppConfig::default();
    let request = QueryRequest::new("q".to_string());
    let (mut session, _) = SearchSession::start(&request, &config.retrieval);
    session.step(SearchEvent::LexicalDone { results: None, elapsed_ms: 0 });
    let step = session.step(SearchEvent::DenseDone { results: Some(owned(&[("x", 5)])), elapsed_ms: 0 });
    assert!(matches!(step, SearchStep::Hydrate { ids } if ids == vec!["x".to_string()]));
    // a row for a non-candidate and a repeated row are dropped
    let rows = vec![chunk("y", "other"), chunk("x", "first"), chunk("x", "again")];
    let step = session.step(SearchEvent::Hydrated { chunks: rows, fusion_ms: 0 });
    assert!(matches!(step, SearchStep::Rerank { ref texts } if texts == &vec!["q [SEP] x [SEP] first".to_string()]));
    let step = session.step(SearchEvent::Reranked { scores: Some(vec![5]), elapsed_ms: 0 });
    match step {
        SearchStep::Done { hits, degraded, .. } => {
            assert!(degraded);
            assert_eq!(hits.len(), 1);
            assert_eq!(hits[0].snippet, "first");
        }
        _ => panic!("expected hits"),
    }
}

#[test]
fn session_fails_when_both_branches_fail() {
    let config = AppConfig::default();
    let request = QueryRequest::new("q".to_string());
    let (mut session, _) = SearchSession::start(&request, &config.retrieval);
    session.step(SearchEvent::LexicalDone { results: None, elapsed_ms: 0 });
    let step = session.step(SearchEvent::DenseDone { results: None, elapsed_ms: 0 });
    assert!(matches!(step, SearchStep::Failed(_)));
}

#[test]
fn session_rejects_out_of_order_event() {
    let config = AppConfig::default();
    let request = QueryRequest::new("q".to_string());
    let (mut session, _) = SearchSession::start(&request, &config.retrieval);
    let step = session.step(SearchEvent::Reranked { scores: Some(vec![]), elapsed_ms: 0 });
    assert!(matches!(step, SearchStep::Failed(_)));
}

#[test]
fn model_output_rows() {
    let rows = output_to_vectors(&vec![2, 3], &vec![1, 2, 3, 4, 5, 6]).ok().expect("rows");
    assert_eq!(rows, vec![vec![1, 2, 3], vec![4, 5, 6]]);
    assert!(output_to_vectors(&vec![6], &vec![1, 2, 3, 4, 5, 6]).is_err());
    assert!(output_to_vectors(&vec![3, 3], &vec![1, 2, 3, 4, 5, 6]).is_err());
    assert_eq!(output_to_vectors(&vec![0, 384], &vec![]).ok().map(|r| r.len()), Some(0));
}
