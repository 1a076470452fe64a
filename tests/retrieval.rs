use myai_mvp::batch::pad_sequences;
use myai_mvp::fusion::{bytes_less, fuse, SCORE_ONE};
use myai_mvp::search::{build_trace, finalize_hits, rank_order, rerank_inputs, rerank_text};
use myai_mvp::snippet::{find_bytes, generate_snippet, query_terms, snippet_from_lowered};
use myai_mvp::types::{Chunk, ChunkMetadata};

fn hits(v: &[(&str, u64)]) -> Vec<(String, u64)> {
    v.iter().map(|(i, s)| (i.to_string(), *s)).collect()
}

fn chunk(id: &str, text: &str) -> Chunk {
    Chunk {
        id: id.to_string(),
        doc_id: "doc".to_string(),
        text: text.to_string(),
        embedding: None,
        metadata: ChunkMetadata { title: Some("Document".to_string()), section: Some(0) },
        created_at: 7,
    }
}

#[test]
fn pad_to_longest() {
    let (ids, mask) = pad_sequences(&[vec![1, 2, 3], vec![4], vec![]], 0);
    assert_eq!(ids, vec![1, 2, 3, 4, 0, 0, 0, 0, 0]);
    assert_eq!(mask, vec![1, 1, 1, 1, 0, 0, 0, 0, 0]);
    let (e, m) = pad_sequences(&[], 0);
    assert!(e.is_empty() && m.is_empty());
    let (ids, mask) = pad_sequences(&[vec![5], vec![6, 7]], -1);
    assert_eq!(ids, vec![5, -1, 6, 7]);
    assert_eq!(mask, vec![1, 0, 1, 1]);
}

#[test]
fn fusion_weights_and_union() {
    let lexical = hits(&[("a", 2 * SCORE_ONE), ("b", SCORE_ONE)]);
    let dense = hits(&[("b", SCORE_ONE), ("c", SCORE_ONE / 2)]);
    let r = fuse(&lexical, &dense, 350, 650, 10);
    let got: Vec<(String, u128)> = r.into_iter().map(|x| (x.id, x.score)).collect();
    assert_eq!(
        got,
        vec![
            ("b".to_string(), 1_000_000_000u128),
            ("a".to_string(), 700_000_000u128),
            ("c".to_string(), 325_000_000u128),
        ]
    );
}

#[test]
fn fusion_monotone_example() {
    let lexical = hits(&[("x", 5), ("y", 3)]);
    let dense = hits(&[("x", 9), ("y", 9)]);
    let r = fuse(&lexical, &dense, 350, 650, 10);
    assert_eq!(r[0].id, "x");
    assert!(r[0].score >= r[1].score);
}

#[test]
fn fusion_ties_by_id_and_limit() {
    let lexical = hits(&[("m", 10), ("k", 10), ("z", 10)]);
    let r = fuse(&lexical, &Vec::new(), 1000, 0, 2);
    let ids: Vec<String> = r.into_iter().map(|x| x.id).collect();
    assert_eq!(ids, vec!["k".to_string(), "m".to_string()]);
    assert!(fuse(&Vec::new(), &Vec::new(), 350, 650, 10).is_empty());
    assert!(bytes_less(b"ab", b"b"));
    assert!(bytes_less(b"ab", b"abc"));
    assert!(!bytes_less(b"abc", b"abc"));
}

#[test]
fn fusion_last_score_wins() {
    let lexical = hits(&[("a", 1), ("a", 4)]);
    let r = fuse(&lexical, &Vec::new(), 1, 1, 10);
    assert_eq!(r.len(), 1);
    assert_eq!(r[0].score, 4);
}

#[test]
fn hybrid_recall_both_present() {
    // chunk "kw" matches the keyword lexically; chunk "para" is a paraphrase
    // found only by the dense side.
    let lexical = hits(&[("kw", 3 * SCORE_ONE)]);
    let dense = hits(&[("para", 9 * SCORE_ONE / 10), ("kw", SCORE_ONE / 5)]);
    let r = fuse(&lexical, &dense, 350, 650, 50);
    let ids: Vec<&str> = r.iter().map(|x| x.id.as_str()).collect();
    assert!(ids.contains(&"kw") && ids.contains(&"para"));
    let chunks = vec![chunk("kw", "the keyword appears here"), chunk("para", "a rephrasing of it")];
    let final_hits = finalize_hits(&chunks, &vec![400_000, 900_000], "keyword", 10);
    assert_eq!(final_hits.len(), 2);
    assert_eq!(final_hits[0].chunk_id, "para");
    assert_eq!(final_hits[1].chunk_id, "kw");
}

#[test]
fn snippet_short_text() {
    let text = "The quick brown fox jumps over the lazy dog.";
    let s = generate_snippet(text, "lazy");
    assert!(s.contains("lazy"));
    assert!(s.len() <= 206);
    assert!(!s.starts_with("..."));
    assert!(!s.ends_with("..."));
    assert_eq!(s, text);
}

#[test]
fn snippet_window_and_ellipses() {
    let text = format!("{}needle{}", "a".repeat(300), "b".repeat(300));
    let s = generate_snippet(&text, "NEEDLE");
    assert!(s.starts_with("..."));
    assert!(s.ends_with("..."));
    assert_eq!(s.len(), 3 + 300 + 3);
    assert_eq!(&s[3..], format!("{}needle{}...", "a".repeat(100), "b".repeat(194)));
    let none = generate_snippet(&text, "zzz");
    assert_eq!(none, format!("{}...", "a".repeat(200)));
}

#[test]
fn snippet_prefers_longest_term() {
    let text = "alpha beta gamma delta";
    let terms = vec![b"beta".to_vec(), b"gamma".to_vec()];
    let r = snippet_from_lowered(text.as_bytes(), text.as_bytes(), &terms, &terms);
    assert_eq!(r, text.as_bytes().to_vec());
    assert_eq!(find_bytes(b"alpha beta", b"beta"), Some(6));
    assert_eq!(find_bytes(b"alpha", b"x"), None);
    assert_eq!(find_bytes(b"abc", b""), Some(0));
    assert_eq!(query_terms("  Lazy\tdog  "), vec!["Lazy".to_string(), "dog".to_string()]);
}

#[test]
fn trace_has_four_ordered_stages() {
    let t = build_trace(3, 5, 1, 9);
    let names: Vec<&str> = t.stages.iter().map(|s| s.stage.as_str()).collect();
    assert_eq!(names, vec!["bm25_topN", "ann_topN", "hybrid_union", "rerank_topK"]);
    let ms: Vec<u64> = t.stages.iter().map(|s| s.elapsed_ms).collect();
    assert_eq!(ms, vec![3, 5, 1, 9]);
    assert!(t.stages.iter().all(|s| s.partial_hits.is_empty()));
}

#[test]
fn rank_order_is_stable() {
    assert_eq!(rank_order(&vec![5, 9, 5, 1], 10), vec![1, 0, 2, 3]);
    assert_eq!(rank_order(&vec![5, 9, 5, 1], 2), vec![1, 0]);
    assert!(rank_order(&vec![], 3).is_empty());
}

#[test]
fn finalize_truncates_and_fills_fields() {
    let chunks = vec![chunk("c1", "first text"), chunk("c2", "second text"), chunk("c3", "third")];
    let r = finalize_hits(&chunks, &vec![1, 3], "text", 1);
    assert_eq!(r.len(), 1);
    assert_eq!(r[0].chunk_id, "c2");
    assert_eq!(r[0].doc_id, "doc");
    assert_eq!(r[0].title, "Document");
    assert_eq!(r[0].score, 3);
    assert_eq!(r[0].created_at, 7);
    assert_eq!(r[0].snippet, "second text");
}

#[test]
fn reranker_texts() {
    assert_eq!(rerank_text("q", "t", "b"), "q [SEP] t [SEP] b");
    let r = rerank_inputs("find", &vec![chunk("id1", "body one")]);
    assert_eq!(r, vec!["find [SEP] id1 [SEP] body one".to_string()]);
}
