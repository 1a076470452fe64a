use myai_mvp::codec::{decode_embedding, encode_embedding};
use myai_mvp::eval::relevant_retrieved;
use myai_mvp::types::{ApiError, AppConfig, Chunk, Document, QueryRequest, default_k};
use myai_mvp::vector::VectorSlots;

fn bits(v: &[f32]) -> Vec<u32> {
    v.iter().map(|f| f.to_bits()).collect()
}

#[test]
fn embedding_round_trip() {
    let v = vec![0.5f32, -1.25, 3.0e-7, f32::MAX, 0.0, -0.0];
    let bytes = encode_embedding(&bits(&v));
    assert_eq!(bytes.len(), 4 * v.len());
    let back: Vec<f32> = decode_embedding(&bytes).into_iter().map(f32::from_bits).collect();
    let max_diff = v.iter().zip(back.iter()).map(|(a, b)| (a - b).abs()).fold(0.0f32, f32::max);
    assert_eq!(max_diff, 0.0);
    assert_eq!(bits(&back), bits(&v));
}

#[test]
fn embedding_bytes_little_endian() {
    assert_eq!(encode_embedding(&vec![1.0f32.to_bits()]), 1.0f32.to_le_bytes().to_vec());
    assert_eq!(encode_embedding(&vec![0x0403_0201]), vec![1, 2, 3, 4]);
    assert_eq!(decode_embedding(&[1, 2, 3, 4, 9]), vec![0x0403_0201]);
    assert!(decode_embedding(&[]).is_empty());
}

#[test]
fn vector_slots_insert_and_update() {
    let mut s = VectorSlots::new(2);
    assert_eq!(s.add_vector("a", vec![1, 2]).ok(), Some(0));
    assert_eq!(s.add_vector("b", vec![3, 4]).ok(), Some(1));
    assert_eq!(s.add_vector("a", vec![5, 6]).ok(), Some(0));
    assert_eq!(s.len(), 2);
    assert_eq!(s.vectors[0], vec![5, 6]);
    assert_eq!(s.slot_of("b"), Some(1));
    assert_eq!(s.slot_of("z"), None);
    assert_eq!(s.id_of(1).map(|x| x.as_str()), Some("b"));
    assert!(s.id_of(2).is_none());
}

#[test]
fn vector_slots_reject_wrong_dimension() {
    let mut s = VectorSlots::new(3);
    match s.add_vector("a", vec![1, 2]) {
        Err(ApiError::Validation(_)) => {}
        _ => panic!("expected a validation error"),
    }
    assert_eq!(s.len(), 0);
}

#[test]
fn vector_store_twice_same_as_once() {
    let mut once = VectorSlots::new(1);
    once.add_vector("x", vec![7]).ok();
    let mut twice = VectorSlots::new(1);
    twice.add_vector("x", vec![7]).ok();
    twice.add_vector("x", vec![7]).ok();
    assert_eq!(once.ids, twice.ids);
    assert_eq!(once.vectors, twice.vectors);
}

#[test]
fn config_defaults() {
    let c = AppConfig::default();
    assert_eq!(c.ingest.chunk_size, 800);
    assert_eq!(c.ingest.overlap, 120);
    assert_eq!(c.retrieval.alpha_milli, 350);
    assert_eq!(c.retrieval.beta_milli, 650);
    assert_eq!(c.retrieval.rerank_top, 50);
    assert_eq!(c.privacy.max_file_mb, 500);
    assert_eq!(c.privacy.allowed_mime_groups, vec!["pdf".to_string(), "text".to_string()]);
    assert_eq!(c.api.bind, "127.0.0.1:7777");
    assert_eq!(default_k(), 10);
    let q = QueryRequest::new("hello".to_string());
    assert_eq!(q.k, 10);
    assert!(!q.stream);
}

#[test]
fn api_error_constructors() {
    assert!(matches!(ApiError::internal("x".to_string()), ApiError::Internal(m) if m == "x"));
    assert!(matches!(ApiError::bad_request("y".to_string()), ApiError::BadRequest(m) if m == "y"));
    assert!(matches!(ApiError::not_found("z".to_string()), ApiError::NotFound(m) if m == "z"));
    assert!(matches!(ApiError::validation("w".to_string()), ApiError::Validation(m) if m == "w"));
    assert_eq!(ApiError::validation("w".to_string()).message(), "w");
}

#[test]
fn new_records_are_stamped() {
    let c = Chunk::new("doc".to_string(), "text".to_string());
    assert_eq!(c.id.len(), 36);
    assert!(c.created_at > 1_600_000_000);
    assert!(c.metadata.title.is_none() && c.metadata.section.is_none());
    let d = Document::new("p".to_string(), "t".to_string(), "s".to_string(), "text/plain".to_string());
    assert_eq!(d.id.len(), 36);
    assert_ne!(d.id, c.id);
    assert!(d.modified_at > 1_600_000_000);
}

#[test]
fn relevant_counts() {
    let s = |v: &[&str]| v.iter().map(|x| x.to_string()).collect::<Vec<String>>();
    assert_eq!(relevant_retrieved(&s(&["a", "b", "a", "c"]), &s(&["a", "c"])), 3);
    assert_eq!(relevant_retrieved(&s(&[]), &s(&["a"])), 0);
    assert_eq!(relevant_retrieved(&s(&["x"]), &s(&[])), 0);
}
