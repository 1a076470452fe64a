use myai_mvp::chunker::Chunker;
use myai_mvp::dedup::{deduplicate_chunks, first_occurrences};
use myai_mvp::ingest::IngestPipeline;
use myai_mvp::types::AppConfig;

fn fox_text() -> String {
    let s = "The quick brown fox jumps over the lazy dog. ".repeat(45);
    s[..2000].to_string()
}

#[test]
fn chunk_boundary_three_windows() {
    let text = fox_text();
    assert_eq!(text.len(), 2000);
    let c = Chunker::new(800, 120);
    // each of the first two windows ends just after a '.'
    assert_eq!(text.as_bytes()[763], b'.');
    assert_eq!(text.as_bytes()[1438], b'.');
    // the next window starts overlap bytes before the cut
    assert_eq!(764 - 644, 120);
    let chunks = c.chunk(&text, "doc-1");
    assert_eq!(chunks.len(), 3);
    assert_eq!(chunks[0].text, text[0..764]);
    assert_eq!(chunks[1].text, text[644..1439]);
    assert_eq!(chunks[2].text, text[1319..1999]);
}

#[test]
fn chunks_are_trimmed_nonempty_substrings() {
    let text = "  First sentence here.\n\n   Second one!  Third?   \n";
    let c = Chunker::new(10, 3);
    let chunks = c.chunk(text, "d");
    assert!(!chunks.is_empty());
    for (i, ch) in chunks.iter().enumerate() {
        assert!(!ch.text.trim().is_empty());
        assert_eq!(ch.text.trim(), ch.text);
        assert!(text.contains(&ch.text));
        assert_eq!(ch.doc_id, "d");
        assert_eq!(ch.metadata.title.as_deref(), Some("Document"));
        assert_eq!(ch.metadata.section, Some(i));
        assert!(ch.embedding.is_none());
    }
}

#[test]
fn chunk_empty_and_blank_input() {
    let c = Chunker::new(800, 120);
    assert!(c.chunk("", "d").is_empty());
    assert!(c.chunk("   \n\t  ", "d").is_empty());
}

#[test]
fn chunk_ids_are_fresh() {
    let c = Chunker::new(4, 0);
    let chunks = c.chunk("A. B. C.", "d");
    assert_eq!(chunks.len(), 3);
    assert_ne!(chunks[0].id, chunks[1].id);
    assert_ne!(chunks[1].id, chunks[2].id);
}

#[test]
fn chunk_zero_size_terminates() {
    let c = Chunker::new(0, 5);
    assert!(c.chunk("abc", "d").is_empty());
}

#[test]
fn short_text_is_one_chunk() {
    let c = Chunker::new(800, 120);
    let chunks = c.chunk("  hello world  ", "d");
    assert_eq!(chunks.len(), 1);
    assert_eq!(chunks[0].text, "hello world");
}

#[test]
fn sentence_boundary_search() {
    let c = Chunker::new(800, 120);
    let t = b"ab. cd! ef";
    assert_eq!(c.find_sentence_boundary(t, 0, 10), 7);
    assert_eq!(c.find_sentence_boundary(t, 0, 5), 3);
    assert_eq!(c.find_sentence_boundary(t, 8, 10), 2);
    assert_eq!(c.find_sentence_boundary(t, 3, 3), 0);
}

#[test]
fn dedup_repeated_sentences() {
    let c = Chunker::new(4, 0);
    let chunks = c.chunk("A. A. A.", "d");
    assert_eq!(chunks.len(), 3);
    for ch in &chunks {
        assert_eq!(ch.text, "A.");
    }
    let (unique, skipped) = deduplicate_chunks(chunks);
    assert_eq!(unique.len(), 1);
    assert_eq!(skipped, 2);
}

#[test]
fn dedup_ingest_text_counts() {
    let mut config = AppConfig::default();
    config.ingest.chunk_size = 4;
    config.ingest.overlap = 0;
    let pipeline = IngestPipeline::new(config);
    let batch = pipeline.ingest_text("A. A. A.", None, None);
    let result = batch.result(0);
    assert_eq!(result.chunks, 1);
    assert_eq!(result.skipped, 2);
    assert_eq!(result.doc_id, batch.document.id);
}

#[test]
fn dedup_twice_skips_nothing() {
    let c = Chunker::new(4, 0);
    let chunks = c.chunk("A. B. A. C. B.", "d");
    let (once, skipped) = deduplicate_chunks(chunks);
    assert_eq!(once.len(), 3);
    assert_eq!(skipped, 2);
    let (twice, skipped_again) = deduplicate_chunks(once);
    assert_eq!(twice.len(), 3);
    assert_eq!(skipped_again, 0);
    let texts: Vec<&str> = twice.iter().map(|c| c.text.as_str()).collect();
    assert_eq!(texts, vec!["A.", "B.", "C."]);
}

#[test]
fn first_occurrence_flags() {
    let keys: Vec<String> = vec!["x", "y", "x", "z", "y"].into_iter().map(String::from).collect();
    assert_eq!(first_occurrences(&keys), vec![true, true, false, true, false]);
    assert!(first_occurrences(&Vec::new()).is_empty());
}

#[test]
fn stats_three_unique_chunks() {
    let mut config = AppConfig::default();
    config.ingest.chunk_size = 10;
    config.ingest.overlap = 0;
    let pipeline = IngestPipeline::new(config);
    let batch = pipeline.ingest_text("One cat. Two dogs. Six owls.", Some("Pets".to_string()), None);
    assert_eq!(batch.chunks.len(), 3);
    assert_eq!(batch.skipped, 0);
    assert_eq!(batch.document.title, "Pets");
    assert_eq!(batch.document.source, "text");
    assert_eq!(batch.document.path, "text://");
    assert_eq!(batch.document.mime, "text/plain");
    for ch in &batch.chunks {
        assert_eq!(ch.doc_id, batch.document.id);
    }
}

#[test]
fn unicode_whitespace_is_trimmed() {
    let c = Chunker::new(800, 120);
    assert!(c.chunk("\u{A0}", "d").is_empty());
    let chunks = c.chunk("\u{3000} hello\u{2003}\u{A0}", "d");
    assert_eq!(chunks.len(), 1);
    assert_eq!(chunks[0].text, "hello");
}

#[test]
fn cuts_fall_on_character_boundaries() {
    let text = "日本語のテキストです".repeat(20);
    let c = Chunker::new(50, 10);
    let chunks = c.chunk(&text, "d");
    assert!(!chunks.is_empty());
    for ch in &chunks {
        assert!(text.contains(ch.text.as_str()));
        assert!(ch.text.len() <= 50);
        assert!(!ch.text.contains('\u{FFFD}'));
    }
    let wide = Chunker::new(1, 0).chunk("é", "d");
    assert_eq!(wide.len(), 1);
    assert_eq!(wide[0].text, "é");
}
