use myai_mvp::ingest::{file_name_of, handler_for, mime_group_of, FileHandler, Handler, IngestPipeline, PdfHandler, TextHandler, MarkdownHandler};
use myai_mvp::types::{ApiError, AppConfig};

fn pipeline_with_groups(groups: &[&str]) -> IngestPipeline {
    let mut config = AppConfig::default();
    config.privacy.allowed_mime_groups = groups.iter().map(|g| g.to_string()).collect();
    IngestPipeline::new(config)
}

#[test]
fn mime_rejection_for_png() {
    let p = pipeline_with_groups(&["text", "pdf"]);
    match p.admit_file("/tmp/picture.png", 10) {
        Err(ApiError::BadRequest(msg)) => {
            assert!(msg.contains("not allowed"));
            assert_eq!(msg, "MIME type image/png not allowed");
        }
        _ => panic!("expected a bad request"),
    }
}

#[test]
fn text_file_is_admitted() {
    let p = pipeline_with_groups(&["text", "pdf"]);
    let a = p.admit_file("/home/u/notes.txt", 1024).ok().expect("admitted");
    assert_eq!(a.mime, "text/plain");
    assert!(matches!(a.handler, Handler::Text(_)));
    let m = p.admit_file("readme.md", 0).ok().expect("admitted");
    assert_eq!(m.mime, "text/markdown");
    assert!(matches!(m.handler, Handler::Markdown(_)));
}

#[test]
fn file_too_large() {
    let p = pipeline_with_groups(&["text"]);
    let limit = 500u64 * 1024 * 1024;
    assert!(p.admit_file("a.txt", limit + 1024 * 1024 - 1).is_ok());
    match p.admit_file("a.txt", limit + 1024 * 1024) {
        Err(ApiError::BadRequest(msg)) => assert_eq!(msg, "File too large: 501MB (max: 500MB)"),
        _ => panic!("expected a bad request"),
    }
}

#[test]
fn missing_handler() {
    let p = pipeline_with_groups(&["text"]);
    match p.admit_file("table.csv", 1) {
        Err(ApiError::BadRequest(msg)) => assert_eq!(msg, "No handler for MIME type: text/csv"),
        _ => panic!("expected a bad request"),
    }
}

#[test]
fn pdf_needs_application_group() {
    let default = IngestPipeline::new(AppConfig::default());
    assert!(default.admit_file("paper.pdf", 1).is_err());
    let p = pipeline_with_groups(&["application"]);
    let a = p.admit_file("paper.pdf", 1).ok().expect("admitted");
    assert_eq!(a.mime, "application/pdf");
    assert!(matches!(a.handler, Handler::Pdf(_)));
}

#[test]
fn mime_groups_and_file_names() {
    assert_eq!(mime_group_of("text/plain"), "text");
    assert_eq!(mime_group_of("application/pdf"), "application");
    assert_eq!(mime_group_of("noslash"), "noslash");
    assert_eq!(mime_group_of(""), "");
    assert_eq!(file_name_of("/a/b/c.txt"), "c.txt");
    assert_eq!(file_name_of("plain"), "plain");
    assert_eq!(file_name_of("dir/"), "");
    let p = pipeline_with_groups(&["text", "pdf"]);
    assert!(p.is_mime_allowed("text/html"));
    assert!(!p.is_mime_allowed("image/png"));
    assert!(!p.is_mime_allowed("application/pdf"));
    assert!(p.is_size_allowed(0));
}

#[test]
fn handlers_extract() {
    assert_eq!(TextHandler.extract_text("a.txt", "hello"), "hello");
    assert_eq!(MarkdownHandler.extract_text("a.md", "# T"), "# T");
    assert_eq!(
        PdfHandler.extract_text("/x/y.pdf", "ignored"),
        "PDF content from \"/x/y.pdf\" (text extraction not implemented yet)"
    );
    assert_eq!(
        PdfHandler.extract_text("a\"b.pdf", ""),
        "PDF content from \"a\\\"b.pdf\" (text extraction not implemented yet)"
    );
    assert!(handler_for("text/plain").is_some());
    assert!(handler_for("image/png").is_none());
}

#[test]
fn ingest_admitted_file() {
    let p = pipeline_with_groups(&["text"]);
    let a = p.admit_file("/data/story.txt", 100).ok().expect("admitted");
    let batch = p.ingest_path("/data/story.txt", &a, "Once. Upon. A time.").expect("fits");
    assert_eq!(batch.document.title, "story.txt");
    assert_eq!(batch.document.source, "file");
    assert_eq!(batch.document.path, "/data/story.txt");
    assert_eq!(batch.document.mime, "text/plain");
    assert_eq!(batch.chunks.len(), 1);
    assert_eq!(batch.chunks[0].text, "Once. Upon. A time.");
}
