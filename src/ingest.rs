//! The ingest pipeline: MIME and size gates, handler dispatch, chunking and
//! deduplication. Reading files and timing are left to the caller, which
//! hands the results in.

use vstd::prelude::*;
use vstd::string::*;
use crate::types::{ApiError, AppConfig, Chunk, ChunkMetadata, Document, IngestResult, PrivacyConfig};
use crate::chunker::Chunker;
use crate::dedup::{deduplicate_chunks, first_flags, kept, count_unset, text_digests};
use crate::support::{debug_quoted, debug_text, decimal, decimal_text, fresh_id, guess_mime, mime_of_path, now_seconds};

verus! {

/// Bytes in one mebibyte.
pub const MIB: u64 = 1048576;

/// The position of the first `/` at or after `i`, or the length.
pub open spec fn slash_from(m: Seq<char>, i: int) -> int
    decreases m.len() - i,
{
    if i >= m.len() {
        m.len() as int
    } else if m[i] == '/' {
        i
    } else {
        slash_from(m, i + 1)
    }
}

/// The top-level group of a MIME type: everything before the first `/`.
pub open spec fn mime_group(m: Seq<char>) -> Seq<char> {
    m.subrange(0, slash_from(m, 0))
}

/// The position just past the last `/` before `i`, or 0.
pub open spec fn after_last_slash(p: Seq<char>, i: int) -> int
    decreases i,
{
    if i <= 0 {
        0
    } else if p[i - 1] == '/' {
        i
    } else {
        after_last_slash(p, i - 1)
    }
}

/// The last component of a path: everything after its last `/`.
pub open spec fn file_name(p: Seq<char>) -> Seq<char> {
    p.subrange(after_last_slash(p, p.len() as int), p.len() as int)
}

proof fn lemma_slash_from_bounds(m: Seq<char>, i: int)
    requires
        0 <= i <= m.len(),
    ensures
        i <= slash_from(m, i) <= m.len(),
    decreases m.len() - i,
{
    if i < m.len() && m[i] != '/' {
        lemma_slash_from_bounds(m, i + 1);
    }
}

proof fn lemma_after_last_slash_bounds(p: Seq<char>, i: int)
    requires
        0 <= i <= p.len(),
    ensures
        0 <= after_last_slash(p, i) <= i,
    decreases i,
{
    if i > 0 && p[i - 1] != '/' {
        lemma_after_last_slash_bounds(p, i - 1);
    }
}

/// The group of a MIME type, as `mime_group` states it.
pub fn mime_group_of(m: &str) -> (r: String)
    ensures
        r@ == mime_group(m@),
{
    let n = m.unicode_len();
    let mut i: usize = 0;
    while i < n && m.get_char(i) != '/'
        invariant
            n == m@.len(),
            i <= n,
            slash_from(m@, i as int) == slash_from(m@, 0),
        decreases n - i,
    {
        i = i + 1;
    }
    m.substring_char(0, i).to_owned()
}

/// The last component of a path, as `file_name` states it.
pub fn file_name_of(p: &str) -> (r: String)
    ensures
        r@ == file_name(p@),
{
    let n = p.unicode_len();
    let mut i: usize = n;
    while i > 0 && p.get_char(i - 1) != '/'
        invariant
            n == p@.len(),
            i <= n,
            after_last_slash(p@, i as int) == after_last_slash(p@, n as int),
        decreases i,
    {
        i = i - 1;
    }
    proof {
        lemma_after_last_slash_bounds(p@, i as int);
    }
    p.substring_char(i, n).to_owned()
}

/// A source of plain text for one kind of file. `raw` is the file's content
/// as read by the caller.
pub trait FileHandler {
    spec fn extracted(&self, path: Seq<char>, raw: Seq<char>) -> Seq<char>;

    fn extract_text(&self, path: &str, raw: &str) -> (r: String)
        ensures
            r@ == self.extracted(path@, raw@);
}

/// Plain text: the content as it is.
pub struct TextHandler;

/// Markdown: for now the raw markup as it is.
pub struct MarkdownHandler;

/// PDF: text extraction is not available; a note naming the file stands in.
pub struct PdfHandler;

impl FileHandler for TextHandler {
    open spec fn extracted(&self, path: Seq<char>, raw: Seq<char>) -> Seq<char> {
        raw
    }

    fn extract_text(&self, path: &str, raw: &str) -> (r: String) {
        raw.to_owned()
    }
}

impl FileHandler for MarkdownHandler {
    open spec fn extracted(&self, path: Seq<char>, raw: Seq<char>) -> Seq<char> {
        raw
    }

    fn extract_text(&self, path: &str, raw: &str) -> (r: String) {
        raw.to_owned()
    }
}

impl FileHandler for PdfHandler {
    open spec fn extracted(&self, path: Seq<char>, raw: Seq<char>) -> Seq<char> {
        "PDF content from "@ + debug_text(path) + " (text extraction not implemented yet)"@
    }

    fn extract_text(&self, path: &str, raw: &str) -> (r: String) {
        let mut s = String::from_str("PDF content from ");
        s.append(debug_quoted(path).as_str());
        s.append(" (text extraction not implemented yet)");
        s
    }
}

/// The handler registered for a full MIME type.
pub enum Handler {
    Text(TextHandler),
    Markdown(MarkdownHandler),
    Pdf(PdfHandler),
}

impl FileHandler for Handler {
    open spec fn extracted(&self, path: Seq<char>, raw: Seq<char>) -> Seq<char> {
        match self {
            Handler::Text(h) => h.extracted(path, raw),
            Handler::Markdown(h) => h.extracted(path, raw),
            Handler::Pdf(h) => h.extracted(path, raw),
        }
    }

    fn extract_text(&self, path: &str, raw: &str) -> (r: String) {
        match self {
            Handler::Text(h) => h.extract_text(path, raw),
            Handler::Markdown(h) => h.extract_text(path, raw),
            Handler::Pdf(h) => h.extract_text(path, raw),
        }
    }
}

/// Which handler, if any, serves a full MIME type.
pub open spec fn handler_spec(m: Seq<char>) -> Option<Handler> {
    if m == "text/plain"@ {
        Some(Handler::Text(TextHandler))
    } else if m == "text/markdown"@ {
        Some(Handler::Markdown(MarkdownHandler))
    } else if m == "application/pdf"@ {
        Some(Handler::Pdf(PdfHandler))
    } else {
        None
    }
}

pub fn handler_for(mime: &str) -> (r: Option<Handler>)
    ensures
        r == handler_spec(mime@),
{
    let m = mime.to_owned();
    if m == String::from_str("text/plain") {
        Some(Handler::Text(TextHandler))
    } else if m == String::from_str("text/markdown") {
        Some(Handler::Markdown(MarkdownHandler))
    } else if m == String::from_str("application/pdf") {
        Some(Handler::Pdf(PdfHandler))
    } else {
        None
    }
}

impl Document {
    /// A document with a fresh id, stamped with the current time.
    pub fn new(path: String, title: String, source: String, mime: String) -> (r: Document)
        ensures
            r.path == path,
            r.title == title,
            r.source == source,
            r.mime == mime,
    {
        Document { id: fresh_id(), path, title, modified_at: now_seconds(), source, mime }
    }
}

proof fn lemma_kept_len<A>(items: Seq<A>, flags: Seq<bool>)
    ensures
        kept(items, flags).len() <= items.len(),
    decreases items.len(),
{
    if items.len() > 0 {
        lemma_kept_len(items.subrange(0, items.len() - 1), flags);
    }
}

impl Chunk {
    /// A chunk of `text` for the document `doc_id` with a fresh id, no
    /// embedding and no metadata, stamped with the current time.
    pub fn new(doc_id: String, text: String) -> (r: Chunk)
        ensures
            r.doc_id == doc_id,
            r.text == text,
            r.embedding is None,
            r.metadata.title is None,
            r.metadata.section is None,
    {
        Chunk {
            id: fresh_id(),
            doc_id,
            text,
            embedding: None,
            metadata: ChunkMetadata { title: None, section: None },
            created_at: now_seconds(),
        }
    }
}

/// A file that passed the gates: its MIME type and the handler for it.
pub struct Admission {
    pub mime: String,
    pub handler: Handler,
}

/// What one ingest produced: the document, its unique chunks in order, and
/// how many repeated chunks were dropped.
pub struct IngestBatch {
    pub document: Document,
    pub chunks: Vec<Chunk>,
    pub skipped: u32,
}

impl IngestBatch {
    /// The summary reported to the caller, with the elapsed time it measured.
    pub fn result(&self, took_ms: u64) -> (r: IngestResult)
        requires
            self.chunks@.len() <= u32::MAX,
        ensures
            r.doc_id@ == self.document.id@,
            r.chunks == self.chunks@.len(),
            r.skipped == self.skipped,
            r.took_ms == took_ms,
    {
        IngestResult {
            doc_id: self.document.id.clone(),
            chunks: self.chunks.len() as u32,
            skipped: self.skipped,
            took_ms,
        }
    }
}

pub struct IngestPipeline {
    pub privacy: PrivacyConfig,
    pub chunker: Chunker,
}

impl IngestPipeline {
    pub fn new(config: AppConfig) -> (r: IngestPipeline)
        ensures
            r.privacy == config.privacy,
            r.chunker.chunk_size == config.ingest.chunk_size,
            r.chunker.overlap == config.ingest.overlap,
    {
        let chunker = Chunker::new(config.ingest.chunk_size, config.ingest.overlap);
        IngestPipeline { privacy: config.privacy, chunker }
    }

    /// The MIME group of `m` is among the allowed groups.
    pub open spec fn allows(&self, m: Seq<char>) -> bool {
        exists|i: int|
            0 <= i < self.privacy.allowed_mime_groups@.len()
                && #[trigger] self.privacy.allowed_mime_groups@[i]@ == mime_group(m)
    }

    /// A file of this many bytes is within the size limit, in whole MiB.
    pub open spec fn size_fits(&self, size_bytes: u64) -> bool {
        size_bytes / MIB <= self.privacy.max_file_mb
    }

    pub fn is_mime_allowed(&self, mime_type: &str) -> (r: bool)
        ensures
            r == self.allows(mime_type@),
    {
        let group = mime_group_of(mime_type);
        let groups = &self.privacy.allowed_mime_groups;
        let mut i: usize = 0;
        while i < groups.len()
            invariant
                group@ == mime_group(mime_type@),
                groups == &self.privacy.allowed_mime_groups,
                i <= groups@.len(),
                forall|j: int| 0 <= j < i ==> groups@[j]@ != mime_group(mime_type@),
            decreases groups@.len() - i,
        {
            if groups[i] == group {
                return true;
            }
            i = i + 1;
        }
        false
    }

    /// Chunks `content` for `document` and drops repeated chunks.
    pub fn ingest_content(&self, document: Document, content: &str) -> (r: IngestBatch)
        requires
            content.spec_bytes().len() <= u32::MAX,
        ensures
            r.document == document,
            exists|all: Seq<Chunk>|
                {
                    &&& self.chunker.chunked(content.spec_bytes(), document.id@, all)
                    &&& r.chunks@ == kept(all, first_flags(text_digests(all)))
                    &&& r.skipped == count_unset(first_flags(text_digests(all)), all.len() as int)
                },
            r.chunks@.len() <= u32::MAX,
    {
        let all = self.chunker.chunk(content, document.id.as_str());
        let ghost all_v = all@;
        let (chunks, skipped) = deduplicate_chunks(all);
        proof {
            lemma_kept_len(all_v, first_flags(text_digests(all_v)));
        }
        IngestBatch { document, chunks, skipped }
    }

    /// Ingests an in-memory text as a new document with path `text://`,
    /// the given title (else "Untitled") and source (else "text").
    pub fn ingest_text(&self, text: &str, title: Option<String>, source: Option<String>) -> (r: IngestBatch)
        requires
            text.spec_bytes().len() <= u32::MAX,
        ensures
            r.document.path@ == "text://"@,
            r.document.title@ == (match title { Some(t) => t@, None => "Untitled"@ }),
            r.document.source@ == (match source { Some(s) => s@, None => "text"@ }),
            r.document.mime@ == "text/plain"@,
            exists|all: Seq<Chunk>|
                {
                    &&& self.chunker.chunked(text.spec_bytes(), r.document.id@, all)
                    &&& r.chunks@ == kept(all, first_flags(text_digests(all)))
                    &&& r.skipped == count_unset(first_flags(text_digests(all)), all.len() as int)
                },
            r.chunks@.len() <= u32::MAX,
    {
        let title = match title {
            Some(t) => t,
            None => String::from_str("Untitled"),
        };
        let source = match source {
            Some(s) => s,
            None => String::from_str("text"),
        };
        let document = Document::new(
            String::from_str("text://"),
            title,
            source,
            String::from_str("text/plain"),
        );
        self.ingest_content(document, text)
    }

    /// Ingests the content of an admitted file: the document takes the
    /// path, its last component as title, the source "file" and the MIME
    /// type of the admission; the text is what the handler extracts from `raw`.
    pub fn ingest_path(&self, path: &str, admission: &Admission, raw: &str) -> (r: Option<IngestBatch>)
        ensures
            ({
                let text = admission.handler.extracted(path@, raw@);
                match r {
                    Some(b) => {
                        &&& b.document.path@ == path@
                        &&& b.document.title@ == file_name(path@)
                        &&& b.document.source@ == "file"@
                        &&& b.document.mime@ == admission.mime@
                        &&& exists|all: Seq<Chunk>, t: Seq<u8>|
                            {
                                &&& t == vstd::utf8::encode_utf8(text)
                                &&& self.chunker.chunked(t, b.document.id@, all)
                                &&& b.chunks@ == kept(all, first_flags(text_digests(all)))
                                &&& b.skipped == count_unset(first_flags(text_digests(all)), all.len() as int)
                            }
                        &&& b.chunks@.len() <= u32::MAX
                    },
                    None => vstd::utf8::encode_utf8(text).len() > u32::MAX,
                }
            }),
    {
        let text = admission.handler.extract_text(path, raw);
        if text.as_str().as_bytes().len() > 4294967295 {
            return None;
        }
        let document = Document::new(
            path.to_owned(),
            file_name_of(path),
            String::from_str("file"),
            admission.mime.clone(),
        );
        let b = self.ingest_content(document, text.as_str());
        Some(b)
    }

    pub fn is_size_allowed(&self, size_bytes: u64) -> (r: bool)
        ensures
            r == self.size_fits(size_bytes),
    {
        size_bytes / MIB <= self.privacy.max_file_mb
    }

    /// Applies the gates to a file at `path` of `size_bytes` bytes, in order:
    /// its MIME group must be allowed, its size must fit, and a handler must
    /// serve its MIME type.
    pub fn admit_file(&self, path: &str, size_bytes: u64) -> (r: Result<Admission, ApiError>)
        ensures
            ({
                let m = mime_of_path(path@);
                let mb = size_bytes / MIB;
                match r {
                    Ok(a) => self.allows(m) && self.size_fits(size_bytes)
                        && handler_spec(m) == Some(a.handler) && a.mime@ == m,
                    Err(ApiError::BadRequest(msg)) =>
                        if !self.allows(m) {
                            msg@ == "MIME type "@ + m + " not allowed"@
                        } else if !self.size_fits(size_bytes) {
                            msg@ == "File too large: "@ + decimal(mb as nat) + "MB (max: "@
                                + decimal(self.privacy.max_file_mb as nat) + "MB)"@
                        } else {
                            handler_spec(m) is None && msg@ == "No handler for MIME type: "@ + m
                        },
                    Err(_) => false,
                }
            }),
    {
        let mime = guess_mime(path);
        if !self.is_mime_allowed(mime.as_str()) {
            let mut msg = String::from_str("MIME type ");
            msg.append(mime.as_str());
            msg.append(" not allowed");
            return Err(ApiError::BadRequest(msg));
        }
        if !self.is_size_allowed(size_bytes) {
            let mut msg = String::from_str("File too large: ");
            msg.append(decimal_text(size_bytes / MIB).as_str());
            msg.append("MB (max: ");
            msg.append(decimal_text(self.privacy.max_file_mb).as_str());
            msg.append("MB)");
            return Err(ApiError::BadRequest(msg));
        }
        match handler_for(mime.as_str()) {
            Some(handler) => Ok(Admission { mime, handler }),
            None => {
                let mut msg = String::from_str("No handler for MIME type: ");
                msg.append(mime.as_str());
                Err(ApiError::BadRequest(msg))
            },
        }
    }
}

} // verus!
