//! Records, requests, responses and configuration shared by every stage.

use vstd::prelude::*;

verus! {

/// Error kinds surfaced by the library; each carries a human-readable message.
pub enum ApiError {
    Internal(String),
    BadRequest(String),
    NotFound(String),
    Validation(String),
}

impl ApiError {
    pub fn internal(msg: String) -> (r: ApiError)
        ensures
            r matches ApiError::Internal(m) && m@ == msg@,
    {
        ApiError::Internal(msg)
    }

    pub fn bad_request(msg: String) -> (r: ApiError)
        ensures
            r matches ApiError::BadRequest(m) && m@ == msg@,
    {
        ApiError::BadRequest(msg)
    }

    pub fn not_found(msg: String) -> (r: ApiError)
        ensures
            r matches ApiError::NotFound(m) && m@ == msg@,
    {
        ApiError::NotFound(msg)
    }

    pub fn validation(msg: String) -> (r: ApiError)
        ensures
            r matches ApiError::Validation(m) && m@ == msg@,
    {
        ApiError::Validation(msg)
    }

    /// The message carried by the error, whatever its kind.
    pub fn message(&self) -> (r: &String)
        ensures
            r@ == self.spec_message(),
    {
        match self {
            ApiError::Internal(m) => m,
            ApiError::BadRequest(m) => m,
            ApiError::NotFound(m) => m,
            ApiError::Validation(m) => m,
        }
    }

    pub open spec fn spec_message(&self) -> Seq<char> {
        match self {
            ApiError::Internal(m) => m@,
            ApiError::BadRequest(m) => m@,
            ApiError::NotFound(m) => m@,
            ApiError::Validation(m) => m@,
        }
    }
}

/// Number of hits a query returns when the request names none.
pub fn default_k() -> (r: u32)
    ensures
        r == 10,
{
    10
}

pub struct QueryFilters {
    pub sources: Option<Vec<String>>,
    pub mime_groups: Option<Vec<String>>,
    pub people: Option<Vec<String>>,
}

pub struct QueryRequest {
    pub query: String,
    pub k: u32,
    pub date_from: Option<String>,
    pub date_to: Option<String>,
    pub filters: Option<QueryFilters>,
    pub stream: bool,
}

impl QueryRequest {
    /// A request for `query` with every optional field at its default.
    pub fn new(query: String) -> (r: QueryRequest)
        ensures
            r.query@ == query@,
            r.k == 10,
            r.date_from is None,
            r.date_to is None,
            r.filters is None,
            !r.stream,
    {
        QueryRequest {
            query,
            k: default_k(),
            date_from: None,
            date_to: None,
            filters: None,
            stream: false,
        }
    }
}

pub struct IngestResult {
    pub doc_id: String,
    pub chunks: u32,
    pub skipped: u32,
    pub took_ms: u64,
}

pub struct IngestTextRequest {
    pub text: String,
    pub title: Option<String>,
    pub source: Option<String>,
}

pub struct StatusResponse {
    pub version: String,
    pub documents: u64,
    pub chunks: u64,
    pub uptime: u64,
}

pub struct PathsConfig {
    pub data_dir: String,
    pub model_dir: String,
    pub watch_paths: Vec<String>,
}

pub struct ApiConfig {
    pub bind: String,
    pub cors_origins: Vec<String>,
}

/// Retrieval parameters. Fractional settings are held in thousandths
/// (`alpha_milli == 350` is a weight of 0.35).
pub struct RetrievalConfig {
    pub bm25_k1_milli: u32,
    pub ann_ef: usize,
    pub ann_m: usize,
    pub alpha_milli: u32,
    pub beta_milli: u32,
    pub rerank_top: usize,
    pub final_top: usize,
}

pub struct PrivacyConfig {
    pub enable_sqlcipher: bool,
    pub max_file_mb: u64,
    pub allowed_mime_groups: Vec<String>,
}

pub struct IngestConfig {
    pub chunk_size: usize,
    pub overlap: usize,
}

pub struct AppConfig {
    pub paths: PathsConfig,
    pub api: ApiConfig,
    pub retrieval: RetrievalConfig,
    pub privacy: PrivacyConfig,
    pub ingest: IngestConfig,
}

/// What a chunk records about where it came from: a display title and its
/// ordinal among the chunks of its document (shown as `chunk_<N>`), each
/// absent until set.
pub struct ChunkMetadata {
    pub title: Option<String>,
    pub section: Option<usize>,
}

/// The unit of retrieval. `embedding` holds the IEEE-754 bit patterns of the
/// 32-bit floats of the vector; `created_at` is in seconds since the epoch.
pub struct Chunk {
    pub id: String,
    pub doc_id: String,
    pub text: String,
    pub embedding: Option<Vec<u32>>,
    pub metadata: ChunkMetadata,
    pub created_at: i64,
}

/// A source document; `modified_at` is in seconds since the epoch.
pub struct Document {
    pub id: String,
    pub path: String,
    pub title: String,
    pub modified_at: i64,
    pub source: String,
    pub mime: String,
}

impl Default for AppConfig {
    fn default() -> (r: AppConfig)
        ensures
            r.paths.data_dir@ == "~/.nexus-mvp/data"@,
            r.paths.model_dir@ == "~/.nexus-mvp/models"@,
            r.paths.watch_paths@.len() == 0,
            r.api.bind@ == "127.0.0.1:7777"@,
            r.api.cors_origins@.len() == 1,
            r.api.cors_origins@[0]@ == "http://localhost:3000"@,
            r.retrieval.bm25_k1_milli == 1200,
            r.retrieval.ann_ef == 100,
            r.retrieval.ann_m == 16,
            r.retrieval.alpha_milli == 350,
            r.retrieval.beta_milli == 650,
            r.retrieval.rerank_top == 50,
            r.retrieval.final_top == 10,
            !r.privacy.enable_sqlcipher,
            r.privacy.max_file_mb == 500,
            r.privacy.allowed_mime_groups@.len() == 2,
            r.privacy.allowed_mime_groups@[0]@ == "pdf"@,
            r.privacy.allowed_mime_groups@[1]@ == "text"@,
            r.ingest.chunk_size == 800,
            r.ingest.overlap == 120,
    {
        let mut origins: Vec<String> = Vec::new();
        origins.push(String::from_str("http://localhost:3000"));
        let mut groups: Vec<String> = Vec::new();
        groups.push(String::from_str("pdf"));
        groups.push(String::from_str("text"));
        AppConfig {
            paths: PathsConfig {
                data_dir: String::from_str("~/.nexus-mvp/data"),
                model_dir: String::from_str("~/.nexus-mvp/models"),
                watch_paths: Vec::new(),
            },
            api: ApiConfig { bind: String::from_str("127.0.0.1:7777"), cors_origins: origins },
            retrieval: RetrievalConfig {
                bm25_k1_milli: 1200,
                ann_ef: 100,
                ann_m: 16,
                alpha_milli: 350,
                beta_milli: 650,
                rerank_top: 50,
                final_top: 10,
            },
            privacy: PrivacyConfig {
                enable_sqlcipher: false,
                max_file_mb: 500,
                allowed_mime_groups: groups,
            },
            ingest: IngestConfig { chunk_size: 800, overlap: 120 },
        }
    }
}

} // verus!
