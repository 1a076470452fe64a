//! The decisions of a hybrid query: what the reranker is shown, how reranked
//! chunks become ordered hits, and the per-stage trace. The retrieval calls,
//! the models and the clock are the caller's; it hands their results in.

use vstd::prelude::*;
use vstd::string::*;
use crate::types::{ApiError, Chunk, ChunkMetadata, QueryRequest, RetrievalConfig};
use crate::fusion::{fuse, hits_view, ranked_view, FusionInput, Ranked};
use crate::snippet::{generate_snippet, snippet_spec};
use vstd::utf8::*;

verus! {

/// One result of a query. `score` is the reranker's relevance in fixed-point
/// units (`SCORE_ONE` is 1.0); `created_at` is in seconds since the epoch.
pub struct SearchHit {
    pub chunk_id: String,
    pub doc_id: String,
    pub title: String,
    pub snippet: String,
    pub score: u64,
    pub metadata: ChunkMetadata,
    pub created_at: i64,
}

pub struct ReasoningStage {
    pub stage: String,
    pub partial_hits: Vec<SearchHit>,
    pub elapsed_ms: u64,
}

pub struct ReasoningTrace {
    pub stages: Vec<ReasoningStage>,
}

pub struct QueryResponse {
    pub hits: Vec<SearchHit>,
    pub reasoning: ReasoningTrace,
    pub took_ms: u64,
}

fn stage(name: &str, elapsed_ms: u64) -> (r: ReasoningStage)
    ensures
        r.stage@ == name@,
        r.partial_hits@.len() == 0,
        r.elapsed_ms == elapsed_ms,
{
    ReasoningStage { stage: String::from_str(name), partial_hits: Vec::new(), elapsed_ms }
}

/// The trace of a query: the four stages in their fixed order, each with
/// its elapsed milliseconds.
pub fn build_trace(bm25_ms: u64, ann_ms: u64, hybrid_ms: u64, rerank_ms: u64) -> (r: ReasoningTrace)
    ensures
        r.stages@.len() == 4,
        r.stages@[0].stage@ == "bm25_topN"@,
        r.stages@[1].stage@ == "ann_topN"@,
        r.stages@[2].stage@ == "hybrid_union"@,
        r.stages@[3].stage@ == "rerank_topK"@,
        r.stages@[0].elapsed_ms == bm25_ms,
        r.stages@[1].elapsed_ms == ann_ms,
        r.stages@[2].elapsed_ms == hybrid_ms,
        r.stages@[3].elapsed_ms == rerank_ms,
        forall|i: int| 0 <= i < 4 ==> #[trigger] r.stages@[i].partial_hits@.len() == 0,
{
    let mut stages: Vec<ReasoningStage> = Vec::new();
    stages.push(stage("bm25_topN", bm25_ms));
    stages.push(stage("ann_topN", ann_ms));
    stages.push(stage("hybrid_union", hybrid_ms));
    stages.push(stage("rerank_topK", rerank_ms));
    ReasoningTrace { stages }
}

/// Position `i` ranks before position `j`: a higher score, or an equal score
/// and an earlier position.
pub open spec fn outranks(s: Seq<u64>, i: int, j: int) -> bool {
    s[i] > s[j] || (s[i] == s[j] && i < j)
}

/// `r` lists, best first, the positions of the top `k` scores; positions
/// with equal scores keep their order.
pub open spec fn top_positions(s: Seq<u64>, r: Seq<usize>, k: nat) -> bool {
    &&& r.len() <= k
    &&& forall|a: int| 0 <= a < r.len() ==> #[trigger] r[a] < s.len()
    &&& forall|a: int, b: int| 0 <= a < b < r.len() ==> outranks(s, #[trigger] r[a] as int, #[trigger] r[b] as int)
    &&& forall|i: int|
        0 <= i < s.len() && #[trigger] unranked(r, i) ==> {
            &&& r.len() == k
            &&& forall|a: int| 0 <= a < r.len() ==> outranks(s, #[trigger] r[a] as int, i)
        }
}

/// Position `i` is not among `r`.
pub open spec fn unranked(r: Seq<usize>, i: int) -> bool {
    forall|a: int| 0 <= a < r.len() ==> r[a] != i
}

spec fn placed(out: Seq<usize>, remaining: Seq<usize>, p: int) -> bool {
    (exists|a: int| 0 <= a < out.len() && #[trigger] out[a] == p)
        || (exists|q: int| 0 <= q < remaining.len() && #[trigger] remaining[q] == p)
}

/// The positions of the `k` best scores, best first, a stable order on ties.
pub fn rank_order(scores: &Vec<u64>, k: usize) -> (r: Vec<usize>)
    ensures
        top_positions(scores@, r@, k as nat),
{
    let ghost s = scores@;
    let n = scores.len();
    let mut remaining: Vec<usize> = Vec::new();
    let mut p: usize = 0;
    while p < n
        invariant
            n == s.len(),
            p <= n,
            remaining@.len() == p,
            forall|q: int| 0 <= q < p ==> remaining@[q] == q,
        decreases n - p,
    {
        remaining.push(p);
        p = p + 1;
    }
    let mut out: Vec<usize> = Vec::new();
    assert forall|c1: int| 0 <= c1 < n implies #[trigger] placed(out@, remaining@, c1) by {
        assert(remaining@[c1] == c1);
    }
    while out.len() < k && remaining.len() > 0
        invariant
            s == scores@,
            n == s.len(),
            out@.len() <= k,
            forall|q: int| 0 <= q < remaining@.len() ==> #[trigger] remaining@[q] < n,
            forall|q1: int, q2: int| 0 <= q1 < q2 < remaining@.len() ==> remaining@[q1] != remaining@[q2],
            forall|c1: int| 0 <= c1 < n ==> #[trigger] placed(out@, remaining@, c1),
            forall|a: int| 0 <= a < out@.len() ==> #[trigger] out@[a] < n,
            forall|a: int, b: int| 0 <= a < b < out@.len() ==> outranks(s, #[trigger] out@[a] as int, #[trigger] out@[b] as int),
            forall|a: int, q: int|
                0 <= a < out@.len() && 0 <= q < remaining@.len() ==> outranks(
                    s,
                    #[trigger] out@[a] as int,
                    #[trigger] remaining@[q] as int,
                ),
        decreases remaining@.len(),
    {
        let mut best: usize = 0;
        let mut q: usize = 1;
        while q < remaining.len()
            invariant
                s == scores@,
                n == s.len(),
                forall|q: int| 0 <= q < remaining@.len() ==> #[trigger] remaining@[q] < n,
                forall|q1: int, q2: int| 0 <= q1 < q2 < remaining@.len() ==> remaining@[q1] != remaining@[q2],
                0 <= best < q <= remaining@.len(),
                forall|t: int|
                    0 <= t < q && t != best ==> outranks(s, remaining@[best as int] as int, #[trigger] remaining@[t] as int),
            decreases remaining@.len() - q,
        {
            let pq = remaining[q];
            let pb = remaining[best];
            assert(pq != pb);
            if scores[pq] > scores[pb] || (scores[pq] == scores[pb] && pq < pb) {
                best = q;
            }
            q = q + 1;
        }
        let pick = remaining[best];
        let ghost out0 = out@;
        let ghost rem0 = remaining@;
        out.push(pick);
        remaining.remove(best);
        assert(forall|q: int| 0 <= q < remaining@.len() ==> remaining@[q] == rem0[if q < best { q } else { q + 1 }]);
        assert forall|c1: int| 0 <= c1 < n implies #[trigger] placed(out@, remaining@, c1) by {
            assert(placed(out0, rem0, c1));
            if c1 == pick {
                assert(out@[out0.len() as int] == c1);
            } else if exists|a: int| 0 <= a < out0.len() && #[trigger] out0[a] == c1 {
                let a = choose|a: int| 0 <= a < out0.len() && #[trigger] out0[a] == c1;
                assert(out@[a] == out0[a]);
            } else {
                let q = choose|q: int| 0 <= q < rem0.len() && #[trigger] rem0[q] == c1;
                assert(q != best);
                if q < best {
                    assert(remaining@[q] == c1);
                } else {
                    assert(remaining@[q - 1] == c1);
                }
            }
        }
        assert forall|a: int, b: int| 0 <= a < b < out@.len() implies outranks(
            s,
            #[trigger] out@[a] as int,
            #[trigger] out@[b] as int,
        ) by {
            if b == out0.len() {
                assert(out@[a] == out0[a]);
            } else {
                assert(out@[a] == out0[a] && out@[b] == out0[b]);
            }
        }
        assert forall|a: int, q: int|
            0 <= a < out@.len() && 0 <= q < remaining@.len() implies outranks(
                s,
                #[trigger] out@[a] as int,
                #[trigger] remaining@[q] as int,
            ) by {
            let qq = if q < best { q } else { q + 1 };
            assert(remaining@[q] == rem0[qq]);
            if a < out0.len() {
                assert(out@[a] == out0[a]);
            }
        }
    }
    assert forall|i: int| 0 <= i < s.len() && #[trigger] unranked(out@, i) implies {
            &&& out@.len() == k
            &&& forall|a: int| 0 <= a < out@.len() ==> outranks(s, #[trigger] out@[a] as int, i)
        } by {
        assert(placed(out@, remaining@, i));
        if exists|a: int| 0 <= a < out@.len() && #[trigger] out@[a] == i {
            let a = choose|a: int| 0 <= a < out@.len() && #[trigger] out@[a] == i;
            assert(out@[a] != i);
        }
        let q = choose|q: int| 0 <= q < remaining@.len() && #[trigger] remaining@[q] == i;
        assert forall|a: int| 0 <= a < out@.len() implies outranks(s, #[trigger] out@[a] as int, i) by {
            assert(outranks(s, out@[a] as int, remaining@[q] as int));
        }
    }
    assert(forall|a: int| 0 <= a < out@.len() ==> #[trigger] out@[a] < s.len());
    assert(out@.len() <= k);
    assert(forall|a: int, b: int| 0 <= a < b < out@.len() ==> outranks(s, #[trigger] out@[a] as int, #[trigger] out@[b] as int));
    out
}

/// A chunk's title, or "Unknown" when it has none.
pub open spec fn title_or_unknown(t: Option<String>) -> Seq<char> {
    match t {
        Some(s) => s@,
        None => "Unknown"@,
    }
}

/// `h` is the hit for chunk `c` with rerank score `score` for `query`.
pub open spec fn hit_of(h: SearchHit, c: Chunk, score: u64, query: Seq<char>) -> bool {
    &&& h.chunk_id@ == c.id@
    &&& h.doc_id@ == c.doc_id@
    &&& h.title@ == title_or_unknown(c.metadata.title)
    &&& h.metadata.title == c.metadata.title
    &&& h.metadata.section == c.metadata.section
    &&& h.score == score
    &&& h.created_at == c.created_at
    &&& valid_utf8(snippet_spec(c.text@, query)) ==> h.snippet@ == decode_utf8(snippet_spec(c.text@, query))
}

/// `r` are the hits for the chunks whose positions `order` lists, in that
/// order, and `order` ranks the positions that have both a chunk and a score
/// by score as `top_positions` states, cut to `k`.
pub open spec fn finalized(
    chunks: Seq<Chunk>,
    scores: Seq<u64>,
    query: Seq<char>,
    k: u32,
    r: Seq<SearchHit>,
    order: Seq<usize>,
) -> bool {
    let m = if chunks.len() < scores.len() { chunks.len() } else { scores.len() };
    &&& top_positions(scores.subrange(0, m as int), order, k as nat)
    &&& r.len() == order.len()
    &&& forall|a: int|
        0 <= a < r.len() ==> hit_of(#[trigger] r[a], chunks[order[a] as int], scores[order[a] as int], query)
}

/// `r` are the final hits for these chunks and rerank scores, as `finalized`
/// states for some ranking of the positions.
pub open spec fn final_hits(chunks: Seq<Chunk>, scores: Seq<u64>, query: Seq<char>, k: u32, r: Seq<SearchHit>) -> bool {
    exists|order: Seq<usize>| #[trigger] finalized(chunks, scores, query, k, r, order)
}

fn hit_for(c: &Chunk, score: u64, query: &str) -> (r: SearchHit)
    ensures
        hit_of(r, *c, score, query@),
{
    SearchHit {
        chunk_id: c.id.clone(),
        doc_id: c.doc_id.clone(),
        title: match &c.metadata.title {
            Some(t) => t.clone(),
            None => String::from_str("Unknown"),
        },
        snippet: generate_snippet(c.text.as_str(), query),
        score,
        metadata: ChunkMetadata {
            title: match &c.metadata.title {
                Some(t) => Some(t.clone()),
                None => None,
            },
            section: c.metadata.section,
        },
        created_at: c.created_at,
    }
}

/// The final hits of a query: chunk `i` scored `scores[i]` by the reranker
/// (chunks without a score are dropped); the hits come best first, equal
/// scores in chunk order, at most `k` of them.
pub fn finalize_hits(chunks: &Vec<Chunk>, scores: &Vec<u64>, query: &str, k: u32) -> (r: Vec<SearchHit>)
    ensures
        final_hits(chunks@, scores@, query@, k, r@),
{
    let m = if chunks.len() < scores.len() { chunks.len() } else { scores.len() };
    let mut usable: Vec<u64> = Vec::new();
    let mut i: usize = 0;
    while i < m
        invariant
            m <= chunks@.len(),
            m <= scores@.len(),
            i <= m,
            usable@ == scores@.subrange(0, i as int),
        decreases m - i,
    {
        usable.push(scores[i]);
        assert(scores@.subrange(0, i + 1) =~= scores@.subrange(0, i as int).push(scores@[i as int]));
        i = i + 1;
    }
    let order = rank_order(&usable, k as usize);
    let mut r: Vec<SearchHit> = Vec::new();
    let mut a: usize = 0;
    while a < order.len()
        invariant
            m <= chunks@.len(),
            m <= scores@.len(),
            usable@ == scores@.subrange(0, m as int),
            top_positions(usable@, order@, k as nat),
            a <= order@.len(),
            r@.len() == a,
            forall|b: int|
                0 <= b < a ==> hit_of(
                    #[trigger] r@[b],
                    chunks@[order@[b] as int],
                    scores@[order@[b] as int],
                    query@,
                ),
        decreases order@.len() - a,
    {
        let p = order[a];
        assert(p < usable@.len());
        r.push(hit_for(&chunks[p], scores[p], query));
        a = a + 1;
    }
    let ghost mm = if chunks@.len() < scores@.len() { chunks@.len() } else { scores@.len() };
    assert(mm == m);
    assert(top_positions(scores@.subrange(0, mm as int), order@, k as nat));
    assert(finalized(chunks@, scores@, query@, k, r@, order@));
    r
}

/// The text the reranker scores for one candidate.
pub fn rerank_text(query: &str, title: &str, body: &str) -> (r: String)
    ensures
        r@ == query@ + " [SEP] "@ + title@ + " [SEP] "@ + body@,
{
    let mut s = String::from_str(query);
    s.append(" [SEP] ");
    s.append(title);
    s.append(" [SEP] ");
    s.append(body);
    s
}

/// The reranker's inputs for the hydrated candidates, in their order: each
/// chunk's id stands as title and its text as body.
pub fn rerank_inputs(query: &str, chunks: &Vec<Chunk>) -> (r: Vec<String>)
    ensures
        r@.len() == chunks@.len(),
        forall|i: int|
            0 <= i < r@.len() ==> (#[trigger] r@[i])@ == query@ + " [SEP] "@ + chunks@[i].id@ + " [SEP] "@
                + chunks@[i].text@,
{
    let mut r: Vec<String> = Vec::new();
    let mut i: usize = 0;
    while i < chunks.len()
        invariant
            i <= chunks@.len(),
            r@.len() == i,
            forall|j: int|
                0 <= j < i ==> (#[trigger] r@[j])@ == query@ + " [SEP] "@ + chunks@[j].id@ + " [SEP] "@
                    + chunks@[j].text@,
        decreases chunks@.len() - i,
    {
        r.push(rerank_text(query, chunks[i].id.as_str(), chunks[i].text.as_str()));
        i = i + 1;
    }
    r
}

/// The hybrid retriever: its weights and cut-offs. Each query runs as a
/// `SearchSession` that it starts.
pub struct HybridIndex {
    pub config: RetrievalConfig,
}

impl HybridIndex {
    pub fn new(config: RetrievalConfig) -> (r: HybridIndex)
        ensures
            r.config == config,
    {
        HybridIndex { config }
    }

    /// Starts a query: the session and its first step, the lexical search.
    pub fn search(&self, request: &QueryRequest) -> (r: (SearchSession, SearchStep))
        ensures
            r.0.query@ == request.query@,
            r.0.k == request.k,
            r.0.rerank_top == self.config.rerank_top,
            r.0.alpha_milli == self.config.alpha_milli,
            r.0.beta_milli == self.config.beta_milli,
            r.0.phase is AwaitLexical,
            r.1 matches SearchStep::Lexical { limit } && limit == self.config.rerank_top,
    {
        SearchSession::start(request, &self.config)
    }
}

/// The position of the first row at or after `p` with chunk id `id`.
pub open spec fn first_with(rows: Seq<Chunk>, id: Seq<char>, p: int) -> Option<int>
    decreases rows.len() - p,
{
    if p < 0 || p >= rows.len() {
        None
    } else if rows[p].id@ == id {
        Some(p)
    } else {
        first_with(rows, id, p + 1)
    }
}

/// The rows for `ids`, in the order of `ids`: for each id the first row that
/// is left with that id, if any; rows for other ids are dropped.
pub open spec fn take_rows(ids: Seq<Seq<char>>, rows: Seq<Chunk>) -> Seq<Chunk>
    decreases ids.len(),
{
    if ids.len() == 0 {
        seq![]
    } else {
        match first_with(rows, ids[0], 0) {
            Some(p) => seq![rows[p]] + take_rows(ids.drop_first(), rows.remove(p)),
            None => take_rows(ids.drop_first(), rows),
        }
    }
}

pub open spec fn candidate_ids(c: Seq<Ranked>) -> Seq<Seq<char>> {
    c.map_values(|x: Ranked| x.id@)
}

proof fn lemma_first_with(rows: Seq<Chunk>, id: Seq<char>, p: int)
    requires
        0 <= p,
    ensures
        first_with(rows, id, p) matches Some(q) ==> p <= q < rows.len() && rows[q].id@ == id,
    decreases rows.len() - p,
{
    if p < rows.len() && rows[p].id@ != id {
        lemma_first_with(rows, id, p + 1);
    }
}

/// Each row taken carries one of the ids, and with distinct ids no two rows
/// taken share an id.
pub proof fn lemma_take_rows_ids(ids: Seq<Seq<char>>, rows: Seq<Chunk>)
    ensures
        take_rows(ids, rows).len() <= ids.len(),
        forall|i: int|
            0 <= i < take_rows(ids, rows).len() ==> ids.contains(#[trigger] take_rows(ids, rows)[i].id@),
        (forall|a: int, b: int| 0 <= a < b < ids.len() ==> ids[a] != ids[b]) ==> forall|i: int, j: int|
            0 <= i < j < take_rows(ids, rows).len() ==> #[trigger] take_rows(ids, rows)[i].id@
                != #[trigger] take_rows(ids, rows)[j].id@,
    decreases ids.len(),
{
    if ids.len() > 0 {
        let rest_ids = ids.drop_first();
        lemma_first_with(rows, ids[0], 0);
        let out = take_rows(ids, rows);
        match first_with(rows, ids[0], 0) {
            Some(p) => {
                let rest = take_rows(rest_ids, rows.remove(p));
                lemma_take_rows_ids(rest_ids, rows.remove(p));
                assert(out == seq![rows[p]] + rest);
                assert forall|i: int| 0 <= i < out.len() implies ids.contains(#[trigger] out[i].id@) by {
                    if i == 0 {
                        assert(ids[0] == out[0].id@);
                    } else {
                        assert(out[i] == rest[i - 1]);
                        let k = choose|k: int| 0 <= k < rest_ids.len() && rest_ids[k] == rest[i - 1].id@;
                        assert(ids[k + 1] == rest_ids[k]);
                    }
                }
                if forall|a: int, b: int| 0 <= a < b < ids.len() ==> ids[a] != ids[b] {
                    assert(forall|a: int, b: int| 0 <= a < b < rest_ids.len() ==> rest_ids[a] == ids[a + 1] && rest_ids[b] == ids[b + 1]);
                    assert forall|i: int, j: int| 0 <= i < j < out.len() implies #[trigger] out[i].id@ != #[trigger] out[j].id@ by {
                        assert(out[j] == rest[j - 1]);
                        assert(rest_ids.contains(rest[j - 1].id@));
                        if i == 0 {
                            let k = choose|k: int| 0 <= k < rest_ids.len() && rest_ids[k] == rest[j - 1].id@;
                            assert(ids[k + 1] == rest_ids[k]);
                        } else {
                            assert(out[i] == rest[i - 1]);
                        }
                    }
                }
            },
            None => {
                lemma_take_rows_ids(rest_ids, rows);
                assert forall|i: int| 0 <= i < out.len() implies ids.contains(#[trigger] out[i].id@) by {
                    let k = choose|k: int| 0 <= k < rest_ids.len() && rest_ids[k] == out[i].id@;
                    assert(ids[k + 1] == rest_ids[k]);
                }
                if forall|a: int, b: int| 0 <= a < b < ids.len() ==> ids[a] != ids[b] {
                    assert(forall|a: int, b: int| 0 <= a < b < rest_ids.len() ==> rest_ids[a] == ids[a + 1] && rest_ids[b] == ids[b + 1]);
                }
            },
        }
    }
}

/// The hydrated rows put in candidate order, as `take_rows` states: rows of
/// ids that are no candidates, and repeated rows, are dropped.
pub fn rows_in_candidate_order(candidates: &Vec<Ranked>, rows: Vec<Chunk>) -> (r: Vec<Chunk>)
    ensures
        r@ == take_rows(candidate_ids(candidates@), rows@),
{
    let ghost ids = candidate_ids(candidates@);
    let ghost rows0 = rows@;
    let n = candidates.len();
    let mut rest = rows;
    let mut out: Vec<Chunk> = Vec::new();
    let mut k: usize = 0;
    assert(ids.subrange(0, n as int) =~= ids);
    while k < n
        invariant
            n == candidates@.len(),
            ids == candidate_ids(candidates@),
            k <= n,
            out@ + take_rows(ids.subrange(k as int, n as int), rest@) == take_rows(ids, rows0),
        decreases n - k,
    {
        let ghost sub = ids.subrange(k as int, n as int);
        assert(sub[0] == candidates@[k as int].id@);
        assert(sub.drop_first() =~= ids.subrange(k + 1, n as int));
        let id = &candidates[k].id;
        let mut p: usize = 0;
        while p < rest.len() && !(rest[p].id == *id)
            invariant
                p <= rest@.len(),
                first_with(rest@, id@, p as int) == first_with(rest@, id@, 0),
            decreases rest@.len() - p,
        {
            p = p + 1;
        }
        if p < rest.len() {
            let ghost before = rest@;
            let c = rest.remove(p);
            proof {
                assert(take_rows(sub, before) == seq![c] + take_rows(sub.drop_first(), rest@));
            }
            out.push(c);
            assert(out@ + take_rows(ids.subrange(k + 1, n as int), rest@) =~= take_rows(ids, rows0));
        } else {
            assert(first_with(rest@, id@, p as int) is None);
        }
        k = k + 1;
    }
    assert(ids.subrange(n as int, n as int) =~= Seq::<Seq<char>>::empty());
    assert(out@ + take_rows(ids.subrange(k as int, n as int), rest@) =~= out@);
    out
}

/// What a query needs next from the outside, or how it ended.
pub enum SearchStep {
    /// Run the lexical search for the query, keeping `limit` results.
    Lexical { limit: usize },
    /// Embed the query and run the dense search, keeping `limit` results.
    Dense { limit: usize },
    /// Fetch the rows of these chunks.
    Hydrate { ids: Vec<String> },
    /// Score these texts with the reranker, in order.
    Rerank { texts: Vec<String> },
    /// The query's hits and trace; `degraded` when one retrieval branch failed
    /// and the query went on without it.
    Done { hits: Vec<SearchHit>, trace: ReasoningTrace, degraded: bool },
    Failed(ApiError),
}

/// What the outside reports back. `None` results mean the branch failed.
/// Each elapsed time is that of the stage the event closes: the lexical
/// search, the dense search, the fusion step, and hydration with reranking.
pub enum SearchEvent {
    LexicalDone { results: Option<Vec<(String, u64)>>, elapsed_ms: u64 },
    DenseDone { results: Option<Vec<(String, u64)>>, elapsed_ms: u64 },
    Hydrated { chunks: Vec<Chunk>, fusion_ms: u64 },
    Reranked { scores: Option<Vec<u64>>, elapsed_ms: u64 },
}

pub enum SearchPhase {
    AwaitLexical,
    AwaitDense,
    AwaitChunks,
    AwaitScores,
    Finished,
}

/// The state of one query between its outside calls.
pub struct SearchSession {
    pub query: String,
    pub k: u32,
    pub rerank_top: usize,
    pub alpha_milli: u32,
    pub beta_milli: u32,
    pub phase: SearchPhase,
    pub lexical: Vec<(String, u64)>,
    pub lexical_failed: bool,
    pub dense_failed: bool,
    pub dense: Vec<(String, u64)>,
    pub candidates: Vec<Ranked>,
    pub chunks: Vec<Chunk>,
    pub bm25_ms: u64,
    pub ann_ms: u64,
    pub fusion_ms: u64,
}

impl SearchSession {
    /// Starts a query; the first step is always the lexical search.
    pub fn start(request: &QueryRequest, config: &RetrievalConfig) -> (r: (SearchSession, SearchStep))
        ensures
            r.0.query@ == request.query@,
            r.0.k == request.k,
            r.0.rerank_top == config.rerank_top,
            r.0.alpha_milli == config.alpha_milli,
            r.0.beta_milli == config.beta_milli,
            r.0.phase is AwaitLexical,
            r.1 matches SearchStep::Lexical { limit } && limit == config.rerank_top,
    {
        let session = SearchSession {
            query: request.query.clone(),
            k: request.k,
            rerank_top: config.rerank_top,
            alpha_milli: config.alpha_milli,
            beta_milli: config.beta_milli,
            phase: SearchPhase::AwaitLexical,
            lexical: Vec::new(),
            lexical_failed: false,
            dense_failed: false,
            dense: Vec::new(),
            candidates: Vec::new(),
            chunks: Vec::new(),
            bm25_ms: 0,
            ann_ms: 0,
            fusion_ms: 0,
        };
        (session, SearchStep::Lexical { limit: config.rerank_top })
    }

    /// The fusion that this session's retrieval results call for.
    pub open spec fn fusion(&self) -> FusionInput {
        FusionInput {
            lexical: hits_view(self.lexical@),
            dense: hits_view(self.dense@),
            alpha: self.alpha_milli,
            beta: self.beta_milli,
        }
    }

    /// Takes the outcome of the step asked for last and decides the next.
    /// A failed branch of retrieval counts as empty; both failing ends the
    /// query, as does a failed reranker or an event out of order.
    pub fn step(&mut self, event: SearchEvent) -> (r: SearchStep)
        ensures
            final(self).query == old(self).query,
            final(self).k == old(self).k,
            final(self).rerank_top == old(self).rerank_top,
            final(self).alpha_milli == old(self).alpha_milli,
            final(self).beta_milli == old(self).beta_milli,
            match (old(self).phase, event) {
                (SearchPhase::AwaitLexical, SearchEvent::LexicalDone { results, elapsed_ms }) => {
                    &&& final(self).phase is AwaitDense
                    &&& final(self).bm25_ms == elapsed_ms
                    &&& final(self).lexical_failed == results is None
                    &&& final(self).lexical@ == match results {
                        Some(v) => v@,
                        None => Seq::empty(),
                    }
                    &&& r matches SearchStep::Dense { limit } && limit == old(self).rerank_top
                },
                _ => true,
            },
            match (old(self).phase, event) {
                (SearchPhase::AwaitDense, SearchEvent::DenseDone { results, elapsed_ms }) => {
                    if old(self).lexical_failed && results is None {
                        &&& final(self).phase is Finished
                        &&& r matches SearchStep::Failed(e) && e is Internal
                    } else {
                        &&& final(self).phase is AwaitChunks
                        &&& final(self).ann_ms == elapsed_ms
                        &&& final(self).lexical == old(self).lexical
                        &&& final(self).lexical_failed == old(self).lexical_failed
                        &&& final(self).dense_failed == results is None
                        &&& final(self).dense@ == match results {
                            Some(v) => v@,
                            None => Seq::empty(),
                        }
                        &&& final(self).fusion().ranked(
                            ranked_view(final(self).candidates@),
                            old(self).rerank_top as nat,
                        )
                        &&& r matches SearchStep::Hydrate { ids } && ids@.len()
                            == final(self).candidates@.len() && forall|i: int|
                            0 <= i < ids@.len() ==> (#[trigger] ids@[i])@ == final(self).candidates@[i].id@
                    }
                },
                _ => true,
            },
            match (old(self).phase, event) {
                (SearchPhase::AwaitChunks, SearchEvent::Hydrated { chunks, fusion_ms }) => {
                    &&& final(self).phase is AwaitScores
                    &&& final(self).fusion_ms == fusion_ms
                    &&& final(self).bm25_ms == old(self).bm25_ms
                    &&& final(self).ann_ms == old(self).ann_ms
                    &&& final(self).lexical_failed == old(self).lexical_failed
                    &&& final(self).dense_failed == old(self).dense_failed
                    &&& final(self).candidates == old(self).candidates
                    &&& final(self).chunks@ == take_rows(candidate_ids(old(self).candidates@), chunks@)
                    &&& r matches SearchStep::Rerank { texts } && texts@.len() == final(self).chunks@.len()
                        && forall|i: int|
                        0 <= i < texts@.len() ==> (#[trigger] texts@[i])@ == old(self).query@ + " [SEP] "@
                            + final(self).chunks@[i].id@ + " [SEP] "@ + final(self).chunks@[i].text@
                },
                _ => true,
            },
            match (old(self).phase, event) {
                (SearchPhase::AwaitScores, SearchEvent::Reranked { scores, elapsed_ms }) => {
                    &&& final(self).phase is Finished
                    &&& match scores {
                        Some(s) => r matches SearchStep::Done { hits, trace, degraded } && {
                            &&& degraded == (old(self).lexical_failed || old(self).dense_failed)
                            &&& final_hits(old(self).chunks@, s@, old(self).query@, old(self).k, hits@)
                            &&& trace.stages@.len() == 4
                            &&& trace.stages@[0].stage@ == "bm25_topN"@
                            &&& trace.stages@[1].stage@ == "ann_topN"@
                            &&& trace.stages@[2].stage@ == "hybrid_union"@
                            &&& trace.stages@[3].stage@ == "rerank_topK"@
                            &&& trace.stages@[0].elapsed_ms == old(self).bm25_ms
                            &&& trace.stages@[1].elapsed_ms == old(self).ann_ms
                            &&& trace.stages@[2].elapsed_ms == old(self).fusion_ms
                            &&& trace.stages@[3].elapsed_ms == elapsed_ms
                        },
                        None => r matches SearchStep::Failed(e) && e is Internal,
                    }
                },
                _ => true,
            },
            match (old(self).phase, event) {
                (SearchPhase::AwaitLexical, SearchEvent::LexicalDone { .. }) => true,
                (SearchPhase::AwaitDense, SearchEvent::DenseDone { .. }) => true,
                (SearchPhase::AwaitChunks, SearchEvent::Hydrated { .. }) => true,
                (SearchPhase::AwaitScores, SearchEvent::Reranked { .. }) => true,
                _ => final(self).phase is Finished && (r matches SearchStep::Failed(e) && e is Internal),
            },
    {
        match (&self.phase, event) {
            (SearchPhase::AwaitLexical, SearchEvent::LexicalDone { results, elapsed_ms }) => {
                self.bm25_ms = elapsed_ms;
                match results {
                    Some(v) => {
                        self.lexical = v;
                        self.lexical_failed = false;
                    },
                    None => {
                        self.lexical = Vec::new();
                        self.lexical_failed = true;
                    },
                }
                self.phase = SearchPhase::AwaitDense;
                SearchStep::Dense { limit: self.rerank_top }
            },
            (SearchPhase::AwaitDense, SearchEvent::DenseDone { results, elapsed_ms }) => {
                if self.lexical_failed && results.is_none() {
                    self.phase = SearchPhase::Finished;
                    return SearchStep::Failed(
                        ApiError::Internal(String::from_str("both lexical and dense retrieval failed")),
                    );
                }
                self.ann_ms = elapsed_ms;
                self.dense_failed = results.is_none();
                self.dense = match results {
                    Some(v) => v,
                    None => Vec::new(),
                };
                let candidates = fuse(&self.lexical, &self.dense, self.alpha_milli, self.beta_milli, self.rerank_top);
                let mut ids: Vec<String> = Vec::new();
                let mut i: usize = 0;
                while i < candidates.len()
                    invariant
                        i <= candidates@.len(),
                        ids@.len() == i,
                        forall|j: int| 0 <= j < i ==> (#[trigger] ids@[j])@ == candidates@[j].id@,
                    decreases candidates@.len() - i,
                {
                    ids.push(candidates[i].id.clone());
                    i = i + 1;
                }
                self.candidates = candidates;
                self.phase = SearchPhase::AwaitChunks;
                SearchStep::Hydrate { ids }
            },
            (SearchPhase::AwaitChunks, SearchEvent::Hydrated { chunks, fusion_ms }) => {
                self.fusion_ms = fusion_ms;
                let ordered = rows_in_candidate_order(&self.candidates, chunks);
                let texts = rerank_inputs(self.query.as_str(), &ordered);
                self.chunks = ordered;
                self.phase = SearchPhase::AwaitScores;
                SearchStep::Rerank { texts }
            },
            (SearchPhase::AwaitScores, SearchEvent::Reranked { scores, elapsed_ms }) => {
                self.phase = SearchPhase::Finished;
                match scores {
                    Some(s) => {
                        let q = self.query.as_str();
                        let hits = finalize_hits(&self.chunks, &s, q, self.k);
                        let trace = build_trace(self.bm25_ms, self.ann_ms, self.fusion_ms, elapsed_ms);
                        let degraded = self.lexical_failed || self.dense_failed;
                        SearchStep::Done { hits, trace, degraded }
                    },
                    None => SearchStep::Failed(ApiError::Internal(String::from_str("reranking failed"))),
                }
            },
            _ => {
                self.phase = SearchPhase::Finished;
                SearchStep::Failed(ApiError::Internal(String::from_str("search event out of order")))
            },
        }
    }
}

} // verus!
