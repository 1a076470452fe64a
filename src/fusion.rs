//! Weighted fusion of lexical and dense retrieval results.
//!
//! Scores are fixed-point: `SCORE_ONE` units stand for 1.0. Weights are in
//! thousandths. The fused score of an id is `alpha * bm25 + beta * ann`, where
//! a side on which the id was not found counts 0. Candidates are ranked by
//! fused score, highest first, ties broken by the id's bytes in
//! lexicographic order.

use vstd::prelude::*;
use vstd::string::*;
use vstd::utf8::*;

verus! {

/// Fixed-point units that stand for a score of 1.0.
pub const SCORE_ONE: u64 = 1000000;

/// Lexicographic order on byte strings, a proper prefix first.
pub open spec fn lex_less(a: Seq<u8>, b: Seq<u8>) -> bool
    decreases a.len(),
{
    if a.len() == 0 {
        b.len() > 0
    } else if b.len() == 0 {
        false
    } else if a[0] != b[0] {
        a[0] < b[0]
    } else {
        lex_less(a.drop_first(), b.drop_first())
    }
}

proof fn lemma_lex_irreflexive(a: Seq<u8>)
    ensures
        !lex_less(a, a),
    decreases a.len(),
{
    if a.len() > 0 {
        lemma_lex_irreflexive(a.drop_first());
    }
}

proof fn lemma_lex_total(a: Seq<u8>, b: Seq<u8>)
    ensures
        a != b ==> lex_less(a, b) || lex_less(b, a),
        !(lex_less(a, b) && lex_less(b, a)),
    decreases a.len(),
{
    if a.len() > 0 && b.len() > 0 && a[0] == b[0] {
        lemma_lex_total(a.drop_first(), b.drop_first());
        if a != b {
            assert(a =~= seq![a[0]] + a.drop_first());
            assert(b =~= seq![b[0]] + b.drop_first());
        }
    } else if a.len() == 0 && b.len() == 0 {
        assert(a =~= b);
    }
}

proof fn lemma_lex_transitive(a: Seq<u8>, b: Seq<u8>, c: Seq<u8>)
    requires
        lex_less(a, b),
        lex_less(b, c),
    ensures
        lex_less(a, c),
    decreases a.len(),
{
    if a.len() > 0 && b.len() > 0 && c.len() > 0 && a[0] == b[0] && b[0] == c[0] {
        lemma_lex_transitive(a.drop_first(), b.drop_first(), c.drop_first());
    }
}

/// Compares two byte strings lexicographically.
pub fn bytes_less(a: &[u8], b: &[u8]) -> (r: bool)
    ensures
        r == lex_less(a@, b@),
{
    let mut i: usize = 0;
    assert(a@.subrange(0, a@.len() as int) =~= a@);
    assert(b@.subrange(0, b@.len() as int) =~= b@);
    while i < a.len() && i < b.len() && a[i] == b[i]
        invariant
            i <= a@.len(),
            i <= b@.len(),
            lex_less(a@, b@) == lex_less(a@.subrange(i as int, a@.len() as int), b@.subrange(i as int, b@.len() as int)),
        decreases a@.len() - i,
    {
        let ghost sa = a@.subrange(i as int, a@.len() as int);
        let ghost sb = b@.subrange(i as int, b@.len() as int);
        assert(sa.drop_first() =~= a@.subrange(i + 1, a@.len() as int));
        assert(sb.drop_first() =~= b@.subrange(i + 1, b@.len() as int));
        i = i + 1;
    }
    let ghost sa = a@.subrange(i as int, a@.len() as int);
    let ghost sb = b@.subrange(i as int, b@.len() as int);
    if i == a.len() {
        i < b.len()
    } else if i == b.len() {
        false
    } else {
        assert(sa[0] == a@[i as int] && sb[0] == b@[i as int]);
        a[i] < b[i]
    }
}

/// The fused score of an id with these lexical and dense scores.
pub open spec fn fused(alpha: u32, beta: u32, bm25: u64, ann: u64) -> int {
    alpha * bm25 + beta * ann
}

/// Whoever scores at least as well on both sides scores at least as well
/// after fusion.
pub proof fn lemma_fusion_monotone(alpha: u32, beta: u32, bm25_x: u64, ann_x: u64, bm25_y: u64, ann_y: u64)
    requires
        bm25_x >= bm25_y,
        ann_x >= ann_y,
    ensures
        fused(alpha, beta, bm25_x, ann_x) >= fused(alpha, beta, bm25_y, ann_y),
{
    assert(alpha * bm25_x >= alpha * bm25_y) by (nonlinear_arith)
        requires bm25_x >= bm25_y, alpha >= 0;
    assert(beta * ann_x >= beta * ann_y) by (nonlinear_arith)
        requires ann_x >= ann_y, beta >= 0;
}

/// An id found at least as high as another by both retrievals gets a fused
/// score at least as high.
pub proof fn lemma_fused_score_monotone(f: FusionInput, x: Seq<char>, y: Seq<char>)
    requires
        score_in(f.lexical, x) >= score_in(f.lexical, y),
        score_in(f.dense, x) >= score_in(f.dense, y),
    ensures
        f.score(x) >= f.score(y),
{
    lemma_fusion_monotone(
        f.alpha,
        f.beta,
        score_in(f.lexical, x),
        score_in(f.dense, x),
        score_in(f.lexical, y),
        score_in(f.dense, y),
    );
}

/// A retrieval result list as ids and scores.
pub open spec fn hits_view(v: Seq<(String, u64)>) -> Seq<(Seq<char>, u64)> {
    v.map_values(|p: (String, u64)| (p.0@, p.1))
}

/// The score of the last entry for `id` in `list`, 0 when it has none.
pub open spec fn score_in(list: Seq<(Seq<char>, u64)>, id: Seq<char>) -> u64
    decreases list.len(),
{
    if list.len() == 0 {
        0
    } else if list.last().0 == id {
        list.last().1
    } else {
        score_in(list.drop_last(), id)
    }
}

pub open spec fn listed(list: Seq<(Seq<char>, u64)>, id: Seq<char>) -> bool {
    exists|i: int| 0 <= i < list.len() && #[trigger] list[i].0 == id
}

/// The parameters of one fusion: both result lists and both weights.
pub struct FusionInput {
    pub lexical: Seq<(Seq<char>, u64)>,
    pub dense: Seq<(Seq<char>, u64)>,
    pub alpha: u32,
    pub beta: u32,
}

impl FusionInput {
    pub open spec fn candidate(&self, id: Seq<char>) -> bool {
        listed(self.lexical, id) || listed(self.dense, id)
    }

    pub open spec fn score(&self, id: Seq<char>) -> int {
        fused(self.alpha, self.beta, score_in(self.lexical, id), score_in(self.dense, id))
    }

    /// `x` ranks strictly before `y`.
    pub open spec fn before(&self, x: Seq<char>, y: Seq<char>) -> bool {
        self.score(x) > self.score(y) || (self.score(x) == self.score(y) && lex_less(
            encode_utf8(x),
            encode_utf8(y),
        ))
    }

    /// `r` lists, best first, the top candidates up to `limit`, each with
    /// its fused score.
    pub open spec fn ranked(&self, r: Seq<(Seq<char>, int)>, limit: nat) -> bool {
        &&& r.len() <= limit
        &&& forall|i: int| 0 <= i < r.len() ==> self.candidate(#[trigger] r[i].0) && r[i].1 == self.score(r[i].0)
        &&& forall|i: int, j: int| 0 <= i < j < r.len() ==> self.before(#[trigger] r[i].0, #[trigger] r[j].0)
        &&& forall|id: Seq<char>|
            #![trigger self.candidate(id)]
            self.candidate(id) && (forall|i: int| 0 <= i < r.len() ==> r[i].0 != id) ==> {
                &&& r.len() == limit
                &&& forall|i: int| 0 <= i < r.len() ==> self.before(#[trigger] r[i].0, id)
            }
    }
}

proof fn lemma_before_total(f: FusionInput, x: Seq<char>, y: Seq<char>)
    ensures
        x != y ==> f.before(x, y) || f.before(y, x),
        !(f.before(x, y) && f.before(y, x)),
        !f.before(x, x),
{
    lemma_lex_total(encode_utf8(x), encode_utf8(y));
    lemma_lex_irreflexive(encode_utf8(x));
    if x != y {
        encode_utf8_decode_utf8(x);
        encode_utf8_decode_utf8(y);
    }
}

/// The ids of a ranking are pairwise distinct.
pub proof fn lemma_ranked_distinct(f: FusionInput, r: Seq<(Seq<char>, int)>, limit: nat)
    requires
        f.ranked(r, limit),
    ensures
        forall|i: int, j: int| 0 <= i < j < r.len() ==> r[i].0 != r[j].0,
{
    assert forall|i: int, j: int| 0 <= i < j < r.len() implies r[i].0 != r[j].0 by {
        assert(f.before(r[i].0, r[j].0));
        lemma_before_total(f, r[i].0, r[i].0);
    }
}

proof fn lemma_before_transitive(f: FusionInput, x: Seq<char>, y: Seq<char>, z: Seq<char>)
    requires
        f.before(x, y),
        f.before(y, z),
    ensures
        f.before(x, z),
{
    if f.score(x) == f.score(y) && f.score(y) == f.score(z) {
        lemma_lex_transitive(encode_utf8(x), encode_utf8(y), encode_utf8(z));
    }
}

proof fn lemma_score_in_push(list: Seq<(Seq<char>, u64)>, i: int, id: Seq<char>)
    requires
        0 <= i < list.len(),
    ensures
        score_in(list.subrange(0, i + 1), id) == if list[i].0 == id {
            list[i].1
        } else {
            score_in(list.subrange(0, i), id)
        },
{
    assert(list.subrange(0, i + 1).drop_last() =~= list.subrange(0, i));
}

proof fn lemma_score_in_unlisted(list: Seq<(Seq<char>, u64)>, id: Seq<char>)
    requires
        !listed(list, id),
    ensures
        score_in(list, id) == 0,
    decreases list.len(),
{
    if list.len() > 0 {
        assert(list.last().0 == list[list.len() - 1].0);
        assert(!listed(list.drop_last(), id)) by {
            if listed(list.drop_last(), id) {
                let k = choose|k: int| 0 <= k < list.drop_last().len() && #[trigger] list.drop_last()[k].0 == id;
                assert(list[k].0 == id);
            }
        }
        lemma_score_in_unlisted(list.drop_last(), id);
    }
}

/// One id of the union with its score on each side.
pub struct Candidate {
    pub id: String,
    pub bm25: u64,
    pub ann: u64,
}

/// An id with its fused score.
pub struct Ranked {
    pub id: String,
    pub score: u128,
}

pub open spec fn ranked_view(r: Seq<Ranked>) -> Seq<(Seq<char>, int)> {
    r.map_values(|x: Ranked| (x.id@, x.score as int))
}

fn position_of(cands: &Vec<Candidate>, id: &String) -> (r: Option<usize>)
    ensures
        match r {
            Some(p) => p < cands@.len() && cands@[p as int].id@ == id@,
            None => forall|p: int| 0 <= p < cands@.len() ==> cands@[p].id@ != id@,
        },
{
    let mut p: usize = 0;
    while p < cands.len()
        invariant
            p <= cands@.len(),
            forall|q: int| 0 <= q < p ==> cands@[q].id@ != id@,
        decreases cands@.len() - p,
    {
        if cands[p].id == *id {
            return Some(p);
        }
        p = p + 1;
    }
    None
}

/// The union of both lists, each id once, with its last score on each side
/// (0 where it is missing).
fn union_of(lexical: &Vec<(String, u64)>, dense: &Vec<(String, u64)>) -> (r: Vec<Candidate>)
    ensures
        forall|p: int, q: int| 0 <= p < q < r@.len() ==> r@[p].id@ != r@[q].id@,
        forall|p: int|
            #![trigger r@[p]]
            0 <= p < r@.len() ==> {
                &&& (listed(hits_view(lexical@), r@[p].id@) || listed(hits_view(dense@), r@[p].id@))
                &&& r@[p].bm25 == score_in(hits_view(lexical@), r@[p].id@)
                &&& r@[p].ann == score_in(hits_view(dense@), r@[p].id@)
            },
        forall|id: Seq<char>|
            listed(hits_view(lexical@), id) || listed(hits_view(dense@), id) ==> exists|p: int|
                0 <= p < r@.len() && #[trigger] r@[p].id@ == id,
{
    let ghost lex = hits_view(lexical@);
    let ghost den = hits_view(dense@);
    let mut r: Vec<Candidate> = Vec::new();
    let mut i: usize = 0;
    while i < lexical.len()
        invariant
            lex == hits_view(lexical@),
            i <= lexical@.len(),
            forall|p: int, q: int| 0 <= p < q < r@.len() ==> r@[p].id@ != r@[q].id@,
            forall|p: int|
                #![trigger r@[p]]
                0 <= p < r@.len() ==> {
                    &&& listed(lex.subrange(0, i as int), r@[p].id@)
                    &&& r@[p].bm25 == score_in(lex.subrange(0, i as int), r@[p].id@)
                    &&& r@[p].ann == 0
                },
            forall|id: Seq<char>|
                listed(lex.subrange(0, i as int), id) ==> exists|p: int|
                    0 <= p < r@.len() && #[trigger] r@[p].id@ == id,
        decreases lexical@.len() - i,
    {
        let ghost before = r@;
        let ghost sub1 = lex.subrange(0, i + 1);
        let ghost sub0 = lex.subrange(0, i as int);
        assert(lex[i as int] == (lexical@[i as int].0@, lexical@[i as int].1));
        let id = &lexical[i].0;
        let s = lexical[i].1;
        let pos = match position_of(&r, id) {
            Some(p) => {
                r.set(p, Candidate { id: id.clone(), bm25: s, ann: 0 });
                p
            },
            None => {
                r.push(Candidate { id: id.clone(), bm25: s, ann: 0 });
                r.len() - 1
            },
        };
        assert(r@[pos as int].id@ == id@);
        assert(forall|p: int| 0 <= p < before.len() && p != pos ==> r@[p] == before[p]);
        assert forall|p: int|
            #![trigger r@[p]]
            0 <= p < r@.len() implies {
                &&& listed(sub1, r@[p].id@)
                &&& r@[p].bm25 == score_in(sub1, r@[p].id@)
                &&& r@[p].ann == 0
            } by {
            lemma_score_in_push(lex, i as int, r@[p].id@);
            if r@[p].id@ == id@ {
                assert(sub1[i as int].0 == id@);
            } else {
                assert(before[p] == r@[p]);
                let k = choose|k: int| 0 <= k < sub0.len() && #[trigger] sub0[k].0 == r@[p].id@;
                assert(sub1[k] == sub0[k]);
            }
        }
        assert forall|x: Seq<char>| listed(sub1, x) implies exists|p: int|
            0 <= p < r@.len() && #[trigger] r@[p].id@ == x by {
            if x == id@ {
                assert(r@[pos as int].id@ == x);
            } else {
                let k = choose|k: int| 0 <= k < sub1.len() && #[trigger] sub1[k].0 == x;
                assert(k != i);
                assert(sub0[k] == sub1[k]);
                assert(sub0[k].0 == x);
                assert(listed(sub0, x));
                let p = choose|p: int| 0 <= p < before.len() && #[trigger] before[p].id@ == x;
                assert(p != pos);
                assert(r@[p].id@ == x);
            }
        }
        i = i + 1;
    }
    assert(lex.subrange(0, i as int) =~= lex);
    let mut j: usize = 0;
    while j < dense.len()
        invariant
            lex == hits_view(lexical@),
            den == hits_view(dense@),
            j <= dense@.len(),
            forall|p: int, q: int| 0 <= p < q < r@.len() ==> r@[p].id@ != r@[q].id@,
            forall|p: int|
                #![trigger r@[p]]
                0 <= p < r@.len() ==> {
                    &&& (listed(lex, r@[p].id@) || listed(den.subrange(0, j as int), r@[p].id@))
                    &&& r@[p].bm25 == score_in(lex, r@[p].id@)
                    &&& r@[p].ann == score_in(den.subrange(0, j as int), r@[p].id@)
                },
            forall|id: Seq<char>|
                listed(lex, id) || listed(den.subrange(0, j as int), id) ==> exists|p: int|
                    0 <= p < r@.len() && #[trigger] r@[p].id@ == id,
        decreases dense@.len() - j,
    {
        let ghost before = r@;
        let ghost sub1 = den.subrange(0, j + 1);
        let ghost sub0 = den.subrange(0, j as int);
        assert(den[j as int] == (dense@[j as int].0@, dense@[j as int].1));
        let id = &dense[j].0;
        let s = dense[j].1;
        let pos = match position_of(&r, id) {
            Some(p) => {
                let b = r[p].bm25;
                r.set(p, Candidate { id: id.clone(), bm25: b, ann: s });
                p
            },
            None => {
                proof {
                    if listed(lex, id@) {
                        let p = choose|p: int| 0 <= p < r@.len() && #[trigger] r@[p].id@ == id@;
                    }
                    lemma_score_in_unlisted(lex, id@);
                    if listed(sub0, id@) {
                        let p = choose|p: int| 0 <= p < r@.len() && #[trigger] r@[p].id@ == id@;
                    }
                    lemma_score_in_unlisted(sub0, id@);
                }
                r.push(Candidate { id: id.clone(), bm25: 0, ann: s });
                r.len() - 1
            },
        };
        assert(r@[pos as int].id@ == id@);
        assert(forall|p: int| 0 <= p < before.len() && p != pos ==> r@[p] == before[p]);
        assert forall|p: int|
            #![trigger r@[p]]
            0 <= p < r@.len() implies {
                &&& (listed(lex, r@[p].id@) || listed(sub1, r@[p].id@))
                &&& r@[p].bm25 == score_in(lex, r@[p].id@)
                &&& r@[p].ann == score_in(sub1, r@[p].id@)
            } by {
            lemma_score_in_push(den, j as int, r@[p].id@);
            if r@[p].id@ == id@ {
                assert(sub1[j as int].0 == id@);
            } else {
                assert(before[p] == r@[p]);
                if listed(sub0, r@[p].id@) {
                    let k = choose|k: int| 0 <= k < sub0.len() && #[trigger] sub0[k].0 == r@[p].id@;
                    assert(sub1[k] == sub0[k]);
                }
            }
        }
        assert forall|x: Seq<char>| listed(lex, x) || listed(sub1, x) implies exists|p: int|
            0 <= p < r@.len() && #[trigger] r@[p].id@ == x by {
            if x == id@ {
                assert(r@[pos as int].id@ == x);
            } else {
                if !listed(lex, x) {
                    let k = choose|k: int| 0 <= k < sub1.len() && #[trigger] sub1[k].0 == x;
                    assert(k != j);
                    assert(sub0[k] == sub1[k]);
                    assert(sub0[k].0 == x);
                    assert(listed(sub0, x));
                }
                let p = choose|p: int| 0 <= p < before.len() && #[trigger] before[p].id@ == x;
                assert(p != pos);
                assert(r@[p].id@ == x);
            }
        }
        j = j + 1;
    }
    assert(den.subrange(0, j as int) =~= den);
    assert forall|x: Seq<char>| listed(lex, x) || listed(den, x) implies exists|p: int|
        0 <= p < r@.len() && #[trigger] r@[p].id@ == x by {
        assert(listed(lex, x) || listed(den.subrange(0, j as int), x));
    }
    r
}

/// Candidate `p` is either already ranked or still waiting.
spec fn covered(out: Seq<Ranked>, remaining: Seq<usize>, cands: Seq<Candidate>, p: int) -> bool {
    (exists|a: int| 0 <= a < out.len() && #[trigger] out[a].id@ == cands[p].id@)
        || (exists|q: int| 0 <= q < remaining.len() && #[trigger] remaining[q] == p)
}

fn fused_score(alpha: u32, beta: u32, c: &Candidate) -> (r: u128)
    ensures
        r == fused(alpha, beta, c.bm25, c.ann),
{
    proof {
        assert(alpha * c.bm25 <= 0xffff_ffffu128 * 0xffff_ffff_ffff_ffffu128) by (nonlinear_arith)
            requires alpha <= 0xffff_ffffu128, c.bm25 <= 0xffff_ffff_ffff_ffffu128, alpha >= 0, c.bm25 >= 0;
        assert(beta * c.ann <= 0xffff_ffffu128 * 0xffff_ffff_ffff_ffffu128) by (nonlinear_arith)
            requires beta <= 0xffff_ffffu128, c.ann <= 0xffff_ffff_ffff_ffffu128, beta >= 0, c.ann >= 0;
    }
    alpha as u128 * c.bm25 as u128 + beta as u128 * c.ann as u128
}

/// Whether candidate `x` ranks strictly before candidate `y`.
fn ranks_before(alpha: u32, beta: u32, f: Ghost<FusionInput>, x: &Candidate, y: &Candidate) -> (r: bool)
    requires
        f@.alpha == alpha,
        f@.beta == beta,
        x.bm25 == score_in(f@.lexical, x.id@),
        x.ann == score_in(f@.dense, x.id@),
        y.bm25 == score_in(f@.lexical, y.id@),
        y.ann == score_in(f@.dense, y.id@),
    ensures
        r == f@.before(x.id@, y.id@),
{
    let sx = fused_score(alpha, beta, x);
    let sy = fused_score(alpha, beta, y);
    if sx != sy {
        sx > sy
    } else {
        bytes_less(x.id.as_str().as_bytes(), y.id.as_str().as_bytes())
    }
}

/// Fuses lexical and dense results: every id found by either side, each
/// once, with its fused score, best first, cut to `limit`.
pub fn fuse(lexical: &Vec<(String, u64)>, dense: &Vec<(String, u64)>, alpha: u32, beta: u32, limit: usize) -> (r: Vec<Ranked>)
    ensures
        (FusionInput { lexical: hits_view(lexical@), dense: hits_view(dense@), alpha, beta }).ranked(
            ranked_view(r@),
            limit as nat,
        ),
{
    let ghost f = FusionInput { lexical: hits_view(lexical@), dense: hits_view(dense@), alpha, beta };
    let cands = union_of(lexical, dense);
    let n = cands.len();
    let mut remaining: Vec<usize> = Vec::new();
    let mut p: usize = 0;
    while p < n
        invariant
            n == cands@.len(),
            p <= n,
            remaining@.len() == p,
            forall|q: int| 0 <= q < p ==> remaining@[q] == q,
        decreases n - p,
    {
        remaining.push(p);
        p = p + 1;
    }
    let mut out: Vec<Ranked> = Vec::new();
    assert forall|c1: int| 0 <= c1 < n implies #[trigger] covered(out@, remaining@, cands@, c1) by {
        assert(remaining@[c1] == c1);
    }
    while out.len() < limit && remaining.len() > 0
        invariant
            n == cands@.len(),
            f == (FusionInput { lexical: hits_view(lexical@), dense: hits_view(dense@), alpha, beta }),
            forall|c1: int, c2: int| 0 <= c1 < c2 < cands@.len() ==> cands@[c1].id@ != cands@[c2].id@,
            forall|c1: int|
                #![trigger cands@[c1]]
                0 <= c1 < cands@.len() ==> {
                    &&& f.candidate(cands@[c1].id@)
                    &&& cands@[c1].bm25 == score_in(f.lexical, cands@[c1].id@)
                    &&& cands@[c1].ann == score_in(f.dense, cands@[c1].id@)
                },
            forall|id: Seq<char>| f.candidate(id) ==> exists|c1: int|
                0 <= c1 < cands@.len() && #[trigger] cands@[c1].id@ == id,
            out@.len() <= limit,
            forall|q: int| 0 <= q < remaining@.len() ==> #[trigger] remaining@[q] < n,
            forall|q1: int, q2: int| 0 <= q1 < q2 < remaining@.len() ==> remaining@[q1] != remaining@[q2],
            forall|c1: int| 0 <= c1 < n ==> #[trigger] covered(out@, remaining@, cands@, c1),
            forall|a: int|
                #![trigger out@[a]]
                0 <= a < out@.len() ==> f.candidate(out@[a].id@) && out@[a].score == f.score(out@[a].id@),
            forall|a: int, b: int| 0 <= a < b < out@.len() ==> f.before(#[trigger] out@[a].id@, #[trigger] out@[b].id@),
            forall|a: int, q: int|
                0 <= a < out@.len() && 0 <= q < remaining@.len() ==> f.before(
                    #[trigger] out@[a].id@,
                    cands@[#[trigger] remaining@[q] as int].id@,
                ),
        decreases remaining@.len(),
    {
        let mut best: usize = 0;
        let mut q: usize = 1;
        while q < remaining.len()
            invariant
                n == cands@.len(),
                f.alpha == alpha,
                f.beta == beta,
                forall|c1: int, c2: int| 0 <= c1 < c2 < cands@.len() ==> cands@[c1].id@ != cands@[c2].id@,
                forall|c1: int|
                    #![trigger cands@[c1]]
                    0 <= c1 < cands@.len() ==> {
                        &&& cands@[c1].bm25 == score_in(f.lexical, cands@[c1].id@)
                        &&& cands@[c1].ann == score_in(f.dense, cands@[c1].id@)
                    },
                forall|q: int| 0 <= q < remaining@.len() ==> #[trigger] remaining@[q] < n,
                forall|q1: int, q2: int| 0 <= q1 < q2 < remaining@.len() ==> remaining@[q1] != remaining@[q2],
                0 <= best < q <= remaining@.len(),
                forall|t: int|
                    0 <= t < q && t != best ==> f.before(
                        cands@[remaining@[best as int] as int].id@,
                        cands@[#[trigger] remaining@[t] as int].id@,
                    ),
            decreases remaining@.len() - q,
        {
            let ghost old_best = best;
            let cq = &cands[remaining[q]];
            let cb = &cands[remaining[best]];
            assert(remaining@[q as int] != remaining@[best as int]);
            if ranks_before(alpha, beta, Ghost(f), cq, cb) {
                best = q;
                assert forall|t: int|
                    0 <= t < q + 1 && t != best implies f.before(
                        cands@[remaining@[best as int] as int].id@,
                        cands@[#[trigger] remaining@[t] as int].id@,
                    ) by {
                    if t != old_best {
                        lemma_before_transitive(
                            f,
                            cq.id@,
                            cb.id@,
                            cands@[remaining@[t] as int].id@,
                        );
                    }
                }
            } else {
                proof {
                    lemma_before_total(f, cq.id@, cb.id@);
                }
            }
            q = q + 1;
        }
        let pick = remaining[best];
        let c = &cands[pick];
        let score = fused_score(alpha, beta, c);
        let ghost out0 = out@;
        let ghost rem0 = remaining@;
        out.push(Ranked { id: c.id.clone(), score });
        remaining.remove(best);
        assert(forall|q: int| 0 <= q < remaining@.len() ==> remaining@[q] == rem0[if q < best { q } else { q + 1 }]);
        assert forall|c1: int| 0 <= c1 < n implies #[trigger] covered(out@, remaining@, cands@, c1) by {
            assert(covered(out0, rem0, cands@, c1));
            if c1 == pick {
                assert(out@[out0.len() as int].id@ == cands@[c1].id@);
            } else if exists|a: int| 0 <= a < out0.len() && #[trigger] out0[a].id@ == cands@[c1].id@ {
                let a = choose|a: int| 0 <= a < out0.len() && #[trigger] out0[a].id@ == cands@[c1].id@;
                assert(out@[a] == out0[a]);
            } else {
                let q = choose|q: int| 0 <= q < rem0.len() && #[trigger] rem0[q] == c1;
                assert(q != best);
                if q < best {
                    assert(remaining@[q] == c1);
                } else {
                    assert(remaining@[q - 1] == c1);
                }
            }
        }
        assert forall|a: int, b: int| 0 <= a < b < out@.len() implies f.before(
            #[trigger] out@[a].id@,
            #[trigger] out@[b].id@,
        ) by {
            if b == out0.len() {
                assert(out@[a] == out0[a]);
            } else {
                assert(out@[a] == out0[a] && out@[b] == out0[b]);
            }
        }
        assert forall|a: int, q: int|
            0 <= a < out@.len() && 0 <= q < remaining@.len() implies f.before(
                #[trigger] out@[a].id@,
                cands@[#[trigger] remaining@[q] as int].id@,
            ) by {
            let qq = if q < best { q } else { q + 1 };
            assert(remaining@[q] == rem0[qq]);
            if a < out0.len() {
                assert(out@[a] == out0[a]);
            }
        }
    }
    assert forall|id: Seq<char>|
        #![trigger f.candidate(id)]
        f.candidate(id) && (forall|i: int| 0 <= i < ranked_view(out@).len() ==> ranked_view(out@)[i].0 != id) implies {
            &&& ranked_view(out@).len() == limit
            &&& forall|i: int| 0 <= i < ranked_view(out@).len() ==> f.before(#[trigger] ranked_view(out@)[i].0, id)
        } by {
        let c1 = choose|c1: int| 0 <= c1 < cands@.len() && #[trigger] cands@[c1].id@ == id;
        assert(covered(out@, remaining@, cands@, c1));
        if exists|a: int| 0 <= a < out@.len() && #[trigger] out@[a].id@ == cands@[c1].id@ {
            let a = choose|a: int| 0 <= a < out@.len() && #[trigger] out@[a].id@ == cands@[c1].id@;
            assert(ranked_view(out@)[a].0 == id);
        } else {
            let q = choose|q: int| 0 <= q < remaining@.len() && #[trigger] remaining@[q] == c1;
            assert forall|i: int| 0 <= i < ranked_view(out@).len() implies f.before(#[trigger] ranked_view(out@)[i].0, id) by {
                assert(ranked_view(out@)[i].0 == out@[i].id@);
            }
        }
    }
    assert forall|i: int| 0 <= i < ranked_view(out@).len() implies f.candidate(#[trigger] ranked_view(out@)[i].0)
        && ranked_view(out@)[i].1 == f.score(ranked_view(out@)[i].0) by {
        assert(ranked_view(out@)[i] == (out@[i].id@, out@[i].score as int));
    }
    assert forall|i: int, j: int| 0 <= i < j < ranked_view(out@).len() implies f.before(
        #[trigger] ranked_view(out@)[i].0,
        #[trigger] ranked_view(out@)[j].0,
    ) by {
        assert(ranked_view(out@)[i].0 == out@[i].id@);
        assert(ranked_view(out@)[j].0 == out@[j].id@);
    }
    out
}

} // verus!
