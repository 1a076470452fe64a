//! Sentence-aware windowed segmentation of a text with overlap.
//!
//! Positions are byte offsets into the UTF-8 text. A window of at most
//! `chunk_size` bytes is cut after its last sentence-ending byte; every cut
//! is moved back to the nearest character boundary (forward only when a
//! single character is wider than the window). The window's text is trimmed
//! of Unicode whitespace and emitted if anything is left. A window that
//! reaches the end of the text is the last one; otherwise the next window
//! starts `overlap` bytes before the cut, moved forward to a character
//! boundary, and always at least one byte further on.

use vstd::prelude::*;
use vstd::utf8::*;
use vstd::string::*;
use crate::types::{Chunk, ChunkMetadata};
use crate::support::{fresh_id, now_seconds};

verus! {

/// `.`, `!`, `?` or a newline.
pub open spec fn is_stop_byte(b: u8) -> bool {
    b == 46 || b == 33 || b == 63 || b == 10
}

/// The position just past the last sentence-ending byte in `t[start..k)`,
/// or `start` when there is none.
pub open spec fn last_stop(t: Seq<u8>, start: int, k: int) -> int
    decreases k - start,
{
    if k <= start {
        start
    } else if is_stop_byte(t[k - 1]) {
        k
    } else {
        last_stop(t, start, k - 1)
    }
}

/// Where a window `[start, end)` that does not reach the end of the text
/// is cut: after its last sentence-ending byte, else at `end`.
pub open spec fn window_cut(t: Seq<u8>, start: int, end: int) -> int {
    let c = last_stop(t, start, end);
    if c == start {
        end
    } else {
        c
    }
}

/// The end of the window that starts at `start` before it is moved to a
/// character boundary.
pub open spec fn raw_end(t: Seq<u8>, size: nat, start: int) -> int {
    let end = if start + size < t.len() { start + size } else { t.len() as int };
    if end < t.len() {
        window_cut(t, start, end)
    } else {
        end
    }
}

/// Position `i` starts a character or is the end of the text.
pub open spec fn at_boundary(t: Seq<u8>, i: int) -> bool {
    i == t.len() || (0 <= i < t.len() && !is_continuation_byte(t[i]))
}

/// The first character boundary at or after `i`.
pub open spec fn snap_up(t: Seq<u8>, i: int) -> int
    decreases t.len() - i,
{
    if i >= t.len() {
        t.len() as int
    } else if i >= 0 && !is_continuation_byte(t[i]) {
        i
    } else {
        snap_up(t, i + 1)
    }
}

/// The last character boundary in `(lo, i]`, or `lo` when there is none.
pub open spec fn snap_down(t: Seq<u8>, lo: int, i: int) -> int
    decreases i - lo,
{
    if i <= lo {
        lo
    } else if at_boundary(t, i) {
        i
    } else {
        snap_down(t, lo, i - 1)
    }
}

/// The end of the window that starts at `start`.
pub open spec fn window_end(t: Seq<u8>, size: nat, start: int) -> int {
    let r = raw_end(t, size, start);
    let d = snap_down(t, start, r);
    if d > start {
        d
    } else {
        snap_up(t, r)
    }
}

/// The start of the window after the one that starts at `start`; the end
/// of the text when that window reaches it.
pub open spec fn next_start(t: Seq<u8>, size: nat, overlap: nat, start: int) -> int {
    let e = window_end(t, size, start);
    if e >= t.len() {
        t.len() as int
    } else {
        snap_up(t, if e - start > overlap { e - overlap } else { start + 1 })
    }
}

/// The windows `(start, end)` from `start` on, in order.
pub open spec fn windows(t: Seq<u8>, size: nat, overlap: nat, start: int) -> Seq<(int, int)>
    decreases t.len() - start
        via windows_decreases
{
    if start < 0 || start >= t.len() {
        seq![]
    } else {
        seq![(start, window_end(t, size, start))] + windows(t, size, overlap, next_start(t, size, overlap, start))
    }
}

#[via_fn]
proof fn windows_decreases(t: Seq<u8>, size: nat, overlap: nat, start: int) {
    if 0 <= start < t.len() {
        lemma_next_start(t, size, overlap, start);
    }
}

proof fn lemma_last_stop_bounds(t: Seq<u8>, start: int, k: int)
    requires
        start <= k,
    ensures
        start <= last_stop(t, start, k) <= k,
    decreases k - start,
{
    if k > start && !is_stop_byte(t[k - 1]) {
        lemma_last_stop_bounds(t, start, k - 1);
    }
}

proof fn lemma_snap_up(t: Seq<u8>, i: int)
    requires
        0 <= i,
    ensures
        i <= snap_up(t, i) <= t.len() || (i > t.len() && snap_up(t, i) == t.len()),
        snap_up(t, i) >= i || i > t.len(),
        at_boundary(t, snap_up(t, i)),
    decreases t.len() - i,
{
    if i < t.len() && is_continuation_byte(t[i]) {
        lemma_snap_up(t, i + 1);
    }
}

proof fn lemma_snap_down(t: Seq<u8>, lo: int, i: int)
    requires
        lo <= i,
    ensures
        lo <= snap_down(t, lo, i) <= i,
        snap_down(t, lo, i) > lo ==> at_boundary(t, snap_down(t, lo, i)),
    decreases i - lo,
{
    if i > lo && !at_boundary(t, i) {
        lemma_snap_down(t, lo, i - 1);
    }
}

proof fn lemma_window_end(t: Seq<u8>, size: nat, start: int)
    requires
        0 <= start < t.len(),
    ensures
        start <= window_end(t, size, start) <= t.len(),
        at_boundary(t, window_end(t, size, start)),
{
    let end = if start + size < t.len() { start + size } else { t.len() as int };
    lemma_last_stop_bounds(t, start, end);
    let r = raw_end(t, size, start);
    lemma_snap_down(t, start, r);
    lemma_snap_up(t, r);
}

proof fn lemma_next_start(t: Seq<u8>, size: nat, overlap: nat, start: int)
    requires
        0 <= start < t.len(),
    ensures
        start < next_start(t, size, overlap, start) <= t.len(),
        at_boundary(t, next_start(t, size, overlap, start)),
{
    lemma_window_end(t, size, start);
    let e = window_end(t, size, start);
    if e < t.len() {
        lemma_snap_up(t, if e - start > overlap { e - overlap } else { start + 1 });
    }
}

/// On ASCII text every position is a character boundary, so a window that
/// stops short of the end is cut just after its last `.`, `!`, `?` or
/// newline (at its size limit when it has none), and the next window starts
/// `overlap` bytes before that cut whenever the window is longer than
/// `overlap`.
pub proof fn lemma_ascii_windows(t: Seq<u8>, size: nat, overlap: nat, start: int)
    requires
        forall|i: int| 0 <= i < t.len() ==> t[i] < 0x80,
        0 <= start < t.len(),
    ensures
        window_end(t, size, start) == raw_end(t, size, start),
        start + size < t.len() ==> window_end(t, size, start) == window_cut(t, start, start + size),
        ({
            let e = window_end(t, size, start);
            e < t.len() && e - start > overlap ==> next_start(t, size, overlap, start) == e - overlap
        }),
{
    let end = if start + size < t.len() { start + size } else { t.len() as int };
    lemma_last_stop_bounds(t, start, end);
    let r = raw_end(t, size, start);
    assert(at_boundary(t, r));
    if r == start {
        lemma_snap_up(t, r);
    }
    let e = window_end(t, size, start);
    if e < t.len() && e - start > overlap {
        assert(at_boundary(t, e - overlap));
    }
}

/// A whitespace character, as Unicode's White_Space property lists them.
pub open spec fn is_white(c: char) -> bool {
    let u = c as u32;
    (9 <= u && u <= 13) || u == 32 || u == 0x85 || u == 0xa0 || u == 0x1680 || (0x2000 <= u && u
        <= 0x200a) || u == 0x2028 || u == 0x2029 || u == 0x202f || u == 0x205f || u == 0x3000
}

/// The first position in `[a, b)` that is not whitespace, or `b`.
pub open spec fn trim_from(c: Seq<char>, a: int, b: int) -> int
    decreases b - a,
{
    if a < b && is_white(c[a]) {
        trim_from(c, a + 1, b)
    } else {
        a
    }
}

/// The position just past the last character in `[a, b)` that is not
/// whitespace, or `a`.
pub open spec fn trim_to(c: Seq<char>, a: int, b: int) -> int
    decreases b - a,
{
    if a < b && is_white(c[b - 1]) {
        trim_to(c, a, b - 1)
    } else {
        b
    }
}

/// `c` without leading and trailing whitespace.
pub open spec fn trim_chars(c: Seq<char>) -> Seq<char> {
    let a = trim_from(c, 0, c.len() as int);
    c.subrange(a, trim_to(c, a, c.len() as int))
}

proof fn lemma_trim_from(c: Seq<char>, a: int, b: int)
    requires
        0 <= a <= b <= c.len(),
    ensures
        a <= trim_from(c, a, b) <= b,
        trim_from(c, a, b) < b ==> !is_white(c[trim_from(c, a, b)]),
    decreases b - a,
{
    if a < b && is_white(c[a]) {
        lemma_trim_from(c, a + 1, b);
    }
}

proof fn lemma_trim_to(c: Seq<char>, a: int, b: int)
    requires
        0 <= a <= b <= c.len(),
    ensures
        a <= trim_to(c, a, b) <= b,
        trim_to(c, a, b) > a ==> !is_white(c[trim_to(c, a, b) - 1]),
    decreases b - a,
{
    if a < b && is_white(c[b - 1]) {
        lemma_trim_to(c, a, b - 1);
    }
}

/// The chunk texts of the windows `w` of the text with bytes `t`: each
/// window's characters, trimmed, where anything is left.
pub open spec fn chunk_texts(t: Seq<u8>, w: Seq<(int, int)>) -> Seq<Seq<char>>
    decreases w.len(),
{
    if w.len() == 0 {
        seq![]
    } else {
        let c = trim_chars(decode_utf8(t.subrange(w.last().0, w.last().1)));
        let front = chunk_texts(t, w.drop_last());
        if c.len() > 0 {
            front.push(c)
        } else {
            front
        }
    }
}

/// `c` is the text of a run of bytes of `t`.
pub open spec fn byte_substring(t: Seq<u8>, c: Seq<char>) -> bool {
    exists|x: int, y: int| 0 <= x <= y <= t.len() && encode_utf8(c) == t.subrange(x, y)
}

proof fn lemma_trim_chars_nonblank(x: Seq<char>)
    ensures
        trim_chars(x).len() > 0 ==> {
            &&& !is_white(trim_chars(x)[0])
            &&& !is_white(trim_chars(x).last())
            &&& trim_chars(trim_chars(x)) == trim_chars(x)
        },
{
    let n = x.len() as int;
    lemma_trim_from(x, 0, n);
    let a = trim_from(x, 0, n);
    lemma_trim_to(x, a, n);
    let c = trim_chars(x);
    if c.len() > 0 {
        let m = c.len() as int;
        assert(c[0] == x[a]);
        assert(c.last() == x[trim_to(x, a, n) - 1]);
        assert(trim_from(c, 0, m) == 0);
        assert(trim_to(c, 0, m) == m);
        assert(c.subrange(0, m) =~= c);
    }
}

/// Every chunk text is non-empty and neither starts nor ends with
/// whitespace, so trimming leaves it unchanged.
pub proof fn lemma_chunks_nonblank(t: Seq<u8>, w: Seq<(int, int)>)
    ensures
        forall|i: int|
            0 <= i < chunk_texts(t, w).len() ==> {
                let c = #[trigger] chunk_texts(t, w)[i];
                &&& c.len() > 0
                &&& !is_white(c[0])
                &&& !is_white(c.last())
                &&& trim_chars(c) == c
            },
    decreases w.len(),
{
    if w.len() > 0 {
        lemma_chunks_nonblank(t, w.drop_last());
        let x = decode_utf8(t.subrange(w.last().0, w.last().1));
        lemma_trim_chars_nonblank(x);
        let front = chunk_texts(t, w.drop_last());
        let all = chunk_texts(t, w);
        assert forall|i: int| 0 <= i < all.len() implies {
            let c = #[trigger] all[i];
            &&& c.len() > 0
            &&& !is_white(c[0])
            &&& !is_white(c.last())
            &&& trim_chars(c) == c
        } by {
            if i < front.len() {
                assert(all[i] == front[i]);
            } else {
                assert(all[i] == trim_chars(x));
            }
        }
    }
}

proof fn lemma_encode_concat(a: Seq<char>, b: Seq<char>)
    ensures
        encode_utf8(a + b) == encode_utf8(a) + encode_utf8(b),
    decreases a.len(),
{
    if a.len() > 0 {
        assert((a + b).drop_first() =~= a.drop_first() + b);
        lemma_encode_concat(a.drop_first(), b);
        assert(encode_utf8(a + b) =~= encode_utf8(a) + encode_utf8(b));
    } else {
        assert(a + b =~= b);
    }
}

fn is_white_char(c: char) -> (r: bool)
    ensures
        r == is_white(c),
{
    let u = c as u32;
    (9 <= u && u <= 13) || u == 32 || u == 0x85 || u == 0xa0 || u == 0x1680 || (0x2000 <= u && u
        <= 0x200a) || u == 0x2028 || u == 0x2029 || u == 0x202f || u == 0x205f || u == 0x3000
}

pub struct Chunker {
    pub chunk_size: usize,
    pub overlap: usize,
}

impl Chunker {
    pub fn new(chunk_size: usize, overlap: usize) -> (r: Chunker)
        ensures
            r.chunk_size == chunk_size,
            r.overlap == overlap,
    {
        Chunker { chunk_size, overlap }
    }

    /// The windows of the text with bytes `t`, in order.
    pub open spec fn spans(&self, t: Seq<u8>) -> Seq<(int, int)> {
        windows(t, self.chunk_size as nat, self.overlap as nat, 0)
    }

    /// The chunk texts of the text with bytes `t`, in order.
    pub open spec fn texts(&self, t: Seq<u8>) -> Seq<Seq<char>> {
        chunk_texts(t, self.spans(t))
    }

    /// `cs` are the chunks of the text with bytes `t` for the document
    /// `doc_id`: one per chunk text, in order, each the text of a run of the
    /// input's bytes, with no embedding, the title "Document" and its
    /// ordinal as section.
    pub open spec fn chunked(&self, t: Seq<u8>, doc_id: Seq<char>, cs: Seq<Chunk>) -> bool {
        &&& cs.len() == self.texts(t).len()
        &&& cs.len() <= t.len()
        &&& forall|i: int|
            #![trigger cs[i]]
            0 <= i < cs.len() ==> {
                &&& cs[i].text@ == self.texts(t)[i]
                &&& byte_substring(t, cs[i].text@)
                &&& cs[i].doc_id@ == doc_id
                &&& cs[i].embedding is None
                &&& cs[i].metadata.title matches Some(x) && x@ == "Document"@
                &&& cs[i].metadata.section == Some(i as usize)
            }
    }

    /// The chunks of `text`, in order, for the document `doc_id`, each with
    /// a fresh id and the current time.
    pub fn chunk(&self, text: &str, doc_id: &str) -> (r: Vec<Chunk>)
        ensures
            self.chunked(text.spec_bytes(), doc_id@, r@),
    {
        let t = text.as_bytes();
        let n = t.len();
        let ghost tv = t@;
        let ghost size = self.chunk_size as nat;
        let ghost ov = self.overlap as nat;
        proof {
            encode_utf8_valid_utf8(text@);
            if n > 0 {
                is_char_boundary_iff_not_is_continuation_byte(tv, 0);
            }
        }
        let mut r: Vec<Chunk> = Vec::new();
        let mut start: usize = 0;
        let ghost mut done: Seq<(int, int)> = seq![];
        while start < n
            invariant
                tv == t@,
                tv == text.spec_bytes(),
                valid_utf8(tv),
                n == tv.len(),
                start <= n,
                at_boundary(tv, start as int),
                r@.len() <= start,
                done + windows(tv, size, ov, start as int) == self.spans(tv),
                size == self.chunk_size,
                ov == self.overlap,
                r@.len() == chunk_texts(tv, done).len(),
                forall|i: int|
                    #![trigger r@[i]]
                    0 <= i < r@.len() ==> {
                        &&& r@[i].text@ == chunk_texts(tv, done)[i]
                        &&& byte_substring(tv, r@[i].text@)
                        &&& r@[i].doc_id@ == doc_id@
                        &&& r@[i].embedding is None
                        &&& r@[i].metadata.title matches Some(x) && x@ == "Document"@
                        &&& r@[i].metadata.section == Some(i as usize)
                    },
            decreases n - start,
        {
            proof {
                lemma_window_end(tv, size, start as int);
                lemma_next_start(tv, size, ov, start as int);
                let end0 = if start + size < tv.len() { start + size } else { tv.len() as int };
                lemma_last_stop_bounds(tv, start as int, end0);
            }
            let end = if self.chunk_size < n - start { start + self.chunk_size } else { n };
            let raw = if end < n { start + self.find_sentence_boundary(t, start, end) } else { end };
            let mut d = raw;
            while d > start && !(d == n || t[d] < 0x80u8 || t[d] > 0xbfu8)
                invariant
                    tv == t@,
                    n == tv.len(),
                    start <= d <= raw <= n,
                    snap_down(tv, start as int, d as int) == snap_down(tv, start as int, raw as int),
                decreases d,
            {
                d = d - 1;
            }
            let mut e = d;
            if d <= start {
                e = raw;
                while e < n && 0x80u8 <= t[e] && t[e] <= 0xbfu8
                    invariant
                        tv == t@,
                        n == tv.len(),
                        raw <= e <= n,
                        snap_up(tv, e as int) == snap_up(tv, raw as int),
                    decreases n - e,
                {
                    e = e + 1;
                }
            }
            assert(e == window_end(tv, size, start as int));
            proof {
                if e < n {
                    is_char_boundary_iff_not_is_continuation_byte(tv, e as int);
                } else {
                    is_char_boundary_start_end_of_seq(tv);
                }
            }
            let (head, _tail) = text.split_at(e);
            proof {
                assert(head.spec_bytes() =~= tv.subrange(0, e as int));
                encode_utf8_valid_utf8(head@);
                if start < e {
                    assert(head.spec_bytes()[start as int] == tv[start as int]);
                    is_char_boundary_iff_not_is_continuation_byte(head.spec_bytes(), start as int);
                } else {
                    is_char_boundary_start_end_of_seq(head.spec_bytes());
                }
            }
            let (_pre, piece) = head.split_at(start);
            proof {
                assert(piece.spec_bytes() =~= tv.subrange(start as int, e as int));
                encode_utf8_decode_utf8(piece@);
            }
            let m = piece.unicode_len();
            let mut a: usize = 0;
            while a < m && is_white_char(piece.get_char(a))
                invariant
                    m == piece@.len(),
                    a <= m,
                    trim_from(piece@, a as int, m as int) == trim_from(piece@, 0, m as int),
                decreases m - a,
            {
                a = a + 1;
            }
            let mut b: usize = m;
            while b > a && is_white_char(piece.get_char(b - 1))
                invariant
                    m == piece@.len(),
                    a <= b <= m,
                    trim_to(piece@, a as int, b as int) == trim_to(piece@, a as int, m as int),
                decreases b,
            {
                b = b - 1;
            }
            let ghost c = trim_chars(decode_utf8(tv.subrange(start as int, e as int)));
            assert(c == piece@.subrange(a as int, b as int));
            let ghost old_r = r@;
            let ghost old_done = done;
            if a < b {
                let s = piece.substring_char(a, b).to_owned();
                proof {
                    let p = piece@;
                    assert(p =~= p.subrange(0, a as int) + p.subrange(a as int, b as int) + p.subrange(b as int, m as int));
                    lemma_encode_concat(p.subrange(0, a as int) + p.subrange(a as int, b as int), p.subrange(b as int, m as int));
                    lemma_encode_concat(p.subrange(0, a as int), p.subrange(a as int, b as int));
                    let ep = encode_utf8(p.subrange(0, a as int));
                    let em = encode_utf8(p.subrange(a as int, b as int));
                    let eq = encode_utf8(p.subrange(b as int, m as int));
                    assert(encode_utf8(p) == ep + em + eq);
                    assert(encode_utf8(p) == tv.subrange(start as int, e as int));
                    let x = start + ep.len();
                    let y = x + em.len();
                    assert(em =~= (ep + em + eq).subrange(ep.len() as int, (ep.len() + em.len()) as int));
                    assert(y <= e);
                    assert(em =~= tv.subrange(x, y));
                    assert(s@ == p.subrange(a as int, b as int));
                    assert(byte_substring(tv, s@));
                }
                let chunk = Chunk {
                    id: fresh_id(),
                    doc_id: doc_id.to_owned(),
                    text: s,
                    embedding: None,
                    metadata: ChunkMetadata { title: Some(String::from_str("Document")), section: Some(r.len()) },
                    created_at: now_seconds(),
                };
                r.push(chunk);
            }
            let next = if e == n {
                n
            } else {
                let c0 = if e - start > self.overlap { e - self.overlap } else { start + 1 };
                let mut u = c0;
                while u < n && 0x80u8 <= t[u] && t[u] <= 0xbfu8
                    invariant
                        tv == t@,
                        n == tv.len(),
                        c0 <= u <= n,
                        snap_up(tv, u as int) == snap_up(tv, c0 as int),
                    decreases n - u,
                {
                    u = u + 1;
                }
                u
            };
            proof {
                done = done.push((start as int, e as int));
                assert(done.drop_last() =~= old_done);
                assert(windows(tv, size, ov, start as int) == seq![(start as int, e as int)] + windows(tv, size, ov, next as int));
                assert(done + windows(tv, size, ov, next as int) =~= old_done + windows(tv, size, ov, start as int));
                if a < b {
                    assert(chunk_texts(tv, done) == chunk_texts(tv, old_done).push(c));
                } else {
                    assert(chunk_texts(tv, done) == chunk_texts(tv, old_done));
                }
            }
            start = next;
        }
        proof {
            assert(done + windows(tv, size, ov, start as int) =~= done);
        }
        r
    }

    /// Length of the window `t[start..end)` up to just past its last
    /// sentence-ending byte, or the whole window when it has none.
    pub fn find_sentence_boundary(&self, t: &[u8], start: usize, end: usize) -> (r: usize)
        requires
            start <= end <= t@.len(),
        ensures
            r == window_cut(t@, start as int, end as int) - start,
    {
        let mut k = end;
        while k > start
            invariant
                start <= k <= end <= t@.len(),
                last_stop(t@, start as int, k as int) == last_stop(t@, start as int, end as int),
            decreases k,
        {
            if t[k - 1] == 46u8 || t[k - 1] == 33u8 || t[k - 1] == 63u8 || t[k - 1] == 10u8 {
                return k - start;
            }
            k = k - 1;
        }
        end - start
    }

}

} // verus!
