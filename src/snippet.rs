//! Snippet synthesis: a window of the text around the most informative
//! query term that it contains.
//!
//! Each whitespace-separated query term is looked up, lowercased, in the
//! lowercased text. The longest term found wins (on equal length, the one
//! found earlier in the text); with no match the window starts at 0. The
//! window runs from 100 bytes before the match to 200 bytes after its start,
//! clipped to the text, with `...` marking each side that was cut.

use vstd::prelude::*;
use vstd::string::*;
use vstd::utf8::*;
use crate::support::{lower_of, lowercase, text_from_bytes};

verus! {

/// Bytes kept before the match.
pub const LEAD: usize = 100;

/// Bytes kept from the start of the match on.
pub const SPAN: usize = 200;

/// The first position at or after `i` where `n` occurs in `h`.
pub open spec fn find_from(h: Seq<u8>, n: Seq<u8>, i: int) -> Option<int>
    decreases h.len() + 1 - i,
{
    if i < 0 || i + n.len() > h.len() {
        None
    } else if h.subrange(i, i + n.len()) == n {
        Some(i)
    } else {
        find_from(h, n, i + 1)
    }
}

/// The length and position of the best term among the first `k`, (0, 0)
/// when none of them occurs.
pub open spec fn best_term(lt: Seq<u8>, terms: Seq<Seq<u8>>, lterms: Seq<Seq<u8>>, k: int) -> (nat, int)
    decreases k,
{
    if k <= 0 {
        (0, 0)
    } else {
        let (len, pos) = best_term(lt, terms, lterms, k - 1);
        match find_from(lt, lterms[k - 1], 0) {
            Some(p) => if terms[k - 1].len() > len || (terms[k - 1].len() == len && p < pos) {
                (terms[k - 1].len(), p)
            } else {
                (len, pos)
            },
            None => (len, pos),
        }
    }
}

/// Three dots.
pub open spec fn ellipsis() -> Seq<u8> {
    seq![46u8, 46u8, 46u8]
}

/// The snippet of the text with bytes `t`, given the bytes `lt` of its
/// lowercase form, the query terms and their lowercase forms.
pub open spec fn snippet_bytes(t: Seq<u8>, lt: Seq<u8>, terms: Seq<Seq<u8>>, lterms: Seq<Seq<u8>>) -> Seq<u8> {
    let p = best_term(lt, terms, lterms, terms.len() as int).1;
    let end = if p + SPAN < t.len() { p + SPAN } else { t.len() as int };
    let start0 = if p > LEAD { p - LEAD } else { 0 };
    let start = if start0 < end { start0 } else { end };
    (if start > 0 { ellipsis() } else { seq![] }) + t.subrange(start, end)
        + (if end < t.len() { ellipsis() } else { seq![] })
}

/// A snippet holds at most the window and two ellipses.
pub proof fn lemma_snippet_length(t: Seq<u8>, lt: Seq<u8>, terms: Seq<Seq<u8>>, lterms: Seq<Seq<u8>>)
    ensures
        snippet_bytes(t, lt, terms, lterms).len() <= LEAD + SPAN + 6,
{
    lemma_best_term_pos(lt, terms, lterms, terms.len() as int);
}

proof fn lemma_best_term_pos(lt: Seq<u8>, terms: Seq<Seq<u8>>, lterms: Seq<Seq<u8>>, k: int)
    ensures
        best_term(lt, terms, lterms, k).1 >= 0,
    decreases k,
{
    if k > 0 {
        lemma_best_term_pos(lt, terms, lterms, k - 1);
        match find_from(lt, lterms[k - 1], 0) {
            Some(p) => {
                lemma_find_from_pos(lt, lterms[k - 1], 0);
            },
            None => {},
        }
    }
}

proof fn lemma_find_from_pos(h: Seq<u8>, n: Seq<u8>, i: int)
    requires
        i >= 0,
    ensures
        find_from(h, n, i) matches Some(p) ==> p >= i,
    decreases h.len() + 1 - i,
{
    if i + n.len() <= h.len() && h.subrange(i, i + n.len()) != n {
        lemma_find_from_pos(h, n, i + 1);
    }
}

/// A space, tab, newline, vertical tab, form feed or carriage return.
pub open spec fn is_space_char(c: char) -> bool {
    c == ' ' || c == '\t' || c == '\n' || c == '\x0B' || c == '\x0C' || c == '\r'
}

/// The first position at or after `i` that is not whitespace, or the length.
pub open spec fn skip_space(q: Seq<char>, i: int) -> int
    decreases q.len() - i,
{
    if i < 0 || i >= q.len() || !is_space_char(q[i]) {
        i
    } else {
        skip_space(q, i + 1)
    }
}

/// The first position at or after `i` that is whitespace, or the length.
pub open spec fn skip_word(q: Seq<char>, i: int) -> int
    decreases q.len() - i,
{
    if i < 0 || i >= q.len() || is_space_char(q[i]) {
        i
    } else {
        skip_word(q, i + 1)
    }
}

/// The whitespace-separated terms of `q` from position `i` on.
pub open spec fn terms_from(q: Seq<char>, i: int) -> Seq<Seq<char>>
    decreases q.len() - i,
{
    let a = skip_space(q, i);
    if i < 0 || a >= q.len() || a < i {
        seq![]
    } else {
        let b = skip_word(q, a);
        if b <= a || b > q.len() {
            seq![]
        } else {
            seq![q.subrange(a, b)] + terms_from(q, b)
        }
    }
}

proof fn lemma_skip_space_bounds(q: Seq<char>, i: int)
    requires
        0 <= i <= q.len(),
    ensures
        i <= skip_space(q, i) <= q.len(),
        skip_space(q, i) < q.len() ==> !is_space_char(q[skip_space(q, i)]),
    decreases q.len() - i,
{
    if i < q.len() && is_space_char(q[i]) {
        lemma_skip_space_bounds(q, i + 1);
    }
}

proof fn lemma_skip_word_bounds(q: Seq<char>, i: int)
    requires
        0 <= i <= q.len(),
    ensures
        i <= skip_word(q, i) <= q.len(),
        i < q.len() && !is_space_char(q[i]) ==> skip_word(q, i) > i,
    decreases q.len() - i,
{
    if i < q.len() && !is_space_char(q[i]) {
        lemma_skip_word_bounds(q, i + 1);
    }
}

pub open spec fn byte_rows(v: Seq<Vec<u8>>) -> Seq<Seq<u8>> {
    v.map_values(|x: Vec<u8>| x@)
}

/// The first position where `n` occurs in `h`.
pub fn find_bytes(h: &[u8], n: &[u8]) -> (r: Option<usize>)
    ensures
        r matches Some(p) ==> find_from(h@, n@, 0) == Some(p as int),
        r is None ==> find_from(h@, n@, 0) is None,
{
    if n.len() > h.len() {
        return None;
    }
    let last = h.len() - n.len();
    assert(h@.len() == h.len());
    let mut i: usize = 0;
    while i <= last
        invariant
            last == h@.len() - n@.len(),
            h@.len() <= usize::MAX,
            i <= last + 1,
            find_from(h@, n@, i as int) == find_from(h@, n@, 0),
        decreases last + 1 - i,
    {
        let mut j: usize = 0;
        while j < n.len() && h[i + j] == n[j]
            invariant
                i <= last,
                last == h@.len() - n@.len(),
                i + n@.len() <= h@.len(),
                h@.len() <= usize::MAX,
                j <= n@.len(),
                h@.subrange(i as int, i + j) == n@.subrange(0, j as int),
            decreases n@.len() - j,
        {
            assert(h@.subrange(i as int, i + j + 1) =~= h@.subrange(i as int, i + j).push(h@[i + j]));
            assert(n@.subrange(0, j + 1) =~= n@.subrange(0, j as int).push(n@[j as int]));
            j = j + 1;
        }
        if j == n.len() {
            assert(n@.subrange(0, j as int) =~= n@);
            return Some(i);
        }
        assert(h@.subrange(i as int, i + n@.len())[j as int] != n@[j as int]);
        i = i + 1;
    }
    None
}

/// The snippet, as bytes, for a text, its lowercase form, the query terms
/// and their lowercase forms.
pub fn snippet_from_lowered(text: &[u8], text_lower: &[u8], terms: &Vec<Vec<u8>>, terms_lower: &Vec<Vec<u8>>) -> (r: Vec<u8>)
    requires
        terms@.len() == terms_lower@.len(),
    ensures
        r@ == snippet_bytes(text@, text_lower@, byte_rows(terms@), byte_rows(terms_lower@)),
{
    let ghost tv = byte_rows(terms@);
    let ghost lv = byte_rows(terms_lower@);
    let mut best_len: usize = 0;
    let mut best_pos: usize = 0;
    let mut k: usize = 0;
    while k < terms.len()
        invariant
            tv == byte_rows(terms@),
            lv == byte_rows(terms_lower@),
            terms@.len() == terms_lower@.len(),
            k <= terms@.len(),
            best_term(text_lower@, tv, lv, k as int) == (best_len as nat, best_pos as int),
        decreases terms@.len() - k,
    {
        assert(tv[k as int] == terms@[k as int]@ && lv[k as int] == terms_lower@[k as int]@);
        match find_bytes(text_lower, terms_lower[k].as_slice()) {
            Some(p) => {
                let len = terms[k].len();
                if len > best_len || (len == best_len && p < best_pos) {
                    best_len = len;
                    best_pos = p;
                }
            },
            None => {},
        }
        k = k + 1;
    }
    let n = text.len();
    let end = if best_pos < n && n - best_pos > SPAN { best_pos + SPAN } else { n };
    let start0 = if best_pos > LEAD { best_pos - LEAD } else { 0 };
    let start = if start0 < end { start0 } else { end };
    let mut r: Vec<u8> = Vec::new();
    if start > 0 {
        r.push(46u8);
        r.push(46u8);
        r.push(46u8);
    }
    let ghost head = r@;
    let mut i: usize = start;
    while i < end
        invariant
            start <= i <= end <= text@.len(),
            r@ == head + text@.subrange(start as int, i as int),
        decreases end - i,
    {
        r.push(text[i]);
        assert(text@.subrange(start as int, i + 1) =~= text@.subrange(start as int, i as int).push(text@[i as int]));
        i = i + 1;
    }
    if end < n {
        r.push(46u8);
        r.push(46u8);
        r.push(46u8);
    }
    assert(r@ =~= snippet_bytes(text@, text_lower@, tv, lv));
    r
}

pub open spec fn char_rows(v: Seq<String>) -> Seq<Seq<char>> {
    v.map_values(|x: String| x@)
}

fn is_space(c: char) -> (r: bool)
    ensures
        r == is_space_char(c),
{
    c == ' ' || c == '\t' || c == '\n' || c == '\x0B' || c == '\x0C' || c == '\r'
}

/// The whitespace-separated terms of a query, in order.
pub fn query_terms(query: &str) -> (r: Vec<String>)
    ensures
        char_rows(r@) == terms_from(query@, 0),
{
    let ghost q = query@;
    let n = query.unicode_len();
    let mut r: Vec<String> = Vec::new();
    let mut i: usize = 0;
    while i < n
        invariant
            q == query@,
            n == q.len(),
            i <= n,
            char_rows(r@) + terms_from(q, i as int) == terms_from(q, 0),
        decreases n - i,
    {
        let mut a = i;
        while a < n && is_space(query.get_char(a))
            invariant
                q == query@,
                n == q.len(),
                i <= a <= n,
                skip_space(q, a as int) == skip_space(q, i as int),
            decreases n - a,
        {
            a = a + 1;
        }
        if a == n {
            assert(terms_from(q, i as int) =~= seq![]);
            i = n;
        } else {
            let mut b = a;
            while b < n && !is_space(query.get_char(b))
                invariant
                    q == query@,
                    n == q.len(),
                    a <= b <= n,
                    skip_word(q, b as int) == skip_word(q, a as int),
                decreases n - b,
            {
                b = b + 1;
            }
            proof {
                lemma_skip_space_bounds(q, i as int);
                lemma_skip_word_bounds(q, a as int);
            }
            let ghost before = r@;
            r.push(query.substring_char(a, b).to_owned());
            assert(char_rows(r@) =~= char_rows(before).push(q.subrange(a as int, b as int)));
            assert(terms_from(q, i as int) == seq![q.subrange(a as int, b as int)] + terms_from(q, b as int));
            assert(char_rows(r@) + terms_from(q, b as int) =~= char_rows(before) + terms_from(q, i as int));
            i = b;
        }
    }
    assert(terms_from(q, i as int) =~= seq![]);
    assert(char_rows(r@) + terms_from(q, i as int) =~= char_rows(r@));
    r
}

/// The bytes of the snippet of `text` for `query`.
pub open spec fn snippet_spec(text: Seq<char>, query: Seq<char>) -> Seq<u8> {
    let terms = terms_from(query, 0);
    snippet_bytes(
        encode_utf8(text),
        encode_utf8(lower_of(text)),
        terms.map_values(|w: Seq<char>| encode_utf8(w)),
        terms.map_values(|w: Seq<char>| encode_utf8(lower_of(w))),
    )
}

/// The snippet of `text` for `query`, decoded from the bytes that
/// `snippet_spec` states (a window cut inside a multi-byte character leaves
/// replacement characters there).
pub fn generate_snippet(text: &str, query: &str) -> (r: String)
    ensures
        valid_utf8(snippet_spec(text@, query@)) ==> r@ == decode_utf8(snippet_spec(text@, query@)),
{
    let terms = query_terms(query);
    let ghost tv = terms_from(query@, 0);
    let mut raw: Vec<Vec<u8>> = Vec::new();
    let mut low: Vec<Vec<u8>> = Vec::new();
    let mut k: usize = 0;
    while k < terms.len()
        invariant
            char_rows(terms@) == tv,
            k <= terms@.len(),
            byte_rows(raw@) =~= tv.subrange(0, k as int).map_values(|w: Seq<char>| encode_utf8(w)),
            byte_rows(low@) =~= tv.subrange(0, k as int).map_values(|w: Seq<char>| encode_utf8(lower_of(w))),
        decreases terms@.len() - k,
    {
        assert(tv[k as int] == terms@[k as int]@);
        let w = terms[k].as_str();
        let lw = lowercase(w);
        let ghost raw0 = raw@;
        let ghost low0 = low@;
        raw.push(vstd::slice::slice_to_vec(w.as_bytes()));
        low.push(vstd::slice::slice_to_vec(lw.as_str().as_bytes()));
        assert(byte_rows(raw@) =~= byte_rows(raw0).push(encode_utf8(tv[k as int])));
        assert(byte_rows(low@) =~= byte_rows(low0).push(encode_utf8(lower_of(tv[k as int]))));
        assert(tv.subrange(0, k + 1) =~= tv.subrange(0, k as int).push(tv[k as int]));
        k = k + 1;
    }
    assert(tv.subrange(0, k as int) =~= tv);
    let lt = lowercase(text);
    let bytes = snippet_from_lowered(text.as_bytes(), lt.as_str().as_bytes(), &raw, &low);
    text_from_bytes(bytes.as_slice())
}

} // verus!
