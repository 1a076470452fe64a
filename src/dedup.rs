//! Removal of repeated chunks within one ingest: the first chunk with a given
//! content digest is kept, later ones are counted as skipped.

use vstd::prelude::*;
use crate::types::Chunk;
use crate::support::{blake3_hex, content_hash};

verus! {

/// No key before position `i` equals the key at `i`.
pub open spec fn is_first_occurrence(keys: Seq<Seq<char>>, i: int) -> bool {
    forall|j: int| 0 <= j < i ==> keys[j] != keys[i]
}

/// For each position, whether its key occurs there for the first time.
pub open spec fn first_flags(keys: Seq<Seq<char>>) -> Seq<bool> {
    Seq::new(keys.len(), |i: int| is_first_occurrence(keys, i))
}

/// The items whose flag is set, in order.
pub open spec fn kept<A>(items: Seq<A>, flags: Seq<bool>) -> Seq<A>
    decreases items.len(),
{
    if items.len() == 0 {
        seq![]
    } else {
        let n = items.len() - 1;
        let front = kept(items.subrange(0, n), flags);
        if flags[n] {
            front.push(items[n])
        } else {
            front
        }
    }
}

/// How many of the first `n` flags are unset.
pub open spec fn count_unset(flags: Seq<bool>, n: int) -> nat
    decreases n,
{
    if n <= 0 {
        0
    } else {
        count_unset(flags, n - 1) + if flags[n - 1] { 0nat } else { 1nat }
    }
}

pub open spec fn string_views(v: Seq<String>) -> Seq<Seq<char>> {
    v.map_values(|s: String| s@)
}

/// The digests of the chunks' texts, in order.
pub open spec fn text_digests(chunks: Seq<Chunk>) -> Seq<Seq<char>> {
    chunks.map_values(|c: Chunk| blake3_hex(c.text@))
}

/// For each key, whether no earlier key equals it.
pub fn first_occurrences(keys: &Vec<String>) -> (r: Vec<bool>)
    ensures
        r@ == first_flags(string_views(keys@)),
{
    let ghost ks = string_views(keys@);
    let mut r: Vec<bool> = Vec::new();
    let mut i: usize = 0;
    while i < keys.len()
        invariant
            ks == string_views(keys@),
            i <= keys@.len(),
            r@.len() == i,
            forall|k: int| 0 <= k < i ==> r@[k] == is_first_occurrence(ks, k),
        decreases keys@.len() - i,
    {
        let mut j: usize = 0;
        let mut fresh = true;
        while j < i
            invariant
                ks == string_views(keys@),
                j <= i < keys@.len(),
                fresh == forall|m: int| 0 <= m < j ==> ks[m] != ks[i as int],
            decreases i - j,
        {
            assert(ks[j as int] == keys@[j as int]@ && ks[i as int] == keys@[i as int]@);
            if keys[j] == keys[i] {
                fresh = false;
            }
            j = j + 1;
        }
        r.push(fresh);
        i = i + 1;
    }
    assert(r@ =~= first_flags(ks));
    r
}

proof fn lemma_kept_push<A>(items: Seq<A>, flags: Seq<bool>, x: A)
    requires
        items.len() < flags.len(),
    ensures
        kept(items.push(x), flags) == if flags[items.len() as int] {
            kept(items, flags).push(x)
        } else {
            kept(items, flags)
        },
{
    assert(items.push(x).subrange(0, items.len() as int) =~= items);
}

proof fn lemma_kept_map(chunks: Seq<Chunk>, flags: Seq<bool>)
    requires
        chunks.len() <= flags.len(),
    ensures
        text_digests(kept(chunks, flags)) == kept(text_digests(chunks), flags),
    decreases chunks.len(),
{
    if chunks.len() > 0 {
        let n = chunks.len() - 1;
        lemma_kept_map(chunks.subrange(0, n), flags);
        assert(text_digests(chunks).subrange(0, n) =~= text_digests(chunks.subrange(0, n)));
        let front = kept(chunks.subrange(0, n), flags);
        assert(text_digests(front.push(chunks[n])) =~= text_digests(front).push(blake3_hex(chunks[n].text@)));
    }
}

proof fn lemma_kept_members<A>(items: Seq<A>, flags: Seq<bool>)
    requires
        items.len() <= flags.len(),
    ensures
        forall|a: int|
            #![trigger kept(items, flags)[a]]
            0 <= a < kept(items, flags).len() ==> exists|j: int|
                0 <= j < items.len() && #[trigger] items[j] == kept(items, flags)[a],
    decreases items.len(),
{
    if items.len() > 0 {
        let n = items.len() - 1;
        let front = items.subrange(0, n);
        lemma_kept_members(front, flags);
        let k = kept(items, flags);
        let kf = kept(front, flags);
        assert(k == if flags[n] { kf.push(items[n]) } else { kf });
        assert forall|a: int|
            #![trigger k[a]]
            0 <= a < k.len() implies exists|j: int|
            0 <= j < items.len() && #[trigger] items[j] == k[a] by {
            if a < kf.len() {
                assert(k[a] == kf[a]);
                let j = choose|j: int| 0 <= j < front.len() && #[trigger] front[j] == kf[a];
                assert(items[j] == front[j]);
                assert(items[j] == k[a]);
            } else {
                assert(k[a] == items[n]);
                assert(items[n] == k[a]);
            }
        }
    }
}

proof fn lemma_first_kept_distinct(keys: Seq<Seq<char>>, n: int)
    requires
        0 <= n <= keys.len(),
    ensures
        ({
            let k = kept(keys.subrange(0, n), first_flags(keys));
            forall|a: int, b: int| 0 <= a < b < k.len() ==> k[a] != k[b]
        }),
    decreases n,
{
    if n > 0 {
        let flags = first_flags(keys);
        lemma_first_kept_distinct(keys, n - 1);
        let items = keys.subrange(0, n);
        let front = keys.subrange(0, n - 1);
        assert(items.subrange(0, n - 1) =~= front);
        lemma_kept_members(front, flags);
        let k = kept(items, flags);
        let kf = kept(front, flags);
        if flags[n - 1] {
            assert forall|a: int, b: int| 0 <= a < b < k.len() implies k[a] != k[b] by {
                if b == k.len() - 1 {
                    assert(k[b] == keys[n - 1]);
                    assert(k[a] == kf[a]);
                    let j = choose|j: int| 0 <= j < front.len() && #[trigger] front[j] == kf[a];
                    assert(is_first_occurrence(keys, n - 1));
                    assert(keys[j] == front[j]);
                } else {
                    assert(k[a] == kf[a] && k[b] == kf[b]);
                }
            }
        }
    }
}

proof fn lemma_distinct_all_first(keys: Seq<Seq<char>>)
    requires
        forall|a: int, b: int| 0 <= a < b < keys.len() ==> keys[a] != keys[b],
    ensures
        forall|i: int| 0 <= i < keys.len() ==> #[trigger] first_flags(keys)[i],
{
}

proof fn lemma_all_kept<A>(items: Seq<A>, flags: Seq<bool>)
    requires
        items.len() <= flags.len(),
        forall|i: int| 0 <= i < items.len() ==> #[trigger] flags[i],
    ensures
        kept(items, flags) == items,
        count_unset(flags, items.len() as int) == 0,
    decreases items.len(),
{
    if items.len() > 0 {
        let n = items.len() - 1;
        lemma_all_kept(items.subrange(0, n), flags);
        assert(items.subrange(0, n).push(items[n]) =~= items);
    }
}

/// Deduplicating chunks that were already deduplicated keeps every one of
/// them and skips none.
pub proof fn lemma_dedup_idempotent(chunks: Seq<Chunk>)
    ensures
        ({
            let once = kept(chunks, first_flags(text_digests(chunks)));
            &&& kept(once, first_flags(text_digests(once))) == once
            &&& count_unset(first_flags(text_digests(once)), once.len() as int) == 0
        }),
{
    let keys = text_digests(chunks);
    let flags = first_flags(keys);
    let once = kept(chunks, flags);
    lemma_kept_map(chunks, flags);
    lemma_first_kept_distinct(keys, keys.len() as int);
    assert(keys.subrange(0, keys.len() as int) =~= keys);
    let dk = text_digests(once);
    assert(dk == kept(keys, flags));
    lemma_distinct_all_first(dk);
    lemma_all_kept(once, first_flags(dk));
}

/// Keeps the first chunk of each text digest, in order, and counts the rest.
pub fn deduplicate_chunks(chunks: Vec<Chunk>) -> (r: (Vec<Chunk>, u32))
    requires
        chunks@.len() <= u32::MAX,
    ensures
        r.0@ == kept(chunks@, first_flags(text_digests(chunks@))),
        r.1 == count_unset(first_flags(text_digests(chunks@)), chunks@.len() as int),
{
    let ghost all = chunks@;
    let ghost flags_spec = first_flags(text_digests(all));
    let mut digests: Vec<String> = Vec::new();
    let mut i: usize = 0;
    while i < chunks.len()
        invariant
            chunks@ == all,
            i <= all.len(),
            string_views(digests@) =~= text_digests(all).subrange(0, i as int),
        decreases all.len() - i,
    {
        let d = content_hash(chunks[i].text.as_str());
        let ghost before = digests@;
        digests.push(d);
        assert(string_views(digests@) =~= string_views(before).push(d@));
        assert(text_digests(all)[i as int] == blake3_hex(all[i as int].text@));
        i = i + 1;
    }
    assert(string_views(digests@) =~= text_digests(all));
    let flags = first_occurrences(&digests);
    let mut rest = chunks;
    let mut out: Vec<Chunk> = Vec::new();
    let mut skipped: u32 = 0;
    let mut k: usize = 0;
    while rest.len() > 0
        invariant
            flags@ == flags_spec,
            flags_spec.len() == all.len(),
            all.len() <= u32::MAX,
            k + rest@.len() == all.len(),
            rest@ == all.subrange(k as int, all.len() as int),
            out@ == kept(all.subrange(0, k as int), flags_spec),
            skipped == count_unset(flags_spec, k as int),
            skipped <= k,
        decreases rest@.len(),
    {
        let c = rest.remove(0);
        proof {
            assert(all.subrange(0, k + 1) =~= all.subrange(0, k as int).push(c));
            lemma_kept_push(all.subrange(0, k as int), flags_spec, c);
        }
        if flags[k] {
            out.push(c);
        } else {
            skipped = skipped + 1;
        }
        k = k + 1;
        assert(rest@ =~= all.subrange(k as int, all.len() as int));
    }
    assert(all.subrange(0, k as int) =~= all);
    (out, skipped)
}

} // verus!
