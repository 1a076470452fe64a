//! Counting for retrieval evaluation: how many retrieved documents were
//! expected. Precision and recall are these counts over the list lengths.

use vstd::prelude::*;
use crate::dedup::string_views;

verus! {

/// How many of the first `n` retrieved ids occur among the expected ones.
pub open spec fn relevant_in(retrieved: Seq<Seq<char>>, expected: Seq<Seq<char>>, n: int) -> nat
    decreases n,
{
    if n <= 0 {
        0
    } else {
        relevant_in(retrieved, expected, n - 1) + if expected.contains(retrieved[n - 1]) { 1nat } else { 0nat }
    }
}

/// The number of retrieved ids, counted with repetition, that are expected.
pub fn relevant_retrieved(retrieved: &Vec<String>, expected: &Vec<String>) -> (r: usize)
    ensures
        r == relevant_in(string_views(retrieved@), string_views(expected@), retrieved@.len() as int),
        r <= retrieved@.len(),
{
    let ghost rv = string_views(retrieved@);
    let ghost ev = string_views(expected@);
    let mut count: usize = 0;
    let mut i: usize = 0;
    while i < retrieved.len()
        invariant
            rv == string_views(retrieved@),
            ev == string_views(expected@),
            i <= retrieved@.len(),
            count == relevant_in(rv, ev, i as int),
            count <= i,
        decreases retrieved@.len() - i,
    {
        let mut j: usize = 0;
        let mut found = false;
        while j < expected.len()
            invariant
                rv == string_views(retrieved@),
                ev == string_views(expected@),
                i < retrieved@.len(),
                j <= expected@.len(),
                found == exists|m: int| 0 <= m < j && ev[m] == rv[i as int],
            decreases expected@.len() - j,
        {
            assert(ev[j as int] == expected@[j as int]@ && rv[i as int] == retrieved@[i as int]@);
            if expected[j] == retrieved[i] {
                found = true;
            }
            j = j + 1;
        }
        proof {
            if found {
                let m = choose|m: int| 0 <= m < j && ev[m] == rv[i as int];
                assert(ev.contains(rv[i as int]));
            } else {
                assert(!ev.contains(rv[i as int]));
            }
        }
        if found {
            count = count + 1;
        }
        i = i + 1;
    }
    count
}

} // verus!
