//! Padding of token-id sequences into one rectangular batch with an
//! attention mask, as the embedder and the reranker feed their models.

use vstd::prelude::*;
use crate::types::ApiError;

verus! {

/// The length of the longest sequence, 0 for none.
pub open spec fn max_len(s: Seq<Seq<i64>>) -> nat
    decreases s.len(),
{
    if s.len() == 0 {
        0
    } else {
        let m = max_len(s.drop_last());
        if s.last().len() > m {
            s.last().len()
        } else {
            m
        }
    }
}

/// `x` followed by `pad` up to length `n`.
pub open spec fn pad_to(x: Seq<i64>, n: nat, pad: i64) -> Seq<i64> {
    x + Seq::new((n - x.len()) as nat, |_i: int| pad)
}

/// `len` ones followed by zeros up to length `n`.
pub open spec fn mask_to(len: nat, n: nat) -> Seq<i64> {
    Seq::new(len, |_i: int| 1i64) + Seq::new((n - len) as nat, |_i: int| 0i64)
}

/// Every sequence padded to `n`, concatenated row after row.
pub open spec fn padded_ids(s: Seq<Seq<i64>>, n: nat, pad: i64) -> Seq<i64>
    decreases s.len(),
{
    if s.len() == 0 {
        seq![]
    } else {
        padded_ids(s.drop_last(), n, pad) + pad_to(s.last(), n, pad)
    }
}

/// The attention mask of every sequence at width `n`, row after row.
pub open spec fn padded_mask(s: Seq<Seq<i64>>, n: nat) -> Seq<i64>
    decreases s.len(),
{
    if s.len() == 0 {
        seq![]
    } else {
        padded_mask(s.drop_last(), n) + mask_to(s.last().len(), n)
    }
}

pub open spec fn rows(s: Seq<Vec<i64>>) -> Seq<Seq<i64>> {
    s.map_values(|v: Vec<i64>| v@)
}

proof fn lemma_max_len_bound(s: Seq<Seq<i64>>, i: int)
    requires
        0 <= i < s.len(),
    ensures
        s[i].len() <= max_len(s),
    decreases s.len(),
{
    if i < s.len() - 1 {
        lemma_max_len_bound(s.drop_last(), i);
    }
}

/// Pads every sequence with `pad_value` to the length of the longest one and
/// returns the rows concatenated, with the matching attention mask (1 for a
/// real token, 0 for padding).
pub fn pad_sequences(sequences: &[Vec<i64>], pad_value: i64) -> (r: (Vec<i64>, Vec<i64>))
    ensures
        r.0@ == padded_ids(rows(sequences@), max_len(rows(sequences@)), pad_value),
        r.1@ == padded_mask(rows(sequences@), max_len(rows(sequences@))),
{
    let ghost s = rows(sequences@);
    let mut max: usize = 0;
    let mut i: usize = 0;
    while i < sequences.len()
        invariant
            s == rows(sequences@),
            i <= s.len(),
            max == max_len(s.subrange(0, i as int)),
        decreases s.len() - i,
    {
        assert(s.subrange(0, i + 1).drop_last() =~= s.subrange(0, i as int));
        assert(s[i as int] == sequences@[i as int]@);
        if sequences[i].len() > max {
            max = sequences[i].len();
        }
        i = i + 1;
    }
    assert(s.subrange(0, i as int) =~= s);
    let ghost width = max as nat;
    let mut ids: Vec<i64> = Vec::new();
    let mut mask: Vec<i64> = Vec::new();
    let mut i: usize = 0;
    while i < sequences.len()
        invariant
            s == rows(sequences@),
            i <= s.len(),
            width == max_len(s),
            max == width,
            ids@ == padded_ids(s.subrange(0, i as int), width, pad_value),
            mask@ == padded_mask(s.subrange(0, i as int), width),
        decreases s.len() - i,
    {
        let row = &sequences[i];
        assert(s[i as int] == row@);
        proof {
            lemma_max_len_bound(s, i as int);
        }
        let ghost ids0 = ids@;
        let ghost mask0 = mask@;
        let mut j: usize = 0;
        while j < row.len()
            invariant
                row@ == s[i as int],
                j <= row@.len() <= max,
                ids@ == ids0 + row@.subrange(0, j as int),
                mask@ == mask0 + Seq::new(j as nat, |_k: int| 1i64),
            decreases row@.len() - j,
        {
            ids.push(row[j]);
            mask.push(1);
            assert(row@.subrange(0, j + 1) =~= row@.subrange(0, j as int).push(row@[j as int]));
            assert(Seq::new((j + 1) as nat, |_k: int| 1i64) =~= Seq::new(j as nat, |_k: int| 1i64).push(1i64));
            j = j + 1;
        }
        while j < max
            invariant
                row@ == s[i as int],
                row@.len() <= j <= max,
                ids@ == ids0 + row@ + Seq::new((j - row@.len()) as nat, |_k: int| pad_value),
                mask@ == mask0 + Seq::new(row@.len(), |_k: int| 1i64)
                    + Seq::new((j - row@.len()) as nat, |_k: int| 0i64),
            decreases max - j,
        {
            ids.push(pad_value);
            mask.push(0);
            assert(Seq::new((j + 1 - row@.len()) as nat, |_k: int| pad_value)
                =~= Seq::new((j - row@.len()) as nat, |_k: int| pad_value).push(pad_value));
            assert(Seq::new((j + 1 - row@.len()) as nat, |_k: int| 0i64)
                =~= Seq::new((j - row@.len()) as nat, |_k: int| 0i64).push(0i64));
            j = j + 1;
        }
        assert(s.subrange(0, i + 1).drop_last() =~= s.subrange(0, i as int));
        assert(s.subrange(0, i + 1).last() == row@);
        assert(ids@ =~= padded_ids(s.subrange(0, i + 1), width, pad_value));
        assert(mask@ =~= padded_mask(s.subrange(0, i + 1), width));
        i = i + 1;
    }
    assert(s.subrange(0, i as int) =~= s);
    (ids, mask)
}

/// Splits a model output of shape `[batch, dim]`, laid out row after row,
/// into one row per input. Each value is the bit pattern of a 32-bit float.
/// An output of another rank, or shorter than its shape, is refused.
pub fn output_to_vectors(shape: &Vec<i64>, data: &Vec<u32>) -> (r: Result<Vec<Vec<u32>>, ApiError>)
    ensures
        match r {
            Ok(rows) => {
                &&& shape@.len() == 2
                &&& 0 <= shape@[0] && 0 <= shape@[1]
                &&& shape@[0] * shape@[1] <= data@.len()
                &&& rows@.len() == shape@[0]
                &&& forall|i: int|
                    0 <= i < rows@.len() ==> (#[trigger] rows@[i])@ == data@.subrange(
                        i * shape@[1],
                        (i + 1) * shape@[1],
                    )
            },
            Err(e) => {
                &&& e is Internal
                &&& (shape@.len() != 2 || shape@[0] < 0 || shape@[1] < 0 || shape@[0] > usize::MAX
                    || shape@[0] * shape@[1] > data@.len())
            },
        },
{
    if shape.len() != 2 || shape[0] < 0 || shape[1] < 0 {
        return Err(ApiError::Internal(String::from_str("expected a two-dimensional model output")));
    }
    let batch = shape[0] as u64;
    let dim = shape[1] as u64;
    let len = data.len() as u64;
    if batch > usize::MAX as u64 {
        return Err(ApiError::Internal(String::from_str("model output is too large")));
    }
    if dim > 0 && batch > len / dim {
        proof {
            assert(batch * dim > len) by (nonlinear_arith)
                requires dim > 0, batch > len / dim;
        }
        return Err(ApiError::Internal(String::from_str("model output is shorter than its shape")));
    }
    proof {
        if dim > 0 {
            assert(batch * dim <= len) by (nonlinear_arith)
                requires dim > 0, batch <= len / dim;
        } else {
            assert(batch * dim == 0) by (nonlinear_arith)
                requires dim == 0;
        }
    }
    if batch == 0 {
        assert(shape@[0] * shape@[1] == 0) by (nonlinear_arith)
            requires shape@[0] == 0;
        return Ok(Vec::new());
    }
    proof {
        assert(dim <= len) by (nonlinear_arith)
            requires batch >= 1, batch * dim <= len;
    }
    assert(len == data@.len());
    let batch = batch as usize;
    let dim = dim as usize;
    let mut rows: Vec<Vec<u32>> = Vec::new();
    let mut i: usize = 0;
    let mut start: usize = 0;
    while i < batch
        invariant
            shape@.len() == 2,
            batch == shape@[0],
            dim == shape@[1],
            batch * dim <= data@.len(),
            data@.len() <= usize::MAX,
            i <= batch,
            start == i * dim,
            rows@.len() == i,
            forall|j: int| 0 <= j < i ==> (#[trigger] rows@[j])@ == data@.subrange(j * dim, (j + 1) * dim),
        decreases batch - i,
    {
        proof {
            assert((i + 1) * dim <= batch * dim) by (nonlinear_arith)
                requires i < batch, dim >= 0;
            assert((i + 1) * dim == i * dim + dim) by (nonlinear_arith);
        }
        let mut row: Vec<u32> = Vec::new();
        let mut k: usize = 0;
        while k < dim
            invariant
                dim == shape@[1],
                shape@.len() == 2,
                start + dim <= data@.len(),
                data@.len() <= usize::MAX,
                k <= dim,
                row@ == data@.subrange(start as int, start + k),
            decreases dim - k,
        {
            row.push(data[start + k]);
            assert(data@.subrange(start as int, start + k + 1) =~= data@.subrange(start as int, start + k).push(data@[start + k]));
            k = k + 1;
        }
        rows.push(row);
        start = start + dim;
        i = i + 1;
    }
    Ok(rows)
}

} // verus!
