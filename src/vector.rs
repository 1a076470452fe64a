//! The vector index's bookkeeping: every external chunk id owns one compact
//! slot, assigned in insertion order, and the vector stored there has the
//! index's dimension. The nearest-neighbour graph over the slots is kept
//! beside it by the caller; slot numbers are what the graph knows.

use vstd::prelude::*;
use crate::types::ApiError;

verus! {

/// The slot of `id` in `s`, if it has one.
pub open spec fn slot_in(s: Seq<(Seq<char>, Seq<u32>)>, id: Seq<char>) -> Option<int> {
    if exists|i: int| 0 <= i < s.len() && #[trigger] s[i].0 == id {
        Some(choose|i: int| 0 <= i < s.len() && #[trigger] s[i].0 == id)
    } else {
        None
    }
}

/// The slots after storing `v` for `id`: its own slot is overwritten, or a
/// new slot is appended.
pub open spec fn with_vector(s: Seq<(Seq<char>, Seq<u32>)>, id: Seq<char>, v: Seq<u32>) -> Seq<(Seq<char>, Seq<u32>)> {
    match slot_in(s, id) {
        Some(i) => s.update(i, (id, v)),
        None => s.push((id, v)),
    }
}

/// No two slots hold the same id.
pub open spec fn distinct_ids(s: Seq<(Seq<char>, Seq<u32>)>) -> bool {
    forall|i: int, j: int| 0 <= i < j < s.len() ==> s[i].0 != s[j].0
}

proof fn lemma_with_vector_distinct(s: Seq<(Seq<char>, Seq<u32>)>, id: Seq<char>, v: Seq<u32>)
    requires
        distinct_ids(s),
    ensures
        distinct_ids(with_vector(s, id, v)),
        with_vector(s, id, v).len() >= 1,
        slot_in(with_vector(s, id, v), id) is Some,
        with_vector(s, id, v)[slot_in(with_vector(s, id, v), id)->0] == (id, v),
{
    let t = with_vector(s, id, v);
    match slot_in(s, id) {
        Some(i) => {
            assert(t[i].0 == id);
        },
        None => {
            assert(t[s.len() as int].0 == id);
            assert forall|i: int, j: int| 0 <= i < j < t.len() implies t[i].0 != t[j].0 by {
                if j == s.len() {
                    assert(s[i].0 != id);
                }
            }
        },
    }
    let k = slot_in(t, id)->0;
    assert forall|j: int| 0 <= j < t.len() && t[j].0 == id implies j == k by {
        if j != k {
            if j < k {
                assert(t[j].0 != t[k].0);
            } else {
                assert(t[k].0 != t[j].0);
            }
        }
    }
    match slot_in(s, id) {
        Some(i) => {
            assert(t[i].0 == id);
        },
        None => {
            assert(t[s.len() as int].0 == id);
        },
    }
}

/// Storing the same vector for the same id twice leaves the slots as storing
/// it once does.
pub proof fn lemma_store_idempotent(s: Seq<(Seq<char>, Seq<u32>)>, id: Seq<char>, v: Seq<u32>)
    requires
        distinct_ids(s),
    ensures
        with_vector(with_vector(s, id, v), id, v) == with_vector(s, id, v),
{
    let t = with_vector(s, id, v);
    lemma_with_vector_distinct(s, id, v);
    let k = slot_in(t, id)->0;
    assert(t.update(k, (id, v)) =~= t);
}

pub struct VectorSlots {
    pub dim: usize,
    pub ids: Vec<String>,
    pub vectors: Vec<Vec<u32>>,
}

impl VectorSlots {
    /// Slot `i` holds the id `ids[i]` and the vector `vectors[i]`.
    pub open spec fn view(&self) -> Seq<(Seq<char>, Seq<u32>)> {
        Seq::new(self.ids@.len(), |i: int| (self.ids@[i]@, self.vectors@[i]@))
    }

    /// One vector per id, ids distinct, every vector of the index's dimension.
    pub open spec fn wf(&self) -> bool {
        &&& self.ids@.len() == self.vectors@.len()
        &&& distinct_ids(self.view())
        &&& forall|i: int| 0 <= i < self.vectors@.len() ==> (#[trigger] self.vectors@[i])@.len() == self.dim
    }

    pub fn new(dim: usize) -> (r: VectorSlots)
        ensures
            r.wf(),
            r.dim == dim,
            r.view().len() == 0,
    {
        let r = VectorSlots { dim, ids: Vec::new(), vectors: Vec::new() };
        assert(r.view() =~= Seq::<(Seq<char>, Seq<u32>)>::empty());
        r
    }

    pub fn len(&self) -> (r: usize)
        requires
            self.wf(),
        ensures
            r == self.view().len(),
    {
        self.ids.len()
    }

    /// The slot that `id` owns, if any.
    pub fn slot_of(&self, id: &str) -> (r: Option<usize>)
        requires
            self.wf(),
        ensures
            match r {
                Some(i) => slot_in(self.view(), id@) == Some(i as int),
                None => slot_in(self.view(), id@) is None,
            },
    {
        let key = id.to_owned();
        let mut i: usize = 0;
        while i < self.ids.len()
            invariant
                self.wf(),
                key@ == id@,
                i <= self.ids@.len(),
                forall|j: int| 0 <= j < i ==> self.view()[j].0 != id@,
            decreases self.ids@.len() - i,
        {
            assert(self.view()[i as int].0 == self.ids@[i as int]@);
            if self.ids[i] == key {
                assert forall|j: int| 0 <= j < self.view().len() && self.view()[j].0 == id@ implies j == i by {
                    if j < i {
                    } else if j > i {
                        assert(self.view()[i as int].0 != self.view()[j].0);
                    }
                }
                return Some(i);
            }
            i = i + 1;
        }
        None
    }

    /// The id that owns slot `slot`, if the slot is taken.
    pub fn id_of(&self, slot: usize) -> (r: Option<&String>)
        requires
            self.wf(),
        ensures
            match r {
                Some(s) => slot < self.view().len() && s@ == self.view()[slot as int].0,
                None => slot >= self.view().len(),
            },
    {
        if slot < self.ids.len() {
            Some(&self.ids[slot])
        } else {
            None
        }
    }

    /// Stores `vector` for `id`: in the slot that `id` already owns, or in a
    /// new slot after the last. A vector of another dimension is refused and
    /// nothing changes. Returns the slot.
    pub fn add_vector(&mut self, id: &str, vector: Vec<u32>) -> (r: Result<usize, ApiError>)
        requires
            old(self).wf(),
        ensures
            final(self).wf(),
            final(self).dim == old(self).dim,
            match r {
                Ok(slot) => {
                    &&& vector@.len() == old(self).dim
                    &&& final(self).view() == with_vector(old(self).view(), id@, vector@)
                    &&& slot_in(final(self).view(), id@) == Some(slot as int)
                },
                Err(e) => {
                    &&& vector@.len() != old(self).dim
                    &&& e is Validation
                    &&& final(self).view() == old(self).view()
                },
            },
    {
        if vector.len() != self.dim {
            return Err(ApiError::Validation(String::from_str("embedding dimension does not match the index")));
        }
        let ghost s = self.view();
        let ghost v = vector@;
        proof {
            lemma_with_vector_distinct(s, id@, v);
        }
        match self.slot_of(id) {
            Some(i) => {
                self.vectors.set(i, vector);
                assert(self.view() =~= s.update(i as int, (id@, v)));
                Ok(i)
            },
            None => {
                let slot = self.ids.len();
                self.ids.push(id.to_owned());
                self.vectors.push(vector);
                assert(self.view() =~= s.push((id@, v)));
                Ok(slot)
            },
        }
    }
}

} // verus!
