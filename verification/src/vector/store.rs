//! The backing store for vector data.
//!
//! Vectors are kept in one contiguous buffer, `len * dim` elements long, so that
//! vector `id` occupies the slice `[id * dim, (id + 1) * dim)`. A flat layout
//! keeps each vector cache-friendly for the distance kernels.

use vstd::prelude::*;

use crate::vector::float::Float;

verus! {

/// A growable, fixed-dimension collection of vectors.
pub struct VectorStore {
    /// The dimension of every vector held here.
    dim: usize,
    /// All vectors concatenated, row-major: `data[id * dim ..][.. dim]`.
    data: Vec<Float>,
}

impl VectorStore {
    /// The dimension of every vector held here.
    pub closed spec fn dim(&self) -> nat {
        self.dim as nat
    }

    /// The vectors, in the order of their ids.
    pub closed spec fn view(&self) -> Seq<Seq<Float>> {
        if self.dim == 0 {
            seq![]
        } else {
            Seq::new(
                (self.data@.len() / self.dim as nat),
                |i: int| self.data@.subrange(i * self.dim, i * self.dim + self.dim),
            )
        }
    }

    /// The buffer holds whole vectors only.
    pub closed spec fn wf(&self) -> bool {
        if self.dim == 0 {
            self.data@.len() == 0
        } else {
            self.data@.len() % self.dim as nat == 0
        }
    }

    /// Creates an empty store for `dim`-dimensional vectors.
    pub fn new(dim: usize) -> (r: VectorStore)
        ensures
            r.wf(),
            r.dim() == dim,
            r@ == Seq::<Seq<Float>>::empty(),
    {
        let r = VectorStore { dim, data: Vec::new() };
        assert(dim > 0 ==> 0nat / dim as nat == 0 && 0nat % dim as nat == 0) by (nonlinear_arith);
        assert(r@ =~= Seq::empty());
        r
    }

    /// How many vectors are stored, including any later tombstoned by the index.
    pub fn len(&self) -> (r: usize)
        requires
            self.wf(),
            self.dim() > 0,
        ensures
            r == self@.len(),
    {
        self.data.len() / self.dim
    }

    /// Appends a vector and returns its new id.
    pub fn push(&mut self, v: &[Float]) -> (id: u32)
        requires
            old(self).wf(),
            old(self).dim() > 0,
            v@.len() == old(self).dim(),
            old(self)@.len() <= u32::MAX,
        ensures
            final(self).wf(),
            final(self).dim() == old(self).dim(),
            final(self)@ == old(self)@.push(v@),
            id == old(self)@.len(),
    {
        let id: u32 = self.len() as u32;
        let ghost before = self.data@;
        let ghost d = self.dim as int;
        self.data.extend_from_slice(v);
        proof {
            let n = before.len() as int / d;
            assert(self.data@ =~= before + v@);
            vstd::arithmetic::div_mod::lemma_fundamental_div_mod(before.len() as int, d);
            vstd::arithmetic::div_mod::lemma_div_plus_one(before.len() as int, d);
            vstd::arithmetic::div_mod::lemma_mod_add_multiples_vanish(before.len() as int, d);
            assert(d * n == n * d) by (nonlinear_arith);
            assert forall|i: int| 0 <= i < n + 1 implies #[trigger] self@[i] == old(self)@.push(v@)[i] by {
                if i < n {
                    assert(i * d + d <= n * d && 0 <= i * d) by (nonlinear_arith)
                        requires
                            0 <= i < n,
                            d > 0,
                    ;
                    assert(self.data@.subrange(i * d, i * d + d) =~= before.subrange(
                        i * d,
                        i * d + d,
                    ));
                } else {
                    assert(self.data@.subrange(n * d, n * d + d) =~= v@);
                }
            }
            assert(self@ =~= old(self)@.push(v@));
        }
        id
    }

    /// Borrows the vector stored at `id`.
    pub fn get(&self, id: u32) -> (r: &[Float])
        requires
            self.wf(),
            id < self@.len(),
        ensures
            r@ == self@[id as int],
            r@.len() == self.dim(),
    {
        proof {
            let n = self.data@.len() as int / self.dim as int;
            lemma_row_within(self.data@.len() as int, self.dim as int, id as int);
            assert(self.data@.len() == self.data.len());
        }
        let start: usize = id as usize * self.dim;
        &self.data[start..start + self.dim]
    }
}

/// Every stored vector has the dimension of the store.
pub proof fn law_stored_vectors_have_the_dimension(store: VectorStore, id: int)
    requires
        store.wf(),
        0 <= id < store@.len(),
    ensures
        store@[id].len() == store.dim(),
{
    lemma_row_within(store.data@.len() as int, store.dim as int, id);
}

/// A row of a buffer of `len` elements lies within it.
proof fn lemma_row_within(len: int, d: int, id: int)
    requires
        d > 0,
        0 <= id < len / d,
    ensures
        0 <= id * d,
        id * d + d <= len,
{
    vstd::arithmetic::div_mod::lemma_fundamental_div_mod(len, d);
    let n = len / d;
    assert(0 <= id * d && id * d + d <= d * n) by (nonlinear_arith)
        requires
            0 <= id < n,
            d > 0,
    ;
}

} // verus!
