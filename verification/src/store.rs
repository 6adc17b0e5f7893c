//! The in-memory vector store built during indexing: one id per row,
//! row-major vector words, ids dense from zero with no gaps. Ids are
//! assigned only when a vector is actually retained.

use vstd::prelude::*;

verus! {

/// The flat vector store: dimension, row ids, and the raw 32-bit words of
/// the row-major vector data.
pub struct VectorStore {
    pub dim: u32,
    pub ids: Vec<u64>,
    pub data: Vec<u32>,
}

impl VectorStore {
    /// Well-formed: data holds exactly one row of `dim` words per id, and
    /// the ids are dense: `0, 1, …, rows-1`.
    pub open spec fn wf(self) -> bool {
        &&& self.data@.len() == self.ids@.len() * self.dim
        &&& forall|k: int| 0 <= k < self.ids@.len() ==> self.ids@[k] == k
    }

    /// An empty store of the given dimension.
    pub fn new(dim: u32) -> (r: Self)
        ensures
            r.wf(),
            r.dim == dim,
            r.ids@.len() == 0,
            r.data@.len() == 0,
    {
        let r = VectorStore { dim, ids: Vec::new(), data: Vec::new() };
        proof {
            assert(r.data@.len() == r.ids@.len() * r.dim) by (nonlinear_arith)
                requires
                    r.data@.len() == 0,
                    r.ids@.len() == 0,
            ;
        }
        r
    }

    /// Number of stored rows.
    pub fn rows(&self) -> (r: usize)
        ensures
            r == self.ids@.len(),
    {
        self.ids.len()
    }

    /// Append one retained vector: the next dense id is assigned to it and
    /// the row count grows by exactly one.
    pub fn push(&mut self, v: &Vec<u32>) -> (id: u64)
        requires
            old(self).wf(),
            v@.len() == old(self).dim,
            old(self).ids@.len() < u64::MAX,
            old(self).ids@.len() + 1 <= usize::MAX,
            old(self).data@.len() + old(self).dim <= usize::MAX,
        ensures
            final(self).wf(),
            final(self).dim == old(self).dim,
            id == old(self).ids@.len(),
            final(self).ids@ == old(self).ids@.push(id),
            final(self).ids@.len() == old(self).ids@.len() + 1,
            final(self).data@ == old(self).data@ + v@,
    {
        let id = self.ids.len() as u64;
        self.ids.push(id);
        let mut w: Vec<u32> = Vec::new();
        w.extend_from_slice(v.as_slice());
        self.data.append(&mut w);
        proof {
            let ghost dl = self.data@.len() as int;
            let ghost il = self.ids@.len() as int;
            let ghost odl = old(self).data@.len() as int;
            let ghost oil = old(self).ids@.len() as int;
            let ghost d = self.dim as int;
            assert(dl == il * d) by (nonlinear_arith)
                requires
                    dl == odl + d,
                    odl == oil * d,
                    il == oil + 1,
            ;
            assert forall|k: int| 0 <= k < self.ids@.len() implies self.ids@[k] == k by {
                if k < old(self).ids@.len() {
                    assert(self.ids@[k] == old(self).ids@[k]);
                }
            }
        }
        id
    }

    /// The row of words stored for row index `i`.
    pub fn row(&self, i: usize) -> (r: Vec<u32>)
        requires
            self.wf(),
            i < self.ids@.len(),
        ensures
            r@ == self.data@.subrange(i * self.dim, i * self.dim + self.dim),
    {
        let n = self.data.len();
        let d = self.dim as usize;
        proof {
            let ghost il = self.ids@.len() as int;
            assert(i * d + d <= n) by (nonlinear_arith)
                requires
                    i as int + 1 <= il,
                    n as int == il * (d as int),
                    d >= 0,
            ;
        }
        let start: usize = i * d;
        let end: usize = start + d;
        let mut r: Vec<u32> = Vec::new();
        r.extend_from_slice(&self.data.as_slice()[start..end]);
        r
    }
}

} // verus!
