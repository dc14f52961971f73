//! The cell that a vertex of the hypergraph keeps during peeling.

use vstd::prelude::*;

verus! {

/// The position of the count of edges in a cell.
pub const DEG_SHIFT: u64 = 54;

/// One edge more in the count of a cell.
pub const DEG: u64 = 0x40_0000_0000_0000;

/// The bits of a cell that hold the sum of the edge indices.
pub const EDGE_INDEX_MASK: u64 = 0x3f_ffff_ffff_ffff;

/// The largest count of edges that a cell can hold.
pub const MAX_DEGREE: u64 = 1023;

/// A cell holds, in one word, the number of edges that are incident to a
/// vertex and still there, and the sum of their indices: adding and
/// removing an edge takes one addition, and the index of the last edge
/// left can be read off the sum.
#[derive(Clone, Copy, Debug)]
pub struct EdgeList(pub u64);

impl EdgeList {
    /// The number of edges in the cell.
    pub open spec fn spec_degree(&self) -> nat {
        (self.0 / DEG) as nat
    }

    /// The sum of the indices of the edges in the cell.
    pub open spec fn spec_sum(&self) -> nat {
        (self.0 % DEG) as nat
    }

    /// A cell without edges.
    pub fn new() -> (r: Self)
        ensures
            r.spec_degree() == 0,
            r.spec_sum() == 0,
    {
        EdgeList(0)
    }

    /// Adds the edge `edge` to the cell.
    pub fn add(&mut self, edge: u64)
        requires
            old(self).spec_degree() < MAX_DEGREE,
            old(self).spec_sum() + edge <= EDGE_INDEX_MASK,
        ensures
            final(self).spec_degree() == old(self).spec_degree() + 1,
            final(self).spec_sum() == old(self).spec_sum() + edge,
    {
        proof {
            lemma_cell_bits(self.0, edge);
        }
        self.0 += DEG | edge;
    }

    /// Removes the edge `edge` from the cell.
    pub fn remove(&mut self, edge: u64)
        requires
            old(self).spec_degree() >= 1,
            edge <= old(self).spec_sum(),
        ensures
            final(self).spec_degree() == old(self).spec_degree() - 1,
            final(self).spec_sum() == old(self).spec_sum() - edge,
    {
        proof {
            lemma_cell_bits(self.0, edge);
        }
        self.0 -= DEG | edge;
    }

    /// Returns the number of edges in the cell.
    pub fn degree(&self) -> (r: u64)
        ensures
            r == self.spec_degree(),
    {
        proof {
            lemma_cell_bits(self.0, 0);
        }
        self.0 >> DEG_SHIFT
    }

    /// Returns the sum of the indices of the edges in the cell: where one
    /// edge is left, its index.
    pub fn edge_index(&self) -> (r: u64)
        ensures
            r == self.spec_sum(),
    {
        proof {
            lemma_cell_bits(self.0, 0);
        }
        self.0 & EDGE_INDEX_MASK
    }

    /// Takes one from the count and leaves the sum: the vertex gives up its
    /// last edge and keeps its index.
    pub fn dec(&mut self)
        requires
            old(self).spec_degree() >= 1,
        ensures
            final(self).spec_degree() == old(self).spec_degree() - 1,
            final(self).spec_sum() == old(self).spec_sum(),
    {
        self.0 -= DEG;
    }
}

/// The count is in the top bits of a cell and the sum in the others; an
/// edge index below the count's place joins the count without carrying.
pub proof fn lemma_cell_bits(c: u64, edge: u64)
    by (bit_vector)
    ensures
        c >> 54 == c / 0x40_0000_0000_0000,
        c & 0x3f_ffff_ffff_ffff == c % 0x40_0000_0000_0000,
        edge <= 0x3f_ffff_ffff_ffff ==> 0x40_0000_0000_0000u64 | edge == 0x40_0000_0000_0000u64
            + edge,
{
}

} // verus!
