use vstd::prelude::*;

verus! {

/// Largest edge cost.
pub const MAX_WEIGHT: u32 = 4294967295;

/// A square table of non-negative edge costs; `rows[i][j]` is the cost of
/// going from node `i` to node `j`.
pub struct CostMatrix {
    pub rows: Vec<Vec<u32>>,
}

impl CostMatrix {
    /// Number of nodes.
    pub open spec fn size(&self) -> nat {
        self.rows@.len()
    }

    /// Cost of the edge from `i` to `j`.
    pub open spec fn w(&self, i: int, j: int) -> int {
        self.rows@[i]@[j] as int
    }

    /// The table is square, and small enough that a tour's cost fits in `u64`.
    pub open spec fn wf(&self) -> bool {
        &&& self.rows@.len() < 4294967296
        &&& forall|i: int| 0 <= i < self.rows@.len() ==> #[trigger] self.rows@[i]@.len()
            == self.rows@.len()
    }

    /// Builds a matrix from its rows; `None` unless the rows form a square table.
    pub fn new(rows: Vec<Vec<u32>>) -> (r: Option<CostMatrix>)
        ensures
            r.is_some() <==> (CostMatrix { rows }).wf(),
            r.is_some() ==> r.unwrap().rows@ == rows@,
    {
        let n = rows.len();
        if n as u64 >= 4294967296 {
            return None;
        }
        let mut i: usize = 0;
        while i < n
            invariant
                n == rows@.len(),
                i <= n,
                forall|k: int| 0 <= k < i ==> #[trigger] rows@[k]@.len() == n,
            decreases n - i,
        {
            if rows[i].len() != n {
                return None;
            }
            i += 1;
        }
        Some(CostMatrix { rows })
    }

    /// Number of nodes.
    pub fn node_count(&self) -> (r: usize)
        ensures
            r == self.size(),
    {
        self.rows.len()
    }

    /// Cost of the edge from `i` to `j`.
    pub fn cost(&self, i: usize, j: usize) -> (r: u32)
        requires
            self.wf(),
            i < self.size(),
            j < self.size(),
        ensures
            r == self.w(i as int, j as int),
    {
        self.rows[i][j]
    }
}

} // verus!
