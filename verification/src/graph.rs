//! The distance matrix: an immutable, flat, row-major table of edge weights,
//! and the specification of what a tour over it costs.

use vstd::prelude::*;

verus! {

/// An `n` x `n` table of non-negative edge weights, stored row-major in a
/// flat vector. `values[i * n + j]` is the weight of the directed edge from
/// node `i` to node `j`; the table may be asymmetric.
pub struct Graph {
    pub values: Vec<u64>,
    pub n: usize,
}

impl Graph {
    /// The table is exactly `n * n` entries long.
    pub open spec fn wf(&self) -> bool {
        self.values@.len() == self.n * self.n
    }

    /// The weight of the directed edge from `i` to `j`.
    pub open spec fn weight(&self, i: int, j: int) -> u64 {
        self.values@[i * self.n + j]
    }

    pub fn new(values: Vec<u64>, n: usize) -> (g: Graph)
        requires
            values@.len() == n * n,
        ensures
            g.wf(),
            g.n == n,
            g.values@ == values@,
    {
        Graph { values, n }
    }

    /// Look up the weight of the edge from `i` to `j`.
    pub fn edge(&self, i: usize, j: usize) -> (w: u64)
        requires
            self.wf(),
            i < self.n,
            j < self.n,
        ensures
            w == self.weight(i as int, j as int),
    {
        // Binding the length to a machine word bounds `n * n`, so the
        // flat index below cannot overflow.
        let len: usize = self.values.len();
        proof {
            lemma_flat_index_in_range(i as int, j as int, self.n as int);
        }
        self.values[i * self.n + j]
    }

    /// The summed weight of the first `k` edges of the node sequence `p`:
    /// the weights of `(p[0], p[1])` through `(p[k-1], p[k])`.
    pub open spec fn cost_of_first_edges(&self, p: Seq<usize>, k: int) -> int
        decreases k,
    {
        if k <= 0 {
            0
        } else {
            self.cost_of_first_edges(p, k - 1) + self.weight(p[k - 1] as int, p[k] as int)
        }
    }

    /// The total weight of the node sequence `p`, every traversed edge
    /// counted, the closing edge included when `p` ends where it starts.
    pub open spec fn path_cost(&self, p: Seq<usize>) -> int {
        self.cost_of_first_edges(p, p.len() - 1)
    }

    /// Every node of `p` is a node of the graph.
    pub open spec fn nodes_in_range(&self, p: Seq<usize>) -> bool {
        forall|i: int| 0 <= i < p.len() ==> p[i] < self.n
    }

    /// `p` is a closed tour: `n + 1` nodes long, starting and ending at the
    /// same node, visiting every node of the graph exactly once.
    pub open spec fn tour_ok(&self, p: Seq<usize>) -> bool {
        &&& p.len() == self.n + 1
        &&& self.nodes_in_range(p)
        &&& p[0] == p[p.len() - 1]
        &&& p.subrange(0, self.n as int).no_duplicates()
        &&& forall|v: int| 0 <= v < self.n ==> #[trigger] p.subrange(0, self.n as int).contains(v as usize)
    }

    /// Recompute the total weight of a recorded tour.
    pub fn calc_distance(&self, path: &Vec<usize>, n: usize) -> (res: u128)
        requires
            self.wf(),
            n == self.n,
            path@.len() == n + 1,
            self.nodes_in_range(path@),
        ensures
            res == self.path_cost(path@),
    {
        let mut res: u128 = 0;
        let mut i: usize = 0;
        while i < path.len() - 1
            invariant
                self.wf(),
                n == self.n,
                path@.len() == n + 1,
                self.nodes_in_range(path@),
                0 <= i <= path@.len() - 1,
                res == self.cost_of_first_edges(path@, i as int),
            decreases path@.len() - 1 - i,
        {
            proof {
                self.lemma_cost_of_first_edges_bound(path@, i as int);
                assert((i as int) * (u64::MAX as int) + (u64::MAX as int)
                    <= (path@.len() - 1) * (u64::MAX as int)) by (nonlinear_arith)
                    requires 0 <= i as int <= path@.len() - 2;
                assert((path@.len() - 1) * (u64::MAX as int) < u128::MAX) by (nonlinear_arith)
                    requires path@.len() - 1 <= u64::MAX;
            }
            let from = path[i];
            let to = path[i + 1];
            res = res + self.edge(from, to) as u128;
            i = i + 1;
        }
        res
    }

    /// The cost of a prefix of `k` edges is at most `k` times the largest
    /// weight an entry can hold.
    pub proof fn lemma_cost_of_first_edges_bound(&self, p: Seq<usize>, k: int)
        requires
            0 <= k,
        ensures
            0 <= self.cost_of_first_edges(p, k) <= k * u64::MAX,
        decreases k,
    {
        if k > 0 {
            self.lemma_cost_of_first_edges_bound(p, k - 1);
            assert((k - 1) * u64::MAX + u64::MAX == k * u64::MAX) by (nonlinear_arith);
        }
    }

    /// A prefix cost only reads the first `k + 1` nodes, so appending nodes
    /// to the sequence leaves it unchanged.
    pub proof fn lemma_cost_of_first_edges_push(&self, p: Seq<usize>, x: usize, k: int)
        requires
            0 <= k < p.len(),
        ensures
            self.cost_of_first_edges(p.push(x), k) == self.cost_of_first_edges(p, k),
        decreases k,
    {
        if k > 0 {
            self.lemma_cost_of_first_edges_push(p, x, k - 1);
        }
    }
}

/// Row-major indexing stays inside an `n * n` table.
pub proof fn lemma_flat_index_in_range(i: int, j: int, n: int)
    requires
        0 <= i < n,
        0 <= j < n,
    ensures
        0 <= i * n + j < n * n,
        i * n + j <= (n - 1) * n + (n - 1),
{
    assert(i * n + j < n * n) by (nonlinear_arith)
        requires 0 <= i < n && 0 <= j < n;
    assert(i * n + j <= (n - 1) * n + (n - 1)) by (nonlinear_arith)
        requires 0 <= i < n && 0 <= j < n;
}

} // verus!
