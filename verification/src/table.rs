//! Immutable adjacency snapshot of a simple undirected graph with vertices
//! densely numbered `0..N-1`, supplied by the graph editor at state-space
//! build time.

use vstd::prelude::*;

verus! {

/// Vertex `v` lies in the closed neighborhood of `c`: it is `c` itself or
/// adjacent to `c`.
pub open spec fn in_closed_nbhd(adj: Seq<Seq<usize>>, c: int, v: int) -> bool {
    v == c || exists|k: int| 0 <= k < adj[c].len() && adj[c][k] as int == v
}

/// Well-formedness of an adjacency table: every listed neighbor is a valid
/// vertex id, no self loops, no duplicate entries, and the relation is
/// symmetric.
pub open spec fn adj_wf(adj: Seq<Seq<usize>>) -> bool {
    &&& forall|i: int, k: int|
        0 <= i < adj.len() && 0 <= k < adj[i].len() ==> (#[trigger] adj[i][k]) < adj.len()
            && adj[i][k] as int != i
    &&& forall|i: int, k1: int, k2: int|
        0 <= i < adj.len() && 0 <= k1 < k2 < adj[i].len() ==> (#[trigger] adj[i][k1]) != (
        #[trigger] adj[i][k2])
    &&& forall|i: int, k: int|
        0 <= i < adj.len() && 0 <= k < adj[i].len() ==> in_closed_nbhd(
            adj,
            (#[trigger] adj[i][k]) as int,
            i,
        )
}

/// Deduplicated, symmetric adjacency lists of a simple undirected graph.
pub struct NeighborTable {
    adj: Vec<Vec<usize>>,
}

impl View for NeighborTable {
    type V = Seq<Seq<usize>>;

    closed spec fn view(&self) -> Seq<Seq<usize>> {
        self.adj@.map_values(|column: Vec<usize>| column@)
    }
}

/// Whether `list` holds `x`.
pub(crate) fn list_has(list: &Vec<usize>, x: usize) -> (r: bool)
    ensures
        r == exists|k: int| 0 <= k < list@.len() && list@[k] == x,
{
    let mut k: usize = 0;
    while k < list.len()
        invariant
            k <= list@.len(),
            forall|j: int| 0 <= j < k ==> list@[j] != x,
        decreases list@.len() - k,
    {
        if list[k] == x {
            return true;
        }
        k = k + 1;
    }
    false
}

impl NeighborTable {
    /// Established at construction and preserved for the table's lifetime.
    #[verifier::type_invariant]
    pub open spec fn wf(&self) -> bool {
        adj_wf(self@)
    }

    /// Build a table from raw adjacency lists, validating that they describe
    /// a simple undirected graph over ids `0..N-1`; rejects anything else.
    pub fn new(adj: Vec<Vec<usize>>) -> (r: Option<NeighborTable>)
        ensures
            r is Some <==> adj_wf(adj@.map_values(|column: Vec<usize>| column@)),
            r matches Some(t) ==> t@ == adj@.map_values(|column: Vec<usize>| column@),
    {
        let ghost view = adj@.map_values(|column: Vec<usize>| column@);
        let n = adj.len();
        let mut i: usize = 0;
        while i < n
            invariant
                n == adj@.len(),
                view == adj@.map_values(|column: Vec<usize>| column@),
                i <= n,
                forall|i0: int, k: int|
                    0 <= i0 < i && 0 <= k < view[i0].len() ==> (#[trigger] view[i0][k]) < n
                        && view[i0][k] as int != i0,
                forall|i0: int, k1: int, k2: int|
                    0 <= i0 < i && 0 <= k1 < k2 < view[i0].len() ==> (#[trigger] view[i0][k1]) != (
                    #[trigger] view[i0][k2]),
                forall|i0: int, k: int|
                    0 <= i0 < i && 0 <= k < view[i0].len() ==> in_closed_nbhd(
                        view,
                        (#[trigger] view[i0][k]) as int,
                        i0,
                    ),
            decreases n - i,
        {
            let row = &adj[i];
            let mut k: usize = 0;
            while k < row.len()
                invariant
                    n == adj@.len(),
                    view == adj@.map_values(|column: Vec<usize>| column@),
                    i < n,
                    row@ == view[i as int],
                    k <= row@.len(),
                    forall|k0: int| 0 <= k0 < k ==> (#[trigger] row@[k0]) < n && row@[k0] as int != i as int,
                    forall|k1: int, k2: int|
                        0 <= k1 < k2 < k ==> (#[trigger] row@[k1]) != (#[trigger] row@[k2]),
                    forall|k0: int|
                        0 <= k0 < k ==> in_closed_nbhd(view, (#[trigger] row@[k0]) as int, i as int),
                decreases row@.len() - k,
            {
                let v = row[k];
                if v >= n || v == i {
                    proof {
                        assert(view[i as int][k as int] == v);
                    }
                    return None;
                }
                // no duplicate of v earlier in this row
                let mut k2: usize = 0;
                while k2 < k
                    invariant
                        n == adj@.len(),
                        view == adj@.map_values(|column: Vec<usize>| column@),
                        i < n,
                        row@ == view[i as int],
                        k < row@.len(),
                        v == row@[k as int],
                        k2 <= k,
                        forall|j: int| 0 <= j < k2 ==> row@[j] != v,
                    decreases k - k2,
                {
                    if row[k2] == v {
                        proof {
                            assert(view[i as int][k2 as int] == view[i as int][k as int]);
                        }
                        return None;
                    }
                    k2 = k2 + 1;
                }
                // symmetry: v's row lists i back
                if !list_has(&adj[v], i) {
                    proof {
                        assert(view[v as int] == adj@[v as int]@);
                        assert(view[i as int][k as int] == v);
                        assert(!in_closed_nbhd(view, v as int, i as int));
                    }
                    return None;
                }
                proof {
                    assert(view[v as int] == adj@[v as int]@);
                    assert(in_closed_nbhd(view, v as int, i as int));
                }
                k = k + 1;
            }
            i = i + 1;
        }
        proof {
            assert(adj_wf(view));
        }
        Some(NeighborTable { adj })
    }

    /// Number of vertices.
    pub fn len(&self) -> (r: usize)
        ensures
            r == self@.len(),
    {
        self.adj.len()
    }

    /// Neighbor list of vertex `v`.
    pub fn neighbors(&self, v: usize) -> (r: &Vec<usize>)
        requires
            v < self@.len(),
        ensures
            r@ == self@[v as int],
    {
        &self.adj[v]
    }
}

} // verus!
