//! Classical graph algorithms with machine-checked contracts: directed graphs
//! with depth- and breadth-first search and strongly connected components
//! (Kosaraju-Sharir), and an indexed binary heap driving Prim's minimum
//! spanning forest on weighted undirected graphs. Smaller companions: edge
//! list readers, union-find, quicksort with comparison counting, inversion
//! counting and a running median.
use vstd::prelude::*;

pub mod digraph;
pub mod mst;
pub mod search;
pub mod scc;
pub mod text;
pub mod parse;
pub mod qsort;
pub mod union_find;
pub mod inversions;
pub mod heaps;

verus! {

/// Number of `false` entries.
pub open spec fn unmarked_count(m: Seq<bool>) -> nat
    decreases m.len(),
{
    if m.len() == 0 {
        0
    } else {
        unmarked_count(m.drop_last()) + if m.last() { 0nat } else { 1nat }
    }
}

/// Marking an unmarked entry lowers the count by one.
pub proof fn lemma_unmarked_count_mark(m: Seq<bool>, v: int)
    requires
        0 <= v < m.len(),
        !m[v],
    ensures
        unmarked_count(m.update(v, true)) + 1 == unmarked_count(m),
    decreases m.len(),
{
    if v == m.len() - 1 {
        assert(m.update(v, true).drop_last() =~= m.drop_last());
    } else {
        assert(m.update(v, true).drop_last() =~= m.drop_last().update(v, true));
        lemma_unmarked_count_mark(m.drop_last(), v);
    }
}

} // verus!
