use vstd::prelude::*;
use vstd::string::StringExecFns;
use crate::text::{decimal, push_decimal};

verus! {

broadcast use vstd::seq_lib::group_to_multiset_ensures, vstd::multiset::group_multiset_axioms;

/// Number of edges stored in a list of adjacency lists.
pub open spec fn total_edges(adj: Seq<Seq<usize>>) -> nat
    decreases adj.len(),
{
    if adj.len() == 0 {
        0
    } else {
        total_edges(adj.drop_last()) + adj.last().len()
    }
}

/// How many edges `u -> w` the adjacency lists hold.
pub open spec fn edge_mult(adj: Seq<Seq<usize>>, u: int, w: int) -> nat {
    adj[u].to_multiset().count(w as usize)
}

/// `r` holds the edges of `g` turned around, each as often as in `g`.
pub open spec fn reverses(r: Seq<Seq<usize>>, g: Seq<Seq<usize>>) -> bool {
    &&& r.len() == g.len()
    &&& forall|u: int, w: int|
        0 <= u < g.len() && 0 <= w < g.len() ==> #[trigger] edge_mult(r, w, u) == edge_mult(g, u, w)
}

/// The two graphs hold the same multiset of edges.
pub open spec fn same_edges(a: Seq<Seq<usize>>, b: Seq<Seq<usize>>) -> bool {
    &&& a.len() == b.len()
    &&& forall|u: int, w: int|
        0 <= u < a.len() && 0 <= w < a.len() ==> #[trigger] edge_mult(a, u, w) == edge_mult(b, u, w)
}

/// Reversing a graph twice gives back its edges, with their multiplicities.
pub proof fn lemma_reverse_twice(g: Seq<Seq<usize>>, r: Seq<Seq<usize>>, rr: Seq<Seq<usize>>)
    requires
        reverses(r, g),
        reverses(rr, r),
    ensures
        same_edges(rr, g),
{
    assert forall|u: int, w: int| 0 <= u < rr.len() && 0 <= w < rr.len() implies #[trigger] edge_mult(
        rr,
        u,
        w,
    ) == edge_mult(g, u, w) by {
        assert(edge_mult(rr, u, w) == edge_mult(r, w, u));
        assert(edge_mult(r, w, u) == edge_mult(g, u, w));
    }
}

/// A directed graph on the vertices `0 .. v`, stored as adjacency lists.
#[derive(Clone, Debug)]
pub struct Digraph {
    v: usize,
    e: usize,
    adj: Vec<Vec<usize>>,
}

impl Digraph {
    /// The adjacency lists, one per vertex.
    pub closed spec fn adj_view(&self) -> Seq<Seq<usize>> {
        self.adj@.map_values(|l: Vec<usize>| l@)
    }

    pub closed spec fn vertex_count(&self) -> nat {
        self.v as nat
    }

    pub closed spec fn edge_count(&self) -> nat {
        self.e as nat
    }

    /// Every list belongs to a vertex, every neighbour is a vertex, and the
    /// edge counter counts the stored edges.
    pub closed spec fn wf(&self) -> bool {
        &&& self.adj@.len() == self.v
        &&& forall|u: int, j: int|
            0 <= u < self.adj@.len() && 0 <= j < self.adj@[u]@.len() ==> self.adj@[u]@[j] < self.v
        &&& self.e == total_edges(self.adj_view())
    }

    pub fn new(v: usize) -> (g: Digraph)
        ensures
            g.wf(),
            g.vertex_count() == v,
            g.edge_count() == 0,
            g.adj_view() == Seq::new(v as nat, |i: int| Seq::<usize>::empty()),
    {
        let mut adj: Vec<Vec<usize>> = Vec::new();
        let mut i: usize = 0;
        while i < v
            invariant
                i <= v,
                adj@.len() == i,
                forall|k: int| 0 <= k < i ==> adj@[k]@ == Seq::<usize>::empty(),
            decreases v - i,
        {
            adj.push(Vec::new());
            i = i + 1;
        }
        let g = Digraph { v, e: 0, adj };
        proof {
            assert(g.adj_view() =~= Seq::new(v as nat, |i: int| Seq::<usize>::empty()));
            lemma_total_edges_empty(g.adj_view());
        }
        g
    }

    /// Grows the vertex set to `0 .. n`; the new vertices have no edges.
    pub fn resize(&mut self, n: usize)
        requires
            old(self).wf(),
            n > old(self).vertex_count(),
        ensures
            final(self).wf(),
            final(self).vertex_count() == n,
            final(self).edge_count() == old(self).edge_count(),
            final(self).adj_view() == old(self).adj_view() + Seq::new(
                (n - old(self).vertex_count()) as nat,
                |i: int| Seq::<usize>::empty(),
            ),
    {
        let ghost old_adj = self.adj_view();
        while self.adj.len() < n
            invariant
                self.v == old(self).v,
                self.e == old(self).e,
                old(self).adj@.len() <= self.adj@.len() <= n,
                n > old(self).v,
                old(self).wf(),
                forall|k: int| 0 <= k < old(self).adj@.len() ==> self.adj@[k] == old(self).adj@[k],
                forall|k: int| old(self).adj@.len() <= k < self.adj@.len() ==> self.adj@[k]@ == Seq::<usize>::empty(),
            decreases n - self.adj@.len(),
        {
            self.adj.push(Vec::new());
        }
        self.v = n;
        proof {
            let tail = Seq::new((n - old(self).v) as nat, |i: int| Seq::<usize>::empty());
            assert(self.adj_view() =~= old_adj + tail);
            lemma_total_edges_append_empty(old_adj, tail);
        }
    }

    /// Every neighbour in the lists is a vertex.
    pub proof fn lemma_neighbors(&self)
        requires
            self.wf(),
        ensures
            self.adj_view().len() == self.vertex_count(),
            self.vertex_count() <= usize::MAX,
            self.edge_count() == total_edges(self.adj_view()),
            forall|u: int, j: int|
                0 <= u < self.adj_view().len() && 0 <= j < self.adj_view()[u].len() ==> #[trigger] self.adj_view()[u][j]
                    < self.vertex_count(),
    {
        assert forall|u: int, j: int|
            0 <= u < self.adj_view().len() && 0 <= j < self.adj_view()[u].len() implies #[trigger] self.adj_view()[u][j]
                < self.vertex_count() by {
            assert(self.adj_view()[u] == self.adj@[u]@);
        }
    }

    /// Number of vertices.
    pub fn v(&self) -> (r: usize)
        ensures
            r == self.vertex_count(),
    {
        self.v
    }

    /// Number of edges.
    pub fn e(&self) -> (r: usize)
        ensures
            r == self.edge_count(),
    {
        self.e
    }

    /// Adds the edge `v -> w` at the end of the list of `v`.
    pub fn add_edge(&mut self, v: usize, w: usize)
        requires
            old(self).wf(),
            v < old(self).vertex_count(),
            w < old(self).vertex_count(),
            old(self).edge_count() < usize::MAX,
        ensures
            final(self).wf(),
            final(self).vertex_count() == old(self).vertex_count(),
            final(self).edge_count() == old(self).edge_count() + 1,
            final(self).adj_view() == old(self).adj_view().update(v as int, old(self).adj_view()[v as int].push(w)),
    {
        let ghost old_adj = self.adj_view();
        self.adj[v].push(w);
        self.e = self.e + 1;
        proof {
            assert(self.adj_view() =~= old_adj.update(v as int, old_adj[v as int].push(w)));
            lemma_total_edges_update(old_adj, v as int, old_adj[v as int].push(w));
        }
    }

    /// Number of edges that leave `v`.
    pub fn outdegree(&self, v: usize) -> (r: usize)
        requires
            self.wf(),
            v < self.vertex_count(),
        ensures
            r == self.adj_view()[v as int].len(),
    {
        self.adj[v].len()
    }

    /// The neighbours of `v`, in the order their edges were added.
    pub fn adj(&self, v: usize) -> (r: &[usize])
        requires
            self.wf(),
            v < self.vertex_count(),
        ensures
            r@ == self.adj_view()[v as int],
    {
        self.adj[v].as_slice()
    }
}

impl Digraph {
    /// The same vertices with every edge turned around.
    pub fn reverse(&self) -> (r: Digraph)
        requires
            self.wf(),
        ensures
            r.wf(),
            r.vertex_count() == self.vertex_count(),
            r.edge_count() == self.edge_count(),
            reverses(r.adj_view(), self.adj_view()),
    {
        let n = self.v;
        let mut rev = Digraph::new(n);
        let ghost orig = self.adj_view();
        let mut s: usize = 0;
        proof {
            assert(orig.take(0) =~= Seq::<Seq<usize>>::empty());
        }
        while s < n
            invariant
                self.wf(),
                n == self.vertex_count(),
                orig == self.adj_view(),
                0 <= s <= n,
                rev.wf(),
                rev.vertex_count() == n,
                rev.edge_count() == total_edges(orig.take(s as int)),
                forall|w: int, t: int|
                    0 <= w < n && 0 <= t < n ==> edge_mult(rev.adj_view(), w, t) == if t < s {
                        edge_mult(orig, t, w)
                    } else {
                        0
                    },
            decreases n - s,
        {
            let out = self.adj[s].as_slice();
            let mut j: usize = 0;
            proof {
                assert(out@.take(0) =~= Seq::<usize>::empty());
                assert(orig.take(s + 1).drop_last() =~= orig.take(s as int));
            }
            while j < out.len()
                invariant
                    self.wf(),
                    n == self.vertex_count(),
                    orig == self.adj_view(),
                    0 <= s < n,
                    out@ == orig[s as int],
                    0 <= j <= out@.len(),
                    rev.wf(),
                    rev.vertex_count() == n,
                    rev.edge_count() == total_edges(orig.take(s as int)) + j,
                    total_edges(orig.take(s as int)) + out@.len() == total_edges(orig.take(s + 1)),
                    forall|w: int, t: int|
                        0 <= w < n && 0 <= t < n ==> edge_mult(rev.adj_view(), w, t) == if t < s {
                            edge_mult(orig, t, w)
                        } else if t == s {
                            out@.take(j as int).to_multiset().count(w as usize)
                        } else {
                            0
                        },
                decreases out@.len() - j,
            {
                let x = out[j];
                proof {
                    assert(total_edges(orig) == self.edge_count());
                    assert(total_edges(orig.take(s + 1)) <= total_edges(orig)) by {
                        lemma_total_edges_prefix(orig, s + 1);
                    }
                }
                let ghost before = rev.adj_view();
                rev.add_edge(x, s);
                proof {
                    assert(out@.take(j + 1) =~= out@.take(j as int).push(x));
                    assert forall|w: int, t: int| 0 <= w < n && 0 <= t < n implies edge_mult(
                        rev.adj_view(),
                        w,
                        t,
                    ) == if t < s {
                        edge_mult(orig, t, w)
                    } else if t == s {
                        out@.take(j + 1).to_multiset().count(w as usize)
                    } else {
                        0
                    } by {
                        if w == x {
                            assert(rev.adj_view()[w] == before[w].push(s));
                            assert(before[w].push(s).to_multiset() =~= before[w].to_multiset().insert(s));
                            assert(out@.take(j + 1).to_multiset() =~= out@.take(j as int).to_multiset().insert(x));
                            assert(edge_mult(rev.adj_view(), w, t) == edge_mult(before, w, t) + if t == s { 1nat } else { 0nat });
                        } else {
                            assert(out@.take(j + 1).to_multiset() =~= out@.take(j as int).to_multiset().insert(x));
                            assert(out@.take(j + 1).to_multiset().count(w as usize) == out@.take(j as int).to_multiset().count(w as usize));
                            assert(rev.adj_view()[w] == before[w]);
                            assert(edge_mult(rev.adj_view(), w, t) == edge_mult(before, w, t));
                        }
                    }
                }
                j = j + 1;
            }
            proof {
                assert(out@.take(j as int) =~= out@);
                assert(orig.take(s + 1).drop_last() =~= orig.take(s as int));
            }
            s = s + 1;
        }
        proof {
            assert(orig.take(n as int) =~= orig);
            assert(rev.adj_view().len() == n);
            assert forall|u: int, w: int| 0 <= u < n && 0 <= w < n implies #[trigger] edge_mult(
                rev.adj_view(),
                w,
                u,
            ) == edge_mult(orig, u, w) by {}
        }
        rev
    }
}

proof fn lemma_total_edges_prefix(adj: Seq<Seq<usize>>, k: int)
    requires
        0 <= k <= adj.len(),
    ensures
        total_edges(adj.take(k)) <= total_edges(adj),
    decreases adj.len(),
{
    if k == adj.len() {
        assert(adj.take(k) =~= adj);
    } else {
        assert(adj.drop_last().take(k) =~= adj.take(k));
        lemma_total_edges_prefix(adj.drop_last(), k);
    }
}

proof fn lemma_total_edges_append_empty(adj: Seq<Seq<usize>>, tail: Seq<Seq<usize>>)
    requires
        forall|k: int| 0 <= k < tail.len() ==> tail[k].len() == 0,
    ensures
        total_edges(adj + tail) == total_edges(adj),
    decreases tail.len(),
{
    if tail.len() > 0 {
        assert((adj + tail).drop_last() =~= adj + tail.drop_last());
        lemma_total_edges_append_empty(adj, tail.drop_last());
    } else {
        assert(adj + tail =~= adj);
    }
}

/// Replacing one list changes the edge total by the difference in length.
proof fn lemma_total_edges_update(adj: Seq<Seq<usize>>, i: int, l: Seq<usize>)
    requires
        0 <= i < adj.len(),
    ensures
        total_edges(adj.update(i, l)) == total_edges(adj) - adj[i].len() + l.len(),
    decreases adj.len(),
{
    if i == adj.len() - 1 {
        assert(adj.update(i, l).drop_last() =~= adj.drop_last());
    } else {
        assert(adj.update(i, l).drop_last() =~= adj.drop_last().update(i, l));
        lemma_total_edges_update(adj.drop_last(), i, l);
    }
}

proof fn lemma_total_edges_empty(adj: Seq<Seq<usize>>)
    requires
        forall|k: int| 0 <= k < adj.len() ==> adj[k].len() == 0,
    ensures
        total_edges(adj) == 0,
    decreases adj.len(),
{
    if adj.len() > 0 {
        lemma_total_edges_empty(adj.drop_last());
    }
}

/// One line per vertex `0 .. k`.
pub open spec fn dot_vertices(k: nat) -> Seq<char>
    decreases k,
{
    if k == 0 {
        Seq::empty()
    } else {
        dot_vertices((k - 1) as nat) + "  "@ + decimal((k - 1) as nat) + ";\n"@
    }
}

/// One line per edge out of `v` to the vertices of `l`.
pub open spec fn dot_arcs_from(v: nat, l: Seq<usize>) -> Seq<char>
    decreases l.len(),
{
    if l.len() == 0 {
        Seq::empty()
    } else {
        dot_arcs_from(v, l.drop_last()) + "  "@ + decimal(v) + " -> "@ + decimal(l.last() as nat) + ";\n"@
    }
}

/// One line per edge, list by list.
pub open spec fn dot_arcs(adj: Seq<Seq<usize>>) -> Seq<char>
    decreases adj.len(),
{
    if adj.len() == 0 {
        Seq::empty()
    } else {
        dot_arcs(adj.drop_last()) + dot_arcs_from((adj.len() - 1) as nat, adj.last())
    }
}

/// The graph in the DOT language of Graphviz.
pub open spec fn digraph_dot(adj: Seq<Seq<usize>>) -> Seq<char> {
    "digraph G {\n"@ + dot_vertices(adj.len()) + dot_arcs(adj) + "}\n"@
}

impl Digraph {
    /// The graph in the DOT language of Graphviz.
    pub fn to_dot(&self) -> (r: String)
        requires
            self.wf(),
        ensures
            r@ == digraph_dot(self.adj_view()),
    {
        let ghost adj = self.adj_view();
        let mut dot = String::new();
        proof {
            reveal_strlit("digraph G {\n");
            reveal_strlit("  ");
            reveal_strlit(";\n");
            reveal_strlit(" -> ");
            reveal_strlit("}\n");
        }
        dot.append("digraph G {\n");
        let mut i: usize = 0;
        while i < self.v
            invariant
                i <= self.v,
                dot@ == "digraph G {\n"@ + dot_vertices(i as nat),
            decreases self.v - i,
        {
            dot.append("  ");
            push_decimal(&mut dot, i as u64);
            dot.append(";\n");
            i = i + 1;
            assert(dot@ =~= "digraph G {\n"@ + dot_vertices(i as nat));
        }
        let ghost head = dot@;
        let mut v: usize = 0;
        while v < self.adj.len()
            invariant
                self.wf(),
                adj == self.adj_view(),
                v <= adj.len(),
                dot@ == head + dot_arcs(adj.take(v as int)),
            decreases adj.len() - v,
        {
            let l = &self.adj[v];
            let ghost d0 = dot@;
            let mut j: usize = 0;
            while j < l.len()
                invariant
                    v < adj.len(),
                    l@ == adj[v as int],
                    j <= l@.len(),
                    dot@ == d0 + dot_arcs_from(v as nat, l@.take(j as int)),
                decreases l@.len() - j,
            {
                dot.append("  ");
                push_decimal(&mut dot, v as u64);
                dot.append(" -> ");
                push_decimal(&mut dot, l[j] as u64);
                dot.append(";\n");
                proof {
                    assert(l@.take(j + 1).drop_last() =~= l@.take(j as int));
                }
                j = j + 1;
                assert(dot@ =~= d0 + dot_arcs_from(v as nat, l@.take(j as int)));
            }
            proof {
                assert(l@.take(j as int) =~= l@);
                assert(adj.take(v + 1).drop_last() =~= adj.take(v as int));
            }
            v = v + 1;
            assert(dot@ =~= head + dot_arcs(adj.take(v as int)));
        }
        dot.append("}\n");
        proof {
            assert(adj.take(v as int) =~= adj);
            assert(dot@ =~= digraph_dot(adj));
        }
        dot
    }

    /// Half the number of edges from a vertex to itself.
    pub fn number_of_self_loops(&self) -> (r: usize)
        requires
            self.wf(),
        ensures
            r == self_loops(self.adj_view()) / 2,
    {
        let ghost adj = self.adj_view();
        let mut count: usize = 0;
        let mut v: usize = 0;
        while v < self.v
            invariant
                self.wf(),
                adj == self.adj_view(),
                v <= self.v,
                count == self_loops(adj.take(v as int)),
                count <= total_edges(adj.take(v as int)),
            decreases self.v - v,
        {
            let l = self.adj(v);
            let ghost c0 = count;
            let mut j: usize = 0;
            proof {
                assert(adj.take(v + 1).drop_last() =~= adj.take(v as int));
                lemma_total_edges_prefix(adj, v + 1);
            }
            while j < l.len()
                invariant
                    self.wf(),
                    adj == self.adj_view(),
                    v < adj.len(),
                    l@ == adj[v as int],
                    j <= l@.len(),
                    count == c0 + l@.take(j as int).to_multiset().count(v),
                    count <= c0 + j,
                    c0 + l@.len() <= total_edges(adj),
                decreases l@.len() - j,
            {
                proof {
                    assert(l@.take(j + 1) =~= l@.take(j as int).push(l@[j as int]));
                }
                if l[j] == v {
                    count = count + 1;
                }
                j = j + 1;
            }
            proof {
                assert(l@.take(j as int) =~= l@);
            }
            v = v + 1;
        }
        proof {
            assert(adj.take(v as int) =~= adj);
        }
        count / 2
    }
}

/// Number of edges from a vertex to itself.
pub open spec fn self_loops(adj: Seq<Seq<usize>>) -> nat
    decreases adj.len(),
{
    if adj.len() == 0 {
        0
    } else {
        self_loops(adj.drop_last()) + edge_mult(adj, adj.len() - 1, adj.len() - 1)
    }
}

} // verus!
