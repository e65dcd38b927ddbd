use vstd::prelude::*;
use crate::digraph::Digraph;

verus! {

/// `p` is a walk in the graph: vertices joined by edges.
pub open spec fn is_path(adj: Seq<Seq<usize>>, p: Seq<usize>) -> bool {
    &&& p.len() >= 1
    &&& forall|i: int| 0 <= i < p.len() ==> #[trigger] p[i] < adj.len()
    &&& forall|i: int| 0 <= i < p.len() - 1 ==> adj[p[i] as int].contains(#[trigger] p[i + 1])
}

/// A walk leads from `u` to `v`.
pub open spec fn reaches(adj: Seq<Seq<usize>>, u: usize, v: usize) -> bool {
    exists|p: Seq<usize>| #[trigger] is_path(adj, p) && p[0] == u && p.last() == v
}

/// Some source reaches `v`.
pub open spec fn reachable(adj: Seq<Seq<usize>>, srcs: Seq<usize>, v: usize) -> bool {
    exists|i: int| 0 <= i < srcs.len() && #[trigger] reaches(adj, srcs[i], v)
}

/// Neighbours are vertices.
pub open spec fn graph_ok(adj: Seq<Seq<usize>>) -> bool {
    forall|u: int, j: int| 0 <= u < adj.len() && 0 <= j < adj[u].len() ==> #[trigger] adj[u][j] < adj.len()
}

pub proof fn lemma_reaches_self(adj: Seq<Seq<usize>>, u: usize)
    requires
        u < adj.len(),
    ensures
        reaches(adj, u, u),
{
    let p = seq![u];
    assert(is_path(adj, p));
}

/// A walk extended by one edge.
pub proof fn lemma_reaches_step(adj: Seq<Seq<usize>>, u: usize, v: usize, w: usize)
    requires
        reaches(adj, u, v),
        v < adj.len(),
        w < adj.len(),
        adj[v as int].contains(w),
    ensures
        reaches(adj, u, w),
{
    let p = choose|p: Seq<usize>| #[trigger] is_path(adj, p) && p[0] == u && p.last() == v;
    let q = p.push(w);
    assert forall|i: int| 0 <= i < q.len() - 1 implies adj[q[i] as int].contains(#[trigger] q[i + 1]) by {
        if i < p.len() - 1 {
            assert(q[i] == p[i] && q[i + 1] == p[i + 1]);
        }
    }
    assert(is_path(adj, q));
}

/// Two walks joined end to end.
pub proof fn lemma_reaches_trans(adj: Seq<Seq<usize>>, u: usize, v: usize, w: usize)
    requires
        reaches(adj, u, v),
        reaches(adj, v, w),
    ensures
        reaches(adj, u, w),
{
    let p = choose|p: Seq<usize>| #[trigger] is_path(adj, p) && p[0] == u && p.last() == v;
    let q = choose|q: Seq<usize>| #[trigger] is_path(adj, q) && q[0] == v && q.last() == w;
    let r = p + q.drop_first();
    assert forall|i: int| 0 <= i < r.len() implies #[trigger] r[i] < adj.len() by {
        if i >= p.len() {
            assert(r[i] == q[i - p.len() + 1]);
        }
    }
    assert forall|i: int| 0 <= i < r.len() - 1 implies adj[r[i] as int].contains(#[trigger] r[i + 1]) by {
        if i < p.len() - 1 {
            assert(r[i] == p[i] && r[i + 1] == p[i + 1]);
        } else if i == p.len() - 1 {
            assert(r[i] == q[0] && r[i + 1] == q[1]);
        } else {
            assert(r[i] == q[i - p.len() + 1] && r[i + 1] == q[i - p.len() + 2]);
        }
    }
    assert(is_path(adj, r));
    if q.len() == 1 {
        assert(r =~= p);
    } else {
        assert(r.last() == q.last());
    }
}

/// Where a search starts.
pub enum SearchSource {
    Single(usize),
    Multi(Vec<usize>),
}

impl SearchSource {
    pub open spec fn sources(&self) -> Seq<usize> {
        match self {
            SearchSource::Single(i) => seq![*i],
            SearchSource::Multi(vs) => vs@,
        }
    }

    /// The sources in order.
    fn iter(&self) -> (r: Vec<usize>)
        ensures
            r@ == self.sources(),
    {
        match self {
            SearchSource::Single(i) => {
                let mut r: Vec<usize> = Vec::new();
                r.push(*i);
                assert(r@ =~= seq![*i]);
                r
            },
            SearchSource::Multi(vs) => vs.clone(),
        }
    }

    fn contains(&self, v: usize) -> (r: bool)
        ensures
            r == self.sources().contains(v),
    {
        match self {
            SearchSource::Single(i) => {
                assert(seq![*i][0] == *i);
                *i == v
            },
            SearchSource::Multi(vs) => {
                let mut k: usize = 0;
                while k < vs.len()
                    invariant
                        k <= vs@.len(),
                        self.sources() == vs@,
                        forall|j: int| 0 <= j < k ==> vs@[j] != v,
                    decreases vs@.len() - k,
                {
                    if vs[k] == v {
                        assert(vs@[k as int] == v);

                        return true;
                    }
                    k = k + 1;
                }
                false
            },
        }
    }
}

} // verus!

verus! {

/// Every vertex on a walk from a marked set that is closed under edges is
/// marked.
pub proof fn lemma_closed_covers_reachable(adj: Seq<Seq<usize>>, srcs: Seq<usize>, marked: Seq<bool>, v: usize)
    requires
        marked.len() == adj.len(),
        forall|i: int| 0 <= i < srcs.len() ==> srcs[i] < adj.len() && marked[#[trigger] srcs[i] as int],
        forall|u: int, j: int|
            0 <= u < adj.len() && marked[u] && 0 <= j < adj[u].len() ==> marked[#[trigger] adj[u][j] as int],
        reachable(adj, srcs, v),
    ensures
        marked[v as int],
{
    let i = choose|i: int| 0 <= i < srcs.len() && #[trigger] reaches(adj, srcs[i], v);
    let p = choose|p: Seq<usize>| #[trigger] is_path(adj, p) && p[0] == srcs[i] && p.last() == v;
    lemma_closed_covers_prefix(adj, p, marked, p.len() - 1);
}

proof fn lemma_closed_covers_prefix(adj: Seq<Seq<usize>>, p: Seq<usize>, marked: Seq<bool>, k: int)
    requires
        is_path(adj, p),
        0 <= k < p.len(),
        marked.len() == adj.len(),
        marked[p[0] as int],
        forall|u: int, j: int|
            0 <= u < adj.len() && marked[u] && 0 <= j < adj[u].len() ==> marked[#[trigger] adj[u][j] as int],
    ensures
        marked[p[k] as int],
    decreases k,
{
    if k > 0 {
        lemma_closed_covers_prefix(adj, p, marked, k - 1);
        let i = k - 1;
        assert(adj[p[i] as int].contains(p[i + 1]));
        let j = choose|j: int| 0 <= j < adj[p[k - 1] as int].len() && #[trigger] adj[p[k - 1] as int][j] == p[k];
        assert(marked[adj[p[k - 1] as int][j] as int]);
    }
}

/// Paths found from a set of sources by a graph search.
pub struct SearchPaths {
    marked: Vec<bool>,
    edge_to: Vec<Option<usize>>,
    source: SearchSource,
    graph: Ghost<Seq<Seq<usize>>>,
    /// when each marked vertex was reached; a parent is reached first
    order: Ghost<Seq<nat>>,
}

impl SearchPaths {
    /// The graph searched.
    pub closed spec fn graph(&self) -> Seq<Seq<usize>> {
        self.graph@
    }

    /// The sources of the search.
    pub closed spec fn sources(&self) -> Seq<usize> {
        self.source.sources()
    }

    /// A bound on the number of edges of the path that `path_to` gives for
    /// `v`; after a breadth-first search, the level of `v`.
    pub closed spec fn depth(&self, v: usize) -> nat {
        self.order@[v as int]
    }

    /// What holds at every step of a search: marked vertices are reachable,
    /// and each marked vertex but a source has a marked parent reached
    /// before it along an edge.
    spec fn tree_ok(&self) -> bool {
        let n = self.graph@.len();
        let adj = self.graph@;
        let srcs = self.source.sources();
        &&& self.marked@.len() == n
        &&& self.edge_to@.len() == n
        &&& self.order@.len() == n
        &&& graph_ok(adj)
        &&& forall|i: int| 0 <= i < srcs.len() ==> #[trigger] srcs[i] < n && self.marked@[srcs[i] as int]
        &&& forall|x: int| 0 <= x < n && #[trigger] self.marked@[x] ==> reachable(adj, srcs, x as usize)
        &&& forall|x: int|
            0 <= x < n && self.marked@[x] && !srcs.contains(x as usize) ==> (#[trigger] self.edge_to@[x] matches Some(
                p,
            ) && p < n && self.marked@[p as int] && adj[p as int].contains(x as usize) && self.order@[p as int]
                < self.order@[x])
    }

    /// The search is complete: the marked vertices are exactly those some
    /// source reaches.
    pub closed spec fn wf(&self) -> bool {
        &&& self.tree_ok()
        &&& forall|x: int| 0 <= x < self.graph@.len() ==> (#[trigger] self.marked@[x] <==> reachable(self.graph@, self.source.sources(), x as usize))
    }

    /// Marks the sources and nothing else.
    fn new(graph: &Digraph, source: SearchSource) -> (r: SearchPaths)
        requires
            graph.wf(),
            forall|i: int| 0 <= i < source.sources().len() ==> #[trigger] source.sources()[i] < graph.vertex_count(),
        ensures
            r.tree_ok(),
            r.graph() == graph.adj_view(),
            r.sources() == source.sources(),
            forall|x: int| 0 <= x < graph.vertex_count() ==> (#[trigger] r.marked@[x] <==> source.sources().contains(x as usize)),
            forall|x: int| 0 <= x < graph.vertex_count() ==> #[trigger] r.order@[x] == 0,
    {
        proof {
            graph.lemma_neighbors();
        }
        let n = graph.v();
        let mut marked: Vec<bool> = Vec::new();
        let mut edge_to: Vec<Option<usize>> = Vec::new();
        let mut i: usize = 0;
        while i < n
            invariant
                i <= n,
                marked@.len() == i,
                edge_to@.len() == i,
                forall|k: int| 0 <= k < i ==> !#[trigger] marked@[k],
            decreases n - i,
        {
            marked.push(false);
            edge_to.push(None);
            i = i + 1;
        }
        let srcs = source.iter();
        let ghost adj = graph.adj_view();
        let mut k: usize = 0;
        while k < srcs.len()
            invariant
                n == adj.len(),
                srcs@ == source.sources(),
                forall|i: int| 0 <= i < srcs@.len() ==> #[trigger] srcs@[i] < n,
                k <= srcs@.len(),
                marked@.len() == n,
                forall|x: int| 0 <= x < n ==> (#[trigger] marked@[x] <==> srcs@.take(k as int).contains(x as usize)),
            decreases srcs@.len() - k,
        {
            let s = srcs[k];
            marked.set(s, true);
            proof {
                assert forall|x: int| 0 <= x < n implies (#[trigger] marked@[x] <==> srcs@.take(k + 1).contains(x as usize)) by {
                    assert(srcs@.take(k + 1) =~= srcs@.take(k as int).push(s));
                    if srcs@.take(k as int).contains(x as usize) {
                        let j = choose|j: int| 0 <= j < k && #[trigger] srcs@.take(k as int)[j] == x as usize;
                        assert(srcs@.take(k + 1)[j] == x as usize);
                    }
                    if x == s {
                        assert(srcs@.take(k + 1)[k as int] == s);
                    }
                }
            }
            k = k + 1;
        }
        assert(srcs@.take(k as int) =~= srcs@);
        let r = SearchPaths {
            marked,
            edge_to,
            source,
            graph: Ghost(adj),
            order: Ghost(Seq::new(n as nat, |x: int| 0nat)),
        };
        proof {
            let ss = source.sources();
            assert forall|i: int| 0 <= i < ss.len() implies #[trigger] ss[i] < n && r.marked@[ss[i] as int] by {
                assert(ss.contains(ss[i]));
            }
            assert forall|x: int| 0 <= x < n && #[trigger] r.marked@[x] implies reachable(adj, ss, x as usize) by {
                let j = choose|j: int| 0 <= j < ss.len() && #[trigger] ss[j] == x as usize;
                lemma_reaches_self(adj, x as usize);
                assert(reaches(adj, ss[j], x as usize));
            }
        }
        r
    }

    /// Whether some source reaches `v`.
    pub fn has_path_to(&self, v: usize) -> (r: bool)
        requires
            self.wf(),
            v < self.graph().len(),
        ensures
            r == reachable(self.graph(), self.sources(), v),
    {
        self.marked[v]
    }
}

/// `y` waits on the stack of a search.
pub open spec fn on_stack(st: Seq<(usize, usize)>, y: usize) -> bool {
    exists|k: int| 0 <= k < st.len() && (#[trigger] st[k]).0 == y
}

/// Pushes `(w, v)` for each neighbour `w` of `v`, in list order.
fn push_neighbors(stack: &mut Vec<(usize, usize)>, graph: &Digraph, v: usize)
    requires
        graph.wf(),
        v < graph.vertex_count(),
    ensures
        final(stack)@.len() == old(stack)@.len() + graph.adj_view()[v as int].len(),
        forall|k: int| 0 <= k < old(stack)@.len() ==> #[trigger] final(stack)@[k] == old(stack)@[k],
        forall|j: int|
            0 <= j < graph.adj_view()[v as int].len() ==> #[trigger] final(stack)@[old(stack)@.len() + j]
                == (graph.adj_view()[v as int][j], v),
{
    let out = graph.adj(v);
    let mut j: usize = 0;
    while j < out.len()
        invariant
            j <= out@.len(),
            out@ == graph.adj_view()[v as int],
            stack@.len() == old(stack)@.len() + j,
            forall|k: int| 0 <= k < old(stack)@.len() ==> #[trigger] stack@[k] == old(stack)@[k],
            forall|i: int| 0 <= i < j ==> #[trigger] stack@[old(stack)@.len() + i] == (out@[i], v),
        decreases out@.len() - j,
    {
        stack.push((out[j], v));
        j = j + 1;
    }
}

impl SearchPaths {
    /// Stack invariant of the depth-first search: entries hold a vertex and
    /// a marked parent with an edge to it, and every edge out of an
    /// expanded marked vertex leads to a marked vertex or to the stack.
    spec fn dfs_ok(&self, st: Seq<(usize, usize)>, expanded: Seq<usize>, time: nat) -> bool {
        let n = self.graph@.len();
        let adj = self.graph@;
        let srcs = self.source.sources();
        &&& self.tree_ok()
        &&& forall|x: int| 0 <= x < n && self.marked@[x] ==> #[trigger] self.order@[x] < time
        &&& forall|k: int|
            0 <= k < st.len() ==> (#[trigger] st[k]).0 < n && st[k].1 < n && self.marked@[st[k].1 as int]
                && adj[st[k].1 as int].contains(st[k].0)
        &&& forall|u: int, j: int|
            0 <= u < n && self.marked@[u] && (!srcs.contains(u as usize) || expanded.contains(u as usize)) && 0
                <= j < adj[u].len() ==> self.marked@[#[trigger] adj[u][j] as int] || on_stack(st, adj[u][j])
    }

    /// Depth-first search with an explicit stack, from each source in turn.
    #[verifier::rlimit(60)]
    fn dfs(&mut self, graph: &Digraph)
        requires
            graph.wf(),
            old(self).tree_ok(),
            old(self).graph() == graph.adj_view(),
            forall|x: int| 0 <= x < graph.vertex_count() ==> (#[trigger] old(self).marked@[x] <==> old(self).sources().contains(x as usize)),
            forall|x: int| 0 <= x < graph.vertex_count() ==> #[trigger] old(self).order@[x] == 0,
        ensures
            final(self).wf(),
            final(self).graph() == old(self).graph(),
            final(self).sources() == old(self).sources(),
    {
        let ghost adj = graph.adj_view();
        let ghost n = adj.len();
        proof {
            graph.lemma_neighbors();
        }
        let srcs = self.source.iter();
        let ghost time: nat = 1;
        let mut i: usize = 0;
        proof {
            assert(srcs@.take(0) =~= Seq::<usize>::empty());
        }
        while i < srcs.len()
            invariant
                graph.wf(),
                adj == graph.adj_view(),
                n == adj.len(),
                n == graph.vertex_count(),
                n <= usize::MAX,
                self.graph@ == adj,
                self.source == old(self).source,
                srcs@ == self.source.sources(),
                i <= srcs@.len(),
                self.dfs_ok(Seq::empty(), srcs@.take(i as int), time),
            decreases srcs@.len() - i,
        {
            let s = srcs[i];
            let mut stack: Vec<(usize, usize)> = Vec::new();
            push_neighbors(&mut stack, graph, s);
            proof {
                let st = stack@;
                assert(srcs@.take(i + 1) =~= srcs@.take(i as int).push(s));
                assert forall|k: int| 0 <= k < st.len() implies (#[trigger] st[k]).0 < n && st[k].1 < n && self.marked@[st[k].1 as int]
                    && adj[st[k].1 as int].contains(st[k].0) by {
                    assert(st[0 + k] == (adj[s as int][k], s));
                    assert(srcs@.contains(s));
                    assert(self.marked@[srcs@[i as int] as int]);
                }
                assert forall|u: int, j: int|
                    0 <= u < n && self.marked@[u] && (!srcs@.contains(u as usize) || srcs@.take(i + 1).contains(u as usize)) && 0
                        <= j < adj[u].len() implies self.marked@[#[trigger] adj[u][j] as int] || on_stack(st, adj[u][j]) by {
                    if u == s {
                        assert(st[0 + j] == (adj[s as int][j], s));
                    } else if srcs@.contains(u as usize) {
                        let m = choose|m: int| 0 <= m < i + 1 && #[trigger] srcs@.take(i + 1)[m] == u as usize;
                        assert(srcs@.take(i + 1)[i as int] == s);
                        assert((u as usize) as int == u);
                        assert(m != i);
                        assert(srcs@.take(i as int)[m] == u as usize);
                    }
                    assert(self.marked@[adj[u][j] as int] || on_stack(Seq::<(usize, usize)>::empty(), adj[u][j])
                        || adj[u][j] == adj[s as int][j]);
                }
            }
            while stack.len() > 0
                invariant
                    graph.wf(),
                    adj == graph.adj_view(),
                    n == adj.len(),
                    n == graph.vertex_count(),
                    n <= usize::MAX,
                    self.graph@ == adj,
                    self.source == old(self).source,
                    srcs@ == self.source.sources(),
                    i < srcs@.len(),
                    self.dfs_ok(stack@, srcs@.take(i + 1), time),
                decreases crate::unmarked_count(self.marked@), stack@.len(),
            {
                let ghost st0 = stack@;
                let top = stack.pop();
                let (w, p) = match top {
                    Some(t) => t,
                    None => (0, 0),
                };
                proof {
                    assert(st0.last() == (w, p));
                    assert(stack@ =~= st0.drop_last());
                }
                if !self.marked[w] {
                    proof {
                        crate::lemma_unmarked_count_mark(self.marked@, w as int);
                        assert(reachable(adj, srcs@, p));
                        let m = choose|m: int| 0 <= m < srcs@.len() && #[trigger] reaches(adj, srcs@[m], p);
                        lemma_reaches_step(adj, srcs@[m], p, w);
                        if srcs@.contains(w) {
                            let m2 = choose|m2: int| 0 <= m2 < srcs@.len() && srcs@[m2] == w;
                            assert(self.marked@[srcs@[m2] as int]);
                        }
                    }
                    self.marked.set(w, true);
                    self.edge_to.set(w, Some(p));
                    self.order = Ghost(self.order@.update(w as int, time));
                    proof {
                        time = time + 1;
                    }
                    let ghost st1 = stack@;
                    push_neighbors(&mut stack, graph, w);
                    proof {
                        let st = stack@;
                        let l1 = st1.len();
                        assert forall|k: int| 0 <= k < st.len() implies (#[trigger] st[k]).0 < n && st[k].1 < n && self.marked@[st[k].1 as int]
                            && adj[st[k].1 as int].contains(st[k].0) by {
                            if k >= l1 {
                                assert(st[l1 + (k - l1)] == (adj[w as int][k - l1], w));
                            } else {
                                assert(st[k] == st0[k]);
                            }
                        }
                        assert forall|u: int, j: int|
                            0 <= u < n && self.marked@[u] && (!srcs@.contains(u as usize) || srcs@.take(i + 1).contains(u as usize)) && 0
                                <= j < adj[u].len() implies self.marked@[#[trigger] adj[u][j] as int] || on_stack(st, adj[u][j]) by {
                            let y = adj[u][j];
                            if u == w {
                                assert(st[l1 + j] == (adj[w as int][j], w));
                            } else if !self.marked@[y as int] {
                                let k = choose|k: int| 0 <= k < st0.len() && (#[trigger] st0[k]).0 == y;
                                assert(st[k] == st0[k]);
                            }
                        }
                    }
                } else {
                    proof {
                        let st = stack@;
                        assert forall|u: int, j: int|
                            0 <= u < n && self.marked@[u] && (!srcs@.contains(u as usize) || srcs@.take(i + 1).contains(u as usize)) && 0
                                <= j < adj[u].len() implies self.marked@[#[trigger] adj[u][j] as int] || on_stack(st, adj[u][j]) by {
                            let y = adj[u][j];
                            if !self.marked@[y as int] {
                                let k = choose|k: int| 0 <= k < st0.len() && (#[trigger] st0[k]).0 == y;
                                assert(st[k] == st0[k]);
                            }
                        }
                    }
                }
            }
            proof {
                assert(stack@ =~= Seq::<(usize, usize)>::empty());
            }
            i = i + 1;
        }
        proof {
            assert(srcs@.take(i as int) =~= srcs@);
            let srcv = srcs@;
            assert forall|u: int, j: int|
                0 <= u < n && self.marked@[u] && 0 <= j < adj[u].len() implies self.marked@[#[trigger] adj[u][j] as int] by {
                assert(!on_stack(Seq::<(usize, usize)>::empty(), adj[u][j]));
            }
            assert forall|x: int| 0 <= x < n implies (#[trigger] self.marked@[x] <==> reachable(adj, srcv, x as usize)) by {
                if reachable(adj, srcv, x as usize) {
                    assert(self.marked@.len() == adj.len());
                    assert(forall|i: int| 0 <= i < srcv.len() ==> #[trigger] srcv[i] < adj.len() && self.marked@[srcv[i] as int]);
                    lemma_closed_covers_reachable(adj, srcv, self.marked@, x as usize);
                }
                if self.marked@[x] {
                    assert(reachable(adj, self.source.sources(), x as usize));
                }
            }
        }
    }
}

impl SearchPaths {
    /// A walk from a source to `v` along the search tree, or `None` when no
    /// source reaches `v`.
    pub fn path_to(&self, v: usize) -> (r: Option<Vec<usize>>)
        requires
            self.wf(),
            v < self.graph().len(),
        ensures
            r is Some <==> reachable(self.graph(), self.sources(), v),
            r matches Some(p) ==> is_path(self.graph(), p@) && self.sources().contains(p@[0]) && p@.last() == v
                && p@.len() <= self.depth(v) + 1,
            self.sources().contains(v) ==> (r is Some && r->Some_0@ == seq![v]),
    {
        if !self.has_path_to(v) {
            return None;
        }
        let ghost adj = self.graph@;
        let ghost n = adj.len();
        let mut back: Vec<usize> = Vec::new();
        let mut x = v;
        while !self.source.contains(x)
            invariant
                self.wf(),
                adj == self.graph@,
                n == adj.len(),
                x < n,
                self.marked@[x as int],
                back@.push(x)[0] == v,
                self.source.sources().contains(v) ==> back@.len() == 0 && x == v,
                back@.len() + self.order@[x as int] <= self.order@[v as int],
                forall|i: int| 0 <= i < back@.len() ==> #[trigger] back@[i] < n,
                forall|i: int|
                    0 <= i < back@.len() ==> adj[back@.push(x)[i + 1] as int].contains(#[trigger] back@.push(x)[i]),
            decreases self.order@[x as int],
        {
            let ghost b0 = back@;
            let ghost x0 = x;
            back.push(x);
            x = match self.edge_to[x] {
                Some(p) => p,
                None => x,
            };
            proof {
                assert forall|i: int| 0 <= i < back@.len() implies adj[back@.push(x)[i + 1] as int].contains(#[trigger] back@.push(x)[i]) by {
                    if i < b0.len() {
                        assert(back@.push(x)[i] == b0.push(x0)[i]);
                        assert(back@.push(x)[i + 1] == b0.push(x0)[i + 1]);
                    }
                }
            }
        }
        back.push(x);
        let ghost b = back@;
        let mut path: Vec<usize> = Vec::new();
        let mut k: usize = back.len();
        while k > 0
            invariant
                k <= b.len(),
                back@ == b,
                path@.len() == b.len() - k,
                forall|i: int| 0 <= i < path@.len() ==> #[trigger] path@[i] == b[b.len() - 1 - i],
            decreases k,
        {
            k = k - 1;
            path.push(back[k]);
        }
        proof {
            let p = path@;
            let l = b.len();
            assert forall|i: int| 0 <= i < p.len() implies #[trigger] p[i] < adj.len() by {
                assert(p[i] == b[l - 1 - i]);
                if l - 1 - i < l - 1 {
                } else {
                    assert(b[l - 1 - i] == x);
                }
            }
            assert forall|i: int| 0 <= i < p.len() - 1 implies adj[p[i] as int].contains(#[trigger] p[i + 1]) by {
                let j = l - 2 - i;
                assert(p[i] == b[j + 1]);
                assert(p[i + 1] == b[j]);
            }
            assert(p[0] == x);
            assert(p.last() == b[0]);
            if self.source.sources().contains(v) {
                assert(p =~= seq![v]);
            }
        }
        Some(path)
    }

    /// Queue invariant of the breadth-first search, where `order` holds
    /// levels: queued vertices are marked, their levels lie in
    /// `base ..= base + 1` and never fall along the queue, no marked vertex
    /// is above `base + 1`, and every edge out of a marked vertex leads to a
    /// marked vertex at most one level deeper unless its tail is still
    /// queued or being scanned.
    spec fn bfs_ok(&self, q: Seq<usize>, base: nat, cur: int, done: int) -> bool {
        let n = self.graph@.len();
        let adj = self.graph@;
        let lvl = self.order@;
        let srcs = self.source.sources();
        &&& self.tree_ok()
        &&& forall|i: int| 0 <= i < srcs.len() ==> lvl[#[trigger] srcs[i] as int] == 0
        &&& forall|x: int| 0 <= x < n && self.marked@[x] ==> #[trigger] lvl[x] <= base + 1
        &&& forall|k: int| 0 <= k < q.len() ==> #[trigger] q[k] < n && self.marked@[q[k] as int]
        &&& forall|k: int| 0 <= k < q.len() ==> base <= #[trigger] lvl[q[k] as int] <= base + 1
        &&& forall|k1: int, k2: int| 0 <= k1 < k2 < q.len() ==> lvl[q[k1] as int] <= lvl[q[k2] as int]
        &&& forall|u: int, j: int|
            0 <= u < n && self.marked@[u] && 0 <= j < adj[u].len() ==> (self.marked@[#[trigger] adj[u][j] as int]
                && lvl[adj[u][j] as int] <= lvl[u] + 1) || q.contains(u as usize) || (u == cur && j >= done)
    }

    /// Breadth-first search from all sources at once; `order` ends up
    /// holding each vertex's level.
    #[verifier::rlimit(80)]
    fn bfs(&mut self, graph: &Digraph)
        requires
            graph.wf(),
            old(self).tree_ok(),
            old(self).graph() == graph.adj_view(),
            forall|x: int| 0 <= x < graph.vertex_count() ==> (#[trigger] old(self).marked@[x] <==> old(self).sources().contains(x as usize)),
            forall|x: int| 0 <= x < graph.vertex_count() ==> #[trigger] old(self).order@[x] == 0,
        ensures
            final(self).wf(),
            final(self).graph() == old(self).graph(),
            final(self).sources() == old(self).sources(),
            forall|p: Seq<usize>|
                #[trigger] is_path(final(self).graph(), p) && final(self).sources().contains(p[0]) ==> final(self).depth(p.last()) < p.len(),
    {
        let ghost adj = graph.adj_view();
        let ghost n = adj.len();
        proof {
            graph.lemma_neighbors();
        }
        let srcs = self.source.iter();
        let ghost base: nat = 0;
        let mut q: std::collections::VecDeque<usize> = std::collections::VecDeque::new();
        let mut i: usize = 0;
        while i < srcs.len()
            invariant
                i <= srcs@.len(),
                srcs@ == self.source.sources(),
                q@ == srcs@.take(i as int),
            decreases srcs@.len() - i,
        {
            q.push_back(srcs[i]);
            i = i + 1;
            assert(q@ =~= srcs@.take(i as int));
        }
        proof {
            assert(srcs@.take(i as int) =~= srcs@);
            let ss = srcs@;
            assert forall|k: int| 0 <= k < ss.len() implies #[trigger] ss[k] < n && self.marked@[ss[k] as int] by {}
            assert forall|k: int| 0 <= k < ss.len() implies self.order@[#[trigger] ss[k] as int] == 0 by {}
        }
        while q.len() > 0
            invariant
                graph.wf(),
                adj == graph.adj_view(),
                n == adj.len(),
                n == graph.vertex_count(),
                n <= usize::MAX,
                self.graph@ == adj,
                self.source == old(self).source,
                srcs@ == self.source.sources(),
                self.bfs_ok(q@, base, -1, 0),
            decreases crate::unmarked_count(self.marked@) + q@.len(),
        {
            let ghost q0 = q@;
            let front = q.pop_front();
            let v = match front {
                Some(v) => v,
                None => 0,
            };
            proof {
                assert(q0[0] == v);
                assert forall|u: int, j: int|
                    0 <= u < n && self.marked@[u] && 0 <= j < adj[u].len() implies (self.marked@[#[trigger] adj[u][j] as int]
                        && self.order@[adj[u][j] as int] <= self.order@[u] + 1) || q@.contains(u as usize) || (u == v && j >= 0) by {
                    if q0.contains(u as usize) && u != v {
                        let k = choose|k: int| 0 <= k < q0.len() && q0[k] == u as usize;
                        assert(k != 0);
                        assert(q@[k - 1] == u as usize);
                    }
                }
                assert forall|k: int| 0 <= k < q@.len() implies self.order@[v as int] <= #[trigger] self.order@[q@[k] as int] <= self.order@[v as int] + 1 by {
                    assert(q@[k] == q0[k + 1]);
                    assert(self.order@[q0[0] as int] <= self.order@[q0[k + 1] as int]);
                }
                base = self.order@[v as int];
            }
            let ghost m0 = self.marked@;
            let out = graph.adj(v);
            let mut j: usize = 0;
            while j < out.len()
                invariant
                    graph.wf(),
                    adj == graph.adj_view(),
                    n == adj.len(),
                    n == graph.vertex_count(),
                    n <= usize::MAX,
                    self.graph@ == adj,
                    self.source == old(self).source,
                    srcs@ == self.source.sources(),
                    v < n,
                    self.marked@[v as int],
                    base == self.order@[v as int],
                    out@ == adj[v as int],
                    j <= out@.len(),
                    self.bfs_ok(q@, base, v as int, j as int),
                    crate::unmarked_count(self.marked@) + q@.len() + 1 == crate::unmarked_count(m0) + q0.len(),
                decreases out@.len() - j,
            {
                let w = out[j];
                proof {
                    assert(adj[v as int][j as int] == w);
                    assert(adj[v as int].contains(w));
                }
                if !self.marked[w] {
                    let ghost qb = q@;
                    let ghost ob = self.order@;
                    proof {
                        crate::lemma_unmarked_count_mark(self.marked@, w as int);
                        let m = choose|m: int| 0 <= m < srcs@.len() && #[trigger] reaches(adj, srcs@[m], v);
                        lemma_reaches_step(adj, srcs@[m], v, w);
                        if srcs@.contains(w) {
                            let m2 = choose|m2: int| 0 <= m2 < srcs@.len() && srcs@[m2] == w;
                            assert(self.marked@[srcs@[m2] as int]);
                        }
                    }
                    self.edge_to.set(w, Some(v));
                    q.push_back(w);
                    self.marked.set(w, true);
                    self.order = Ghost(self.order@.update(w as int, base + 1));
                    proof {
                        assert(q@.contains(w)) by {
                            assert(q@[q@.len() - 1] == w);
                        }
                        assert forall|k: int| 0 <= k < q@.len() implies #[trigger] q@[k] < n && self.marked@[q@[k] as int] by {
                            if k < qb.len() {
                                assert(q@[k] == qb[k]);
                            }
                        }
                        assert forall|k: int| 0 <= k < q@.len() implies base <= #[trigger] self.order@[q@[k] as int] <= base + 1 by {
                            if k < qb.len() {
                                assert(q@[k] == qb[k]);
                                assert(qb[k] != w);
                            }
                        }
                        assert forall|k1: int, k2: int| 0 <= k1 < k2 < q@.len() implies self.order@[q@[k1] as int] <= self.order@[q@[k2] as int] by {
                            assert(q@[k1] == qb[k1]);
                            assert(qb[k1] != w);
                            if k2 < qb.len() {
                                assert(q@[k2] == qb[k2]);
                                assert(qb[k2] != w);
                            }
                        }
                        let ss = srcs@;
                        assert forall|ii: int| 0 <= ii < ss.len() implies self.order@[#[trigger] ss[ii] as int] == 0 by {
                            assert(ss[ii] != w);
                        }
                        assert forall|u: int, jj: int|
                            0 <= u < n && self.marked@[u] && 0 <= jj < adj[u].len() implies (self.marked@[#[trigger] adj[u][jj] as int]
                                && self.order@[adj[u][jj] as int] <= self.order@[u] + 1) || q@.contains(u as usize) || (u == v && jj >= j + 1) by {
                            if u != w && qb.contains(u as usize) {
                                let k = choose|k: int| 0 <= k < qb.len() && qb[k] == u as usize;
                                assert(q@[k] == u as usize);
                            }
                            if u != w && adj[u][jj] != w {
                                assert(ob[adj[u][jj] as int] == self.order@[adj[u][jj] as int]);
                            }
                        }
                    }
                }
                j = j + 1;
            }
        }
        proof {
            let srcv = srcs@;
            assert forall|u: int, j: int|
                0 <= u < n && self.marked@[u] && 0 <= j < adj[u].len() implies self.marked@[#[trigger] adj[u][j] as int]
                    && self.order@[adj[u][j] as int] <= self.order@[u] + 1 by {
                assert(!q@.contains(u as usize));
            }
            assert forall|x: int| 0 <= x < n implies (#[trigger] self.marked@[x] <==> reachable(adj, srcv, x as usize)) by {
                if reachable(adj, srcv, x as usize) {
                    assert(forall|i: int| 0 <= i < srcv.len() ==> #[trigger] srcv[i] < adj.len() && self.marked@[srcv[i] as int]);
                    lemma_closed_covers_reachable(adj, srcv, self.marked@, x as usize);
                }
                if self.marked@[x] {
                    assert(reachable(adj, self.source.sources(), x as usize));
                }
            }
            assert forall|p: Seq<usize>| #[trigger] is_path(adj, p) && srcv.contains(p[0]) implies self.order@[p.last() as int] < p.len() by {
                let i0 = choose|i0: int| 0 <= i0 < srcv.len() && srcv[i0] == p[0];
                assert(self.order@[srcv[i0] as int] == 0);
                lemma_levels_along(adj, self.marked@, self.order@, p, p.len() - 1);
            }
        }
    }
}

/// Along a walk from a marked vertex of level 0, in a marked set closed
/// under edges whose levels rise by at most one per edge, the vertex at
/// step `k` has level at most `k`.
proof fn lemma_levels_along(adj: Seq<Seq<usize>>, marked: Seq<bool>, lvl: Seq<nat>, p: Seq<usize>, k: int)
    requires
        is_path(adj, p),
        0 <= k < p.len(),
        marked.len() == adj.len(),
        lvl.len() == adj.len(),
        marked[p[0] as int],
        lvl[p[0] as int] == 0,
        forall|u: int, j: int|
            0 <= u < adj.len() && marked[u] && 0 <= j < adj[u].len() ==> marked[#[trigger] adj[u][j] as int]
                && lvl[adj[u][j] as int] <= lvl[u] + 1,
    ensures
        marked[p[k] as int],
        lvl[p[k] as int] <= k,
    decreases k,
{
    if k > 0 {
        lemma_levels_along(adj, marked, lvl, p, k - 1);
        let i = k - 1;
        assert(adj[p[i] as int].contains(p[i + 1]));
        let j = choose|j: int| 0 <= j < adj[p[i] as int].len() && #[trigger] adj[p[i] as int][j] == p[i + 1];
        assert(marked[adj[p[i] as int][j] as int]);
    }
}

impl Digraph {
    /// Depth-first search from `s`.
    pub fn dfs(&self, s: usize) -> (r: SearchPaths)
        requires
            self.wf(),
            s < self.vertex_count(),
        ensures
            r.wf(),
            r.graph() == self.adj_view(),
            r.sources() == seq![s],
    {
        let mut path = SearchPaths::new(self, SearchSource::Single(s));
        path.dfs(self);
        path
    }

    /// Depth-first search from all of `s`.
    pub fn dfs_multi_source(&self, s: Vec<usize>) -> (r: SearchPaths)
        requires
            self.wf(),
            forall|i: int| 0 <= i < s@.len() ==> #[trigger] s@[i] < self.vertex_count(),
        ensures
            r.wf(),
            r.graph() == self.adj_view(),
            r.sources() == s@,
    {
        let mut path = SearchPaths::new(self, SearchSource::Multi(s));
        path.dfs(self);
        path
    }

    /// Breadth-first search from `s`: the paths it gives are shortest.
    pub fn bfs(&self, s: usize) -> (r: SearchPaths)
        requires
            self.wf(),
            s < self.vertex_count(),
        ensures
            r.wf(),
            r.graph() == self.adj_view(),
            r.sources() == seq![s],
            forall|p: Seq<usize>| #[trigger] is_path(r.graph(), p) && p[0] == s ==> r.depth(p.last()) < p.len(),
    {
        let mut path = SearchPaths::new(self, SearchSource::Single(s));
        path.bfs(self);
        proof {
            assert forall|p: Seq<usize>| #[trigger] is_path(path.graph(), p) && p[0] == s implies path.depth(p.last()) < p.len() by {
                assert(path.sources()[0] == s);
                assert(path.sources().contains(p[0]));
            }
        }
        path
    }
}

} // verus!
