use vstd::prelude::*;
use crate::digraph::Digraph;
use crate::{unmarked_count, lemma_unmarked_count_mark};
use crate::search::{is_path, reaches, graph_ok, lemma_reaches_self, lemma_reaches_step, lemma_reaches_trans};
use crate::digraph::{reverses, edge_mult, same_edges};

verus! {

broadcast use vstd::multiset::group_multiset_axioms, vstd::seq_lib::group_to_multiset_ensures;

/// `s` lists each vertex `0 .. n` exactly once.
pub open spec fn is_permutation(s: Seq<usize>, n: nat) -> bool {
    &&& s.no_duplicates()
    &&& forall|i: int| 0 <= i < s.len() ==> #[trigger] s[i] < n
    &&& forall|v: usize| v < n ==> s.contains(v)
}

enum QueuedJob {
    VisitVertex(usize),
    FinishVertex(usize),
}

/// `x` has a finish job on the stack.
spec fn has_finish(st: Seq<QueuedJob>, x: usize) -> bool {
    exists|k: int| 0 <= k < st.len() && #[trigger] st[k] == QueuedJob::FinishVertex(x)
}

/// `x` has a visit job on the stack.
spec fn on_visit(st: Seq<QueuedJob>, x: usize) -> bool {
    exists|k: int| 0 <= k < st.len() && #[trigger] st[k] == QueuedJob::VisitVertex(x)
}

/// The walk `p` avoids every vertex marked in `m`.
pub open spec fn avoids(p: Seq<usize>, m: Seq<bool>) -> bool {
    forall|i: int| 0 <= i < p.len() ==> !m[#[trigger] p[i] as int]
}

/// A walk leads from `v` to `x` through vertices unmarked in `m` only.
pub open spec fn reaches_unmarked(adj: Seq<Seq<usize>>, m: Seq<bool>, v: usize, x: usize) -> bool {
    exists|p: Seq<usize>| #[trigger] crate::search::is_path(adj, p) && p[0] == v && p.last() == x && avoids(p, m)
}

proof fn lemma_reaches_unmarked_self(adj: Seq<Seq<usize>>, m: Seq<bool>, v: usize)
    requires
        v < adj.len(),
        !m[v as int],
    ensures
        reaches_unmarked(adj, m, v, v),
{
    let p = seq![v];
    assert(crate::search::is_path(adj, p));
    assert(avoids(p, m));
}

proof fn lemma_reaches_unmarked_step(adj: Seq<Seq<usize>>, m: Seq<bool>, v: usize, x: usize, w: usize)
    requires
        reaches_unmarked(adj, m, v, x),
        x < adj.len(),
        w < adj.len(),
        adj[x as int].contains(w),
        !m[w as int],
    ensures
        reaches_unmarked(adj, m, v, w),
{
    let p = choose|p: Seq<usize>| #[trigger] crate::search::is_path(adj, p) && p[0] == v && p.last() == x && avoids(p, m);
    let q = p.push(w);
    assert forall|i: int| 0 <= i < q.len() - 1 implies adj[q[i] as int].contains(#[trigger] q[i + 1]) by {
        if i < p.len() - 1 {
            assert(q[i] == p[i] && q[i + 1] == p[i + 1]);
        }
    }
    assert forall|i: int| 0 <= i < q.len() implies !m[#[trigger] q[i] as int] by {
        if i < p.len() {
            assert(q[i] == p[i]);
        }
    }
    assert(crate::search::is_path(adj, q));
}

/// Every vertex of a walk avoiding `m0` from a marked vertex lies in a set
/// that is closed under the edges leaving its vertices outside `m0`.
proof fn lemma_walk_covered(adj: Seq<Seq<usize>>, m0: Seq<bool>, m: Seq<bool>, p: Seq<usize>, k: int)
    requires
        crate::search::is_path(adj, p),
        avoids(p, m0),
        0 <= k < p.len(),
        m.len() == adj.len(),
        m[p[0] as int],
        forall|u: int, j: int|
            0 <= u < adj.len() && m[u] && !m0[u] && 0 <= j < adj[u].len() ==> m[#[trigger] adj[u][j] as int],
    ensures
        m[p[k] as int],
    decreases k,
{
    if k > 0 {
        lemma_walk_covered(adj, m0, m, p, k - 1);
        let i = k - 1;
        assert(adj[p[i] as int].contains(p[i + 1]));
        assert(!m0[p[i] as int]);
        let j = choose|j: int| 0 <= j < adj[p[i] as int].len() && #[trigger] adj[p[i] as int][j] == p[i + 1];
        assert(m[adj[p[i] as int][j] as int]);
    }
}

/// In `post`, a vertex reaches the start of every walk that ends at it
/// and avoids the vertices after it: the finishing order of a depth-first
/// search.
pub open spec fn finish_ordered(adj: Seq<Seq<usize>>, post: Seq<usize>) -> bool {
    forall|i: int, p: Seq<usize>|
        #![trigger is_path(adj, p), post[i]]
        0 <= i < post.len() && is_path(adj, p) && p.last() == post[i] && (forall|k: int|
            0 <= k < p.len() ==> !post.subrange(i + 1, post.len() as int).contains(#[trigger] p[k])) ==> reaches(
            adj,
            post[i],
            p[0],
        )
}

/// In the order `r`, a vertex reaches the start of every walk that ends at
/// it and avoids the vertices before it: the reverse of a depth-first
/// finishing order, which is what the second pass of Kosaraju-Sharir
/// relies on.
pub open spec fn reverse_finish_ordered(adj: Seq<Seq<usize>>, r: Seq<usize>) -> bool {
    forall|i: int, p: Seq<usize>|
        #![trigger is_path(adj, p), r[i]]
        0 <= i < r.len() && is_path(adj, p) && p.last() == r[i] && (forall|k: int|
            0 <= k < p.len() ==> !r.take(i).contains(#[trigger] p[k])) ==> reaches(adj, r[i], p[0])
}

/// Preorder and postorder of a depth-first search of a whole digraph.
pub struct DepthFirstOrder {
    marked: Vec<bool>,
    /// vertices in preorder
    pub preorder: Vec<usize>,
    /// vertices in postorder
    pub postorder: Vec<usize>,
    /// when each vertex was marked
    dt: Ghost<Seq<nat>>,
    /// when each vertex was finished
    ft: Ghost<Seq<nat>>,
    clock: Ghost<nat>,
}

spec fn fin_job(j: QueuedJob) -> bool {
    j is FinishVertex
}

spec fn job_vertex(j: QueuedJob) -> usize {
    match j {
        QueuedJob::VisitVertex(x) => x,
        QueuedJob::FinishVertex(x) => x,
    }
}

/// A visit job for `b` lies above position `k` of the stack.
spec fn visit_above(st: Seq<QueuedJob>, k: int, b: usize) -> bool {
    exists|k2: int| k < k2 < st.len() && #[trigger] st[k2] == QueuedJob::VisitVertex(b)
}

impl DepthFirstOrder {
    spec fn order_ok(&self, adj: Seq<Seq<usize>>, st: Seq<QueuedJob>) -> bool {
        let n = adj.len();
        &&& graph_ok(adj)
        &&& self.marked@.len() == n
        &&& self.preorder@.no_duplicates()
        &&& self.postorder@.no_duplicates()
        &&& forall|x: usize| x < n ==> (#[trigger] self.marked@[x as int] <==> self.preorder@.contains(x))
        &&& forall|i: int| 0 <= i < self.preorder@.len() ==> #[trigger] self.preorder@[i] < n
        &&& forall|i: int| 0 <= i < self.postorder@.len() ==> #[trigger] self.postorder@[i] < n && self.marked@[self.postorder@[i] as int]
        &&& forall|x: usize| x < n && #[trigger] self.marked@[x as int] ==> self.postorder@.contains(x) || has_finish(st, x)
        &&& forall|k: int| 0 <= k < st.len() ==> match #[trigger] st[k] {
            QueuedJob::VisitVertex(x) => x < n,
            QueuedJob::FinishVertex(x) => x < n && self.marked@[x as int] && !self.postorder@.contains(x)
                && forall|k2: int| 0 <= k2 < st.len() && k2 != k ==> st[k2] != QueuedJob::FinishVertex(x),
        }
    }

    spec fn fin(&self, x: int) -> bool {
        self.postorder@.contains(x as usize)
    }

    /// The clock laws of the search: marking and finishing times, in
    /// `dt` and `ft`, come from one clock and the postorder follows `ft`.
    spec fn clock_ok(&self, adj: Seq<Seq<usize>>) -> bool {
        let n = adj.len();
        let dt = self.dt@;
        let ft = self.ft@;
        &&& dt.len() == n
        &&& ft.len() == n
        &&& forall|x: int| 0 <= x < n && #[trigger] self.marked@[x] ==> dt[x] < self.clock@
        &&& forall|x: int| 0 <= x < n && #[trigger] self.fin(x) ==> dt[x] < ft[x] < self.clock@
        &&& forall|i: int, j: int| 0 <= i < j < self.postorder@.len() ==> #[trigger] ft[self.postorder@[i] as int] < #[trigger] ft[self.postorder@[j] as int]
    }

    /// A vertex marked while `a` was open finished before `a`.
    spec fn nest_ok(&self, adj: Seq<Seq<usize>>) -> bool {
        let n = adj.len();
        let dt = self.dt@;
        let ft = self.ft@;
        forall|a: int, r: int|
            0 <= a < n && 0 <= r < n && #[trigger] self.fin(a) && #[trigger] self.marked@[r] && dt[a] < dt[r] && dt[r] < ft[a]
                ==> self.fin(r) && ft[r] < ft[a]
    }

    /// When `a` finished, the head `b` of each edge `a -> b` had finished
    /// already or was open and older than `a`.
    spec fn edge_ok(&self, adj: Seq<Seq<usize>>) -> bool {
        let n = adj.len();
        let dt = self.dt@;
        let ft = self.ft@;
        forall|a: int, j: int|
            0 <= a < n && self.fin(a) && 0 <= j < adj[a].len() ==> {
                let b = #[trigger] adj[a][j] as int;
                &&& self.marked@[b]
                &&& b == a || (self.fin(b) && ft[b] < ft[a]) || (dt[b] < dt[a] && (!self.fin(b) || ft[a] < ft[b]))
            }
    }

    /// A vertex marked while `r` was open is reached from `r`.
    spec fn reach_ok(&self, adj: Seq<Seq<usize>>) -> bool {
        let n = adj.len();
        let dt = self.dt@;
        let ft = self.ft@;
        forall|r: int, x: int|
            0 <= r < n && 0 <= x < n && #[trigger] self.marked@[r] && #[trigger] self.marked@[x] && dt[r] <= dt[x] && (
            !self.fin(r) || dt[x] < ft[r]) ==> reaches(adj, r as usize, x as usize)
    }

    /// The open vertices on the stack grow older downwards, reach every
    /// visit above them, and each edge out of one leads to a marked
    /// vertex or a visit above it (but those of `cur` from `done` on).
    spec fn stack_ok(&self, adj: Seq<Seq<usize>>, st: Seq<QueuedJob>, cur: int, done: int) -> bool {
        let dt = self.dt@;
        &&& forall|k1: int, k2: int|
            0 <= k1 < k2 < st.len() && fin_job(#[trigger] st[k1]) && fin_job(#[trigger] st[k2]) ==> dt[job_vertex(st[k1]) as int]
                < dt[job_vertex(st[k2]) as int]
        &&& forall|k1: int, k2: int|
            0 <= k1 < k2 < st.len() && fin_job(#[trigger] st[k1]) && !fin_job(#[trigger] st[k2]) ==> reaches(
                adj,
                job_vertex(st[k1]),
                job_vertex(st[k2]),
            )
        &&& forall|k: int, j: int|
            0 <= k < st.len() && fin_job(#[trigger] st[k]) && 0 <= j < adj[job_vertex(st[k]) as int].len() ==> {
                let b = #[trigger] adj[job_vertex(st[k]) as int][j];
                self.marked@[b as int] || visit_above(st, k, b) || (job_vertex(st[k]) == cur && j >= done)
            }
    }

    spec fn times_ok(&self, adj: Seq<Seq<usize>>, st: Seq<QueuedJob>, cur: int, done: int) -> bool {
        &&& self.clock_ok(adj)
        &&& self.nest_ok(adj)
        &&& self.edge_ok(adj)
        &&& self.reach_ok(adj)
        &&& self.stack_ok(adj, st, cur, done)
    }

    proof fn lemma_mark_step(
        &self,
        adj: Seq<Seq<usize>>,
        s0: DepthFirstOrder,
        st0: Seq<QueuedJob>,
        st: Seq<QueuedJob>,
        x: usize,
    )
        requires
            s0.order_ok(adj, st0),
            s0.times_ok(adj, st0, -1, 0),
            adj.len() <= usize::MAX,
            x < adj.len(),
            !s0.marked@[x as int],
            st0.len() >= 1,
            st0.last() == QueuedJob::VisitVertex(x),
            self.marked@ == s0.marked@.update(x as int, true),
            self.dt@ == s0.dt@.update(x as int, s0.clock@),
            self.ft@ == s0.ft@,
            self.clock@ == s0.clock@ + 1,
            self.postorder@ == s0.postorder@,
            st == st0.drop_last().push(QueuedJob::FinishVertex(x)),
        ensures
            self.times_ok(adj, st, x as int, 0),
    {
        let n = adj.len();
        let l = st0.len() - 1;
        let c = s0.clock@;
        assert forall|y: int| 0 <= y < n implies #[trigger] self.fin(y) == s0.fin(y) by {}
        assert(!s0.fin(x as int)) by {
            if s0.fin(x as int) {
                let i = choose|i: int| 0 <= i < s0.postorder@.len() && s0.postorder@[i] == x;
                assert(s0.marked@[s0.postorder@[i] as int]);
            }
        }
        assert(self.clock_ok(adj)) by {
            assert forall|y: int| 0 <= y < n && #[trigger] self.fin(y) implies self.dt@[y] < self.ft@[y] < self.clock@ by {
                assert(s0.fin(y));
                if y == x {
                }
            }
            assert forall|y: int| 0 <= y < n && #[trigger] self.marked@[y] implies self.dt@[y] < self.clock@ by {
                if y != x {
                    assert(s0.marked@[y]);
                }
            }
        }
        assert(self.nest_ok(adj)) by {
            assert forall|a: int, r: int|
                0 <= a < n && 0 <= r < n && #[trigger] self.fin(a) && #[trigger] self.marked@[r] && self.dt@[a] < self.dt@[r]
                    && self.dt@[r] < self.ft@[a] implies self.fin(r) && self.ft@[r] < self.ft@[a] by {
                assert(s0.fin(a));
                assert(a != x);
                if r != x {
                    assert(s0.marked@[r]);
                }
            }
        }
        assert(self.edge_ok(adj)) by {
            assert forall|a: int, j: int| 0 <= a < n && self.fin(a) && 0 <= j < adj[a].len() implies {
                let b = #[trigger] adj[a][j] as int;
                &&& self.marked@[b]
                &&& b == a || (self.fin(b) && self.ft@[b] < self.ft@[a]) || (self.dt@[b] < self.dt@[a] && (!self.fin(b)
                    || self.ft@[a] < self.ft@[b]))
            } by {
                assert(s0.fin(a));
                let b = adj[a][j] as int;
                assert(s0.marked@[b]);
                assert(b != x);
                assert(a != x);
            }
        }
        assert(self.reach_ok(adj)) by {
            assert forall|r: int, y: int|
                0 <= r < n && 0 <= y < n && #[trigger] self.marked@[r] && #[trigger] self.marked@[y] && self.dt@[r] <= self.dt@[y]
                    && (!self.fin(r) || self.dt@[y] < self.ft@[r]) implies reaches(adj, r as usize, y as usize) by {
                if r == x && y == x {
                    lemma_reaches_self(adj, x);
                } else if r == x {
                    assert(s0.marked@[y]);
                } else if y == x {
                    assert(s0.marked@[r]);
                    if s0.fin(r) {
                        assert(s0.ft@[r] < c);
                    } else {
                        assert(has_finish(st0, r as usize));
                        let k = choose|k: int| 0 <= k < st0.len() && #[trigger] st0[k] == QueuedJob::FinishVertex(r as usize);
                        assert(k != l);
                        assert(fin_job(st0[k]) && !fin_job(st0[l]));
                    }
                } else {
                    assert(s0.marked@[r] && s0.marked@[y]);
                }
            }
        }
        assert(self.stack_ok(adj, st, x as int, 0)) by {
            assert forall|k1: int, k2: int|
                0 <= k1 < k2 < st.len() && fin_job(#[trigger] st[k1]) && fin_job(#[trigger] st[k2]) implies self.dt@[job_vertex(st[k1]) as int]
                    < self.dt@[job_vertex(st[k2]) as int] by {
                assert(st[k1] == st0[k1]);
                let g = job_vertex(st0[k1]);
                assert(s0.marked@[g as int]);
                assert(g != x);
                if k2 < l {
                    assert(st[k2] == st0[k2]);
                    assert(job_vertex(st0[k2]) != x) by {
                        assert(s0.marked@[job_vertex(st0[k2]) as int]);
                    }
                }
            }
            assert forall|k1: int, k2: int|
                0 <= k1 < k2 < st.len() && fin_job(#[trigger] st[k1]) && !fin_job(#[trigger] st[k2]) implies reaches(
                    adj,
                    job_vertex(st[k1]),
                    job_vertex(st[k2]),
                ) by {
                assert(st[k1] == st0[k1]);
                assert(st[k2] == st0[k2]);
            }
            assert forall|k: int, j: int|
                0 <= k < st.len() && fin_job(#[trigger] st[k]) && 0 <= j < adj[job_vertex(st[k]) as int].len() implies {
                    let b = #[trigger] adj[job_vertex(st[k]) as int][j];
                    self.marked@[b as int] || visit_above(st, k, b) || (job_vertex(st[k]) == x && j >= 0)
                } by {
                if k < l {
                    assert(st[k] == st0[k]);
                    let b = adj[job_vertex(st[k]) as int][j];
                    if !s0.marked@[b as int] {
                        let k2 = choose|k2: int| k < k2 < st0.len() && #[trigger] st0[k2] == QueuedJob::VisitVertex(b);
                        if k2 == l {
                            assert(b == x);
                        } else {
                            assert(st[k2] == st0[k2]);
                        }
                    }
                }
            }
        }
    }

    proof fn lemma_push_visit(&self, adj: Seq<Seq<usize>>, sb: Seq<QueuedJob>, st: Seq<QueuedJob>, x: usize, kx: int, j: int)
        requires
            self.order_ok(adj, sb),
            self.times_ok(adj, sb, x as int, j),
            x < adj.len(),
            self.marked@[x as int],
            0 <= kx < sb.len(),
            sb[kx] == QueuedJob::FinishVertex(x),
            forall|k: int| kx < k < sb.len() ==> !fin_job(#[trigger] sb[k]),
            0 <= j < adj[x as int].len(),
            st == sb.push(QueuedJob::VisitVertex(adj[x as int][j])),
        ensures
            self.times_ok(adj, st, x as int, j + 1),
    {
        let n = adj.len();
        let w = adj[x as int][j];
        let big = sb.len() as int;
        assert(adj[x as int].contains(w));
        assert forall|k1: int, k2: int|
            0 <= k1 < k2 < st.len() && fin_job(#[trigger] st[k1]) && fin_job(#[trigger] st[k2]) implies self.dt@[job_vertex(st[k1]) as int]
                < self.dt@[job_vertex(st[k2]) as int] by {
            assert(st[k1] == sb[k1]);
            assert(st[k2] == sb[k2]);
        }
        assert forall|k1: int, k2: int|
            0 <= k1 < k2 < st.len() && fin_job(#[trigger] st[k1]) && !fin_job(#[trigger] st[k2]) implies reaches(
                adj,
                job_vertex(st[k1]),
                job_vertex(st[k2]),
            ) by {
            assert(st[k1] == sb[k1]);
            if k2 < big {
                assert(st[k2] == sb[k2]);
            } else {
                let g = job_vertex(sb[k1]);
                assert(k1 <= kx);
                if g == x {
                    lemma_reaches_self(adj, x);
                } else {
                    assert(k1 < kx);
                    assert(fin_job(sb[k1]) && fin_job(sb[kx]));
                    assert(self.dt@[g as int] < self.dt@[x as int]);
                    assert(sb[k1] == QueuedJob::FinishVertex(g));
                    assert(self.marked@[g as int] && !self.postorder@.contains(g));
                    assert(reaches(adj, g, x));
                }
                lemma_reaches_step(adj, g, x, w);
            }
        }
        assert forall|k: int, jj: int|
            0 <= k < st.len() && fin_job(#[trigger] st[k]) && 0 <= jj < adj[job_vertex(st[k]) as int].len() implies {
                let b = #[trigger] adj[job_vertex(st[k]) as int][jj];
                self.marked@[b as int] || visit_above(st, k, b) || (job_vertex(st[k]) == x && jj >= j + 1)
            } by {
            assert(st[k] == sb[k]);
            let b = adj[job_vertex(st[k]) as int][jj];
            if job_vertex(st[k]) == x && jj == j {
                assert(k <= kx) by {
                    if k > kx {
                        assert(!fin_job(sb[k]));
                    }
                }
                assert(st[big] == QueuedJob::VisitVertex(b));
            } else if !self.marked@[b as int] && !(job_vertex(st[k]) == x && jj >= j + 1) {
                let k2 = choose|k2: int| k < k2 < sb.len() && #[trigger] sb[k2] == QueuedJob::VisitVertex(b);
                assert(st[k2] == sb[k2]);
            }
        }
    }

    proof fn lemma_stack_done(&self, adj: Seq<Seq<usize>>, st: Seq<QueuedJob>, x: usize, j: int)
        requires
            self.times_ok(adj, st, x as int, j),
            x < adj.len(),
            j >= adj[x as int].len(),
        ensures
            self.times_ok(adj, st, -1, 0),
    {
        assert forall|k: int, jj: int|
            0 <= k < st.len() && fin_job(#[trigger] st[k]) && 0 <= jj < adj[job_vertex(st[k]) as int].len() implies {
                let b = #[trigger] adj[job_vertex(st[k]) as int][jj];
                self.marked@[b as int] || visit_above(st, k, b) || (job_vertex(st[k]) == -1 && jj >= 0)
            } by {
        }
    }

    proof fn lemma_pop_visit(&self, adj: Seq<Seq<usize>>, st0: Seq<QueuedJob>, st: Seq<QueuedJob>, x: usize)
        requires
            self.times_ok(adj, st0, -1, 0),
            st0.len() >= 1,
            st0.last() == QueuedJob::VisitVertex(x),
            x < adj.len(),
            self.marked@[x as int],
            st == st0.drop_last(),
        ensures
            self.times_ok(adj, st, -1, 0),
    {
        let l = st0.len() - 1;
        assert forall|k1: int, k2: int|
            0 <= k1 < k2 < st.len() && fin_job(#[trigger] st[k1]) && fin_job(#[trigger] st[k2]) implies self.dt@[job_vertex(st[k1]) as int]
                < self.dt@[job_vertex(st[k2]) as int] by {
            assert(st[k1] == st0[k1]);
            assert(st[k2] == st0[k2]);
        }
        assert forall|k1: int, k2: int|
            0 <= k1 < k2 < st.len() && fin_job(#[trigger] st[k1]) && !fin_job(#[trigger] st[k2]) implies reaches(
                adj,
                job_vertex(st[k1]),
                job_vertex(st[k2]),
            ) by {
            assert(st[k1] == st0[k1]);
            assert(st[k2] == st0[k2]);
        }
        assert forall|k: int, jj: int|
            0 <= k < st.len() && fin_job(#[trigger] st[k]) && 0 <= jj < adj[job_vertex(st[k]) as int].len() implies {
                let b = #[trigger] adj[job_vertex(st[k]) as int][jj];
                self.marked@[b as int] || visit_above(st, k, b) || (job_vertex(st[k]) == -1 && jj >= 0)
            } by {
            assert(st[k] == st0[k]);
            let b = adj[job_vertex(st[k]) as int][jj];
            if !self.marked@[b as int] {
                let k2 = choose|k2: int| k < k2 < st0.len() && #[trigger] st0[k2] == QueuedJob::VisitVertex(b);
                if k2 == l {
                    assert(b == x);
                } else {
                    assert(st[k2] == st0[k2]);
                }
            }
        }
    }

    proof fn lemma_finish_step(
        &self,
        adj: Seq<Seq<usize>>,
        s0: DepthFirstOrder,
        st0: Seq<QueuedJob>,
        st: Seq<QueuedJob>,
        x: usize,
    )
        requires
            s0.order_ok(adj, st0),
            s0.times_ok(adj, st0, -1, 0),
            adj.len() <= usize::MAX,
            x < adj.len(),
            st0.len() >= 1,
            st0.last() == QueuedJob::FinishVertex(x),
            self.marked@ == s0.marked@,
            self.dt@ == s0.dt@,
            self.ft@ == s0.ft@.update(x as int, s0.clock@),
            self.clock@ == s0.clock@ + 1,
            self.postorder@ == s0.postorder@.push(x),
            st == st0.drop_last(),
        ensures
            self.times_ok(adj, st, -1, 0),
    {
        let n = adj.len();
        let l = st0.len() - 1;
        let c = s0.clock@;
        assert(s0.marked@[x as int] && !s0.postorder@.contains(x)) by {
            assert(fin_job(st0[l]));
        }
        assert forall|y: int| 0 <= y < n implies #[trigger] self.fin(y) == (s0.fin(y) || y == x) by {
            if self.fin(y) && y != x {
                let i = choose|i: int| 0 <= i < self.postorder@.len() && self.postorder@[i] == y as usize;
                assert(s0.postorder@[i] == y as usize);
            }
            if s0.fin(y) {
                let i = choose|i: int| 0 <= i < s0.postorder@.len() && s0.postorder@[i] == y as usize;
                assert(self.postorder@[i] == y as usize);
            }
            if y == x {
                assert(self.postorder@[s0.postorder@.len() as int] == x);
            }
        }
        // an open vertex other than `x` is older than `x`
        assert forall|r: int| 0 <= r < n && s0.marked@[r] && !s0.fin(r) && r != x implies s0.dt@[r] < s0.dt@[x as int] by {
            assert(has_finish(st0, r as usize));
            let k = choose|k: int| 0 <= k < st0.len() && #[trigger] st0[k] == QueuedJob::FinishVertex(r as usize);
            assert(k != l);
            assert(fin_job(st0[k]) && fin_job(st0[l]));
        }
        assert(self.clock_ok(adj)) by {
            assert forall|y: int| 0 <= y < n && #[trigger] self.fin(y) implies self.dt@[y] < self.ft@[y] < self.clock@ by {
                if y != x {
                    assert(s0.fin(y));
                } else {
                    assert(s0.marked@[y]);
                }
            }
            assert forall|y: int| 0 <= y < n && #[trigger] self.marked@[y] implies self.dt@[y] < self.clock@ by {
                assert(s0.marked@[y]);
            }
            let post = self.postorder@;
            assert forall|i: int, j: int| 0 <= i < j < post.len() implies #[trigger] self.ft@[post[i] as int] < #[trigger] self.ft@[post[j] as int] by {
                let p0 = s0.postorder@;
                assert(p0.contains(p0[i]));
                if j < p0.len() {
                    assert(p0.contains(p0[j]));
                    assert(p0[j] != x);
                    assert(s0.ft@[p0[i] as int] < s0.ft@[p0[j] as int]);
                } else {
                    assert(s0.fin(p0[i] as int));
                }
                assert(p0[i] != x);
            }
        }
        assert(self.nest_ok(adj)) by {
            assert forall|a: int, r: int|
                0 <= a < n && 0 <= r < n && #[trigger] self.fin(a) && #[trigger] self.marked@[r] && self.dt@[a] < self.dt@[r]
                    && self.dt@[r] < self.ft@[a] implies self.fin(r) && self.ft@[r] < self.ft@[a] by {
                if a == x {
                    if s0.fin(r) {
                        assert(r != x);
                    } else {
                        assert(r != x);
                        assert(s0.dt@[r] < s0.dt@[x as int]);
                    }
                } else {
                    assert(s0.fin(a));
                    if r == x {
                        assert(s0.fin(x as int));
                    }
                }
            }
        }
        assert(self.edge_ok(adj)) by {
            assert forall|a: int, j: int| 0 <= a < n && self.fin(a) && 0 <= j < adj[a].len() implies {
                let b = #[trigger] adj[a][j] as int;
                &&& self.marked@[b]
                &&& b == a || (self.fin(b) && self.ft@[b] < self.ft@[a]) || (self.dt@[b] < self.dt@[a] && (!self.fin(b)
                    || self.ft@[a] < self.ft@[b]))
            } by {
                let b = adj[a][j] as int;
                if a == x {
                    assert(fin_job(st0[l]) && 0 <= j < adj[job_vertex(st0[l]) as int].len());
                    assert(!visit_above(st0, l, b as usize));
                    assert(s0.marked@[b]);
                    if b != x && !s0.fin(b) {
                        assert(s0.dt@[b] < s0.dt@[x as int]);
                    }
                    if b != x && s0.fin(b) {
                        assert(s0.ft@[b] < c);
                    }
                } else {
                    assert(s0.fin(a));
                    assert(s0.ft@[a] < c);
                }
            }
        }
        assert(self.reach_ok(adj)) by {
            assert forall|r: int, y: int|
                0 <= r < n && 0 <= y < n && #[trigger] self.marked@[r] && #[trigger] self.marked@[y] && self.dt@[r] <= self.dt@[y]
                    && (!self.fin(r) || self.dt@[y] < self.ft@[r]) implies reaches(adj, r as usize, y as usize) by {
                if r != x && s0.fin(r) {
                    assert(self.ft@[r] == s0.ft@[r]);
                }
            }
        }
        assert(self.stack_ok(adj, st, -1, 0)) by {
            assert forall|k1: int, k2: int|
                0 <= k1 < k2 < st.len() && fin_job(#[trigger] st[k1]) && fin_job(#[trigger] st[k2]) implies self.dt@[job_vertex(st[k1]) as int]
                    < self.dt@[job_vertex(st[k2]) as int] by {
                assert(st[k1] == st0[k1]);
                assert(st[k2] == st0[k2]);
            }
            assert forall|k1: int, k2: int|
                0 <= k1 < k2 < st.len() && fin_job(#[trigger] st[k1]) && !fin_job(#[trigger] st[k2]) implies reaches(
                    adj,
                    job_vertex(st[k1]),
                    job_vertex(st[k2]),
                ) by {
                assert(st[k1] == st0[k1]);
                assert(st[k2] == st0[k2]);
            }
            assert forall|k: int, jj: int|
                0 <= k < st.len() && fin_job(#[trigger] st[k]) && 0 <= jj < adj[job_vertex(st[k]) as int].len() implies {
                    let b = #[trigger] adj[job_vertex(st[k]) as int][jj];
                    self.marked@[b as int] || visit_above(st, k, b) || (job_vertex(st[k]) == -1 && jj >= 0)
                } by {
                assert(st[k] == st0[k]);
                let b = adj[job_vertex(st[k]) as int][jj];
                if !self.marked@[b as int] {
                    let k2 = choose|k2: int| k < k2 < st0.len() && #[trigger] st0[k2] == QueuedJob::VisitVertex(b);
                    assert(k2 != l);
                    assert(st[k2] == st0[k2]);
                }
            }
        }
    }

    /// Once every vertex is finished: along a walk to `r` whose vertices
    /// all finished no later than `r`, each vertex from step `k` on lies
    /// in the interval of `r`.
    proof fn lemma_nested(&self, adj: Seq<Seq<usize>>, p: Seq<usize>, k: int)
        requires
            self.order_ok(adj, Seq::empty()),
            self.times_ok(adj, Seq::empty(), -1, 0),
            forall|y: int| 0 <= y < adj.len() ==> #[trigger] self.fin(y),
            is_path(adj, p),
            0 <= k < p.len(),
            forall|i: int| 0 <= i < p.len() ==> self.ft@[#[trigger] p[i] as int] <= self.ft@[p.last() as int],
        ensures
            self.dt@[p.last() as int] <= self.dt@[p[k] as int],
            self.ft@[p[k] as int] <= self.ft@[p.last() as int],
        decreases p.len() - k,
    {
        let r = p.last() as int;
        if k < p.len() - 1 {
            self.lemma_nested(adj, p, k + 1);
            let a = p[k] as int;
            let i = k;
            assert(adj[p[i] as int].contains(p[i + 1]));
            let j = choose|j: int| 0 <= j < adj[a].len() && #[trigger] adj[a][j] == p[i + 1];
            let b = adj[a][j] as int;
            assert(self.fin(a) && self.fin(b) && self.fin(r));
            assert(self.marked@[b]);
            if b == a {
            } else if self.ft@[b] < self.ft@[a] {
                if self.dt@[a] < self.dt@[r] {
                    assert(self.marked@[r]) by {
                        assert(p.last() < adj.len());
                        assert(self.postorder@.contains(r as usize));
                        let q = choose|q: int| 0 <= q < self.postorder@.len() && self.postorder@[q] == r as usize;
                        assert(self.marked@[self.postorder@[q] as int]);
                    }
                    assert(self.dt@[b] < self.ft@[b]);
                    assert(self.ft@[r] < self.ft@[a]);
                }
            } else {
            }
        }
    }

    /// Once every vertex is finished: a walk to `r` through vertices that
    /// finished no later than `r` starts at a vertex that `r` reaches.
    proof fn lemma_finish_key(&self, adj: Seq<Seq<usize>>, p: Seq<usize>)
        requires
            self.order_ok(adj, Seq::empty()),
            self.times_ok(adj, Seq::empty(), -1, 0),
            forall|y: int| 0 <= y < adj.len() ==> #[trigger] self.fin(y),
            is_path(adj, p),
            forall|i: int| 0 <= i < p.len() ==> self.ft@[#[trigger] p[i] as int] <= self.ft@[p.last() as int],
        ensures
            reaches(adj, p.last(), p[0]),
    {
        self.lemma_nested(adj, p, 0);
        let r = p.last() as int;
        let x = p[0] as int;
        assert(self.fin(x) && self.fin(r));
        assert(self.marked@[x]) by {
            let q = choose|q: int| 0 <= q < self.postorder@.len() && self.postorder@[q] == x as usize;
            assert(self.marked@[self.postorder@[q] as int]);
        }
        assert(self.marked@[r]) by {
            let q = choose|q: int| 0 <= q < self.postorder@.len() && self.postorder@[q] == r as usize;
            assert(self.marked@[self.postorder@[q] as int]);
        }
        assert(self.dt@[x] < self.ft@[x]);
    }

    /// What one depth-first walk from `v` keeps, where `m0`, `pre0` and
    /// `post0` are the marks and orders when it started: newly marked
    /// vertices and queued visits are reached from `v` avoiding `m0`; every
    /// edge out of a newly marked vertex (but those of `cur` from `done` on)
    /// leads to a marked vertex or a queued visit; the orders only grow;
    /// `v` comes first in the preorder, and its finish job stays at the
    /// bottom of the stack until it ends the postorder.
    spec fn walk_ok(
        &self,
        adj: Seq<Seq<usize>>,
        m0: Seq<bool>,
        pre0: Seq<usize>,
        post0: Seq<usize>,
        v: usize,
        st: Seq<QueuedJob>,
        cur: int,
        done: int,
    ) -> bool {
        let n = adj.len();
        let m = self.marked@;
        &&& m0.len() == n
        &&& forall|x: int| 0 <= x < n && m[x] && !m0[x] ==> #[trigger] reaches_unmarked(adj, m0, v, x as usize)
        &&& forall|k: int| 0 <= k < st.len() ==> match #[trigger] st[k] {
            QueuedJob::VisitVertex(w) => w < n && (m0[w as int] || reaches_unmarked(adj, m0, v, w)),
            QueuedJob::FinishVertex(w) => true,
        }
        &&& forall|u: int, j: int|
            0 <= u < n && m[u] && !m0[u] && 0 <= j < adj[u].len() && (u != cur || j < done) ==> m[#[trigger] adj[u][j] as int]
                || on_visit(st, adj[u][j])
        &&& self.preorder@.len() >= pre0.len()
        &&& self.preorder@.subrange(0, pre0.len() as int) == pre0
        &&& self.postorder@.len() >= post0.len()
        &&& self.postorder@.subrange(0, post0.len() as int) == post0
        &&& !m[v as int] ==> st == seq![QueuedJob::VisitVertex(v)] && m == m0 && self.preorder@ == pre0
            && self.postorder@ == post0
        &&& m[v as int] ==> self.preorder@.len() > pre0.len() && self.preorder@[pre0.len() as int] == v
        &&& m[v as int] && st.len() > 0 ==> st[0] == QueuedJob::FinishVertex(v)
        &&& m[v as int] && st.len() == 0 ==> self.postorder@.len() > post0.len() && self.postorder@.last() == v
    }

    fn new(graph: &Digraph) -> (r: DepthFirstOrder)
        requires
            graph.wf(),
        ensures
            is_permutation(r.preorder@, graph.vertex_count()),
            is_permutation(r.postorder@, graph.vertex_count()),
            finish_ordered(graph.adj_view(), r.postorder@),
    {
        proof {
            graph.lemma_neighbors();
        }
        let n = graph.v();
        let mut marked: Vec<bool> = Vec::new();
        let mut i: usize = 0;
        while i < n
            invariant
                i <= n,
                marked@.len() == i,
                forall|k: int| 0 <= k < i ==> !#[trigger] marked@[k],
            decreases n - i,
        {
            marked.push(false);
            i = i + 1;
        }
        let mut dfo = DepthFirstOrder {
            marked,
            preorder: Vec::new(),
            postorder: Vec::new(),
            dt: Ghost(Seq::new(n as nat, |i: int| 0nat)),
            ft: Ghost(Seq::new(n as nat, |i: int| 0nat)),
            clock: Ghost(0),
        };
        let ghost adj = graph.adj_view();
        proof {
            assert forall|y: int| 0 <= y < n implies !#[trigger] dfo.fin(y) by {}
        }
        let mut v: usize = 0;
        while v < n
            invariant
                graph.wf(),
                adj == graph.adj_view(),
                n == adj.len(),
                n == graph.vertex_count(),
                v <= n,
                dfo.order_ok(adj, Seq::empty()),
                dfo.times_ok(adj, Seq::empty(), -1, 0),
                forall|x: int| 0 <= x < v ==> #[trigger] dfo.marked@[x],
            decreases n - v,
        {
            if !dfo.marked[v] {
                dfo.dfs(graph, v);
            }
            v = v + 1;
        }
        proof {
            assert forall|x: usize| x < n implies dfo.preorder@.contains(x) && dfo.postorder@.contains(x) by {
                assert(dfo.marked@[x as int]);
                assert(!has_finish(Seq::<QueuedJob>::empty(), x));
            }
            assert forall|y: int| 0 <= y < n implies #[trigger] dfo.fin(y) by {
                assert(dfo.postorder@.contains(y as usize));
            }
            let post = dfo.postorder@;
            assert forall|i: int, p: Seq<usize>|
                #![trigger is_path(adj, p), post[i]]
                0 <= i < post.len() && is_path(adj, p) && p.last() == post[i] && (forall|k: int|
                    0 <= k < p.len() ==> !post.subrange(i + 1, post.len() as int).contains(#[trigger] p[k])) implies reaches(
                    adj,
                    post[i],
                    p[0],
                ) by {
                assert forall|k: int| 0 <= k < p.len() implies dfo.ft@[#[trigger] p[k] as int] <= dfo.ft@[p.last() as int] by {
                    let y = p[k];
                    assert(post.contains(y));
                    let q = choose|q: int| 0 <= q < post.len() && post[q] == y;
                    if q > i {
                        assert(post.subrange(i + 1, post.len() as int)[q - i - 1] == y);
                    } else if q < i {
                        assert(dfo.ft@[post[q] as int] < dfo.ft@[post[i] as int]);
                    }
                }
                dfo.lemma_finish_key(adj, p);
            }
        }
        dfo
    }

    /// Depth-first search from `v` with an explicit stack of visit and
    /// finish jobs.
    #[verifier::rlimit(60)]
    fn dfs(&mut self, graph: &Digraph, v: usize)
        requires
            graph.wf(),
            old(self).order_ok(graph.adj_view(), Seq::empty()),
            old(self).times_ok(graph.adj_view(), Seq::empty(), -1, 0),
            v < graph.vertex_count(),
            !old(self).marked@[v as int],
        ensures
            final(self).order_ok(graph.adj_view(), Seq::empty()),
            final(self).times_ok(graph.adj_view(), Seq::empty(), -1, 0),
            forall|x: int| 0 <= x < graph.vertex_count() ==> (#[trigger] final(self).marked@[x] <==> old(self).marked@[x]
                || reaches_unmarked(graph.adj_view(), old(self).marked@, v, x as usize)),
            final(self).preorder@.len() > old(self).preorder@.len(),
            final(self).preorder@.subrange(0, old(self).preorder@.len() as int) == old(self).preorder@,
            final(self).preorder@[old(self).preorder@.len() as int] == v,
            final(self).postorder@.len() > old(self).postorder@.len(),
            final(self).postorder@.subrange(0, old(self).postorder@.len() as int) == old(self).postorder@,
            final(self).postorder@.last() == v,
    {
        let ghost adj = graph.adj_view();
        let ghost n = adj.len();
        proof {
            graph.lemma_neighbors();
        }
        let ghost m0 = self.marked@;
        let ghost pre0 = self.preorder@;
        let ghost post0 = self.postorder@;
        let mut stack: Vec<QueuedJob> = Vec::new();
        stack.push(QueuedJob::VisitVertex(v));
        proof {
            lemma_reaches_unmarked_self(adj, m0, v);
            assert(stack@ =~= seq![QueuedJob::VisitVertex(v)]);
            assert(pre0.subrange(0, pre0.len() as int) =~= pre0);
            assert(post0.subrange(0, post0.len() as int) =~= post0);
            assert(!has_finish(Seq::<QueuedJob>::empty(), v));
            assert forall|x: usize| x < n && #[trigger] self.marked@[x as int] implies self.postorder@.contains(x) || has_finish(stack@, x) by {
                assert(!has_finish(Seq::<QueuedJob>::empty(), x));
            }
        }
        while stack.len() > 0
            invariant
                graph.wf(),
                adj == graph.adj_view(),
                n == adj.len(),
                n == graph.vertex_count(),
                n <= usize::MAX,
                v < n,
                self.order_ok(adj, stack@),
                forall|x: int| 0 <= x < n && old(self).marked@[x] ==> #[trigger] self.marked@[x],
                self.marked@[v as int] || (stack@.len() > 0 && stack@[0] == QueuedJob::VisitVertex(v)),
                m0 == old(self).marked@,
                pre0 == old(self).preorder@,
                post0 == old(self).postorder@,
                self.walk_ok(adj, m0, pre0, post0, v, stack@, -1, 0),
                self.times_ok(adj, stack@, -1, 0),
            decreases unmarked_count(self.marked@), stack@.len(),
        {
            let ghost st0 = stack@;
            let ghost s0 = *self;
            let job = stack.pop();
            let job = match job {
                Some(j) => j,
                None => QueuedJob::VisitVertex(v),
            };
            proof {
                assert(st0.last() == job);
                assert(stack@ =~= st0.drop_last());
            }
            match job {
                QueuedJob::VisitVertex(x) => {
                    if !self.marked[x] {
                        proof {
                            lemma_unmarked_count_mark(self.marked@, x as int);
                        }
                        let ghost pre_b = self.preorder@;
                        let ghost m_b = self.marked@;
                        self.marked.set(x, true);
                        self.dt = Ghost(self.dt@.update(x as int, self.clock@));
                        self.clock = Ghost(self.clock@ + 1);
                        self.preorder.push(x);
                        stack.push(QueuedJob::FinishVertex(x));
                        proof {
                            self.lemma_mark_step(adj, s0, st0, stack@, x);
                        }
                        proof {
                            let st = stack@;
                            assert(!pre_b.contains(x));
                            assert forall|y: usize| y < n implies (#[trigger] self.marked@[y as int] <==> self.preorder@.contains(y)) by {
                                if y != x && self.preorder@.contains(y) {
                                    let k = choose|k: int| 0 <= k < self.preorder@.len() && self.preorder@[k] == y;
                                    assert(pre_b[k] == y);
                                }
                                if y != x && pre_b.contains(y) {
                                    let k = choose|k: int| 0 <= k < pre_b.len() && pre_b[k] == y;
                                    assert(self.preorder@[k] == y);
                                }
                                if y == x {
                                    assert(self.preorder@[pre_b.len() as int] == x);
                                }
                            }
                            assert forall|i: int| 0 <= i < self.postorder@.len() implies #[trigger] self.postorder@[i] < n && self.marked@[self.postorder@[i] as int] by {
                                assert(m_b[self.postorder@[i] as int]);
                            }
                            assert(!self.postorder@.contains(x)) by {
                                if self.postorder@.contains(x) {
                                    let k = choose|k: int| 0 <= k < self.postorder@.len() && self.postorder@[k] == x;
                                    assert(m_b[self.postorder@[k] as int]);
                                }
                            }
                            assert forall|k: int| 0 <= k < st.len() implies match #[trigger] st[k] {
                                QueuedJob::VisitVertex(z) => z < n,
                                QueuedJob::FinishVertex(z) => z < n && self.marked@[z as int] && !self.postorder@.contains(z)
                                    && forall|k2: int| 0 <= k2 < st.len() && k2 != k ==> st[k2] != QueuedJob::FinishVertex(z),
                            } by {
                                if k < st.len() - 1 {
                                    assert(st[k] == st0[k]);
                                    if let QueuedJob::FinishVertex(z) = st[k] {
                                        assert(z != x);
                                        assert forall|k2: int| 0 <= k2 < st.len() && k2 != k implies st[k2] != QueuedJob::FinishVertex(z) by {
                                            if k2 < st.len() - 1 {
                                                assert(st[k2] == st0[k2]);
                                            }
                                        }
                                    }
                                } else {
                                    assert forall|k2: int| 0 <= k2 < st.len() && k2 != k implies st[k2] != QueuedJob::FinishVertex(x) by {
                                        assert(st[k2] == st0[k2]);
                                        if let QueuedJob::FinishVertex(z) = st0[k2] {
                                            assert(m_b[z as int]);
                                        }
                                    }
                                }
                            }
                            assert forall|y: usize| y < n && #[trigger] self.marked@[y as int] implies self.postorder@.contains(y) || has_finish(st, y) by {
                                if y == x {
                                    assert(st[st.len() - 1] == QueuedJob::FinishVertex(x));
                                } else if !self.postorder@.contains(y) {
                                    let k = choose|k: int| 0 <= k < st0.len() && #[trigger] st0[k] == QueuedJob::FinishVertex(y);
                                    assert(k < st0.len() - 1);
                                    assert(st[k] == st0[k]);
                                }
                            }
                            assert(self.marked@[v as int] || (st.len() > 0 && st[0] == QueuedJob::VisitVertex(v))) by {
                                if !self.marked@[v as int] {
                                    assert(st0.len() > 1);
                                    assert(st[0] == st0[0]);
                                }
                            }
                        }
                        proof {
                            let st = stack@;
                            let m = self.marked@;
                            assert(st0[st0.len() - 1] == QueuedJob::VisitVertex(x));
                            assert(!m0[x as int]);
                            assert(reaches_unmarked(adj, m0, v, x));
                            assert(st.len() == st0.len());
                            assert forall|k: int| 0 <= k < st.len() implies match #[trigger] st[k] {
                                QueuedJob::VisitVertex(w) => w < n && (m0[w as int] || reaches_unmarked(adj, m0, v, w)),
                                QueuedJob::FinishVertex(w) => true,
                            } by {
                                if k < st.len() - 1 {
                                    assert(st[k] == st0[k]);
                                }
                            }
                            assert forall|u: int, jj: int|
                                0 <= u < n && m[u] && !m0[u] && 0 <= jj < adj[u].len() && (u != x || jj < 0) implies m[#[trigger] adj[u][jj] as int]
                                    || on_visit(st, adj[u][jj]) by {
                                let y = adj[u][jj];
                                assert(m_b[u]);
                                if !m[y as int] {
                                    assert(on_visit(st0, y));
                                    let k = choose|k: int| 0 <= k < st0.len() && #[trigger] st0[k] == QueuedJob::VisitVertex(y);
                                    assert(k != st0.len() - 1);
                                    assert(st[k] == st0[k]);
                                }
                            }
                            assert(self.preorder@.subrange(0, pre0.len() as int) =~= pre0) by {
                                assert(pre_b.subrange(0, pre0.len() as int) == pre0);
                            }
                            if x == v {
                                assert(st0.len() == 1);
                                assert(st[0] == QueuedJob::FinishVertex(v));
                            } else {
                                assert(m_b[v as int]);
                                assert(st0.len() >= 2);
                                assert(st[0] == st0[0]);
                                assert(self.preorder@[pre0.len() as int] == pre_b[pre0.len() as int]);
                            }
                            assert(self.walk_ok(adj, m0, pre0, post0, v, st, x as int, 0));
                        }
                        let out = graph.adj(x);
                        let mut j: usize = 0;
                        while j < out.len()
                            invariant
                                m0 == old(self).marked@,
                                pre0 == old(self).preorder@,
                                post0 == old(self).postorder@,
                                self.walk_ok(adj, m0, pre0, post0, v, stack@, x as int, j as int),
                                self.times_ok(adj, stack@, x as int, j as int),
                                st0.len() >= 1,
                                stack@.len() >= st0.len(),
                                stack@[st0.len() - 1] == QueuedJob::FinishVertex(x),
                                forall|k: int| st0.len() <= k < stack@.len() ==> !fin_job(#[trigger] stack@[k]),
                                self.marked@[x as int],
                                self.marked@[v as int],
                                stack@.len() > 0,
                                !m0[x as int],
                                reaches_unmarked(adj, m0, v, x),
                                graph.wf(),
                                adj == graph.adj_view(),
                                n == adj.len(),
                                n <= usize::MAX,
                                x < n,
                                v < n,
                                j <= out@.len(),
                                out@ == adj[x as int],
                                self.order_ok(adj, stack@),
                                forall|y: int| 0 <= y < n && old(self).marked@[y] ==> #[trigger] self.marked@[y],
                                self.marked@[v as int] || (stack@.len() > 0 && stack@[0] == QueuedJob::VisitVertex(v)),
                                stack@.len() >= st0.len(),
                                unmarked_count(self.marked@) < unmarked_count(m_b),
                                self.marked@.len() == m_b.len(),
                            decreases out@.len() - j,
                        {
                            let ghost sb = stack@;
                            stack.push(QueuedJob::VisitVertex(out[j]));
                            proof {
                                self.lemma_push_visit(adj, sb, stack@, x, st0.len() - 1, j as int);
                                let st = stack@;
                                let m = self.marked@;
                                let w = out@[j as int];
                                assert(adj[x as int].contains(w));
                                if !m0[w as int] {
                                    lemma_reaches_unmarked_step(adj, m0, v, x, w);
                                }
                                assert forall|k: int| 0 <= k < st.len() implies match #[trigger] st[k] {
                                    QueuedJob::VisitVertex(z) => z < n && (m0[z as int] || reaches_unmarked(adj, m0, v, z)),
                                    QueuedJob::FinishVertex(z) => true,
                                } by {
                                    if k < st.len() - 1 {
                                        assert(st[k] == sb[k]);
                                    }
                                }
                                assert forall|u: int, jj: int|
                                    0 <= u < n && m[u] && !m0[u] && 0 <= jj < adj[u].len() && (u != x || jj < j + 1) implies m[#[trigger] adj[u][jj] as int]
                                        || on_visit(st, adj[u][jj]) by {
                                    let y = adj[u][jj];
                                    if u == x && jj == j {
                                        assert(st[st.len() - 1] == QueuedJob::VisitVertex(y));
                                    } else if !m[y as int] {
                                        let k = choose|k: int| 0 <= k < sb.len() && #[trigger] sb[k] == QueuedJob::VisitVertex(y);
                                        assert(st[k] == sb[k]);
                                    }
                                }
                                if st.len() > 0 {
                                    assert(st[0] == sb[0]);
                                }
                                assert(self.walk_ok(adj, m0, pre0, post0, v, st, x as int, j + 1));
                                assert(adj[x as int][j as int] < n);
                                assert forall|k: int| 0 <= k < st.len() implies match #[trigger] st[k] {
                                    QueuedJob::VisitVertex(z) => z < n,
                                    QueuedJob::FinishVertex(z) => z < n && self.marked@[z as int] && !self.postorder@.contains(z)
                                        && forall|k2: int| 0 <= k2 < st.len() && k2 != k ==> st[k2] != QueuedJob::FinishVertex(z),
                                } by {
                                    if k < st.len() - 1 {
                                        assert(st[k] == sb[k]);
                                        if let QueuedJob::FinishVertex(z) = st[k] {
                                            assert forall|k2: int| 0 <= k2 < st.len() && k2 != k implies st[k2] != QueuedJob::FinishVertex(z) by {
                                                if k2 < st.len() - 1 {
                                                    assert(st[k2] == sb[k2]);
                                                }
                                            }
                                        }
                                    }
                                }
                                assert forall|y: usize| y < n && #[trigger] self.marked@[y as int] implies self.postorder@.contains(y) || has_finish(st, y) by {
                                    if !self.postorder@.contains(y) {
                                        let k = choose|k: int| 0 <= k < sb.len() && #[trigger] sb[k] == QueuedJob::FinishVertex(y);
                                        assert(st[k] == sb[k]);
                                    }
                                }
                                if !self.marked@[v as int] {
                                    assert(st[0] == sb[0]);
                                }
                            }
                            j = j + 1;
                        }
                        proof {
                            let st = stack@;
                            let m = self.marked@;
                            assert forall|u: int, jj: int|
                                0 <= u < n && m[u] && !m0[u] && 0 <= jj < adj[u].len() && (u != -1 || jj < 0) implies m[#[trigger] adj[u][jj] as int]
                                    || on_visit(st, adj[u][jj]) by {
                                if u == x {
                                    assert(jj < j);
                                }
                            }
                            assert(self.walk_ok(adj, m0, pre0, post0, v, st, -1, 0));
                            self.lemma_stack_done(adj, st, x, j as int);
                        }
                    } else {
                        proof {
                            let st = stack@;
                            let m = self.marked@;
                            assert forall|k: int| 0 <= k < st.len() implies match #[trigger] st[k] {
                                QueuedJob::VisitVertex(w) => w < n && (m0[w as int] || reaches_unmarked(adj, m0, v, w)),
                                QueuedJob::FinishVertex(w) => true,
                            } by {
                                assert(st[k] == st0[k]);
                            }
                            assert forall|u: int, jj: int|
                                0 <= u < n && m[u] && !m0[u] && 0 <= jj < adj[u].len() && (u != -1 || jj < 0) implies m[#[trigger] adj[u][jj] as int]
                                    || on_visit(st, adj[u][jj]) by {
                                let y = adj[u][jj];
                                if !m[y as int] {
                                    let k = choose|k: int| 0 <= k < st0.len() && #[trigger] st0[k] == QueuedJob::VisitVertex(y);
                                    assert(k != st0.len() - 1);
                                    assert(st[k] == st0[k]);
                                }
                            }
                            if m[v as int] {
                                assert(st0.len() >= 2);
                                assert(st[0] == st0[0]);
                            }
                            assert(self.walk_ok(adj, m0, pre0, post0, v, st, -1, 0));
                            self.lemma_pop_visit(adj, st0, st, x);
                        }
                        proof {
                            let st = stack@;
                            assert forall|k: int| 0 <= k < st.len() implies match #[trigger] st[k] {
                                QueuedJob::VisitVertex(z) => z < n,
                                QueuedJob::FinishVertex(z) => z < n && self.marked@[z as int] && !self.postorder@.contains(z)
                                    && forall|k2: int| 0 <= k2 < st.len() && k2 != k ==> st[k2] != QueuedJob::FinishVertex(z),
                            } by {
                                assert(st[k] == st0[k]);
                                if let QueuedJob::FinishVertex(z) = st[k] {
                                    assert forall|k2: int| 0 <= k2 < st.len() && k2 != k implies st[k2] != QueuedJob::FinishVertex(z) by {
                                        assert(st[k2] == st0[k2]);
                                    }
                                }
                            }
                            assert forall|y: usize| y < n && #[trigger] self.marked@[y as int] implies self.postorder@.contains(y) || has_finish(st, y) by {
                                if !self.postorder@.contains(y) {
                                    let k = choose|k: int| 0 <= k < st0.len() && #[trigger] st0[k] == QueuedJob::FinishVertex(y);
                                    assert(k < st0.len() - 1);
                                    assert(st[k] == st0[k]);
                                }
                            }
                            if !self.marked@[v as int] {
                                assert(st0.len() > 1);
                                assert(st[0] == st0[0]);
                            }
                        }
                    }
                },
                QueuedJob::FinishVertex(x) => {
                    let ghost post_b = self.postorder@;
                    self.ft = Ghost(self.ft@.update(x as int, self.clock@));
                    self.clock = Ghost(self.clock@ + 1);
                    self.postorder.push(x);
                    proof {
                        self.lemma_finish_step(adj, s0, st0, stack@, x);
                    }
                    proof {
                        let st = stack@;
                        let last = st0.len() - 1;
                        assert(st0[last] == QueuedJob::FinishVertex(x));
                        assert(!post_b.contains(x));
                        assert forall|i: int| 0 <= i < self.postorder@.len() implies #[trigger] self.postorder@[i] < n && self.marked@[self.postorder@[i] as int] by {
                            if i < post_b.len() {
                                assert(self.postorder@[i] == post_b[i]);
                            }
                        }
                        assert forall|k: int| 0 <= k < st.len() implies match #[trigger] st[k] {
                            QueuedJob::VisitVertex(z) => z < n,
                            QueuedJob::FinishVertex(z) => z < n && self.marked@[z as int] && !self.postorder@.contains(z)
                                && forall|k2: int| 0 <= k2 < st.len() && k2 != k ==> st[k2] != QueuedJob::FinishVertex(z),
                        } by {
                            assert(st[k] == st0[k]);
                            if let QueuedJob::FinishVertex(z) = st[k] {
                                assert(st0[last] != QueuedJob::FinishVertex(z) || k == last);
                                assert(z != x);
                                if self.postorder@.contains(z) {
                                    let i = choose|i: int| 0 <= i < self.postorder@.len() && self.postorder@[i] == z;
                                    if i < post_b.len() {
                                        assert(post_b[i] == z);
                                    }
                                }
                                assert forall|k2: int| 0 <= k2 < st.len() && k2 != k implies st[k2] != QueuedJob::FinishVertex(z) by {
                                    assert(st[k2] == st0[k2]);
                                }
                            }
                        }
                        assert forall|y: usize| y < n && #[trigger] self.marked@[y as int] implies self.postorder@.contains(y) || has_finish(st, y) by {
                            if y == x {
                                assert(self.postorder@[post_b.len() as int] == x);
                            } else if post_b.contains(y) {
                                let i = choose|i: int| 0 <= i < post_b.len() && post_b[i] == y;
                                assert(self.postorder@[i] == y);
                            } else {
                                let k = choose|k: int| 0 <= k < st0.len() && #[trigger] st0[k] == QueuedJob::FinishVertex(y);
                                assert(k != last);
                                assert(st[k] == st0[k]);
                            }
                        }
                        if !self.marked@[v as int] {
                            assert(st0[0] == QueuedJob::VisitVertex(v));
                            assert(st0.len() > 1);
                            assert(st[0] == st0[0]);
                        }
                    }
                    proof {
                        let st = stack@;
                        let m = self.marked@;
                        assert forall|k: int| 0 <= k < st.len() implies match #[trigger] st[k] {
                            QueuedJob::VisitVertex(w) => w < n && (m0[w as int] || reaches_unmarked(adj, m0, v, w)),
                            QueuedJob::FinishVertex(w) => true,
                        } by {
                            assert(st[k] == st0[k]);
                        }
                        assert forall|u: int, jj: int|
                            0 <= u < n && m[u] && !m0[u] && 0 <= jj < adj[u].len() && (u != -1 || jj < 0) implies m[#[trigger] adj[u][jj] as int]
                                || on_visit(st, adj[u][jj]) by {
                            let y = adj[u][jj];
                            if !m[y as int] {
                                let k = choose|k: int| 0 <= k < st0.len() && #[trigger] st0[k] == QueuedJob::VisitVertex(y);
                                assert(k != st0.len() - 1);
                                assert(st[k] == st0[k]);
                            }
                        }
                        assert(self.postorder@.subrange(0, post0.len() as int) =~= post0) by {
                            assert(post_b.subrange(0, post0.len() as int) == post0);
                        }
                        assert(m[v as int]);
                        if st.len() > 0 {
                            assert(st0.len() >= 2);
                            assert(st[0] == st0[0]);
                        } else {
                            assert(st0[0] == QueuedJob::FinishVertex(v));
                            assert(x == v);
                        }
                        assert(self.walk_ok(adj, m0, pre0, post0, v, st, -1, 0));
                    }
                },
            }
        }
        proof {
            let m = self.marked@;
            assert(m[v as int]);
            assert forall|u: int, jj: int|
                0 <= u < adj.len() && m[u] && !m0[u] && 0 <= jj < adj[u].len() implies m[#[trigger] adj[u][jj] as int] by {
                assert(!on_visit(stack@, adj[u][jj]));
            }
            assert forall|x: int| 0 <= x < n implies (#[trigger] m[x] <==> m0[x] || reaches_unmarked(adj, m0, v, x as usize)) by {
                if reaches_unmarked(adj, m0, v, x as usize) {
                    let p = choose|p: Seq<usize>| #[trigger] crate::search::is_path(adj, p) && p[0] == v && p.last() == x as usize && avoids(p, m0);
                    lemma_walk_covered(adj, m0, m, p, p.len() - 1);
                }
            }
        }
    }
}

impl Digraph {
    /// The vertices in reverse postorder of a depth-first search of the
    /// whole graph; every vertex appears once.
    pub fn reverse_postorder(&self) -> (r: Vec<usize>)
        requires
            self.wf(),
        ensures
            is_permutation(r@, self.vertex_count()),
            reverse_finish_ordered(self.adj_view(), r@),
    {
        let dfo = DepthFirstOrder::new(self);
        let post = &dfo.postorder;
        let mut r: Vec<usize> = Vec::new();
        let mut k: usize = post.len();
        while k > 0
            invariant
                k <= post@.len(),
                r@.len() == post@.len() - k,
                forall|i: int| 0 <= i < r@.len() ==> #[trigger] r@[i] == post@[post@.len() - 1 - i],
            decreases k,
        {
            k = k - 1;
            r.push(post[k]);
        }
        proof {
            let l = post@.len();
            assert forall|i: int, j: int| 0 <= i < r@.len() && 0 <= j < r@.len() && i != j implies r@[i] != r@[j] by {
                assert(r@[i] == post@[l - 1 - i]);
                assert(r@[j] == post@[l - 1 - j]);
            }
            assert forall|i: int| 0 <= i < r@.len() implies #[trigger] r@[i] < self.vertex_count() by {
                assert(r@[i] == post@[l - 1 - i]);
            }
            assert forall|v: usize| v < self.vertex_count() implies r@.contains(v) by {
                assert(post@.contains(v));
                let i = choose|i: int| 0 <= i < l && post@[i] == v;
                assert(r@[l - 1 - i] == v);
            }
            let adj = self.adj_view();
            let rs = r@;
            let ps = post@;
            assert forall|i: int, p: Seq<usize>|
                #![trigger is_path(adj, p), rs[i]]
                0 <= i < rs.len() && is_path(adj, p) && p.last() == rs[i] && (forall|k: int|
                    0 <= k < p.len() ==> !rs.take(i).contains(#[trigger] p[k])) implies reaches(adj, rs[i], p[0]) by {
                let q = l - 1 - i;
                assert(rs[i] == ps[q]);
                assert forall|k: int| 0 <= k < p.len() implies !ps.subrange(q + 1, l as int).contains(#[trigger] p[k]) by {
                    if ps.subrange(q + 1, l as int).contains(p[k]) {
                        let m = choose|m: int| 0 <= m < l - q - 1 && #[trigger] ps.subrange(q + 1, l as int)[m] == p[k];
                        let t = l - 1 - (q + 1 + m);
                        assert(rs[t] == p[k]);
                        assert(rs.take(i)[t] == p[k]);
                    }
                }
                assert(is_path(adj, p) && ps[q] == rs[i]);
            }
        }
        r
    }
}

/// The component numbering `ids` with `count` parts and their first
/// vertices `roots` never rises along an edge, and each root reaches every
/// vertex of its part and is reached from each of them.
pub open spec fn scc_ok(adj: Seq<Seq<usize>>, ids: Seq<usize>, roots: Seq<usize>, count: nat) -> bool {
    &&& ids.len() == adj.len()
    &&& roots.len() == count
    &&& forall|v: int| 0 <= v < adj.len() ==> #[trigger] ids[v] < count
    &&& forall|u: int, j: int|
        0 <= u < adj.len() && 0 <= j < adj[u].len() ==> ids[#[trigger] adj[u][j] as int] <= ids[u]
    &&& forall|c: int| 0 <= c < count ==> #[trigger] roots[c] < adj.len() && ids[roots[c] as int] == c
    &&& forall|v: int| 0 <= v < adj.len() ==> #[trigger] reaches(adj, roots[ids[v] as int], v as usize)
    &&& forall|v: int| 0 <= v < adj.len() ==> reaches(adj, v as usize, #[trigger] roots[ids[v] as int])
}

/// `ids` numbers the strongly connected components: two vertices share a
/// number exactly when each reaches the other.
pub open spec fn is_scc_numbering(adj: Seq<Seq<usize>>, ids: Seq<usize>) -> bool {
    forall|v: int, w: int|
        0 <= v < adj.len() && 0 <= w < adj.len() ==> (#[trigger] ids[v] == #[trigger] ids[w] <==> reaches(adj, v as usize, w as usize)
            && reaches(adj, w as usize, v as usize))
}

/// Numbers that fall along edges and a root per part that reaches its part
/// and is reached from it number the strongly connected components.
pub proof fn lemma_scc_numbering(adj: Seq<Seq<usize>>, ids: Seq<usize>, roots: Seq<usize>, count: nat)
    requires
        scc_ok(adj, ids, roots, count),
        adj.len() <= usize::MAX,
    ensures
        is_scc_numbering(adj, ids),
{
    assert forall|v: int, w: int| 0 <= v < adj.len() && 0 <= w < adj.len() implies (#[trigger] ids[v] == #[trigger] ids[w]
        <==> reaches(adj, v as usize, w as usize) && reaches(adj, w as usize, v as usize)) by {
        if ids[v] == ids[w] {
            let r = roots[ids[v] as int];
            assert(reaches(adj, v as usize, r));
            assert(reaches(adj, r, w as usize));
            lemma_reaches_trans(adj, v as usize, r, w as usize);
            assert(reaches(adj, w as usize, roots[ids[w] as int]));
            assert(reaches(adj, roots[ids[v] as int], v as usize));
            lemma_reaches_trans(adj, w as usize, r, v as usize);
        }
        if reaches(adj, v as usize, w as usize) && reaches(adj, w as usize, v as usize) {
            lemma_mutual_reach_same_component(adj, ids, roots, count, v as usize, w as usize);
        }
    }
}

/// A walk turned around is a walk of the reversed graph.
proof fn lemma_reverse_walk(h: Seq<Seq<usize>>, g: Seq<Seq<usize>>, p: Seq<usize>)
    requires
        reverses(h, g),
        is_path(g, p),
    ensures
        is_path(h, p.reverse()),
        p.reverse()[0] == p.last(),
        p.reverse().last() == p[0],
        forall|k: int| 0 <= k < p.len() ==> #[trigger] p.reverse()[k] == p[p.len() - 1 - k],
{
    let q = p.reverse();
    assert forall|k: int| 0 <= k < q.len() implies #[trigger] q[k] < h.len() by {
        assert(q[k] == p[p.len() - 1 - k]);
    }
    assert forall|k: int| 0 <= k < q.len() - 1 implies h[q[k] as int].contains(#[trigger] q[k + 1]) by {
        let i = p.len() - 2 - k;
        assert(q[k] == p[i + 1] && q[k + 1] == p[i]);
        assert(g[p[i] as int].contains(p[i + 1]));
        assert(edge_mult(g, p[i] as int, p[i + 1] as int) > 0);
        assert(edge_mult(h, p[i + 1] as int, p[i] as int) > 0);
    }
}

proof fn lemma_reverses_symmetric(h: Seq<Seq<usize>>, g: Seq<Seq<usize>>)
    requires
        reverses(h, g),
    ensures
        reverses(g, h),
{
    assert forall|u: int, w: int| 0 <= u < h.len() && 0 <= w < h.len() implies #[trigger] edge_mult(g, w, u) == edge_mult(h, u, w) by {
        assert(edge_mult(h, u, w) == edge_mult(g, w, u));
    }
}

/// Reachability in the reversed graph is reachability backwards.
proof fn lemma_reverse_reaches(h: Seq<Seq<usize>>, g: Seq<Seq<usize>>, a: usize, b: usize)
    requires
        reverses(g, h),
        reaches(h, a, b),
    ensures
        reaches(g, b, a),
{
    let p = choose|p: Seq<usize>| #[trigger] is_path(h, p) && p[0] == a && p.last() == b;
    lemma_reverse_walk(g, h, p);
}

/// Vertices that reach each other get the same component number.
pub proof fn lemma_mutual_reach_same_component(
    adj: Seq<Seq<usize>>,
    ids: Seq<usize>,
    roots: Seq<usize>,
    count: nat,
    v: usize,
    w: usize,
)
    requires
        scc_ok(adj, ids, roots, count),
        reaches(adj, v, w),
        reaches(adj, w, v),
    ensures
        ids[v as int] == ids[w as int],
{
    lemma_ids_fall_along(adj, ids, roots, count, v, w);
    lemma_ids_fall_along(adj, ids, roots, count, w, v);
}

/// Component numbers never rise along a walk.
pub proof fn lemma_ids_fall_along(
    adj: Seq<Seq<usize>>,
    ids: Seq<usize>,
    roots: Seq<usize>,
    count: nat,
    v: usize,
    w: usize,
)
    requires
        scc_ok(adj, ids, roots, count),
        reaches(adj, v, w),
    ensures
        ids[w as int] <= ids[v as int],
{
    let p = choose|p: Seq<usize>| #[trigger] crate::search::is_path(adj, p) && p[0] == v && p.last() == w;
    lemma_ids_fall_prefix(adj, ids, roots, count, p, p.len() - 1);
}

proof fn lemma_ids_fall_prefix(
    adj: Seq<Seq<usize>>,
    ids: Seq<usize>,
    roots: Seq<usize>,
    count: nat,
    p: Seq<usize>,
    k: int,
)
    requires
        scc_ok(adj, ids, roots, count),
        crate::search::is_path(adj, p),
        0 <= k < p.len(),
    ensures
        ids[p[k] as int] <= ids[p[0] as int],
    decreases k,
{
    if k > 0 {
        lemma_ids_fall_prefix(adj, ids, roots, count, p, k - 1);
        let i = k - 1;
        assert(adj[p[i] as int].contains(p[i + 1]));
        let j = choose|j: int| 0 <= j < adj[p[i] as int].len() && #[trigger] adj[p[i] as int][j] == p[i + 1];
        assert(ids[adj[p[i] as int][j] as int] <= ids[p[i] as int]);
    }
}

/// Graphs with the same edges have the same walks.
proof fn lemma_same_edges_reach(a: Seq<Seq<usize>>, b: Seq<Seq<usize>>, u: usize, w: usize)
    requires
        same_edges(a, b),
        reaches(a, u, w),
    ensures
        reaches(b, u, w),
{
    let p = choose|p: Seq<usize>| #[trigger] is_path(a, p) && p[0] == u && p.last() == w;
    assert forall|i: int| 0 <= i < p.len() - 1 implies b[p[i] as int].contains(#[trigger] p[i + 1]) by {
        assert(a[p[i] as int].contains(p[i + 1]));
        assert(edge_mult(a, p[i] as int, p[i + 1] as int) > 0);
        assert(edge_mult(b, p[i] as int, p[i + 1] as int) > 0);
    }
    assert(is_path(b, p));
}

/// The strongly connected components do not depend on the order in which
/// the edges were added: two graphs with the same edge multiset are
/// numbered into the same parts.
pub proof fn lemma_components_ignore_edge_order(
    a: Seq<Seq<usize>>,
    b: Seq<Seq<usize>>,
    ids_a: Seq<usize>,
    ids_b: Seq<usize>,
)
    requires
        same_edges(a, b),
        is_scc_numbering(a, ids_a),
        is_scc_numbering(b, ids_b),
        a.len() <= usize::MAX,
    ensures
        forall|v: int, w: int|
            0 <= v < a.len() && 0 <= w < a.len() ==> (#[trigger] ids_a[v] == #[trigger] ids_a[w] <==> ids_b[v] == ids_b[w]),
{
    assert(same_edges(b, a)) by {
        assert forall|u: int, w: int| 0 <= u < b.len() && 0 <= w < b.len() implies #[trigger] edge_mult(b, u, w) == edge_mult(a, u, w) by {
            assert(edge_mult(a, u, w) == edge_mult(b, u, w));
        }
    }
    assert forall|v: int, w: int| 0 <= v < a.len() && 0 <= w < a.len() implies (#[trigger] ids_a[v] == #[trigger] ids_a[w]
        <==> ids_b[v] == ids_b[w]) by {
        let (x, y) = (v as usize, w as usize);
        if reaches(a, x, y) {
            lemma_same_edges_reach(a, b, x, y);
        }
        if reaches(a, y, x) {
            lemma_same_edges_reach(a, b, y, x);
        }
        if reaches(b, x, y) {
            lemma_same_edges_reach(b, a, x, y);
        }
        if reaches(b, y, x) {
            lemma_same_edges_reach(b, a, y, x);
        }
        assert(ids_a[v] == ids_a[w] <==> reaches(a, x, y) && reaches(a, y, x));
        assert(ids_b[v] == ids_b[w] <==> reaches(b, x, y) && reaches(b, y, x));
    }
}

/// `v` and `w` carry the same component number.
pub open spec fn same_component(ids: Seq<usize>, v: int, w: int) -> bool {
    ids[v] == ids[w]
}

/// `connected` is an equivalence relation on the vertices.
pub proof fn lemma_connected_equivalence(ids: Seq<usize>, u: int, v: int, w: int)
    ensures
        same_component(ids, v, v),
        same_component(ids, v, w) ==> same_component(ids, w, v),
        same_component(ids, u, v) && same_component(ids, v, w) ==> same_component(ids, u, w),
{
}

/// Strongly connected components of a digraph, found by the
/// Kosaraju-Sharir algorithm.
pub struct KosarajuSharirSCC {
    marked: Vec<bool>,
    id: Vec<Option<usize>>,
    count: usize,
    graph: Ghost<Seq<Seq<usize>>>,
    roots: Ghost<Seq<usize>>,
}

/// The numbers in a list of numbers that are all present.
pub open spec fn unwrap_ids(id: Seq<Option<usize>>) -> Seq<usize> {
    id.map_values(|o: Option<usize>| match o {
        Some(c) => c,
        None => 0,
    })
}

impl KosarajuSharirSCC {
    pub closed spec fn graph(&self) -> Seq<Seq<usize>> {
        self.graph@
    }

    /// The component number of each vertex.
    pub closed spec fn ids(&self) -> Seq<usize> {
        unwrap_ids(self.id@)
    }

    /// For each component, the vertex its search started from.
    pub closed spec fn roots(&self) -> Seq<usize> {
        self.roots@
    }

    pub closed spec fn spec_count(&self) -> nat {
        self.count as nat
    }

    pub closed spec fn wf(&self) -> bool {
        &&& self.id@.len() == self.graph@.len()
        &&& forall|v: int| 0 <= v < self.id@.len() ==> #[trigger] self.id@[v] is Some
        &&& scc_ok(self.graph@, self.ids(), self.roots@, self.count as nat)
    }

    /// State between two flood fills, or during fill number `count` from
    /// `root` with the pending vertices `st`.
    spec fn fill_ok(&self, st: Seq<usize>, root: usize, filling: bool) -> bool {
        let adj = self.graph@;
        let n = adj.len();
        let c = self.count as nat;
        let ids = unwrap_ids(self.id@);
        &&& graph_ok(adj)
        &&& self.marked@.len() == n
        &&& self.id@.len() == n
        &&& self.roots@.len() == c
        &&& forall|x: int| 0 <= x < n ==> (#[trigger] self.marked@[x] <==> self.id@[x] is Some)
        &&& forall|x: int| 0 <= x < n && self.marked@[x] ==> #[trigger] ids[x] < c || (filling && ids[x] == c)
        &&& forall|k: int| 0 <= k < c ==> #[trigger] self.roots@[k] < n && ids[self.roots@[k] as int] == k && self.marked@[self.roots@[k] as int]
        &&& forall|x: int| 0 <= x < n && self.marked@[x] && ids[x] < c ==> #[trigger] reaches(adj, self.roots@[ids[x] as int], x as usize)
        &&& filling ==> root < n
        &&& forall|x: int| 0 <= x < n && self.marked@[x] && filling && ids[x] == c ==> #[trigger] reaches(adj, root, x as usize)
        &&& forall|k: int| 0 <= k < st.len() ==> #[trigger] st[k] < n && reaches(adj, root, st[k])
        &&& forall|u: int, j: int|
            0 <= u < n && self.marked@[u] && 0 <= j < adj[u].len() ==> (self.marked@[#[trigger] adj[u][j] as int]
                && ids[adj[u][j] as int] <= ids[u]) || (filling && ids[u] == c && st.contains(adj[u][j]))
    }

    /// Flood fill from `v` along the edges of the graph, giving every newly
    /// reached vertex the number `count`.
    #[verifier::rlimit(60)]
    fn dfs(&mut self, v: usize, graph: &Digraph)
        requires
            graph.wf(),
            old(self).graph@ == graph.adj_view(),
            old(self).fill_ok(Seq::empty(), v, false),
            v < graph.vertex_count(),
            !old(self).marked@[v as int],
            old(self).count < usize::MAX,
        ensures
            final(self).graph@ == old(self).graph@,
            final(self).count == old(self).count,
            final(self).roots@ == old(self).roots@,
            final(self).fill_ok(Seq::empty(), v, true),
            final(self).marked@[v as int],
            unwrap_ids(final(self).id@)[v as int] == old(self).count,
            forall|x: int| 0 <= x < graph.vertex_count() && old(self).marked@[x] ==> #[trigger] final(self).marked@[x],
            forall|x: int|
                0 <= x < graph.vertex_count() && #[trigger] final(self).marked@[x] && !old(self).marked@[x] ==> reaches_unmarked(
                    graph.adj_view(),
                    old(self).marked@,
                    v,
                    x as usize,
                ),
            forall|x: int| 0 <= x < graph.vertex_count() && old(self).marked@[x] ==> #[trigger] final(self).id@[x] == old(self).id@[x],
            forall|x: int|
                0 <= x < graph.vertex_count() && #[trigger] final(self).marked@[x] && !old(self).marked@[x] ==> unwrap_ids(final(self).id@)[x]
                    == old(self).count,
    {
        let ghost mstart = self.marked@;
        let ghost adj = graph.adj_view();
        let ghost n = adj.len();
        proof {
            graph.lemma_neighbors();
            lemma_reaches_self(adj, v);
            lemma_reaches_unmarked_self(adj, mstart, v);
        }
        let mut q: Vec<usize> = Vec::new();
        q.push(v);
        proof {
            assert(q@[0] == v);
            assert forall|u: int, j: int|
                0 <= u < n && self.marked@[u] && 0 <= j < adj[u].len() implies (self.marked@[#[trigger] adj[u][j] as int]
                    && unwrap_ids(self.id@)[adj[u][j] as int] <= unwrap_ids(self.id@)[u]) || (unwrap_ids(self.id@)[u] == self.count && q@.contains(adj[u][j])) by {
                assert(!Seq::<usize>::empty().contains(adj[u][j]));
            }
        }
        while q.len() > 0
            invariant
                graph.wf(),
                adj == graph.adj_view(),
                n == adj.len(),
                n == graph.vertex_count(),
                n <= usize::MAX,
                v < n,
                self.graph@ == adj,
                self.count == old(self).count,
                self.roots@ == old(self).roots@,
                self.fill_ok(q@, v, true),
                forall|x: int| 0 <= x < n && old(self).marked@[x] ==> #[trigger] self.marked@[x],
                self.marked@[v as int] || (q@.len() > 0 && q@[0] == v),
                self.marked@[v as int] ==> unwrap_ids(self.id@)[v as int] == self.count,
                mstart == old(self).marked@,
                forall|x: int| 0 <= x < n && mstart[x] ==> #[trigger] self.id@[x] == old(self).id@[x],
                forall|x: int| 0 <= x < n && #[trigger] self.marked@[x] && !mstart[x] ==> unwrap_ids(self.id@)[x] == self.count,
                forall|x: int| 0 <= x < n && #[trigger] self.marked@[x] && !mstart[x] ==> reaches_unmarked(adj, mstart, v, x as usize),
                forall|k: int| 0 <= k < q@.len() ==> mstart[#[trigger] q@[k] as int] || reaches_unmarked(adj, mstart, v, q@[k]),
            decreases unmarked_count(self.marked@), q@.len(),
        {
            let ghost q0 = q@;
            let top = q.pop();
            let x = match top {
                Some(x) => x,
                None => v,
            };
            proof {
                assert(q0.last() == x);
                assert(q@ =~= q0.drop_last());
            }
            if !self.marked[x] {
                let ghost m0 = self.marked@;
                let ghost id0 = self.id@;
                proof {
                    lemma_unmarked_count_mark(self.marked@, x as int);
                }
                self.marked.set(x, true);
                self.id.set(x, Some(self.count));
                let ghost qb = q@;
                let out = graph.adj(x);
                let mut j: usize = 0;
                while j < out.len()
                    invariant
                        j <= out@.len(),
                        out@ == adj[x as int],
                        q@.len() == qb.len() + j,
                        forall|k: int| 0 <= k < qb.len() ==> #[trigger] q@[k] == qb[k],
                        forall|i: int| 0 <= i < j ==> #[trigger] q@[qb.len() + i] == out@[i],
                    decreases out@.len() - j,
                {
                    q.push(out[j]);
                    j = j + 1;
                }
                proof {
                    assert(!mstart[x as int]);
                    assert(q0[q0.len() - 1] == x);
                    assert(reaches_unmarked(adj, mstart, v, x));
                    assert forall|y: int| 0 <= y < n && #[trigger] self.marked@[y] && !mstart[y] implies reaches_unmarked(adj, mstart, v, y as usize) by {
                        if y != x {
                            assert(m0[y]);
                        }
                    }
                    assert forall|k: int| 0 <= k < q@.len() implies mstart[#[trigger] q@[k] as int] || reaches_unmarked(adj, mstart, v, q@[k]) by {
                        if k < qb.len() {
                            assert(q@[k] == q0[k]);
                        } else {
                            let i = k - qb.len();
                            assert(q@[qb.len() + i] == out@[i]);
                            let w = adj[x as int][i];
                            assert(adj[x as int].contains(w));
                            if !mstart[w as int] {
                                lemma_reaches_unmarked_step(adj, mstart, v, x, w);
                            }
                        }
                    }
                }
                proof {
                    let ids = unwrap_ids(self.id@);
                    let ids0 = unwrap_ids(id0);
                    let c = self.count as nat;
                    let st = q@;
                    assert(reaches(adj, v, x));
                    assert forall|y: int| 0 <= y < n && y != x implies #[trigger] ids[y] == ids0[y] by {}
                    assert(ids[x as int] == c);
                    assert forall|k: int| 0 <= k < st.len() implies #[trigger] st[k] < n && reaches(adj, v, st[k]) by {
                        if k < qb.len() {
                            assert(st[k] == q0[k]);
                        } else {
                            assert(st[qb.len() + (k - qb.len())] == out@[k - qb.len()]);
                            lemma_reaches_step(adj, v, x, adj[x as int][k - qb.len()]);
                        }
                    }
                    assert forall|u: int, jj: int|
                        0 <= u < n && self.marked@[u] && 0 <= jj < adj[u].len() implies (self.marked@[#[trigger] adj[u][jj] as int]
                            && ids[adj[u][jj] as int] <= ids[u]) || (ids[u] == c && st.contains(adj[u][jj])) by {
                        let y = adj[u][jj];
                        if u == x {
                            assert(st[qb.len() + jj] == y);
                        } else if !(m0[y as int] && ids0[y as int] <= ids0[u]) {
                            let k = choose|k: int| 0 <= k < q0.len() && q0[k] == y;
                            if k == q0.len() - 1 {
                                assert(y == x);
                            } else {
                                assert(st[k] == y);
                            }
                        }
                    }
                    assert forall|x2: int| 0 <= x2 < n && self.marked@[x2] && ids[x2] < c implies #[trigger] reaches(adj, self.roots@[ids[x2] as int], x2 as usize) by {
                        assert(x2 != x);
                    }
                    if !m0[v as int] {
                        if x != v {
                            assert(q0.len() > 1);
                            assert(st[0] == q0[0]);
                        }
                    }
                }
            } else {
                proof {
                    let ids = unwrap_ids(self.id@);
                    let st = q@;
                    assert forall|u: int, jj: int|
                        0 <= u < n && self.marked@[u] && 0 <= jj < adj[u].len() implies (self.marked@[#[trigger] adj[u][jj] as int]
                            && ids[adj[u][jj] as int] <= ids[u]) || (ids[u] == self.count && st.contains(adj[u][jj])) by {
                        let y = adj[u][jj];
                        if !(self.marked@[y as int] && ids[y as int] <= ids[u]) {
                            let k = choose|k: int| 0 <= k < q0.len() && q0[k] == y;
                            if k == q0.len() - 1 {
                                assert(y == x);
                                assert(ids[x as int] == self.count || ids[x as int] < self.count);
                            } else {
                                assert(st[k] == y);
                            }
                        }
                    }
                    if !self.marked@[v as int] {
                        assert(q0.len() > 1);
                        assert(st[0] == q0[0]);
                    }
                }
            }
        }
        proof {
            assert(q@ =~= Seq::<usize>::empty());
        }
    }
}

impl KosarajuSharirSCC {
    fn new(graph: &Digraph) -> (r: KosarajuSharirSCC)
        requires
            graph.wf(),
        ensures
            r.wf(),
            r.graph() == graph.adj_view(),
    {
        proof {
            graph.lemma_neighbors();
        }
        let n = graph.v();
        let mut marked: Vec<bool> = Vec::new();
        let mut id: Vec<Option<usize>> = Vec::new();
        let mut i: usize = 0;
        while i < n
            invariant
                i <= n,
                marked@.len() == i,
                id@.len() == i,
                forall|k: int| 0 <= k < i ==> !#[trigger] marked@[k],
                forall|k: int| 0 <= k < i ==> #[trigger] id@[k] is None,
            decreases n - i,
        {
            marked.push(false);
            id.push(None);
            i = i + 1;
        }
        let mut cc = KosarajuSharirSCC {
            marked,
            id,
            count: 0,
            graph: Ghost(graph.adj_view()),
            roots: Ghost(Seq::empty()),
        };
        cc.init(graph);
        cc
    }

    /// Runs one flood fill over the graph from each vertex not yet reached,
    /// taking the vertices in reverse postorder of the reversed graph.
    fn init(&mut self, graph: &Digraph)
        requires
            graph.wf(),
            old(self).graph@ == graph.adj_view(),
            old(self).fill_ok(Seq::empty(), 0, false),
            old(self).count == 0,
            forall|x: int| 0 <= x < graph.vertex_count() ==> !#[trigger] old(self).marked@[x],
        ensures
            final(self).wf(),
            final(self).graph@ == graph.adj_view(),
    {
        let ghost adj = graph.adj_view();
        let ghost n = adj.len();
        proof {
            graph.lemma_neighbors();
        }
        let g_rev = graph.reverse();
        let order = g_rev.reverse_postorder();
        let ghost hadj = g_rev.adj_view();
        proof {
            lemma_reverses_symmetric(hadj, adj);
        }
        let mut i: usize = 0;
        while i < order.len()
            invariant
                graph.wf(),
                adj == graph.adj_view(),
                n == adj.len(),
                n == graph.vertex_count(),
                n <= usize::MAX,
                reverses(adj, hadj),
                reverse_finish_ordered(hadj, order@),
                forall|x: int| 0 <= x < n && #[trigger] self.marked@[x] ==> reaches(
                    adj,
                    x as usize,
                    self.roots@[unwrap_ids(self.id@)[x] as int],
                ),
                self.graph@ == adj,
                is_permutation(order@, n),
                i <= order@.len(),
                self.count <= i,
                self.fill_ok(Seq::empty(), 0, false),
                forall|k: int| 0 <= k < i ==> self.marked@[#[trigger] order@[k] as int],
            decreases order@.len() - i,
        {
            let v = order[i];
            if !self.marked[v] {
                let ghost ms = self.marked@;
                let ghost ids_b = unwrap_ids(self.id@);
                let ghost c0 = self.count;
                self.dfs(v, graph);
                self.roots = Ghost(self.roots@.push(v));
                self.count = self.count + 1;
                proof {
                    let ids = unwrap_ids(self.id@);
                    assert forall|x: int| 0 <= x < n && #[trigger] self.marked@[x] implies reaches(
                        adj,
                        x as usize,
                        self.roots@[ids[x] as int],
                    ) by {
                        if ms[x] {
                            assert(ids[x] == ids_b[x]);
                            assert(ids_b[x] < c0);
                        } else {
                            assert(ids[x] == c0);
                            assert(self.roots@[c0 as int] == v);
                            let p = choose|p: Seq<usize>| #[trigger] is_path(adj, p) && p[0] == v && p.last() == x as usize && avoids(p, ms);
                            lemma_reverse_walk(hadj, adj, p);
                            let q = p.reverse();
                            assert forall|k: int| 0 <= k < q.len() implies !order@.take(i as int).contains(#[trigger] q[k]) by {
                                assert(q[k] == p[p.len() - 1 - k]);
                                assert(!ms[p[p.len() - 1 - k] as int]);
                                if order@.take(i as int).contains(q[k]) {
                                    let t = choose|t: int| 0 <= t < i && #[trigger] order@.take(i as int)[t] == q[k];
                                    assert(order@[t] == q[k]);
                                }
                            }
                            assert(is_path(hadj, q) && q.last() == order@[i as int]);
                            assert(reaches(hadj, v, x as usize));
                            lemma_reverses_symmetric(adj, hadj);
                            lemma_reverse_reaches(hadj, adj, v, x as usize);
                        }
                    }
                }
                proof {
                    let ids = unwrap_ids(self.id@);
                    let c = self.count as nat;
                    assert forall|k: int| 0 <= k < c implies #[trigger] self.roots@[k] < n && ids[self.roots@[k] as int] == k && self.marked@[self.roots@[k] as int] by {}
                    assert forall|x: int| 0 <= x < n && self.marked@[x] && ids[x] < c implies #[trigger] reaches(adj, self.roots@[ids[x] as int], x as usize) by {}
                    assert forall|u: int, j: int|
                        0 <= u < n && self.marked@[u] && 0 <= j < adj[u].len() implies (self.marked@[#[trigger] adj[u][j] as int]
                            && ids[adj[u][j] as int] <= ids[u]) by {
                        assert(!Seq::<usize>::empty().contains(adj[u][j]));
                    }
                }
            }
            i = i + 1;
        }
        proof {
            let ids = unwrap_ids(self.id@);
            assert forall|v: int| 0 <= v < n implies #[trigger] self.marked@[v] by {
                assert(order@.contains(v as usize));
            }
            assert forall|v: int| 0 <= v < n implies #[trigger] self.id@[v] is Some by {
                assert(self.marked@[v]);
            }
            assert forall|v: int| 0 <= v < n implies #[trigger] reaches(adj, self.roots@[ids[v] as int], v as usize) by {
                assert(self.marked@[v]);
            }
            assert forall|v: int| 0 <= v < n implies #[trigger] ids[v] < self.count by {
                assert(self.marked@[v]);
            }
            assert forall|v: int| 0 <= v < n implies reaches(adj, v as usize, #[trigger] self.roots@[ids[v] as int]) by {
                assert(self.marked@[v]);
            }
        }
    }

    /// Number of strongly connected components.
    pub fn count(&self) -> (r: usize)
        ensures
            r == self.spec_count(),
    {
        self.count
    }

    /// Component number of `v`.
    pub fn id(&self, v: usize) -> (r: usize)
        requires
            self.wf(),
            v < self.graph().len(),
        ensures
            r == self.ids()[v as int],
            r < self.spec_count(),
    {
        proof {
            assert(self.ids()[v as int] < self.count);
        }
        match self.id[v] {
            Some(c) => c,
            None => 0,
        }
    }

    /// Whether `v` and `w` are in the same component.
    pub fn connected(&self, v: usize, w: usize) -> (r: bool)
        requires
            self.wf(),
            v < self.graph().len(),
            w < self.graph().len(),
        ensures
            r == same_component(self.ids(), v as int, w as int),
    {
        self.id(v) == self.id(w)
    }
}

impl Digraph {
    /// The strongly connected components of the graph.
    pub fn kosaraju_sharir_scc(&self) -> (r: KosarajuSharirSCC)
        requires
            self.wf(),
        ensures
            r.wf(),
            r.graph() == self.adj_view(),
            scc_ok(self.adj_view(), r.ids(), r.roots(), r.spec_count()),
            is_scc_numbering(self.adj_view(), r.ids()),
            r.ids().len() == self.vertex_count(),
            forall|v: int| 0 <= v < self.vertex_count() ==> #[trigger] r.ids()[v] < r.spec_count(),
    {
        let r = KosarajuSharirSCC::new(self);
        proof {
            self.lemma_neighbors();
            lemma_scc_numbering(self.adj_view(), r.ids(), r.roots(), r.spec_count());
        }
        r
    }
}

/// How many vertices carry component number `c`.
pub open spec fn count_id(ids: Seq<usize>, c: int) -> nat
    decreases ids.len(),
{
    if ids.len() == 0 {
        0
    } else {
        count_id(ids.drop_last(), c) + if ids.last() == c { 1nat } else { 0nat }
    }
}

/// The size of each component, by component number.
pub open spec fn component_sizes(ids: Seq<usize>, count: nat) -> Seq<usize> {
    Seq::new(count, |c: int| count_id(ids, c) as usize)
}

pub open spec fn sorted_desc(s: Seq<usize>) -> bool {
    forall|i: int, j: int| 0 <= i < j < s.len() ==> s[i] >= s[j]
}

/// The `k` largest entries of `sizes`, largest first.
pub open spec fn is_top(r: Seq<usize>, sizes: Seq<usize>, k: nat) -> bool {
    exists|s: Seq<usize>|
        #[trigger] sorted_desc(s) && s.to_multiset() == sizes.to_multiset() && r == s.take(
            if sizes.len() < k { sizes.len() as int } else { k as int },
        )
}

proof fn lemma_count_id_bound(ids: Seq<usize>, c: int)
    ensures
        count_id(ids, c) <= ids.len(),
    decreases ids.len(),
{
    if ids.len() > 0 {
        lemma_count_id_bound(ids.drop_last(), c);
    }
}

/// Sorts `a` from largest to smallest by insertion.
fn sort_desc(a: &mut Vec<usize>)
    ensures
        sorted_desc(final(a)@),
        final(a)@.to_multiset() == old(a)@.to_multiset(),
        final(a)@.len() == old(a)@.len(),
{
    let n = a.len();
    if n == 0 {
        return;
    }
    let mut i: usize = 1;
    while i < n
        invariant
            1 <= i <= n,
            n == a@.len(),
            a@.to_multiset() == old(a)@.to_multiset(),
            forall|k1: int, k2: int| 0 <= k1 < k2 < i ==> a@[k1] >= a@[k2],
        decreases n - i,
    {
        let mut j: usize = i;
        while j > 0 && a[j - 1] < a[j]
            invariant
                0 <= j <= i < n,
                n == a@.len(),
                a@.to_multiset() == old(a)@.to_multiset(),
                forall|k1: int, k2: int| 0 <= k1 < k2 <= i && k1 != j && k2 != j ==> a@[k1] >= a@[k2],
                forall|k: int| j < k <= i ==> a@[j as int] >= a@[k],
            decreases j,
        {
            let x = a[j];
            let y = a[j - 1];
            let ghost a0 = a@;
            a.set(j - 1, x);
            a.set(j, y);
            proof {
                assert(a@ == a0.update(j - 1, x).update(j as int, y));
                vstd::seq_lib::to_multiset_update(a0, j - 1, x);
                vstd::seq_lib::to_multiset_update(a0.update(j - 1, x), j as int, y);
                assert(a0.update(j - 1, x)[j as int] == x);
                assert(a0[j - 1] == y);
                assert(a0.contains(y));
                assert(a0.to_multiset().count(y) > 0);
                assert(a@.to_multiset() =~= a0.to_multiset());
            }
            j = j - 1;
        }
        i = i + 1;
    }
}

impl KosarajuSharirSCC {
    /// The sizes of the five largest components, largest first.
    pub fn week4_programming_assignment(&self) -> (r: Vec<usize>)
        requires
            self.wf(),
        ensures
            is_top(r@, component_sizes(self.ids(), self.spec_count()), 5),
    {
        let ghost ids = self.ids();
        let ghost n = ids.len();
        let mut counter: Vec<usize> = Vec::new();
        let mut c: usize = 0;
        while c < self.count
            invariant
                c <= self.count,
                counter@.len() == c,
                forall|k: int| 0 <= k < c ==> #[trigger] counter@[k] == 0,
            decreases self.count - c,
        {
            counter.push(0);
            c = c + 1;
        }
        let mut v: usize = 0;
        while v < self.id.len()
            invariant
                self.wf(),
                ids == self.ids(),
                n == self.id@.len(),
                v <= n,
                counter@.len() == self.count,
                forall|k: int| 0 <= k < self.count ==> #[trigger] counter@[k] == count_id(ids.take(v as int), k),
            decreases n - v,
        {
            let k = match self.id[v] {
                Some(k) => k,
                None => 0,
            };
            proof {
                assert(ids[v as int] == k);
                assert(k < self.count);
                assert(ids.take(v + 1).drop_last() =~= ids.take(v as int));
                lemma_count_id_bound(ids.take(v as int), k as int);
            }
            counter.set(k, counter[k] + 1);
            v = v + 1;
        }
        proof {
            assert(ids.take(v as int) =~= ids);
            assert(counter@ =~= component_sizes(ids, self.count as nat));
        }
        let ghost sizes = counter@;
        sort_desc(&mut counter);
        let mut res: Vec<usize> = Vec::new();
        let mut t: usize = 0;
        while t < counter.len() && t < 5
            invariant
                t <= counter@.len(),
                t <= 5,
                res@ == counter@.take(t as int),
            decreases 5 - t,
        {
            res.push(counter[t]);
            t = t + 1;
            assert(res@ =~= counter@.take(t as int));
        }
        proof {
            let k: int = if sizes.len() < 5 { sizes.len() as int } else { 5 };
            assert(t == k);
            assert(sorted_desc(counter@) && counter@.to_multiset() == sizes.to_multiset() && res@ == counter@.take(k));
        }
        res
    }
}


proof fn lemma_count_id_same(ids_a: Seq<usize>, ids_b: Seq<usize>, c: int, d: int)
    requires
        ids_a.len() == ids_b.len(),
        forall|v: int| 0 <= v < ids_a.len() ==> (ids_a[v] == c <==> #[trigger] ids_b[v] == d),
    ensures
        count_id(ids_a, c) == count_id(ids_b, d),
    decreases ids_a.len(),
{
    if ids_a.len() > 0 {
        let l = ids_a.len() - 1;
        assert(ids_a[l] == c <==> ids_b[l] == d);
        assert forall|v: int| 0 <= v < ids_a.drop_last().len() implies (ids_a.drop_last()[v] == c <==> #[trigger] ids_b.drop_last()[v] == d) by {
            assert(ids_a[v] == c <==> ids_b[v] == d);
        }
        lemma_count_id_same(ids_a.drop_last(), ids_b.drop_last(), c, d);
    }
}

/// Two sequences that a pair of inverse maps matches entry for entry hold
/// the same multiset.
proof fn lemma_matched_multiset(
    n: nat,
    m: nat,
    f: spec_fn(int) -> usize,
    g: spec_fn(int) -> usize,
    phi: spec_fn(int) -> int,
    psi: spec_fn(int) -> int,
)
    requires
        forall|c: int| 0 <= c < n ==> 0 <= #[trigger] phi(c) < m && psi(phi(c)) == c && g(phi(c)) == f(c),
        forall|d: int| 0 <= d < m ==> 0 <= #[trigger] psi(d) < n && phi(psi(d)) == d,
    ensures
        Seq::new(n, f).to_multiset() == Seq::new(m, g).to_multiset(),
    decreases n,
{
    let s = Seq::new(n, f);
    let t = Seq::new(m, g);
    if n == 0 {
        if m > 0 {
            assert(0 <= psi(0) < n);
        }
        assert(t =~= Seq::<usize>::empty());
        assert(s =~= Seq::<usize>::empty());
    } else {
        let c = n - 1;
        let k = phi(c);
        let phi2 = |x: int| if phi(x) < k { phi(x) } else { phi(x) - 1 };
        let psi2 = |y: int| if y < k { psi(y) } else { psi(y + 1) };
        let g2 = |y: int| if y < k { g(y) } else { g(y + 1) };
        assert forall|x: int| 0 <= x < n - 1 implies 0 <= #[trigger] phi2(x) < m - 1 && psi2(phi2(x)) == x && g2(phi2(x)) == f(x) by {
            assert(phi(x) != k) by {
                if phi(x) == k {
                    assert(psi(phi(x)) == x);
                }
            }
        }
        assert forall|y: int| 0 <= y < m - 1 implies 0 <= #[trigger] psi2(y) < n - 1 && phi2(psi2(y)) == y by {
            let y2 = if y < k { y } else { y + 1 };
            assert(phi(psi(y2)) == y2);
            assert(psi(y2) != c);
        }
        lemma_matched_multiset((n - 1) as nat, (m - 1) as nat, f, g2, phi2, psi2);
        assert(s.drop_last() =~= Seq::new((n - 1) as nat, f));
        assert(t.remove(k) =~= Seq::new((m - 1) as nat, g2));
        assert(s =~= s.drop_last().push(f(c)));
        vstd::seq_lib::to_multiset_remove(t, k);
        assert(t[k] == f(c));
        assert(t.contains(f(c)));
        assert(t.to_multiset() =~= t.remove(k).to_multiset().insert(f(c)));
    }
}

/// Sorted sequences with the same entries are equal.
proof fn lemma_sorted_desc_unique(s: Seq<usize>, t: Seq<usize>)
    requires
        sorted_desc(s),
        sorted_desc(t),
        s.to_multiset() == t.to_multiset(),
    ensures
        s == t,
    decreases s.len(),
{
    assert(s.len() == t.len()) by {
        assert(s.to_multiset().len() == s.len());
        assert(t.to_multiset().len() == t.len());
    }
    if s.len() > 0 {
        assert(t.contains(s[0])) by {
            assert(s.contains(s[0]));
            assert(s.to_multiset().count(s[0]) > 0);
        }
        assert(s.contains(t[0])) by {
            assert(t.contains(t[0]));
            assert(t.to_multiset().count(t[0]) > 0);
        }
        let i = choose|i: int| 0 <= i < t.len() && t[i] == s[0];
        let j = choose|j: int| 0 <= j < s.len() && s[j] == t[0];
        assert(t[0] >= t[i]);
        assert(s[0] >= s[j]);
        assert(s[0] == t[0]);
        vstd::seq_lib::to_multiset_remove(s, 0);
        vstd::seq_lib::to_multiset_remove(t, 0);
        assert(s.remove(0) =~= s.drop_first());
        assert(t.remove(0) =~= t.drop_first());
        lemma_sorted_desc_unique(s.drop_first(), t.drop_first());
        assert(s =~= t) by {
            assert forall|k: int| 0 <= k < s.len() implies s[k] == t[k] by {
                if k > 0 {
                    assert(s[k] == s.drop_first()[k - 1]);
                    assert(t[k] == t.drop_first()[k - 1]);
                }
            }
        }
    }
}

/// The sizes of the five largest strongly connected components do not
/// depend on the order in which the edges were added: graphs with the same
/// edge multiset give the same list.
pub proof fn lemma_top_sizes_ignore_edge_order(
    a: Seq<Seq<usize>>,
    b: Seq<Seq<usize>>,
    ids_a: Seq<usize>,
    roots_a: Seq<usize>,
    ca: nat,
    ids_b: Seq<usize>,
    roots_b: Seq<usize>,
    cb: nat,
    r1: Seq<usize>,
    r2: Seq<usize>,
)
    requires
        same_edges(a, b),
        a.len() <= usize::MAX,
        scc_ok(a, ids_a, roots_a, ca),
        scc_ok(b, ids_b, roots_b, cb),
        is_top(r1, component_sizes(ids_a, ca), 5),
        is_top(r2, component_sizes(ids_b, cb), 5),
    ensures
        r1 == r2,
{
    lemma_scc_numbering(a, ids_a, roots_a, ca);
    lemma_scc_numbering(b, ids_b, roots_b, cb);
    lemma_components_ignore_edge_order(a, b, ids_a, ids_b);
    let n = a.len();
    let phi = |c: int| ids_b[roots_a[c] as int] as int;
    let psi = |d: int| ids_a[roots_b[d] as int] as int;
    let f = |c: int| count_id(ids_a, c) as usize;
    let g = |d: int| count_id(ids_b, d) as usize;
    assert forall|c: int| 0 <= c < ca implies 0 <= #[trigger] phi(c) < cb && psi(phi(c)) == c && g(phi(c)) == f(c) by {
        let x = roots_a[c] as int;
        assert(ids_a[x] == c);
        let d = ids_b[x] as int;
        assert(d < cb);
        let y = roots_b[d] as int;
        assert(ids_b[y] == d);
        assert(ids_a[y] == ids_a[x]);
        assert forall|v: int| 0 <= v < ids_a.len() implies (ids_a[v] == c <==> #[trigger] ids_b[v] == d) by {
            assert(ids_a[v] == ids_a[x] <==> ids_b[v] == ids_b[x]);
        }
        lemma_count_id_same(ids_a, ids_b, c, d);
    }
    assert forall|d: int| 0 <= d < cb implies 0 <= #[trigger] psi(d) < ca && phi(psi(d)) == d by {
        let y = roots_b[d] as int;
        assert(ids_b[y] == d);
        let c = ids_a[y] as int;
        assert(c < ca);
        let x = roots_a[c] as int;
        assert(ids_a[x] == c);
        assert(ids_b[x] == ids_b[y]);
    }
    lemma_matched_multiset(ca, cb, f, g, phi, psi);
    assert(component_sizes(ids_a, ca) =~= Seq::new(ca, f));
    assert(component_sizes(ids_b, cb) =~= Seq::new(cb, g));
    let sa = component_sizes(ids_a, ca);
    let sb = component_sizes(ids_b, cb);
    assert(sa.len() == sb.len()) by {
        assert(sa.to_multiset().len() == sa.len());
        assert(sb.to_multiset().len() == sb.len());
    }
    let s1 = choose|s: Seq<usize>|
        #[trigger] sorted_desc(s) && s.to_multiset() == sa.to_multiset() && r1 == s.take(
            if sa.len() < 5 { sa.len() as int } else { 5 },
        );
    let s2 = choose|s: Seq<usize>|
        #[trigger] sorted_desc(s) && s.to_multiset() == sb.to_multiset() && r2 == s.take(
            if sb.len() < 5 { sb.len() as int } else { 5 },
        );
    lemma_sorted_desc_unique(s1, s2);
}

} // verus!
