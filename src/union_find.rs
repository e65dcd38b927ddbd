use vstd::prelude::*;

verus! {

/// Number of entries that point to themselves.
pub open spec fn fixed_count(id: Seq<usize>) -> nat
    decreases id.len(),
{
    if id.len() == 0 {
        0
    } else {
        fixed_count(id.drop_last()) + if id.last() == (id.len() - 1) as usize { 1nat } else { 0nat }
    }
}

proof fn lemma_fixed_count_update(id: Seq<usize>, k: int, v: usize)
    requires
        0 <= k < id.len(),
    ensures
        fixed_count(id.update(k, v)) + (if id[k] == k as usize { 1int } else { 0int })
            == fixed_count(id) + (if v == k as usize { 1int } else { 0int }),
    decreases id.len(),
{
    if k == id.len() - 1 {
        assert(id.update(k, v).drop_last() =~= id.drop_last());
    } else {
        assert(id.update(k, v).drop_last() =~= id.drop_last().update(k, v));
        lemma_fixed_count_update(id.drop_last(), k, v);
    }
}

proof fn lemma_fixed_count_bound(id: Seq<usize>)
    ensures
        fixed_count(id) <= id.len(),
    decreases id.len(),
{
    if id.len() > 0 {
        lemma_fixed_count_bound(id.drop_last());
    }
}

/// Two different fixed points make a count of at least two.
proof fn lemma_fixed_count_two(id: Seq<usize>, a: int, b: int)
    requires
        0 <= a < id.len(),
        0 <= b < id.len(),
        a != b,
        id[a] == a as usize,
        id[b] == b as usize,
    ensures
        fixed_count(id) >= 2,
    decreases id.len(),
{
    let l = id.len() - 1;
    if a == l || b == l {
        let o = if a == l { b } else { a };
        lemma_fixed_count_one(id.drop_last(), o);
    } else {
        lemma_fixed_count_two(id.drop_last(), a, b);
    }
}

proof fn lemma_fixed_count_one(id: Seq<usize>, a: int)
    requires
        0 <= a < id.len(),
        id[a] == a as usize,
    ensures
        fixed_count(id) >= 1,
    decreases id.len(),
{
    if a < id.len() - 1 {
        lemma_fixed_count_one(id.drop_last(), a);
    }
}

proof fn lemma_fixed_count_all(n: nat)
    ensures
        fixed_count(Seq::new(n, |i: int| i as usize)) == n,
    decreases n,
{
    if n > 0 {
        assert(Seq::new(n, |i: int| i as usize).drop_last() =~= Seq::new((n - 1) as nat, |i: int| i as usize));
        lemma_fixed_count_all((n - 1) as nat);
    }
}

/// The partition after joining the parts with roots `a` and `b` under the
/// root `w`.
pub open spec fn merged(roots: Seq<usize>, a: usize, b: usize, w: usize) -> Seq<usize> {
    roots.map_values(|r: usize| if r == a || r == b { w } else { r })
}

/// Parent links `id` with ranks `rank` form trees whose roots are given by
/// `roots`; ranks rise towards the roots and `count` is the number of roots.
#[verifier::opaque]
spec fn uf_ok(id: Seq<usize>, rank: Seq<usize>, roots: Seq<usize>, count: nat) -> bool {
    let n = id.len();
    &&& rank.len() == n
    &&& roots.len() == n
    &&& forall|i: int| 0 <= i < n ==> #[trigger] id[i] < n && roots[i] < n
    &&& forall|i: int| 0 <= i < n ==> id[#[trigger] roots[i] as int] == roots[i]
    &&& forall|i: int| 0 <= i < n ==> roots[#[trigger] id[i] as int] == roots[i]
    &&& forall|i: int| 0 <= i < n && id[i] == i ==> #[trigger] roots[i] == i
    &&& forall|i: int| 0 <= i < n && id[i] != i ==> #[trigger] rank[i] < rank[id[i] as int]
    &&& count == fixed_count(id)
    &&& forall|i: int| 0 <= i < n ==> #[trigger] rank[i] + count <= n
}

proof fn lemma_union_ok(id: Seq<usize>, rank: Seq<usize>, roots: Seq<usize>, count: nat, win: usize, lose: usize, new_rank: Seq<usize>)
    requires
        uf_ok(id, rank, roots, count),
        id.len() <= usize::MAX,
        win < id.len(),
        lose < id.len(),
        win != lose,
        id[win as int] == win,
        id[lose as int] == lose,
        rank[lose as int] <= rank[win as int],
        rank[lose as int] == rank[win as int] ==> new_rank == rank.update(win as int, (rank[win as int] + 1) as usize),
        rank[lose as int] < rank[win as int] ==> new_rank == rank,
    ensures
        count >= 2,
        uf_ok(id.update(lose as int, win), new_rank, merged(roots, win, lose, win), (count - 1) as nat),
{
    reveal(uf_ok);
    let n = id.len();
    lemma_fixed_count_two(id, win as int, lose as int);
    lemma_fixed_count_bound(id);
    lemma_fixed_count_update(id, lose as int, win);
    let id2 = id.update(lose as int, win);
    let r2 = merged(roots, win, lose, win);
    assert(roots[win as int] == win && roots[lose as int] == lose);
    assert forall|x: int| 0 <= x < n implies #[trigger] id2[x] < n && r2[x] < n by {}
    assert forall|x: int| 0 <= x < n implies id2[#[trigger] r2[x] as int] == r2[x] by {
        assert(id[roots[x] as int] == roots[x]);
    }
    assert forall|x: int| 0 <= x < n implies r2[#[trigger] id2[x] as int] == r2[x] by {
        if x != lose {
            assert(roots[id[x] as int] == roots[x]);
        }
    }
    assert forall|x: int| 0 <= x < n && id2[x] == x implies #[trigger] r2[x] == x by {
        assert(roots[x] == x);
    }
    assert forall|x: int| 0 <= x < n && id2[x] != x implies #[trigger] new_rank[x] < new_rank[id2[x] as int] by {
        if x != lose {
            assert(id2[x] == id[x]);
            assert(x != win);
            assert(new_rank[x] == rank[x]);
            assert(rank[x] < rank[id[x] as int]);
            assert(rank[id[x] as int] <= new_rank[id[x] as int]);
        } else {
            assert(new_rank[lose as int] == rank[lose as int]);
        }
    }
    assert forall|x: int| 0 <= x < n implies #[trigger] new_rank[x] + (count - 1) <= n by {
        assert(rank[x] + count <= n);
        assert(rank[win as int] + count <= n);
    }
}

proof fn lemma_root_facts(id: Seq<usize>, rank: Seq<usize>, roots: Seq<usize>, count: nat, p: int, q: int)
    requires
        uf_ok(id, rank, roots, count),
        0 <= p < roots.len(),
        0 <= q < roots.len(),
    ensures
        rank.len() == id.len(),
        roots.len() == id.len(),
        roots[p] < id.len(),
        roots[q] < id.len(),
        id[roots[p] as int] == roots[p],
        id[roots[q] as int] == roots[q],
        rank[roots[p] as int] + count <= id.len(),
        rank[roots[q] as int] + count <= id.len(),
        roots[p] != roots[q] ==> count >= 2,
{
    reveal(uf_ok);
    if roots[p] != roots[q] {
        lemma_fixed_count_two(id, roots[p] as int, roots[q] as int);
    }
}

/// Union-find with union by rank and path halving.
pub struct UnionFind {
    id: Vec<usize>,
    /// an upper bound on the height of the tree under each root
    rank: Vec<usize>,
    count: usize,
    roots: Ghost<Seq<usize>>,
}

impl UnionFind {
    /// The root of the part of each site.
    pub closed spec fn roots(&self) -> Seq<usize> {
        self.roots@
    }

    pub closed spec fn spec_count(&self) -> nat {
        self.count as nat
    }

    pub closed spec fn wf(&self) -> bool {
        uf_ok(self.id@, self.rank@, self.roots@, self.count as nat)
    }

    /// Every site's root is a site and is its own root.
    pub proof fn lemma_roots(&self)
        requires
            self.wf(),
        ensures
            forall|i: int| 0 <= i < self.roots().len() ==> #[trigger] self.roots()[i] < self.roots().len()
                && self.roots()[self.roots()[i] as int] == self.roots()[i],
    {
        reveal(uf_ok);
        assert forall|i: int| 0 <= i < self.roots().len() implies #[trigger] self.roots()[i] < self.roots().len()
            && self.roots()[self.roots()[i] as int] == self.roots()[i] by {
            assert(self.id@[self.roots@[i] as int] == self.roots@[i]);
        }
    }

    /// `n` sites, each alone in its part.
    pub fn new(n: usize) -> (r: UnionFind)
        ensures
            r.wf(),
            r.roots() == Seq::new(n as nat, |i: int| i as usize),
            r.spec_count() == n,
    {
        let mut id: Vec<usize> = Vec::new();
        let mut rank: Vec<usize> = Vec::new();
        let mut i: usize = 0;
        while i < n
            invariant
                i <= n,
                id@ == Seq::new(i as nat, |k: int| k as usize),
                rank@.len() == i,
                forall|k: int| 0 <= k < i ==> #[trigger] rank@[k] == 0,
            decreases n - i,
        {
            id.push(i);
            rank.push(0);
            i = i + 1;
            assert(id@ =~= Seq::new(i as nat, |k: int| k as usize));
        }
        proof {
            lemma_fixed_count_all(n as nat);
            reveal(uf_ok);
        }
        UnionFind { id, rank, count: n, roots: Ghost(Seq::new(n as nat, |k: int| k as usize)) }
    }

    /// The root of the part of `p`; halves the path on the way.
    pub fn find(&mut self, p: usize) -> (r: usize)
        requires
            old(self).wf(),
            p < old(self).roots().len(),
        ensures
            final(self).wf(),
            final(self).roots() == old(self).roots(),
            final(self).spec_count() == old(self).spec_count(),
            r == old(self).roots()[p as int],
    {
        proof {
            reveal(uf_ok);
        }
        let ghost n = self.id@.len();
        let ghost p0 = p;
        let mut p = p;
        while p != self.id[p]
            invariant
                self.wf(),
                n == self.id@.len(),
                self.roots@ == old(self).roots@,
                self.count == old(self).count,
                p < n,
                self.roots@[p as int] == old(self).roots@[p0 as int],
            decreases usize::MAX - self.rank@[p as int],
        {
            proof {
                reveal(uf_ok);
            }
            let q = self.id[p];
            let g = self.id[q];
            proof {
                assert(self.rank@[p as int] < self.rank@[q as int]);
                if q != g {
                    assert(self.rank@[q as int] < self.rank@[g as int]);
                }
                assert(g != p);
                lemma_fixed_count_update(self.id@, p as int, g);
            }
            self.id.set(p, g);
            p = g;
            proof {
                reveal(uf_ok);
            }
        }
        proof {
            reveal(uf_ok);
            assert(self.roots@[p as int] == p);
        }
        p
    }

    /// Number of parts.
    pub fn count(&self) -> (r: usize)
        ensures
            r == self.spec_count(),
    {
        self.count
    }

    /// Are the two sites p and q in the same component?
    pub fn connected(&mut self, p: usize, q: usize) -> (r: bool)
        requires
            old(self).wf(),
            p < old(self).roots().len(),
            q < old(self).roots().len(),
        ensures
            final(self).wf(),
            final(self).roots() == old(self).roots(),
            final(self).spec_count() == old(self).spec_count(),
            r == (old(self).roots()[p as int] == old(self).roots()[q as int]),
    {
        self.find(p) == self.find(q)
    }

    /// Joins the parts of `p` and `q`.
    #[verifier::rlimit(60)]
    pub fn union(&mut self, p: usize, q: usize)
        requires
            old(self).wf(),
            p < old(self).roots().len(),
            q < old(self).roots().len(),
        ensures
            final(self).wf(),
            ({
                let a = old(self).roots()[p as int];
                let b = old(self).roots()[q as int];
                &&& (final(self).roots() == merged(old(self).roots(), a, b, a) || final(self).roots() == merged(
                    old(self).roots(),
                    a,
                    b,
                    b,
                ))
                &&& final(self).spec_count() == old(self).spec_count() - if a == b { 0int } else { 1int }
            }),
    {
        let ghost r0 = self.roots@;
        let i = self.find(p);
        let j = self.find(q);
        if i == j {
            proof {
                assert(self.roots@ =~= merged(r0, i, j, i));
            }
            return;
        }
        proof {
            lemma_root_facts(self.id@, self.rank@, self.roots@, self.count as nat, p as int, q as int);
        }
        let (win, lose) = if self.rank[i] < self.rank[j] {
            (j, i)
        } else {
            (i, j)
        };
        let equal = self.rank[i] == self.rank[j];
        let _n_ids = self.id.len();
        let ghost id0 = self.id@;
        let ghost rank0 = self.rank@;
        let ghost count0 = self.count;

        self.id.set(lose, win);
        if equal {
            self.rank.set(win, self.rank[win] + 1);
        }
        proof {
            lemma_union_ok(id0, rank0, r0, count0 as nat, win, lose, self.rank@);
        }
        self.count = self.count - 1;
        self.roots = Ghost(merged(r0, win, lose, win));
        proof {
            assert(merged(r0, win, lose, win) =~= merged(r0, i, j, win));
        }
    }
}

/// Parent links `id` form trees whose roots are given by `roots`; the ghost
/// heights `h` rise along every link and `count` is the number of roots.
#[verifier::opaque]
spec fn qu_ok(id: Seq<usize>, h: Seq<nat>, roots: Seq<usize>, count: nat) -> bool {
    let n = id.len();
    &&& h.len() == n
    &&& roots.len() == n
    &&& forall|i: int| 0 <= i < n ==> #[trigger] id[i] < n && roots[i] < n
    &&& forall|i: int| 0 <= i < n ==> id[#[trigger] roots[i] as int] == roots[i]
    &&& forall|i: int| 0 <= i < n ==> roots[#[trigger] id[i] as int] == roots[i]
    &&& forall|i: int| 0 <= i < n && id[i] == i ==> #[trigger] roots[i] == i
    &&& forall|i: int| 0 <= i < n && id[i] != i ==> #[trigger] h[i] < h[id[i] as int]
    &&& forall|i: int| 0 <= i < n && id[i] != i ==> #[trigger] h[i] < h[roots[i] as int]
    &&& count == fixed_count(id)
}

/// Pointing a non-root straight at its root keeps the trees well formed.
proof fn lemma_compress(id: Seq<usize>, h: Seq<nat>, roots: Seq<usize>, count: nat, q: int)
    requires
        qu_ok(id, h, roots, count),
        0 <= q < id.len(),
        id.len() <= usize::MAX,
        roots.len() == id.len(),
        roots[q] != q,
    ensures
        qu_ok(id.update(q, roots[q]), h, roots, count),
        id[q] != q,
        id[q] < id.len(),
        roots[id[q] as int] == roots[q],
        id[q] == roots[q] || h[id[q] as int] < h[roots[q] as int],
        h[q] < h[id[q] as int],
        id.len() == roots.len(),
{
    reveal(qu_ok);
    assert(id[q] != q);
    let nx = id[q] as int;
    if id[nx] == nx {
        assert(roots[nx] == nx);
    }
    lemma_fixed_count_update(id, q, roots[q]);
    let id2 = id.update(q, roots[q]);
    assert(roots[q] != q);
    assert forall|i: int| 0 <= i < id.len() implies roots[#[trigger] id2[i] as int] == roots[i] by {
        if i == q {
            assert(id[roots[q] as int] == roots[q]);
        }
    }
    let n = id.len();
    assert forall|i: int| 0 <= i < n implies #[trigger] id2[i] < n && roots[i] < n by {}
    assert forall|i: int| 0 <= i < n implies id2[#[trigger] roots[i] as int] == roots[i] by {
        assert(id[roots[i] as int] == roots[i]);
    }
    assert forall|i: int| 0 <= i < n && id2[i] == i implies #[trigger] roots[i] == i by {
        if i != q {
            assert(id[i] == i);
        }
    }
    assert forall|i: int| 0 <= i < n && id2[i] != i implies #[trigger] h[i] < h[id2[i] as int] by {
        if i != q {
            assert(h[i] < h[id[i] as int]);
        } else {
            assert(h[q] < h[roots[q] as int]);
        }
    }
    assert forall|i: int| 0 <= i < n && id2[i] != i implies #[trigger] h[i] < h[roots[i] as int] by {
        if i != q {
            assert(id[i] != i);
        }
    }
    assert(roots[q] != q as usize);
    assert(id[q] != q as usize);
    assert(fixed_count(id2) == count);
}

proof fn lemma_qu_root_facts(id: Seq<usize>, h: Seq<nat>, roots: Seq<usize>, count: nat, p: int, q: int)
    requires
        qu_ok(id, h, roots, count),
        0 <= p < roots.len(),
        0 <= q < roots.len(),
    ensures
        roots.len() == id.len(),
        h.len() == id.len(),
        roots[p] < id.len(),
        roots[q] < id.len(),
        id[roots[p] as int] == roots[p],
        id[roots[q] as int] == roots[q],
        roots[p] != roots[q] ==> count >= 2,
{
    reveal(qu_ok);
    if roots[p] != roots[q] {
        lemma_fixed_count_two(id, roots[p] as int, roots[q] as int);
    }
}

/// Hanging root `a` below root `b` keeps the trees well formed.
proof fn lemma_qu_union(id: Seq<usize>, h: Seq<nat>, roots: Seq<usize>, count: nat, a: usize, b: usize)
    requires
        qu_ok(id, h, roots, count),
        id.len() <= usize::MAX,
        a < id.len(),
        b < id.len(),
        a != b,
        id[a as int] == a,
        id[b as int] == b,
        count >= 2,
    ensures
        qu_ok(
            id.update(a as int, b),
            h.update(b as int, if h[b as int] > h[a as int] { h[b as int] } else { h[a as int] + 1 }),
            merged(roots, a, b, b),
            (count - 1) as nat,
        ),
{
    reveal(qu_ok);
    let n = id.len();
    lemma_fixed_count_update(id, a as int, b);
    let id2 = id.update(a as int, b);
    let hb = if h[b as int] > h[a as int] { h[b as int] } else { h[a as int] + 1 };
    let h2 = h.update(b as int, hb);
    let r2 = merged(roots, a, b, b);
    assert(roots[a as int] == a && roots[b as int] == b);
    assert forall|x: int| 0 <= x < n implies #[trigger] id2[x] < n && r2[x] < n by {}
    assert forall|x: int| 0 <= x < n implies id2[#[trigger] r2[x] as int] == r2[x] by {
        assert(id[roots[x] as int] == roots[x]);
    }
    assert forall|x: int| 0 <= x < n implies r2[#[trigger] id2[x] as int] == r2[x] by {
        if x != a {
            assert(roots[id[x] as int] == roots[x]);
        }
    }
    assert forall|x: int| 0 <= x < n && id2[x] == x implies #[trigger] r2[x] == x by {
        assert(roots[x] == x);
    }
    assert forall|x: int| 0 <= x < n && id2[x] != x implies #[trigger] h2[x] < h2[id2[x] as int] by {
        if x != a {
            assert(h[x] < h[id[x] as int]);
            assert(x != b);
        }
    }
    assert forall|x: int| 0 <= x < n && id2[x] != x implies #[trigger] h2[x] < h2[r2[x] as int] by {
        if x != a {
            assert(x != b);
            assert(h[x] < h[roots[x] as int]);
            if roots[x] == a {
                assert(h[x] < h[a as int]);
            }
        }
    }
}

/// Quick-union with full path compression.
pub struct QuickUnionPathCompressionUF {
    /// id[i] = parent of i
    id: Vec<usize>,
    /// number of components
    count: usize,
    height: Ghost<Seq<nat>>,
    roots: Ghost<Seq<usize>>,
}

impl QuickUnionPathCompressionUF {
    /// The root of the part of each site.
    pub closed spec fn roots(&self) -> Seq<usize> {
        self.roots@
    }

    pub closed spec fn spec_count(&self) -> nat {
        self.count as nat
    }

    pub closed spec fn wf(&self) -> bool {
        qu_ok(self.id@, self.height@, self.roots@, self.count as nat)
    }

    /// Every site's root is a site and is its own root.
    pub proof fn lemma_roots(&self)
        requires
            self.wf(),
        ensures
            forall|i: int| 0 <= i < self.roots().len() ==> #[trigger] self.roots()[i] < self.roots().len()
                && self.roots()[self.roots()[i] as int] == self.roots()[i],
    {
        reveal(qu_ok);
        assert forall|i: int| 0 <= i < self.roots().len() implies #[trigger] self.roots()[i] < self.roots().len()
            && self.roots()[self.roots()[i] as int] == self.roots()[i] by {
            assert(self.id@[self.roots@[i] as int] == self.roots@[i]);
        }
    }

    /// Initializes an empty union-find data structure with n isolated components 0 through n-1.
    pub fn new(n: usize) -> (r: Self)
        ensures
            r.wf(),
            r.roots() == Seq::new(n as nat, |i: int| i as usize),
            r.spec_count() == n,
    {
        let mut id: Vec<usize> = Vec::new();
        let mut i: usize = 0;
        while i < n
            invariant
                i <= n,
                id@ == Seq::new(i as nat, |k: int| k as usize),
            decreases n - i,
        {
            id.push(i);
            i = i + 1;
            assert(id@ =~= Seq::new(i as nat, |k: int| k as usize));
        }
        proof {
            lemma_fixed_count_all(n as nat);
            reveal(qu_ok);
        }
        QuickUnionPathCompressionUF {
            id,
            count: n,
            height: Ghost(Seq::new(n as nat, |k: int| 0nat)),
            roots: Ghost(Seq::new(n as nat, |k: int| k as usize)),
        }
    }

    /// Returns the number of components.
    pub fn count(&self) -> (r: usize)
        ensures
            r == self.spec_count(),
    {
        self.count
    }

    /// Returns the component identifier for the component containing site p.
    pub fn find(&mut self, p: usize) -> (r: usize)
        requires
            old(self).wf(),
            p < old(self).roots().len(),
        ensures
            final(self).wf(),
            final(self).roots() == old(self).roots(),
            final(self).spec_count() == old(self).spec_count(),
            r == old(self).roots()[p as int],
    {
        proof {
            reveal(qu_ok);
        }
        let ghost n = self.id@.len();
        let mut root = p;
        while root != self.id[root]
            invariant
                self.wf(),
                n == self.id@.len(),
                self.roots@ == old(self).roots@,
                self.count == old(self).count,
                root < n,
                self.roots@[root as int] == old(self).roots@[p as int],
                self.roots@.len() == n,
                self.height@.len() == n,
                root == self.roots@[root as int] || self.height@[root as int] < self.height@[self.roots@[root as int] as int],
            decreases self.height@[self.roots@[root as int] as int] - self.height@[root as int],
        {
            proof {
                reveal(qu_ok);
                let nx = self.id@[root as int] as int;
                assert(self.height@[root as int] < self.height@[nx]);
                assert(self.roots@[nx] == self.roots@[root as int]);
                if self.id@[nx] == nx {
                    assert(self.roots@[nx] == nx);
                }
            }
            root = self.id[root];
        }
        proof {
            reveal(qu_ok);
            assert(self.roots@[p as int] == root);
            if p != root {
                assert(self.id@[p as int] != p);
            }
        }
        let _len = self.id.len();
        let mut q = p;
        while q != root
            invariant
                self.wf(),
                n == self.id@.len(),
                n <= usize::MAX,
                self.roots@ == old(self).roots@,
                self.count == old(self).count,
                q < n,
                root < n,
                self.roots@[q as int] == root,
                self.roots@.len() == n,
                self.height@.len() == n,
                q == root || self.height@[q as int] < self.height@[root as int],
            decreases self.height@[root as int] - self.height@[q as int],
        {
            proof {
                lemma_compress(self.id@, self.height@, self.roots@, self.count as nat, q as int);
            }
            let newp = self.id[q];
            self.id.set(q, root);
            q = newp;
        }
        root
    }

    /// Returns true if the the two sites are in the same component.
    pub fn connected(&mut self, p: usize, q: usize) -> (r: bool)
        requires
            old(self).wf(),
            p < old(self).roots().len(),
            q < old(self).roots().len(),
        ensures
            final(self).wf(),
            final(self).roots() == old(self).roots(),
            final(self).spec_count() == old(self).spec_count(),
            r == (old(self).roots()[p as int] == old(self).roots()[q as int]),
    {
        self.find(p) == self.find(q)
    }
}

impl QuickUnionPathCompressionUF {
    /// Merges the component containing site p with the component
    /// containing site q.
    pub fn union(&mut self, p: usize, q: usize)
        requires
            old(self).wf(),
            p < old(self).roots().len(),
            q < old(self).roots().len(),
        ensures
            final(self).wf(),
            ({
                let a = old(self).roots()[p as int];
                let b = old(self).roots()[q as int];
                &&& final(self).roots() == merged(old(self).roots(), a, b, b)
                &&& final(self).spec_count() == old(self).spec_count() - if a == b { 0int } else { 1int }
            }),
    {
        let ghost r0 = self.roots@;
        let root_p = self.find(p);
        let root_q = self.find(q);
        proof {
            lemma_qu_root_facts(self.id@, self.height@, self.roots@, self.count as nat, p as int, q as int);
        }
        if root_p != root_q {
            let _len = self.id.len();
            proof {
                lemma_qu_union(self.id@, self.height@, self.roots@, self.count as nat, root_p, root_q);
            }
            let ghost h = self.height@;
            self.id.set(root_p, root_q);
            self.count = self.count - 1;
            self.height = Ghost(h.update(root_q as int, if h[root_q as int] > h[root_p as int] { h[root_q as int] } else { h[root_p as int] + 1 }));
            self.roots = Ghost(merged(r0, root_p, root_q, root_q));
        } else {
            proof {
                assert(self.roots@ =~= merged(r0, root_p, root_q, root_q));
            }
        }
    }
}

/// Number of one bits among the `k` lowest bits of `x`.
pub open spec fn ones_below(x: u32, k: nat) -> nat
    decreases k,
{
    if k == 0 {
        0
    } else {
        ones_below(x, (k - 1) as nat) + ((x >> ((k - 1) as u32)) & 1) as nat
    }
}

/// Number of bit positions in which `a` and `b` differ.
pub fn hamming_distance(a: u32, b: u32) -> (r: u32)
    ensures
        r == ones_below(a ^ b, 32),
{
    let x = a ^ b;
    let mut c: u32 = 0;
    let mut i: u32 = 0;
    while i < 32
        invariant
            i <= 32,
            c <= i,
            c == ones_below(x, i as nat),
        decreases 32 - i,
    {
        let bit = (x >> i) & 1;
        assert(bit <= 1) by (bit_vector)
            requires bit == (x >> i) & 1;
        c = c + bit;
        i = i + 1;
    }
    c
}

} // verus!
