use vstd::prelude::*;
use vstd::string::StringExecFns;
use crate::digraph::dot_vertices;
use crate::text::{decimal, signed_decimal, push_decimal, push_signed};

verus! {

/// Slot of the parent of heap slot `k` (slots start at 1).
pub open spec fn parent(k: int) -> int {
    k / 2
}

/// `i` is present in `m` with a key no larger than any other.
pub open spec fn is_min_entry(m: Map<usize, i64>, i: usize) -> bool {
    &&& m.contains_key(i)
    &&& forall|j: usize| #[trigger] m.contains_key(j) ==> m[i] <= m[j]
}

/// A binary min-heap over the indices `0 .. nmax`, each carrying an `i64`
/// key, that can find an index's slot and change its key.
pub struct IndexMinPQ {
    nmax: usize,
    n: usize,
    /// heap slot -> index; slot 0 is unused
    pq: Vec<usize>,
    /// index -> heap slot, or `usize::MAX` when absent
    qp: Vec<usize>,
    /// index -> key, meaningful while the index is present
    keys: Vec<i64>,
}

impl IndexMinPQ {
    /// Key held in heap slot `k`.
    spec fn key_at(&self, k: int) -> i64 {
        self.keys@[self.pq@[k] as int]
    }

    /// The heap order holds on the edge that ends in slot `c`.
    spec fn edge_ok(&self, c: int) -> bool {
        self.key_at(parent(c)) <= self.key_at(c)
    }

    /// Slots and positions agree, and keys exist for the present indices.
    spec fn maps_ok(&self) -> bool {
        &&& self.nmax < usize::MAX
        &&& self.pq@.len() == self.nmax + 1
        &&& self.qp@.len() == self.nmax + 1
        &&& self.keys@.len() == self.nmax + 1
        &&& self.n <= self.nmax
        &&& forall|k: int| 1 <= k <= self.n ==> #[trigger] self.pq@[k] < self.nmax && self.qp@[self.pq@[k] as int] == k
        &&& forall|i: int|
            0 <= i < self.nmax ==> (#[trigger] self.qp@[i] == usize::MAX || (1 <= self.qp@[i] <= self.n
                && self.pq@[self.qp@[i] as int] == i))
    }

    /// Heap order on every edge, except the edges that touch slot `k`
    /// when `up`, or that leave slot `k` otherwise; the parent of `k`
    /// is never above the children of `k`.
    spec fn heap_except(&self, k: int, up: bool) -> bool {
        &&& forall|c: int|
            2 <= c <= self.n && parent(c) != k && (c != k || !up) ==> #[trigger] self.edge_ok(c)
        &&& forall|c: int|
            2 <= c <= self.n && parent(c) == k && k > 1 ==> #[trigger] self.key_at(parent(k as int))
                <= self.key_at(c)
    }

    spec fn heap_ok(&self) -> bool {
        forall|c: int| 2 <= c <= self.n ==> #[trigger] self.edge_ok(c)
    }

    pub closed spec fn wf(&self) -> bool {
        self.maps_ok() && self.heap_ok()
    }

    /// The indices that the queue holds, with their keys.
    pub closed spec fn view_map(&self) -> Map<usize, i64> {
        Map::new(
            |i: usize| i < self.nmax && self.qp@[i as int] != usize::MAX,
            |i: usize| self.keys@[i as int],
        )
    }

    /// The indices are `0 .. capacity()`.
    pub closed spec fn capacity(&self) -> nat {
        self.nmax as nat
    }

    pub fn with_capacity(nmax: usize) -> (r: IndexMinPQ)
        requires
            nmax < usize::MAX,
        ensures
            r.wf(),
            r.capacity() == nmax,
            r.view_map() == Map::<usize, i64>::empty(),
    {
        let mut pq: Vec<usize> = Vec::new();
        let mut qp: Vec<usize> = Vec::new();
        let mut keys: Vec<i64> = Vec::new();
        let mut i: usize = 0;
        while i <= nmax
            invariant
                i <= nmax + 1,
                nmax < usize::MAX,
                pq@.len() == i,
                qp@.len() == i,
                keys@.len() == i,
                forall|k: int| 0 <= k < i ==> qp@[k] == usize::MAX,
            decreases nmax + 1 - i,
        {
            pq.push(0);
            qp.push(usize::MAX);
            keys.push(0);
            i = i + 1;
        }
        let r = IndexMinPQ { nmax, n: 0, pq, qp, keys };
        assert(r.view_map() =~= Map::<usize, i64>::empty());
        r
    }

    /// The queue holds finitely many indices, all below the capacity.
    pub proof fn lemma_view_bounds(&self)
        requires
            self.wf(),
        ensures
            self.view_map().dom().finite(),
            forall|i: usize| #[trigger] self.view_map().contains_key(i) ==> i < self.capacity(),
    {
        self.lemma_len();
    }

    pub fn is_empty(&self) -> (r: bool)
        requires
            self.wf(),
        ensures
            r == (self.view_map().len() == 0),
            self.view_map().dom().finite(),
            r == (self.view_map().dom() == Set::<usize>::empty()),
    {
        proof {
            self.lemma_len();
            if self.n == 0 {
                assert(self.view_map().dom() =~= Set::<usize>::empty());
            } else {
                assert(self.view_map().contains_key(self.pq@[1]));
            }
        }
        self.n == 0
    }

    pub fn size(&self) -> (r: usize)
        requires
            self.wf(),
        ensures
            r == self.view_map().len(),
            self.view_map().dom().finite(),
    {
        proof {
            self.lemma_len();
        }
        self.n
    }

    pub fn contains(&self, i: usize) -> (r: bool)
        requires
            self.wf(),
            i < self.capacity(),
        ensures
            r == self.view_map().contains_key(i),
    {
        self.qp[i] != usize::MAX
    }

    fn greater(&self, i: usize, j: usize) -> (r: bool)
        requires
            self.maps_ok(),
            1 <= i <= self.n,
            1 <= j <= self.n,
        ensures
            r == (self.key_at(i as int) > self.key_at(j as int)),
    {
        self.keys[self.pq[i]] > self.keys[self.pq[j]]
    }

    /// Swaps the contents of slots `i` and `j`.
    fn exch(&mut self, i: usize, j: usize)
        requires
            old(self).maps_ok(),
            1 <= i <= old(self).n,
            1 <= j <= old(self).n,
        ensures
            final(self).maps_ok(),
            final(self).nmax == old(self).nmax,
            final(self).n == old(self).n,
            final(self).keys == old(self).keys,
            final(self).pq@ == old(self).pq@.update(i as int, old(self).pq@[j as int]).update(
                j as int,
                old(self).pq@[i as int],
            ),
            final(self).view_map() == old(self).view_map(),
    {
        let a = self.pq[i];
        let b = self.pq[j];
        self.pq.set(i, b);
        self.pq.set(j, a);
        self.qp.set(b, i);
        self.qp.set(a, j);
        proof {
            assert(self.view_map() =~= old(self).view_map());
        }
    }

    /// Moves the index in slot `k` up while its parent's key is larger.
    fn swim(&mut self, k: usize)
        requires
            old(self).maps_ok(),
            1 <= k <= old(self).n,
            old(self).heap_except(k as int, true),
        ensures
            final(self).maps_ok(),
            final(self).nmax == old(self).nmax,
            final(self).n == old(self).n,
            final(self).keys == old(self).keys,
            final(self).view_map() == old(self).view_map(),
            1 <= final(self).qp@[old(self).pq@[k as int] as int] <= final(self).n,
            final(self).heap_except(final(self).qp@[old(self).pq@[k as int] as int] as int, false),
            (forall|c: int|
                2 <= c <= old(self).n && parent(c) == k ==> #[trigger] old(self).edge_ok(c))
                ==> final(self).heap_ok(),
            final(self).qp@[old(self).pq@[k as int] as int] != k ==> final(self).heap_ok(),
    {
        let ghost idx = self.pq@[k as int];
        let ghost down0 = forall|c: int|
            2 <= c <= old(self).n && parent(c) == k ==> #[trigger] old(self).edge_ok(c);
        let ghost k0 = k;
        let mut k = k;
        while k > 1 && self.greater(k / 2, k)
            invariant
                self.maps_ok(),
                self.nmax == old(self).nmax,
                self.n == old(self).n,
                self.keys == old(self).keys,
                self.view_map() == old(self).view_map(),
                1 <= k <= self.n,
                self.pq@[k as int] == idx,
                self.heap_except(k as int, true),
                (down0 || k != k0) ==> forall|c: int| 2 <= c <= self.n && parent(c) == k ==> #[trigger] self.edge_ok(c),
                k <= k0,
            decreases k,
        {
            let ghost before = *self;
            let p = k / 2;
            self.exch(k, p);
            proof {
                assert forall|c: int| 2 <= c <= self.n && parent(c) != p && c != p implies #[trigger] self.edge_ok(c) by {
                    if c == k {
                    } else if parent(c) == k {
                        assert(before.key_at(parent(k as int)) <= before.key_at(c));
                    } else {
                        assert(before.edge_ok(c));
                    }
                }
                assert forall|c: int| 2 <= c <= self.n && parent(c) == p && p > 1 implies self.key_at(parent(p as int)) <= #[trigger] self.key_at(c) by {
                    assert(before.edge_ok(p as int));
                    if c != k {
                        assert(before.edge_ok(c));
                    }
                }
                assert forall|c: int| 2 <= c <= self.n && parent(c) == p implies #[trigger] self.edge_ok(c) by {
                    if c != k {
                        assert(before.edge_ok(c));
                    }
                }
            }
            k = p;
        }
        proof {
            if down0 || k != k0 {
                assert forall|c: int| 2 <= c <= self.n implies #[trigger] self.edge_ok(c) by {}
            }
        }
    }

    /// Moves the index in slot `k` down while a child has a smaller key.
    fn sink(&mut self, k: usize)
        requires
            old(self).maps_ok(),
            1 <= k <= old(self).n,
            old(self).heap_except(k as int, false),
        ensures
            final(self).maps_ok(),
            final(self).nmax == old(self).nmax,
            final(self).n == old(self).n,
            final(self).keys == old(self).keys,
            final(self).view_map() == old(self).view_map(),
            final(self).heap_ok(),
    {
        let mut k = k;
        let mut done = false;
        while !done && k <= self.n / 2
            invariant
                self.maps_ok(),
                self.nmax == old(self).nmax,
                self.n == old(self).n,
                self.keys == old(self).keys,
                self.view_map() == old(self).view_map(),
                1 <= k <= self.n,
                self.heap_except(k as int, false),
                done ==> self.heap_ok(),
            decreases self.n - k, if done { 0int } else { 1int },
        {
            let mut j = 2 * k;
            if j < self.n && self.greater(j, j + 1) {
                j = j + 1;
            }
            if !self.greater(k, j) {
                done = true;
                proof {
                    assert forall|c: int| 2 <= c <= self.n implies #[trigger] self.edge_ok(c) by {
                        if parent(c) == k {
                            assert(c == 2 * k || c == 2 * k + 1);
                        }
                    }
                }
            } else {
                let ghost before = *self;
                self.exch(k, j);
                proof {
                    assert forall|c: int| 2 <= c <= self.n && parent(c) != j implies #[trigger] self.edge_ok(c) by {
                        if c == j {
                        } else if parent(c) == k {
                            assert(c == 2 * k || c == 2 * k + 1);
                        } else if c == k {
                            assert(parent(j as int) == k as int);
                            assert(before.key_at(parent(k as int)) <= before.key_at(j as int));
                        } else {
                            assert(before.edge_ok(c));
                        }
                    }
                    assert forall|c: int| 2 <= c <= self.n && parent(c) == j && j > 1 implies self.key_at(parent(j as int)) <= #[trigger] self.key_at(c) by {
                        assert(before.edge_ok(c));
                    }
                }
                k = j;
            }
        }
        proof {
            if !done {
                assert forall|c: int| 2 <= c <= self.n implies #[trigger] self.edge_ok(c) by {}
            }
        }
    }


    /// Associates `key` with index `i`.
    pub fn insert(&mut self, i: usize, key: i64)
        requires
            old(self).wf(),
            i < old(self).capacity(),
            !old(self).view_map().contains_key(i),
        ensures
            final(self).wf(),
            final(self).capacity() == old(self).capacity(),
            final(self).view_map() == old(self).view_map().insert(i, key),
    {
        proof {
            self.lemma_room(i);
        }
        self.n = self.n + 1;
        let n = self.n;
        self.qp.set(i, n);
        self.pq.set(n, i);
        self.keys.set(i, key);
        proof {
            assert(self.view_map() =~= old(self).view_map().insert(i, key));
            assert forall|c: int| 2 <= c <= self.n && parent(c) != n && c != n implies #[trigger] self.edge_ok(c) by {
                assert(old(self).edge_ok(c));
            }
        }
        self.swim(n);
    }

    /// The index with the smallest key.
    pub fn min_index(&self) -> (r: usize)
        requires
            self.wf(),
            self.view_map().len() > 0,
        ensures
            is_min_entry(self.view_map(), r),
    {
        proof {
            self.lemma_len();
            self.lemma_root_is_min();
        }
        self.pq[1]
    }

    /// The smallest key, or `None` when the queue is empty.
    pub fn min_key(&self) -> (r: Option<i64>)
        requires
            self.wf(),
        ensures
            r is None <==> self.view_map().len() == 0,
            r matches Some(k) ==> exists|i: usize| is_min_entry(self.view_map(), i) && self.view_map()[i] == k,
    {
        proof {
            self.lemma_len();
        }
        if self.n == 0 {
            None
        } else {
            proof {
                self.lemma_root_is_min();
            }
            Some(self.keys[self.pq[1]])
        }
    }

    /// Removes an index with the smallest key and returns it; `None` when
    /// the queue is empty.
    pub fn del_min(&mut self) -> (r: Option<usize>)
        requires
            old(self).wf(),
        ensures
            final(self).wf(),
            final(self).capacity() == old(self).capacity(),
            r is None <==> old(self).view_map().len() == 0,
            r is None ==> final(self).view_map() == old(self).view_map(),
            r matches Some(i) ==> is_min_entry(old(self).view_map(), i) && final(self).view_map()
                == old(self).view_map().remove(i),
    {
        proof {
            self.lemma_len();
        }
        if self.n == 0 {
            None
        } else {
            proof {
                self.lemma_root_is_min();
            }
            let min = self.pq[1];
            let n = self.n;
            self.exch(1, n);
            let ghost swapped = *self;
            self.n = self.n - 1;
            self.qp.set(min, usize::MAX);
            proof {
                assert(self.view_map() =~= old(self).view_map().remove(min));
                assert forall|c: int| 2 <= c <= self.n && parent(c) != 1 implies #[trigger] self.edge_ok(c) by {
                    assert(swapped.pq@[c] == old(self).pq@[c]);
                    assert(swapped.pq@[parent(c)] == old(self).pq@[parent(c)]);
                    assert(old(self).edge_ok(c));
                }
            }
            if self.n > 0 {
                self.sink(1);
            }
            Some(min)
        }
    }

    /// The key of index `i`, or `None` when `i` is absent or out of range.
    pub fn key_of(&self, i: usize) -> (r: Option<i64>)
        requires
            self.wf(),
        ensures
            r == (if self.view_map().contains_key(i) {
                Some(self.view_map()[i])
            } else {
                None::<i64>
            }),
            i >= self.capacity() ==> r is None,
    {
        if i >= self.nmax || !self.contains(i) {
            None
        } else {
            Some(self.keys[i])
        }
    }

    /// Gives index `i` the key `key`, whether larger or smaller.
    pub fn change_key(&mut self, i: usize, key: i64)
        requires
            old(self).wf(),
            i < old(self).capacity(),
            old(self).view_map().contains_key(i),
        ensures
            final(self).wf(),
            final(self).capacity() == old(self).capacity(),
            final(self).view_map() == old(self).view_map().insert(i, key),
    {
        let p = self.qp[i];
        self.set_key(i, key);
        self.swim(p);
        let p = self.qp[i];
        self.sink(p);
    }

    /// Lowers the key of index `i` to `key`.
    pub fn decrease_key(&mut self, i: usize, key: i64)
        requires
            old(self).wf(),
            i < old(self).capacity(),
            old(self).view_map().contains_key(i),
            key <= old(self).view_map()[i],
        ensures
            final(self).wf(),
            final(self).capacity() == old(self).capacity(),
            final(self).view_map() == old(self).view_map().insert(i, key),
    {
        let p = self.qp[i];
        self.set_key(i, key);
        proof {
            assert forall|c: int| 2 <= c <= self.n && parent(c) == p implies #[trigger] self.edge_ok(c) by {
                assert(old(self).edge_ok(c));
            }
        }
        self.swim(p);
    }

    /// Raises the key of index `i` to `key`.
    pub fn increase_key(&mut self, i: usize, key: i64)
        requires
            old(self).wf(),
            i < old(self).capacity(),
            old(self).view_map().contains_key(i),
            key >= old(self).view_map()[i],
        ensures
            final(self).wf(),
            final(self).capacity() == old(self).capacity(),
            final(self).view_map() == old(self).view_map().insert(i, key),
    {
        let p = self.qp[i];
        self.set_key(i, key);
        proof {
            if p > 1 {
                assert(old(self).edge_ok(p as int));
            }
        }
        self.sink(p);
    }

    /// Removes index `i`.
    pub fn delete(&mut self, i: usize)
        requires
            old(self).wf(),
            i < old(self).capacity(),
            old(self).view_map().contains_key(i),
        ensures
            final(self).wf(),
            final(self).capacity() == old(self).capacity(),
            final(self).view_map() == old(self).view_map().remove(i),
    {
        let index = self.qp[i];
        let n = self.n;
        self.exch(index, n);
        let ghost swapped = *self;
        self.n = self.n - 1;
        self.qp.set(i, usize::MAX);
        proof {
            assert(self.view_map() =~= old(self).view_map().remove(i));
            if index <= self.n {
                assert forall|c: int| 2 <= c <= self.n && parent(c) != index && c != index implies #[trigger] self.edge_ok(c) by {
                    assert(old(self).edge_ok(c));
                }
                assert forall|c: int| 2 <= c <= self.n && parent(c) == index && index > 1 implies self.key_at(parent(index as int)) <= #[trigger] self.key_at(c) by {
                    assert(old(self).edge_ok(c));
                    assert(old(self).edge_ok(index as int));
                }
            } else {
                assert forall|c: int| 2 <= c <= self.n implies #[trigger] self.edge_ok(c) by {
                    assert(old(self).edge_ok(c));
                }
            }
        }
        if index <= self.n {
            let ghost moved = self.pq@[index as int];
            self.swim(index);
            proof {
                if self.qp@[moved as int] != index {
                    assert forall|c: int| 2 <= c <= self.n && parent(c) == index && index > 1 implies self.key_at(parent(index as int)) <= #[trigger] self.key_at(c) by {
                        assert(self.edge_ok(c));
                        assert(self.edge_ok(index as int));
                    }
                }
            }
            self.sink(index);
        }
    }

    /// Stores a new key for a present index, leaving the slots as they are.
    fn set_key(&mut self, i: usize, key: i64)
        requires
            old(self).wf(),
            i < old(self).nmax,
            old(self).view_map().contains_key(i),
        ensures
            final(self).maps_ok(),
            final(self).nmax == old(self).nmax,
            final(self).n == old(self).n,
            final(self).pq == old(self).pq,
            final(self).qp == old(self).qp,
            final(self).keys@ == old(self).keys@.update(i as int, key),
            final(self).view_map() == old(self).view_map().insert(i, key),
            1 <= old(self).qp@[i as int] <= old(self).n,
            final(self).heap_except(old(self).qp@[i as int] as int, true),
    {
        self.keys.set(i, key);
        proof {
            let p = self.qp@[i as int] as int;
            assert(self.view_map() =~= old(self).view_map().insert(i, key));
            assert forall|c: int| 2 <= c <= self.n && parent(c) != p && c != p implies #[trigger] self.edge_ok(c) by {
                assert(old(self).edge_ok(c));
            }
            assert forall|c: int| 2 <= c <= self.n && parent(c) == p && p > 1 implies self.key_at(parent(p)) <= #[trigger] self.key_at(c) by {
                assert(old(self).edge_ok(c));
                assert(old(self).edge_ok(p));
            }
        }
    }

    /// The root's key is the smallest.
    proof fn lemma_root_is_min(&self)
        requires
            self.wf(),
            self.n > 0,
        ensures
            is_min_entry(self.view_map(), self.pq@[1]),
    {
        assert forall|j: usize| #[trigger] self.view_map().contains_key(j) implies self.view_map()[self.pq@[1]] <= self.view_map()[j] by {
            self.lemma_root_below(self.qp@[j as int] as int);
        }
    }

    proof fn lemma_root_below(&self, c: int)
        requires
            self.wf(),
            1 <= c <= self.n,
        ensures
            self.key_at(1) <= self.key_at(c),
        decreases c,
    {
        if c > 1 {
            assert(self.edge_ok(c));
            self.lemma_root_below(parent(c));
        }
    }

    /// An absent index leaves a free slot.
    proof fn lemma_room(&self, i: usize)
        requires
            self.maps_ok(),
            i < self.nmax,
            self.qp@[i as int] == usize::MAX,
        ensures
            self.n < self.nmax,
    {
        let slots = vstd::set_lib::set_int_range(1, self.n + 1);
        let g = |k: int| self.pq@[k] as int;
        let free = vstd::set_lib::set_int_range(0, self.nmax as int).remove(i as int);
        vstd::set_lib::lemma_int_range(1, self.n + 1);
        vstd::set_lib::lemma_int_range(0, self.nmax as int);
        assert(vstd::relations::injective_on(g, slots));
        vstd::set_lib::lemma_map_size(slots, slots.map(g), g);
        assert(slots.map(g).subset_of(free));
        vstd::set_lib::lemma_len_subset(slots.map(g), free);
    }

    /// The number of present indices is the number of used slots.
    proof fn lemma_len(&self)
        requires
            self.maps_ok(),
        ensures
            self.view_map().len() == self.n,
            self.view_map().dom().finite(),
    {
        let slots = vstd::set_lib::set_int_range(1, self.n + 1);
        let dom = self.view_map().dom();
        let g = |k: int| self.pq@[k];
        vstd::set_lib::lemma_int_range(1, self.n + 1);
        assert(vstd::relations::injective_on(g, slots));
        assert forall|i: usize| dom.contains(i) implies slots.map(g).contains(i) by {
            assert(slots.contains(self.qp@[i as int] as int));
        }
        assert(slots.map(g) =~= dom);
        vstd::set_lib::lemma_map_size(slots, dom, g);
    }
}

} // verus!

verus! {

/// Two minimum removals in a row give keys in non-decreasing order, so
/// draining the queue yields its keys sorted.
pub proof fn lemma_del_min_order(m: Map<usize, i64>, i: usize, j: usize)
    requires
        is_min_entry(m, i),
        is_min_entry(m.remove(i), j),
    ensures
        m[i] <= m.remove(i)[j],
{
    assert(m.contains_key(j));
}

/// The queue contents after each of a run of minimum removals: `ms[t]`
/// before removal `t`, which took `out[t]`.
pub open spec fn drain_run(ms: Seq<Map<usize, i64>>, out: Seq<usize>) -> bool {
    &&& ms.len() == out.len() + 1
    &&& forall|t: int| 0 <= t < out.len() ==> #[trigger] is_min_entry(ms[t], out[t]) && ms[t + 1] == ms[t].remove(out[t])
}

proof fn lemma_drain_prefix(ms: Seq<Map<usize, i64>>, out: Seq<usize>, t: int)
    requires
        drain_run(ms, out),
        0 <= t <= out.len(),
    ensures
        forall|i: usize| #[trigger] ms[t].contains_key(i) <==> ms[0].contains_key(i) && !out.take(t).contains(i),
        forall|i: usize| #[trigger] ms[t].contains_key(i) ==> ms[t][i] == ms[0][i],
    decreases t,
{
    if t > 0 {
        lemma_drain_prefix(ms, out, t - 1);
        assert(is_min_entry(ms[t - 1], out[t - 1]));
        assert(out.take(t) =~= out.take(t - 1).push(out[t - 1]));
        assert forall|i: usize| #[trigger] ms[t].contains_key(i) <==> ms[0].contains_key(i) && !out.take(t).contains(i) by {
            if out.take(t - 1).contains(i) {
                let k = choose|k: int| 0 <= k < t - 1 && #[trigger] out.take(t - 1)[k] == i;
                assert(out.take(t)[k] == i);
            }
            if out.take(t).contains(i) && i != out[t - 1] {
                let k = choose|k: int| 0 <= k < t && #[trigger] out.take(t)[k] == i;
                assert(out.take(t - 1)[k] == i);
            }
            if i == out[t - 1] {
                assert(out.take(t)[t - 1] == i);
            }
        }
    } else {
        assert(out.take(0) =~= Seq::<usize>::empty());
    }
}

/// Draining the queue by minimum removals until it is empty yields every
/// index it held exactly once, in non-decreasing key order.
pub proof fn lemma_drain_sorted(ms: Seq<Map<usize, i64>>, out: Seq<usize>)
    requires
        drain_run(ms, out),
        ms.last().dom() == Set::<usize>::empty(),
    ensures
        out.no_duplicates(),
        forall|t: int| 0 <= t < out.len() ==> ms[0].contains_key(#[trigger] out[t]),
        forall|i: usize| #[trigger] ms[0].contains_key(i) ==> out.contains(i),
        forall|t1: int, t2: int| 0 <= t1 < t2 < out.len() ==> ms[0][#[trigger] out[t1]] <= ms[0][#[trigger] out[t2]],
{
    assert forall|t1: int, t2: int| 0 <= t1 < t2 < out.len() implies ms[0][#[trigger] out[t1]] <= ms[0][#[trigger] out[t2]]
        && out[t1] != out[t2] by {
        lemma_drain_prefix(ms, out, t1);
        lemma_drain_prefix(ms, out, t2);
        let i2 = out[t2];
        assert(is_min_entry(ms[t2], i2));
        assert(is_min_entry(ms[t1], out[t1]));
        assert(!out.take(t2).contains(i2));
        assert(!out.take(t1).contains(i2)) by {
            if out.take(t1).contains(i2) {
                let k = choose|k: int| 0 <= k < t1 && #[trigger] out.take(t1)[k] == i2;
                assert(out.take(t2)[k] == i2);
            }
        }
        assert(ms[t1].contains_key(i2));
        assert(out.take(t2)[t1] == out[t1]);
    }
    assert forall|t: int| 0 <= t < out.len() implies ms[0].contains_key(#[trigger] out[t]) by {
        lemma_drain_prefix(ms, out, t);
        assert(is_min_entry(ms[t], out[t]));
    }
    assert forall|i: usize| #[trigger] ms[0].contains_key(i) implies out.contains(i) by {
        lemma_drain_prefix(ms, out, out.len() as int);
        assert(!ms[out.len() as int].contains_key(i));
        assert(out.take(out.len() as int) =~= out);
    }
}

/// A weighted undirected edge `v - w`.
#[derive(Clone, Copy)]
pub struct Edge {
    v: usize,
    w: usize,
    weight: i64,
}

impl View for Edge {
    /// `(either end, other end, weight)`
    type V = (usize, usize, i64);

    closed spec fn view(&self) -> (usize, usize, i64) {
        (self.v, self.w, self.weight)
    }
}

impl Edge {
    /// The edge `v - w` of weight `weight`.
    pub closed spec fn spec_new(v: usize, w: usize, weight: i64) -> Edge {
        Edge { v, w, weight }
    }

    pub fn new(v: usize, w: usize, weight: i64) -> (r: Edge)
        ensures
            r@ == (v, w, weight),
            r == Edge::spec_new(v, w, weight),
    {
        Edge { v, w, weight }
    }

    pub fn weight(&self) -> (r: i64)
        ensures
            r == self@.2,
    {
        self.weight
    }

    pub fn either(&self) -> (r: usize)
        ensures
            r == self@.0,
    {
        self.v
    }

    /// The end of the edge that is not `vertex`.
    pub fn other(&self, vertex: usize) -> (r: usize)
        requires
            vertex == self@.0 || vertex == self@.1,
        ensures
            r == (if vertex == self@.0 { self@.1 } else { self@.0 }),
    {
        if vertex == self.v {
            self.w
        } else {
            self.v
        }
    }

    /// The same edge seen from its other end.
    fn swap(self) -> (r: Edge)
        ensures
            r@ == (self@.1, self@.0, self@.2),
            r == self.swap_spec(),
    {
        Edge { v: self.w, w: self.v, weight: self.weight }
    }
}

/// Edges compare by weight alone.
impl PartialEq for Edge {
    fn eq(&self, other: &Edge) -> (r: bool) {
        self.weight == other.weight
    }
}

impl vstd::std_specs::cmp::PartialEqSpecImpl for Edge {
    open spec fn obeys_eq_spec() -> bool {
        true
    }

    open spec fn eq_spec(&self, other: &Edge) -> bool {
        self@.2 == other@.2
    }
}

impl PartialOrd for Edge {
    fn partial_cmp(&self, other: &Edge) -> (r: Option<core::cmp::Ordering>) {
        if self.weight < other.weight {
            Some(core::cmp::Ordering::Less)
        } else if self.weight > other.weight {
            Some(core::cmp::Ordering::Greater)
        } else {
            Some(core::cmp::Ordering::Equal)
        }
    }
}

impl vstd::std_specs::cmp::PartialOrdSpecImpl for Edge {
    open spec fn obeys_partial_cmp_spec() -> bool {
        true
    }

    open spec fn partial_cmp_spec(&self, other: &Edge) -> Option<core::cmp::Ordering> {
        if self@.2 < other@.2 {
            Some(core::cmp::Ordering::Less)
        } else if self@.2 > other@.2 {
            Some(core::cmp::Ordering::Greater)
        } else {
            Some(core::cmp::Ordering::Equal)
        }
    }
}

/// The entries of a list that name the edge from its smaller end (a
/// self-loop is stored once and counts).
pub open spec fn canonical(l: Seq<Edge>) -> Seq<Edge>
    decreases l.len(),
{
    if l.len() == 0 {
        l
    } else if l.last()@.0 <= l.last()@.1 {
        canonical(l.drop_last()).push(l.last())
    } else {
        canonical(l.drop_last())
    }
}

/// Each undirected edge once, list by list.
pub open spec fn all_edges(adj: Seq<Seq<Edge>>) -> Seq<Edge>
    decreases adj.len(),
{
    if adj.len() == 0 {
        Seq::empty()
    } else {
        all_edges(adj.drop_last()) + canonical(adj.last())
    }
}

/// Number of stored entries, over all lists.
pub open spec fn entry_count(adj: Seq<Seq<Edge>>) -> nat
    decreases adj.len(),
{
    if adj.len() == 0 {
        0
    } else {
        entry_count(adj.drop_last()) + adj.last().len()
    }
}

/// Entries of one list that are self-loops.
pub open spec fn loops_in(l: Seq<Edge>) -> nat
    decreases l.len(),
{
    if l.len() == 0 {
        0
    } else {
        loops_in(l.drop_last()) + if l.last()@.0 == l.last()@.1 { 1nat } else { 0nat }
    }
}

/// Entries that are self-loops, over all lists.
pub open spec fn loop_entries(adj: Seq<Seq<Edge>>) -> nat
    decreases adj.len(),
{
    if adj.len() == 0 {
        0
    } else {
        loop_entries(adj.drop_last()) + loops_in(adj.last())
    }
}

proof fn lemma_entries_update(adj: Seq<Seq<Edge>>, i: int, l: Seq<Edge>)
    requires
        0 <= i < adj.len(),
    ensures
        entry_count(adj.update(i, l)) == entry_count(adj) - adj[i].len() + l.len(),
        loop_entries(adj.update(i, l)) == loop_entries(adj) - loops_in(adj[i]) + loops_in(l),
    decreases adj.len(),
{
    if i == adj.len() - 1 {
        assert(adj.update(i, l).drop_last() =~= adj.drop_last());
    } else {
        assert(adj.update(i, l).drop_last() =~= adj.drop_last().update(i, l));
        lemma_entries_update(adj.drop_last(), i, l);
    }
}

proof fn lemma_entries_empty(adj: Seq<Seq<Edge>>)
    requires
        forall|k: int| 0 <= k < adj.len() ==> adj[k].len() == 0,
    ensures
        entry_count(adj) == 0,
        loop_entries(adj) == 0,
    decreases adj.len(),
{
    if adj.len() > 0 {
        lemma_entries_empty(adj.drop_last());
    }
}

/// An undirected graph with `i64` edge weights; each edge is stored in the
/// lists of both its ends, a self-loop once.
pub struct EdgeWeightedGraph {
    v: usize,
    e: usize,
    adj: Vec<Vec<Edge>>,
}

impl EdgeWeightedGraph {
    /// The incident edges of each vertex, each seen from that vertex.
    pub closed spec fn adj_view(&self) -> Seq<Seq<Edge>> {
        self.adj@.map_values(|l: Vec<Edge>| l@)
    }

    pub closed spec fn vertex_count(&self) -> nat {
        self.v as nat
    }

    pub closed spec fn edge_count(&self) -> nat {
        self.e as nat
    }

    pub closed spec fn wf(&self) -> bool {
        &&& self.adj@.len() == self.v
        &&& forall|u: int, j: int|
            0 <= u < self.adj@.len() && 0 <= j < self.adj@[u]@.len() ==> (#[trigger] self.adj@[u]@[j])@.0
                == u && self.adj@[u]@[j]@.1 < self.v
        &&& self.e == all_edges(self.adj_view()).len()
        &&& entry_count(self.adj_view()) + loop_entries(self.adj_view()) == 2 * self.e
    }

    pub fn new(v: usize) -> (g: EdgeWeightedGraph)
        ensures
            g.wf(),
            g.vertex_count() == v,
            g.edge_count() == 0,
            g.adj_view() == Seq::new(v as nat, |i: int| Seq::<Edge>::empty()),
    {
        let mut adj: Vec<Vec<Edge>> = Vec::new();
        let mut i: usize = 0;
        while i < v
            invariant
                i <= v,
                adj@.len() == i,
                forall|k: int| 0 <= k < i ==> adj@[k]@ == Seq::<Edge>::empty(),
            decreases v - i,
        {
            adj.push(Vec::new());
            i = i + 1;
        }
        let g = EdgeWeightedGraph { v, e: 0, adj };
        proof {
            assert(g.adj_view() =~= Seq::new(v as nat, |i: int| Seq::<Edge>::empty()));
            lemma_all_edges_empty(g.adj_view());
            lemma_entries_empty(g.adj_view());
        }
        g
    }

    pub fn v(&self) -> (r: usize)
        ensures
            r == self.vertex_count(),
    {
        self.v
    }

    pub fn e(&self) -> (r: usize)
        ensures
            r == self.edge_count(),
    {
        self.e
    }
}

impl EdgeWeightedGraph {
    /// Adds `e` to the lists of both its ends (once for a self-loop).
    pub fn add_edge(&mut self, e: Edge)
        requires
            old(self).wf(),
            e@.0 < old(self).vertex_count(),
            e@.1 < old(self).vertex_count(),
            old(self).edge_count() < usize::MAX,
        ensures
            final(self).wf(),
            final(self).vertex_count() == old(self).vertex_count(),
            final(self).edge_count() == old(self).edge_count() + 1,
            final(self).adj_view() == (if e@.0 == e@.1 {
                old(self).adj_view().update(e@.0 as int, old(self).adj_view()[e@.0 as int].push(e))
            } else {
                old(self).adj_view().update(e@.0 as int, old(self).adj_view()[e@.0 as int].push(e)).update(
                    e@.1 as int,
                    old(self).adj_view()[e@.1 as int].push(e.swap_spec()),
                )
            }),
    {
        let ghost a0 = self.adj_view();
        let v = e.either();
        let w = e.other(v);
        self.adj[v].push(e);
        let ghost a1 = self.adj_view();
        proof {
            assert(a1 =~= a0.update(v as int, a0[v as int].push(e)));
            lemma_all_edges_update(a0, v as int, a0[v as int].push(e));
            lemma_entries_update(a0, v as int, a0[v as int].push(e));
            assert(a0[v as int].push(e).drop_last() =~= a0[v as int]);
            assert(canonical(a0[v as int].push(e)).len() == canonical(a0[v as int]).len() + if v <= w { 1int } else { 0int }) by {
                assert(a0[v as int].push(e).drop_last() =~= a0[v as int]);
            }
        }
        if v != w {
            let f = e.swap();
            self.adj[w].push(f);
            proof {
                assert(self.adj_view() =~= a1.update(w as int, a1[w as int].push(f)));
                lemma_all_edges_update(a1, w as int, a1[w as int].push(f));
                lemma_entries_update(a1, w as int, a1[w as int].push(f));
                assert(a1[w as int].push(f).drop_last() =~= a1[w as int]);
                assert(canonical(a1[w as int].push(f)).len() == canonical(a1[w as int]).len() + if w <= v { 1int } else { 0int }) by {
                    assert(a1[w as int].push(f).drop_last() =~= a1[w as int]);
                }
            }
        }
        self.e = self.e + 1;
    }

    /// A copy of the incident edges of `v`, each seen from `v`.
    pub fn adj(&self, v: usize) -> (r: Vec<Edge>)
        requires
            self.wf(),
            v < self.vertex_count(),
        ensures
            r@ == self.adj_view()[v as int],
    {
        let l = &self.adj[v];
        let mut r: Vec<Edge> = Vec::new();
        let mut j: usize = 0;
        while j < l.len()
            invariant
                j <= l@.len(),
                r@ == l@.take(j as int),
            decreases l@.len() - j,
        {
            r.push(l[j]);
            j = j + 1;
            assert(r@ =~= l@.take(j as int));
        }
        assert(l@.take(j as int) =~= l@);
        r
    }

    pub fn degree(&self, v: usize) -> (r: usize)
        requires
            self.wf(),
            v < self.vertex_count(),
        ensures
            r == self.adj_view()[v as int].len(),
    {
        self.adj[v].len()
    }

    /// Every edge once, as stored at its smaller end.
    pub fn edges(&self) -> (r: Vec<Edge>)
        requires
            self.wf(),
        ensures
            r@ == all_edges(self.adj_view()),
            r@.len() == self.edge_count(),
    {
        let ghost a = self.adj_view();
        let mut r: Vec<Edge> = Vec::new();
        let mut u: usize = 0;
        while u < self.adj.len()
            invariant
                self.wf(),
                a == self.adj_view(),
                u <= a.len(),
                r@ == all_edges(a.take(u as int)),
            decreases a.len() - u,
        {
            let l = &self.adj[u];
            let ghost r0 = r@;
            let mut j: usize = 0;
            while j < l.len()
                invariant
                    self.wf(),
                    a == self.adj_view(),
                    u < a.len(),
                    l@ == a[u as int],
                    j <= l@.len(),
                    r@ == r0 + canonical(l@.take(j as int)),
                decreases l@.len() - j,
            {
                let x = l[j];
                proof {
                    assert(l@.take(j + 1).drop_last() =~= l@.take(j as int));
                }
                if x.v <= x.w {
                    r.push(x);
                }
                j = j + 1;
                assert(r@ =~= r0 + canonical(l@.take(j as int)));
            }
            proof {
                assert(l@.take(j as int) =~= l@);
                assert(a.take(u + 1).drop_last() =~= a.take(u as int));
            }
            u = u + 1;
        }
        assert(a.take(u as int) =~= a);
        r
    }
}

impl Edge {
    /// The same edge seen from its other end.
    pub closed spec fn swap_spec(self) -> Edge {
        Edge { v: self.w, w: self.v, weight: self.weight }
    }

    /// An edge is its view: the ends and the weight.
    pub proof fn lemma_edge_view(e: Edge, f: Edge, v: usize, w: usize, weight: i64)
        ensures
            e.swap_spec()@ == (e@.1, e@.0, e@.2),
            Edge::spec_new(v, w, weight)@ == (v, w, weight),
            e@ == f@ ==> e == f,
    {
    }
}

proof fn lemma_all_edges_update(adj: Seq<Seq<Edge>>, i: int, l: Seq<Edge>)
    requires
        0 <= i < adj.len(),
    ensures
        all_edges(adj.update(i, l)).len() == all_edges(adj).len() - canonical(adj[i]).len()
            + canonical(l).len(),
    decreases adj.len(),
{
    if i == adj.len() - 1 {
        assert(adj.update(i, l).drop_last() =~= adj.drop_last());
    } else {
        assert(adj.update(i, l).drop_last() =~= adj.drop_last().update(i, l));
        lemma_all_edges_update(adj.drop_last(), i, l);
    }
}

proof fn lemma_all_edges_empty(adj: Seq<Seq<Edge>>)
    requires
        forall|k: int| 0 <= k < adj.len() ==> adj[k].len() == 0,
    ensures
        all_edges(adj).len() == 0,
    decreases adj.len(),
{
    if adj.len() > 0 {
        lemma_all_edges_empty(adj.drop_last());
    }
}

} // verus!

verus! {

/// The tree edge chosen for `x` is a stored edge that reaches `x` from a
/// vertex taken before it.
pub open spec fn tree_edge_ok(adj: Seq<Seq<Edge>>, tree: Seq<Option<Edge>>, rank: Seq<nat>, x: int) -> bool {
    tree[x] matches Some(e) ==> {
        &&& e@.1 == x
        &&& e@.0 < adj.len()
        &&& rank[e@.0 as int] < rank[x]
        &&& adj[e@.0 as int].contains(e)
    }
}

/// Cut condition of `x`: every stored edge from a vertex taken before `x`
/// to one taken at or after it weighs at least as much as the edge chosen
/// for `x`, and a vertex without an edge has no such crossing edge.
pub open spec fn cut_ok(adj: Seq<Seq<Edge>>, tree: Seq<Option<Edge>>, rank: Seq<nat>, x: int) -> bool {
    forall|u: int, k: int|
        0 <= u < adj.len() && rank[u] < rank[x] && 0 <= k < adj[u].len() && rank[
            #[trigger] adj[u][k]@.1 as int
        ] >= rank[x] ==> (tree[x] is Some && tree[x]->Some_0@.2 <= adj[u][k]@.2)
}

/// `tree` is what Prim's algorithm builds on `adj` when it takes the
/// vertices in the order `rank`: each vertex takes a lightest edge that
/// crosses from the vertices already taken, or starts a new tree when no
/// edge crosses.
pub open spec fn prim_forest(adj: Seq<Seq<Edge>>, tree: Seq<Option<Edge>>, rank: Seq<nat>) -> bool {
    &&& tree.len() == adj.len()
    &&& rank.len() == adj.len()
    &&& forall|x: int, y: int| 0 <= x < adj.len() && 0 <= y < adj.len() && x != y ==> rank[x] != rank[y]
    &&& forall|x: int| 0 <= x < adj.len() ==> tree_edge_ok(adj, tree, rank, x)
    &&& forall|x: int| 0 <= x < adj.len() ==> cut_ok(adj, tree, rank, x)
}

/// No tree edge weighs more than another edge that joins its vertex to the
/// vertices taken before it.
pub proof fn lemma_prim_locally_optimal(
    adj: Seq<Seq<Edge>>,
    tree: Seq<Option<Edge>>,
    rank: Seq<nat>,
    x: int,
    u: int,
    k: int,
)
    requires
        prim_forest(adj, tree, rank),
        0 <= x < adj.len(),
        0 <= u < adj.len(),
        rank[u] < rank[x],
        0 <= k < adj[u].len(),
        adj[u][k]@.1 == x,
    ensures
        (tree[x] is Some && tree[x]->Some_0@.2 <= adj[u][k]@.2),
{
    assert(cut_ok(adj, tree, rank, x));
}

/// The edges that Prim's algorithm keeps, in vertex order.
pub open spec fn tree_edges(tree: Seq<Option<Edge>>) -> Seq<Edge>
    decreases tree.len(),
{
    if tree.len() == 0 {
        Seq::empty()
    } else {
        match tree.last() {
            Some(e) => tree_edges(tree.drop_last()).push(e),
            None => tree_edges(tree.drop_last()),
        }
    }
}

/// A minimum spanning forest built by Prim's algorithm.
pub struct PrimMST {
    edge_to: Vec<Option<Edge>>,
    dist_to: Vec<i64>,
    marked: Vec<bool>,
    pq: IndexMinPQ,
    rank: Ghost<Seq<nat>>,
    time: Ghost<nat>,
}

impl PrimMST {
    /// For each vertex, the edge that joins it to its tree; `None` for the
    /// first vertex of each tree.
    pub closed spec fn tree(&self) -> Seq<Option<Edge>> {
        self.edge_to@
    }

    /// The order in which the vertices were taken.
    pub closed spec fn rank(&self) -> Seq<nat> {
        self.rank@
    }

    /// State between two steps: `scanning` is the vertex whose edges have
    /// been relaxed up to (not including) entry `done`, and `popped` the
    /// vertex just taken out of the queue and not yet marked.
    spec fn inv(&self, adj: Seq<Seq<Edge>>, scanning: int, done: int, popped: int) -> bool {
        let n = adj.len();
        let marked = self.marked@;
        let tree = self.edge_to@;
        let rank = self.rank@;
        let pqm = self.pq.view_map();
        &&& self.edge_to@.len() == n
        &&& self.dist_to@.len() == n
        &&& marked.len() == n
        &&& rank.len() == n
        &&& self.pq.wf()
        &&& self.pq.capacity() == n
        &&& forall|u: int, j: int|
            0 <= u < n && 0 <= j < adj[u].len() ==> (#[trigger] adj[u][j])@.0 == u && adj[u][j]@.1 < n
        &&& forall|x: int| 0 <= x < n && marked[x] ==> rank[x] < self.time@
        &&& forall|x: int, y: int| 0 <= x < n && 0 <= y < n && x != y && marked[x] && marked[y] ==> rank[x] != rank[y]
        &&& forall|y: usize| #[trigger] pqm.contains_key(y) ==> y < n && !marked[y as int] && tree[y as int] is Some
        &&& forall|y: int| 0 <= y < n && !marked[y] && tree[y] is Some && y != popped ==> #[trigger] pqm.contains_key(y as usize)
        &&& forall|y: int|
            0 <= y < n && !marked[y] ==> (#[trigger] tree[y] matches Some(e) ==> {
                &&& e@.1 == y
                &&& e@.0 < n
                &&& marked[e@.0 as int]
                &&& adj[e@.0 as int].contains(e)
                &&& y != popped ==> pqm[y as usize] == e@.2
                &&& self.dist_to@[y] == e@.2
            })
        &&& forall|u: int, k: int|
            0 <= u < n && marked[u] && 0 <= k < adj[u].len() && !marked[#[trigger] adj[u][k]@.1 as int] && (u
                != scanning || k < done) ==> (tree[adj[u][k]@.1 as int] is Some && tree[adj[u][k]@.1 as int]->Some_0@.2 <= adj[u][k]@.2)
        &&& forall|x: int| 0 <= x < n && marked[x] ==> #[trigger] tree_edge_ok(adj, tree, rank, x)
        &&& forall|x: int| 0 <= x < n && marked[x] ==> (#[trigger] tree[x] matches Some(e) ==> marked[e@.0 as int])
        &&& forall|x: int|
            0 <= x < n && marked[x] ==> forall|u: int, k: int|
                0 <= u < n && marked[u] && rank[u] < rank[x] && 0 <= k < adj[u].len() && (!marked[
                    #[trigger] adj[u][k]@.1 as int
                ] || rank[adj[u][k]@.1 as int] >= rank[x]) ==> (tree[x] is Some && tree[x]->Some_0@.2
                    <= adj[u][k]@.2)
    }
}


impl PrimMST {
    /// Marks `v`, just taken out of the queue, and relaxes its edges.
    fn scan(&mut self, graph: &EdgeWeightedGraph, v: usize)
        requires
            graph.wf(),
            old(self).inv(graph.adj_view(), -1, 0, v as int),
            v < graph.vertex_count(),
            !old(self).marked@[v as int],
            !old(self).pq.view_map().contains_key(v),
            old(self).edge_to@[v as int] matches Some(e) ==> forall|y: usize| #[trigger] old(self).pq.view_map().contains_key(y) ==> e@.2 <= old(self).pq.view_map()[y],
            old(self).edge_to@[v as int] is None ==> forall|y: usize| !#[trigger] old(self).pq.view_map().contains_key(y),
        ensures
            final(self).inv(graph.adj_view(), -1, 0, -1),
            final(self).marked@ == old(self).marked@.update(v as int, true),
    {
        let ghost adj = graph.adj_view();
        let ghost n = adj.len();
        self.marked.set(v, true);
        self.rank = Ghost(self.rank@.update(v as int, self.time@));
        self.time = Ghost(self.time@ + 1);
        proof {
            let o = old(self);
            let om = o.marked@;
            let tree = self.edge_to@;
            let pqm = self.pq.view_map();
            assert forall|x: int| 0 <= x < n && self.marked@[x] implies #[trigger] tree_edge_ok(adj, tree, self.rank@, x) by {
                if x != v {
                    assert(tree_edge_ok(adj, tree, o.rank@, x));
                    if let Some(e) = tree[x] {
                        assert(om[e@.0 as int]);
                    }
                }
            }
            assert forall|x: int| 0 <= x < n && self.marked@[x] implies (#[trigger] tree[x] matches Some(e) ==> self.marked@[e@.0 as int]) by {
                if let Some(e) = tree[x] {
                    assert(om[e@.0 as int]);
                    if x != v {
                        assert(tree_edge_ok(adj, tree, o.rank@, x));
                    }
                    assert(e@.0 < n);
                    assert(self.marked@[e@.0 as int]);
                }
            }
            assert forall|x: int| 0 <= x < n && self.marked@[x] implies forall|u: int, k: int|
                0 <= u < n && self.marked@[u] && self.rank@[u] < self.rank@[x] && 0 <= k < adj[u].len() && (!self.marked@[
                    #[trigger] adj[u][k]@.1 as int
                ] || self.rank@[adj[u][k]@.1 as int] >= self.rank@[x]) ==> (tree[x] is Some && tree[x]->Some_0@.2
                    <= adj[u][k]@.2) by {
                assert forall|u: int, k: int|
                    0 <= u < n && self.marked@[u] && self.rank@[u] < self.rank@[x] && 0 <= k < adj[u].len() && (!self.marked@[
                        #[trigger] adj[u][k]@.1 as int
                    ] || self.rank@[adj[u][k]@.1 as int] >= self.rank@[x]) implies (tree[x] is Some && tree[x]->Some_0@.2
                        <= adj[u][k]@.2) by {
                    let y = adj[u][k]@.1 as int;
                    if x == v {
                        assert(u != v);
                        assert(!om[y]);
                        assert(tree[y] is Some && tree[y]->Some_0@.2 <= adj[u][k]@.2);
                        if y != v {
                            assert(pqm.contains_key(y as usize));
                        }
                    } else {
                        assert(u != v);
                    }
                }
            }
        }
        let out = graph.adj(v);
        let mut j: usize = 0;
        while j < out.len()
            invariant
                graph.wf(),
                adj == graph.adj_view(),
                n == adj.len(),
                out@ == adj[v as int],
                v < n,
                j <= out@.len(),
                old(self).marked@.len() == n,
                self.marked@ == old(self).marked@.update(v as int, true),
                self.inv(adj, v as int, j as int, -1),
            decreases out@.len() - j,
        {
            let e = out[j];
            proof {
                assert(adj[v as int][j as int] == e);
            }
            let w = e.other(v);
            let ghost s0 = *self;
            if !self.marked[w] {
                let better = match self.edge_to[w] {
                    None => true,
                    Some(_) => e.weight() < self.dist_to[w],
                };
                if better {
                    self.dist_to.set(w, e.weight());
                    self.edge_to.set(w, Some(e));
                    if self.pq.contains(w) {
                        self.pq.decrease_key(w, e.weight());
                    } else {
                        self.pq.insert(w, e.weight());
                    }
                    proof {
                        let tree = self.edge_to@;
                        let t0 = s0.edge_to@;
                        let m = self.marked@;
                        assert(adj[v as int].contains(e));
                        assert forall|u: int, k: int|
                            0 <= u < n && m[u] && 0 <= k < adj[u].len() && !m[#[trigger] adj[u][k]@.1 as int] && (u
                                != v || k < j + 1) implies (tree[adj[u][k]@.1 as int] is Some && tree[adj[u][k]@.1 as int]->Some_0@.2 <= adj[u][k]@.2) by {
                            let y = adj[u][k]@.1 as int;
                            if y == w && !(u == v && k == j) {
                                assert(t0[y] is Some && t0[y]->Some_0@.2 <= adj[u][k]@.2);
                            }
                        }
                        assert forall|y: int| 0 <= y < n && !m[y] implies (#[trigger] tree[y] matches Some(e) ==> {
                            &&& e@.1 == y
                            &&& e@.0 < n
                            &&& m[e@.0 as int]
                            &&& adj[e@.0 as int].contains(e)
                            &&& self.pq.view_map()[y as usize] == e@.2
                            &&& self.dist_to@[y] == e@.2
                        }) by {
                            if y != w {
                                assert(t0[y] == tree[y]);
                                assert(self.pq.view_map()[y as usize] == s0.pq.view_map()[y as usize]);
                                assert(self.dist_to@[y] == s0.dist_to@[y]);
                            } else {
                                assert(e@.0 == v);
                                assert(m[v as int]);
                                assert(self.pq.view_map()[y as usize] == e@.2);
                            }
                        }
                        assert forall|x: int| 0 <= x < n && m[x] implies #[trigger] tree_edge_ok(adj, tree, self.rank@, x) by {
                            assert(tree_edge_ok(adj, t0, self.rank@, x));
                            assert(t0[x] == tree[x]);
                        }
                        assert forall|x: int| 0 <= x < n && m[x] implies (#[trigger] tree[x] matches Some(e) ==> m[e@.0 as int]) by {
                            assert(t0[x] == tree[x]);
                        }
                        assert forall|x: int| 0 <= x < n && m[x] implies forall|u: int, k: int|
                            0 <= u < n && m[u] && self.rank@[u] < self.rank@[x] && 0 <= k < adj[u].len() && (!m[
                                #[trigger] adj[u][k]@.1 as int
                            ] || self.rank@[adj[u][k]@.1 as int] >= self.rank@[x]) ==> (tree[x] is Some && tree[x]->Some_0@.2
                                <= adj[u][k]@.2) by {
                            assert(t0[x] == tree[x]);
                        }
                    }
                } else {
                    proof {
                        assert forall|u: int, k: int|
                            0 <= u < n && self.marked@[u] && 0 <= k < adj[u].len() && !self.marked@[#[trigger] adj[u][k]@.1 as int] && (u
                                != v || k < j + 1) implies (self.edge_to@[adj[u][k]@.1 as int] is Some && self.edge_to@[adj[u][k]@.1 as int]->Some_0@.2 <= adj[u][k]@.2) by {
                        }
                    }
                }
            }
            j = j + 1;
        }
    }
}


impl PrimMST {
    /// Grows one tree from `s` until no edge leaves it.
    fn prim(&mut self, graph: &EdgeWeightedGraph, s: usize)
        requires
            graph.wf(),
            old(self).inv(graph.adj_view(), -1, 0, -1),
            s < graph.vertex_count(),
            !old(self).marked@[s as int],
            old(self).pq.view_map() == Map::<usize, i64>::empty(),
        ensures
            final(self).inv(graph.adj_view(), -1, 0, -1),
            final(self).pq.view_map() == Map::<usize, i64>::empty(),
            forall|x: int| 0 <= x < graph.vertex_count() && old(self).marked@[x] ==> final(self).marked@[x],
            final(self).marked@[s as int],
    {
        let ghost adj = graph.adj_view();
        let ghost n = adj.len();
        proof {
            if self.edge_to@[s as int] is Some {
                assert(self.pq.view_map().contains_key(s));
            }
        }
        self.dist_to.set(s, 0);
        self.pq.insert(s, 0);
        let first = self.pq.del_min();
        let v = match first {
            Some(v) => v,
            None => s,
        };
        proof {
            assert(v == s);
            assert(self.pq.view_map() =~= Map::<usize, i64>::empty());
            crate::lemma_unmarked_count_mark(self.marked@, s as int);
        }
        self.scan(graph, v);
        while !self.pq.is_empty()
            invariant
                graph.wf(),
                adj == graph.adj_view(),
                n == adj.len(),
                s < n,
                old(self).marked@.len() == n,
                self.inv(adj, -1, 0, -1),
                forall|x: int| 0 <= x < n && old(self).marked@[x] ==> self.marked@[x],
                self.marked@[s as int],
            decreases crate::unmarked_count(self.marked@),
        {
            let ghost before = self.pq.view_map();
            let next = self.pq.del_min();
            let v = match next {
                Some(v) => v,
                None => s,
            };
            proof {
                assert(before.contains_key(v));
                if let Some(e) = self.edge_to@[v as int] {
                    assert forall|y: usize| #[trigger] self.pq.view_map().contains_key(y) implies e@.2 <= self.pq.view_map()[y] by {
                        assert(before.contains_key(y));
                    }
                }
                crate::lemma_unmarked_count_mark(self.marked@, v as int);
                let pqm = self.pq.view_map();
                assert forall|y: usize| #[trigger] pqm.contains_key(y) implies y < n && !self.marked@[y as int] && self.edge_to@[y as int] is Some by {
                    assert(before.contains_key(y));
                }
                assert forall|y: int| 0 <= y < n && !self.marked@[y] && self.edge_to@[y] is Some && y != v implies #[trigger] pqm.contains_key(y as usize) by {
                    assert(before.contains_key(y as usize));
                }
                assert forall|y: int|
                    0 <= y < n && !self.marked@[y] implies (#[trigger] self.edge_to@[y] matches Some(e) ==> {
                        &&& e@.1 == y
                        &&& e@.0 < n
                        &&& self.marked@[e@.0 as int]
                        &&& adj[e@.0 as int].contains(e)
                        &&& y != v ==> pqm[y as usize] == e@.2
                        &&& self.dist_to@[y] == e@.2
                    }) by {
                    if y != v && self.edge_to@[y] is Some {
                        assert(before.contains_key(y as usize));
                        assert(pqm[y as usize] == before[y as usize]);
                    }
                }
            }
            self.scan(graph, v);
        }
        proof {
            self.pq.lemma_empty();
        }
    }

    fn new(graph: &EdgeWeightedGraph) -> (r: PrimMST)
        requires
            graph.wf(),
            graph.vertex_count() < usize::MAX,
        ensures
            prim_forest(graph.adj_view(), r.tree(), r.rank()),
    {
        let ghost adj = graph.adj_view();
        let n = graph.v();
        let mut edge_to: Vec<Option<Edge>> = Vec::new();
        let mut dist_to: Vec<i64> = Vec::new();
        let mut marked: Vec<bool> = Vec::new();
        let mut i: usize = 0;
        while i < n
            invariant
                i <= n,
                edge_to@.len() == i,
                dist_to@.len() == i,
                marked@.len() == i,
                forall|k: int| 0 <= k < i ==> #[trigger] edge_to@[k] is None,
                forall|k: int| 0 <= k < i ==> !#[trigger] marked@[k],
            decreases n - i,
        {
            let ghost e0 = edge_to@;
            let ghost m0 = marked@;
            edge_to.push(None);
            dist_to.push(i64::MAX);
            marked.push(false);
            proof {
                assert forall|k: int| 0 <= k <= i implies #[trigger] edge_to@[k] is None && !marked@[k] by {
                    if k < i {
                        assert(edge_to@[k] == e0[k]);
                        assert(marked@[k] == m0[k]);
                    }
                }
            }
            i = i + 1;
        }
        let pq = IndexMinPQ::with_capacity(n);
        let mut ret = PrimMST {
            edge_to,
            dist_to,
            marked,
            pq,
            rank: Ghost(Seq::new(n as nat, |k: int| 0nat)),
            time: Ghost(0),
        };
        proof {
            graph.lemma_adj_entries();
        }
        let mut v: usize = 0;
        while v < n
            invariant
                graph.wf(),
                adj == graph.adj_view(),
                n == adj.len(),
                v <= n,
                ret.inv(adj, -1, 0, -1),
                ret.pq.view_map() == Map::<usize, i64>::empty(),
                forall|x: int| 0 <= x < v ==> ret.marked@[x],
            decreases n - v,
        {
            if !ret.marked[v] {
                ret.prim(graph, v);
            }
            v = v + 1;
        }
        proof {
            let tree = ret.edge_to@;
            let rank = ret.rank@;
            assert forall|x: int| 0 <= x < n implies cut_ok(adj, tree, rank, x) by {
                assert(ret.marked@[x]);
            }
        }
        ret
    }

    /// The edges of the forest, in the order of the vertices they reach.
    pub fn edges(&self) -> (r: Vec<Edge>)
        ensures
            r@ == tree_edges(self.tree()),
    {
        let mut mst: Vec<Edge> = Vec::new();
        let mut i: usize = 0;
        while i < self.edge_to.len()
            invariant
                i <= self.edge_to@.len(),
                mst@ == tree_edges(self.edge_to@.take(i as int)),
            decreases self.edge_to@.len() - i,
        {
            proof {
                assert(self.edge_to@.take(i + 1).drop_last() =~= self.edge_to@.take(i as int));
            }
            match self.edge_to[i] {
                Some(e) => mst.push(e),
                None => {},
            }
            i = i + 1;
        }
        assert(self.edge_to@.take(i as int) =~= self.edge_to@);
        mst
    }
}

impl EdgeWeightedGraph {
    /// Every stored edge starts at the vertex that holds it and ends at a
    /// vertex.
    pub proof fn lemma_adj_entries(&self)
        requires
            self.wf(),
        ensures
            self.adj_view().len() == self.vertex_count(),
            self.edge_count() == all_edges(self.adj_view()).len(),
            entry_count(self.adj_view()) + loop_entries(self.adj_view()) == 2 * self.edge_count(),
            forall|u: int, j: int|
                0 <= u < self.adj_view().len() && 0 <= j < self.adj_view()[u].len() ==> (
                #[trigger] self.adj_view()[u][j])@.0 == u && self.adj_view()[u][j]@.1
                    < self.vertex_count(),
    {
        assert forall|u: int, j: int|
            0 <= u < self.adj_view().len() && 0 <= j < self.adj_view()[u].len() implies (
            #[trigger] self.adj_view()[u][j])@.0 == u && self.adj_view()[u][j]@.1
                < self.vertex_count() by {
            assert(self.adj_view()[u][j] == self.adj@[u]@[j]);
        }
    }

    /// A minimum spanning forest of the graph, one tree per connected part.
    pub fn prim_mst(&self) -> (r: PrimMST)
        requires
            self.wf(),
            self.vertex_count() < usize::MAX,
        ensures
            prim_forest(self.adj_view(), r.tree(), r.rank()),
    {
        PrimMST::new(self)
    }
}

impl IndexMinPQ {
    proof fn lemma_empty(&self)
        requires
            self.wf(),
            self.view_map().len() == 0,
        ensures
            self.view_map() == Map::<usize, i64>::empty(),
    {
        self.lemma_len();
        assert(self.view_map().dom() =~= Set::<usize>::empty());
        assert(self.view_map() =~= Map::<usize, i64>::empty());
    }
}

/// One DOT line per edge of `es`.
pub open spec fn dot_edges(es: Seq<Edge>) -> Seq<char>
    decreases es.len(),
{
    if es.len() == 0 {
        Seq::empty()
    } else {
        dot_edges(es.drop_last()) + "  "@ + decimal(es.last()@.0 as nat) + " -- "@ + decimal(es.last()@.1 as nat)
            + " [ label=\""@ + signed_decimal(es.last()@.2 as int) + "\" ];\n"@
    }
}

/// The graph in the DOT language of Graphviz.
pub open spec fn graph_dot(n: nat, es: Seq<Edge>) -> Seq<char> {
    "graph G {\n"@ + dot_vertices(n) + dot_edges(es) + "}\n"@
}

impl EdgeWeightedGraph {
    /// The graph in the DOT language of Graphviz, each edge once.
    pub fn to_dot(&self) -> (r: String)
        requires
            self.wf(),
        ensures
            r@ == graph_dot(self.vertex_count(), all_edges(self.adj_view())),
    {
        let mut dot = String::new();
        proof {
            reveal_strlit("graph G {\n");
            reveal_strlit("  ");
            reveal_strlit(";\n");
            reveal_strlit(" -- ");
            reveal_strlit(" [ label=\"");
            reveal_strlit("\" ];\n");
            reveal_strlit("}\n");
        }
        dot.append("graph G {\n");
        let mut i: usize = 0;
        while i < self.v
            invariant
                i <= self.v,
                dot@ == "graph G {\n"@ + dot_vertices(i as nat),
            decreases self.v - i,
        {
            dot.append("  ");
            push_decimal(&mut dot, i as u64);
            dot.append(";\n");
            i = i + 1;
            assert(dot@ =~= "graph G {\n"@ + dot_vertices(i as nat));
        }
        let ghost head = dot@;
        let es = self.edges();
        let mut k: usize = 0;
        while k < es.len()
            invariant
                k <= es@.len(),
                dot@ == head + dot_edges(es@.take(k as int)),
            decreases es@.len() - k,
        {
            let e = es[k];
            let v = e.either();
            let w = e.other(v);
            dot.append("  ");
            push_decimal(&mut dot, v as u64);
            dot.append(" -- ");
            push_decimal(&mut dot, w as u64);
            dot.append(" [ label=\"");
            push_signed(&mut dot, e.weight());
            dot.append("\" ];\n");
            proof {
                assert(es@.take(k + 1).drop_last() =~= es@.take(k as int));
            }
            k = k + 1;
            assert(dot@ =~= head + dot_edges(es@.take(k as int)));
        }
        dot.append("}\n");
        proof {
            assert(es@.take(k as int) =~= es@);
            assert(dot@ =~= graph_dot(self.vertex_count(), all_edges(self.adj_view())));
        }
        dot
    }
}

/// The lists after adding `e` to the lists of both its ends (once for a
/// self-loop).
pub open spec fn with_edge(adj: Seq<Seq<Edge>>, e: Edge) -> Seq<Seq<Edge>> {
    if e@.0 == e@.1 {
        adj.update(e@.0 as int, adj[e@.0 as int].push(e))
    } else {
        adj.update(e@.0 as int, adj[e@.0 as int].push(e)).update(e@.1 as int, adj[e@.1 as int].push(e.swap_spec()))
    }
}

/// Sum of the weights of `es`.
pub open spec fn weight_sum(es: Seq<Edge>) -> int
    decreases es.len(),
{
    if es.len() == 0 {
        0
    } else {
        weight_sum(es.drop_last()) + es.last()@.2
    }
}

impl PrimMST {
    /// Total weight of the forest.
    pub fn total_weight(&self) -> (r: i128)
        ensures
            r == weight_sum(tree_edges(self.tree())),
    {
        let es = self.edges();
        let mut sum: i128 = 0;
        let mut k: usize = 0;
        while k < es.len()
            invariant
                k <= es@.len(),
                sum == weight_sum(es@.take(k as int)),
                -(k as int) * 0x8000_0000_0000_0000 <= sum <= (k as int) * 0x8000_0000_0000_0000,
            decreases es@.len() - k,
        {
            proof {
                assert(es@.take(k + 1).drop_last() =~= es@.take(k as int));
                assert((k as int) * 0x8000_0000_0000_0000 < 0x1_0000_0000_0000_0000 * 0x8000_0000_0000_0000) by (nonlinear_arith)
                    requires k < 0x1_0000_0000_0000_0000int;
            }
            sum = sum + es[k].weight() as i128;
            k = k + 1;
        }
        assert(es@.take(k as int) =~= es@);
        sum
    }
}

} // verus!
