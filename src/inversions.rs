use vstd::prelude::*;

verus! {

broadcast use vstd::multiset::group_multiset_axioms, vstd::seq_lib::group_to_multiset_ensures;

/// How many entries of `a` are greater than `y`.
pub open spec fn count_greater(a: Seq<usize>, y: usize) -> nat
    decreases a.len(),
{
    if a.len() == 0 {
        0
    } else {
        count_greater(a.drop_last(), y) + if a.last() > y { 1nat } else { 0nat }
    }
}

/// Number of pairs `i < j` with `s[i] > s[j]`.
pub open spec fn inversions(s: Seq<usize>) -> nat
    decreases s.len(),
{
    if s.len() == 0 {
        0
    } else {
        inversions(s.drop_last()) + count_greater(s.drop_last(), s.last())
    }
}

/// Number of pairs of an entry of `a` and an entry of `b` with the first
/// greater.
pub open spec fn cross(a: Seq<usize>, b: Seq<usize>) -> nat
    decreases b.len(),
{
    if b.len() == 0 {
        0
    } else {
        cross(a, b.drop_last()) + count_greater(a, b.last())
    }
}

pub open spec fn sorted(s: Seq<usize>) -> bool {
    forall|i: int, j: int| 0 <= i < j < s.len() ==> s[i] <= s[j]
}

proof fn lemma_count_greater_concat(a: Seq<usize>, b: Seq<usize>, y: usize)
    ensures
        count_greater(a + b, y) == count_greater(a, y) + count_greater(b, y),
    decreases b.len(),
{
    if b.len() == 0 {
        assert(a + b =~= a);
    } else {
        assert((a + b).drop_last() =~= a + b.drop_last());
        lemma_count_greater_concat(a, b.drop_last(), y);
    }
}

/// Inversions of a concatenation: those inside each part and those across.
proof fn lemma_inversions_concat(a: Seq<usize>, b: Seq<usize>)
    ensures
        inversions(a + b) == inversions(a) + inversions(b) + cross(a, b),
    decreases b.len(),
{
    if b.len() == 0 {
        assert(a + b =~= a);
    } else {
        let b1 = b.drop_last();
        assert((a + b).drop_last() =~= a + b1);
        lemma_inversions_concat(a, b1);
        lemma_count_greater_concat(a, b1, b.last());
    }
}

proof fn lemma_count_greater_remove(a: Seq<usize>, i: int, y: usize)
    requires
        0 <= i < a.len(),
    ensures
        count_greater(a, y) == count_greater(a.remove(i), y) + if a[i] > y { 1nat } else { 0nat },
    decreases a.len(),
{
    if i == a.len() - 1 {
        assert(a.remove(i) =~= a.drop_last());
    } else {
        assert(a.remove(i).drop_last() =~= a.drop_last().remove(i));
        assert(a.remove(i).last() == a.last());
        lemma_count_greater_remove(a.drop_last(), i, y);
    }
}

/// `count_greater` depends on the multiset of entries only.
proof fn lemma_count_greater_perm(a: Seq<usize>, c: Seq<usize>, y: usize)
    requires
        a.to_multiset() == c.to_multiset(),
    ensures
        count_greater(a, y) == count_greater(c, y),
    decreases a.len(),
{
    if a.len() == 0 {
        assert(a.to_multiset().len() == 0);
        assert(c.to_multiset().len() == c.len());
        assert(c.len() == 0);
    } else {
        let x = a.last();
        assert(a.to_multiset().count(x) > 0) by {
            assert(a.contains(x));
        }
        assert(c.contains(x));
        let i = choose|i: int| 0 <= i < c.len() && c[i] == x;
        assert(a.drop_last().to_multiset() =~= c.remove(i).to_multiset()) by {
            assert(a =~= a.drop_last().push(x));
            assert(a.to_multiset() == a.drop_last().to_multiset().insert(x));
        }
        lemma_count_greater_perm(a.drop_last(), c.remove(i), y);
        lemma_count_greater_remove(c, i, y);
    }
}

proof fn lemma_cross_remove(a: Seq<usize>, b: Seq<usize>, i: int)
    requires
        0 <= i < b.len(),
    ensures
        cross(a, b) == cross(a, b.remove(i)) + count_greater(a, b[i]),
    decreases b.len(),
{
    if i == b.len() - 1 {
        assert(b.remove(i) =~= b.drop_last());
    } else {
        assert(b.remove(i).drop_last() =~= b.drop_last().remove(i));
        assert(b.remove(i).last() == b.last());
        lemma_cross_remove(a, b.drop_last(), i);
    }
}

/// `cross` depends on the multisets of the two parts only.
proof fn lemma_cross_perm(a: Seq<usize>, b: Seq<usize>, c: Seq<usize>, d: Seq<usize>)
    requires
        a.to_multiset() == c.to_multiset(),
        b.to_multiset() == d.to_multiset(),
    ensures
        cross(a, b) == cross(c, d),
    decreases b.len(),
{
    if b.len() == 0 {
        assert(b.to_multiset().len() == 0);
        assert(d.to_multiset().len() == d.len());
        assert(d.len() == 0);
        assert(d =~= Seq::<usize>::empty());
    } else {
        let y = b.last();
        assert(b.to_multiset().count(y) > 0) by {
            assert(b.contains(y));
        }
        assert(d.contains(y));
        let i = choose|i: int| 0 <= i < d.len() && d[i] == y;
        assert(b.drop_last().to_multiset() =~= d.remove(i).to_multiset()) by {
            assert(b =~= b.drop_last().push(y));
            assert(b.to_multiset() == b.drop_last().to_multiset().insert(y));
        }
        lemma_cross_perm(a, b.drop_last(), c, d.remove(i));
        lemma_cross_remove(c, d, i);
        lemma_count_greater_perm(a, c, y);
    }
}

/// In a sorted sequence whose first `i` entries are at most `y` and whose
/// entry `i` exceeds it, exactly the entries from `i` on exceed `y`.
proof fn lemma_count_greater_sorted(a: Seq<usize>, y: usize, i: int)
    requires
        sorted(a),
        0 <= i <= a.len(),
        forall|k: int| 0 <= k < i ==> a[k] <= y,
        i < a.len() ==> a[i] > y,
    ensures
        count_greater(a, y) == a.len() - i,
    decreases a.len(),
{
    if a.len() > 0 {
        if i == a.len() {
            lemma_count_greater_sorted(a.drop_last(), y, i - 1);
        } else {
            lemma_count_greater_sorted(a.drop_last(), y, i);
        }
    }
}

/// Merges the sorted halves `seq[..mid]` and `seq[mid..]` and returns the
/// number of pairs across the halves that are out of order.
fn merge(seq: &mut [usize], mid: usize) -> (r: usize)
    requires
        0 < mid <= old(seq)@.len(),
        mid * (old(seq)@.len() - mid) <= usize::MAX,
        sorted(old(seq)@.subrange(0, mid as int)),
        sorted(old(seq)@.subrange(mid as int, old(seq)@.len() as int)),
    ensures
        sorted(final(seq)@),
        final(seq)@.len() == old(seq)@.len(),
        final(seq)@.to_multiset() == old(seq)@.to_multiset(),
        r == cross(old(seq)@.subrange(0, mid as int), old(seq)@.subrange(mid as int, old(seq)@.len() as int)),
        r <= mid * (old(seq)@.len() - mid),
{
    let n = seq.len();
    let ghost s0 = seq@;
    let ghost a = s0.subrange(0, mid as int);
    let ghost b = s0.subrange(mid as int, n as int);
    let mut inv_cnt: usize = 0;
    let mut i: usize = 0;
    let mut j: usize = mid;
    let mut temp: Vec<usize> = Vec::with_capacity(n);
    proof {
        assert(a.take(0) =~= Seq::<usize>::empty());
        assert(b.take(0) =~= Seq::<usize>::empty());
    }
    while i < mid || j < n
        invariant
            seq@ == s0,
            n == s0.len(),
            mid * (n - mid) <= usize::MAX,
            0 < mid <= n,
            a == s0.subrange(0, mid as int),
            b == s0.subrange(mid as int, n as int),
            sorted(a),
            sorted(b),
            0 <= i <= mid,
            mid <= j <= n,
            temp@.len() == i + (j - mid),
            temp@.to_multiset() == a.take(i as int).to_multiset().add(b.take(j - mid).to_multiset()),
            sorted(temp@),
            temp@.len() > 0 && i < mid ==> temp@.last() <= a[i as int],
            temp@.len() > 0 && j < n ==> temp@.last() <= b[j - mid],
            forall|k: int| 0 <= k < i && j < n ==> #[trigger] a[k] <= b[j - mid],
            inv_cnt == cross(a, b.take(j - mid)),
            inv_cnt <= mid * (j - mid),
        decreases (mid - i) + (n - j),
    {
        let ghost t0 = temp@;
        if i < mid && (j == n || seq[i] <= seq[j]) {
            let x = seq[i];
            proof {
                assert(x == a[i as int]);
                assert(a.take(i + 1) =~= a.take(i as int).push(x));
            }
            temp.push(x);
            proof {
                assert forall|p: int, q: int| 0 <= p < q < temp@.len() implies temp@[p] <= temp@[q] by {
                    if q == temp@.len() - 1 && p < t0.len() {
                        assert(t0[p] <= t0.last());
                    }
                }
                assert forall|k: int| 0 <= k < i + 1 && j < n implies #[trigger] a[k] <= b[j - mid] by {
                    if k == i {
                        assert(b[j - mid] == seq@[j as int]);
                    }
                }
            }
            i = i + 1;
        } else {
            let y = seq[j];
            proof {
                assert(y == b[j - mid]);
                assert(b.take(j - mid + 1) =~= b.take(j - mid).push(y));
                assert(b.take(j - mid + 1).drop_last() =~= b.take(j - mid));
                if i < mid {
                    assert(a[i as int] == seq@[i as int]);
                }
                lemma_count_greater_sorted(a, y, i as int);
                assert(inv_cnt + (mid - i) <= mid * (j - mid + 1)) by (nonlinear_arith)
                    requires inv_cnt <= mid * (j - mid), i <= mid;
                assert(mid * (j - mid + 1) <= mid * (n - mid)) by (nonlinear_arith)
                    requires j < n, mid <= j;
            }
            inv_cnt = inv_cnt + (mid - i);
            temp.push(y);
            proof {
                assert forall|p: int, q: int| 0 <= p < q < temp@.len() implies temp@[p] <= temp@[q] by {
                    if q == temp@.len() - 1 && p < t0.len() {
                        assert(t0[p] <= t0.last());
                    }
                }
                assert forall|k: int| 0 <= k < i && j + 1 < n implies #[trigger] a[k] <= b[j + 1 - mid] by {
                    assert(b[j - mid] <= b[j + 1 - mid]);
                }
            }
            j = j + 1;
        }
    }
    proof {
        assert(a.take(mid as int) =~= a);
        assert(b.take(n - mid) =~= b);
        assert(s0 =~= a + b);
        vstd::seq_lib::lemma_multiset_commutative(a, b);
    }
    let mut k: usize = 0;
    while k < n
        invariant
            k <= n,
            n == temp@.len(),
            seq@.len() == n,
            forall|q: int| 0 <= q < k ==> #[trigger] seq@[q] == temp@[q],
        decreases n - k,
    {
        seq[k] = temp[k];
        k = k + 1;
    }
    proof {
        assert(seq@ =~= temp@);
    }
    inv_cnt
}

/// Sorts `seq` by merge sort and returns its number of inversions: pairs
/// `i < j` with `seq[i] > seq[j]`.
pub fn merge_sort_and_count_inversions(seq: &mut [usize]) -> (r: usize)
    requires
        old(seq)@.len() * (old(seq)@.len() - 1) <= 2 * usize::MAX,
    ensures
        sorted(final(seq)@),
        final(seq)@.len() == old(seq)@.len(),
        final(seq)@.to_multiset() == old(seq)@.to_multiset(),
        r == inversions(old(seq)@),
        2 * r <= old(seq)@.len() * (old(seq)@.len() - 1),
    decreases old(seq)@.len(),
{
    let n = seq.len();
    if n <= 1 {
        proof {
            if n == 1 {
                assert(seq@.drop_last() =~= Seq::<usize>::empty());
                assert(inversions(seq@.drop_last()) == 0);
                assert(count_greater(seq@.drop_last(), seq@.last()) == 0);
                assert(inversions(seq@) == 0);
            } else {
                assert(inversions(seq@) == 0);
            }
            assert(sorted(seq@));
        }
        proof {
            let m = old(seq)@.len() as int;
            assert(m * (m - 1) >= 0) by (nonlinear_arith)
                requires 0 <= m;
        }
        return 0;
    }
    let mid = n / 2;
    let ghost s0 = seq@;
    let ghost a0 = s0.subrange(0, mid as int);
    let ghost b0 = s0.subrange(mid as int, n as int);
    let (left, right) = seq.split_at_mut(mid);
    proof {
        assert(left@.len() * (left@.len() - 1) <= 2 * usize::MAX) by (nonlinear_arith)
            requires left@.len() <= n, n * (n - 1) <= 2 * usize::MAX, n >= 2;
        assert(right@.len() * (right@.len() - 1) <= 2 * usize::MAX) by (nonlinear_arith)
            requires right@.len() <= n, n * (n - 1) <= 2 * usize::MAX, n >= 2;
        assert(mid * (n - mid) <= usize::MAX) by (nonlinear_arith)
            requires mid == n / 2, n * (n - 1) <= 2 * usize::MAX, n >= 2;
    }
    let x = merge_sort_and_count_inversions(left);
    let y = merge_sort_and_count_inversions(right);
    let ghost a1 = left@;
    let ghost b1 = right@;
    proof {
        assert(seq@ == a1 + b1);
        assert(seq@.subrange(0, mid as int) =~= a1);
        assert(seq@.subrange(mid as int, n as int) =~= b1);
        vstd::seq_lib::lemma_multiset_commutative(a1, b1);
        vstd::seq_lib::lemma_multiset_commutative(a0, b0);
        assert(s0 =~= a0 + b0);
    }
    let z = merge(seq, mid);
    proof {
        lemma_inversions_concat(a0, b0);
        lemma_cross_perm(a0, b0, a1, b1);
        assert(2 * (x + y + z) <= n * (n - 1)) by (nonlinear_arith)
            requires 2 * x <= mid * (mid - 1), 2 * y <= (n - mid) * (n - mid - 1), z <= mid * (n - mid), mid <= n;
    }
    x + y + z
}

} // verus!
