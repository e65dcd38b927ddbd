use vstd::prelude::*;

verus! {

broadcast use vstd::multiset::group_multiset_axioms, vstd::seq_lib::group_to_multiset_ensures;

pub open spec fn swap_spec(s: Seq<i32>, a: int, b: int) -> Seq<i32> {
    s.update(a, s[b]).update(b, s[a])
}

pub open spec fn sorted(s: Seq<i32>) -> bool {
    forall|i: int, j: int| 0 <= i < j < s.len() ==> s[i] <= s[j]
}

/// Index of the median of the first, middle and last entries.
pub open spec fn median3(s: Seq<i32>) -> int {
    let m = (s.len() + 1) / 2 - 1;
    let a = s[0] as int;
    let b = s[m] as int;
    let c = s[s.len() - 1] as int;
    if (a - b) * (b - c) >= 0 {
        m
    } else if (a - b) * (a - c) <= 0 {
        0
    } else {
        s.len() - 1
    }
}

/// Lomuto partition around `s[0]` after scanning entries `1 .. j`: the
/// entries and the first index not known to be smaller than the pivot.
pub open spec fn lomuto(s: Seq<i32>, j: int) -> (Seq<i32>, int)
    decreases j,
{
    if j <= 1 {
        (s, 1)
    } else {
        let (t, i) = lomuto(s, j - 1);
        if t[j - 1] < s[0] {
            (swap_spec(t, j - 1, i), i + 1)
        } else {
            (t, i)
        }
    }
}

/// The entries after partitioning around `s[0]`, and one past the pivot's
/// final place.
pub open spec fn partition_spec(s: Seq<i32>) -> (Seq<i32>, int) {
    let (t, i) = lomuto(s, s.len() as int);
    (swap_spec(t, 0, i - 1), i)
}

/// Comparisons that quicksort with median-of-three pivots makes: `m - 1`
/// for every call on a part of length `m`.
pub open spec fn qs_count(s: Seq<i32>) -> nat
    decreases s.len(),
{
    if s.len() <= 1 {
        0
    } else {
        let s1 = swap_spec(s, 0, median3(s));
        let (s2, i) = partition_spec(s1);
        if 1 <= i <= s.len() && s2.len() == s.len() {
            (s.len() - 1) as nat + qs_count(s2.subrange(0, i - 1)) + qs_count(s2.subrange(i, s.len() as int))
        } else {
            0
        }
    }
}

proof fn lemma_lomuto(s: Seq<i32>, j: int)
    requires
        1 <= j <= s.len(),
    ensures
        ({
            let (t, i) = lomuto(s, j);
            &&& 1 <= i <= j
            &&& t.len() == s.len()
            &&& t[0] == s[0]
            &&& t.to_multiset() == s.to_multiset()
            &&& forall|k: int| 1 <= k < i ==> #[trigger] t[k] < s[0]
            &&& forall|k: int| i <= k < j ==> #[trigger] t[k] >= s[0]
            &&& forall|k: int| j <= k < s.len() ==> #[trigger] t[k] == s[k]
        }),
    decreases j,
{
    if j > 1 {
        lemma_lomuto(s, j - 1);
        let (t, i) = lomuto(s, j - 1);
        if t[j - 1] < s[0] {
            vstd::seq_lib::to_multiset_update(t, j - 1, t[i]);
            vstd::seq_lib::to_multiset_update(t.update(j - 1, t[i]), i, t[j - 1]);
            assert(t.contains(t[j - 1]));
            assert(t.update(j - 1, t[i]).contains(t[i]));
            assert(swap_spec(t, j - 1, i).to_multiset() =~= t.to_multiset());
        }
    }
}

proof fn lemma_partition(s: Seq<i32>)
    requires
        s.len() >= 1,
    ensures
        ({
            let (t, i) = partition_spec(s);
            &&& 1 <= i <= s.len()
            &&& t.len() == s.len()
            &&& t[i - 1] == s[0]
            &&& t.to_multiset() == s.to_multiset()
            &&& forall|k: int| 0 <= k < i - 1 ==> #[trigger] t[k] < s[0]
            &&& forall|k: int| i <= k < s.len() ==> #[trigger] t[k] >= s[0]
        }),
{
    lemma_lomuto(s, s.len() as int);
    let (t, i) = lomuto(s, s.len() as int);
    vstd::seq_lib::to_multiset_update(t, 0, t[i - 1]);
    vstd::seq_lib::to_multiset_update(t.update(0, t[i - 1]), i - 1, t[0]);
    assert(t.contains(t[0]));
    assert(t.update(0, t[i - 1]).contains(t[i - 1]));
    assert(swap_spec(t, 0, i - 1).to_multiset() =~= t.to_multiset());
    let u = swap_spec(t, 0, i - 1);
    assert forall|k: int| 0 <= k < i - 1 implies #[trigger] u[k] < s[0] by {
        if k == 0 {
            assert(u[0] == t[i - 1]);
        }
    }
}

fn swap(arr: &mut [i32], a: usize, b: usize)
    requires
        a < old(arr)@.len(),
        b < old(arr)@.len(),
    ensures
        final(arr)@ == swap_spec(old(arr)@, a as int, b as int),
{
    let x = arr[a];
    let y = arr[b];
    arr[a] = y;
    arr[b] = x;
}

/// Index of the median of the first, middle and last entries.
pub fn median_of_three(arr: &[i32]) -> (r: usize)
    requires
        arr@.len() >= 1,
    ensures
        r == median3(arr@),
        r < arr@.len(),
{
    let first: usize = 0;
    // middle of the array
    let middle: usize = (arr.len() - 1) / 2;
    let last: usize = arr.len() - 1;
    let a = arr[first] as i64;
    let b = arr[middle] as i64;
    let c = arr[last] as i64;
    let ab = a - b;
    let bc = b - c;
    let ac = a - c;
    proof {
        assert(ab * bc <= 0x1_0000_0000 * 0x1_0000_0000) by (nonlinear_arith)
            requires -0x1_0000_0000 <= ab <= 0x1_0000_0000, -0x1_0000_0000 <= bc <= 0x1_0000_0000;
        assert(-0x1_0000_0000 * 0x1_0000_0000 <= ab * bc) by (nonlinear_arith)
            requires -0x1_0000_0000 <= ab <= 0x1_0000_0000, -0x1_0000_0000 <= bc <= 0x1_0000_0000;
        assert(-0x1_0000_0000 * 0x1_0000_0000 <= ab * ac <= 0x1_0000_0000 * 0x1_0000_0000) by (nonlinear_arith)
            requires -0x1_0000_0000 <= ab <= 0x1_0000_0000, -0x1_0000_0000 <= ac <= 0x1_0000_0000;
    }
    let p1 = ab as i128 * bc as i128;
    let p2 = ab as i128 * ac as i128;
    if p1 >= 0 {
        middle
    } else if p2 <= 0 {
        first
    } else {
        last
    }
}

fn choose_pivot(arr: &[i32]) -> (r: usize)
    requires
        arr@.len() >= 1,
    ensures
        r == median3(arr@),
        r < arr@.len(),
{
    median_of_three(arr)
}

/// Lomuto partition around the first entry; returns one past the pivot's
/// final place.
pub fn inplace_partition(arr: &mut [i32]) -> (r: usize)
    requires
        old(arr)@.len() >= 1,
    ensures
        (final(arr)@, r as int) == partition_spec(old(arr)@),
{
    let pivot: usize = 0;
    let n = arr.len();
    let p = arr[pivot];
    let mut i: usize = pivot + 1;
    let mut j: usize = pivot + 1;
    proof {
        lemma_lomuto(old(arr)@, 1);
    }
    while j < n
        invariant
            1 <= j <= n,
            n == old(arr)@.len(),
            p == old(arr)@[0],
            (arr@, i as int) == lomuto(old(arr)@, j as int),
        decreases n - j,
    {
        proof {
            lemma_lomuto(old(arr)@, j as int);
        }
        if arr[j] < p {
            swap(arr, j, i);
            i = i + 1;
        }
        j = j + 1;
    }
    proof {
        lemma_lomuto(old(arr)@, n as int);
    }
    swap(arr, pivot, i - 1);
    i
}

/// Sorts `arr` in place by quicksort with median-of-three pivots and
/// returns the number of comparisons with a pivot.
pub fn quick_sort(arr: &mut [i32]) -> (r: usize)
    requires
        old(arr)@.len() * (old(arr)@.len() - 1) <= 2 * usize::MAX,
    ensures
        sorted(final(arr)@),
        final(arr)@.to_multiset() == old(arr)@.to_multiset(),
        final(arr)@.len() == old(arr)@.len(),
        r == qs_count(old(arr)@),
        2 * r <= old(arr)@.len() * (old(arr)@.len() - 1),
    decreases old(arr)@.len(),
{
    let n = arr.len();
    if n <= 1 {
        proof {
            assert(sorted(arr@));
        }
        proof {
            let m = old(arr)@.len() as int;
            assert(m * (m - 1) >= 0) by (nonlinear_arith)
                requires 0 <= m;
        }
        return 0;
    }
    let ghost s = arr@;
    let pivot = choose_pivot(arr);
    if pivot != 0 {
        swap(arr, 0, pivot);
    }
    let ghost s1 = arr@;
    proof {
        assert(s1 == swap_spec(s, 0, median3(s)));
        vstd::seq_lib::to_multiset_update(s, 0, s[pivot as int]);
        vstd::seq_lib::to_multiset_update(s.update(0, s[pivot as int]), pivot as int, s[0]);
        assert(s.contains(s[0]));
        assert(s.update(0, s[pivot as int]).contains(s[pivot as int]));
        assert(s1.to_multiset() =~= s.to_multiset());
    }
    let mid = inplace_partition(arr);
    let ghost s2 = arr@;
    proof {
        lemma_partition(s1);
    }
    let (left, right) = arr.split_at_mut(mid);
    let (lo, _pv) = left.split_at_mut(mid - 1);
    assert(lo@ == s2.subrange(0, mid - 1));
    assert(right@ == s2.subrange(mid as int, n as int));
    proof {
        assert(lo@.len() * (lo@.len() - 1) <= 2 * usize::MAX) by (nonlinear_arith)
            requires lo@.len() <= n, n * (n - 1) <= 2 * usize::MAX, n >= 2;
        assert(right@.len() * (right@.len() - 1) <= 2 * usize::MAX) by (nonlinear_arith)
            requires right@.len() <= n, n * (n - 1) <= 2 * usize::MAX, n >= 2;
    }
    let ghost lo0 = lo@;
    let ghost r0 = right@;
    let ghost pv = _pv@;
    let x = quick_sort(lo);
    let y = quick_sort(right);
    proof {
        let p = s1[0];
        let a = lo@;
        let b = right@;
        assert(pv =~= seq![p]);
        assert(s2 =~= lo0 + pv + r0);
        vstd::seq_lib::lemma_multiset_commutative(lo0 + pv, r0);
        vstd::seq_lib::lemma_multiset_commutative(lo0, pv);
        vstd::seq_lib::lemma_multiset_commutative(a + pv, b);
        vstd::seq_lib::lemma_multiset_commutative(a, pv);
        assert(arr@ =~= a + pv + b);
        assert forall|k: int| 0 <= k < a.len() implies #[trigger] a[k] < p by {
            assert(a.contains(a[k]));
            assert(lo0.to_multiset().count(a[k]) > 0);
            assert(lo0.contains(a[k]));
            let m = choose|m: int| 0 <= m < lo0.len() && lo0[m] == a[k];
            assert(s2[m] == lo0[m]);
        }
        assert forall|k: int| 0 <= k < b.len() implies #[trigger] b[k] >= p by {
            assert(b.contains(b[k]));
            assert(r0.to_multiset().count(b[k]) > 0);
            assert(r0.contains(b[k]));
            let m = choose|m: int| 0 <= m < r0.len() && r0[m] == b[k];
            assert(s2[mid + m] == r0[m]);
        }
        let t = arr@;
        assert forall|i: int, j: int| 0 <= i < j < t.len() implies t[i] <= t[j] by {
            let la = a.len() as int;
            if j < la {
                assert(t[i] == a[i] && t[j] == a[j]);
            } else if i < la {
                assert(t[i] == a[i]);
                if j == la {
                    assert(t[j] == p);
                } else {
                    assert(t[j] == b[j - la - 1]);
                }
            } else if i == la {
                assert(t[i] == p);
                assert(t[j] == b[j - la - 1]);
            } else {
                assert(t[i] == b[i - la - 1] && t[j] == b[j - la - 1]);
            }
        }
        let la = lo0.len();
        let lb = r0.len();
        assert(la + lb + 1 == n);
        assert(2 * (x + y + n - 1) <= n * (n - 1)) by (nonlinear_arith)
            requires 2 * x <= la * (la - 1), 2 * y <= lb * (lb - 1), la + lb + 1 == n, n >= 2, la >= 0, lb >= 0;
    }
    n - 1 + x + y
}

} // verus!
