use vstd::prelude::*;

verus! {

broadcast use vstd::multiset::group_multiset_axioms, vstd::seq_lib::group_to_multiset_ensures;

/// How many entries of `s` are at most `t`.
pub open spec fn count_le(s: Seq<i64>, t: int) -> nat
    decreases s.len(),
{
    if s.len() == 0 {
        0
    } else {
        count_le(s.drop_last(), t) + if s.last() <= t { 1nat } else { 0nat }
    }
}

/// `m` is the lower median of `s`: the entry at place `(len - 1) / 2` once
/// `s` is sorted.
pub open spec fn is_lower_median(s: Seq<i64>, m: i64) -> bool {
    &&& count_le(s, m - 1) <= (s.len() - 1) / 2
    &&& count_le(s, m as int) >= (s.len() - 1) / 2 + 1
}

pub open spec fn sorted(s: Seq<i64>) -> bool {
    forall|i: int, j: int| 0 <= i < j < s.len() ==> s[i] <= s[j]
}

proof fn lemma_count_le_concat(a: Seq<i64>, b: Seq<i64>, t: int)
    ensures
        count_le(a + b, t) == count_le(a, t) + count_le(b, t),
    decreases b.len(),
{
    if b.len() == 0 {
        assert(a + b =~= a);
    } else {
        assert((a + b).drop_last() =~= a + b.drop_last());
        lemma_count_le_concat(a, b.drop_last(), t);
    }
}

proof fn lemma_count_le_remove(a: Seq<i64>, i: int, t: int)
    requires
        0 <= i < a.len(),
    ensures
        count_le(a, t) == count_le(a.remove(i), t) + if a[i] <= t { 1nat } else { 0nat },
    decreases a.len(),
{
    if i == a.len() - 1 {
        assert(a.remove(i) =~= a.drop_last());
    } else {
        assert(a.remove(i).drop_last() =~= a.drop_last().remove(i));
        assert(a.remove(i).last() == a.last());
        lemma_count_le_remove(a.drop_last(), i, t);
    }
}

/// `count_le` depends on the multiset of entries only.
proof fn lemma_count_le_perm(a: Seq<i64>, c: Seq<i64>, t: int)
    requires
        a.to_multiset() == c.to_multiset(),
    ensures
        count_le(a, t) == count_le(c, t),
    decreases a.len(),
{
    if a.len() == 0 {
        assert(a.to_multiset().len() == 0);
        assert(c.to_multiset().len() == c.len());
    } else {
        let x = a.last();
        assert(a.to_multiset().count(x) > 0) by {
            assert(a.contains(x));
        }
        assert(c.contains(x));
        let i = choose|i: int| 0 <= i < c.len() && c[i] == x;
        assert(a.drop_last().to_multiset() =~= c.remove(i).to_multiset()) by {
            assert(a =~= a.drop_last().push(x));
        }
        lemma_count_le_perm(a.drop_last(), c.remove(i), t);
        lemma_count_le_remove(c, i, t);
    }
}

/// In a sorted sequence, every entry is at most the last.
proof fn lemma_count_le_sorted(s: Seq<i64>)
    requires
        sorted(s),
        s.len() > 0,
    ensures
        count_le(s, s.last() as int) == s.len(),
        count_le(s, s.last() - 1) <= s.len() - 1,
    decreases s.len(),
{
    lemma_count_le_all(s.drop_last(), s.last() as int);
    lemma_count_le_bound(s.drop_last(), s.last() - 1);
}

proof fn lemma_count_le_all(s: Seq<i64>, t: int)
    requires
        forall|i: int| 0 <= i < s.len() ==> s[i] <= t,
    ensures
        count_le(s, t) == s.len(),
    decreases s.len(),
{
    if s.len() > 0 {
        lemma_count_le_all(s.drop_last(), t);
    }
}

proof fn lemma_count_le_none(s: Seq<i64>, t: int)
    requires
        forall|i: int| 0 <= i < s.len() ==> s[i] > t,
    ensures
        count_le(s, t) == 0,
    decreases s.len(),
{
    if s.len() > 0 {
        lemma_count_le_none(s.drop_last(), t);
    }
}

proof fn lemma_count_le_bound(s: Seq<i64>, t: int)
    ensures
        count_le(s, t) <= s.len(),
    decreases s.len(),
{
    if s.len() > 0 {
        lemma_count_le_bound(s.drop_last(), t);
    }
}

/// Inserts `val` into the sorted `v`, after the entries not above it.
fn insert_sorted(v: &mut Vec<i64>, val: i64)
    requires
        sorted(old(v)@),
    ensures
        sorted(final(v)@),
        final(v)@.to_multiset() == old(v)@.to_multiset().insert(val),
        final(v)@.len() == old(v)@.len() + 1,
        forall|x: i64| final(v)@.contains(x) ==> old(v)@.contains(x) || x == val,
{
    let mut pos: usize = 0;
    while pos < v.len() && v[pos] <= val
        invariant
            pos <= v@.len(),
            v@ == old(v)@,
            forall|k: int| 0 <= k < pos ==> #[trigger] v@[k] <= val,
        decreases v@.len() - pos,
    {
        pos = pos + 1;
    }
    let ghost s = v@;
    v.insert(pos, val);
    proof {
        assert(v@ == s.insert(pos as int, val));
        assert forall|i: int, j: int| 0 <= i < j < v@.len() implies v@[i] <= v@[j] by {
            if j < pos {
            } else if j == pos {
                assert(v@[i] == s[i]);
            } else if i < pos {
                assert(v@[j] == s[j - 1]);
            } else if i == pos {
                assert(v@[j] == s[j - 1]);
                assert(s[pos as int] > val);
            } else {
                assert(v@[i] == s[i - 1] && v@[j] == s[j - 1]);
            }
        }
        assert forall|x: i64| v@.contains(x) implies s.contains(x) || x == val by {
            let k = choose|k: int| 0 <= k < v@.len() && v@[k] == x;
            if k < pos {
                assert(s[k] == x);
            } else if k > pos {
                assert(s[k - 1] == x);
            }
        }
    }
}

/// An `i64` whose order is turned around.
#[derive(PartialEq, Eq, Structural, Clone, Copy, Debug)]
pub struct ReverseOrder(i64);

impl ReverseOrder {
    pub closed spec fn value(&self) -> i64 {
        self.0
    }

    pub fn new(val: i64) -> (r: ReverseOrder)
        ensures
            r.value() == val,
    {
        ReverseOrder(val)
    }

    pub fn unwrap(self) -> (r: i64)
        ensures
            r == self.value(),
    {
        self.0
    }

    pub fn as_ref(&self) -> (r: &i64)
        ensures
            *r == self.value(),
    {
        &self.0
    }
}

impl PartialOrd for ReverseOrder {
    fn partial_cmp(&self, other: &ReverseOrder) -> (r: Option<core::cmp::Ordering>) {
        if self.0 > other.0 {
            Some(core::cmp::Ordering::Less)
        } else if self.0 < other.0 {
            Some(core::cmp::Ordering::Greater)
        } else {
            Some(core::cmp::Ordering::Equal)
        }
    }
}

impl vstd::std_specs::cmp::PartialOrdSpecImpl for ReverseOrder {
    open spec fn obeys_partial_cmp_spec() -> bool {
        true
    }

    open spec fn partial_cmp_spec(&self, other: &ReverseOrder) -> Option<core::cmp::Ordering> {
        if self.value() > other.value() {
            Some(core::cmp::Ordering::Less)
        } else if self.value() < other.value() {
            Some(core::cmp::Ordering::Greater)
        } else {
            Some(core::cmp::Ordering::Equal)
        }
    }
}

/// Keeps the lower median of a growing collection of numbers: the lower
/// half and the upper half, each sorted.
pub struct MedianMaintainer {
    h_low: Vec<i64>,
    h_high: Vec<i64>,
    values: Ghost<Seq<i64>>,
}

impl MedianMaintainer {
    /// The numbers pushed so far, in order.
    pub closed spec fn values(&self) -> Seq<i64> {
        self.values@
    }

    pub closed spec fn wf(&self) -> bool {
        let low = self.h_low@;
        let high = self.h_high@;
        &&& sorted(low)
        &&& sorted(high)
        &&& low.len() == high.len() || low.len() == high.len() + 1
        &&& low.len() > 0 && high.len() > 0 ==> low.last() <= high[0]
        &&& low.to_multiset().add(high.to_multiset()) == self.values@.to_multiset()
    }

    pub fn new() -> (r: MedianMaintainer)
        ensures
            r.wf(),
            r.values() == Seq::<i64>::empty(),
    {
        let r = MedianMaintainer { h_low: Vec::new(), h_high: Vec::new(), values: Ghost(Seq::empty()) };
        proof {
            assert(r.h_low@ =~= Seq::<i64>::empty());
            assert(r.h_high@ =~= Seq::<i64>::empty());
            assert(Seq::<i64>::empty().to_multiset() =~= vstd::multiset::Multiset::<i64>::empty());
            assert(r.h_low@.to_multiset().add(r.h_high@.to_multiset()) =~= r.values@.to_multiset());
        }
        r
    }

    pub fn push(&mut self, val: i64)
        requires
            old(self).wf(),
        ensures
            final(self).wf(),
            final(self).values() == old(self).values().push(val),
    {
        let ghost low0 = self.h_low@;
        let ghost high0 = self.h_high@;
        if self.h_high.len() > 0 && val >= self.h_high[0] {
            insert_sorted(&mut self.h_high, val);
            proof {
                let h = self.h_high@;
                if low0.len() > 0 {
                    assert(h.contains(h[0]));
                    assert(h[0] >= high0[0]) by {
                        if h[0] != val {
                            let k = choose|k: int| 0 <= k < high0.len() && high0[k] == h[0];
                        }
                    }
                }
            }
        } else {
            insert_sorted(&mut self.h_low, val);
            proof {
                let l = self.h_low@;
                if high0.len() > 0 {
                    assert(l.contains(l.last()));
                    assert(l.last() <= high0[0]) by {
                        if l.last() != val {
                            let k = choose|k: int| 0 <= k < low0.len() && low0[k] == l.last();
                            assert(low0[k] <= low0.last());
                        }
                    }
                }
            }
        }
        self.values = Ghost(self.values@.push(val));
        proof {
            assert(self.values@.to_multiset() =~= old(self).values@.to_multiset().insert(val));
            assert(self.h_low@.to_multiset().add(self.h_high@.to_multiset()) =~= self.values@.to_multiset());
        }
        // keep the lower half as large as the upper half, or one larger, so
        // that the median is the largest of the lower half
        if self.h_high.len() > self.h_low.len() {
            let ghost l1 = self.h_low@;
            let ghost h1 = self.h_high@;
            let x = self.h_high.remove(0);
            self.h_low.push(x);
            proof {
                assert(h1.remove(0).to_multiset() == h1.to_multiset().remove(x));
                assert forall|i: int, j: int| 0 <= i < j < self.h_low@.len() implies self.h_low@[i] <= self.h_low@[j] by {
                    if j == self.h_low@.len() - 1 && i < l1.len() {
                        assert(l1[i] <= l1.last());
                    }
                }
                if self.h_high@.len() > 0 {
                    assert(self.h_high@[0] == h1[1]);
                }
                assert(self.h_low@.to_multiset() =~= l1.to_multiset().insert(x));
                assert(h1.contains(x));
                assert(self.h_low@.to_multiset().add(self.h_high@.to_multiset()) =~= l1.to_multiset().add(h1.to_multiset()));
            }
        } else if self.h_low.len() - self.h_high.len() >= 2 {
            let ghost l1 = self.h_low@;
            let ghost h1 = self.h_high@;
            let x = self.h_low.pop();
            let x = match x {
                Some(x) => x,
                None => 0,
            };
            self.h_high.insert(0, x);
            proof {
                assert(l1 =~= self.h_low@.push(x));
                assert(self.h_high@ == h1.insert(0, x));
                assert forall|i: int, j: int| 0 <= i < j < self.h_high@.len() implies self.h_high@[i] <= self.h_high@[j] by {
                    if i == 0 && h1.len() > 0 {
                        assert(x <= h1[0]);
                        assert(h1[0] <= h1[j - 1]);
                    }
                }
                if self.h_low@.len() > 0 {
                    assert(self.h_low@.last() == l1[l1.len() - 2]);
                }
                assert(l1.to_multiset() =~= self.h_low@.to_multiset().insert(x));
                assert(self.h_high@.to_multiset() =~= h1.to_multiset().insert(x));
                assert(self.h_low@.to_multiset().add(self.h_high@.to_multiset()) =~= l1.to_multiset().add(h1.to_multiset()));
            }
        }
    }

    /// The lower median of the numbers pushed so far; `None` before the
    /// first push.
    pub fn peek_median(&self) -> (r: Option<&i64>)
        requires
            self.wf(),
        ensures
            r is None <==> self.values().len() == 0,
            r matches Some(m) ==> is_lower_median(self.values(), *m),
    {
        proof {
            assert(self.h_low@.to_multiset().len() + self.h_high@.to_multiset().len() == self.values@.to_multiset().len());
        }
        if self.h_low.len() == 0 {
            None
        } else {
            let k = self.h_low.len() - 1;
            proof {
                let low = self.h_low@;
                let high = self.h_high@;
                let m = low.last();
                vstd::seq_lib::lemma_multiset_commutative(low, high);
                lemma_count_le_perm(low + high, self.values@, m - 1);
                lemma_count_le_perm(low + high, self.values@, m as int);
                lemma_count_le_concat(low, high, m - 1);
                lemma_count_le_concat(low, high, m as int);
                lemma_count_le_sorted(low);
                lemma_count_le_bound(high, m as int);
                assert forall|i: int| 0 <= i < high.len() implies high[i] > m - 1 by {
                    assert(high[0] <= high[i]);
                }
                lemma_count_le_none(high, m - 1);
            }
            Some(&self.h_low[k])
        }
    }
}

} // verus!
