//! A table of counts keyed by `u64`, held as a list of (key, count) pairs
//! in increasing key order, with counts held at `u64::MAX`.
use vstd::prelude::*;

verus! {

/// `a + b`, held at `u64::MAX`.
pub open spec fn sat(a: int, b: int) -> int {
    if a + b > u64::MAX { u64::MAX as int } else { a + b }
}

/// The count of key `k` in a list of pairs: the pair's count, or 0 where no
/// pair has that key.
pub open spec fn assoc(v: Seq<(u64, u64)>, k: u64) -> int {
    if exists|i: int| 0 <= i < v.len() && (#[trigger] v[i]).0 == k {
        v[choose|i: int| 0 <= i < v.len() && (#[trigger] v[i]).0 == k].1 as int
    } else {
        0
    }
}

/// Keys in strictly increasing order and every count positive.
pub open spec fn ordered(v: Seq<(u64, u64)>) -> bool {
    &&& forall|i: int, j: int| 0 <= i < j < v.len() ==> (#[trigger] v[i]).0 < (#[trigger] v[j]).0
    &&& forall|i: int| 0 <= i < v.len() ==> (#[trigger] v[i]).1 > 0
}

proof fn lemma_assoc_at(v: Seq<(u64, u64)>, i: int)
    requires
        ordered(v),
        0 <= i < v.len(),
    ensures
        assoc(v, v[i].0) == v[i].1,
{
    let j = choose|j: int| 0 <= j < v.len() && (#[trigger] v[j]).0 == v[i].0;
    if j < i {
        assert(v[j].0 < v[i].0);
    } else if j > i {
        assert(v[i].0 < v[j].0);
    }
}

proof fn lemma_assoc_prefix(v: Seq<(u64, u64)>, n: int, k: u64)
    requires
        ordered(v),
        0 <= n < v.len(),
    ensures
        ordered(v.subrange(0, n)),
        assoc(v.subrange(0, n + 1), k) == assoc(v.subrange(0, n), k) + if v[n].0 == k { v[n].1 as int } else { 0 },
{
    let p0 = v.subrange(0, n);
    let p1 = v.subrange(0, n + 1);
    assert(ordered(p1)) by {
        assert forall|i: int, j: int| 0 <= i < j < p1.len() implies (#[trigger] p1[i]).0 < (#[trigger] p1[j]).0 by {
            assert(p1[i] == v[i] && p1[j] == v[j]);
        }
        assert forall|i: int| 0 <= i < p1.len() implies (#[trigger] p1[i]).1 > 0 by {
            assert(p1[i] == v[i]);
        }
    }
    assert(ordered(p0)) by {
        assert forall|i: int, j: int| 0 <= i < j < p0.len() implies (#[trigger] p0[i]).0 < (#[trigger] p0[j]).0 by {
            assert(p0[i] == v[i] && p0[j] == v[j]);
        }
        assert forall|i: int| 0 <= i < p0.len() implies (#[trigger] p0[i]).1 > 0 by {
            assert(p0[i] == v[i]);
        }
    }
    if v[n].0 == k {
        assert(p1[n] == v[n]);
        lemma_assoc_at(p1, n);
        if exists|i: int| 0 <= i < p0.len() && (#[trigger] p0[i]).0 == k {
            let i = choose|i: int| 0 <= i < p0.len() && (#[trigger] p0[i]).0 == k;
            assert(p0[i] == v[i]);
            assert(v[i].0 < v[n].0);
        }
    } else {
        if exists|i: int| 0 <= i < p0.len() && (#[trigger] p0[i]).0 == k {
            let i = choose|i: int| 0 <= i < p0.len() && (#[trigger] p0[i]).0 == k;
            assert(p1[i] == p0[i]);
            lemma_assoc_at(p0, i);
            lemma_assoc_at(p1, i);
        }
        if exists|i: int| 0 <= i < p1.len() && (#[trigger] p1[i]).0 == k {
            let i = choose|i: int| 0 <= i < p1.len() && (#[trigger] p1[i]).0 == k;
            assert(i != n);
            assert(p1[i] == p0[i]);
        }
    }
}

/// Counts keyed by `u64`.
pub struct CountTable {
    entries: Vec<(u64, u64)>,
}

impl CountTable {
    /// The count of key `k`.
    pub closed spec fn count(&self, k: u64) -> int {
        assoc(self.entries@, k)
    }

    pub closed spec fn wf(&self) -> bool {
        ordered(self.entries@)
    }

    /// A table with every count 0.
    pub fn new() -> (r: CountTable)
        ensures
            r.wf(),
            forall|k: u64| #[trigger] r.count(k) == 0,
    {
        CountTable { entries: Vec::new() }
    }

    /// Adds `n` to the count of key `k`.
    pub fn add(&mut self, k: u64, n: u64)
        requires
            old(self).wf(),
            n >= 1,
        ensures
            final(self).wf(),
            forall|x: u64| #[trigger] final(self).count(x) == if x == k { sat(old(self).count(x), n as int) } else { old(self).count(x) },
    {
        let ghost v0 = self.entries@;
        let mut lo: usize = 0;
        let mut hi: usize = self.entries.len();
        while lo < hi
            invariant
                self.entries@ == v0,
                0 <= lo <= hi <= v0.len(),
                ordered(v0),
                forall|i: int| 0 <= i < lo ==> (#[trigger] v0[i]).0 < k,
                forall|i: int| hi <= i < v0.len() ==> (#[trigger] v0[i]).0 >= k,
            decreases hi - lo,
        {
            let mid = lo + (hi - lo) / 2;
            if self.entries[mid].0 < k {
                proof {
                    assert forall|i: int| 0 <= i <= mid implies (#[trigger] v0[i]).0 < k by {
                        if i < mid {
                            assert(v0[i].0 < v0[mid as int].0);
                        }
                    }
                }
                lo = mid + 1;
            } else {
                proof {
                    assert forall|i: int| mid <= i < v0.len() implies (#[trigger] v0[i]).0 >= k by {
                        if i > mid {
                            assert(v0[mid as int].0 < v0[i].0);
                        }
                    }
                }
                hi = mid;
            }
        }
        let p = lo;
        if p < self.entries.len() && self.entries[p].0 == k {
            let c = self.entries[p].1;
            self.entries.set(p, (k, c.saturating_add(n)));
            proof {
                let v1 = self.entries@;
                assert(ordered(v1)) by {
                    assert forall|i: int, j: int| 0 <= i < j < v1.len() implies (#[trigger] v1[i]).0 < (#[trigger] v1[j]).0 by {
                        assert(v0[i].0 < v0[j].0);
                    }
                }
                lemma_assoc_at(v0, p as int);
                lemma_assoc_at(v1, p as int);
                assert forall|x: u64| #[trigger] assoc(v1, x) == if x == k { sat(assoc(v0, x), n as int) } else { assoc(v0, x) } by {
                    if x != k {
                        if exists|i: int| 0 <= i < v0.len() && (#[trigger] v0[i]).0 == x {
                            let i = choose|i: int| 0 <= i < v0.len() && (#[trigger] v0[i]).0 == x;
                            lemma_assoc_at(v0, i);
                            lemma_assoc_at(v1, i);
                        }
                        if exists|i: int| 0 <= i < v1.len() && (#[trigger] v1[i]).0 == x {
                            let i = choose|i: int| 0 <= i < v1.len() && (#[trigger] v1[i]).0 == x;
                            assert(v0[i].0 == x);
                        }
                    }
                }
            }
        } else {
            self.entries.insert(p, (k, n));
            proof {
                let v1 = self.entries@;
                assert(forall|i: int| 0 <= i < p ==> v1[i] == v0[i]);
                assert(forall|i: int| p < i < v1.len() ==> v1[i] == v0[i - 1]);
                assert(v1[p as int] == (k, n));
                assert(forall|i: int| 0 <= i < v0.len() ==> v0[i].0 != k);
                assert(ordered(v1)) by {
                    assert forall|i: int, j: int| 0 <= i < j < v1.len() implies (#[trigger] v1[i]).0 < (#[trigger] v1[j]).0 by {
                        if j < p {
                            assert(v0[i].0 < v0[j].0);
                        } else if j == p {
                            assert(v0[i].0 < k);
                        } else if i > p {
                            assert(v0[i - 1].0 < v0[j - 1].0);
                        } else if i == p {
                            assert(v0[j - 1].0 >= k);
                        } else {
                            assert(v0[i].0 < v0[j - 1].0);
                        }
                    }
                }
                lemma_assoc_at(v1, p as int);
                assert forall|x: u64| #[trigger] assoc(v1, x) == if x == k { sat(assoc(v0, x), n as int) } else { assoc(v0, x) } by {
                    if x != k {
                        if exists|i: int| 0 <= i < v0.len() && (#[trigger] v0[i]).0 == x {
                            let i = choose|i: int| 0 <= i < v0.len() && (#[trigger] v0[i]).0 == x;
                            lemma_assoc_at(v0, i);
                            let i1 = if i < p { i } else { i + 1 };
                            assert(v1[i1] == v0[i]);
                            lemma_assoc_at(v1, i1);
                        }
                        if exists|i: int| 0 <= i < v1.len() && (#[trigger] v1[i]).0 == x {
                            let i = choose|i: int| 0 <= i < v1.len() && (#[trigger] v1[i]).0 == x;
                            if i < p {
                                assert(v0[i].0 == x);
                            } else {
                                assert(i > p);
                                assert(v0[i - 1].0 == x);
                            }
                        }
                    }
                }
            }
        }
    }

    /// Adds every count of `other`, key by key.
    pub fn merge_from(&mut self, other: &CountTable)
        requires
            old(self).wf(),
            other.wf(),
        ensures
            final(self).wf(),
            forall|x: u64| #[trigger] final(self).count(x) == sat(old(self).count(x), other.count(x)),
    {
        let ghost t0 = *self;
        let o = &other.entries;
        let mut i: usize = 0;
        proof {
            assert forall|x: u64| #[trigger] self.count(x) == sat(t0.count(x), assoc(o@.subrange(0, 0), x)) by {
                assert(o@.subrange(0, 0).len() == 0);
            }
        }
        while i < o.len()
            invariant
                self.wf(),
                ordered(o@),
                i <= o@.len(),
                forall|x: u64| #[trigger] self.count(x) == sat(t0.count(x), assoc(o@.subrange(0, i as int), x)),
                forall|x: u64| 0 <= #[trigger] t0.count(x) <= u64::MAX,
            decreases o@.len() - i,
        {
            let (k, n) = o[i];
            proof {
                assert(o@[i as int].1 > 0);
            }
            let ghost before = *self;
            self.add(k, n);
            proof {
                assert forall|x: u64| #[trigger] self.count(x) == sat(t0.count(x), assoc(o@.subrange(0, i + 1), x)) by {
                    lemma_assoc_prefix(o@, i as int, x);
                    if x == k {
                        assert(assoc(o@.subrange(0, i as int), x) == 0) by {
                            if exists|j: int| 0 <= j < i && (#[trigger] o@.subrange(0, i as int)[j]).0 == x {
                                let j = choose|j: int| 0 <= j < i && (#[trigger] o@.subrange(0, i as int)[j]).0 == x;
                                assert(o@[j].0 < o@[i as int].0);
                            }
                        }
                    }
                }
            }
            i = i + 1;
        }
        proof {
            assert(o@.subrange(0, o@.len() as int) == o@);
        }
    }

    /// The pairs with a positive count, in increasing key order.
    pub fn entries(&self) -> (r: &Vec<(u64, u64)>)
        requires
            self.wf(),
        ensures
            ordered(r@),
            forall|i: int| 0 <= i < r@.len() ==> (#[trigger] r@[i]).1 == self.count(r@[i].0),
            forall|k: u64| #[trigger] self.count(k) > 0 ==> exists|i: int| 0 <= i < r@.len() && (#[trigger] r@[i]).0 == k,
    {
        proof {
            assert forall|i: int| 0 <= i < self.entries@.len() implies (#[trigger] self.entries@[i]).1 == self.count(self.entries@[i].0) by {
                lemma_assoc_at(self.entries@, i);
            }
        }
        &self.entries
    }
}

/// The bound of a count.
pub proof fn lemma_count_bound(t: &CountTable, k: u64)
    requires
        t.wf(),
    ensures
        0 <= t.count(k) <= u64::MAX,
{
}

} // verus!
