//! The sliding-window composition counter and the mergeable histograms of
//! (AT, GC) counts that it fills.
use vstd::prelude::*;
use crate::base::Base;
use crate::table::{CountTable, sat};

verus! {

/// A point of a histogram: (AT, GC) counts, or per-strand (T, C) or (A, G).
#[derive(Debug, Copy, Clone, PartialEq, Eq, Structural)]
pub struct GcHistKey(pub u32, pub u32);

impl GcHistKey {
    pub fn counts(&self) -> (r: (u32, u32))
        ensures
            r == (self.0, self.1),
    {
        (self.0, self.1)
    }
}

/// The key of point `(a, b)` in a count table.
pub open spec fn hkey(a: int, b: int) -> u64 {
    (a * 0x1_0000_0000 + b) as u64
}

/// Whether `(a, b)` is a point of two `u32` counts.
pub open spec fn in_range(a: int, b: int) -> bool {
    0 <= a <= u32::MAX && 0 <= b <= u32::MAX
}

/// The count of point `(a, b)` in table `t`: 0 for a point outside the
/// `u32` range.
pub open spec fn point_count(t: CountTable, a: int, b: int) -> int {
    if in_range(a, b) { t.count(hkey(a, b)) } else { 0 }
}

proof fn lemma_hkey(a: int, b: int)
    requires
        in_range(a, b),
    ensures
        hkey(a, b) as int == a * 0x1_0000_0000 + b,
        hkey(a, b) / 0x1_0000_0000 == a,
        hkey(a, b) % 0x1_0000_0000 == b,
{
    assert(0 <= a * 0x1_0000_0000 + b <= u64::MAX) by (nonlinear_arith)
        requires
            0 <= a <= u32::MAX,
            0 <= b <= u32::MAX,
    ;
    vstd::arithmetic::div_mod::lemma_fundamental_div_mod_converse(a * 0x1_0000_0000 + b, 0x1_0000_0000, a, b);
}

proof fn lemma_hkey_unique(a: int, b: int, c: int, d: int)
    requires
        in_range(a, b),
        in_range(c, d),
        hkey(a, b) == hkey(c, d),
    ensures
        a == c && b == d,
{
    lemma_hkey(a, b);
    lemma_hkey(c, d);
}

/// The counts of the points of one read length `len`, kept in tables keyed
/// by point.
pub struct GcHist {
    len: u32,
    counts: CountTable,
    bisulfite_counts: Option<CountTable>,
}

impl GcHist {
    pub closed spec fn spec_len(&self) -> u32 {
        self.len
    }

    pub closed spec fn spec_bisulfite(&self) -> bool {
        self.bisulfite_counts.is_some()
    }

    /// The count of point `(a, b)`.
    pub closed spec fn get(&self, a: int, b: int) -> int {
        point_count(self.counts, a, b)
    }

    /// The per-strand count of point `(a, b)`; 0 without bisulfite counts.
    pub closed spec fn get_bs(&self, a: int, b: int) -> int {
        match self.bisulfite_counts {
            Some(t) => point_count(t, a, b),
            None => 0,
        }
    }

    pub closed spec fn wf(&self) -> bool {
        &&& self.counts.wf()
        &&& (self.bisulfite_counts matches Some(t) ==> t.wf())
    }

    /// Every count fits in a `u64`.
    pub proof fn lemma_bounds(&self)
        requires
            self.wf(),
        ensures
            forall|a: int, b: int| 0 <= #[trigger] self.get(a, b) <= u64::MAX,
            forall|a: int, b: int| 0 <= #[trigger] self.get_bs(a, b) <= u64::MAX,
    {
        assert forall|a: int, b: int| 0 <= #[trigger] self.get(a, b) <= u64::MAX by {
            if in_range(a, b) {
                crate::table::lemma_count_bound(&self.counts, hkey(a, b));
            }
        }
        assert forall|a: int, b: int| 0 <= #[trigger] self.get_bs(a, b) <= u64::MAX by {
            if in_range(a, b) {
                if let Some(t) = self.bisulfite_counts {
                    crate::table::lemma_count_bound(&t, hkey(a, b));
                }
            }
        }
    }

    /// An empty histogram for read length `len`, with per-strand counts in
    /// bisulfite mode.
    pub fn new(len: u32, bisulfite: bool) -> (r: GcHist)
        ensures
            r.wf(),
            r.spec_len() == len,
            r.spec_bisulfite() == bisulfite,
            forall|a: int, b: int| #[trigger] r.get(a, b) == 0,
            forall|a: int, b: int| #[trigger] r.get_bs(a, b) == 0,
    {
        let bisulfite_counts = if bisulfite {
            Some(CountTable::new())
        } else {
            None
        };
        GcHist { len, counts: CountTable::new(), bisulfite_counts }
    }

    /// Counts one more `(a, b)` point.
    fn add(&mut self, a: u32, b: u32)
        requires
            old(self).wf(),
            a <= old(self).spec_len(),
            b <= old(self).spec_len(),
        ensures
            final(self).wf(),
            final(self).spec_len() == old(self).spec_len(),
            final(self).spec_bisulfite() == old(self).spec_bisulfite(),
            forall|x: int, y: int| #[trigger] final(self).get(x, y) == if x == a && y == b { sat(old(self).get(x, y), 1) } else { old(self).get(x, y) },
            forall|x: int, y: int| #[trigger] final(self).get_bs(x, y) == old(self).get_bs(x, y),
    {
        proof {
            lemma_hkey(a as int, b as int);
        }
        let k = (a as u64) * 0x1_0000_0000 + (b as u64);
        self.counts.add(k, 1);
        proof {
            assert forall|x: int, y: int| #[trigger] self.get(x, y) == if x == a && y == b { sat(old(self).get(x, y), 1) } else { old(self).get(x, y) } by {
                if in_range(x, y) && hkey(x, y) == k {
                    lemma_hkey_unique(x, y, a as int, b as int);
                }
            }
        }
    }

    /// Counts one more per-strand `(a, b)` point, in bisulfite mode.
    fn add_bs(&mut self, a: u32, b: u32)
        requires
            old(self).wf(),
            a <= old(self).spec_len(),
            b <= old(self).spec_len(),
        ensures
            final(self).wf(),
            final(self).spec_len() == old(self).spec_len(),
            final(self).spec_bisulfite() == old(self).spec_bisulfite(),
            forall|x: int, y: int| #[trigger] final(self).get(x, y) == old(self).get(x, y),
            forall|x: int, y: int| #[trigger] final(self).get_bs(x, y) == if x == a && y == b && old(self).spec_bisulfite() { sat(old(self).get_bs(x, y), 1) } else { old(self).get_bs(x, y) },
    {
        proof {
            lemma_hkey(a as int, b as int);
        }
        let k = (a as u64) * 0x1_0000_0000 + (b as u64);
        if let Some(t) = &mut self.bisulfite_counts {
            t.add(k, 1);
        }
        proof {
            assert forall|x: int, y: int| #[trigger] self.get_bs(x, y) == if x == a && y == b && old(self).spec_bisulfite() { sat(old(self).get_bs(x, y), 1) } else { old(self).get_bs(x, y) } by {
                if in_range(x, y) && hkey(x, y) == k {
                    lemma_hkey_unique(x, y, a as int, b as int);
                }
            }
        }
    }

    /// Adds the counts of `other`, point by point.
    fn merge_from(&mut self, other: &GcHist)
        requires
            old(self).wf(),
            other.wf(),
            other.spec_len() == old(self).spec_len(),
            other.spec_bisulfite() == old(self).spec_bisulfite(),
        ensures
            final(self).wf(),
            final(self).spec_len() == old(self).spec_len(),
            final(self).spec_bisulfite() == old(self).spec_bisulfite(),
            forall|a: int, b: int| #[trigger] final(self).get(a, b) == sat(old(self).get(a, b), other.get(a, b)),
            forall|a: int, b: int| #[trigger] final(self).get_bs(a, b) == sat(old(self).get_bs(a, b), other.get_bs(a, b)),
    {
        self.counts.merge_from(&other.counts);
        if let Some(t) = &mut self.bisulfite_counts {
            if let Some(u) = &other.bisulfite_counts {
                t.merge_from(u);
            }
        }
    }

    /// The non-zero counts, as points and counts, each point once.
    pub fn hash(&self) -> (r: Vec<(GcHistKey, u64)>)
        requires
            self.wf(),
        ensures
            forall|i: int| 0 <= i < r@.len() ==> r@[i].1 > 0 && r@[i].1 == self.get(r@[i].0.0 as int, r@[i].0.1 as int),
            forall|a: int, b: int| #![trigger self.get(a, b)] self.get(a, b) > 0 ==> exists|i: int| 0 <= i < r@.len() && (#[trigger] r@[i]).0 == GcHistKey(a as u32, b as u32),
            forall|i: int, j: int| 0 <= i < j < r@.len() ==> (#[trigger] r@[i]).0 != (#[trigger] r@[j]).0,
    {
        list_points(&self.counts)
    }

    /// The non-zero per-strand counts, in bisulfite mode, each point once.
    pub fn bisulfite_hash(&self) -> (r: Option<Vec<(GcHistKey, u64)>>)
        requires
            self.wf(),
        ensures
            r.is_some() == self.spec_bisulfite(),
            r matches Some(v) ==> forall|i: int| 0 <= i < v@.len() ==> v@[i].1 > 0 && v@[i].1 == self.get_bs(v@[i].0.0 as int, v@[i].0.1 as int),
            r matches Some(v) ==> forall|i: int, j: int| 0 <= i < j < v@.len() ==> (#[trigger] v@[i]).0 != (#[trigger] v@[j]).0,
            forall|a: int, b: int| #![trigger self.get_bs(a, b)] self.get_bs(a, b) > 0 ==> (r is Some
                && exists|i: int| 0 <= i < r.unwrap()@.len() && (#[trigger] r.unwrap()@[i]).0 == GcHistKey(a as u32, b as u32)),
    {
        match &self.bisulfite_counts {
            Some(t) => {
                let v = list_points(t);
                let r = Some(v);
                proof {
                    assert forall|a: int, b: int| #![trigger self.get_bs(a, b)] self.get_bs(a, b) > 0 implies (r is Some
                        && exists|i: int| 0 <= i < r.unwrap()@.len() && (#[trigger] r.unwrap()@[i]).0 == GcHistKey(a as u32, b as u32)) by {
                        assert(point_count(*t, a, b) > 0);
                        let i = choose|i: int| 0 <= i < v@.len() && (#[trigger] v@[i]).0 == GcHistKey(a as u32, b as u32);
                        assert(r.unwrap()@[i] == v@[i]);
                    }
                }
                r
            },
            None => None,
        }
    }
}

/// The points of a count table with a positive count, each once.
fn list_points(t: &CountTable) -> (r: Vec<(GcHistKey, u64)>)
    requires
        t.wf(),
    ensures
        forall|i: int| 0 <= i < r@.len() ==> r@[i].1 > 0 && r@[i].1 == point_count(*t, r@[i].0.0 as int, r@[i].0.1 as int),
        forall|a: int, b: int| #![trigger point_count(*t, a, b)] point_count(*t, a, b) > 0 ==> exists|i: int| 0 <= i < r@.len() && (#[trigger] r@[i]).0 == GcHistKey(a as u32, b as u32),
        forall|i: int, j: int| 0 <= i < j < r@.len() ==> (#[trigger] r@[i]).0 != (#[trigger] r@[j]).0,
{
    let e = t.entries();
    let mut r: Vec<(GcHistKey, u64)> = Vec::new();
    let mut i: usize = 0;
    while i < e.len()
        invariant
            i <= e@.len(),
            r@.len() == i,
            crate::table::ordered(e@),
            forall|m: int| 0 <= m < e@.len() ==> (#[trigger] e@[m]).1 == t.count(e@[m].0),
            forall|m: int| 0 <= m < i ==> hkey((#[trigger] r@[m]).0.0 as int, r@[m].0.1 as int) == e@[m].0 && r@[m].1 == e@[m].1,
        decreases e@.len() - i,
    {
        let (k, c) = e[i];
        let a = (k / 0x1_0000_0000) as u32;
        let b = (k % 0x1_0000_0000) as u32;
        proof {
            lemma_hkey(a as int, b as int);
            assert(k == (k / 0x1_0000_0000) * 0x1_0000_0000 + k % 0x1_0000_0000);
        }
        r.push((GcHistKey(a, b), c));
        i = i + 1;
    }
    proof {
        assert forall|m: int| 0 <= m < r@.len() implies r@[m].1 > 0 && r@[m].1 == point_count(*t, r@[m].0.0 as int, r@[m].0.1 as int) by {
            assert(e@[m].1 > 0);
        }
        assert forall|a: int, b: int| #![trigger point_count(*t, a, b)] point_count(*t, a, b) > 0 implies exists|m: int| 0 <= m < r@.len() && (#[trigger] r@[m]).0 == GcHistKey(a as u32, b as u32) by {
            let k = hkey(a, b);
            assert(t.count(k) > 0);
            let m = choose|m: int| 0 <= m < e@.len() && (#[trigger] e@[m]).0 == k;
            lemma_hkey(a, b);
            lemma_hkey(r@[m].0.0 as int, r@[m].0.1 as int);
            lemma_hkey_unique(r@[m].0.0 as int, r@[m].0.1 as int, a, b);
        }
        assert forall|x: int, y: int| 0 <= x < y < r@.len() implies (#[trigger] r@[x]).0 != (#[trigger] r@[y]).0 by {
            assert(e@[x].0 < e@[y].0);
        }
    }
    r
}

/// The base at index `i` of `s`; a gap outside it.
pub open spec fn base_at(s: Seq<Base>, i: int) -> Base {
    if 0 <= i < s.len() { s[i] } else { Base::Other }
}

/// The number of bases with code `c` at indices `lo` to `hi - 1`.
pub open spec fn count_code(s: Seq<Base>, lo: int, hi: int, c: u8) -> int
    decreases hi - lo,
{
    if hi <= lo {
        0
    } else {
        count_code(s, lo, hi - 1, c) + if base_at(s, hi - 1).spec_code() == c { 1int } else { 0int }
    }
}

/// The number of bases with code `c` in the window of length `len` that
/// ends at index `j`.
pub open spec fn window(s: Seq<Base>, j: int, len: int, c: u8) -> int {
    count_code(s, j - len + 1, j + 1, c)
}

/// The number of valid bases in that window.
pub open spec fn window_valid(s: Seq<Base>, j: int, len: int) -> int {
    window(s, j, len, 0) + window(s, j, len, 1) + window(s, j, len, 2) + window(s, j, len, 3)
}

/// The point of that window: kind 0 is (AT, GC), kind 1 is (T, C), kind 2
/// is (A, G).
pub open spec fn point(s: Seq<Base>, j: int, len: int, kind: int) -> (int, int) {
    if kind == 0 {
        (window(s, j, len, 0) + window(s, j, len, 2), window(s, j, len, 1) + window(s, j, len, 3))
    } else if kind == 1 {
        (window(s, j, len, 2), window(s, j, len, 1))
    } else {
        (window(s, j, len, 0), window(s, j, len, 3))
    }
}

/// The number of windows of length `len` ending at indices `0` to `n - 1`
/// that have at least `thr` valid bases and whose point of kind `kind` is
/// `(a, b)`.
pub open spec fn n_points(s: Seq<Base>, len: int, thr: int, kind: int, n: int, a: int, b: int) -> int
    decreases n,
{
    if n <= 0 {
        0
    } else {
        n_points(s, len, thr, kind, n - 1, a, b) + if window_valid(s, n - 1, len) >= thr && point(s, n - 1, len, kind) == (a, b) {
            1int
        } else {
            0int
        }
    }
}

/// The windows of length `len` over `s` (every window that holds at least
/// one index of `s`) with at least `thr` valid bases whose point of kind
/// `kind` is `(a, b)`.
pub open spec fn seq_points(s: Seq<Base>, len: int, thr: int, kind: int, a: int, b: int) -> int {
    n_points(s, len, thr, kind, s.len() + len - 1, a, b)
}

proof fn lemma_count_front(s: Seq<Base>, lo: int, hi: int, c: u8)
    requires
        lo < hi,
    ensures
        count_code(s, lo, hi, c) == count_code(s, lo + 1, hi, c) + if base_at(s, lo).spec_code() == c { 1int } else { 0int },
    decreases hi - lo,
{
    if hi - 1 > lo {
        lemma_count_front(s, lo, hi - 1, c);
        assert(count_code(s, lo + 1, hi, c) == count_code(s, lo + 1, hi - 1, c) + if base_at(s, hi - 1).spec_code() == c { 1int } else { 0int });
    } else {
        assert(count_code(s, lo, hi - 1, c) == 0);
        assert(count_code(s, lo + 1, hi, c) == 0);
    }
}

proof fn lemma_count_sum(s: Seq<Base>, lo: int, hi: int)
    ensures
        0 <= count_code(s, lo, hi, 0),
        0 <= count_code(s, lo, hi, 1),
        0 <= count_code(s, lo, hi, 2),
        0 <= count_code(s, lo, hi, 3),
        lo <= hi ==> count_code(s, lo, hi, 0) + count_code(s, lo, hi, 1) + count_code(s, lo, hi, 2) + count_code(s, lo, hi, 3) <= hi - lo,
    decreases hi - lo,
{
    if hi > lo {
        lemma_count_sum(s, lo, hi - 1);
    }
}

proof fn lemma_count_outside(s: Seq<Base>, lo: int, hi: int, c: u8)
    requires
        lo >= s.len() || hi <= 0,
        c < 4,
    ensures
        count_code(s, lo, hi, c) == 0,
    decreases hi - lo,
{
    if hi > lo {
        lemma_count_outside(s, lo, hi - 1, c);
    }
}

proof fn lemma_n_points_tail(s: Seq<Base>, len: int, thr: int, kind: int, n: int, a: int, b: int)
    requires
        len >= 1,
        thr >= 1,
        n >= s.len() + len - 1,
    ensures
        n_points(s, len, thr, kind, n, a, b) == seq_points(s, len, thr, kind, a, b),
    decreases n,
{
    if n > s.len() + len - 1 {
        lemma_n_points_tail(s, len, thr, kind, n - 1, a, b);
        lemma_count_outside(s, n - len, n, 0);
        lemma_count_outside(s, n - len, n, 1);
        lemma_count_outside(s, n - len, n, 2);
        lemma_count_outside(s, n - len, n, 3);
    }
}

/// The counts of each base code in the current window of one read length,
/// and the number of valid bases a window needs.
#[derive(Copy, Clone)]
struct Counts {
    counts: [u32; 4],
    threshold: u32,
}

impl Counts {
    fn new(threshold: u32) -> (r: Counts)
        requires
            threshold > 0,
        ensures
            r.counts@ == seq![0u32, 0, 0, 0],
            r.threshold == threshold,
    {
        let r = Counts { counts: [0; 4], threshold };
        assert(r.counts@ =~= seq![0u32, 0, 0, 0]);
        r
    }

    /// Takes a base that leaves the window off the counts.
    fn remove_base(&mut self, base: &Base)
        requires
            !base.spec_is_gap() ==> old(self).counts[base.spec_code() as int] > 0,
        ensures
            final(self).threshold == old(self).threshold,
            final(self).counts@ == if base.spec_is_gap() { old(self).counts@ } else {
                old(self).counts@.update(base.spec_code() as int, (old(self).counts[base.spec_code() as int] - 1) as u32)
            },
    {
        if !base.is_gap() {
            let i = base.code() as usize;
            self.counts[i] = self.counts[i] - 1;
        }
    }

    /// Counts a base that enters the window.
    fn add_base(&mut self, base: &Base)
        requires
            !base.spec_is_gap() ==> old(self).counts[base.spec_code() as int] < u32::MAX,
        ensures
            final(self).threshold == old(self).threshold,
            final(self).counts@ == if base.spec_is_gap() { old(self).counts@ } else {
                old(self).counts@.update(base.spec_code() as int, (old(self).counts[base.spec_code() as int] + 1) as u32)
            },
    {
        if !base.is_gap() {
            let i = base.code() as usize;
            self.counts[i] = self.counts[i] + 1;
        }
    }

    /// The (AT, GC) point of the window, where it has enough valid bases.
    fn get_counts(&self) -> (r: Option<(u32, u32)>)
        requires
            self.counts[0] + self.counts[1] + self.counts[2] + self.counts[3] <= u32::MAX,
        ensures
            r.is_some() <==> self.counts[0] + self.counts[1] + self.counts[2] + self.counts[3] >= self.threshold,
            r.is_some() ==> r == Some(((self.counts[0] + self.counts[2]) as u32, (self.counts[1] + self.counts[3]) as u32)),
    {
        let c = self.counts;
        if c[0] + c[1] + c[2] + c[3] >= self.threshold {
            Some((c[0] + c[2], c[1] + c[3]))
        } else {
            None
        }
    }

    /// The per-strand points (T, C) and (A, G) of the window, where it has
    /// enough valid bases.
    fn get_bs_counts(&self) -> (r: Option<((u32, u32), (u32, u32))>)
        requires
            self.counts[0] + self.counts[1] + self.counts[2] + self.counts[3] <= u32::MAX,
        ensures
            r.is_some() <==> self.counts[0] + self.counts[1] + self.counts[2] + self.counts[3] >= self.threshold,
            r.is_some() ==> r == Some(((self.counts[2], self.counts[1]), (self.counts[0], self.counts[3]))),
    {
        let c = self.counts;
        if c[0] + c[1] + c[2] + c[3] >= self.threshold {
            Some(((c[2], c[1]), (c[0], c[3])))
        } else {
            None
        }
    }
}

/// The values of `s`, each once, in the order in which they first come.
pub open spec fn dedup(s: Seq<u32>) -> Seq<u32>
    decreases s.len(),
{
    if s.len() == 0 {
        Seq::empty()
    } else if dedup(s.drop_last()).contains(s.last()) {
        dedup(s.drop_last())
    } else {
        dedup(s.drop_last()).push(s.last())
    }
}

/// The histograms of every read length.
pub struct GcRes {
    lens: Vec<u32>,
    hists: Vec<GcHist>,
    bisulfite: bool,
}

impl GcRes {
    /// The read lengths, each once.
    pub closed spec fn lens(&self) -> Seq<u32> {
        self.lens@
    }

    pub closed spec fn spec_bisulfite(&self) -> bool {
        self.bisulfite
    }

    /// Every count fits in a `u64`.
    pub proof fn lemma_bounds(&self)
        requires
            self.wf(),
        ensures
            forall|i: int, a: int, b: int| 0 <= i < self.lens().len() ==> 0 <= #[trigger] self.get(i, a, b) <= u64::MAX,
            forall|i: int, a: int, b: int| 0 <= i < self.lens().len() ==> 0 <= #[trigger] self.get_bs(i, a, b) <= u64::MAX,
    {
        assert forall|i: int, a: int, b: int| 0 <= i < self.lens().len() implies 0 <= #[trigger] self.get(i, a, b) <= u64::MAX by {
            self.hists@[i].lemma_bounds();
        }
        assert forall|i: int, a: int, b: int| 0 <= i < self.lens().len() implies 0 <= #[trigger] self.get_bs(i, a, b) <= u64::MAX by {
            self.hists@[i].lemma_bounds();
        }
    }

    /// The count of point `(a, b)` for the read length at place `i`.
    pub closed spec fn get(&self, i: int, a: int, b: int) -> int {
        self.hists@[i].get(a, b)
    }

    /// The per-strand count of point `(a, b)` for the read length at place `i`.
    pub closed spec fn get_bs(&self, i: int, a: int, b: int) -> int {
        self.hists@[i].get_bs(a, b)
    }

    pub closed spec fn wf(&self) -> bool {
        &&& self.lens@.len() == self.hists@.len()
        &&& forall|i: int| 0 <= i < self.hists@.len() ==> {
            &&& (#[trigger] self.hists@[i]).wf()
            &&& self.hists@[i].spec_len() == self.lens@[i]
            &&& self.hists@[i].spec_bisulfite() == self.bisulfite
            &&& 1 <= self.lens@[i]
        }
        &&& forall|i: int, j: int| 0 <= i < j < self.lens@.len() ==> self.lens@[i] != self.lens@[j]
    }

    /// Empty histograms for the read lengths `rl`, each taken once.
    pub fn new(rl: &[u32], bisulfite: bool) -> (r: GcRes)
        requires
            forall|i: int| 0 <= i < rl@.len() ==> 1 <= #[trigger] rl@[i],
        ensures
            r.wf(),
            r.spec_bisulfite() == bisulfite,
            forall|x: u32| rl@.contains(x) <==> r.lens().contains(x),
            r.lens() == dedup(rl@),
            forall|i: int, j: int| 0 <= i < j < r.lens().len() ==> r.lens()[i] != r.lens()[j],
            forall|i: int, a: int, b: int| 0 <= i < r.lens().len() ==> #[trigger] r.get(i, a, b) == 0,
            forall|i: int, a: int, b: int| 0 <= i < r.lens().len() ==> #[trigger] r.get_bs(i, a, b) == 0,
    {
        let mut r = GcRes { lens: Vec::new(), hists: Vec::new(), bisulfite };
        let mut k: usize = 0;
        while k < rl.len()
            invariant
                r.wf(),
                r.bisulfite == bisulfite,
                k <= rl@.len(),
                forall|i: int| 0 <= i < rl@.len() ==> 1 <= #[trigger] rl@[i],
                forall|x: u32| rl@.subrange(0, k as int).contains(x) <==> r.lens().contains(x),
                r.lens() == dedup(rl@.subrange(0, k as int)),
                forall|i: int, a: int, b: int| 0 <= i < r.lens().len() ==> #[trigger] r.get(i, a, b) == 0,
                forall|i: int, a: int, b: int| 0 <= i < r.lens().len() ==> #[trigger] r.get_bs(i, a, b) == 0,
            decreases rl@.len() - k,
        {
            let l = rl[k];
            let ghost old_lens = r.lens@;
            let ghost old_hists = r.hists@;
            let ghost r0 = r;
            let p = r.position(l);
            if p.is_none() {
                let h = GcHist::new(l, bisulfite);
                r.lens.push(l);
                r.hists.push(h);
                proof {
                    assert forall|i: int| 0 <= i < r.hists@.len() implies {
                        &&& (#[trigger] r.hists@[i]).wf()
                        &&& r.hists@[i].spec_len() == r.lens@[i]
                        &&& r.hists@[i].spec_bisulfite() == r.bisulfite
                        &&& 1 <= r.lens@[i]
                    } by {
                        if i < old_hists.len() {
                            assert(r.hists@[i] == old_hists[i]);
                            assert(r.lens@[i] == old_lens[i]);
                            assert(r0.hists@[i].wf());
                        } else {
                            assert(r.hists@[i] == h);
                        }
                    }
                    assert forall|i: int, a: int, b: int| 0 <= i < r.lens().len() implies #[trigger] r.get(i, a, b) == 0 by {
                        if 0 <= i < old_hists.len() {
                            assert(r.hists@[i] == old_hists[i]);
                            assert(r0.get(i, a, b) == 0);
                        } else {
                            assert(r.hists@[i] == h);
                        }
                    }
                    assert forall|i: int, a: int, b: int| 0 <= i < r.lens().len() implies #[trigger] r.get_bs(i, a, b) == 0 by {
                        if 0 <= i < old_hists.len() {
                            assert(r.hists@[i] == old_hists[i]);
                            assert(r0.get_bs(i, a, b) == 0);
                        } else {
                            assert(r.hists@[i] == h);
                        }
                    }
                    assert forall|i: int, j: int| 0 <= i < j < r.lens@.len() implies r.lens@[i] != r.lens@[j] by {
                        if j == old_lens.len() {
                            assert(old_lens.contains(old_lens[i]));
                        }
                    }
                    assert(r.lens@ == old_lens.push(l));
                }
            } else {
                assert(r.lens@ == old_lens);
            }
            proof {
                let sub0 = rl@.subrange(0, k as int);
                let sub1 = rl@.subrange(0, k + 1);
                assert(sub1 == sub0.push(l));
                assert(sub1.drop_last() == sub0);
                if p.is_some() {
                    assert(old_lens.contains(l)) by {
                        assert(old_lens[p.unwrap() as int] == l);
                    }
                }
                assert forall|x: u32| sub1.contains(x) <==> r.lens().contains(x) by {
                    if x == l {
                        assert(sub1[k as int] == x);
                        if p.is_some() {
                            assert(r.lens@[p.unwrap() as int] == x);
                        } else {
                            assert(r.lens@[old_lens.len() as int] == x);
                        }
                    } else {
                        if sub1.contains(x) {
                            let i = choose|i: int| 0 <= i < sub1.len() && #[trigger] sub1[i] == x;
                            assert(sub0[i] == x);
                            assert(sub0.contains(x));
                            assert(old_lens.contains(x));
                            let j = choose|j: int| 0 <= j < old_lens.len() && #[trigger] old_lens[j] == x;
                            assert(r.lens@[j] == x);
                        }
                        if r.lens().contains(x) {
                            let j = choose|j: int| 0 <= j < r.lens@.len() && #[trigger] r.lens@[j] == x;
                            assert(j < old_lens.len());
                            assert(old_lens[j] == x);
                            assert(old_lens.contains(x));
                            assert(sub0.contains(x));
                            let i = choose|i: int| 0 <= i < sub0.len() && #[trigger] sub0[i] == x;
                            assert(sub1[i] == x);
                        }
                    }
                }
            }
            k = k + 1;
        }
        proof {
            assert(rl@.subrange(0, rl@.len() as int) == rl@);
        }
        r
    }

    /// The place of read length `l` in the list.
    fn position(&self, l: u32) -> (r: Option<usize>)
        ensures
            r matches Some(i) ==> i < self.lens@.len() && self.lens@[i as int] == l,
            r.is_none() ==> !self.lens().contains(l),
    {
        let mut i: usize = 0;
        while i < self.lens.len()
            invariant
                i <= self.lens@.len(),
                forall|j: int| 0 <= j < i ==> self.lens@[j] != l,
            decreases self.lens@.len() - i,
        {
            if self.lens[i] == l {
                return Some(i);
            }
            i = i + 1;
        }
        None
    }

    /// The read lengths, each once.
    pub fn read_lengths(&self) -> (r: &Vec<u32>)
        ensures
            r@ == self.lens(),
    {
        &self.lens
    }

    /// The histogram of read length `l`, if it has one.
    pub fn get_gc_hist(&self, l: u32) -> (r: Option<&GcHist>)
        requires
            self.wf(),
        ensures
            r.is_some() <==> self.lens().contains(l),
            r matches Some(h) ==> exists|i: int| 0 <= i < self.lens().len() && self.lens()[i] == l
                && forall|a: int, b: int| #[trigger] h.get(a, b) == self.get(i, a, b) && h.get_bs(a, b) == self.get_bs(i, a, b),
            r matches Some(h) ==> h.wf() && h.spec_len() == l && h.spec_bisulfite() == self.spec_bisulfite(),
    {
        match self.position(l) {
            Some(i) => {
                let h = &self.hists[i];
                proof {
                    assert forall|a: int, b: int| #[trigger] h.get(a, b) == self.get(i as int, a, b) && h.get_bs(a, b) == self.get_bs(i as int, a, b) by {}
                    assert(self.lens()[i as int] == l);
                    assert(self.hists@[i as int].wf());
                }
                Some(h)
            },
            None => None,
        }
    }

    /// Adds the counts of `other`, which has the same set of read lengths (in
    /// any order) and mode: every count of a read length becomes the sum of
    /// the two counts of that read length, held at `u64::MAX`.
    pub fn merge(&mut self, other: &GcRes)
        requires
            old(self).wf(),
            other.wf(),
            forall|x: u32| other.lens().contains(x) <==> old(self).lens().contains(x),
            other.spec_bisulfite() == old(self).spec_bisulfite(),
        ensures
            final(self).wf(),
            final(self).lens() == old(self).lens(),
            final(self).spec_bisulfite() == old(self).spec_bisulfite(),
            forall|i: int, j: int, a: int, b: int|
                0 <= i < old(self).lens().len() && 0 <= j < other.lens().len() && other.lens()[j] == old(self).lens()[i]
                ==> #[trigger] final(self).get(i, a, b) == sat(old(self).get(i, a, b), #[trigger] other.get(j, a, b)),
            forall|i: int, j: int, a: int, b: int|
                0 <= i < old(self).lens().len() && 0 <= j < other.lens().len() && other.lens()[j] == old(self).lens()[i]
                ==> #[trigger] final(self).get_bs(i, a, b) == sat(old(self).get_bs(i, a, b), #[trigger] other.get_bs(j, a, b)),
    {
        let ghost s0 = self.hists@;
        let mut k: usize = 0;
        while k < self.hists.len()
            invariant
                self.lens@ == old(self).lens@,
                self.bisulfite == old(self).bisulfite,
                self.hists@.len() == s0.len(),
                old(self).wf(),
                other.wf(),
                forall|x: u32| other.lens().contains(x) <==> old(self).lens().contains(x),
                other.spec_bisulfite() == old(self).spec_bisulfite(),
                s0 == old(self).hists@,
                k <= s0.len(),
                forall|i: int| 0 <= i < s0.len() ==> {
                    &&& (#[trigger] self.hists@[i]).wf()
                    &&& self.hists@[i].spec_len() == self.lens@[i]
                    &&& self.hists@[i].spec_bisulfite() == self.bisulfite
                    &&& 1 <= self.lens@[i]
                },
                forall|i: int, j: int| 0 <= i < j < self.lens@.len() ==> self.lens@[i] != self.lens@[j],
                forall|i: int| k <= i < s0.len() ==> #[trigger] self.hists@[i] == s0[i],
                forall|i: int, j: int, a: int, b: int| 0 <= i < k && 0 <= j < other.lens().len() && other.lens()[j] == self.lens@[i]
                    ==> #[trigger] self.hists@[i].get(a, b) == sat(s0[i].get(a, b), #[trigger] other.hists@[j].get(a, b)),
                forall|i: int, j: int, a: int, b: int| 0 <= i < k && 0 <= j < other.lens().len() && other.lens()[j] == self.lens@[i]
                    ==> #[trigger] self.hists@[i].get_bs(a, b) == sat(s0[i].get_bs(a, b), #[trigger] other.hists@[j].get_bs(a, b)),
            decreases s0.len() - k,
        {
            let l = self.lens[k];
            proof {
                assert(self.lens@.contains(l)) by {
                    assert(self.lens@[k as int] == l);
                }
                assert(other.lens().contains(l));
            }
            let j = other.position(l).unwrap();
            proof {
                assert(other.hists@[j as int].wf());
            }
            let ghost before = self.hists@;
            self.hists[k].merge_from(&other.hists[j]);
            proof {
                assert forall|i: int, j2: int, a: int, b: int| 0 <= i < k + 1 && 0 <= j2 < other.lens().len() && other.lens()[j2] == self.lens@[i]
                    implies #[trigger] self.hists@[i].get(a, b) == sat(s0[i].get(a, b), #[trigger] other.hists@[j2].get(a, b)) by {
                    if i == k {
                        if j2 != j {
                            assert(other.lens@[j2] != other.lens@[j as int]);
                        }
                    } else {
                        assert(self.hists@[i] == before[i]);
                    }
                }
                assert forall|i: int, j2: int, a: int, b: int| 0 <= i < k + 1 && 0 <= j2 < other.lens().len() && other.lens()[j2] == self.lens@[i]
                    implies #[trigger] self.hists@[i].get_bs(a, b) == sat(s0[i].get_bs(a, b), #[trigger] other.hists@[j2].get_bs(a, b)) by {
                    if i == k {
                        if j2 != j {
                            assert(other.lens@[j2] != other.lens@[j as int]);
                        }
                    } else {
                        assert(self.hists@[i] == before[i]);
                    }
                }
            }
            k = k + 1;
        }
    }

    /// Counts one more `(a, b)` point for the read length at place `li`.
    fn add_count(&mut self, li: usize, a: u32, b: u32)
        requires
            old(self).wf(),
            li < old(self).lens().len(),
            a <= old(self).lens()[li as int],
            b <= old(self).lens()[li as int],
        ensures
            final(self).wf(),
            final(self).lens() == old(self).lens(),
            final(self).spec_bisulfite() == old(self).spec_bisulfite(),
            forall|i: int, x: int, y: int| 0 <= i < old(self).lens().len() ==> #[trigger] final(self).get(i, x, y) == if i == li && x == a && y == b { sat(old(self).get(i, x, y), 1) } else { old(self).get(i, x, y) },
            forall|i: int, x: int, y: int| 0 <= i < old(self).lens().len() ==> #[trigger] final(self).get_bs(i, x, y) == old(self).get_bs(i, x, y),
    {
        let ghost h0 = self.hists@;
        self.hists[li].add(a, b);
        proof {
            assert forall|i: int| 0 <= i < h0.len() && i != li implies #[trigger] self.hists@[i] == h0[i] by {}
        }
    }

    /// Counts one more per-strand `(a, b)` point for the read length at
    /// place `li`, in bisulfite mode.
    fn add_bs_count(&mut self, li: usize, a: u32, b: u32)
        requires
            old(self).wf(),
            li < old(self).lens().len(),
            a <= old(self).lens()[li as int],
            b <= old(self).lens()[li as int],
        ensures
            final(self).wf(),
            final(self).lens() == old(self).lens(),
            final(self).spec_bisulfite() == old(self).spec_bisulfite(),
            forall|i: int, x: int, y: int| 0 <= i < old(self).lens().len() ==> #[trigger] final(self).get(i, x, y) == old(self).get(i, x, y),
            forall|i: int, x: int, y: int| 0 <= i < old(self).lens().len() ==> #[trigger] final(self).get_bs(i, x, y) == if i == li && x == a && y == b && old(self).spec_bisulfite() { sat(old(self).get_bs(i, x, y), 1) } else { old(self).get_bs(i, x, y) },
    {
        let ghost h0 = self.hists@;
        self.hists[li].add_bs(a, b);
        proof {
            assert forall|i: int| 0 <= i < h0.len() && i != li implies #[trigger] self.hists@[i] == h0[i] by {}
        }
    }
}

/// The base at index `i` of `s`, or a gap outside it.
fn base_at_exec(s: &[Base], i: usize, shift: usize) -> (r: Base)
    ensures
        r == base_at(s@, i - shift),
{
    if i >= shift && i - shift < s.len() {
        s[i - shift]
    } else {
        Base::Other
    }
}

/// One read length, one step: the window of the read length at place `li`
/// moves on to end at index `j`, and its points are counted where it has
/// enough valid bases.
#[verifier::rlimit(80)]
fn slide(s: &[Base], j: usize, li: usize, c: &mut Counts, res: &mut GcRes)
    requires
        old(res).wf(),
        li < old(res).lens().len(),
        old(c).threshold >= 1,
        forall|k: int| 0 <= k < 4 ==> #[trigger] old(c).counts@[k] == count_code(s@, j - old(res).lens()[li as int], j as int, k as u8),
    ensures
        final(res).wf(),
        final(res).lens() == old(res).lens(),
        final(res).spec_bisulfite() == old(res).spec_bisulfite(),
        final(c).threshold == old(c).threshold,
        forall|k: int| 0 <= k < 4 ==> #[trigger] final(c).counts@[k] == window(s@, j as int, old(res).lens()[li as int] as int, k as u8),
        forall|i: int, x: int, y: int| 0 <= i < old(res).lens().len() ==> #[trigger] final(res).get(i, x, y) == if i == li {
            sat(old(res).get(i, x, y), if window_valid(s@, j as int, old(res).lens()[li as int] as int) >= old(c).threshold
                && point(s@, j as int, old(res).lens()[li as int] as int, 0) == (x, y) { 1int } else { 0int })
        } else {
            old(res).get(i, x, y)
        },
        forall|i: int, x: int, y: int| 0 <= i < old(res).lens().len() ==> #[trigger] final(res).get_bs(i, x, y) == if i == li && old(res).spec_bisulfite() {
            sat(old(res).get_bs(i, x, y), (if window_valid(s@, j as int, old(res).lens()[li as int] as int) >= old(c).threshold
                && point(s@, j as int, old(res).lens()[li as int] as int, 1) == (x, y) { 1int } else { 0int })
                + (if window_valid(s@, j as int, old(res).lens()[li as int] as int) >= old(c).threshold
                && point(s@, j as int, old(res).lens()[li as int] as int, 2) == (x, y) { 1int } else { 0int }))
        } else {
            old(res).get_bs(i, x, y)
        },
{
    proof {
        res.lemma_bounds();
    }
    let ghost sq = s@;
    let l = res.lens[li] as usize;
    proof {
        assert(res.hists@[li as int].wf());
    }
    let b = base_at_exec(s, j, 0);
    let out = base_at_exec(s, j, l);
    let ghost lo = j - l;
    proof {
        lemma_count_front(sq, lo, j as int, out.spec_code());
        lemma_count_sum(sq, lo + 1, j as int);
        lemma_count_sum(sq, lo, j as int);
    }
    c.remove_base(&out);
    proof {
        assert forall|k: int| 0 <= k < 4 implies #[trigger] c.counts@[k] == count_code(sq, lo + 1, j as int, k as u8) by {
            lemma_count_front(sq, lo, j as int, k as u8);
        }
    }
    c.add_base(&b);
    proof {
        assert forall|k: int| 0 <= k < 4 implies #[trigger] c.counts@[k] == window(sq, j as int, l as int, k as u8) by {
            assert(count_code(sq, lo + 1, j + 1, k as u8) == count_code(sq, lo + 1, j as int, k as u8) + if base_at(sq, j as int).spec_code() == k as u8 { 1int } else { 0int });
        }
        lemma_count_sum(sq, lo + 1, j + 1);
    }
    if res.bisulfite {
        match c.get_bs_counts() {
            Some((tc, ag)) => {
                res.add_count(li, tc.0 + ag.0, tc.1 + ag.1);
                res.add_bs_count(li, tc.0, tc.1);
                res.add_bs_count(li, ag.0, ag.1);
            },
            None => {},
        }
    } else {
        match c.get_counts() {
            Some(p) => {
                res.add_count(li, p.0, p.1);
            },
            None => {},
        }
    }
}

/// Slides a window of every read length of `res` over `s`, padded with gaps
/// on both sides, and counts the point of each window that has at least the
/// read length's threshold of valid bases: the (AT, GC) point, and in
/// bisulfite mode also the (T, C) and (A, G) points per strand.
pub fn process_seq(s: &[Base], thresholds: &[u32], res: &mut GcRes)
    requires
        old(res).wf(),
        thresholds@.len() == old(res).lens().len(),
        forall|i: int| 0 <= i < thresholds@.len() ==> #[trigger] thresholds@[i] >= 1,
        forall|i: int| 0 <= i < old(res).lens().len() ==> s@.len() + #[trigger] old(res).lens()[i] <= usize::MAX,
    ensures
        final(res).wf(),
        final(res).lens() == old(res).lens(),
        final(res).spec_bisulfite() == old(res).spec_bisulfite(),
        forall|li: int, a: int, b: int| 0 <= li < old(res).lens().len() ==> #[trigger] final(res).get(li, a, b) == sat(
            old(res).get(li, a, b),
            seq_points(s@, old(res).lens()[li] as int, thresholds@[li] as int, 0, a, b),
        ),
        forall|li: int, a: int, b: int| 0 <= li < old(res).lens().len() ==> #[trigger] final(res).get_bs(li, a, b) == if old(res).spec_bisulfite() {
            sat(
                old(res).get_bs(li, a, b),
                seq_points(s@, old(res).lens()[li] as int, thresholds@[li] as int, 1, a, b)
                    + seq_points(s@, old(res).lens()[li] as int, thresholds@[li] as int, 2, a, b),
            )
        } else {
            old(res).get_bs(li, a, b)
        },
{
    let ghost r0 = *res;
    let ghost sq = s@;
    let ghost lens = r0.lens();
    proof {
        r0.lemma_bounds();
    }
    let slen = s.len();
    let nl = res.lens.len();
    let bisulfite = res.bisulfite;
    let mut cts: Vec<Counts> = Vec::new();
    let mut maxl: usize = 0;
    let mut k: usize = 0;
    while k < nl
        invariant
            res.wf(),
            nl == lens.len(),
            res.lens() == lens,
            thresholds@.len() == nl,
            k <= nl,
            cts@.len() == k,
            s@.len() + maxl <= usize::MAX,
            maxl <= u32::MAX,
            forall|i: int| 0 <= i < nl ==> s@.len() + #[trigger] lens[i] <= usize::MAX,
            forall|i: int| 0 <= i < k ==> lens[i] <= maxl,
            forall|i: int| 0 <= i < k ==> (#[trigger] cts@[i]).counts@ == seq![0u32, 0, 0, 0] && cts@[i].threshold == thresholds@[i],
            forall|i: int| 0 <= i < thresholds@.len() ==> #[trigger] thresholds@[i] >= 1,
        decreases nl - k,
    {
        cts.push(Counts::new(thresholds[k]));
        proof {
            assert(res.hists@[k as int].wf());
        }
        if res.lens[k] as usize > maxl {
            maxl = res.lens[k] as usize;
        }
        k = k + 1;
    }
    let n = s.len() + maxl;
    let mut j: usize = 0;
    proof {
        assert forall|i: int, c: int| 0 <= i < nl && 0 <= c < 4 implies #[trigger] cts@[i].counts@[c] == count_code(sq, j - lens[i], j as int, c as u8) by {
            lemma_count_outside(sq, j - lens[i], j as int, c as u8);
        }
        assert forall|i: int| 0 <= i < nl implies 1 <= #[trigger] lens[i] by {
            assert(res.hists@[i].wf());
        }
    }
    while j < n
        invariant
            res.wf(),
            res.lens() == lens,
            res.bisulfite == bisulfite,
            bisulfite == r0.spec_bisulfite(),
            r0.wf(),
            sq == s@,
            lens == r0.lens(),
            nl == lens.len(),
            thresholds@.len() == nl,
            n == s@.len() + maxl,
            j <= n,
            cts@.len() == nl,
            forall|i: int| 0 <= i < nl ==> lens[i] <= maxl,
            forall|i: int| 0 <= i < nl ==> 1 <= #[trigger] lens[i],
            forall|i: int| 0 <= i < thresholds@.len() ==> #[trigger] thresholds@[i] >= 1,
            forall|i: int, c: int| 0 <= i < nl && 0 <= c < 4 ==> #[trigger] cts@[i].counts@[c] == count_code(sq, j - lens[i], j as int, c as u8),
            forall|i: int| 0 <= i < nl ==> (#[trigger] cts@[i]).threshold == thresholds@[i],
            forall|li: int, a: int, b: int| 0 <= li < nl ==> #[trigger] res.get(li, a, b) == sat(r0.get(li, a, b), n_points(sq, lens[li] as int, thresholds@[li] as int, 0, j as int, a, b)),
            forall|li: int, a: int, b: int| 0 <= li < nl ==> #[trigger] res.get_bs(li, a, b) == if bisulfite {
                sat(r0.get_bs(li, a, b), n_points(sq, lens[li] as int, thresholds@[li] as int, 1, j as int, a, b) + n_points(sq, lens[li] as int, thresholds@[li] as int, 2, j as int, a, b))
            } else {
                r0.get_bs(li, a, b)
            },
        decreases n - j,
    {
        let b = base_at_exec(s, j, 0);
        let mut li: usize = 0;
        while li < nl
            invariant
                res.wf(),
                res.lens() == lens,
                res.bisulfite == bisulfite,
                bisulfite == r0.spec_bisulfite(),
                r0.wf(),
                sq == s@,
                lens == r0.lens(),
                nl == lens.len(),
                thresholds@.len() == nl,
                n == s@.len() + maxl,
                j < n,
                li <= nl,
                b == base_at(sq, j as int),
                cts@.len() == nl,
                forall|i: int| 0 <= i < nl ==> lens[i] <= maxl,
                forall|i: int| 0 <= i < nl ==> 1 <= #[trigger] lens[i],
                forall|i: int| 0 <= i < thresholds@.len() ==> #[trigger] thresholds@[i] >= 1,
                forall|i: int, c: int| 0 <= i < nl && 0 <= c < 4 ==> #[trigger] cts@[i].counts@[c] == count_code(sq, if i < li { j + 1 - lens[i] } else { j - lens[i] }, if i < li { j + 1 } else { j as int }, c as u8),
                forall|i: int| 0 <= i < nl ==> (#[trigger] cts@[i]).threshold == thresholds@[i],
                forall|i: int, x: int, y: int| 0 <= i < nl ==> #[trigger] res.get(i, x, y) == sat(r0.get(i, x, y), n_points(sq, lens[i] as int, thresholds@[i] as int, 0, if i < li { j + 1 } else { j as int }, x, y)),
                forall|i: int, x: int, y: int| 0 <= i < nl ==> #[trigger] res.get_bs(i, x, y) == if bisulfite {
                    sat(r0.get_bs(i, x, y), n_points(sq, lens[i] as int, thresholds@[i] as int, 1, if i < li { j + 1 } else { j as int }, x, y) + n_points(sq, lens[i] as int, thresholds@[i] as int, 2, if i < li { j + 1 } else { j as int }, x, y))
                } else {
                    r0.get_bs(i, x, y)
                },
            decreases nl - li,
        {
            let ghost r1 = *res;
            let ghost c_before = cts@;
            slide(s, j, li, &mut cts[li], res);
            proof {
                assert forall|i: int, c: int| 0 <= i < nl && 0 <= c < 4 implies #[trigger] cts@[i].counts@[c] == count_code(sq, if i < li + 1 { j + 1 - lens[i] } else { j - lens[i] }, if i < li + 1 { j + 1 } else { j as int }, c as u8) by {
                    if i != li {
                        assert(cts@[i] == c_before[i]);
                    }
                }
            }
            proof {
                assert forall|i: int, x: int, y: int| 0 <= i < nl implies #[trigger] res.get(i, x, y) == sat(r0.get(i, x, y), n_points(sq, lens[i] as int, thresholds@[i] as int, 0, if i < li + 1 { j + 1 } else { j as int }, x, y)) by {
                    assert(r1.get(i, x, y) == sat(r0.get(i, x, y), n_points(sq, lens[i] as int, thresholds@[i] as int, 0, if i < li { j + 1 } else { j as int }, x, y)));
                }
                assert forall|i: int, x: int, y: int| 0 <= i < nl implies #[trigger] res.get_bs(i, x, y) == if bisulfite {
                    sat(r0.get_bs(i, x, y), n_points(sq, lens[i] as int, thresholds@[i] as int, 1, if i < li + 1 { j + 1 } else { j as int }, x, y) + n_points(sq, lens[i] as int, thresholds@[i] as int, 2, if i < li + 1 { j + 1 } else { j as int }, x, y))
                } else {
                    r0.get_bs(i, x, y)
                } by {
                    assert(r1.get_bs(i, x, y) == if bisulfite {
                        sat(r0.get_bs(i, x, y), n_points(sq, lens[i] as int, thresholds@[i] as int, 1, if i < li { j + 1 } else { j as int }, x, y) + n_points(sq, lens[i] as int, thresholds@[i] as int, 2, if i < li { j + 1 } else { j as int }, x, y))
                    } else {
                        r0.get_bs(i, x, y)
                    });
                }
            }
            li = li + 1;
        }
        j = j + 1;
    }
    proof {
        assert forall|li: int, a: int, b: int| 0 <= li < nl implies #[trigger] res.get(li, a, b) == sat(
            r0.get(li, a, b),
            seq_points(sq, lens[li] as int, thresholds@[li] as int, 0, a, b),
        ) by {
            lemma_n_points_tail(sq, lens[li] as int, thresholds@[li] as int, 0, n as int, a, b);
        }
        assert forall|li: int, a: int, b: int| 0 <= li < nl implies #[trigger] res.get_bs(li, a, b) == if bisulfite {
            sat(
                r0.get_bs(li, a, b),
                seq_points(sq, lens[li] as int, thresholds@[li] as int, 1, a, b)
                    + seq_points(sq, lens[li] as int, thresholds@[li] as int, 2, a, b),
            )
        } else {
            r0.get_bs(li, a, b)
        } by {
            lemma_n_points_tail(sq, lens[li] as int, thresholds@[li] as int, 1, n as int, a, b);
            lemma_n_points_tail(sq, lens[li] as int, thresholds@[li] as int, 2, n as int, a, b);
        }
    }
}

/// The points of kind `kind` equal to `(a, b)` that the sequences `ss`
/// give, one after the other.
pub open spec fn stream_points(ss: Seq<Seq<Base>>, len: int, thr: int, kind: int, a: int, b: int) -> int
    decreases ss.len(),
{
    if ss.len() == 0 {
        0
    } else {
        stream_points(ss.drop_last(), len, thr, kind, a, b) + seq_points(ss.last(), len, thr, kind, a, b)
    }
}

/// The sequences of all the parts, part after part.
pub open spec fn join(parts: Seq<Seq<Seq<Base>>>) -> Seq<Seq<Base>>
    decreases parts.len(),
{
    if parts.len() == 0 {
        Seq::empty()
    } else {
        join(parts.drop_last()) + parts.last()
    }
}

/// Counts held at `u64::MAX`, merged one after the other from zero.
pub open spec fn merge_all(counts: Seq<int>) -> int
    decreases counts.len(),
{
    if counts.len() == 0 {
        0
    } else {
        sat(merge_all(counts.drop_last()), counts.last())
    }
}

proof fn lemma_points_nonneg(s: Seq<Base>, len: int, thr: int, kind: int, n: int, a: int, b: int)
    ensures
        n_points(s, len, thr, kind, n, a, b) >= 0,
    decreases n,
{
    if n > 0 {
        lemma_points_nonneg(s, len, thr, kind, n - 1, a, b);
    }
}

proof fn lemma_stream_nonneg(ss: Seq<Seq<Base>>, len: int, thr: int, kind: int, a: int, b: int)
    ensures
        stream_points(ss, len, thr, kind, a, b) >= 0,
    decreases ss.len(),
{
    if ss.len() > 0 {
        lemma_stream_nonneg(ss.drop_last(), len, thr, kind, a, b);
        lemma_points_nonneg(ss.last(), len, thr, kind, ss.last().len() + len - 1, a, b);
    }
}

/// The points of two streams one after the other are the points of each.
pub proof fn lemma_stream_concat(x: Seq<Seq<Base>>, y: Seq<Seq<Base>>, len: int, thr: int, kind: int, a: int, b: int)
    ensures
        stream_points(x + y, len, thr, kind, a, b) == stream_points(x, len, thr, kind, a, b) + stream_points(y, len, thr, kind, a, b),
    decreases y.len(),
{
    if y.len() == 0 {
        assert(x + y == x);
    } else {
        lemma_stream_concat(x, y.drop_last(), len, thr, kind, a, b);
        assert((x + y).drop_last() == x + y.drop_last());
        assert((x + y).last() == y.last());
    }
}

/// Merging counts is commutative and associative, and counting a stream
/// after another from zero is merging their counts.
pub proof fn lemma_merge_laws(x: int, y: int, z: int)
    requires
        0 <= x <= u64::MAX,
        0 <= y <= u64::MAX,
        0 <= z <= u64::MAX,
    ensures
        sat(x, y) == sat(y, x),
        sat(sat(x, y), z) == sat(x, sat(y, z)),
        0 <= sat(x, y) <= u64::MAX,
{
}

/// However a stream of sequences is cut into parts, each counted on its own
/// from zero (a worker's histogram), merging the parts' counts gives the
/// counts of the whole stream counted from zero (a single worker's
/// histogram).
pub proof fn lemma_partition_merge(parts: Seq<Seq<Seq<Base>>>, len: int, thr: int, kind: int, a: int, b: int)
    ensures
        merge_all(Seq::new(parts.len(), |i: int| sat(0, stream_points(parts[i], len, thr, kind, a, b))))
            == sat(0, stream_points(join(parts), len, thr, kind, a, b)),
    decreases parts.len(),
{
    let v = Seq::new(parts.len(), |i: int| sat(0, stream_points(parts[i], len, thr, kind, a, b)));
    if parts.len() == 0 {
        assert(join(parts) == Seq::<Seq<Base>>::empty());
    } else {
        let head = parts.drop_last();
        lemma_partition_merge(head, len, thr, kind, a, b);
        let v0 = Seq::new(head.len(), |i: int| sat(0, stream_points(head[i], len, thr, kind, a, b)));
        assert(v.drop_last() == v0);
        lemma_stream_concat(join(head), parts.last(), len, thr, kind, a, b);
        lemma_stream_nonneg(join(head), len, thr, kind, a, b);
        lemma_stream_nonneg(parts.last(), len, thr, kind, a, b);
    }
}

proof fn lemma_count_in_seq(s: Seq<Base>, lo: int, hi: int)
    requires
        lo <= hi,
    ensures
        count_code(s, lo, hi, 0) + count_code(s, lo, hi, 1) + count_code(s, lo, hi, 2) + count_code(s, lo, hi, 3)
            <= if hi <= 0 || lo >= s.len() { 0 } else { (if hi < s.len() { hi } else { s.len() as int }) - (if lo > 0 { lo } else { 0 }) },
    decreases hi - lo,
{
    if hi > lo {
        lemma_count_in_seq(s, lo, hi - 1);
        lemma_count_sum(s, lo, hi - 1);
    }
}

proof fn lemma_no_points(s: Seq<Base>, len: int, thr: int, kind: int, n: int, a: int, b: int)
    requires
        len >= 1,
        thr > s.len(),
    ensures
        n_points(s, len, thr, kind, n, a, b) == 0,
    decreases n,
{
    if n > 0 {
        lemma_no_points(s, len, thr, kind, n - 1, a, b);
        lemma_count_in_seq(s, n - len, n);
    }
}

/// A read length longer than the sequence, with a threshold over the
/// sequence's length (as with a threshold proportion of 1), counts no window.
pub proof fn lemma_long_read_counts_nothing(s: Seq<Base>, len: int, thr: int, kind: int, a: int, b: int)
    requires
        len >= 1,
        thr > s.len(),
    ensures
        seq_points(s, len, thr, kind, a, b) == 0,
{
    lemma_no_points(s, len, thr, kind, s.len() + len - 1, a, b);
}

proof fn lemma_full_windows(s: Seq<Base>, len: int, kind: int, n: int, a: int, b: int)
    requires
        len >= 1,
        n_points(s, len, len, kind, n, a, b) > 0,
    ensures
        exists|j: int| 0 <= j < n && #[trigger] window_valid(s, j, len) == len && point(s, j, len, kind) == (a, b)
            && 0 <= j - len + 1 && j < s.len(),
    decreases n,
{
    if n_points(s, len, len, kind, n - 1, a, b) > 0 {
        lemma_full_windows(s, len, kind, n - 1, a, b);
        let j = choose|j: int| 0 <= j < n - 1 && #[trigger] window_valid(s, j, len) == len && point(s, j, len, kind) == (a, b)
            && 0 <= j - len + 1 && j < s.len();
        assert(0 <= j < n);
    } else {
        let j = n - 1;
        lemma_count_sum(s, j - len + 1, j + 1);
        lemma_count_in_seq(s, j - len + 1, j + 1);
        assert(window_valid(s, j, len) == len);
    }
}

/// With a threshold of the whole read length (a threshold proportion of 1),
/// every window counted lies inside the sequence and all its bases are
/// valid.
pub proof fn lemma_full_threshold(s: Seq<Base>, len: int, kind: int, a: int, b: int)
    requires
        len >= 1,
        seq_points(s, len, len, kind, a, b) > 0,
    ensures
        exists|j: int| 0 <= j - len + 1 && j < s.len() && #[trigger] window_valid(s, j, len) == len
            && point(s, j, len, kind) == (a, b),
{
    lemma_full_windows(s, len, kind, s.len() + len - 1, a, b);
}

} // verus!
