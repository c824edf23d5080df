//! Target regions: half-open intervals on named contigs.
use vstd::prelude::*;
use vstd::string::StringSliceAdditionalSpecFns;

verus! {

/// A half-open interval `[start, start + size)` on a contig, with a positive
/// identifier.
#[derive(Debug, Copy, Clone, PartialEq, Eq, Structural)]
pub struct Region {
    start: u32,
    size: u32,
    idx: u32,
}

impl Region {
    pub closed spec fn spec_start(self) -> int {
        self.start as int
    }

    pub closed spec fn spec_size(self) -> int {
        self.size as int
    }

    pub closed spec fn spec_idx(self) -> u32 {
        self.idx
    }

    pub open spec fn spec_end(self) -> int {
        self.spec_start() + self.spec_size()
    }

    /// The interval is not empty, its end fits in a `u32` and the identifier
    /// is positive.
    pub open spec fn wf(self) -> bool {
        self.spec_size() >= 1 && self.spec_end() <= u32::MAX && self.spec_idx() >= 1
    }

    /// Whether `p` lies in the interval.
    pub open spec fn contains(self, p: int) -> bool {
        self.spec_start() <= p < self.spec_end()
    }

    /// The order of regions: by start, then by size.
    pub open spec fn le(self, o: Region) -> bool {
        self.spec_start() < o.spec_start() || (self.spec_start() == o.spec_start()
            && self.spec_size() <= o.spec_size())
    }

    pub fn new(start: u32, size: u32, idx: u32) -> (r: Region)
        requires
            size >= 1,
            start + size <= u32::MAX,
            idx >= 1,
        ensures
            r.wf(),
            r.spec_start() == start,
            r.spec_size() == size,
            r.spec_idx() == idx,
    {
        Region { start, size, idx }
    }

    pub fn start(&self) -> (r: u32)
        ensures
            r == self.spec_start(),
    {
        self.start
    }

    pub fn idx(&self) -> (r: u32)
        ensures
            r == self.spec_idx(),
    {
        self.idx
    }

    pub fn end(&self) -> (r: u32)
        requires
            self.wf(),
        ensures
            r == self.spec_end(),
    {
        self.start + self.size
    }
}

/// The identifier of the region of `rs` that holds point `p`, if any (on a
/// separated list at most one does).
pub open spec fn region_of(rs: Seq<Region>, p: int) -> Option<u32> {
    if covered(rs, p) {
        Some(rs[choose|i: int| 0 <= i < rs.len() && (#[trigger] rs[i]).contains(p)].spec_idx())
    } else {
        None
    }
}

/// The position of the contig named `name` in `s`, if any (names are
/// distinct).
pub open spec fn contig_of(s: Seq<(Seq<u8>, Seq<Region>)>, name: Seq<u8>) -> Option<usize> {
    if exists|i: int| 0 <= i < s.len() && (#[trigger] s[i]).0 == name {
        Some((choose|i: int| 0 <= i < s.len() && (#[trigger] s[i]).0 == name) as usize)
    } else {
        None
    }
}

/// Whether point `p` lies in some region of `rs`.
pub open spec fn covered(rs: Seq<Region>, p: int) -> bool {
    exists|i: int| 0 <= i < rs.len() && (#[trigger] rs[i]).contains(p)
}

/// Whether point `p` lies in one of the first `k` regions of `rs`.
pub open spec fn covered_prefix(rs: Seq<Region>, k: int, p: int) -> bool {
    exists|i: int| 0 <= i < k && i < rs.len() && (#[trigger] rs[i]).contains(p)
}

/// Some region of `rs` starts at `x`.
pub open spec fn starts_at(rs: Seq<Region>, x: int) -> bool {
    exists|i: int| 0 <= i < rs.len() && (#[trigger] rs[i]).spec_start() == x
}

/// Some region of `rs` ends at `x`.
pub open spec fn ends_at(rs: Seq<Region>, x: int) -> bool {
    exists|i: int| 0 <= i < rs.len() && (#[trigger] rs[i]).spec_end() == x
}

/// Every region of `out` starts where a region of `inp` starts and ends
/// where a region of `inp` ends.
pub open spec fn bounds_from(out: Seq<Region>, inp: Seq<Region>) -> bool {
    forall|j: int| 0 <= j < out.len() ==> starts_at(inp, (#[trigger] out[j]).spec_start()) && ends_at(inp, out[j].spec_end())
}

/// No region of `rs` is empty.
pub open spec fn all_nonempty(rs: Seq<Region>) -> bool {
    forall|i: int| 0 <= i < rs.len() ==> (#[trigger] rs[i]).spec_size() > 0
}

/// Every region of `rs` is well formed.
pub open spec fn all_wf(rs: Seq<Region>) -> bool {
    forall|i: int| 0 <= i < rs.len() ==> (#[trigger] rs[i]).wf()
}

/// The regions are in increasing order, each ending before the next starts.
pub open spec fn separated(rs: Seq<Region>) -> bool {
    forall|i: int, j: int| 0 <= i < j < rs.len() ==> (#[trigger] rs[i]).spec_end() < (#[trigger] rs[j]).spec_start()
}

/// The identifiers of the regions count up by one from `first`.
pub open spec fn numbered_from(rs: Seq<Region>, first: int) -> bool {
    forall|i: int| 0 <= i < rs.len() ==> (#[trigger] rs[i]).spec_idx() == first + i
}

/// A normalised list of regions, numbered from `first`.
pub open spec fn normalized_from(rs: Seq<Region>, first: int) -> bool {
    all_wf(rs) && separated(rs) && numbered_from(rs, first)
}

/// The regions are sorted by (start, size).
pub open spec fn sorted(rs: Seq<Region>) -> bool {
    forall|i: int, j: int| 0 <= i < j < rs.len() ==> (#[trigger] rs[i]).le(#[trigger] rs[j])
}

/// Every region of `a` is in `b`.
pub open spec fn within(a: Seq<Region>, b: Seq<Region>) -> bool {
    forall|i: int| 0 <= i < a.len() ==> b.contains(#[trigger] a[i])
}

/// The regions of one contig.
#[derive(Debug)]
pub struct ContigRegions {
    regions: Vec<Region>,
}

impl View for ContigRegions {
    type V = Seq<Region>;

    closed spec fn view(&self) -> Seq<Region> {
        self.regions@
    }
}

/// Sorts regions by (start, size), keeping every one.
fn sort_regions(v: &Vec<Region>) -> (r: Vec<Region>)
    ensures
        r@.len() == v@.len(),
        sorted(r@),
        within(r@, v@),
        within(v@, r@),
{
    let mut out: Vec<Region> = Vec::new();
    let mut i: usize = 0;
    while i < v.len()
        invariant
            i <= v.len(),
            out@.len() == i,
            sorted(out@),
            within(out@, v@),
            within(v@.subrange(0, i as int), out@),
        decreases v.len() - i,
    {
        let x = v[i];
        let mut pos: usize = 0;
        while pos < out.len() && out[pos].le_exec(&x)
            invariant
                pos <= out.len(),
                forall|k: int| 0 <= k < pos ==> (#[trigger] out@[k]).le(x),
            decreases out.len() - pos,
        {
            pos = pos + 1;
        }
        proof {
            if pos < out.len() {
                assert(!out@[pos as int].le(x));
                assert forall|k: int| pos <= k < out@.len() implies x.le(#[trigger] out@[k]) by {
                    if k > pos {
                        assert(out@[pos as int].le(out@[k]));
                    }
                }
            }
        }
        let ghost old_out = out@;
        out.insert(pos, x);
        proof {
            assert forall|a: int, b: int| 0 <= a < b < out@.len() implies (#[trigger] out@[a]).le(#[trigger] out@[b]) by {
                if a < pos && b > pos {
                    assert(old_out[a].le(old_out[b - 1]));
                } else if a > pos {
                    assert(old_out[a - 1].le(old_out[b - 1]));
                } else if a == pos && b > pos {
                    assert(x.le(old_out[b - 1]));
                }
            }
            assert forall|k: int| 0 <= k < out@.len() implies v@.contains(#[trigger] out@[k]) by {
                if k < pos {
                    assert(old_out.contains(old_out[k]));
                    assert(out@[k] == old_out[k]);
                } else if k > pos {
                    assert(out@[k] == old_out[k - 1]);
                } else {
                    assert(v@[i as int] == x);
                }
            }
            assert forall|k: int| 0 <= k < i + 1 implies out@.contains(#[trigger] v@.subrange(0, i + 1)[k]) by {
                if k < i {
                    assert(v@.subrange(0, i as int)[k] == v@.subrange(0, i + 1)[k]);
                    assert(old_out.contains(v@.subrange(0, i as int)[k]));
                    let j = choose|j: int| 0 <= j < old_out.len() && old_out[j] == v@.subrange(0, i as int)[k];
                    if j < pos {
                        assert(out@[j] == old_out[j]);
                    } else {
                        assert(out@[j + 1] == old_out[j]);
                    }
                } else {
                    assert(out@[pos as int] == x);
                }
            }
        }
        i = i + 1;
    }
    assert(v@.subrange(0, v@.len() as int) == v@);
    out
}

impl Region {
    fn le_exec(&self, o: &Region) -> (r: bool)
        ensures
            r == self.le(*o),
    {
        self.start < o.start || (self.start == o.start && self.size <= o.size)
    }
}

impl ContigRegions {
    pub fn new() -> (r: ContigRegions)
        ensures
            r@ == Seq::<Region>::empty(),
    {
        ContigRegions { regions: Vec::new() }
    }

    /// Appends a region; nothing is sorted or merged until normalisation.
    pub fn add_region(&mut self, r: Region)
        ensures
            final(self)@ == old(self)@.push(r),
    {
        self.regions.push(r)
    }

    /// Sorts the regions, merges those that overlap or touch into their
    /// union and numbers the result from `ix + 1` up. Returns the last
    /// identifier given (`ix` where there are no regions).
    #[verifier::rlimit(100)]
    pub fn sort_and_merge(&mut self, ix: u32) -> (r: u32)
        requires
            all_wf(old(self)@),
            ix + old(self)@.len() <= u32::MAX,
        ensures
            normalized_from(final(self)@, ix + 1),
            r == ix + final(self)@.len(),
            final(self)@.len() <= old(self)@.len(),
            forall|p: int| covered(final(self)@, p) <==> covered(old(self)@, p),
            bounds_from(final(self)@, old(self)@),
            all_nonempty(old(self)@) ==> all_nonempty(final(self)@),
    {
        let sorted_regs = sort_regions(&self.regions);
        proof {
            assert forall|i: int| 0 <= i < sorted_regs@.len() implies (#[trigger] sorted_regs@[i]).wf() by {
                assert(self.regions@.contains(sorted_regs@[i]));
            }
            assert forall|p: int| covered(sorted_regs@, p) <==> covered(self.regions@, p) by {
                if covered(sorted_regs@, p) {
                    let i = choose|i: int| 0 <= i < sorted_regs@.len() && (#[trigger] sorted_regs@[i]).contains(p);
                    assert(self.regions@.contains(sorted_regs@[i]));
                }
                if covered(self.regions@, p) {
                    let i = choose|i: int| 0 <= i < self.regions@.len() && (#[trigger] self.regions@[i]).contains(p);
                    assert(sorted_regs@.contains(self.regions@[i]));
                }
            }
        }
        let n = sorted_regs.len();
        proof {
            assert forall|x: int| starts_at(sorted_regs@, x) implies starts_at(self.regions@, x) by {
                let i = choose|i: int| 0 <= i < sorted_regs@.len() && (#[trigger] sorted_regs@[i]).spec_start() == x;
                assert(self.regions@.contains(sorted_regs@[i]));
            }
            assert forall|x: int| ends_at(sorted_regs@, x) implies ends_at(self.regions@, x) by {
                let i = choose|i: int| 0 <= i < sorted_regs@.len() && (#[trigger] sorted_regs@[i]).spec_end() == x;
                assert(self.regions@.contains(sorted_regs@[i]));
            }
            if all_nonempty(self.regions@) {
                assert forall|i: int| 0 <= i < sorted_regs@.len() implies (#[trigger] sorted_regs@[i]).spec_size() > 0 by {
                    assert(self.regions@.contains(sorted_regs@[i]));
                }
            }
        }
        if n == 0 {
            proof {
                assert(self.regions@.len() == 0);
            }
            return ix;
        }
        let mut out: Vec<Region> = Vec::new();
        let mut next = ix;
        let mut ps = sorted_regs[0].start;
        let mut pe = sorted_regs[0].end();
        let mut k: usize = 1;
        proof {
            assert forall|p: int| ps <= p < pe implies covered_prefix(sorted_regs@, 1, p) by {
                assert(sorted_regs@[0].contains(p));
            }
            assert(starts_at(sorted_regs@, ps as int));
            assert(ends_at(sorted_regs@, pe as int));
        }
        while k < n
            invariant
                n == sorted_regs@.len(),
                1 <= k <= n,
                all_wf(sorted_regs@),
                sorted(sorted_regs@),
                normalized_from(out@, ix + 1),
                next == ix + out@.len(),
                out@.len() < k,
                ix + n <= u32::MAX,
                ps <= pe,
                ps <= sorted_regs@[k - 1].spec_start(),
                out@.len() > 0 ==> out@.last().spec_end() < ps,
                forall|p: int| ps <= p < pe ==> covered_prefix(sorted_regs@, k as int, p),
                forall|p: int| covered(out@, p) ==> covered_prefix(sorted_regs@, k as int, p),
                forall|j: int, p: int| #![trigger sorted_regs@[j].contains(p)] 0 <= j < k && sorted_regs@[j].contains(p) ==> (covered(out@, p) || ps <= p < pe),
                forall|j: int| 0 <= j < k ==> (#[trigger] sorted_regs@[j]).spec_end() <= pe,
                starts_at(sorted_regs@, ps as int),
                ends_at(sorted_regs@, pe as int),
                bounds_from(out@, sorted_regs@),
                all_nonempty(sorted_regs@) ==> ps < pe && all_nonempty(out@),
            decreases n - k,
        {
            let reg = sorted_regs[k];
            let re = reg.end();
            let ghost old_pe = pe;
            proof {
                assert(sorted_regs@[k - 1].le(reg));
            }
            if pe >= reg.start {
                if pe < re {
                    pe = re;
                }
                proof {
                    assert forall|p: int| ps <= p < pe implies #[trigger] covered_prefix(sorted_regs@, k + 1, p) by {
                        if p < old_pe {
                            assert(covered_prefix(sorted_regs@, k as int, p));
                            let i = choose|i: int| 0 <= i < k && i < sorted_regs@.len() && (#[trigger] sorted_regs@[i]).contains(p);
                        } else {
                            assert(sorted_regs@[k as int].contains(p));
                        }
                    }
                    assert forall|p: int| covered(out@, p) implies #[trigger] covered_prefix(sorted_regs@, k + 1, p) by {
                        assert(covered_prefix(sorted_regs@, k as int, p));
                        let i = choose|i: int| 0 <= i < k && i < sorted_regs@.len() && (#[trigger] sorted_regs@[i]).contains(p);
                    }
                }
            } else {
                let ghost old_out = out@;
                next = next + 1;
                out.push(Region { start: ps, size: pe - ps, idx: next });
                proof {
                    assert forall|j: int| 0 <= j < out@.len() implies starts_at(sorted_regs@, (#[trigger] out@[j]).spec_start()) && ends_at(sorted_regs@, out@[j].spec_end()) by {
                        if j < old_out.len() {
                            assert(out@[j] == old_out[j]);
                        }
                    }
                    if all_nonempty(sorted_regs@) {
                        assert forall|j: int| 0 <= j < out@.len() implies (#[trigger] out@[j]).spec_size() > 0 by {
                            if j < old_out.len() {
                                assert(out@[j] == old_out[j]);
                            }
                        }
                    }
                }
                proof {
                    assert forall|i: int, j: int| 0 <= i < j < out@.len() implies (#[trigger] out@[i]).spec_end() < (#[trigger] out@[j]).spec_start() by {
                        if j == out@.len() - 1 && i < j {
                            assert(old_out.last().spec_end() < ps);
                            if i < old_out.len() - 1 {
                                assert(old_out[i].spec_end() < old_out[old_out.len() - 1].spec_start());
                            }
                        } else {
                            assert(old_out[i].spec_end() < old_out[j].spec_start());
                        }
                    }
                    assert forall|p: int| covered(out@, p) implies covered_prefix(sorted_regs@, k + 1, p) by {
                        let i = choose|i: int| 0 <= i < out@.len() && (#[trigger] out@[i]).contains(p);
                        if i < old_out.len() {
                            assert(old_out[i].contains(p));
                            assert(covered(old_out, p));
                        }
                        assert(covered_prefix(sorted_regs@, k as int, p));
                        let i = choose|i: int| 0 <= i < k && i < sorted_regs@.len() && (#[trigger] sorted_regs@[i]).contains(p);
                    }
                    assert forall|p: int| reg.spec_start() <= p < re implies #[trigger] covered_prefix(sorted_regs@, k + 1, p) by {
                        assert(sorted_regs@[k as int].contains(p));
                    }
                    assert forall|j: int, p: int| #![trigger sorted_regs@[j].contains(p)] 0 <= j < k && sorted_regs@[j].contains(p) implies covered(out@, p) by {
                        if covered(old_out, p) {
                            let i = choose|i: int| 0 <= i < old_out.len() && (#[trigger] old_out[i]).contains(p);
                            assert(out@[i] == old_out[i]);
                        } else {
                            assert(out@[out@.len() - 1].contains(p));
                        }
                    }
                }
                ps = reg.start;
                pe = re;
                proof {
                    assert(sorted_regs@[k as int] == reg);
                    assert(starts_at(sorted_regs@, ps as int));
                    assert(ends_at(sorted_regs@, pe as int));
                }
            }
            proof {
                assert(sorted_regs@[k as int] == reg);
                if pe == re {
                    assert(ends_at(sorted_regs@, pe as int));
                }
            }
            k = k + 1;
        }
        let ghost old_out = out@;
        next = next + 1;
        out.push(Region { start: ps, size: pe - ps, idx: next });
        proof {
            assert forall|j: int| 0 <= j < out@.len() implies starts_at(sorted_regs@, (#[trigger] out@[j]).spec_start()) && ends_at(sorted_regs@, out@[j].spec_end()) by {
                if j < old_out.len() {
                    assert(out@[j] == old_out[j]);
                }
            }
            if all_nonempty(sorted_regs@) {
                assert forall|j: int| 0 <= j < out@.len() implies (#[trigger] out@[j]).spec_size() > 0 by {
                    if j < old_out.len() {
                        assert(out@[j] == old_out[j]);
                    }
                }
            }
        }
        proof {
            assert forall|i: int, j: int| 0 <= i < j < out@.len() implies (#[trigger] out@[i]).spec_end() < (#[trigger] out@[j]).spec_start() by {
                if j == out@.len() - 1 && i < j {
                    assert(old_out.last().spec_end() < ps);
                    if i < old_out.len() - 1 {
                        assert(old_out[i].spec_end() < old_out[old_out.len() - 1].spec_start());
                    }
                } else {
                    assert(old_out[i].spec_end() < old_out[j].spec_start());
                }
            }
            assert forall|p: int| covered(out@, p) <==> covered(sorted_regs@, p) by {
                if covered(out@, p) {
                    let i = choose|i: int| 0 <= i < out@.len() && (#[trigger] out@[i]).contains(p);
                    if i < old_out.len() {
                        assert(old_out[i].contains(p));
                        assert(covered(old_out, p));
                    }
                    assert(covered_prefix(sorted_regs@, n as int, p));
                    let j = choose|j: int| 0 <= j < n && j < sorted_regs@.len() && (#[trigger] sorted_regs@[j]).contains(p);
                }
                if covered(sorted_regs@, p) {
                    let j = choose|j: int| 0 <= j < n && (#[trigger] sorted_regs@[j]).contains(p);
                    if covered(old_out, p) {
                        let i = choose|i: int| 0 <= i < old_out.len() && (#[trigger] old_out[i]).contains(p);
                        assert(out@[i] == old_out[i]);
                    } else {
                        assert(out@[out@.len() - 1].contains(p));
                    }
                }
            }
        }
        proof {
            assert forall|j: int| 0 <= j < out@.len() implies starts_at(self.regions@, (#[trigger] out@[j]).spec_start()) && ends_at(self.regions@, out@[j].spec_end()) by {
                assert(starts_at(sorted_regs@, out@[j].spec_start()));
                assert(ends_at(sorted_regs@, out@[j].spec_end()));
            }
        }
        self.regions = out;
        next
    }

    pub fn regions(&self) -> (r: &Vec<Region>)
        ensures
            r@ == self@,
    {
        &self.regions
    }
}

impl ContigRegions {
    /// The identifier of the region holding position `pos`, if any, on a
    /// normalised list.
    pub fn region_at(&self, pos: u32) -> (r: Option<u32>)
        requires
            all_wf(self@),
            separated(self@),
        ensures
            r.is_some() <==> covered(self@, pos as int),
            r.is_some() ==> exists|i: int|
                0 <= i < self@.len() && (#[trigger] self@[i]).contains(pos as int)
                    && self@[i].spec_idx() == r.unwrap(),
            r == region_of(self@, pos as int),
    {
        let v = &self.regions;
        let mut lo: usize = 0;
        let mut hi: usize = v.len();
        while lo < hi
            invariant
                v@ == self@,
                0 <= lo <= hi <= v@.len(),
                all_wf(self@),
                separated(self@),
                forall|i: int| 0 <= i < lo ==> (#[trigger] v@[i]).spec_end() <= pos,
                forall|i: int| hi <= i < v@.len() ==> pos < (#[trigger] v@[i]).spec_start(),
            decreases hi - lo,
        {
            let mid = lo + (hi - lo) / 2;
            let r = v[mid];
            if pos < r.start {
                proof {
                    assert forall|i: int| mid <= i < v@.len() implies pos < (#[trigger] v@[i]).spec_start() by {
                        if i > mid {
                            assert(v@[mid as int].spec_end() < v@[i].spec_start());
                        }
                    }
                }
                hi = mid;
            } else if pos >= r.end() {
                proof {
                    assert forall|i: int| 0 <= i <= mid implies (#[trigger] v@[i]).spec_end() <= pos by {
                        if i < mid {
                            assert(v@[i].spec_end() < v@[mid as int].spec_start());
                        }
                    }
                }
                lo = mid + 1;
            } else {
                assert(v@[mid as int].contains(pos as int));
                proof {
                    let k = choose|i: int| 0 <= i < v@.len() && (#[trigger] v@[i]).contains(pos as int);
                    if k < mid {
                        assert(v@[k].spec_end() < v@[mid as int].spec_start());
                    } else if k > mid {
                        assert(v@[mid as int].spec_end() < v@[k].spec_start());
                    }
                }
                return Some(r.idx);
            }
        }
        proof {
            assert forall|i: int| 0 <= i < v@.len() implies !(#[trigger] v@[i]).contains(pos as int) by {
                if i < lo {
                } else {
                }
            }
        }
        None
    }
}

/// Whether two byte strings are equal.
pub fn same_bytes(a: &[u8], b: &[u8]) -> (r: bool)
    ensures
        r == (a@ == b@),
{
    if a.len() != b.len() {
        return false;
    }
    let mut i: usize = 0;
    while i < a.len()
        invariant
            a@.len() == b@.len(),
            i <= a@.len(),
            forall|j: int| 0 <= j < i ==> a@[j] == b@[j],
        decreases a.len() - i,
    {
        if a[i] != b[i] {
            return false;
        }
        i = i + 1;
    }
    assert(a@ =~= b@);
    true
}

/// The number of regions in the first `k` contigs of `s`.
pub open spec fn count_prefix(s: Seq<(Seq<u8>, Seq<Region>)>, k: int) -> int
    decreases k,
{
    if k <= 0 || s.len() == 0 {
        0
    } else if k > s.len() {
        count_prefix(s, s.len() as int)
    } else {
        count_prefix(s, k - 1) + s[k - 1].1.len()
    }
}

/// The number of regions in all contigs of `s`.
pub open spec fn count_all(s: Seq<(Seq<u8>, Seq<Region>)>) -> int {
    count_prefix(s, s.len() as int)
}

/// Each contig's regions are normalised, and the identifiers run on from one
/// contig to the next, starting at 1.
pub open spec fn all_normalized(s: Seq<(Seq<u8>, Seq<Region>)>) -> bool {
    forall|c: int| 0 <= c < s.len() ==> normalized_from(#[trigger] s[c].1, count_prefix(s, c) + 1)
}

proof fn lemma_count_prefix_mono(s: Seq<(Seq<u8>, Seq<Region>)>, a: int, b: int)
    requires
        0 <= a <= b <= s.len(),
    ensures
        count_prefix(s, a) <= count_prefix(s, b),
    decreases b - a,
{
    if a < b {
        lemma_count_prefix_mono(s, a, b - 1);
    }
}

proof fn lemma_count_prefix_cmp(s: Seq<(Seq<u8>, Seq<Region>)>, t: Seq<(Seq<u8>, Seq<Region>)>, k: int)
    requires
        0 <= k <= s.len(),
        k <= t.len(),
        forall|c: int| 0 <= c < k ==> (#[trigger] s[c]).1.len() <= t[c].1.len(),
    ensures
        count_prefix(s, k) <= count_prefix(t, k),
        (forall|c: int| 0 <= c < k ==> (#[trigger] s[c]).1.len() == t[c].1.len()) ==> count_prefix(s, k) == count_prefix(t, k),
    decreases k,
{
    if k > 0 {
        lemma_count_prefix_cmp(s, t, k - 1);
    }
}

/// The target regions of a genome, contig by contig, in the order in which
/// the contigs were first named.
#[derive(Debug)]
pub struct Regions {
    names: Vec<Vec<u8>>,
    contigs: Vec<ContigRegions>,
}

impl View for Regions {
    type V = Seq<(Seq<u8>, Seq<Region>)>;

    closed spec fn view(&self) -> Seq<(Seq<u8>, Seq<Region>)> {
        Seq::new(self.names@.len(), |i: int| (self.names@[i]@, self.contigs@[i]@))
    }
}

impl Regions {
    /// The parallel lists have one entry per contig and no name twice.
    pub closed spec fn wf(&self) -> bool {
        &&& self.names@.len() == self.contigs@.len()
        &&& forall|i: int, j: int| 0 <= i < j < self.names@.len() ==> (#[trigger] self.names@[i])@ != (#[trigger] self.names@[j])@
    }

    /// The contig names are distinct.
    pub open spec fn unique_names(s: Seq<(Seq<u8>, Seq<Region>)>) -> bool {
        forall|i: int, j: int| 0 <= i < j < s.len() ==> (#[trigger] s[i]).0 != (#[trigger] s[j]).0
    }

    /// Every region is well formed.
    pub open spec fn regions_wf(s: Seq<(Seq<u8>, Seq<Region>)>) -> bool {
        forall|c: int| 0 <= c < s.len() ==> all_wf(#[trigger] s[c].1)
    }

    pub proof fn lemma_wf(&self)
        requires
            self.wf(),
        ensures
            Self::unique_names(self@),
    {
    }

    pub fn new() -> (r: Regions)
        ensures
            r.wf(),
            r@ == Seq::<(Seq<u8>, Seq<Region>)>::empty(),
    {
        let r = Regions { names: Vec::new(), contigs: Vec::new() };
        assert(r@ =~= Seq::<(Seq<u8>, Seq<Region>)>::empty());
        r
    }

    /// The position of a contig in the list, found by the bytes of its name.
    pub fn find(&self, contig: &[u8]) -> (r: Option<usize>)
        requires
            self.wf(),
        ensures
            r.is_some() ==> r.unwrap() < self@.len() && self@[r.unwrap() as int].0 == contig@,
            r.is_none() ==> forall|i: int| 0 <= i < self@.len() ==> (#[trigger] self@[i]).0 != contig@,
            r == contig_of(self@, contig@),
    {
        let mut i: usize = 0;
        while i < self.names.len()
            invariant
                self.wf(),
                i <= self.names@.len(),
                forall|j: int| 0 <= j < i ==> (#[trigger] self@[j]).0 != contig@,
            decreases self.names@.len() - i,
        {
            if same_bytes(self.names[i].as_slice(), contig) {
                proof {
                    assert(self@[i as int].0 == contig@);
                    let k = choose|k: int| 0 <= k < self@.len() && (#[trigger] self@[k]).0 == contig@;
                    if k != i {
                        assert(self.names@[k]@ == self@[k].0);
                        if k < i {
                            assert(self.names@[k]@ != self.names@[i as int]@);
                        } else {
                            assert(self.names@[i as int]@ != self.names@[k]@);
                        }
                    }
                }
                return Some(i);
            }
            i = i + 1;
        }
        None
    }

    /// The regions of the contig at position `i` of the list.
    pub fn contig_at(&self, i: usize) -> (r: &ContigRegions)
        requires
            self.wf(),
            i < self@.len(),
        ensures
            r@ == self@[i as int].1,
    {
        &self.contigs[i]
    }

    /// The regions of a contig, if it was named.
    pub fn get(&self, contig: &str) -> (r: Option<&ContigRegions>)
        requires
            self.wf(),
        ensures
            r.is_some() ==> exists|i: int|
                0 <= i < self@.len() && (#[trigger] self@[i]).0 == contig.spec_bytes()
                    && self@[i].1 == r.unwrap()@,
            r.is_none() ==> forall|i: int| 0 <= i < self@.len() ==> (#[trigger] self@[i]).0 != contig.spec_bytes(),
    {
        match self.find(contig.as_bytes()) {
            Some(i) => Some(&self.contigs[i]),
            None => None,
        }
    }

    /// The regions of a contig, added at the end of the list, with no
    /// regions, where the contig was not named yet.
    pub fn get_or_insert_contig_regions(&mut self, contig: &str) -> (r: &mut ContigRegions)
        requires
            old(self).wf(),
        ensures
            final(self).wf(),
            ({
                let s = old(self)@;
                let b = contig.spec_bytes();
                if exists|i: int| 0 <= i < s.len() && (#[trigger] s[i]).0 == b {
                    exists|i: int|
                        0 <= i < s.len() && (#[trigger] s[i]).0 == b && r@ == s[i].1 && final(self)@ == s.update(i, (b, final(r)@))
                } else {
                    r@ == Seq::<Region>::empty() && final(self)@ == s.push((b, final(r)@))
                }
            }),
    {
        self.get_or_insert_contig_bytes(contig.as_bytes())
    }

    /// The regions of a contig, added at the end of the list, with no
    /// regions, where the contig was not named yet.
    pub fn get_or_insert_contig_bytes(&mut self, contig: &[u8]) -> (r: &mut ContigRegions)
        requires
            old(self).wf(),
        ensures
            final(self).wf(),
            ({
                let s = old(self)@;
                let b = contig@;
                if exists|i: int| 0 <= i < s.len() && (#[trigger] s[i]).0 == b {
                    exists|i: int|
                        0 <= i < s.len() && (#[trigger] s[i]).0 == b && r@ == s[i].1 && final(self)@ == s.update(i, (b, final(r)@))
                } else {
                    r@ == Seq::<Region>::empty() && final(self)@ == s.push((b, final(r)@))
                }
            }),
    {
        let b = contig;
        match self.find(b) {
            Some(i) => {
                &mut self.contigs[i]
            },
            None => {
                let ghost old_names = self.names@;
                proof {
                    assert forall|i: int| 0 <= i < old_names.len() implies (#[trigger] old_names[i])@ != b@ by {
                        assert(self@[i].0 == old_names[i]@);
                    }
                }
                self.names.push(vstd::slice::slice_to_vec(b));
                self.contigs.push(ContigRegions::new());
                proof {
                    assert forall|i: int, j: int| 0 <= i < j < self.names@.len() implies (#[trigger] self.names@[i])@ != (#[trigger] self.names@[j])@ by {
                        if j == old_names.len() {
                            assert(self.names@[i] == old_names[i]);
                        } else {
                            assert(self.names@[i] == old_names[i] && self.names@[j] == old_names[j]);
                        }
                    }
                }
                let n = self.contigs.len() - 1;
                &mut self.contigs[n]
            },
        }
    }

    /// Normalises every contig in turn (see `ContigRegions::sort_and_merge`),
    /// numbering the regions from 1 across all contigs. Returns the number
    /// of regions kept.
    #[verifier::rlimit(50)]
    pub fn normalize(&mut self) -> (r: u32)
        requires
            old(self).wf(),
            Self::regions_wf(old(self)@),
            count_all(old(self)@) <= u32::MAX,
        ensures
            final(self).wf(),
            final(self)@.len() == old(self)@.len(),
            forall|c: int| 0 <= c < final(self)@.len() ==> (#[trigger] final(self)@[c]).0 == old(self)@[c].0,
            all_normalized(final(self)@),
            r == count_all(final(self)@),
            count_all(final(self)@) <= count_all(old(self)@),
            forall|c: int, p: int| 0 <= c < final(self)@.len() ==>
                (#[trigger] covered(final(self)@[c].1, p) <==> covered(old(self)@[c].1, p)),
            forall|c: int| 0 <= c < final(self)@.len() ==> bounds_from(#[trigger] final(self)@[c].1, old(self)@[c].1),
            forall|c: int| 0 <= c < final(self)@.len() ==> (all_nonempty(old(self)@[c].1) ==> all_nonempty(#[trigger] final(self)@[c].1)),
    {
        let ghost s0 = self@;
        let mut ix: u32 = 0;
        let mut i: usize = 0;
        while i < self.contigs.len()
            invariant
                self.wf(),
                self@.len() == s0.len(),
                i <= s0.len(),
                Self::regions_wf(s0),
                count_all(s0) <= u32::MAX,
                ix == count_prefix(self@, i as int),
                forall|c: int| 0 <= c < s0.len() ==> (#[trigger] self@[c]).0 == s0[c].0,
                forall|c: int| i <= c < s0.len() ==> (#[trigger] self@[c]).1 == s0[c].1,
                forall|c: int| 0 <= c < s0.len() ==> (#[trigger] self@[c]).1.len() <= s0[c].1.len(),
                forall|c: int| 0 <= c < i ==> normalized_from(#[trigger] self@[c].1, count_prefix(self@, c) + 1),
                forall|c: int, p: int| 0 <= c < s0.len() ==> (#[trigger] covered(self@[c].1, p) <==> covered(s0[c].1, p)),
                forall|c: int| 0 <= c < i ==> bounds_from(#[trigger] self@[c].1, s0[c].1),
                forall|c: int| 0 <= c < i ==> (all_nonempty(s0[c].1) ==> all_nonempty(#[trigger] self@[c].1)),
            decreases s0.len() - i,
        {
            let ghost s1 = self@;
            proof {
                lemma_count_prefix_cmp(s1, s0, i as int);
                lemma_count_prefix_mono(s0, i + 1, s0.len() as int);
                assert(count_prefix(s0, i + 1) == count_prefix(s0, i as int) + s0[i as int].1.len());
                assert(s1[i as int].1 == s0[i as int].1);
                assert(self.contigs@[i as int]@ == s1[i as int].1);
            }
            ix = self.contigs[i].sort_and_merge(ix);
            proof {
                assert(self@ =~= s1.update(i as int, (s1[i as int].0, self.contigs@[i as int]@)));
                assert forall|c: int| 0 <= c <= i implies count_prefix(self@, c) == count_prefix(s1, c) by {
                    lemma_count_prefix_cmp(self@, s1, c);
                }
                assert(count_prefix(self@, i + 1) == count_prefix(self@, i as int) + self@[i as int].1.len());
            }
            i = i + 1;
        }
        proof {
            lemma_count_prefix_cmp(self@, s0, s0.len() as int);
        }
        ix
    }

    /// The contigs with their regions, in order.
    pub fn iter(&self) -> (r: (&Vec<Vec<u8>>, &Vec<ContigRegions>))
        requires
            self.wf(),
        ensures
            r.0@.len() == self@.len(),
            r.1@.len() == self@.len(),
            forall|i: int| 0 <= i < self@.len() ==> (#[trigger] r.0@[i])@ == self@[i].0,
            forall|i: int| 0 <= i < self@.len() ==> (#[trigger] r.1@[i])@ == self@[i].1,
    {
        (&self.names, &self.contigs)
    }

    /// The number of regions over all contigs.
    pub fn n_regions(&self) -> (r: usize)
        requires
            self.wf(),
            count_all(self@) <= usize::MAX,
        ensures
            r == count_all(self@),
    {
        let mut t: usize = 0;
        let mut i: usize = 0;
        while i < self.contigs.len()
            invariant
                self.wf(),
                i <= self@.len(),
                count_all(self@) <= usize::MAX,
                t == count_prefix(self@, i as int),
            decreases self@.len() - i,
        {
            proof {
                lemma_count_prefix_mono(self@, i + 1, self@.len() as int);
                assert(self.contigs@[i as int]@ == self@[i as int].1);
            }
            t = t + self.contigs[i].regions.len();
            i = i + 1;
        }
        t
    }

    pub fn n_contigs(&self) -> (r: usize)
        requires
            self.wf(),
        ensures
            r == self@.len(),
    {
        self.contigs.len()
    }
}

/// Some region of `s` has identifier `k`.
pub open spec fn has_idx(s: Seq<(Seq<u8>, Seq<Region>)>, k: int) -> bool {
    exists|c: int, i: int| 0 <= c < s.len() && 0 <= i < s[c].1.len() && (#[trigger] s[c].1[i]).spec_idx() == k
}

proof fn lemma_locate(s: Seq<(Seq<u8>, Seq<Region>)>, k: int, m: int) -> (c: int)
    requires
        0 <= m <= s.len(),
        0 <= k < count_prefix(s, m),
    ensures
        0 <= c < m,
        count_prefix(s, c) <= k < count_prefix(s, c + 1),
    decreases m,
{
    if k < count_prefix(s, m - 1) {
        lemma_locate(s, k, m - 1)
    } else {
        m - 1
    }
}

/// After normalisation the region identifiers are distinct and are exactly
/// 1 to the number of regions: each contig's regions are separated and in
/// order, and number `k` stands on exactly one region.
pub proof fn lemma_normalized_ids(s: Seq<(Seq<u8>, Seq<Region>)>)
    requires
        all_normalized(s),
    ensures
        forall|c: int, i: int, j: int| 0 <= c < s.len() && 0 <= i < j < s[c].1.len()
            ==> (#[trigger] s[c].1[i]).spec_end() < (#[trigger] s[c].1[j]).spec_start(),
        forall|c: int, i: int| 0 <= c < s.len() && 0 <= i < s[c].1.len()
            ==> 1 <= (#[trigger] s[c].1[i]).spec_idx() <= count_all(s),
        forall|c1: int, i1: int, c2: int, i2: int|
            0 <= c1 < s.len() && 0 <= i1 < s[c1].1.len() && 0 <= c2 < s.len() && 0 <= i2 < s[c2].1.len()
                && (#[trigger] s[c1].1[i1]).spec_idx() == (#[trigger] s[c2].1[i2]).spec_idx()
                ==> c1 == c2 && i1 == i2,
        forall|k: int| 1 <= k <= count_all(s) ==> #[trigger] has_idx(s, k),
{
    assert forall|c: int, i: int| 0 <= c < s.len() && 0 <= i < s[c].1.len()
        implies 1 <= (#[trigger] s[c].1[i]).spec_idx() <= count_all(s) by {
        assert(normalized_from(s[c].1, count_prefix(s, c) + 1));
        lemma_count_prefix_mono(s, c + 1, s.len() as int);
        lemma_count_prefix_mono(s, 0, c);
    }
    assert forall|c1: int, i1: int, c2: int, i2: int|
        0 <= c1 < s.len() && 0 <= i1 < s[c1].1.len() && 0 <= c2 < s.len() && 0 <= i2 < s[c2].1.len()
            && (#[trigger] s[c1].1[i1]).spec_idx() == (#[trigger] s[c2].1[i2]).spec_idx()
            implies c1 == c2 && i1 == i2 by {
        assert(normalized_from(s[c1].1, count_prefix(s, c1) + 1));
        assert(normalized_from(s[c2].1, count_prefix(s, c2) + 1));
        if c1 < c2 {
            lemma_count_prefix_mono(s, c1 + 1, c2);
        } else if c2 < c1 {
            lemma_count_prefix_mono(s, c2 + 1, c1);
        }
    }
    assert forall|k: int| 1 <= k <= count_all(s) implies #[trigger] has_idx(s, k) by {
        let c = lemma_locate(s, k - 1, s.len() as int);
        assert(normalized_from(s[c].1, count_prefix(s, c) + 1));
        let i = k - 1 - count_prefix(s, c);
        assert(s[c].1[i].spec_idx() == k);
    }
}

/// Replacing the regions of one contig changes the count by the change in
/// its length.
pub proof fn lemma_count_update(s: Seq<(Seq<u8>, Seq<Region>)>, i: int, e: (Seq<u8>, Seq<Region>), n: int)
    requires
        0 <= i < s.len(),
        0 <= n <= s.len(),
    ensures
        count_prefix(s.update(i, e), n) == count_prefix(s, n) + if i < n { e.1.len() - s[i].1.len() } else { 0 },
    decreases n,
{
    if n > 0 {
        lemma_count_update(s, i, e, n - 1);
    }
}

/// Adding a contig adds its regions to the count.
pub proof fn lemma_count_push(s: Seq<(Seq<u8>, Seq<Region>)>, e: (Seq<u8>, Seq<Region>), n: int)
    requires
        0 <= n <= s.len(),
    ensures
        count_prefix(s.push(e), n) == count_prefix(s, n),
    decreases n,
{
    if n > 0 {
        lemma_count_push(s, e, n - 1);
    }
}

/// Adding a contig adds its regions to the count of all regions.
pub proof fn lemma_count_all_push(s: Seq<(Seq<u8>, Seq<Region>)>, e: (Seq<u8>, Seq<Region>))
    ensures
        count_all(s.push(e)) == count_all(s) + e.1.len(),
{
    lemma_count_push(s, e, s.len() as int);
    assert(count_prefix(s.push(e), s.len() + 1int) == count_prefix(s.push(e), s.len() as int) + e.1.len());
}

proof fn lemma_rest_cover(a: Seq<Region>, p: int)
    requires
        a.len() > 0,
        separated(a),
    ensures
        covered(a.drop_first(), p) <==> (covered(a, p) && p >= a[0].spec_end()),
{
    let d = a.drop_first();
    if covered(d, p) {
        let k = choose|k: int| 0 <= k < d.len() && (#[trigger] d[k]).contains(p);
        assert(d[k] == a[k + 1]);
        assert(a[0].spec_end() < a[k + 1].spec_start());
    }
    if covered(a, p) && p >= a[0].spec_end() {
        let i = choose|i: int| 0 <= i < a.len() && (#[trigger] a[i]).contains(p);
        assert(i != 0);
        assert(d[i - 1] == a[i]);
    }
}

/// Two lists of non-empty regions, each ending before the next starts, that
/// cover the same points hold the same intervals: a normalised list is the
/// only one of its kind for what it covers.
pub proof fn lemma_normal_form_unique(a: Seq<Region>, b: Seq<Region>)
    requires
        separated(a),
        separated(b),
        all_nonempty(a),
        all_nonempty(b),
        forall|p: int| covered(a, p) <==> covered(b, p),
    ensures
        a.len() == b.len(),
        forall|i: int| 0 <= i < a.len() ==> (#[trigger] a[i]).spec_start() == b[i].spec_start() && a[i].spec_end() == b[i].spec_end(),
    decreases a.len(),
{
    if a.len() == 0 {
        if b.len() > 0 {
            assert(b[0].contains(b[0].spec_start()));
            assert(covered(b, b[0].spec_start()));
        }
    } else if b.len() == 0 {
        assert(a[0].contains(a[0].spec_start()));
        assert(covered(a, a[0].spec_start()));
    } else {
        let (a0, b0) = (a[0], b[0]);
        assert(a0.contains(a0.spec_start()) && covered(a, a0.spec_start()));
        assert(b0.contains(b0.spec_start()) && covered(b, b0.spec_start()));
        let j = choose|j: int| 0 <= j < b.len() && (#[trigger] b[j]).contains(a0.spec_start());
        if j > 0 {
            assert(b0.spec_end() < b[j].spec_start());
        }
        let i = choose|i: int| 0 <= i < a.len() && (#[trigger] a[i]).contains(b0.spec_start());
        if i > 0 {
            assert(a0.spec_end() < a[i].spec_start());
        }
        assert(a0.spec_start() == b0.spec_start());
        if a0.spec_end() < b0.spec_end() {
            let p = a0.spec_end();
            assert(b0.contains(p) && covered(b, p));
            let k = choose|k: int| 0 <= k < a.len() && (#[trigger] a[k]).contains(p);
            if k > 0 {
                assert(a0.spec_end() < a[k].spec_start());
            }
        }
        if b0.spec_end() < a0.spec_end() {
            let p = b0.spec_end();
            assert(a0.contains(p) && covered(a, p));
            let k = choose|k: int| 0 <= k < b.len() && (#[trigger] b[k]).contains(p);
            if k > 0 {
                assert(b0.spec_end() < b[k].spec_start());
            }
        }
        let (da, db) = (a.drop_first(), b.drop_first());
        assert forall|p: int| covered(da, p) <==> covered(db, p) by {
            lemma_rest_cover(a, p);
            lemma_rest_cover(b, p);
        }
        assert forall|x: int, y: int| 0 <= x < y < da.len() implies (#[trigger] da[x]).spec_end() < (#[trigger] da[y]).spec_start() by {
            assert(a[x + 1].spec_end() < a[y + 1].spec_start());
        }
        assert forall|x: int, y: int| 0 <= x < y < db.len() implies (#[trigger] db[x]).spec_end() < (#[trigger] db[y]).spec_start() by {
            assert(b[x + 1].spec_end() < b[y + 1].spec_start());
        }
        assert forall|x: int| 0 <= x < da.len() implies (#[trigger] da[x]).spec_size() > 0 by {
            assert(da[x] == a[x + 1]);
        }
        assert forall|x: int| 0 <= x < db.len() implies (#[trigger] db[x]).spec_size() > 0 by {
            assert(db[x] == b[x + 1]);
        }
        lemma_normal_form_unique(da, db);
        assert forall|i: int| 0 <= i < a.len() implies (#[trigger] a[i]).spec_start() == b[i].spec_start() && a[i].spec_end() == b[i].spec_end() by {
            if i > 0 {
                assert(a[i] == da[i - 1] && b[i] == db[i - 1]);
            }
        }
    }
}

/// Normalising a catalogue that is normalised already changes nothing: any
/// result that `Regions::normalize` allows is the catalogue itself, with the
/// same count.
pub proof fn lemma_normalize_idempotent(s: Seq<(Seq<u8>, Seq<Region>)>, t: Seq<(Seq<u8>, Seq<Region>)>)
    requires
        all_normalized(s),
        all_normalized(t),
        t.len() == s.len(),
        forall|c: int| 0 <= c < t.len() ==> (#[trigger] t[c]).0 == s[c].0,
        forall|c: int, p: int| 0 <= c < t.len() ==> (#[trigger] covered(t[c].1, p) <==> covered(s[c].1, p)),
    ensures
        t == s,
        count_all(t) == count_all(s),
{
    assert forall|c: int| 0 <= c < s.len() implies (#[trigger] t[c]).1.len() == s[c].1.len()
        && forall|i: int| 0 <= i < s[c].1.len() ==> (#[trigger] t[c].1[i]).spec_start() == s[c].1[i].spec_start()
            && t[c].1[i].spec_end() == s[c].1[i].spec_end() by {
        assert(normalized_from(s[c].1, count_prefix(s, c) + 1));
        assert(normalized_from(t[c].1, count_prefix(t, c) + 1));
        assert forall|i: int| 0 <= i < t[c].1.len() implies (#[trigger] t[c].1[i]).spec_size() > 0 by {
            assert(t[c].1[i].wf());
        }
        assert forall|i: int| 0 <= i < s[c].1.len() implies (#[trigger] s[c].1[i]).spec_size() > 0 by {
            assert(s[c].1[i].wf());
        }
        assert forall|p: int| covered(t[c].1, p) <==> covered(s[c].1, p) by {
            assert(covered(t[c].1, p) <==> covered(s[c].1, p));
        }
        lemma_normal_form_unique(t[c].1, s[c].1);
    }
    assert forall|c: int| 0 <= c < s.len() implies #[trigger] t[c] == s[c] by {
        lemma_count_prefix_cmp(t, s, c);
        assert(normalized_from(s[c].1, count_prefix(s, c) + 1));
        assert(normalized_from(t[c].1, count_prefix(t, c) + 1));
        assert forall|i: int| 0 <= i < s[c].1.len() implies #[trigger] t[c].1[i] == s[c].1[i] by {
            assert(t[c].1[i].spec_start() == s[c].1[i].spec_start());
            assert(t[c].1[i].spec_end() == s[c].1[i].spec_end());
            assert(t[c].1[i].spec_idx() == s[c].1[i].spec_idx());
        }
        assert(t[c].1 =~= s[c].1);
    }
    assert(t =~= s);
}

} // verus!
