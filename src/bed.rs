//! Target regions from BED text: `contig<TAB>start<TAB>end` per line.
use vstd::prelude::*;
use crate::kmers::MAX_REGION;
use crate::regions::{
    Regions, Region, count_all, count_prefix, all_normalized, lemma_count_update, lemma_count_all_push,
};

verus! {

/// Why a line of BED text is rejected.
#[derive(Debug, Copy, Clone, PartialEq, Eq, Structural)]
pub enum BedErrorKind {
    /// The line has no start field.
    MissingStart,
    /// The start field is not a number that fits in a `u32`.
    BadStart,
    /// The line has no end field.
    MissingEnd,
    /// The end field is not a number that fits in a `u32`.
    BadEnd,
    /// The end is not after the start.
    EndNotAfterStart,
    /// More lines than region identifiers.
    TooManyRegions,
}

/// A rejected line of BED text, numbered from 1.
#[derive(Debug, Copy, Clone, PartialEq, Eq, Structural)]
pub struct BedError {
    pub kind: BedErrorKind,
    pub line: u32,
}

/// A decimal digit.
pub open spec fn is_digit(c: u8) -> bool {
    48 <= c <= 57
}

/// The value of a string of decimal digits.
pub open spec fn digits_value(s: Seq<u8>) -> int
    decreases s.len(),
{
    if s.len() == 0 {
        0
    } else {
        digits_value(s.drop_last()) * 10 + (s.last() - 48)
    }
}

/// A field without its leading `+`, if any.
pub open spec fn digits_part(f: Seq<u8>) -> Seq<u8> {
    if f.len() > 0 && f[0] == 43 { f.subrange(1, f.len() as int) } else { f }
}

/// The number that a field holds: digits, after an optional `+`, whose
/// value fits in a `u32`.
pub open spec fn spec_parse_u32(f: Seq<u8>) -> Option<u32> {
    let d = digits_part(f);
    if d.len() > 0 && (forall|i: int| 0 <= i < d.len() ==> is_digit(#[trigger] d[i])) && digits_value(d) <= u32::MAX {
        Some(digits_value(d) as u32)
    } else {
        None
    }
}

proof fn lemma_digits_nonneg(s: Seq<u8>)
    requires
        forall|i: int| 0 <= i < s.len() ==> is_digit(#[trigger] s[i]),
    ensures
        digits_value(s) >= 0,
        s.len() > 0 ==> digits_value(s) >= digits_value(s.drop_last()),
    decreases s.len(),
{
    if s.len() > 0 {
        lemma_digits_nonneg(s.drop_last());
    }
}

/// Parses a field as a `u32`.
pub fn parse_u32(f: &[u8]) -> (r: Option<u32>)
    ensures
        r == spec_parse_u32(f@),
{
    let start: usize = if f.len() > 0 && f[0] == 43 { 1 } else { 0 };
    let ghost d = digits_part(f@);
    if start >= f.len() {
        proof {
            assert(d.len() == 0);
        }
        return None;
    }
    let mut v: u64 = 0;
    let mut i: usize = start;
    while i < f.len()
        invariant
            start <= i <= f@.len(),
            d == digits_part(f@),
            d == f@.subrange(start as int, f@.len() as int),
            forall|k: int| start <= k < i ==> is_digit(#[trigger] f@[k]),
            v == digits_value(f@.subrange(start as int, i as int)),
            v <= u32::MAX,
        decreases f@.len() - i,
    {
        let c = f[i];
        proof {
            assert(f@.subrange(start as int, i + 1).drop_last() == f@.subrange(start as int, i as int));
        }
        if c < 48 || c > 57 {
            proof {
                assert(d[i - start] == c);
                assert(!is_digit(d[i - start]));
                assert(!(forall|k: int| 0 <= k < d.len() ==> is_digit(#[trigger] d[k])));
            }
            return None;
        }
        let nv = v * 10 + (c - 48) as u64;
        if nv > 0xffff_ffff {
            proof {
                let e = f@.subrange(start as int, i + 1);
                assert(digits_value(e) == nv);
                if forall|k: int| 0 <= k < d.len() ==> is_digit(#[trigger] d[k]) {
                    lemma_prefix_bound(d, i + 1 - start);
                    assert(d.subrange(0, i + 1 - start) == e);
                    assert(digits_value(d) > u32::MAX);
                }
                assert(spec_parse_u32(f@).is_none());
            }
            return None;
        }
        v = nv;
        i = i + 1;
    }
    proof {
        assert(f@.subrange(start as int, f@.len() as int) == d);
    }
    Some(v as u32)
}

proof fn lemma_prefix_bound(d: Seq<u8>, n: int)
    requires
        0 < n <= d.len(),
        forall|i: int| 0 <= i < d.len() ==> is_digit(#[trigger] d[i]),
    ensures
        digits_value(d) >= digits_value(d.subrange(0, n)),
    decreases d.len() - n,
{
    if n < d.len() {
        lemma_prefix_bound(d, n + 1);
        assert(d.subrange(0, n + 1).drop_last() == d.subrange(0, n));
        let e = d.subrange(0, n + 1);
        assert forall|i: int| 0 <= i < e.len() implies is_digit(#[trigger] e[i]) by {
            assert(e[i] == d[i]);
        }
        lemma_digits_nonneg(e);
    } else {
        assert(d.subrange(0, n) == d);
    }
}

/// White space at the end of a line.
pub open spec fn is_space(c: u8) -> bool {
    c == 32 || (9 <= c <= 13)
}

/// The length of the first `n` bytes of `l` without trailing white space.
pub open spec fn trimmed_len(l: Seq<u8>, n: int) -> int
    decreases n,
{
    if n > 0 && n <= l.len() && is_space(l[n - 1]) {
        trimmed_len(l, n - 1)
    } else {
        n
    }
}

/// The end of the tab-separated field of `t` that starts at `from`.
pub open spec fn field_end(t: Seq<u8>, from: int) -> int
    decreases t.len() - from,
{
    if from < 0 || from >= t.len() || t[from] == 9 {
        from
    } else {
        field_end(t, from + 1)
    }
}

/// A line of BED text: the contig name, the start and the end, or why the
/// line is rejected. Trailing white space is dropped, fields are split at
/// tabs, and fields after the third are ignored.
pub open spec fn spec_parse_line(l: Seq<u8>) -> Result<(Seq<u8>, u32, u32), BedErrorKind> {
    let t = l.subrange(0, trimmed_len(l, l.len() as int));
    let e0 = field_end(t, 0);
    let e1 = field_end(t, e0 + 1);
    let e2 = field_end(t, e1 + 1);
    if e0 >= t.len() {
        Err(BedErrorKind::MissingStart)
    } else if spec_parse_u32(t.subrange(e0 + 1, e1)).is_none() {
        Err(BedErrorKind::BadStart)
    } else if e1 >= t.len() {
        Err(BedErrorKind::MissingEnd)
    } else if spec_parse_u32(t.subrange(e1 + 1, e2)).is_none() {
        Err(BedErrorKind::BadEnd)
    } else if spec_parse_u32(t.subrange(e1 + 1, e2)).unwrap() <= spec_parse_u32(t.subrange(e0 + 1, e1)).unwrap() {
        Err(BedErrorKind::EndNotAfterStart)
    } else {
        Ok((t.subrange(0, e0), spec_parse_u32(t.subrange(e0 + 1, e1)).unwrap(), spec_parse_u32(t.subrange(e1 + 1, e2)).unwrap()))
    }
}

fn trim_len(l: &[u8]) -> (r: usize)
    ensures
        r == trimmed_len(l@, l@.len() as int),
{
    let mut n = l.len();
    while n > 0 && (l[n - 1] == 32 || (9 <= l[n - 1] && l[n - 1] <= 13))
        invariant
            n <= l@.len(),
            trimmed_len(l@, n as int) == trimmed_len(l@, l@.len() as int),
        decreases n,
    {
        n = n - 1;
    }
    n
}

fn find_field_end(t: &[u8], from: usize) -> (r: usize)
    requires
        from <= t@.len(),
    ensures
        r == field_end(t@, from as int),
        from <= r <= t@.len(),
{
    let mut i = from;
    while i < t.len() && t[i] != 9
        invariant
            from <= i <= t@.len(),
            field_end(t@, i as int) == field_end(t@, from as int),
        decreases t@.len() - i,
    {
        i = i + 1;
    }
    i
}

proof fn lemma_field_end_bounds(t: Seq<u8>, from: int)
    requires
        0 <= from,
    ensures
        from <= field_end(t, from),
        from <= t.len() ==> field_end(t, from) <= t.len(),
    decreases t.len() - from,
{
    if from < t.len() && t[from] != 9 {
        lemma_field_end_bounds(t, from + 1);
    }
}

/// Parses one line of BED text.
pub fn parse_line(l: &[u8]) -> (r: Result<(Vec<u8>, u32, u32), BedErrorKind>)
    ensures
        r matches Ok((c, s, e)) ==> spec_parse_line(l@) == Ok::<(Seq<u8>, u32, u32), BedErrorKind>((c@, s, e)),
        r matches Err(k) ==> spec_parse_line(l@) == Err::<(Seq<u8>, u32, u32), BedErrorKind>(k),
{
    let n = trim_len(l);
    proof {
        assert(trimmed_len(l@, l@.len() as int) <= l@.len()) by {
            lemma_trimmed_le(l@, l@.len() as int);
        }
    }
    let t = vstd::slice::slice_subrange(l, 0, n);
    let e0 = find_field_end(t, 0);
    if e0 >= t.len() {
        return Err(BedErrorKind::MissingStart);
    }
    let e1 = find_field_end(t, e0 + 1);
    let start = match parse_u32(vstd::slice::slice_subrange(t, e0 + 1, e1)) {
        Some(x) => x,
        None => {
            return Err(BedErrorKind::BadStart);
        },
    };
    if e1 >= t.len() {
        return Err(BedErrorKind::MissingEnd);
    }
    let e2 = find_field_end(t, e1 + 1);
    let end = match parse_u32(vstd::slice::slice_subrange(t, e1 + 1, e2)) {
        Some(x) => x,
        None => {
            return Err(BedErrorKind::BadEnd);
        },
    };
    if end <= start {
        return Err(BedErrorKind::EndNotAfterStart);
    }
    Ok((vstd::slice::slice_to_vec(vstd::slice::slice_subrange(t, 0, e0)), start, end))
}

proof fn lemma_trimmed_le(l: Seq<u8>, n: int)
    ensures
        trimmed_len(l, n) <= n,
        n >= 0 ==> trimmed_len(l, n) >= 0,
    decreases n,
{
    if n > 0 && n <= l.len() && is_space(l[n - 1]) {
        lemma_trimmed_le(l, n - 1);
    }
}

/// The end of the line of `text` that starts at `from`: the next newline,
/// or the end of the text.
pub open spec fn spec_line_end(text: Seq<u8>, from: int) -> int
    decreases text.len() - from,
{
    if from < 0 || from >= text.len() || text[from] == 10 {
        from
    } else {
        spec_line_end(text, from + 1)
    }
}

/// The lines of `text` from `from` on, without their newlines; a newline at
/// the very end starts no line.
pub open spec fn lines_from(text: Seq<u8>, from: int) -> Seq<Seq<u8>>
    decreases text.len() - from,
{
    if from < 0 || from >= text.len() {
        Seq::empty()
    } else {
        let e = spec_line_end(text, from);
        if e >= text.len() {
            seq![text.subrange(from, text.len() as int)]
        } else if e >= from {
            seq![text.subrange(from, e)] + lines_from(text, e + 1)
        } else {
            Seq::empty()
        }
    }
}

/// The lines of `text`.
pub open spec fn bed_lines(text: Seq<u8>) -> Seq<Seq<u8>> {
    lines_from(text, 0)
}

/// Whether some of `lines` gives a region on contig `name` that holds `p`.
pub open spec fn lines_cover(lines: Seq<Seq<u8>>, name: Seq<u8>, p: int) -> bool {
    exists|k: int| 0 <= k < lines.len() && #[trigger] line_gives(lines[k], name, p)
}

/// Whether `line` gives a region on contig `name` that holds `p`.
pub open spec fn line_gives(line: Seq<u8>, name: Seq<u8>, p: int) -> bool {
    spec_parse_line(line) matches Ok((n, st, en)) && n == name && st <= p < en
}

/// Whether some contig of `s` named `name` has a region that holds `p`.
pub open spec fn named_cover(s: Seq<(Seq<u8>, Seq<Region>)>, name: Seq<u8>, p: int) -> bool {
    exists|i: int| 0 <= i < s.len() && (#[trigger] s[i]).0 == name && crate::regions::covered(s[i].1, p)
}

proof fn lemma_line_end(text: Seq<u8>, from: int)
    requires
        0 <= from <= text.len(),
    ensures
        from <= spec_line_end(text, from) <= text.len(),
    decreases text.len() - from,
{
    if from < text.len() && text[from] != 10 {
        lemma_line_end(text, from + 1);
    }
}

/// The end of the line of `text` that starts at `from`.
fn line_end(text: &[u8], from: usize) -> (r: usize)
    requires
        from <= text@.len(),
    ensures
        r == spec_line_end(text@, from as int),
        from <= r <= text@.len(),
{
    proof {
        lemma_line_end(text@, from as int);
    }
    let mut i = from;
    while i < text.len() && text[i] != 10
        invariant
            from <= i <= text@.len(),
            spec_line_end(text@, i as int) == spec_line_end(text@, from as int),
        decreases text@.len() - i,
    {
        i = i + 1;
    }
    i
}

/// The contig names of the lines that parse, each once, in the order in
/// which they first come.
pub open spec fn line_names(lines: Seq<Seq<u8>>) -> Seq<Seq<u8>>
    decreases lines.len(),
{
    if lines.len() == 0 {
        Seq::empty()
    } else {
        let prev = line_names(lines.drop_last());
        match spec_parse_line(lines.last()) {
            Ok((n, _, _)) => if prev.contains(n) { prev } else { prev.push(n) },
            Err(_) => prev,
        }
    }
}

/// The contig names of `s` are `names`, in that order.
pub open spec fn names_are(s: Seq<(Seq<u8>, Seq<Region>)>, names: Seq<Seq<u8>>) -> bool {
    s.len() == names.len() && forall|c: int| 0 <= c < s.len() ==> (#[trigger] s[c]).0 == names[c]
}

/// The target regions of BED text, normalised (see `Regions::normalize`).
/// Each line gives one region, with the line's number as its identifier
/// before normalisation. The first rejected line gives an error with its
/// number (from 1); so do more lines than region identifiers.
pub fn parse_bed(text: &[u8]) -> (r: Result<Regions, BedError>)
    ensures
        r is Ok ==> bed_lines(text@).len() <= MAX_REGION,
        r is Ok ==> forall|k: int| 0 <= k < bed_lines(text@).len() ==> (#[trigger] spec_parse_line(bed_lines(text@)[k])) is Ok,
        r matches Ok(regs) ==> regs.wf() && all_normalized(regs@) && count_all(regs@) <= MAX_REGION
            && Regions::regions_wf(regs@),
        r matches Ok(regs) ==> forall|name: Seq<u8>, p: int| #[trigger] named_cover(regs@, name, p) <==> lines_cover(bed_lines(text@), name, p),
        r matches Ok(regs) ==> names_are(regs@, line_names(bed_lines(text@))),
        r matches Err(e) ==> 1 <= e.line <= bed_lines(text@).len(),
        r matches Err(e) ==> forall|k: int| 0 <= k < e.line - 1 ==> (#[trigger] spec_parse_line(bed_lines(text@)[k])) is Ok,
        r matches Err(e) ==> e.kind != BedErrorKind::TooManyRegions ==> spec_parse_line(bed_lines(text@)[e.line - 1]) == Err::<(Seq<u8>, u32, u32), BedErrorKind>(e.kind),
        r matches Err(e) ==> e.kind == BedErrorKind::TooManyRegions ==> e.line == MAX_REGION + 1,
{
    let ghost lines = bed_lines(text@);
    let ghost mut done: Seq<Seq<u8>> = Seq::empty();
    let mut regs = Regions::new();
    let mut ls: usize = 0;
    let mut line_no: u32 = 0;
    proof {
        assert(count_all(regs@) == 0);
        assert(done + lines_from(text@, 0) == lines);
    }
    while ls < text.len()
        invariant
            ls <= text@.len(),
            regs.wf(),
            Regions::regions_wf(regs@),
            count_all(regs@) == line_no,
            line_no <= MAX_REGION,
            line_no == done.len(),
            lines == bed_lines(text@),
            done + lines_from(text@, ls as int) == lines,
            forall|k: int| 0 <= k < done.len() ==> (#[trigger] spec_parse_line(done[k])) is Ok,
            forall|name: Seq<u8>, p: int| #[trigger] named_cover(regs@, name, p) <==> lines_cover(done, name, p),
            names_are(regs@, line_names(done)),
        ensures
            ls >= text@.len(),
        decreases text@.len() - ls,
    {
        let le = line_end(text, ls);
        let ghost line = text@.subrange(ls as int, le as int);
        proof {
            lemma_line_end(text@, ls as int);
            if le < text.len() {
                assert(lines_from(text@, ls as int) == seq![line] + lines_from(text@, le + 1));
            } else {
                assert(lines_from(text@, ls as int) == seq![line]);
                assert(lines_from(text@, le + 1) == Seq::<Seq<u8>>::empty());
                assert(seq![line] + lines_from(text@, le + 1) =~= seq![line]);
            }
            assert(lines[done.len() as int] == line) by {
                assert((done + lines_from(text@, ls as int))[done.len() as int] == line);
            }
        }
        if line_no == MAX_REGION {
            return Err(BedError { kind: BedErrorKind::TooManyRegions, line: line_no + 1 });
        }
        line_no = line_no + 1;
        let (c, start, end) = match parse_line(vstd::slice::slice_subrange(text, ls, le)) {
            Ok(x) => x,
            Err(k) => {
                proof {
                    assert forall|j: int| 0 <= j < line_no - 1 implies (#[trigger] spec_parse_line(lines[j])) is Ok by {
                        assert(lines[j] == done[j]);
                    }
                }
                return Err(BedError { kind: k, line: line_no });
            },
        };
        let region = Region::new(start, end - start, line_no);
        let ghost s0 = regs@;
        proof {
            regs.lemma_wf();
        }
        let cr = regs.get_or_insert_contig_bytes(c.as_slice());
        let ghost cr0 = cr@;
        cr.add_region(region);
        let ghost done0 = done;
        proof {
            done = done.push(line);
            let b = c@;
            assert(spec_parse_line(line) == Ok::<(Seq<u8>, u32, u32), BedErrorKind>((b, start, end)));
            regs.lemma_wf();
            let nm0 = line_names(done0);
            assert(done.drop_last() == done0);
            assert(done.last() == line);
            assert((exists|i: int| 0 <= i < s0.len() && (#[trigger] s0[i]).0 == b) <==> nm0.contains(b)) by {
                if nm0.contains(b) {
                    let i = choose|i: int| 0 <= i < nm0.len() && nm0[i] == b;
                    assert(s0[i].0 == b);
                }
                if exists|i: int| 0 <= i < s0.len() && (#[trigger] s0[i]).0 == b {
                    let i = choose|i: int| 0 <= i < s0.len() && (#[trigger] s0[i]).0 == b;
                    assert(nm0[i] == b);
                }
            }
            if exists|i: int| 0 <= i < s0.len() && (#[trigger] s0[i]).0 == b {
                let i = choose|i: int| 0 <= i < s0.len() && (#[trigger] s0[i]).0 == b && cr0 == s0[i].1 && regs@ == s0.update(i, (b, cr0.push(region)));
                lemma_count_update(s0, i, (b, cr0.push(region)), s0.len() as int);
                assert forall|k: int| 0 <= k < regs@.len() implies crate::regions::all_wf(#[trigger] regs@[k].1) by {
                    if k == i {
                        assert forall|m: int| 0 <= m < regs@[k].1.len() implies (#[trigger] regs@[k].1[m]).wf() by {
                            if m < cr0.len() {
                                assert(regs@[k].1[m] == s0[i].1[m]);
                            }
                        }
                    }
                }
                assert forall|name: Seq<u8>, p: int| #[trigger] named_cover(regs@, name, p) <==> lines_cover(done, name, p) by {
                    lemma_cover_step(s0, regs@, done0, line, name, p, b, start as int, end as int);
                    if name == b && region.contains(p) {
                        assert(regs@[i].1[cr0.len() as int] == region);
                        assert(crate::regions::covered(regs@[i].1, p));
                    }
                    if named_cover(regs@, name, p) {
                        let j = choose|j: int| 0 <= j < regs@.len() && (#[trigger] regs@[j]).0 == name && crate::regions::covered(regs@[j].1, p);
                        let m = choose|m: int| 0 <= m < regs@[j].1.len() && (#[trigger] regs@[j].1[m]).contains(p);
                        if j != i {
                            assert(regs@[j] == s0[j]);
                            assert(named_cover(s0, name, p));
                        } else if m < cr0.len() {
                            assert(regs@[j].1[m] == s0[i].1[m]);
                            assert(crate::regions::covered(s0[i].1, p));
                            assert(named_cover(s0, name, p));
                        } else {
                            assert(regs@[j].1[m] == region);
                        }
                    }
                    if named_cover(s0, name, p) {
                        let j = choose|j: int| 0 <= j < s0.len() && (#[trigger] s0[j]).0 == name && crate::regions::covered(s0[j].1, p);
                        let m = choose|m: int| 0 <= m < s0[j].1.len() && (#[trigger] s0[j].1[m]).contains(p);
                        if j != i {
                            assert(regs@[j] == s0[j]);
                        } else {
                            assert(regs@[j].1[m] == s0[j].1[m]);
                        }
                        assert(crate::regions::covered(regs@[j].1, p));
                    }
                }
            } else {
                let e = (b, Seq::<Region>::empty().push(region));
                assert(regs@ == s0.push(e));
                lemma_count_all_push(s0, e);
                assert forall|k: int| 0 <= k < regs@.len() implies crate::regions::all_wf(#[trigger] regs@[k].1) by {
                    if k < s0.len() {
                        assert(regs@[k] == s0[k]);
                    }
                }
                assert forall|name: Seq<u8>, p: int| #[trigger] named_cover(regs@, name, p) <==> lines_cover(done, name, p) by {
                    lemma_cover_step(s0, regs@, done0, line, name, p, b, start as int, end as int);
                    if name == b && region.contains(p) {
                        assert(regs@[s0.len() as int].1[0] == region);
                        assert(crate::regions::covered(regs@[s0.len() as int].1, p));
                    }
                    if named_cover(regs@, name, p) {
                        let j = choose|j: int| 0 <= j < regs@.len() && (#[trigger] regs@[j]).0 == name && crate::regions::covered(regs@[j].1, p);
                        if j < s0.len() {
                            assert(regs@[j] == s0[j]);
                            assert(named_cover(s0, name, p));
                        } else {
                            let m = choose|m: int| 0 <= m < regs@[j].1.len() && (#[trigger] regs@[j].1[m]).contains(p);
                            assert(regs@[j].1[m] == region);
                        }
                    }
                    if named_cover(s0, name, p) {
                        let j = choose|j: int| 0 <= j < s0.len() && (#[trigger] s0[j]).0 == name && crate::regions::covered(s0[j].1, p);
                        assert(regs@[j] == s0[j]);
                    }
                }
            }
            assert forall|k: int| 0 <= k < done.len() implies (#[trigger] spec_parse_line(done[k])) is Ok by {
                if k < done0.len() {
                    assert(done[k] == done0[k]);
                }
            }
            assert(done + lines_from(text@, le + 1) == lines) by {
                assert(done0 + lines_from(text@, ls as int) == lines);
                assert(done0 + (seq![line] + lines_from(text@, le + 1)) == done + lines_from(text@, le + 1));
            }
        }
        if le == text.len() {
            proof {
                assert(lines_from(text@, le + 1) == Seq::<Seq<u8>>::empty());
                assert(done == lines);
            }
            ls = le;
            break;
        }
        ls = le + 1;
    }
    proof {
        assert(ls >= text@.len());
        assert(lines_from(text@, ls as int) =~= Seq::<Seq<u8>>::empty());
        assert(done =~= lines);
    }
    let ghost s1 = regs@;
    regs.normalize();
    proof {
        regs.lemma_wf();
        assert forall|k: int| 0 <= k < regs@.len() implies crate::regions::all_wf(#[trigger] regs@[k].1) by {
            assert(crate::regions::normalized_from(regs@[k].1, count_prefix(regs@, k) + 1));
        }
        assert forall|name: Seq<u8>, p: int| #[trigger] named_cover(regs@, name, p) <==> lines_cover(lines, name, p) by {
            if named_cover(regs@, name, p) {
                let j = choose|j: int| 0 <= j < regs@.len() && (#[trigger] regs@[j]).0 == name && crate::regions::covered(regs@[j].1, p);
                assert(crate::regions::covered(s1[j].1, p));
                assert(named_cover(s1, name, p));
            }
            if named_cover(s1, name, p) {
                let j = choose|j: int| 0 <= j < s1.len() && (#[trigger] s1[j]).0 == name && crate::regions::covered(s1[j].1, p);
                assert(crate::regions::covered(regs@[j].1, p));
            }
        }
    }
    Ok(regs)
}

/// Adding the region of `line` changes the cover of the lines only on its
/// contig, by its interval.
proof fn lemma_cover_step(s0: Seq<(Seq<u8>, Seq<Region>)>, s1: Seq<(Seq<u8>, Seq<Region>)>, done0: Seq<Seq<u8>>, line: Seq<u8>, name: Seq<u8>, p: int, b: Seq<u8>, start: int, end: int)
    requires
        spec_parse_line(line) == Ok::<(Seq<u8>, u32, u32), BedErrorKind>((b, start as u32, end as u32)),
        0 <= start <= u32::MAX,
        0 <= end <= u32::MAX,
    ensures
        lines_cover(done0.push(line), name, p) <==> (lines_cover(done0, name, p) || (name == b && start <= p < end)),
{
    let d = done0.push(line);
    if lines_cover(d, name, p) {
        let k = choose|k: int| 0 <= k < d.len() && #[trigger] line_gives(d[k], name, p);
        if k < done0.len() {
            assert(d[k] == done0[k]);
        }
    }
    if lines_cover(done0, name, p) {
        let k = choose|k: int| 0 <= k < done0.len() && #[trigger] line_gives(done0[k], name, p);
        assert(d[k] == done0[k]);
    }
    if name == b && start <= p < end {
        assert(d[done0.len() as int] == line);
        assert(line_gives(d[done0.len() as int], name, p));
    }
}

} // verus!
