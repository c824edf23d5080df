//! The KMCV file: a compact binary catalogue of the k-mers of a reference
//! with the target regions that they fall in. All integers are little endian.
//!
//! The file holds a header (magic `KMCV`, version, k-mer length, the number
//! of hits kept per k-mer, a random id, the number of contigs and targets,
//! and the k-mer counts), one block per contig (name length and name), one
//! block per target (contig id, start, end), one record per mapped k-mer in
//! k-mer order, and a closing block (the random id again and `VCMK`).
//!
//! A record starts with a byte whose low nibble gives the kind of k-mer and
//! whose high nibble gives the number of unmapped k-mers skipped before it,
//! where that is under 15. Else the nibble is 15 and the rest, less 15,
//! follows in one byte, or as 255 and two more bytes, or as 255, 65535 and
//! four more bytes. On-target records then list their region ids.
use vstd::prelude::*;
use crate::kmers::{
    KmerVec, KmerWork, HIGH_MULTI, KMER_LENGTH, MAX_HITS, is_high_multi, listed, mapped_of,
    n_filled, slot_ok, hits_of, on_target_of, redundant_of, total_by,
};
use crate::regions::{Regions, Region, count_all};

verus! {

pub const MAJOR_VERSION: u8 = 2;

pub const MINOR_VERSION: u8 = 0;

/// One past the largest skip that a record can hold.
pub const SKIP_LIMIT: u64 = 0x1_0001_010d;

/// Why a KMCV file cannot be written.
#[derive(Debug, Copy, Clone, PartialEq, Eq, Structural)]
pub enum KmcvError {
    /// A contig name longer than 65 535 bytes.
    ContigNameTooLong,
}

/// The `n` low bytes of `x`, least significant first.
pub open spec fn le_bytes(x: int, n: nat) -> Seq<u8>
    decreases n,
{
    if n == 0 {
        Seq::empty()
    } else {
        seq![(x % 256) as u8] + le_bytes(x / 256, (n - 1) as nat)
    }
}

/// Appends the `n` low bytes of `x`, least significant first.
fn push_le(buf: &mut Vec<u8>, x: u64, n: usize)
    requires
        n <= 8,
    ensures
        final(buf)@ == old(buf)@ + le_bytes(x as int, n as nat),
    decreases n,
{
    if n > 0 {
        buf.push((x % 256) as u8);
        push_le(buf, x / 256, n - 1);
        proof {
            assert(buf@ =~= old(buf)@ + le_bytes(x as int, n as nat));
        }
    }
}

/// The kinds of k-mer that a record tells apart.
#[derive(Debug, Copy, Clone, PartialEq, Eq, Structural)]
pub enum KmerType {
    Unmapped,
    UniqueOnTarget,
    UniqueOffTarget,
    LowMultiMap(u8),
    HighMultiMap,
}

/// The kind of a well-formed slot.
pub open spec fn spec_type_of(v: KmerVec) -> KmerType {
    if v[0] == 0 {
        KmerType::Unmapped
    } else if v[0] >= HIGH_MULTI {
        KmerType::HighMultiMap
    } else if v[1] == 0 {
        if v[0] == 1 {
            KmerType::UniqueOffTarget
        } else {
            KmerType::UniqueOnTarget
        }
    } else {
        KmerType::LowMultiMap(n_filled(v) as u8)
    }
}

/// The low nibble of a record's first byte.
pub open spec fn spec_type_code(t: KmerType) -> u8 {
    match t {
        KmerType::Unmapped => 15,
        KmerType::UniqueOnTarget => 1,
        KmerType::LowMultiMap(x) => (x - 1) as u8,
        KmerType::UniqueOffTarget => 9,
        KmerType::HighMultiMap => 8,
    }
}

impl KmerType {
    pub fn from_kmer_vec(v: &KmerVec) -> (r: KmerType)
        requires
            slot_ok(*v),
        ensures
            r == spec_type_of(*v),
    {
        if v[0] == 0 {
            KmerType::Unmapped
        } else if v[0] >= HIGH_MULTI {
            KmerType::HighMultiMap
        } else if v[1] == 0 {
            if v[0] == 1 {
                KmerType::UniqueOffTarget
            } else {
                KmerType::UniqueOnTarget
            }
        } else {
            let mut n: usize = 2;
            while n < MAX_HITS && v[n] != 0
                invariant
                    2 <= n <= 8,
                    forall|i: int| 0 <= i < n ==> v[i] != 0,
                    listed(*v, n_filled(*v)),
                decreases 8 - n,
            {
                n = n + 1;
            }
            proof {
                assert(n_filled(*v) == n);
            }
            KmerType::LowMultiMap(n as u8)
        }
    }

    pub fn type_code(&self) -> (r: u8)
        requires
            *self matches KmerType::LowMultiMap(x) ==> 1 <= x <= 8,
        ensures
            r == spec_type_code(*self),
    {
        match self {
            KmerType::Unmapped => 15,
            KmerType::UniqueOnTarget => 1,
            KmerType::LowMultiMap(x) => *x - 1,
            KmerType::UniqueOffTarget => 9,
            KmerType::HighMultiMap => 8,
        }
    }
}

/// The first bytes of a record: its kind code `tc` and skip `s`.
pub open spec fn skip_bytes(s: int, tc: u8) -> Seq<u8> {
    if s < 15 {
        seq![(s * 16 + tc) as u8]
    } else if s - 15 < 255 {
        seq![(0xf0 + tc) as u8, (s - 15) as u8]
    } else if s - 15 - 255 < 65535 {
        seq![(0xf0 + tc) as u8, 0xffu8] + le_bytes(s - 15 - 255, 2)
    } else {
        seq![(0xf0 + tc) as u8, 0xffu8, 0xffu8, 0xffu8] + le_bytes(s - 15 - 255 - 65535, 4)
    }
}

/// Appends the first bytes of a record with kind code `tc` and skip `skip`.
pub fn write_type_skip_nhits(buf: &mut Vec<u8>, skip: u64, tc: u8)
    requires
        skip < SKIP_LIMIT,
        tc < 16,
    ensures
        final(buf)@ == old(buf)@ + skip_bytes(skip as int, tc),
{
    if skip < 15 {
        buf.push((skip as u8) * 16 + tc);
        proof {
            assert(buf@ =~= old(buf)@ + skip_bytes(skip as int, tc));
        }
    } else {
        buf.push(0xf0 + tc);
        let s = skip - 15;
        if s < 255 {
            buf.push(s as u8);
            proof {
                assert(buf@ =~= old(buf)@ + skip_bytes(skip as int, tc));
            }
        } else {
            buf.push(0xff);
            let s = s - 255;
            if s < 65535 {
                push_le(buf, s, 2);
                proof {
                    assert(buf@ =~= old(buf)@ + skip_bytes(skip as int, tc));
                }
            } else {
                buf.push(0xff);
                buf.push(0xff);
                push_le(buf, s - 65535, 4);
                proof {
                    assert(buf@ =~= old(buf)@ + skip_bytes(skip as int, tc));
                }
            }
        }
    }
}

/// Reads the first bytes of a record: its skip, its kind code and how many
/// bytes they take; `None` where `b` ends too soon.
pub open spec fn spec_read_skip(b: Seq<u8>) -> Option<(int, u8, int)> {
    if b.len() < 1 {
        None
    } else if b[0] / 16 < 15 {
        Some(((b[0] / 16) as int, b[0] % 16, 1))
    } else if b.len() < 2 {
        None
    } else if b[1] < 255 {
        Some((15 + b[1], b[0] % 16, 2))
    } else if b.len() < 4 {
        None
    } else if b[2] as int + 256 * b[3] < 65535 {
        Some((15 + 255 + b[2] + 256 * b[3], b[0] % 16, 4))
    } else if b.len() < 8 {
        None
    } else {
        Some((15 + 255 + 65535 + b[4] + 256 * b[5] + 65536 * b[6] + 16777216 * b[7], b[0] % 16, 8))
    }
}

/// Reads the first bytes of a record.
pub fn read_skip(b: &[u8]) -> (r: Option<(u64, u8, usize)>)
    ensures
        r matches Some((s, t, n)) ==> spec_read_skip(b@) == Some((s as int, t, n as int)),
        r.is_none() ==> spec_read_skip(b@).is_none(),
{
    if b.len() < 1 {
        None
    } else if b[0] / 16 < 15 {
        Some(((b[0] / 16) as u64, b[0] % 16, 1))
    } else if b.len() < 2 {
        None
    } else if b[1] < 255 {
        Some((15 + b[1] as u64, b[0] % 16, 2))
    } else if b.len() < 4 {
        None
    } else if (b[2] as u64) + 256 * (b[3] as u64) < 65535 {
        Some((15 + 255 + (b[2] as u64) + 256 * (b[3] as u64), b[0] % 16, 4))
    } else if b.len() < 8 {
        None
    } else {
        Some((15 + 255 + 65535 + (b[4] as u64) + 256 * (b[5] as u64) + 65536 * (b[6] as u64) + 16777216 * (b[7] as u64), b[0] % 16, 8))
    }
}

/// Reading the first bytes of a record gives back the skip and kind code
/// that were written, whatever follows them: the skip field is a bijection
/// on `[0, SKIP_LIMIT)`.
pub proof fn lemma_skip_round_trip(s: int, tc: u8, rest: Seq<u8>)
    requires
        0 <= s < SKIP_LIMIT,
        tc < 16,
    ensures
        spec_read_skip(skip_bytes(s, tc) + rest) == Some((s, tc, skip_bytes(s, tc).len() as int)),
{
    let b = skip_bytes(s, tc) + rest;
    if s < 15 {
        assert(b[0] == (s * 16 + tc) as u8);
    } else if s - 15 < 255 {
        assert(b[0] == (0xf0 + tc) as u8);
        assert(b[1] == (s - 15) as u8);
    } else if s - 15 - 255 < 65535 {
        let x = s - 15 - 255;
        assert(le_bytes(x, 2) =~= seq![(x % 256) as u8, ((x / 256) % 256) as u8]) by {
            reveal_with_fuel(le_bytes, 3);
        }
        assert(b[0] == (0xf0 + tc) as u8);
        assert(b[1] == 0xff);
        assert(b[2] == (x % 256) as u8);
        assert(b[3] == ((x / 256) % 256) as u8);
    } else {
        let x = s - 15 - 255 - 65535;
        assert(le_bytes(x, 4) =~= seq![(x % 256) as u8, ((x / 256) % 256) as u8, ((x / 256 / 256) % 256) as u8, ((x / 256 / 256 / 256) % 256) as u8]) by {
            reveal_with_fuel(le_bytes, 5);
        }
        assert(b[0] == (0xf0 + tc) as u8);
        assert(b[1] == 0xff);
        assert(b[2] == 0xff);
        assert(b[3] == 0xff);
        assert(b[4] == (x % 256) as u8);
        assert(b[5] == ((x / 256) % 256) as u8);
        assert(b[6] == ((x / 256 / 256) % 256) as u8);
        assert(b[7] == ((x / 256 / 256 / 256) % 256) as u8);
    }
}

/// The region ids of the first `n` slots of `v`, each less one, as four
/// bytes each.
pub open spec fn ids_bytes(v: KmerVec, n: int) -> Seq<u8>
    decreases n,
{
    if n <= 0 {
        Seq::empty()
    } else {
        ids_bytes(v, n - 1) + le_bytes(v[n - 1] - 1, 4)
    }
}

/// The bytes of the record of slot `v`, after `skip` unmapped k-mers.
pub open spec fn record_bytes(skip: int, v: KmerVec) -> Seq<u8> {
    let t = spec_type_of(v);
    skip_bytes(skip, spec_type_code(t)) + if t is UniqueOnTarget || t is LowMultiMap {
        ids_bytes(v, n_filled(v))
    } else {
        Seq::empty()
    }
}

/// The records of the first `n` slots of `t` (each with the number of
/// unmapped k-mers since the one before), and the unmapped k-mers after the
/// last record.
pub open spec fn records(t: Seq<KmerVec>, n: int) -> (Seq<(int, KmerVec)>, int)
    decreases n,
{
    if n <= 0 {
        (Seq::empty(), 0)
    } else {
        let (rs, pending) = records(t, n - 1);
        if t[n - 1][0] != 0 {
            (rs.push((pending, t[n - 1])), 0)
        } else {
            (rs, pending + 1)
        }
    }
}

/// The bytes of a list of records.
pub open spec fn records_bytes(rs: Seq<(int, KmerVec)>) -> Seq<u8>
    decreases rs.len(),
{
    if rs.len() == 0 {
        Seq::empty()
    } else {
        records_bytes(rs.drop_last()) + record_bytes(rs.last().0, rs.last().1)
    }
}

/// The sum of the skips of a list of records.
pub open spec fn skips_total(rs: Seq<(int, KmerVec)>) -> int
    decreases rs.len(),
{
    if rs.len() == 0 {
        0
    } else {
        skips_total(rs.drop_last()) + rs.last().0
    }
}

/// Appends the record of slot `v` after `skip` unmapped k-mers.
pub fn write_kmer_block(buf: &mut Vec<u8>, v: &KmerVec, skip: u64, ktype: KmerType)
    requires
        slot_ok(*v),
        v[0] != 0,
        ktype == spec_type_of(*v),
        skip < SKIP_LIMIT,
    ensures
        final(buf)@ == old(buf)@ + record_bytes(skip as int, *v),
{
    proof {
        if ktype is LowMultiMap {
            assert(n_filled(*v) >= 2);
        }
    }
    let tc = ktype.type_code();
    write_type_skip_nhits(buf, skip, tc);
    let ghost head = buf@;
    match ktype {
        KmerType::UniqueOnTarget | KmerType::LowMultiMap(_) => {
            let mut i: usize = 0;
            while i < MAX_HITS && v[i] != 0
                invariant
                    i <= 8,
                    slot_ok(*v),
                    !is_high_multi(*v),
                    forall|k: int| 0 <= k < i ==> v[k] != 0,
                    buf@ == head + ids_bytes(*v, i as int),
                decreases 8 - i,
            {
                push_le(buf, (v[i] - 1) as u64, 4);
                i = i + 1;
            }
            proof {
                assert(listed(*v, n_filled(*v)));
                assert(n_filled(*v) == i);
            }
        },
        _ => {
            assert(buf@ =~= head + Seq::<u8>::empty());
        },
    }
}

/// Appends the records of every mapped k-mer of `kmers`, in k-mer order,
/// each with the number of unmapped k-mers since the record before.
pub fn write_kmer_blocks(buf: &mut Vec<u8>, kmers: &[KmerVec])
    requires
        kmers@.len() < SKIP_LIMIT,
        forall|i: int| 0 <= i < kmers@.len() ==> slot_ok(#[trigger] kmers@[i]),
    ensures
        final(buf)@ == old(buf)@ + records_bytes(records(kmers@, kmers@.len() as int).0),
{
    let mut skip: u64 = 0;
    let mut k: usize = 0;
    proof {
        assert(buf@ =~= old(buf)@ + records_bytes(records(kmers@, 0).0));
    }
    while k < kmers.len()
        invariant
            k <= kmers@.len(),
            kmers@.len() < SKIP_LIMIT,
            forall|i: int| 0 <= i < kmers@.len() ==> slot_ok(#[trigger] kmers@[i]),
            skip == records(kmers@, k as int).1,
            skip <= k,
            buf@ == old(buf)@ + records_bytes(records(kmers@, k as int).0),
        decreases kmers@.len() - k,
    {
        let v = &kmers[k];
        assert(slot_ok(kmers@[k as int]));
        let ktype = KmerType::from_kmer_vec(v);
        if v[0] != 0 {
            let ghost before = buf@;
            write_kmer_block(buf, v, skip, ktype);
            proof {
                let rs = records(kmers@, k as int).0;
                assert(records(kmers@, k + 1).0 == rs.push((skip as int, kmers@[k as int])));
                assert(rs.push((skip as int, kmers@[k as int])).drop_last() == rs);
                assert(buf@ =~= old(buf)@ + records_bytes(records(kmers@, k + 1).0));
            }
            skip = 0;
        } else {
            skip = skip + 1;
        }
        k = k + 1;
    }
}

/// Every k-mer of the table is either one record, or skipped by a record,
/// or among the unmapped k-mers after the last record; and there is one
/// record per mapped k-mer.
pub proof fn lemma_records_cover(t: Seq<KmerVec>, n: int)
    requires
        0 <= n <= t.len(),
    ensures
        skips_total(records(t, n).0) + records(t, n).0.len() + records(t, n).1 == n,
        records(t, n).0.len() == crate::kmers::sum_by(t, |v: KmerVec| mapped_of(v), n),
    decreases n,
{
    if n > 0 {
        lemma_records_cover(t, n - 1);
        let rs = records(t, n - 1).0;
        if t[n - 1][0] != 0 {
            assert(rs.push((records(t, n - 1).1, t[n - 1])).drop_last() == rs);
        }
    }
}

/// The 52 bytes of the header.
pub open spec fn header_bytes(rnd_id: int, n_contigs: int, n_targets: int, mapped: int, on_target: int, redundant: int, total_hits: int) -> Seq<u8> {
    seq![75u8, 77, 67, 86, MAJOR_VERSION, MINOR_VERSION, KMER_LENGTH as u8, MAX_HITS as u8]
        + le_bytes(rnd_id, 4) + le_bytes(n_contigs, 4) + le_bytes(n_targets, 4)
        + le_bytes(mapped, 8) + le_bytes(on_target, 8) + le_bytes(redundant, 8) + le_bytes(total_hits, 8)
}

/// The header of a KMCV file.
pub struct KmcvHeader {
    buf: Vec<u8>,
}

impl KmcvHeader {
    pub closed spec fn bytes(&self) -> Seq<u8> {
        self.buf@
    }

    /// The header for the catalogue `reg`, the index `k_work` and the file id
    /// `rnd_id`.
    pub fn new(reg: &Regions, k_work: &KmerWork, rnd_id: u32) -> (r: KmcvHeader)
        requires
            reg.wf(),
            reg@.len() <= u32::MAX,
            count_all(reg@) <= u32::MAX,
            k_work.wf(),
        ensures
            r.bytes() == header_bytes(
                rnd_id as int,
                reg@.len() as int,
                count_all(reg@),
                total_by(k_work.table(), |v: KmerVec| mapped_of(v)),
                total_by(k_work.table(), |v: KmerVec| on_target_of(v)),
                total_by(k_work.table(), |v: KmerVec| redundant_of(v)),
                total_by(k_work.table(), |v: KmerVec| hits_of(v)) + total_by(k_work.table(), |v: KmerVec| on_target_of(v))
                    - total_by(k_work.table(), |v: KmerVec| mapped_of(v)),
            ),
    {
        let n_contigs = reg.n_contigs() as u64;
        let n_targets = reg.n_regions() as u64;
        let mapped = k_work.mapped_kmers();
        let redundant = k_work.highly_redundant_kmers();
        let on_target = k_work.on_target_kmers();
        let total_hits = k_work.total_hits();
        let mut buf: Vec<u8> = Vec::new();
        buf.push(75);
        buf.push(77);
        buf.push(67);
        buf.push(86);
        buf.push(MAJOR_VERSION);
        buf.push(MINOR_VERSION);
        buf.push(KMER_LENGTH as u8);
        buf.push(MAX_HITS as u8);
        push_le(&mut buf, rnd_id as u64, 4);
        push_le(&mut buf, n_contigs, 4);
        push_le(&mut buf, n_targets, 4);
        push_le(&mut buf, mapped, 8);
        push_le(&mut buf, on_target, 8);
        push_le(&mut buf, redundant, 8);
        push_le(&mut buf, total_hits, 8);
        proof {
            assert(buf@ =~= header_bytes(rnd_id as int, reg@.len() as int, count_all(reg@), mapped as int, on_target as int, redundant as int, total_hits as int));
        }
        KmcvHeader { buf }
    }

    /// Appends the header.
    pub fn write(&self, w: &mut Vec<u8>)
        ensures
            final(w)@ == old(w)@ + self.bytes(),
    {
        let mut i: usize = 0;
        while i < self.buf.len()
            invariant
                i <= self.buf@.len(),
                w@ == old(w)@ + self.buf@.subrange(0, i as int),
            decreases self.buf@.len() - i,
        {
            w.push(self.buf[i]);
            i = i + 1;
            proof {
                assert(self.buf@.subrange(0, i as int) == self.buf@.subrange(0, i - 1).push(self.buf@[i - 1]));
            }
        }
        proof {
            assert(self.buf@.subrange(0, i as int) == self.buf@);
        }
    }
}

/// The contig blocks: each name's length in two bytes, then the name.
pub open spec fn contig_bytes(s: Seq<(Seq<u8>, Seq<Region>)>, n: int) -> Seq<u8>
    decreases n,
{
    if n <= 0 || n > s.len() {
        Seq::empty()
    } else {
        contig_bytes(s, n - 1) + le_bytes(s[n - 1].0.len() as int, 2) + s[n - 1].0
    }
}

/// Whether every contig name fits in a contig block.
pub open spec fn names_fit(s: Seq<(Seq<u8>, Seq<Region>)>) -> bool {
    forall|i: int| 0 <= i < s.len() ==> (#[trigger] s[i]).0.len() <= 65535
}

/// Appends the bytes of `src`.
fn push_all(buf: &mut Vec<u8>, src: &[u8])
    ensures
        final(buf)@ == old(buf)@ + src@,
{
    let mut i: usize = 0;
    while i < src.len()
        invariant
            i <= src@.len(),
            buf@ == old(buf)@ + src@.subrange(0, i as int),
        decreases src@.len() - i,
    {
        buf.push(src[i]);
        i = i + 1;
        proof {
            assert(src@.subrange(0, i as int) == src@.subrange(0, i - 1).push(src@[i - 1]));
        }
    }
    proof {
        assert(src@.subrange(0, i as int) == src@);
    }
}

/// Appends a block per contig; fails where a name is longer than 65 535
/// bytes.
pub fn write_contig_blocks(buf: &mut Vec<u8>, reg: &Regions) -> (r: Result<(), KmcvError>)
    requires
        reg.wf(),
    ensures
        r.is_ok() <==> names_fit(reg@),
        r.is_ok() ==> final(buf)@ == old(buf)@ + contig_bytes(reg@, reg@.len() as int),
{
    let (names, _) = reg.iter();
    let mut i: usize = 0;
    while i < names.len()
        invariant
            reg.wf(),
            names@.len() == reg@.len(),
            forall|k: int| 0 <= k < reg@.len() ==> (#[trigger] names@[k])@ == reg@[k].0,
            i <= names@.len(),
            forall|k: int| 0 <= k < i ==> (#[trigger] reg@[k]).0.len() <= 65535,
            buf@ == old(buf)@ + contig_bytes(reg@, i as int),
        decreases names@.len() - i,
    {
        let name = &names[i];
        let l = name.len();
        if l > 65535 {
            return Err(KmcvError::ContigNameTooLong);
        }
        push_le(buf, l as u64, 2);
        push_all(buf, name.as_slice());
        proof {
            assert(names@[i as int]@ == reg@[i as int].0);
            assert(buf@ =~= old(buf)@ + contig_bytes(reg@, i + 1));
        }
        i = i + 1;
    }
    Ok(())
}

/// The target blocks of one contig: contig id, start and end of each region.
pub open spec fn contig_target_bytes(c: int, rs: Seq<Region>, n: int) -> Seq<u8>
    decreases n,
{
    if n <= 0 || n > rs.len() {
        Seq::empty()
    } else {
        contig_target_bytes(c, rs, n - 1) + le_bytes(c, 4) + le_bytes(rs[n - 1].spec_start(), 4) + le_bytes(rs[n - 1].spec_end(), 4)
    }
}

/// The target blocks of the first `n` contigs.
pub open spec fn target_bytes(s: Seq<(Seq<u8>, Seq<Region>)>, n: int) -> Seq<u8>
    decreases n,
{
    if n <= 0 || n > s.len() {
        Seq::empty()
    } else {
        target_bytes(s, n - 1) + contig_target_bytes(n - 1, s[n - 1].1, s[n - 1].1.len() as int)
    }
}

/// Appends a block per target region, contig by contig; contigs are
/// numbered from 0 in their order in the catalogue.
pub fn write_target_blocks(buf: &mut Vec<u8>, reg: &Regions)
    requires
        reg.wf(),
        reg@.len() <= u32::MAX,
        Regions::regions_wf(reg@),
    ensures
        final(buf)@ == old(buf)@ + target_bytes(reg@, reg@.len() as int),
{
    let (_, contigs) = reg.iter();
    let mut c: usize = 0;
    while c < contigs.len()
        invariant
            reg.wf(),
            reg@.len() <= u32::MAX,
            Regions::regions_wf(reg@),
            contigs@.len() == reg@.len(),
            forall|k: int| 0 <= k < reg@.len() ==> (#[trigger] contigs@[k])@ == reg@[k].1,
            c <= contigs@.len(),
            buf@ == old(buf)@ + target_bytes(reg@, c as int),
        decreases contigs@.len() - c,
    {
        let rs = contigs[c].regions();
        let ghost base = buf@;
        let mut i: usize = 0;
        proof {
            assert(rs@ == reg@[c as int].1);
            assert(crate::regions::all_wf(reg@[c as int].1));
        }
        while i < rs.len()
            invariant
                i <= rs@.len(),
                c < reg@.len(),
                c <= u32::MAX,
                rs@ == reg@[c as int].1,
                crate::regions::all_wf(rs@),
                buf@ == base + contig_target_bytes(c as int, rs@, i as int),
            decreases rs@.len() - i,
        {
            let r = rs[i];
            assert(rs@[i as int].wf());
            push_le(buf, c as u64, 4);
            push_le(buf, r.start() as u64, 4);
            push_le(buf, r.end() as u64, 4);
            proof {
                assert(buf@ =~= base + contig_target_bytes(c as int, rs@, i + 1));
            }
            i = i + 1;
        }
        proof {
            assert(buf@ =~= old(buf)@ + target_bytes(reg@, c + 1));
        }
        c = c + 1;
    }
}

/// The closing block.
pub open spec fn close_bytes(rnd_id: int) -> Seq<u8> {
    le_bytes(rnd_id, 4) + seq![86u8, 67, 77, 75]
}

/// Appends the closing block.
pub fn write_close(buf: &mut Vec<u8>, rnd_id: u32)
    ensures
        final(buf)@ == old(buf)@ + close_bytes(rnd_id as int),
{
    push_le(buf, rnd_id as u64, 4);
    buf.push(86);
    buf.push(67);
    buf.push(77);
    buf.push(75);
    proof {
        assert(final(buf)@ =~= old(buf)@ + close_bytes(rnd_id as int));
    }
}

/// The whole KMCV file for catalogue `s`, k-mer table `t` with header
/// `header`, and file id `rnd_id`.
pub open spec fn file_bytes(header: Seq<u8>, s: Seq<(Seq<u8>, Seq<Region>)>, t: Seq<KmerVec>, rnd_id: int) -> Seq<u8> {
    header + contig_bytes(s, s.len() as int) + target_bytes(s, s.len() as int) + records_bytes(records(t, t.len() as int).0)
        + close_bytes(rnd_id)
}

/// The KMCV file of the catalogue `reg` and the index `k_work`, with file id
/// `rnd_id`; fails where a contig name is longer than 65 535 bytes.
pub fn kmcv_file(reg: &Regions, k_work: &KmerWork, rnd_id: u32) -> (r: Result<Vec<u8>, KmcvError>)
    requires
        reg.wf(),
        Regions::regions_wf(reg@),
        reg@.len() <= u32::MAX,
        count_all(reg@) <= u32::MAX,
        k_work.wf(),
    ensures
        r.is_ok() <==> names_fit(reg@),
        r matches Ok(b) ==> b@ == file_bytes(
            header_bytes(
                rnd_id as int,
                reg@.len() as int,
                count_all(reg@),
                total_by(k_work.table(), |v: KmerVec| mapped_of(v)),
                total_by(k_work.table(), |v: KmerVec| on_target_of(v)),
                total_by(k_work.table(), |v: KmerVec| redundant_of(v)),
                total_by(k_work.table(), |v: KmerVec| hits_of(v)) + total_by(k_work.table(), |v: KmerVec| on_target_of(v))
                    - total_by(k_work.table(), |v: KmerVec| mapped_of(v)),
            ),
            reg@,
            k_work.table(),
            rnd_id as int,
        ),
{
    let hdr = KmcvHeader::new(reg, k_work, rnd_id);
    let mut buf: Vec<u8> = Vec::new();
    hdr.write(&mut buf);
    write_contig_blocks(&mut buf, reg)?;
    write_target_blocks(&mut buf, reg);
    let kmers = k_work.kmers();
    if kmers.len() == 0 {
        proof {
            let t = k_work.table();
            lemma_records_none(t, t.len() as int);
            assert(records_bytes(records(t, t.len() as int).0) == Seq::<u8>::empty());
            assert(buf@ =~= buf@ + records_bytes(records(t, t.len() as int).0));
        }
    } else {
        proof {
            assert forall|i: int| 0 <= i < kmers@.len() implies slot_ok(#[trigger] kmers@[i]) by {
                assert(slot_ok(k_work.table()[i]));
            }
        }
        write_kmer_blocks(&mut buf, kmers.as_slice());
    }
    write_close(&mut buf, rnd_id);
    proof {
        assert(buf@ =~= file_bytes(hdr.bytes(), reg@, k_work.table(), rnd_id as int));
    }
    Ok(buf)
}

/// A KMCV file starts with `KMCV` and ends with `VCMK`, and the file id of
/// the header is the file id of the closing block.
pub proof fn lemma_kmcv_framing(s: Seq<(Seq<u8>, Seq<Region>)>, t: Seq<KmerVec>, rnd_id: int, n_contigs: int, n_targets: int, mapped: int, on_target: int, redundant: int, total_hits: int)
    ensures
        ({
            let b = file_bytes(header_bytes(rnd_id, n_contigs, n_targets, mapped, on_target, redundant, total_hits), s, t, rnd_id);
            &&& b.len() >= 60
            &&& b.subrange(0, 4) == seq![75u8, 77, 67, 86]
            &&& b.subrange(8, 12) == le_bytes(rnd_id, 4)
            &&& b.subrange(b.len() - 8, b.len() - 4) == le_bytes(rnd_id, 4)
            &&& b.subrange(b.len() - 4, b.len() as int) == seq![86u8, 67, 77, 75]
        }),
{
    let h = header_bytes(rnd_id, n_contigs, n_targets, mapped, on_target, redundant, total_hits);
    lemma_le_len(rnd_id, 4);
    lemma_le_len(n_contigs, 4);
    lemma_le_len(n_targets, 4);
    lemma_le_len(mapped, 8);
    lemma_le_len(on_target, 8);
    lemma_le_len(redundant, 8);
    lemma_le_len(total_hits, 8);
    let b = file_bytes(h, s, t, rnd_id);
    let mid = contig_bytes(s, s.len() as int) + target_bytes(s, s.len() as int) + records_bytes(records(t, t.len() as int).0);
    assert(b == h + mid + close_bytes(rnd_id));
    assert(h.len() == 52);
    assert(b.subrange(0, 4) =~= seq![75u8, 77, 67, 86]);
    assert(b.subrange(8, 12) =~= le_bytes(rnd_id, 4));
    assert(b.subrange(b.len() - 8, b.len() - 4) =~= le_bytes(rnd_id, 4));
    assert(b.subrange(b.len() - 4, b.len() as int) =~= seq![86u8, 67, 77, 75]);
}

proof fn lemma_records_none(t: Seq<KmerVec>, n: int)
    requires
        0 <= n <= t.len(),
        t == crate::kmers::empty_table(),
    ensures
        records(t, n).0.len() == 0,
    decreases n,
{
    if n > 0 {
        lemma_records_none(t, n - 1);
        assert(t[n - 1] == crate::kmers::zero_vec());
    }
}

proof fn lemma_le_len(x: int, n: nat)
    ensures
        le_bytes(x, n).len() == n,
    decreases n,
{
    if n > 0 {
        lemma_le_len(x / 256, (n - 1) as nat);
    }
}

} // verus!
