//! The FASTA reader: a byte-at-a-time state machine that cuts each contig
//! into sequences at long gaps, tracks the position on the contig, and feeds
//! the k-mer catalogue.
use vstd::prelude::*;
use crate::base::Base;
use crate::kmers::{KmerBuilder, KmerWork, MAX_REGION};
use crate::regions::{Regions, Region, all_normalized, count_all, lemma_normalized_ids, region_of, contig_of};

verus! {

/// Why a FASTA input is malformed.
#[derive(Debug, Copy, Clone, PartialEq, Eq, Structural)]
pub enum FastaError {
    /// The input does not start with `>`.
    MissingHeader,
    /// A byte in a sequence that is neither printable nor a newline.
    IllegalSequenceChar,
    /// A byte in a sequence name that is not printable ASCII or a tab.
    IllegalNameChar,
    /// A contig longer than the largest `u32` position.
    ContigTooLong,
}

/// A run of bases handed out by the reader.
#[derive(Debug)]
pub struct Sequence(Vec<Base>);

impl View for Sequence {
    type V = Seq<Base>;

    closed spec fn view(&self) -> Seq<Base> {
        self.0@
    }
}

impl Sequence {
    pub fn len(&self) -> (r: usize)
        ensures
            r == self@.len(),
    {
        self.0.len()
    }

    pub fn bases(&self) -> (r: &[Base])
        ensures
            r@ == self@,
    {
        self.0.as_slice()
    }
}

/// The states of the reader.
#[derive(Debug, Copy, Clone, PartialEq, Eq, Structural)]
pub enum RdrState {
    Start,
    StartSeqId,
    InSeqId,
    StartSeq,
    StartSeqAfterNewLine,
    StartGap,
    InGap,
    InGapAfterNewLine,
    InSeq,
    InSeqAfterNewLine,
    InLongGap,
    InLongGapAfterNewLine,
}

/// A printable ASCII byte other than space.
pub open spec fn is_graphic(c: u8) -> bool {
    0x21 <= c <= 0x7e
}

/// A byte allowed in a sequence name: printable ASCII, space or tab.
pub open spec fn is_name_byte(c: u8) -> bool {
    c == 9 || 0x20 <= c <= 0x7e
}

/// The move of the reader on byte `c` inside a sequence, a short gap or a
/// long gap: a newline goes to `s1`, a gap base to `s2`, another base to
/// `s3`; the flag says that the byte is a base.
pub open spec fn spec_in_gen(c: u8, s1: RdrState, s2: RdrState, s3: RdrState) -> Result<(RdrState, bool), FastaError> {
    if c == 10 {
        Ok((s1, false))
    } else if is_graphic(c) {
        Ok((if Base::spec_from_u8(c).spec_is_gap() { s2 } else { s3 }, true))
    } else {
        Err(FastaError::IllegalSequenceChar)
    }
}

pub fn proc_in_gen(c: u8, s1: RdrState, s2: RdrState, s3: RdrState) -> (r: Result<(RdrState, bool), FastaError>)
    ensures
        r == spec_in_gen(c, s1, s2, s3),
{
    if c == 10 {
        Ok((s1, false))
    } else if 0x21 <= c && c <= 0x7e {
        let b = Base::from_u8(c);
        Ok((if b.is_gap() { s2 } else { s3 }, true))
    } else {
        Err(FastaError::IllegalSequenceChar)
    }
}

/// The first byte of the input must be `>`.
pub fn proc_start(c: u8) -> (r: Result<RdrState, FastaError>)
    ensures
        c == 62 ==> r == Ok::<RdrState, FastaError>(RdrState::StartSeqId),
        c != 62 ==> r == Err::<RdrState, FastaError>(FastaError::MissingHeader),
{
    if c == 62 {
        Ok(RdrState::StartSeqId)
    } else {
        Err(FastaError::MissingHeader)
    }
}

/// The bases of a sequence handed out, if any.
pub open spec fn seq_view(s: Option<Sequence>) -> Option<Seq<Base>> {
    match s {
        Some(x) => Some(x@),
        None => None,
    }
}

/// What a step of the reader asks of its driver.
#[derive(Debug, Copy, Clone, PartialEq, Eq, Structural)]
pub enum Step {
    /// The byte was used; go on with the next one.
    Next,
    /// The byte was used and ended the current sequence.
    Emit,
    /// The current sequence ends before this byte, which is read again.
    EmitAgain,
}

/// The bases appended are gaps exactly in the last `gap` places, the first
/// base is not a gap, and neither is the one before the trailing gaps.
pub open spec fn trimmed(cur: Seq<Base>, gap: int) -> bool {
    &&& 0 <= gap <= cur.len()
    &&& forall|i: int| cur.len() - gap <= i < cur.len() ==> (#[trigger] cur[i]).spec_is_gap()
    &&& cur.len() > gap ==> !cur[cur.len() - gap - 1].spec_is_gap()
    &&& cur.len() > 0 ==> !cur[0].spec_is_gap()
}

/// States in which bases are appended to the current sequence.
pub open spec fn appending(s: RdrState) -> bool {
    s == RdrState::InSeq || s == RdrState::InSeqAfterNewLine || s == RdrState::StartGap
        || s == RdrState::InGap || s == RdrState::InGapAfterNewLine
}

/// The number of gap bases in a row that end at index `i` of `s`.
pub open spec fn run_before(s: Seq<Base>, i: int) -> int
    decreases i + 1,
{
    if i < 0 || i >= s.len() || !s[i].spec_is_gap() {
        0
    } else {
        run_before(s, i - 1) + 1
    }
}

/// The length of a run of gaps that cuts a sequence: the maximum read
/// length (a run of one gap where that is 0).
pub open spec fn cut_len(max_read_length: u32) -> int {
    if max_read_length < 1 { 1 } else { max_read_length as int }
}

/// No run of `t` or more gap bases in `s`.
pub open spec fn short_gaps(s: Seq<Base>, t: int) -> bool {
    forall|i: int| 0 <= i < s.len() ==> #[trigger] run_before(s, i) < t
}

proof fn lemma_run_prefix(s: Seq<Base>, n: int, i: int)
    requires
        0 <= n <= s.len(),
        i < n,
    ensures
        run_before(s.subrange(0, n), i) == run_before(s, i),
    decreases i + 1,
{
    if i >= 0 {
        lemma_run_prefix(s, n, i - 1);
    }
}

proof fn lemma_run_trailing(s: Seq<Base>, g: int, i: int)
    requires
        trimmed(s, g),
        s.len() - g <= i < s.len(),
    ensures
        run_before(s, i) == i - (s.len() - g) + 1,
    decreases i - (s.len() - g),
{
    assert(s[i].spec_is_gap());
    if i > s.len() - g {
        lemma_run_trailing(s, g, i - 1);
    } else {
        if i > 0 {
            assert(!s[i - 1].spec_is_gap());
        }
        assert(run_before(s, i - 1) == 0);
    }
}

/// States before the first base of a sequence.
pub open spec fn outside_sequence(s: RdrState) -> bool {
    s == RdrState::Start || s == RdrState::StartSeqId || s == RdrState::InSeqId || s == RdrState::StartSeq
        || s == RdrState::StartSeqAfterNewLine
}

/// What a reader holds that decides what it hands out: its state, the
/// current name, the cut length, the position on the contig, the catalogue
/// and the current contig's place in it, and the bases of the sequence
/// being built with the number of gap bases at its end.
pub struct RdrModel {
    pub state: RdrState,
    pub seq_id: Seq<u8>,
    pub max_read_length: u32,
    pub pos: u32,
    pub targets: Option<Seq<(Seq<u8>, Seq<Region>)>>,
    pub contig: Option<usize>,
    pub cur: Seq<Base>,
    pub gap: usize,
}

/// The region of the current position, where there is a catalogue.
pub open spec fn tag_of(m: RdrModel) -> Option<u32> {
    match (m.targets, m.contig) {
        (Some(t), Some(ci)) => region_of(t[ci as int].1, m.pos as int),
        _ => None,
    }
}

/// The end of a name: its first space or tab.
pub open spec fn name_end(id: Seq<u8>, i: int) -> int
    decreases id.len() - i,
{
    if i < 0 || i >= id.len() || id[i] == 32 || id[i] == 9 {
        i
    } else {
        name_end(id, i + 1)
    }
}

/// Appends the base of byte `c`, or `N` where it is off target.
pub open spec fn model_push(m: RdrModel, c: u8, tag: Option<u32>) -> RdrModel {
    let b = Base::spec_from_u8(c);
    RdrModel {
        cur: m.cur.push(if m.targets.is_none() || tag.is_some() { b } else { Base::N }),
        gap: if b.spec_is_gap() { (m.gap + 1) as usize } else { 0usize },
        ..m
    }
}

/// A byte inside a sequence or a short gap (see `spec_in_gen`): a base moves
/// the position on and is appended with the region of the position before.
pub open spec fn model_gen(m: RdrModel, c: u8, s1: RdrState, s2: RdrState, s3: RdrState) -> Result<RdrModel, FastaError> {
    match spec_in_gen(c, s1, s2, s3) {
        Err(e) => Err(e),
        Ok((st, is_base)) => if !is_base {
            Ok(RdrModel { state: st, ..m })
        } else if m.pos == u32::MAX {
            Err(FastaError::ContigTooLong)
        } else {
            Ok(RdrModel { state: st, ..model_push(RdrModel { pos: (m.pos + 1) as u32, ..m }, c, tag_of(m)) })
        },
    }
}

/// A byte inside a long gap: `Ok((true, m))` where a base ends the sequence
/// and is to be read again.
pub open spec fn model_long_gap(m: RdrModel, c: u8) -> Result<(bool, RdrModel), FastaError> {
    match spec_in_gen(c, RdrState::InLongGapAfterNewLine, RdrState::InLongGap, RdrState::StartSeq) {
        Err(e) => Err(e),
        Ok((st, is_base)) => if st == RdrState::StartSeq {
            Ok((true, m))
        } else if is_base && m.pos == u32::MAX {
            Err(FastaError::ContigTooLong)
        } else {
            Ok((false, RdrModel { state: st, pos: if is_base { (m.pos + 1) as u32 } else { m.pos }, ..m }))
        },
    }
}

/// The sequence that ends here, without its trailing gaps (none where that
/// is empty), and the reader with no current sequence.
pub open spec fn model_take(m: RdrModel) -> (Option<Seq<Base>>, RdrModel) {
    let piece = m.cur.subrange(0, m.cur.len() - m.gap);
    (if piece.len() == 0 { None } else { Some(piece) }, RdrModel { cur: Seq::empty(), gap: 0usize, ..m })
}

/// A byte before the first base of a sequence.
pub open spec fn model_start_seq(m: RdrModel, c: u8) -> Result<RdrModel, FastaError> {
    if c == 10 {
        Ok(RdrModel { state: RdrState::StartSeqAfterNewLine, ..m })
    } else if !is_graphic(c) {
        Err(FastaError::IllegalSequenceChar)
    } else if Base::spec_from_u8(c).spec_is_gap() {
        if m.pos == u32::MAX {
            Err(FastaError::ContigTooLong)
        } else {
            Ok(RdrModel { state: RdrState::StartSeq, pos: (m.pos + 1) as u32, ..m })
        }
    } else {
        model_gen(m, c, RdrState::InSeqAfterNewLine, RdrState::StartGap, RdrState::InSeq)
    }
}

/// A byte of a name line: its newline cuts the name at the first space or
/// tab, finds the contig in the catalogue and starts at position 0.
pub open spec fn model_name(m: RdrModel, c: u8) -> Result<RdrModel, FastaError> {
    if c == 10 {
        let id = m.seq_id.subrange(0, name_end(m.seq_id, 0));
        Ok(RdrModel {
            state: RdrState::StartSeq,
            seq_id: id,
            pos: 0u32,
            contig: match m.targets {
                Some(t) => contig_of(t, id),
                None => None,
            },
            ..m
        })
    } else if is_name_byte(c) {
        Ok(RdrModel { state: RdrState::InSeqId, seq_id: m.seq_id.push(c), ..m })
    } else {
        Err(FastaError::IllegalNameChar)
    }
}

/// A step that uses its byte and ends no sequence.
pub open spec fn model_lift(r: Result<RdrModel, FastaError>) -> Result<(bool, Option<Seq<Base>>, RdrModel), FastaError> {
    match r {
        Ok(m) => Ok((true, None, m)),
        Err(e) => Err(e),
    }
}

/// A `>` at the start of a line ends the sequence.
pub open spec fn model_emit(m: RdrModel) -> Result<(bool, Option<Seq<Base>>, RdrModel), FastaError> {
    let (s, m1) = model_take(m);
    Ok((true, s, RdrModel { state: RdrState::StartSeqId, ..m1 }))
}

/// A byte in a long gap, with the sequence that a base ends.
pub open spec fn model_long_gap_step(m: RdrModel, c: u8) -> Result<(bool, Option<Seq<Base>>, RdrModel), FastaError> {
    match model_long_gap(m, c) {
        Err(e) => Err(e),
        Ok((again, m1)) => if again {
            let (s, m2) = model_take(m1);
            Ok((false, s, RdrModel { state: RdrState::StartSeq, ..m2 }))
        } else {
            Ok((true, None, m1))
        },
    }
}

/// One byte of input: whether it is used (else it is read again), the
/// sequence that it ends, if any, and the next reader; or why the input is
/// malformed.
pub open spec fn model_step(m: RdrModel, c: u8) -> Result<(bool, Option<Seq<Base>>, RdrModel), FastaError> {
    match m.state {
        RdrState::Start => if c == 62 {
            Ok((true, None, RdrModel { state: RdrState::StartSeqId, ..m }))
        } else {
            Err(FastaError::MissingHeader)
        },
        RdrState::StartSeqId => model_lift(model_name(RdrModel { seq_id: Seq::empty(), ..m }, c)),
        RdrState::InSeqId => model_lift(model_name(m, c)),
        RdrState::StartSeqAfterNewLine => if c == 62 {
            Ok((true, None, RdrModel { state: RdrState::StartSeqId, ..m }))
        } else {
            model_lift(model_start_seq(m, c))
        },
        RdrState::StartSeq => model_lift(model_start_seq(m, c)),
        RdrState::InSeq => model_lift(model_gen(m, c, RdrState::InSeqAfterNewLine, RdrState::StartGap, RdrState::InSeq)),
        RdrState::InSeqAfterNewLine => if c == 62 {
            model_emit(m)
        } else {
            model_lift(model_gen(m, c, RdrState::InSeqAfterNewLine, RdrState::StartGap, RdrState::InSeq))
        },
        RdrState::StartGap | RdrState::InGap => if m.gap >= m.max_read_length {
            model_long_gap_step(
                RdrModel { cur: m.cur.subrange(0, m.cur.len() - m.gap), gap: 0usize, state: RdrState::InLongGap, ..m },
                c,
            )
        } else {
            model_lift(model_gen(m, c, RdrState::InGapAfterNewLine, RdrState::InGap, RdrState::InSeq))
        },
        RdrState::InGapAfterNewLine => if c == 62 {
            model_emit(m)
        } else {
            model_lift(model_gen(m, c, RdrState::InGapAfterNewLine, RdrState::InGap, RdrState::InSeq))
        },
        RdrState::InLongGap => model_long_gap_step(m, c),
        RdrState::InLongGapAfterNewLine => if c == 62 {
            model_emit(m)
        } else {
            model_long_gap_step(m, c)
        },
    }
}

/// Reads `buf` from index `i` until a sequence ends or the buffer is used
/// up: how many bytes of `buf` are used, the sequence, if any, and the next
/// reader. `fuel` bounds the steps (two per byte are enough).
pub open spec fn model_scan(m: RdrModel, buf: Seq<u8>, i: int, fuel: nat) -> Result<(int, Option<Seq<Base>>, RdrModel), FastaError>
    decreases fuel,
{
    if fuel == 0 || i >= buf.len() {
        Ok((buf.len() as int, None, m))
    } else {
        match model_step(m, buf[i]) {
            Err(e) => Err(e),
            Ok((used, s, m1)) => {
                let i1 = if used { i + 1 } else { i };
                if s.is_some() {
                    Ok((i1, s, m1))
                } else {
                    model_scan(m1, buf, i1, (fuel - 1) as nat)
                }
            },
        }
    }
}

/// What `Rdr::get_seq` does with `buf`: an empty buffer ends the input and
/// hands out the last sequence.
pub open spec fn model_get_seq(m: RdrModel, buf: Seq<u8>) -> Result<(int, Option<Seq<Base>>, RdrModel), FastaError> {
    if buf.len() == 0 {
        let (s, m1) = model_take(m);
        Ok((0, s, RdrModel { state: RdrState::StartSeq, ..m1 }))
    } else {
        model_scan(m, buf, 0, (2 * buf.len() + 1) as nat)
    }
}

/// The FASTA reader. It is handed the input a buffer at a time and hands
/// out one sequence at a time.
pub struct Rdr {
    state: RdrState,
    seq_id: Vec<u8>,
    max_read_length: u32,
    pos: u32,
    targets: Option<Regions>,
    contig_ix: Option<usize>,
    k_work: Option<KmerWork>,
    kmer_build: KmerBuilder,
    cur: Vec<Base>,
    gap: usize,
}

impl Rdr {
    pub closed spec fn spec_state(&self) -> RdrState {
        self.state
    }

    /// Whether the reader works with a catalogue of target regions and the
    /// current contig has no regions in it.
    pub closed spec fn in_untargeted_contig(&self) -> bool {
        self.targets matches Some(t) && (self.contig_ix matches Some(i) ==> t@[i as int].1.len() == 0)
    }

    /// What the reader holds that decides what it hands out.
    pub closed spec fn model(&self) -> RdrModel {
        RdrModel {
            state: self.state,
            seq_id: self.seq_id@,
            max_read_length: self.max_read_length,
            pos: self.pos,
            targets: match self.targets {
                Some(t) => Some(t@),
                None => None,
            },
            contig: self.contig_ix,
            cur: self.cur@,
            gap: self.gap,
        }
    }

    /// Runs of this many gap bases cut sequences.
    pub closed spec fn spec_cut_len(&self) -> int {
        cut_len(self.max_read_length)
    }

    /// Whether the reader works with a catalogue of target regions.
    pub closed spec fn has_targets(&self) -> bool {
        self.targets.is_some()
    }

    pub closed spec fn wf(&self) -> bool {
        &&& self.kmer_build.wf()
        &&& forall|i: int| 0 <= i < self.kmer_build.tags().len() ==>
            (#[trigger] self.kmer_build.tags()[i] matches Some(x) ==> 1 <= x <= MAX_REGION)
        &&& self.targets.is_some() == self.k_work.is_some()
        &&& (self.targets matches Some(t) ==> t.wf() && all_normalized(t@) && count_all(t@) <= MAX_REGION)
        &&& (self.k_work matches Some(w) ==> w.wf())
        &&& (self.contig_ix matches Some(i) ==> (self.targets matches Some(t) && i < t@.len()))
        &&& self.gap <= self.cur@.len()
        &&& (appending(self.state) ==> self.cur@.len() > 0)
        &&& (self.state == RdrState::InSeq || self.state == RdrState::InSeqAfterNewLine ==> self.gap == 0)
        &&& (self.targets.is_none() ==> trimmed(self.cur@, self.gap as int))
        &&& (outside_sequence(self.state) ==> self.cur@.len() == 0 && self.gap == 0)
        &&& (self.state == RdrState::InLongGap || self.state == RdrState::InLongGapAfterNewLine ==> self.gap == 0)
        &&& (self.in_untargeted_contig() ==> forall|i: int| 0 <= i < self.cur@.len() ==> #[trigger] self.cur@[i] == Base::N)
        &&& (self.targets.is_none() ==> short_gaps(self.cur@.subrange(0, self.cur@.len() - self.gap), cut_len(self.max_read_length)))
        &&& (self.state == RdrState::StartGap ==> self.gap == 1)
        &&& (self.state == RdrState::InGapAfterNewLine ==> self.gap < cut_len(self.max_read_length))
    }

    /// A reader at the start of the input. Sequences are cut at gaps of
    /// `max_read_length` bases or more. With a catalogue of target regions,
    /// bases off target are handed out as `N` and the k-mers are indexed.
    pub fn new(max_read_length: u32, target_regions: Option<Regions>) -> (r: Rdr)
        requires
            target_regions matches Some(t) ==> t.wf() && all_normalized(t@) && count_all(t@) <= MAX_REGION,
        ensures
            r.wf(),
            r.spec_state() == RdrState::Start,
            r.has_targets() == target_regions.is_some(),
            r.spec_cut_len() == cut_len(max_read_length),
            r.model() == (RdrModel {
                state: RdrState::Start,
                seq_id: Seq::empty(),
                max_read_length,
                pos: 0,
                targets: match target_regions {
                    Some(t) => Some(t@),
                    None => None,
                },
                contig: None,
                cur: Seq::empty(),
                gap: 0,
            }),
    {
        let k_work = if target_regions.is_some() {
            Some(KmerWork::new())
        } else {
            None
        };
        let r = Rdr {
            state: RdrState::Start,
            seq_id: Vec::new(),
            max_read_length,
            pos: 0,
            targets: target_regions,
            contig_ix: None,
            k_work,
            kmer_build: KmerBuilder::new(),
            cur: Vec::new(),
            gap: 0,
        };
        proof {
            assert(r.cur@.subrange(0, 0) =~= Seq::<Base>::empty());
        }
        r
    }

    /// The k-mer index built so far (with a catalogue of target regions).
    pub fn k_work(&self) -> (r: Option<&KmerWork>)
        requires
            self.wf(),
        ensures
            r.is_some() == self.has_targets(),
            r matches Some(w) ==> w.wf(),
    {
        match &self.k_work {
            Some(w) => Some(w),
            None => None,
        }
    }

    /// The catalogue of target regions, if any.
    pub fn targets(&self) -> (r: Option<&Regions>)
        requires
            self.wf(),
        ensures
            r.is_some() == self.has_targets(),
            r matches Some(t) ==> t.wf() && all_normalized(t@) && count_all(t@) <= MAX_REGION,
    {
        match &self.targets {
            Some(t) => Some(t),
            None => None,
        }
    }

    /// The region of the current position, where there is a catalogue.
    fn check_pos(&self) -> (r: Option<u32>)
        requires
            self.wf(),
        ensures
            r matches Some(x) ==> 1 <= x <= MAX_REGION,
            self.targets.is_none() ==> r.is_none(),
            self.in_untargeted_contig() ==> r.is_none(),
            r == tag_of(self.model()),
    {
        match &self.targets {
            Some(t) => match self.contig_ix {
                Some(ci) => {
                    let cr = t.contig_at(ci);
                    proof {
                        lemma_normalized_ids(t@);
                        assert(crate::regions::normalized_from(t@[ci as int].1, crate::regions::count_prefix(t@, ci as int) + 1));
                    }
                    let r = cr.region_at(self.pos);
                    proof {
                        if r.is_some() {
                            let i = choose|i: int| 0 <= i < cr@.len() && (#[trigger] cr@[i]).contains(self.pos as int)
                                && cr@[i].spec_idx() == r.unwrap();
                            assert(t@[ci as int].1[i] == cr@[i]);
                        }
                    }
                    r
                },
                None => None,
            },
            None => None,
        }
    }

    /// Appends the base of byte `c` (as `N` where it is off target) and feeds
    /// the k-mer builder and index.
    fn push_base(&mut self, c: u8, idx: Option<u32>)
        requires
            old(self).wf(),
            idx matches Some(x) ==> 1 <= x <= MAX_REGION,
            old(self).targets.is_none() ==> idx.is_none(),
            old(self).targets.is_none() && old(self).cur@.len() == old(self).gap ==> !Base::spec_from_u8(c).spec_is_gap(),
            old(self).targets.is_none() && !Base::spec_from_u8(c).spec_is_gap() ==> old(self).gap < cut_len(old(self).max_read_length),
        ensures
            final(self).targets == old(self).targets,
            final(self).contig_ix == old(self).contig_ix,
            final(self).state == old(self).state,
            final(self).pos == old(self).pos,
            final(self).seq_id == old(self).seq_id,
            final(self).max_read_length == old(self).max_read_length,
            final(self).k_work.is_some() == old(self).k_work.is_some(),
            final(self).kmer_build.wf(),
            forall|i: int| 0 <= i < final(self).kmer_build.tags().len() ==>
                (#[trigger] final(self).kmer_build.tags()[i] matches Some(x) ==> 1 <= x <= MAX_REGION),
            (final(self).k_work matches Some(w) ==> w.wf()),
            final(self).cur@.len() == old(self).cur@.len() + 1,
            final(self).gap <= final(self).cur@.len(),
            Base::spec_from_u8(c).spec_is_gap() ==> final(self).gap == old(self).gap + 1,
            !Base::spec_from_u8(c).spec_is_gap() ==> final(self).gap == 0,
            old(self).targets.is_none() ==> trimmed(final(self).cur@, final(self).gap as int),
            final(self).cur@ == old(self).cur@.push(if old(self).targets.is_none() || idx.is_some() { Base::spec_from_u8(c) } else { Base::N }),
            old(self).targets.is_none() ==> short_gaps(final(self).cur@.subrange(0, final(self).cur@.len() - final(self).gap), cut_len(old(self).max_read_length)),
            final(self).model() == model_push(old(self).model(), c, idx),
    {
        let b = Base::from_u8(c);
        let stored = if self.targets.is_none() || idx.is_some() {
            b
        } else {
            Base::N
        };
        let ghost old_cur = self.cur@;
        self.cur.push(stored);
        let n = self.cur.len();
        assert(self.gap < n);
        if b.is_gap() {
            self.gap = self.gap + 1;
        } else {
            self.gap = 0;
        }
        proof {
            if self.targets.is_none() {
                assert(stored == b);
                let cur = self.cur@;
                assert(cur[cur.len() - 1] == b);
                assert forall|i: int| cur.len() - self.gap <= i < cur.len() implies (#[trigger] cur[i]).spec_is_gap() by {
                    if i < cur.len() - 1 {
                        assert(cur[i] == old_cur[i]);
                    }
                }
                if cur.len() > self.gap {
                    if self.gap > 0 {
                        assert(cur[cur.len() - self.gap - 1] == old_cur[old_cur.len() - (self.gap - 1) - 1]);
                    }
                }
                if cur.len() > 1 {
                    assert(cur[0] == old_cur[0]);
                }
            }
        }
        proof {
            if self.targets.is_none() {
                let t = cut_len(self.max_read_length);
                let oc = old_cur;
                let og = old(self).gap as int;
                let nc = self.cur@;
                let ng = self.gap as int;
                assert(nc.subrange(0, oc.len() as int) == oc);
                if b.spec_is_gap() {
                    assert(nc.subrange(0, nc.len() - ng) == oc.subrange(0, oc.len() - og));
                } else {
                    let pre = oc.subrange(0, oc.len() - og);
                    assert(nc.subrange(0, nc.len() - ng) == nc);
                    assert forall|i: int| 0 <= i < nc.len() implies #[trigger] run_before(nc, i) < t by {
                        if i < oc.len() {
                            lemma_run_prefix(nc, oc.len() as int, i);
                            if i < oc.len() - og {
                                lemma_run_prefix(oc, oc.len() - og, i);
                                assert(run_before(pre, i) < t);
                            } else {
                                lemma_run_trailing(oc, og, i);
                            }
                        }
                    }
                }
            }
        }
        self.kmer_build.add_base(b, idx);
        match self.kmer_build.kmers() {
            Some((f, r)) => {
                let t = self.kmer_build.target_idx();
                if let Some(kw) = &mut self.k_work {
                    kw.add_kmer(f, t);
                    kw.add_kmer(r, t);
                }
            },
            None => {},
        }
    }

    /// Moves the position on by one base.
    fn advance(&mut self) -> (r: Result<(), FastaError>)
        ensures
            final(self).state == old(self).state,
            final(self).cur == old(self).cur,
            final(self).gap == old(self).gap,
            final(self).targets == old(self).targets,
            final(self).contig_ix == old(self).contig_ix,
            final(self).k_work == old(self).k_work,
            final(self).kmer_build == old(self).kmer_build,
            final(self).seq_id == old(self).seq_id,
            final(self).max_read_length == old(self).max_read_length,
            r.is_ok() ==> final(self).pos == old(self).pos + 1,
            r.is_err() ==> r == Err::<(), FastaError>(FastaError::ContigTooLong),
            r.is_err() <==> old(self).pos == u32::MAX,
    {
        if self.pos == u32::MAX {
            return Err(FastaError::ContigTooLong);
        }
        self.pos = self.pos + 1;
        Ok(())
    }

    /// A byte inside a sequence or a short gap: bases are appended.
    fn gen_append(&mut self, c: u8, s1: RdrState, s2: RdrState, s3: RdrState) -> (r: Result<(), FastaError>)
        requires
            old(self).wf(),
            old(self).targets.is_none() && old(self).cur@.len() == old(self).gap ==> !Base::spec_from_u8(c).spec_is_gap(),
            appending(s1) && appending(s2) && appending(s3),
            s2 != RdrState::InSeq && s2 != RdrState::InSeqAfterNewLine,
            s3 == RdrState::InSeq,
            s1 != RdrState::InSeq,
            s1 == RdrState::InSeqAfterNewLine ==> old(self).gap == 0,
            !appending(old(self).state) ==> is_graphic(c) && !Base::spec_from_u8(c).spec_is_gap(),
            !Base::spec_from_u8(c).spec_is_gap() ==> old(self).gap < cut_len(old(self).max_read_length),
            s2 == RdrState::StartGap ==> old(self).gap == 0,
            s1 != RdrState::StartGap,
            s2 != RdrState::InGapAfterNewLine,
            s1 == RdrState::InGapAfterNewLine ==> old(self).gap < cut_len(old(self).max_read_length),
        ensures
            final(self).max_read_length == old(self).max_read_length,
            r.is_ok() ==> final(self).wf(),
            final(self).targets == old(self).targets,
            r.is_err() ==> r == Err::<(), FastaError>(FastaError::IllegalSequenceChar) || r == Err::<(), FastaError>(FastaError::ContigTooLong),
            match r {
                Ok(_) => model_gen(old(self).model(), c, s1, s2, s3) == Ok::<RdrModel, FastaError>(final(self).model()),
                Err(e) => model_gen(old(self).model(), c, s1, s2, s3) == Err::<RdrModel, FastaError>(e),
            },
    {
        let idx = self.check_pos();
        let (st, is_base) = proc_in_gen(c, s1, s2, s3)?;
        if is_base {
            self.advance()?;
            self.push_base(c, idx);
        }
        self.state = st;
        Ok(())
    }

    /// A byte inside a long gap: gap bases only move the position on; a
    /// base ends the current sequence and is read again at the start of
    /// the next one.
    fn long_gap(&mut self, c: u8) -> (r: Result<Step, FastaError>)
        requires
            old(self).wf(),
            old(self).gap == 0,
            old(self).state != RdrState::StartSeq,
        ensures
            final(self).max_read_length == old(self).max_read_length,
            r == Ok::<Step, FastaError>(Step::Next) ==> final(self).wf(),
            final(self).targets == old(self).targets,
            final(self).cur == old(self).cur,
            r == Ok::<Step, FastaError>(Step::EmitAgain) ==> *final(self) == *old(self),
            r == Ok::<Step, FastaError>(Step::Next) ==> !appending(final(self).state),
            r != Ok::<Step, FastaError>(Step::Emit),
            r.is_err() ==> r == Err::<Step, FastaError>(FastaError::IllegalSequenceChar) || r == Err::<Step, FastaError>(FastaError::ContigTooLong),
            match r {
                Ok(Step::EmitAgain) => model_long_gap(old(self).model(), c) == Ok::<(bool, RdrModel), FastaError>((true, old(self).model())),
                Ok(_) => model_long_gap(old(self).model(), c) == Ok::<(bool, RdrModel), FastaError>((false, final(self).model())),
                Err(e) => model_long_gap(old(self).model(), c) == Err::<(bool, RdrModel), FastaError>(e),
            },
    {
        let (st, is_base) = proc_in_gen(c, RdrState::InLongGapAfterNewLine, RdrState::InLongGap, RdrState::StartSeq)?;
        if st == RdrState::StartSeq {
            return Ok(Step::EmitAgain);
        }
        if is_base {
            self.advance()?;
        }
        self.state = st;
        Ok(Step::Next)
    }

    /// A byte before the first base of a sequence: leading gaps only move
    /// the position on; the first base starts the sequence.
    fn start_seq(&mut self, c: u8) -> (r: Result<Step, FastaError>)
        requires
            old(self).wf(),
            !appending(old(self).state),
            old(self).cur@.len() == 0,
            old(self).gap == 0,
        ensures
            final(self).max_read_length == old(self).max_read_length,
            r.is_ok() ==> final(self).wf(),
            final(self).targets == old(self).targets,
            r.is_ok() ==> r == Ok::<Step, FastaError>(Step::Next),
            r.is_err() ==> r == Err::<Step, FastaError>(FastaError::IllegalSequenceChar) || r == Err::<Step, FastaError>(FastaError::ContigTooLong),
            match r {
                Ok(_) => model_start_seq(old(self).model(), c) == Ok::<RdrModel, FastaError>(final(self).model()),
                Err(e) => model_start_seq(old(self).model(), c) == Err::<RdrModel, FastaError>(e),
            },
    {
        if c == 10 {
            self.state = RdrState::StartSeqAfterNewLine;
            return Ok(Step::Next);
        }
        if !(0x21 <= c && c <= 0x7e) {
            return Err(FastaError::IllegalSequenceChar);
        }
        let b = Base::from_u8(c);
        if b.is_gap() {
            self.advance()?;
            self.state = RdrState::StartSeq;
        } else {
            self.gen_append(c, RdrState::InSeqAfterNewLine, RdrState::StartGap, RdrState::InSeq)?;
        }
        Ok(Step::Next)
    }

    /// Cuts the name at its first space or tab.
    fn trim_id(&mut self)
        ensures
            final(self).max_read_length == old(self).max_read_length,
            final(self).seq_id@.len() <= old(self).seq_id@.len(),
            final(self).seq_id@ == old(self).seq_id@.subrange(0, final(self).seq_id@.len() as int),
            forall|i: int| 0 <= i < final(self).seq_id@.len() ==> #[trigger] final(self).seq_id@[i] != 32 && final(self).seq_id@[i] != 9,
            final(self).seq_id@.len() < old(self).seq_id@.len() ==> (old(self).seq_id@[final(self).seq_id@.len() as int] == 32
                || old(self).seq_id@[final(self).seq_id@.len() as int] == 9),
            final(self).state == old(self).state,
            final(self).cur == old(self).cur,
            final(self).gap == old(self).gap,
            final(self).targets == old(self).targets,
            final(self).contig_ix == old(self).contig_ix,
            final(self).k_work == old(self).k_work,
            final(self).kmer_build == old(self).kmer_build,
            final(self).pos == old(self).pos,
            final(self).seq_id@ == old(self).seq_id@.subrange(0, name_end(old(self).seq_id@, 0)),
    {
        let mut i: usize = 0;
        while i < self.seq_id.len() && self.seq_id[i] != 32 && self.seq_id[i] != 9
            invariant
                name_end(self.seq_id@, i as int) == name_end(self.seq_id@, 0),
                i <= self.seq_id@.len(),
                forall|j: int| 0 <= j < i ==> #[trigger] self.seq_id@[j] != 32 && self.seq_id@[j] != 9,
            decreases self.seq_id@.len() - i,
        {
            i = i + 1;
        }
        self.seq_id.truncate(i);
    }

    /// The name line has ended: find the contig's regions, forget the k-mer
    /// state of the last contig and start at position 0.
    fn new_contig(&mut self)
        requires
            old(self).wf(),
            old(self).cur@.len() == 0,
        ensures
            final(self).max_read_length == old(self).max_read_length,
            final(self).wf(),
            final(self).state == old(self).state,
            final(self).cur == old(self).cur,
            final(self).gap == old(self).gap,
            final(self).targets == old(self).targets,
            final(self).pos == 0,
            final(self).seq_id@ == old(self).seq_id@.subrange(0, name_end(old(self).seq_id@, 0)),
            final(self).contig_ix == match old(self).targets {
                Some(t) => contig_of(t@, final(self).seq_id@),
                None => None,
            },
    {
        self.trim_id();
        self.contig_ix = match &self.targets {
            Some(t) => t.find(self.seq_id.as_slice()),
            None => None,
        };
        self.kmer_build.clear();
        self.pos = 0;
    }

    /// A byte of a sequence name.
    fn in_seq_id(&mut self, c: u8) -> (r: Result<Step, FastaError>)
        requires
            old(self).wf(),
            !appending(old(self).state),
            old(self).cur@.len() == 0,
            old(self).gap == 0,
        ensures
            final(self).max_read_length == old(self).max_read_length,
            r.is_ok() ==> final(self).wf(),
            final(self).targets == old(self).targets,
            final(self).cur == old(self).cur,
            r.is_ok() ==> r == Ok::<Step, FastaError>(Step::Next),
            r.is_err() ==> r == Err::<Step, FastaError>(FastaError::IllegalNameChar),
            r.is_err() <==> (c != 10 && !is_name_byte(c)),
            match r {
                Ok(_) => model_name(old(self).model(), c) == Ok::<RdrModel, FastaError>(final(self).model()),
                Err(e) => model_name(old(self).model(), c) == Err::<RdrModel, FastaError>(e),
            },
    {
        if c == 10 {
            self.new_contig();
            self.state = RdrState::StartSeq;
            Ok(Step::Next)
        } else if c == 9 || (0x20 <= c && c <= 0x7e) {
            self.seq_id.push(c);
            self.state = RdrState::InSeqId;
            Ok(Step::Next)
        } else {
            Err(FastaError::IllegalNameChar)
        }
    }

    /// Ends the current sequence: drops its trailing gap bases and hands it
    /// out where it is not empty.
    fn take_seq(&mut self) -> (r: Option<Sequence>)
        requires
            old(self).gap <= old(self).cur@.len(),
            old(self).targets.is_none() ==> trimmed(old(self).cur@, old(self).gap as int),
        ensures
            final(self).cur@.len() == 0,
            final(self).gap == 0,
            final(self).state == old(self).state,
            final(self).seq_id == old(self).seq_id,
            final(self).max_read_length == old(self).max_read_length,
            final(self).pos == old(self).pos,
            final(self).targets == old(self).targets,
            final(self).contig_ix == old(self).contig_ix,
            final(self).k_work == old(self).k_work,
            final(self).kmer_build == old(self).kmer_build,
            r matches Some(s) ==> s@ == old(self).cur@.subrange(0, old(self).cur@.len() - old(self).gap),
            r.is_none() <==> old(self).cur@.len() == old(self).gap,
            old(self).targets.is_none() ==> (r matches Some(s) ==> !s@[0].spec_is_gap() && !s@.last().spec_is_gap()),
            model_take(old(self).model()) == (seq_view(r), final(self).model()),
    {
        let n = self.cur.len() - self.gap;
        self.cur.truncate(n);
        self.gap = 0;
        let mut v: Vec<Base> = Vec::new();
        std::mem::swap(&mut v, &mut self.cur);
        if v.len() == 0 {
            None
        } else {
            Some(Sequence(v))
        }
    }

    /// Reads one byte. Returns whether the byte was used (else it is read
    /// again) and the sequence that it ended, if any.
    fn step(&mut self, c: u8) -> (r: Result<(bool, Option<Sequence>), FastaError>)
        requires
            old(self).wf(),
        ensures
            r.is_ok() ==> final(self).wf(),
            final(self).targets == old(self).targets,
            r matches Ok((used, _)) ==> (used || (old(self).state != RdrState::StartSeq && final(self).state == RdrState::StartSeq)),
            r matches Ok((_, Some(s))) ==> s@.len() > 0,
            old(self).targets.is_none() ==> (r matches Ok((_, Some(s))) ==> !s@[0].spec_is_gap() && !s@.last().spec_is_gap()),
            final(self).in_untargeted_contig() ==> (r matches Ok((_, Some(s))) ==> forall|i: int| 0 <= i < s@.len() ==> #[trigger] s@[i] == Base::N),
            final(self).max_read_length == old(self).max_read_length,
            old(self).targets.is_none() ==> (r matches Ok((_, Some(s))) ==> short_gaps(s@, cut_len(old(self).max_read_length))),
            match r {
                Ok((u, s)) => model_step(old(self).model(), c) == Ok::<(bool, Option<Seq<Base>>, RdrModel), FastaError>((u, seq_view(s), final(self).model())),
                Err(e) => model_step(old(self).model(), c) == Err::<(bool, Option<Seq<Base>>, RdrModel), FastaError>(e),
            },
    {
        proof {
            if self.targets.is_none() && self.cur@.len() > 0 {
                assert(!self.cur@[0].spec_is_gap());
                assert(self.gap < self.cur@.len());
            }
        }
        match self.state {
            RdrState::Start => {
                self.state = proc_start(c)?;
                Ok((true, None))
            },
            RdrState::StartSeqId => {
                self.seq_id.clear();
                self.in_seq_id(c)?;
                Ok((true, None))
            },
            RdrState::InSeqId => {
                self.in_seq_id(c)?;
                Ok((true, None))
            },
            RdrState::StartSeqAfterNewLine => {
                if c == 62 {
                    self.state = RdrState::StartSeqId;
                } else {
                    self.start_seq(c)?;
                }
                Ok((true, None))
            },
            RdrState::StartSeq => {
                self.start_seq(c)?;
                Ok((true, None))
            },
            RdrState::InSeq => {
                self.gen_append(c, RdrState::InSeqAfterNewLine, RdrState::StartGap, RdrState::InSeq)?;
                Ok((true, None))
            },
            RdrState::InSeqAfterNewLine => {
                if c == 62 {
                    let s = self.take_seq();
                    self.state = RdrState::StartSeqId;
                    Ok((true, s))
                } else {
                    self.gen_append(c, RdrState::InSeqAfterNewLine, RdrState::StartGap, RdrState::InSeq)?;
                    Ok((true, None))
                }
            },
            RdrState::StartGap | RdrState::InGap => {
                if self.gap as u64 >= self.max_read_length as u64 {
                    let n = self.cur.len() - self.gap;
                    let ghost c0 = self.cur@;
                    self.cur.truncate(n);
                    self.gap = 0;
                    self.state = RdrState::InLongGap;
                    proof {
                        assert(self.cur@.subrange(0, self.cur@.len() as int) == c0.subrange(0, n as int));
                        if self.targets.is_none() {
                            assert forall|i: int| self.cur@.len() - self.gap <= i < self.cur@.len() implies (#[trigger] self.cur@[i]).spec_is_gap() by {}
                        }
                    }
                    self.long_gap_step(c)
                } else {
                    self.gen_append(c, RdrState::InGapAfterNewLine, RdrState::InGap, RdrState::InSeq)?;
                    Ok((true, None))
                }
            },
            RdrState::InGapAfterNewLine => {
                if c == 62 {
                    let s = self.take_seq();
                    self.state = RdrState::StartSeqId;
                    Ok((true, s))
                } else {
                    self.gen_append(c, RdrState::InGapAfterNewLine, RdrState::InGap, RdrState::InSeq)?;
                    Ok((true, None))
                }
            },
            RdrState::InLongGap => self.long_gap_step(c),
            RdrState::InLongGapAfterNewLine => {
                if c == 62 {
                    let s = self.take_seq();
                    self.state = RdrState::StartSeqId;
                    Ok((true, s))
                } else {
                    self.long_gap_step(c)
                }
            },
        }
    }

    /// A byte in a long gap, with the sequence that it ends, if any.
    fn long_gap_step(&mut self, c: u8) -> (r: Result<(bool, Option<Sequence>), FastaError>)
        requires
            old(self).wf(),
            old(self).state == RdrState::InLongGap || old(self).state == RdrState::InLongGapAfterNewLine,
        ensures
            r.is_ok() ==> final(self).wf(),
            final(self).targets == old(self).targets,
            r matches Ok((used, _)) ==> (used || final(self).state == RdrState::StartSeq),
            r matches Ok((_, Some(s))) ==> s@.len() > 0,
            old(self).targets.is_none() ==> (r matches Ok((_, Some(s))) ==> !s@[0].spec_is_gap() && !s@.last().spec_is_gap()),
            final(self).in_untargeted_contig() ==> (r matches Ok((_, Some(s))) ==> forall|i: int| 0 <= i < s@.len() ==> #[trigger] s@[i] == Base::N),
            final(self).max_read_length == old(self).max_read_length,
            old(self).targets.is_none() ==> (r matches Ok((_, Some(s))) ==> short_gaps(s@, cut_len(old(self).max_read_length))),
            match r {
                Ok((u, s)) => model_long_gap_step(old(self).model(), c) == Ok::<(bool, Option<Seq<Base>>, RdrModel), FastaError>((u, seq_view(s), final(self).model())),
                Err(e) => model_long_gap_step(old(self).model(), c) == Err::<(bool, Option<Seq<Base>>, RdrModel), FastaError>(e),
            },
    {
        match self.long_gap(c)? {
            Step::EmitAgain => {
                let s = self.take_seq();
                self.state = RdrState::StartSeq;
                Ok((false, s))
            },
            _ => Ok((true, None)),
        }
    }

    /// Reads the input from the start of `buf` until a sequence ends or the
    /// buffer is used up. Returns how many bytes of `buf` were used and the
    /// sequence, if one ended. An empty buffer marks the end of the input
    /// and hands out the last sequence.
    pub fn get_seq(&mut self, buf: &[u8]) -> (r: Result<(usize, Option<Sequence>), FastaError>)
        requires
            old(self).wf(),
        ensures
            r.is_ok() ==> final(self).wf(),
            final(self).has_targets() == old(self).has_targets(),
            r matches Ok((used, s)) ==> used <= buf@.len(),
            r matches Ok((used, None)) ==> used == buf@.len(),
            r matches Ok((_, Some(s))) ==> s@.len() > 0,
            !old(self).has_targets() ==> (r matches Ok((_, Some(s))) ==> !s@[0].spec_is_gap() && !s@.last().spec_is_gap()),
            r is Ok && final(self).in_untargeted_contig() ==> (r matches Ok((_, Some(s))) ==> forall|i: int| 0 <= i < s@.len() ==> #[trigger] s@[i] == Base::N),
            final(self).spec_cut_len() == old(self).spec_cut_len(),
            !old(self).has_targets() ==> (r matches Ok((_, Some(s))) ==> short_gaps(s@, old(self).spec_cut_len())),
            match r {
                Ok((u, s)) => model_get_seq(old(self).model(), buf@) == Ok::<(int, Option<Seq<Base>>, RdrModel), FastaError>((u as int, seq_view(s), final(self).model())),
                Err(e) => model_get_seq(old(self).model(), buf@) == Err::<(int, Option<Seq<Base>>, RdrModel), FastaError>(e),
            },
    {
        if buf.len() == 0 {
            let s = self.take_seq();
            self.state = RdrState::StartSeq;
            return Ok((0, s));
        }
        let mut i: usize = 0;
        let ghost mut fuel: nat = (2 * buf@.len() + 1) as nat;
        while i < buf.len()
            invariant
                self.wf(),
                i <= buf@.len(),
                self.targets.is_some() == old(self).targets.is_some(),
                self.max_read_length == old(self).max_read_length,
                buf@.len() > 0,
                fuel >= 2 * (buf@.len() - i) + if self.state == RdrState::StartSeq { 0int } else { 1int },
                model_get_seq(old(self).model(), buf@) == model_scan(self.model(), buf@, i as int, fuel),
            decreases 2 * (buf@.len() - i) + if self.state == RdrState::StartSeq { 0int } else { 1int },
        {
            proof {
                fuel = (fuel - 1) as nat;
            }
            let (used, s) = self.step(buf[i])?;
            if used {
                i = i + 1;
            }
            if s.is_some() {
                return Ok((i, s));
            }
        }
        Ok((buf.len(), None))
    }
}

} // verus!
