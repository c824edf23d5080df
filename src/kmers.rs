//! The k-mer catalogue: a rolling k-mer builder and a dense index of the
//! regions in which each k-mer was seen.
use vstd::prelude::*;
use crate::base::Base;

verus! {

/// The length of a k-mer.
pub const KMER_LENGTH: usize = 15;

/// The number of hits a k-mer keeps before it is marked as highly redundant.
pub const MAX_HITS: usize = 8;

/// The number of distinct k-mers, 4 to the power `KMER_LENGTH`.
pub const N_KMERS: usize = 0x4000_0000;

/// The mark, in slot 0, of a k-mer with more than `MAX_HITS` hits.
pub const HIGH_MULTI: u32 = 0x8000_0000;

/// The largest region identifier that the index can hold.
pub const MAX_REGION: u32 = 0x7fff_fffe;

/// The hits of one k-mer: 0 is an empty slot, 1 an off-target hit, and
/// `idx + 1` a hit in region `idx`.
pub type KmerVec = [u32; 8];

/// 1 where `x` is not zero.
pub open spec fn nz(x: u32) -> int {
    if x != 0 { 1 } else { 0 }
}

/// The number of filled slots.
pub open spec fn n_filled(v: KmerVec) -> int {
    nz(v[0]) + nz(v[1]) + nz(v[2]) + nz(v[3]) + nz(v[4]) + nz(v[5]) + nz(v[6]) + nz(v[7])
}

pub open spec fn is_empty_vec(v: KmerVec) -> bool {
    forall|i: int| 0 <= i < 8 ==> v[i] == 0
}

/// The high-multiplicity mark: `HIGH_MULTI` in slot 0, all other slots empty.
pub open spec fn is_high_multi(v: KmerVec) -> bool {
    v[0] == HIGH_MULTI && forall|i: int| 1 <= i < 8 ==> v[i] == 0
}

/// The first `n` slots hold distinct hits (non-zero, high bit clear), the
/// others are empty.
pub open spec fn listed(v: KmerVec, n: int) -> bool {
    &&& 0 <= n <= 8
    &&& forall|i: int| 0 <= i < n ==> 0 < #[trigger] v[i] < HIGH_MULTI
    &&& forall|i: int| n <= i < 8 ==> #[trigger] v[i] == 0
    &&& forall|i: int, j: int| 0 <= i < j < n ==> #[trigger] v[i] != #[trigger] v[j]
}

/// A well-formed slot: empty, the high-multiplicity mark, or a list of
/// distinct hits padded with zeros.
pub open spec fn slot_ok(v: KmerVec) -> bool {
    is_high_multi(v) || listed(v, n_filled(v))
}

/// Whether the slot holds the value `x`.
pub open spec fn holds(v: KmerVec, x: u32) -> bool {
    v[0] == x || v[1] == x || v[2] == x || v[3] == x || v[4] == x || v[5] == x || v[6] == x
        || v[7] == x
}

/// What adding a hit with value `x` does to a well-formed slot: nothing
/// where the slot is marked or holds `x` already, else `x` goes to the first
/// empty slot, and where there is none the slot becomes the mark.
pub open spec fn slot_after(v: KmerVec, x: u32) -> Seq<u32> {
    if is_high_multi(v) || holds(v, x) {
        v@
    } else if n_filled(v) < 8 {
        v@.update(n_filled(v), x)
    } else {
        seq![HIGH_MULTI, 0, 0, 0, 0, 0, 0, 0]
    }
}

/// 1 for a mapped (non-empty) slot.
pub open spec fn mapped_of(v: KmerVec) -> int {
    if v[0] != 0 { 1 } else { 0 }
}

/// A hit in a target region.
pub open spec fn on_hit(x: u32) -> bool {
    2 <= x < HIGH_MULTI
}

/// 1 for a slot with an on-target hit, or marked as highly redundant.
pub open spec fn on_target_of(v: KmerVec) -> int {
    if is_high_multi(v) || on_hit(v[0]) || on_hit(v[1]) || on_hit(v[2]) || on_hit(v[3])
        || on_hit(v[4]) || on_hit(v[5]) || on_hit(v[6]) || on_hit(v[7]) {
        1
    } else {
        0
    }
}

/// 1 for a slot marked as highly redundant.
pub open spec fn redundant_of(v: KmerVec) -> int {
    if is_high_multi(v) { 1 } else { 0 }
}

/// The hits that a slot counts towards the total.
pub open spec fn hits_of(v: KmerVec) -> int {
    if is_high_multi(v) { 0 } else { n_filled(v) }
}

/// The sum of `f` over the first `n` slots of `s`.
pub open spec fn sum_by(s: Seq<KmerVec>, f: spec_fn(KmerVec) -> int, n: int) -> int
    decreases n,
{
    if n <= 0 || n > s.len() {
        0
    } else {
        sum_by(s, f, n - 1) + f(s[n - 1])
    }
}

/// The sum of `f` over all slots of `s`.
pub open spec fn total_by(s: Seq<KmerVec>, f: spec_fn(KmerVec) -> int) -> int {
    sum_by(s, f, s.len() as int)
}

proof fn lemma_sum_update(s: Seq<KmerVec>, f: spec_fn(KmerVec) -> int, n: int, k: int, x: KmerVec)
    requires
        0 <= k < s.len(),
        0 <= n <= s.len(),
    ensures
        sum_by(s.update(k, x), f, n) == sum_by(s, f, n) + if k < n { f(x) - f(s[k]) } else { 0 },
    decreases n,
{
    if n > 0 {
        lemma_sum_update(s, f, n - 1, k, x);
    }
}

proof fn lemma_sum_bounds(s: Seq<KmerVec>, f: spec_fn(KmerVec) -> int, n: int, c: int)
    requires
        0 <= n <= s.len(),
        forall|i: int| 0 <= i < s.len() ==> 0 <= #[trigger] f(s[i]) <= c,
    ensures
        0 <= sum_by(s, f, n) <= c * n,
    decreases n,
{
    if n > 0 {
        lemma_sum_bounds(s, f, n - 1, c);
        assert(0 <= f(s[n - 1]) <= c);
        assert(c * (n - 1) + c == c * n) by (nonlinear_arith);
    } else {
        assert(c * n == 0) by (nonlinear_arith)
            requires
                n == 0,
        ;
    }
}

proof fn lemma_sum_covers(s: Seq<KmerVec>, f: spec_fn(KmerVec) -> int, g: spec_fn(KmerVec) -> int, h: spec_fn(KmerVec) -> int, n: int)
    requires
        0 <= n <= s.len(),
        forall|i: int| 0 <= i < s.len() ==> #[trigger] h(s[i]) <= f(s[i]) + g(s[i]),
    ensures
        sum_by(s, h, n) <= sum_by(s, f, n) + sum_by(s, g, n),
    decreases n,
{
    if n > 0 {
        lemma_sum_covers(s, f, g, h, n - 1);
        assert(h(s[n - 1]) <= f(s[n - 1]) + g(s[n - 1]));
    }
}

proof fn lemma_sum_zero(s: Seq<KmerVec>, f: spec_fn(KmerVec) -> int, n: int)
    requires
        0 <= n <= s.len(),
        forall|i: int| 0 <= i < s.len() ==> #[trigger] f(s[i]) == 0,
    ensures
        sum_by(s, f, n) == 0,
    decreases n,
{
    if n > 0 {
        lemma_sum_zero(s, f, n - 1);
        assert(f(s[n - 1]) == 0);
    }
}

/// The slot with `x` in it is at least `f` of that slot.
proof fn lemma_sum_at_least(s: Seq<KmerVec>, f: spec_fn(KmerVec) -> int, k: int, c: int, z: KmerVec)
    requires
        0 <= k < s.len(),
        forall|i: int| 0 <= i < s.len() ==> 0 <= #[trigger] f(s[i]) <= c,
        f(z) == 0,
        c >= 0,
    ensures
        total_by(s, f) >= f(s[k]),
{
    lemma_sum_update(s, f, s.len() as int, k, z);
    let t = s.update(k, z);
    assert(t.len() == s.len());
    assert forall|i: int| 0 <= i < t.len() implies 0 <= #[trigger] f(t[i]) <= c by {
        if i != k {
            assert(t[i] == s[i]);
        }
    }
    lemma_sum_bounds(t, f, t.len() as int, c);
}

/// An empty slot.
pub open spec fn zero_vec() -> KmerVec {
    [0u32, 0, 0, 0, 0, 0, 0, 0]
}

/// The table of an index that has seen nothing.
pub open spec fn empty_table() -> Seq<KmerVec> {
    Seq::new(N_KMERS as nat, |i: int| zero_vec())
}

/// A table of empty slots, one per k-mer.
fn allocate_table() -> (r: Vec<KmerVec>)
    ensures
        r@ == empty_table(),
{
    let z: KmerVec = [0u32; 8];
    let kmers = vec![z; N_KMERS];
    proof {
        assert forall|i: int| 0 <= i < kmers@.len() implies #[trigger] kmers@[i] == zero_vec() by {
            assert(cloned(z, kmers@[i]));
            assert(kmers@[i]@ =~= z@);
            assert(z@ =~= zero_vec()@);
        }
        assert(kmers@ =~= empty_table());
    }
    kmers
}

/// The k-mer index: for every k-mer, the regions in which it was seen, with
/// running counts over the whole table.
pub struct KmerWork {
    kmers: Vec<KmerVec>,
    on_target_kmers: u64,
    mapped_kmers: u64,
    highly_redundant_kmers: u64,
    total_hits: u64,
}

impl KmerWork {
    /// The slots, indexed by k-mer.
    pub closed spec fn table(&self) -> Seq<KmerVec> {
        if self.kmers@.len() == 0 {
            empty_table()
        } else {
            self.kmers@
        }
    }

    pub closed spec fn spec_mapped(&self) -> u64 {
        self.mapped_kmers
    }

    pub closed spec fn spec_on_target(&self) -> u64 {
        self.on_target_kmers
    }

    pub closed spec fn spec_redundant(&self) -> u64 {
        self.highly_redundant_kmers
    }

    /// The filled slots of the k-mers that are not marked.
    pub closed spec fn spec_hits(&self) -> u64 {
        self.total_hits
    }

    /// The table is not allocated yet, or holds one slot per k-mer.
    pub closed spec fn allocated_ok(&self) -> bool {
        self.kmers@.len() == 0 || self.kmers@.len() == N_KMERS
    }

    /// One well-formed slot per k-mer, and each count equal to what the
    /// table holds.
    pub open spec fn wf(&self) -> bool {
        &&& self.allocated_ok()
        &&& self.table().len() == N_KMERS
        &&& forall|i: int| 0 <= i < self.table().len() ==> slot_ok(#[trigger] self.table()[i])
        &&& self.spec_mapped() == total_by(self.table(), |v: KmerVec| mapped_of(v))
        &&& self.spec_on_target() == total_by(self.table(), |v: KmerVec| on_target_of(v))
        &&& self.spec_redundant() == total_by(self.table(), |v: KmerVec| redundant_of(v))
        &&& self.spec_hits() == total_by(self.table(), |v: KmerVec| hits_of(v))
    }

    proof fn lemma_bounds(&self)
        requires
            self.wf(),
        ensures
            self.spec_mapped() <= N_KMERS,
            self.spec_on_target() <= N_KMERS,
            self.spec_redundant() <= N_KMERS,
            self.spec_hits() <= 8 * N_KMERS,
            self.spec_mapped() <= self.spec_hits() + self.spec_on_target(),
    {
        let t = self.table();
        let fm = |v: KmerVec| mapped_of(v);
        let fo = |v: KmerVec| on_target_of(v);
        let fr = |v: KmerVec| redundant_of(v);
        let fh = |v: KmerVec| hits_of(v);
        assert forall|i: int| 0 <= i < t.len() implies 0 <= #[trigger] fh(t[i]) <= 8 && fm(t[i]) <= fh(t[i]) + fo(t[i]) by {
            assert(slot_ok(t[i]));
        }
        lemma_sum_bounds(t, fm, t.len() as int, 1);
        lemma_sum_bounds(t, fo, t.len() as int, 1);
        lemma_sum_bounds(t, fr, t.len() as int, 1);
        lemma_sum_bounds(t, fh, t.len() as int, 8);
        lemma_sum_covers(t, fh, fo, fm, t.len() as int);
    }

    /// An empty index over all `4^KMER_LENGTH` k-mers.
    pub fn new() -> (r: KmerWork)
        ensures
            r.wf(),
            forall|i: int| 0 <= i < r.table().len() ==> is_empty_vec(#[trigger] r.table()[i]),
            r.spec_mapped() == 0,
            r.spec_on_target() == 0,
            r.spec_redundant() == 0,
            r.spec_hits() == 0,
    {
        let r = KmerWork {
            kmers: Vec::new(),
            on_target_kmers: 0,
            mapped_kmers: 0,
            highly_redundant_kmers: 0,
            total_hits: 0,
        };
        proof {
            let t = r.table();
            assert forall|i: int| 0 <= i < t.len() implies is_empty_vec(#[trigger] t[i]) && slot_ok(t[i]) by {
                assert(t[i] == zero_vec());
                assert(listed(t[i], 0));
            }
            lemma_sum_zero(t, |v: KmerVec| mapped_of(v), t.len() as int);
            lemma_sum_zero(t, |v: KmerVec| on_target_of(v), t.len() as int);
            lemma_sum_zero(t, |v: KmerVec| redundant_of(v), t.len() as int);
            lemma_sum_zero(t, |v: KmerVec| hits_of(v), t.len() as int);
        }
        r
    }

    /// Records one observation of `kmer`, in region `region` or off target
    /// (`None`): the slot of the k-mer changes as `slot_after` says, with
    /// value `region + 1`, or 1 off target, and the counts follow.
    pub fn add_kmer(&mut self, kmer: u32, region: Option<u32>)
        requires
            old(self).wf(),
            kmer < N_KMERS,
            region matches Some(r) ==> 1 <= r <= MAX_REGION,
        ensures
            final(self).wf(),
            final(self).table().len() == old(self).table().len(),
            final(self).table()[kmer as int]@ == slot_after(
                old(self).table()[kmer as int],
                match region {
                    Some(r) => (r + 1) as u32,
                    None => 1u32,
                },
            ),
            forall|i: int| 0 <= i < N_KMERS && i != kmer ==> #[trigger] final(self).table()[i] == old(self).table()[i],
    {
        let x: u32 = match region {
            Some(r) => r + 1,
            None => 1,
        };
        let km = kmer as usize;
        if self.kmers.len() == 0 {
            self.kmers = allocate_table();
        }
        let mut v = self.kmers[km];
        let ghost t0 = self.table();
        let ghost v0 = v;
        proof {
            self.lemma_bounds();
            assert(slot_ok(v0));
        }
        if v[0] >= HIGH_MULTI {
            proof {
                assert(is_high_multi(v0));
            }
            return;
        }
        let mut i: usize = 0;
        while i < 8 && v[i] != 0 && v[i] != x
            invariant
                v == v0,
                i <= 8,
                forall|j: int| 0 <= j < i ==> v[j] != 0 && v[j] != x,
            decreases 8 - i,
        {
            i = i + 1;
        }
        if i < 8 && v[i] == x {
            return;
        }
        let ghost fm = |w: KmerVec| mapped_of(w);
        let ghost fo = |w: KmerVec| on_target_of(w);
        let ghost fr = |w: KmerVec| redundant_of(w);
        let ghost fh = |w: KmerVec| hits_of(w);
        proof {
            assert(!holds(v0, x));
            assert(!is_high_multi(v0));
            assert(listed(v0, n_filled(v0)));
        }
        if i < 8 {
            proof {
                assert(n_filled(v0) == i);
            }
            if i == 0 {
                self.mapped_kmers = self.mapped_kmers + 1;
                if x > 1 {
                    self.on_target_kmers = self.on_target_kmers + 1;
                }
            } else if i == 1 && v[0] == 1 && x > 1 {
                self.on_target_kmers = self.on_target_kmers + 1;
            }
            v[i] = x;
            self.total_hits = self.total_hits + 1;
            self.kmers.set(km, v);
            proof {
                assert(v@ == slot_after(v0, x));
                assert(listed(v, n_filled(v)));
                assert(mapped_of(v) - mapped_of(v0) == if i == 0 { 1int } else { 0int });
                assert(on_target_of(v) - on_target_of(v0) == if (i == 0 && x > 1) || (i == 1 && v0[0] == 1 && x > 1) { 1int } else { 0int });
            }
        } else {
            proof {
                assert(n_filled(v0) == 8);
                assert(on_hit(v0[0]) || on_hit(v0[1]));
                lemma_sum_at_least(t0, fh, kmer as int, 8, [0u32, 0, 0, 0, 0, 0, 0, 0]);
            }
            let m: KmerVec = [HIGH_MULTI, 0, 0, 0, 0, 0, 0, 0];
            self.kmers.set(km, m);
            self.highly_redundant_kmers = self.highly_redundant_kmers + 1;
            self.total_hits = self.total_hits - 8;
            proof {
                assert(m@ =~= slot_after(v0, x));
                assert(is_high_multi(m));
            }
        }
        proof {
            let t1 = self.table();
            assert(t1 == t0.update(kmer as int, t1[kmer as int]));
            lemma_sum_update(t0, fm, t0.len() as int, kmer as int, t1[kmer as int]);
            lemma_sum_update(t0, fo, t0.len() as int, kmer as int, t1[kmer as int]);
            lemma_sum_update(t0, fr, t0.len() as int, kmer as int, t1[kmer as int]);
            lemma_sum_update(t0, fh, t0.len() as int, kmer as int, t1[kmer as int]);
            assert forall|j: int| 0 <= j < t1.len() implies slot_ok(#[trigger] t1[j]) by {
                if j != kmer {
                    assert(t1[j] == t0[j]);
                }
            }
        }
    }

    /// The table of slots, indexed by k-mer; empty where no k-mer was seen
    /// yet (the table is made on the first one).
    pub fn kmers(&self) -> (r: &Vec<KmerVec>)
        ensures
            r@.len() == 0 ==> self.table() == empty_table(),
            r@.len() != 0 ==> r@ == self.table(),
    {
        &self.kmers
    }

    /// The number of k-mers seen at least once.
    pub fn mapped_kmers(&self) -> (r: u64)
        requires
            self.wf(),
        ensures
            r == total_by(self.table(), |v: KmerVec| mapped_of(v)),
    {
        self.mapped_kmers
    }

    /// The number of k-mers marked as highly redundant.
    pub fn highly_redundant_kmers(&self) -> (r: u64)
        requires
            self.wf(),
        ensures
            r == total_by(self.table(), |v: KmerVec| redundant_of(v)),
    {
        self.highly_redundant_kmers
    }

    /// The number of k-mers with a hit in a target region (or marked as
    /// highly redundant).
    pub fn on_target_kmers(&self) -> (r: u64)
        requires
            self.wf(),
        ensures
            r == total_by(self.table(), |v: KmerVec| on_target_of(v)),
    {
        self.on_target_kmers
    }

    /// The filled slots of the k-mers that are not marked, with the
    /// off-target hit of each k-mer that also has an on-target one left out.
    pub fn total_hits(&self) -> (r: u64)
        requires
            self.wf(),
        ensures
            r == total_by(self.table(), |v: KmerVec| hits_of(v)) + total_by(self.table(), |v: KmerVec| on_target_of(v))
                - total_by(self.table(), |v: KmerVec| mapped_of(v)),
    {
        proof {
            self.lemma_bounds();
        }
        self.total_hits + self.on_target_kmers - self.mapped_kmers
    }
}

/// The 2-bit code of a base (A 0, C 1, T 2, G 3; gaps give the low bits of
/// their code) and whether it is a valid (non-gap) base.
pub fn decode_base(b: Base) -> (r: (u32, u32))
    ensures
        r.0 == b.spec_code() % 4,
        r.1 == if b.spec_is_gap() { 0u32 } else { 1u32 },
{
    let c = b.code() as u32;
    (c % 4, if c >= 4 { 0 } else { 1 })
}

/// `4^n`.
pub open spec fn pow4(n: nat) -> int
    decreases n,
{
    if n == 0 { 1 } else { 4 * pow4((n - 1) as nat) }
}

/// `2^n`.
pub open spec fn pow2(n: nat) -> int
    decreases n,
{
    if n == 0 { 1 } else { 2 * pow2((n - 1) as nat) }
}

/// The 2-bit code of a base.
pub open spec fn code2(b: Base) -> int {
    (b.spec_code() % 4) as int
}

/// The 2-bit code of the complement of a base.
pub open spec fn comp2(b: Base) -> int {
    (code2(b) + 2) % 4
}

/// 1 for a valid (non-gap) base.
pub open spec fn valid_bit(b: Base) -> int {
    if b.spec_is_gap() { 0 } else { 1 }
}

/// The 2-bit packing of a run of bases, first base in the high bits.
pub open spec fn pack(s: Seq<Base>) -> int
    decreases s.len(),
{
    if s.len() == 0 { 0 } else { pack(s.drop_last()) * 4 + code2(s.last()) }
}

/// The 2-bit packing of the reverse complement of a run of bases.
pub open spec fn pack_rc(s: Seq<Base>) -> int
    decreases s.len(),
{
    if s.len() == 0 { 0 } else { pack_rc(s.drop_last()) + comp2(s.last()) * pow4((s.len() - 1) as nat) }
}

/// One bit per base of a run, set for a valid base, first base high.
pub open spec fn valid_bits(s: Seq<Base>) -> int
    decreases s.len(),
{
    if s.len() == 0 { 0 } else { valid_bits(s.drop_last()) * 2 + valid_bit(s.last()) }
}

proof fn lemma_pow(n: nat)
    ensures
        pow4(n) >= 1,
        pow2(n) >= 1,
        pow4(14) == 0x1000_0000,
        pow4(15) == 0x4000_0000,
        pow2(14) == 0x4000,
        pow2(15) == 0x8000,
    decreases n,
{
    if n > 0 {
        lemma_pow((n - 1) as nat);
    }
    reveal_with_fuel(pow4, 16);
    reveal_with_fuel(pow2, 16);
}

proof fn lemma_pow_mono(a: nat, b: nat)
    requires
        a <= b,
    ensures
        pow4(a) <= pow4(b),
        pow2(a) <= pow2(b),
    decreases b - a,
{
    if a < b {
        lemma_pow_mono(a, (b - 1) as nat);
        lemma_pow((b - 1) as nat);
    }
}

proof fn lemma_pow_split(a: nat, b: nat)
    ensures
        pow4(a) * pow4(b) == pow4(a + b),
    decreases a,
{
    if a > 0 {
        lemma_pow_split((a - 1) as nat, b);
        assert(pow4(a) * pow4(b) == 4 * (pow4((a - 1) as nat) * pow4(b))) by (nonlinear_arith)
            requires
                pow4(a) == 4 * pow4((a - 1) as nat),
        ;
    }
}

proof fn lemma_pack_front(w: Seq<Base>)
    requires
        w.len() >= 1,
    ensures
        pack(w) == code2(w[0]) * pow4((w.len() - 1) as nat) + pack(w.drop_first()),
        pack_rc(w) == comp2(w[0]) + 4 * pack_rc(w.drop_first()),
        valid_bits(w) == valid_bit(w[0]) * pow2((w.len() - 1) as nat) + valid_bits(w.drop_first()),
    decreases w.len(),
{
    if w.len() == 1 {
        assert(w.drop_last() =~= Seq::<Base>::empty());
        assert(w.drop_first() =~= Seq::<Base>::empty());
    } else {
        let dl = w.drop_last();
        lemma_pack_front(dl);
        assert(w.drop_first().drop_last() =~= dl.drop_first());
        assert(w.drop_first().last() == w.last());
        assert(dl[0] == w[0]);
        let n = (w.len() - 1) as nat;
        let a = code2(w[0]);
        assert(pow4(n) == 4 * pow4((n - 1) as nat));
        assert(pow2(n) == 2 * pow2((n - 1) as nat));
        assert((a * pow4((n - 1) as nat) + pack(dl.drop_first())) * 4 + code2(w.last())
            == a * pow4(n) + (pack(dl.drop_first()) * 4 + code2(w.last()))) by (nonlinear_arith)
            requires
                pow4(n) == 4 * pow4((n - 1) as nat),
        ;
        let vb = valid_bit(w[0]);
        assert((vb * pow2((n - 1) as nat) + valid_bits(dl.drop_first())) * 2 + valid_bit(w.last())
            == vb * pow2(n) + (valid_bits(dl.drop_first()) * 2 + valid_bit(w.last()))) by (nonlinear_arith)
            requires
                pow2(n) == 2 * pow2((n - 1) as nat),
        ;
        assert(comp2(w.last()) * pow4(n) == 4 * (comp2(w.last()) * pow4((n - 1) as nat))) by (nonlinear_arith)
            requires
                pow4(n) == 4 * pow4((n - 1) as nat),
        ;
    }
}

proof fn lemma_pack_bounds(w: Seq<Base>)
    ensures
        0 <= pack(w) < pow4(w.len()),
        0 <= pack_rc(w) < pow4(w.len()),
        0 <= valid_bits(w) < pow2(w.len()),
        valid_bits(w) == pow2(w.len()) - 1 <==> forall|i: int| 0 <= i < w.len() ==> !(#[trigger] w[i]).spec_is_gap(),
    decreases w.len(),
{
    if w.len() > 0 {
        let dl = w.drop_last();
        lemma_pack_bounds(dl);
        let n = (w.len() - 1) as nat;
        assert(pow4(w.len()) == 4 * pow4(n));
        assert(pow2(w.len()) == 2 * pow2(n));
        assert(0 <= comp2(w.last()) <= 3);
        assert(comp2(w.last()) * pow4(n) <= 3 * pow4(n)) by (nonlinear_arith)
            requires
                0 <= comp2(w.last()) <= 3,
                pow4(n) >= 0,
        ;
        assert(0 <= comp2(w.last()) * pow4(n)) by (nonlinear_arith)
            requires
                0 <= comp2(w.last()),
                pow4(n) >= 0,
        ;
        if forall|i: int| 0 <= i < w.len() ==> !(#[trigger] w[i]).spec_is_gap() {
            assert forall|i: int| 0 <= i < dl.len() implies !(#[trigger] dl[i]).spec_is_gap() by {
                assert(dl[i] == w[i]);
            }
            assert(!w[w.len() - 1].spec_is_gap());
        }
        if valid_bits(w) == pow2(w.len()) - 1 {
            assert(valid_bits(dl) == pow2(n) - 1 && valid_bit(w.last()) == 1);
            assert forall|i: int| 0 <= i < w.len() implies !(#[trigger] w[i]).spec_is_gap() by {
                if i < w.len() - 1 {
                    assert(dl[i] == w[i]);
                }
            }
        }
    }
}

/// Shifting one base into the last bases seen moves each packing as the
/// builder's arithmetic does.
proof fn lemma_shift(w: Seq<Base>, base: Base)
    requires
        w.len() <= KMER_LENGTH,
    ensures
        ({
            let w1 = if w.len() < KMER_LENGTH { w.push(base) } else { w.drop_first().push(base) };
            &&& w1.len() <= KMER_LENGTH
            &&& pack(w1) == (pack(w) % 0x1000_0000) * 4 + code2(base)
            &&& pack_rc(w1) * pow4((KMER_LENGTH - w1.len()) as nat)
                == (pack_rc(w) * pow4((KMER_LENGTH - w.len()) as nat)) / 4 + comp2(base) * 0x1000_0000
            &&& valid_bits(w1) == (valid_bits(w) % 0x4000) * 2 + valid_bit(base)
            &&& pack(w1) < 0x4000_0000
            &&& pack_rc(w1) * pow4((KMER_LENGTH - w1.len()) as nat) < 0x4000_0000
            &&& valid_bits(w1) <= VALID_MASK
        }),
{
    let w1 = if w.len() < KMER_LENGTH { w.push(base) } else { w.drop_first().push(base) };
    lemma_pow(0);
    lemma_pack_bounds(w);
    let n = w.len();
    if n < KMER_LENGTH {
        lemma_pow_mono(n, 14);
        vstd::arithmetic::div_mod::lemma_fundamental_div_mod_converse(pack(w), 0x1000_0000, 0, pack(w));
        vstd::arithmetic::div_mod::lemma_fundamental_div_mod_converse(valid_bits(w), 0x4000, 0, valid_bits(w));
        let k = (KMER_LENGTH - n) as nat;
        assert(pow4(k) == 4 * pow4((k - 1) as nat));
        assert(pack_rc(w) * pow4(k) == (pack_rc(w) * pow4((k - 1) as nat)) * 4) by (nonlinear_arith)
            requires
                pow4(k) == 4 * pow4((k - 1) as nat),
        ;
        vstd::arithmetic::div_mod::lemma_fundamental_div_mod_converse(pack_rc(w) * pow4(k), 4, pack_rc(w) * pow4((k - 1) as nat), 0);
        assert(w1.drop_last() == w);
        lemma_pow_mono(n, 14);
        assert(pow4(n) * pow4((k - 1) as nat) == 0x1000_0000) by {
            lemma_pow_split(n, (k - 1) as nat);
        }
        assert((pack_rc(w) + comp2(base) * pow4(n)) * pow4((k - 1) as nat) == pack_rc(w) * pow4((k - 1) as nat) + comp2(base) * 0x1000_0000) by (nonlinear_arith)
            requires
                pow4(n) * pow4((k - 1) as nat) == 0x1000_0000,
        ;
        assert(w1.last() == base);
        assert(pack_rc(w1) == pack_rc(w) + comp2(base) * pow4(n));
        assert((KMER_LENGTH - w1.len()) as nat == (k - 1) as nat);
        assert(pack_rc(w1) * pow4((KMER_LENGTH - w1.len()) as nat)
            == (pack_rc(w) * pow4((KMER_LENGTH - w.len()) as nat)) / 4 + comp2(base) * 0x1000_0000);
    } else {
        lemma_pack_front(w);
        let d = w.drop_first();
        lemma_pack_bounds(d);
        assert(d.len() == 14);
        vstd::arithmetic::div_mod::lemma_fundamental_div_mod_converse(pack(w), 0x1000_0000, code2(w[0]), pack(d));
        vstd::arithmetic::div_mod::lemma_fundamental_div_mod_converse(valid_bits(w), 0x4000, valid_bit(w[0]), valid_bits(d));
        vstd::arithmetic::div_mod::lemma_fundamental_div_mod_converse(pack_rc(w), 4, pack_rc(d), comp2(w[0]));
        assert(w1.drop_last() == d);
        assert(w1.last() == base);
        assert(pack_rc(w1) == pack_rc(d) + comp2(base) * pow4(14));
        assert(pow4((KMER_LENGTH - w1.len()) as nat) == 1);
        assert(pow4((KMER_LENGTH - w.len()) as nat) == 1);
        assert(pack_rc(w) * 1 == pack_rc(w));
        assert(pack_rc(w1) * 1 == pack_rc(w1));
    }
    lemma_pack_bounds(w1);
    lemma_pow_mono(w1.len(), 15);
    if w1.len() < KMER_LENGTH {
        let k1 = (KMER_LENGTH - w1.len()) as nat;
        lemma_pow_split(w1.len(), k1);
        lemma_pow(k1);
        assert(w1.len() + k1 == 15);
        assert(pow4(w1.len()) * pow4(k1) == 0x4000_0000);
        assert(pack_rc(w1) * pow4(k1) < pow4(w1.len()) * pow4(k1)) by (nonlinear_arith)
            requires
                0 <= pack_rc(w1) < pow4(w1.len()),
                pow4(k1) >= 1,
        ;
    } else {
        assert(pow4((KMER_LENGTH - w1.len()) as nat) == 1);
    }
}

/// The rolling state of the last `KMER_LENGTH` bases: the forward k-mer, its
/// reverse complement, which bases were valid, and the region of each base.
pub struct KmerBuilder {
    target_vec: Vec<Option<u32>>,
    kmer: u32,
    rev_kmer: u32,
    valid: u32,
    recent: Ghost<Seq<Base>>,
}

/// `4^(KMER_LENGTH - 1)`, the weight of the first base of a k-mer.
pub const TOP_WEIGHT: u32 = 0x1000_0000;

/// The mask of `KMER_LENGTH` valid bits.
pub const VALID_MASK: u32 = 0x7fff;

impl KmerBuilder {
    pub closed spec fn spec_kmer(&self) -> u32 {
        self.kmer
    }

    pub closed spec fn spec_rev(&self) -> u32 {
        self.rev_kmer
    }

    pub closed spec fn spec_valid(&self) -> u32 {
        self.valid
    }

    /// The last `KMER_LENGTH` bases seen (fewer just after a start), oldest
    /// first.
    pub closed spec fn recent(&self) -> Seq<Base> {
        self.recent@
    }

    /// The region of each of the last `KMER_LENGTH` bases, oldest first.
    pub closed spec fn tags(&self) -> Seq<Option<u32>> {
        self.target_vec@
    }

    pub open spec fn wf(&self) -> bool {
        &&& self.tags().len() == KMER_LENGTH
        &&& self.spec_kmer() < N_KMERS
        &&& self.spec_rev() < N_KMERS
        &&& self.spec_valid() <= VALID_MASK
        &&& self.recent().len() <= KMER_LENGTH
        &&& self.spec_kmer() == pack(self.recent())
        &&& self.spec_rev() == pack_rc(self.recent()) * pow4((KMER_LENGTH - self.recent().len()) as nat)
        &&& self.spec_valid() == valid_bits(self.recent())
    }

    /// A builder that has seen no base.
    pub fn new() -> (r: KmerBuilder)
        ensures
            r.wf(),
            r.spec_kmer() == 0,
            r.spec_rev() == 0,
            r.spec_valid() == 0,
            r.recent() == Seq::<Base>::empty(),
            forall|i: int| 0 <= i < KMER_LENGTH ==> #[trigger] r.tags()[i] == None::<u32>,
    {
        let mut target_vec: Vec<Option<u32>> = Vec::new();
        let mut i: usize = 0;
        while i < KMER_LENGTH
            invariant
                i <= KMER_LENGTH,
                target_vec@.len() == i,
                forall|j: int| 0 <= j < i ==> #[trigger] target_vec@[j] == None::<u32>,
            decreases KMER_LENGTH - i,
        {
            target_vec.push(None);
            i = i + 1;
        }
        KmerBuilder { target_vec, kmer: 0, rev_kmer: 0, valid: 0, recent: Ghost(Seq::empty()) }
    }

    /// Forgets every base seen.
    pub fn clear(&mut self)
        requires
            old(self).wf(),
        ensures
            final(self).wf(),
            final(self).spec_kmer() == 0,
            final(self).spec_rev() == 0,
            final(self).spec_valid() == 0,
            final(self).recent() == Seq::<Base>::empty(),
            forall|i: int| 0 <= i < KMER_LENGTH ==> #[trigger] final(self).tags()[i] == None::<u32>,
    {
        let mut i: usize = 0;
        while i < self.target_vec.len()
            invariant
                self.target_vec@.len() == KMER_LENGTH,
                i <= KMER_LENGTH,
                forall|j: int| 0 <= j < i ==> #[trigger] self.target_vec@[j] == None::<u32>,
            decreases KMER_LENGTH - i,
        {
            self.target_vec.set(i, None);
            i = i + 1;
        }
        self.valid = 0;
        self.kmer = 0;
        self.rev_kmer = 0;
        self.recent = Ghost(Seq::empty());
    }

    /// Shifts in one base with its region: the forward k-mer takes the base's
    /// code as its last base, the reverse complement takes the complement
    /// (code + 2, modulo 4) as its first base, and the valid bits shift in
    /// whether the base is not a gap.
    #[verifier::rlimit(40)]
    pub fn add_base(&mut self, base: Base, region_idx: Option<u32>)
        requires
            old(self).wf(),
        ensures
            final(self).wf(),
            final(self).spec_kmer() == (old(self).spec_kmer() * 4 + base.spec_code() % 4) % N_KMERS as int,
            final(self).spec_rev() == old(self).spec_rev() / 4 + ((base.spec_code() % 4 + 2) % 4) * TOP_WEIGHT,
            final(self).spec_valid() == (old(self).spec_valid() * 2 + if base.spec_is_gap() { 0int } else { 1int }) % (VALID_MASK + 1),
            final(self).tags() == old(self).tags().drop_first().push(region_idx),
            final(self).recent() == if old(self).recent().len() < KMER_LENGTH {
                old(self).recent().push(base)
            } else {
                old(self).recent().drop_first().push(base)
            },
    {
        let ghost w = self.recent@;
        let ghost w1 = if w.len() < KMER_LENGTH { w.push(base) } else { w.drop_first().push(base) };
        proof {
            lemma_shift(w, base);
        }
        let (x, v) = decode_base(base);
        let rev_x = (x + 2) % 4;
        self.target_vec.remove(0);
        self.target_vec.push(region_idx);
        proof {
            assert(self.target_vec@ =~= old(self).tags().drop_first().push(region_idx));
        }
        self.kmer = (self.kmer % 0x1000_0000) * 4 + x;
        self.rev_kmer = self.rev_kmer / 4 + rev_x * TOP_WEIGHT;
        self.valid = (self.valid % 0x4000) * 2 + v;
        self.recent = Ghost(w1);
    }

    /// The region of the current k-mer: `Some(idx)` where all
    /// `KMER_LENGTH` bases lie in region `idx`, else `None`.
    pub fn target_idx(&self) -> (r: Option<u32>)
        requires
            self.wf(),
        ensures
            r.is_some() <==> (self.tags()[0].is_some() && forall|i: int| 0 <= i < KMER_LENGTH ==> #[trigger] self.tags()[i] == self.tags()[0]),
            r.is_some() ==> r == self.tags()[0],
    {
        let first = self.target_vec[0];
        if first.is_none() {
            return None;
        }
        let mut i: usize = 1;
        while i < self.target_vec.len()
            invariant
                self.wf(),
                1 <= i <= KMER_LENGTH,
                first == self.tags()[0],
                forall|j: int| 0 <= j < i ==> #[trigger] self.tags()[j] == first,
            decreases KMER_LENGTH - i,
        {
            if self.target_vec[i] != first {
                return None;
            }
            i = i + 1;
        }
        first
    }

    /// The forward k-mer and its reverse complement, where the last
    /// `KMER_LENGTH` bases are all valid.
    pub fn kmers(&self) -> (r: Option<(u32, u32)>)
        requires
            self.wf(),
        ensures
            r.is_some() <==> self.spec_valid() == VALID_MASK,
            r.is_some() ==> r == Some((self.spec_kmer(), self.spec_rev())),
            r.is_some() <==> (self.recent().len() == KMER_LENGTH
                && forall|i: int| 0 <= i < KMER_LENGTH ==> !(#[trigger] self.recent()[i]).spec_is_gap()),
            r.is_some() ==> r == Some((pack(self.recent()) as u32, pack_rc(self.recent()) as u32)),
    {
        proof {
            let w = self.recent();
            lemma_pack_bounds(w);
            lemma_pow(0);
            if w.len() < KMER_LENGTH {
                lemma_pow_mono(w.len(), 14);
                assert(self.spec_valid() != VALID_MASK);
            } else {
                assert(pow4((KMER_LENGTH - w.len()) as nat) == 1);
                assert(self.spec_rev() == pack_rc(w));
                assert(pack(w) < 0x4000_0000 && pack_rc(w) < 0x4000_0000);
            }
        }
        if self.valid == VALID_MASK {
            Some((self.kmer, self.rev_kmer))
        } else {
            None
        }
    }
}

/// Every slot of a well-formed index is empty, or marked as highly
/// redundant (the mark in slot 0, all other slots empty), or a list of
/// distinct non-zero hits padded with trailing zeros.
pub proof fn lemma_slots_well_formed(w: &KmerWork, i: int)
    requires
        w.wf(),
        0 <= i < w.table().len(),
    ensures
        is_empty_vec(w.table()[i]) || is_high_multi(w.table()[i]) || listed(w.table()[i], n_filled(w.table()[i])),
{
    assert(slot_ok(w.table()[i]));
}

} // verus!
