use analyze_gc::base::Base;
use analyze_gc::process::{process_seq, GcRes};

fn bases(s: &str) -> Vec<Base> {
    s.bytes().map(Base::from_u8).collect()
}

fn threshold(l: u32, t: f64) -> u32 {
    ((l as f64) * t).ceil() as u32
}

fn sorted(v: Vec<(analyze_gc::process::GcHistKey, u64)>) -> Vec<((u32, u32), u64)> {
    let mut v: Vec<((u32, u32), u64)> = v.into_iter().map(|(k, n)| (k.counts(), n)).collect();
    v.sort();
    v
}

fn run(seqs: &[&str], l: u32, t: f64, bisulfite: bool) -> GcRes {
    let mut res = GcRes::new(&[l], bisulfite);
    for s in seqs {
        process_seq(&bases(s), &[threshold(l, t)], &mut res);
    }
    res
}

#[test]
fn eight_bases_five_windows() {
    let res = run(&["ACGTACGT"], 4, 1.0, false);
    assert_eq!(sorted(res.get_gc_hist(4).unwrap().hash()), vec![((2, 2), 5)]);
}

#[test]
fn one_window_of_acgt() {
    let res = run(&["ACGT"], 4, 1.0, false);
    assert_eq!(sorted(res.get_gc_hist(4).unwrap().hash()), vec![((2, 2), 1)]);
}

#[test]
fn runs_of_each_base() {
    let res = run(&["AAACCCGGGTTT"], 3, 1.0, false);
    assert_eq!(
        sorted(res.get_gc_hist(3).unwrap().hash()),
        vec![((0, 3), 4), ((1, 2), 2), ((2, 1), 2), ((3, 0), 2)]
    );
}

#[test]
fn bisulfite_points() {
    let res = run(&["ACGT"], 4, 1.0, true);
    let h = res.get_gc_hist(4).unwrap();
    assert_eq!(sorted(h.hash()), vec![((2, 2), 1)]);
    assert_eq!(sorted(h.bisulfite_hash().unwrap()), vec![((1, 1), 2)]);
}

#[test]
fn no_bisulfite_counts_without_bisulfite_mode() {
    let res = run(&["ACGT"], 4, 1.0, false);
    assert!(res.get_gc_hist(4).unwrap().bisulfite_hash().is_none());
}

#[test]
fn full_threshold_needs_full_windows() {
    let res = run(&["ACNGT"], 3, 1.0, false);
    assert!(res.get_gc_hist(3).unwrap().hash().is_empty());
    let res = run(&["ACNGT"], 3, 0.6, false);
    assert_eq!(
        sorted(res.get_gc_hist(3).unwrap().hash()),
        vec![((0, 2), 1), ((1, 1), 4)]
    );
}

#[test]
fn read_longer_than_sequence_counts_nothing() {
    let res = run(&["ACG"], 4, 1.0, false);
    assert!(res.get_gc_hist(4).unwrap().hash().is_empty());
}

#[test]
fn several_read_lengths_at_once() {
    let mut res = GcRes::new(&[2, 3, 2], false);
    assert_eq!(res.read_lengths().clone(), vec![2, 3]);
    process_seq(&bases("ACG"), &[2, 3], &mut res);
    assert_eq!(sorted(res.get_gc_hist(2).unwrap().hash()), vec![((0, 2), 1), ((1, 1), 1)]);
    assert_eq!(sorted(res.get_gc_hist(3).unwrap().hash()), vec![((1, 2), 1)]);
    assert!(res.get_gc_hist(4).is_none());
}

#[test]
fn merged_parts_equal_one_pass() {
    let seqs = ["ACGTTGCA", "GGGAAAT", "ACNNTG", "C"];
    let whole = run(&seqs, 3, 0.6, true);
    for cut in 0..=seqs.len() {
        let mut a = run(&seqs[..cut], 3, 0.6, true);
        let b = run(&seqs[cut..], 3, 0.6, true);
        a.merge(&b);
        let mut b2 = run(&seqs[cut..], 3, 0.6, true);
        b2.merge(&run(&seqs[..cut], 3, 0.6, true));
        for r in [&a, &b2] {
            let h = r.get_gc_hist(3).unwrap();
            let w = whole.get_gc_hist(3).unwrap();
            assert_eq!(sorted(h.hash()), sorted(w.hash()));
            assert_eq!(sorted(h.bisulfite_hash().unwrap()), sorted(w.bisulfite_hash().unwrap()));
        }
    }
}

#[test]
fn merge_matches_read_lengths_in_any_order() {
    let mut a = GcRes::new(&[3, 2], false);
    process_seq(&bases("ACGT"), &[3, 2], &mut a);
    let mut b = GcRes::new(&[2, 3], false);
    process_seq(&bases("GGC"), &[2, 3], &mut b);
    a.merge(&b);
    assert_eq!(
        sorted(a.get_gc_hist(2).unwrap().hash()),
        vec![((0, 2), 3), ((1, 1), 2)]
    );
    assert_eq!(sorted(a.get_gc_hist(3).unwrap().hash()), vec![((0, 3), 1), ((1, 2), 2)]);
}

#[test]
fn read_length_beyond_sixteen_bits() {
    let mut res = GcRes::new(&[100_000], false);
    process_seq(&bases("ACGT"), &[4], &mut res);
    assert_eq!(sorted(res.get_gc_hist(100_000).unwrap().hash()), vec![((2, 2), 99_997)]);
}
