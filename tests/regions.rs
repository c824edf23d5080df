use analyze_gc::bed::{parse_bed, parse_u32, BedError, BedErrorKind};
use analyze_gc::regions::{Region, Regions};

fn regions_of(regs: &Regions) -> Vec<(Vec<u8>, Vec<(u32, u32, u32)>)> {
    let (names, contigs) = regs.iter();
    names
        .iter()
        .zip(contigs.iter())
        .map(|(n, c)| (n.clone(), c.regions().iter().map(|r| (r.start(), r.end(), r.idx())).collect()))
        .collect()
}

#[test]
fn overlapping_bed_lines_merge() {
    let regs = parse_bed(b"c1\t10\t20\nc1\t15\t25\n").unwrap();
    assert_eq!(regions_of(&regs), vec![(b"c1".to_vec(), vec![(10, 25, 1)])]);
    assert_eq!(regs.n_regions(), 1);
    assert_eq!(regs.n_contigs(), 1);
}

#[test]
fn normalize_sorts_merges_and_numbers_across_contigs() {
    let mut regs = Regions::new();
    regs.get_or_insert_contig_regions("a").add_region(Region::new(30, 5, 7));
    regs.get_or_insert_contig_regions("a").add_region(Region::new(0, 10, 8));
    regs.get_or_insert_contig_regions("b").add_region(Region::new(5, 5, 9));
    regs.get_or_insert_contig_regions("a").add_region(Region::new(10, 5, 9));
    regs.get_or_insert_contig_regions("a").add_region(Region::new(16, 2, 9));
    let n = regs.normalize();
    assert_eq!(n, 4);
    assert_eq!(
        regions_of(&regs),
        vec![
            (b"a".to_vec(), vec![(0, 15, 1), (16, 18, 2), (30, 35, 3)]),
            (b"b".to_vec(), vec![(5, 10, 4)]),
        ]
    );
    assert_eq!(regs.n_regions(), 4);
    for (_, rs) in regions_of(&regs) {
        for w in rs.windows(2) {
            assert!(w[0].1 <= w[1].0);
        }
    }
}

#[test]
fn empty_catalogue_is_valid() {
    let mut regs = Regions::new();
    assert_eq!(regs.normalize(), 0);
    assert_eq!(regs.n_regions(), 0);
    assert!(regs.get("c1").is_none());
}

#[test]
fn region_lookup() {
    let regs = parse_bed(b"c1\t10\t20\nc1\t30\t40\n").unwrap();
    let c = regs.get("c1").unwrap();
    assert_eq!(c.region_at(9), None);
    assert_eq!(c.region_at(10), Some(1));
    assert_eq!(c.region_at(19), Some(1));
    assert_eq!(c.region_at(20), None);
    assert_eq!(c.region_at(35), Some(2));
    assert_eq!(c.region_at(40), None);
}

#[test]
fn bed_errors() {
    let e = |k, line| Err(BedError { kind: k, line });
    assert_eq!(parse_bed(b"c1\n").map(|_| ()), e(BedErrorKind::MissingStart, 1));
    assert_eq!(parse_bed(b"c1\t1\t2\nc1\tx\t5\n").map(|_| ()), e(BedErrorKind::BadStart, 2));
    assert_eq!(parse_bed(b"c1\t5\n").map(|_| ()), e(BedErrorKind::MissingEnd, 1));
    assert_eq!(parse_bed(b"c1\t5\t-7\n").map(|_| ()), e(BedErrorKind::BadEnd, 1));
    assert_eq!(parse_bed(b"c1\t5\t5\n").map(|_| ()), e(BedErrorKind::EndNotAfterStart, 1));
}

#[test]
fn bed_extra_fields_and_trailing_space() {
    let regs = parse_bed(b"c1\t1\t5\tname\t0\r\nc2\t7\t9  \n").unwrap();
    assert_eq!(
        regions_of(&regs),
        vec![(b"c1".to_vec(), vec![(1, 5, 1)]), (b"c2".to_vec(), vec![(7, 9, 2)])]
    );
}

#[test]
fn numbers() {
    assert_eq!(parse_u32(b"0"), Some(0));
    assert_eq!(parse_u32(b"+17"), Some(17));
    assert_eq!(parse_u32(b"4294967295"), Some(u32::MAX));
    assert_eq!(parse_u32(b"4294967296"), None);
    assert_eq!(parse_u32(b""), None);
    assert_eq!(parse_u32(b"+"), None);
    assert_eq!(parse_u32(b"1a"), None);
}

#[test]
fn normalize_twice_changes_nothing() {
    let mut regs = parse_bed(b"c1\t30\t40\nc1\t10\t20\nc2\t1\t2\n").unwrap();
    let before = regions_of(&regs);
    assert_eq!(regs.normalize(), 3);
    assert_eq!(regions_of(&regs), before);
}
