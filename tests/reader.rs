use analyze_gc::base::Base;
use analyze_gc::reader::{FastaError, Rdr};
use analyze_gc::regions::{Region, Regions};
use std::io::{BufRead, BufReader};

fn next_seq<R: BufRead>(rdr: &mut Rdr, r: &mut R) -> Result<Option<Vec<Base>>, FastaError> {
    loop {
        let buf = r.fill_buf().unwrap();
        let n = buf.len();
        let (used, s) = rdr.get_seq(buf)?;
        r.consume(used);
        if let Some(s) = s {
            return Ok(Some(s.bases().to_vec()));
        }
        if n == 0 {
            return Ok(None);
        }
    }
}

fn all_seqs(input: &str, max_read_length: u32, regions: Option<Regions>) -> Result<Vec<Vec<Base>>, FastaError> {
    let mut rdr = Rdr::new(max_read_length, regions);
    let mut r = BufReader::with_capacity(7, input.as_bytes());
    let mut v = Vec::new();
    while let Some(s) = next_seq(&mut rdr, &mut r)? {
        v.push(s);
    }
    Ok(v)
}

const INPUT: &str = ">seq1\nACTNNCCGT\nNACCAGTNNNNC\n>seq2\nNNN\n>seq3\nNNNNNNNNN\nNNNACTCNNN\n";

fn check_lengths<R: BufRead>(mut b: R) {
    let mut rdr = Rdr::new(4, None);
    let exp_len = [16, 1, 4];
    for l in exp_len {
        let a = next_seq(&mut rdr, &mut b).unwrap().unwrap();
        println!("{:?}", a);
        assert_eq!(a.len(), l);
    }
    let a = next_seq(&mut rdr, &mut b).unwrap();
    assert!(a.is_none());
}

#[test]
fn test1() {
    let b = BufReader::new(INPUT.as_bytes());
    check_lengths(b);
}

#[test]
fn test2() {
    let b = BufReader::with_capacity(16, INPUT.as_bytes());
    check_lengths(b);
}

#[test]
fn test3() {
    let b = BufReader::with_capacity(30, INPUT.as_bytes());
    check_lengths(b);
}

#[test]
fn sequences_start_and_end_with_bases() {
    for cap in [1usize, 2, 3, 5, 64] {
        let mut rdr = Rdr::new(4, None);
        let mut b = BufReader::with_capacity(cap, INPUT.as_bytes());
        while let Some(s) = next_seq(&mut rdr, &mut b).unwrap() {
            assert!(!s[0].is_gap());
            assert!(!s[s.len() - 1].is_gap());
        }
    }
}

#[test]
fn leading_and_trailing_gaps_dropped() {
    let v = all_seqs(">c1\nNNNACGTNNN\n", 4, None).unwrap();
    assert_eq!(v, vec![vec![Base::A, Base::C, Base::G, Base::T]]);
}

#[test]
fn trailing_gap_without_newline_dropped() {
    let v = all_seqs(">c1\nACNN", 10, None).unwrap();
    assert_eq!(v, vec![vec![Base::A, Base::C]]);
}

#[test]
fn short_gap_kept_long_gap_splits() {
    let v = all_seqs(">c1\nACNNGT\n", 3, None).unwrap();
    assert_eq!(v, vec![vec![Base::A, Base::C, Base::N, Base::N, Base::G, Base::T]]);
    let v = all_seqs(">c1\nACNNNGT\n", 3, None).unwrap();
    assert_eq!(v, vec![vec![Base::A, Base::C], vec![Base::G, Base::T]]);
}

#[test]
fn name_is_cut_at_white_space_and_contigs_split() {
    let v = all_seqs(">c1 some text\nAC\n>c2\tmore\nGT\n", 4, None).unwrap();
    assert_eq!(v, vec![vec![Base::A, Base::C], vec![Base::G, Base::T]]);
}

#[test]
fn missing_header_is_an_error() {
    assert_eq!(all_seqs("ACGT\n", 4, None), Err(FastaError::MissingHeader));
}

#[test]
fn illegal_sequence_byte_is_an_error() {
    assert_eq!(all_seqs(">c1\nAC GT\n", 4, None), Err(FastaError::IllegalSequenceChar));
}

#[test]
fn illegal_name_byte_is_an_error() {
    assert_eq!(all_seqs(">c\x01\nACGT\n", 4, None), Err(FastaError::IllegalNameChar));
}

#[test]
fn contig_without_regions_is_all_n() {
    let mut regs = Regions::new();
    regs.get_or_insert_contig_regions("c2").add_region(Region::new(0, 10, 1));
    regs.normalize();
    let v = all_seqs(">c1\nACGT\n", 4, Some(regs)).unwrap();
    assert_eq!(v, vec![vec![Base::N, Base::N, Base::N, Base::N]]);
}

#[test]
fn bases_off_target_become_n() {
    let mut regs = Regions::new();
    regs.get_or_insert_contig_regions("c1").add_region(Region::new(1, 2, 1));
    regs.normalize();
    let v = all_seqs(">c1\nACGT\n", 4, Some(regs)).unwrap();
    assert_eq!(v, vec![vec![Base::N, Base::C, Base::G, Base::N]]);
}

#[test]
fn base_codes() {
    assert_eq!(Base::from_u8(b'a'), Base::A);
    assert_eq!(Base::from_u8(b'C'), Base::C);
    assert_eq!(Base::from_u8(b'g'), Base::G);
    assert_eq!(Base::from_u8(b'T'), Base::T);
    assert_eq!(Base::from_u8(b'n'), Base::N);
    assert_eq!(Base::from_u8(b'R'), Base::Other);
    assert_eq!(Base::T.code(), 2);
    assert!(Base::N.is_gap() && Base::Other.is_gap() && !Base::G.is_gap());
}

#[test]
fn single_gap_cuts_at_read_length_one() {
    let v = all_seqs(">c\nANA\n", 1, None).unwrap();
    assert_eq!(v, vec![vec![Base::A], vec![Base::A]]);
}
