use analyze_gc::bed::parse_bed;
use analyze_gc::kmcv::{
    kmcv_file, read_skip, write_close, write_kmer_blocks, write_type_skip_nhits, KmcvError, KmcvHeader, KmerType,
};
use analyze_gc::kmers::{KmerVec, KmerWork, HIGH_MULTI};
use analyze_gc::regions::{Region, Regions};

#[test]
fn skip_field_examples() {
    let mut b = Vec::new();
    write_type_skip_nhits(&mut b, 4, 3);
    assert_eq!(b, vec![0x43]);
    let mut b = Vec::new();
    write_type_skip_nhits(&mut b, 20, 9);
    assert_eq!(b, vec![0xf9, 0x05]);
    let mut b = Vec::new();
    write_type_skip_nhits(&mut b, 302, 1);
    assert_eq!(b, vec![0xf1, 0xff, 0x20, 0x00]);
}

#[test]
fn skip_field_round_trip() {
    let edges: [u64; 12] = [0, 14, 15, 16, 269, 270, 271, 65804, 65805, 65806, 1 << 31, 0x1_0001_010c];
    for &s in edges.iter() {
        for tc in [0u8, 1, 9, 15] {
            let mut b = Vec::new();
            write_type_skip_nhits(&mut b, s, tc);
            let n = b.len();
            b.extend_from_slice(&[0xff, 0xff, 0xff, 0xff]);
            assert_eq!(read_skip(&b), Some((s, tc, n)));
        }
    }
}

#[test]
fn kmer_types() {
    assert_eq!(KmerType::from_kmer_vec(&[0; 8]), KmerType::Unmapped);
    assert_eq!(KmerType::from_kmer_vec(&[HIGH_MULTI, 0, 0, 0, 0, 0, 0, 0]), KmerType::HighMultiMap);
    assert_eq!(KmerType::from_kmer_vec(&[1, 0, 0, 0, 0, 0, 0, 0]), KmerType::UniqueOffTarget);
    assert_eq!(KmerType::from_kmer_vec(&[5, 0, 0, 0, 0, 0, 0, 0]), KmerType::UniqueOnTarget);
    assert_eq!(KmerType::from_kmer_vec(&[1, 5, 6, 0, 0, 0, 0, 0]), KmerType::LowMultiMap(3));
    assert_eq!(KmerType::from_kmer_vec(&[2, 3, 4, 5, 6, 7, 8, 9]), KmerType::LowMultiMap(8));
    assert_eq!(KmerType::LowMultiMap(3).type_code(), 2);
    assert_eq!(KmerType::UniqueOnTarget.type_code(), 1);
    assert_eq!(KmerType::UniqueOffTarget.type_code(), 9);
    assert_eq!(KmerType::HighMultiMap.type_code(), 8);
    assert_eq!(KmerType::Unmapped.type_code(), 15);
}

fn table() -> Vec<KmerVec> {
    let mut t = vec![[0u32; 8]; 400];
    t[3] = [1, 0, 0, 0, 0, 0, 0, 0];
    t[4] = [21, 59, 1, 0, 0, 0, 0, 0];
    t[40] = [HIGH_MULTI, 0, 0, 0, 0, 0, 0, 0];
    t[343] = [426438, 0, 0, 0, 0, 0, 0, 0];
    t
}

#[test]
fn kmer_records() {
    let mut b = Vec::new();
    write_kmer_blocks(&mut b, &table());
    let mut exp = vec![0x39u8, 0x02];
    exp.extend_from_slice(&20u32.to_le_bytes());
    exp.extend_from_slice(&58u32.to_le_bytes());
    exp.extend_from_slice(&0u32.to_le_bytes());
    exp.extend_from_slice(&[0xf8, 35 - 15]);
    exp.extend_from_slice(&[0xf1, 0xff, 32, 0]);
    exp.extend_from_slice(&426437u32.to_le_bytes());
    assert_eq!(b, exp);
}

#[test]
fn records_and_skips_cover_the_table() {
    let t = table();
    let mut b = Vec::new();
    write_kmer_blocks(&mut b, &t);
    let mut at = 0usize;
    let mut skips = 0u64;
    let mut records = 0u64;
    while at < b.len() {
        let (s, tc, n) = read_skip(&b[at..]).unwrap();
        skips += s;
        records += 1;
        at += n;
        let k = (skips + records - 1) as usize;
        let hits = t[k].iter().take_while(|x| **x != 0).count();
        if tc < 8 {
            at += 4 * hits;
        }
    }
    let last_mapped = t.iter().rposition(|v| v[0] != 0).unwrap();
    let trailing = (t.len() - 1 - last_mapped) as u64;
    assert_eq!(records, 4);
    assert_eq!(skips + records + trailing, t.len() as u64);
}

#[test]
fn closing_block() {
    let mut b = Vec::new();
    write_close(&mut b, 0x01020304);
    assert_eq!(b, vec![4, 3, 2, 1, b'V', b'C', b'M', b'K']);
}

#[test]
fn header_and_file_framing() {
    let regs = parse_bed(b"chr1\t10\t20\nchr2\t5\t8\n").unwrap();
    let kw = KmerWork::new();
    let h = KmcvHeader::new(&regs, &kw, 0xdeadbeef);
    let mut hb = Vec::new();
    h.write(&mut hb);
    assert_eq!(hb.len(), 52);
    assert_eq!(&hb[0..8], &[b'K', b'M', b'C', b'V', 2, 0, 15, 8]);
    assert_eq!(&hb[8..12], &0xdeadbeefu32.to_le_bytes());
    assert_eq!(&hb[12..16], &2u32.to_le_bytes());
    assert_eq!(&hb[16..20], &2u32.to_le_bytes());
    assert_eq!(&hb[20..52], &[0u8; 32]);
    let f = kmcv_file(&regs, &kw, 0xdeadbeef).unwrap();
    assert_eq!(&f[..52], &hb[..]);
    let mut rest = Vec::new();
    rest.extend_from_slice(&4u16.to_le_bytes());
    rest.extend_from_slice(b"chr1");
    rest.extend_from_slice(&4u16.to_le_bytes());
    rest.extend_from_slice(b"chr2");
    for (c, s, e) in [(0u32, 10u32, 20u32), (1, 5, 8)] {
        rest.extend_from_slice(&c.to_le_bytes());
        rest.extend_from_slice(&s.to_le_bytes());
        rest.extend_from_slice(&e.to_le_bytes());
    }
    rest.extend_from_slice(&0xdeadbeefu32.to_le_bytes());
    rest.extend_from_slice(b"VCMK");
    assert_eq!(&f[52..], &rest[..]);
}

#[test]
fn long_contig_name_is_an_error() {
    let mut regs = Regions::new();
    let name = "c".repeat(70000);
    regs.get_or_insert_contig_regions(&name).add_region(Region::new(0, 5, 1));
    regs.normalize();
    let kw = KmerWork::new();
    assert_eq!(kmcv_file(&regs, &kw, 1), Err(KmcvError::ContigNameTooLong));
}
