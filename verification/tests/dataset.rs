//! Vector files and recall.

use pg_am_hnsw::dataset::{
    check_regular, read_fvecs, read_fvecs_with_budget, read_ivecs, read_ivecs_with_budget,
    read_vecs_stream, recall_at_k, VecsReader,
};
use pg_am_hnsw::{HnswError, NodeId};
use std::io::Read;

fn bits(v: &[f32]) -> Vec<u32> {
    v.iter().map(|x| x.to_bits()).collect()
}

fn fvecs_bytes(records: &[&[f32]]) -> Vec<u8> {
    let mut v = Vec::new();
    for r in records {
        v.extend_from_slice(&(r.len() as i32).to_le_bytes());
        for x in *r {
            v.extend_from_slice(&x.to_le_bytes());
        }
    }
    v
}

/// Reads a vector file from a source, the way a file is read.
fn read_from<R: Read>(
    mut source: R,
    file_len: u64,
    budget: u64,
    kind: &'static str,
) -> Result<Vec<Vec<u32>>, HnswError> {
    let mut reader = VecsReader::new(kind, file_len, budget)?;
    while !reader.is_done() {
        let mut buf = vec![0u8; reader.want()];
        let mut filled = 0;
        while filled < buf.len() {
            let n = source.read(&mut buf[filled..]).unwrap();
            if n == 0 {
                break;
            }
            filled += n;
        }
        reader.feed(&buf[..filled])?;
    }
    Ok(reader.into_rows())
}

fn ratio(gt: &[Vec<i32>], ret: &[Vec<NodeId>], k: usize, base: u32) -> f64 {
    let score = recall_at_k(gt, ret, k, base).unwrap();
    score.hits as f64 / (score.queries * score.k) as f64
}

fn has(err: &HnswError, needle: &str) -> bool {
    err.to_string().contains(needle)
}

#[test]
fn roundtrip_fvecs_and_ivecs() {
    let got = read_fvecs(&fvecs_bytes(&[&[1.0, 2.0], &[3.0, 4.0]])).unwrap();
    assert_eq!(got, vec![bits(&[1.0, 2.0]), bits(&[3.0, 4.0])]);

    let mut iv = Vec::new();
    iv.extend_from_slice(&2i32.to_le_bytes());
    iv.extend_from_slice(&7i32.to_le_bytes());
    iv.extend_from_slice(&(-3i32).to_le_bytes());
    assert_eq!(read_ivecs(&iv).unwrap(), vec![vec![7, -3]]);
}

#[test]
fn bad_files_fail_loudly() {
    assert!(matches!(read_fvecs(&[0u8; 6]), Err(HnswError::Corrupted(_))));
    assert!(matches!(
        read_fvecs(&0i32.to_le_bytes()),
        Err(HnswError::Corrupted(_))
    ));
    let mut b = fvecs_bytes(&[&[1.0, 2.0]]);
    b.extend_from_slice(&[0u8; 4]);
    assert!(matches!(read_fvecs(&b), Err(HnswError::Corrupted(_))));
    let mut b = fvecs_bytes(&[&[1.0, 2.0]]);
    b.extend_from_slice(&3i32.to_le_bytes());
    b.extend_from_slice(&[0u8; 8]);
    assert!(matches!(read_fvecs(&b), Err(HnswError::Corrupted(_))));
}

#[test]
fn forged_huge_dim_rejected_before_allocation() {
    let mut b = i32::MAX.to_le_bytes().to_vec();
    b.extend_from_slice(&[0u8; 4]);
    let err = read_fvecs(&b).unwrap_err();
    assert!(
        matches!(err, HnswError::Corrupted(_)) && has(&err, "u16::MAX"),
        "unexpected error: {}",
        err.to_string()
    );

    let dim = i32::from(u16::MAX) + 1;
    let mut b = dim.to_le_bytes().to_vec();
    b.extend_from_slice(&[0u8; 4]);
    assert!(matches!(read_fvecs(&b), Err(HnswError::Corrupted(_))));
}

#[test]
fn whole_record_truncation_after_metadata_is_rejected() {
    let two = fvecs_bytes(&[&[1.0, 2.0], &[3.0, 4.0]]);
    let one = &two[..12];
    let err = read_vecs_stream(one, two.len() as u64, u64::MAX, "fvecs").unwrap_err();
    assert!(
        matches!(err, HnswError::Corrupted(_)) && has(&err, "shrank"),
        "unexpected error: {}",
        err.to_string()
    );

    let err = read_vecs_stream(&two[..], 12, u64::MAX, "fvecs").unwrap_err();
    assert!(
        matches!(err, HnswError::Corrupted(_)) && has(&err, "partial dim field"),
        "unexpected error: {}",
        err.to_string()
    );

    let got = read_vecs_stream(&two[..], two.len() as u64, u64::MAX, "fvecs").unwrap();
    assert_eq!(got, vec![bits(&[1.0, 2.0]), bits(&[3.0, 4.0])]);
    let got = read_from(std::io::Cursor::new(&two[..]), two.len() as u64, u64::MAX, "fvecs");
    assert_eq!(got.unwrap(), vec![bits(&[1.0, 2.0]), bits(&[3.0, 4.0])]);
}

struct GrowAfterFirstEof {
    prefix: std::io::Cursor<Vec<u8>>,
    tail: std::io::Cursor<Vec<u8>>,
    eof_reported: bool,
}

impl Read for GrowAfterFirstEof {
    fn read(&mut self, buf: &mut [u8]) -> std::io::Result<usize> {
        let n = self.prefix.read(buf)?;
        if n == 0 && !self.eof_reported {
            self.eof_reported = true;
            return Ok(0);
        }
        if n == 0 {
            return self.tail.read(buf);
        }
        Ok(n)
    }
}

#[test]
fn growth_after_clean_eof_is_rejected_by_the_probe() {
    let one_record = fvecs_bytes(&[&[1.0, 2.0]]);
    let reader = GrowAfterFirstEof {
        prefix: std::io::Cursor::new(one_record.clone()),
        tail: std::io::Cursor::new(vec![0u8]),
        eof_reported: false,
    };
    let err = read_from(reader, one_record.len() as u64, u64::MAX, "fvecs").unwrap_err();
    assert!(
        matches!(err, HnswError::Corrupted(_)) && has(&err, "grew after metadata"),
        "unexpected error: {}",
        err.to_string()
    );
}

struct InfiniteRecords<'a> {
    record: [u8; 12],
    pos: usize,
    bytes_read: &'a mut usize,
}

impl Read for InfiniteRecords<'_> {
    fn read(&mut self, buf: &mut [u8]) -> std::io::Result<usize> {
        for (i, b) in buf.iter_mut().enumerate() {
            *b = self.record[(self.pos + i) % 12];
        }
        self.pos = (self.pos + buf.len()) % 12;
        *self.bytes_read += buf.len();
        Ok(buf.len())
    }
}

#[test]
fn infinite_source_is_capped_at_metadata_length_plus_one() {
    let mut record = [0u8; 12];
    record[..4].copy_from_slice(&2i32.to_le_bytes());
    let mut counter = 0usize;
    let reader = InfiniteRecords {
        record,
        pos: 0,
        bytes_read: &mut counter,
    };
    let declared_len = 12u64 * 100_000;
    let err = read_from(reader, declared_len, u64::MAX, "fvecs").unwrap_err();
    assert!(
        matches!(err, HnswError::Corrupted(_)) && has(&err, "partial dim field"),
        "unexpected error: {}",
        err.to_string()
    );
    assert_eq!(counter as u64, declared_len + 1);
}

#[test]
fn non_regular_files_are_rejected() {
    check_regular("fvecs", true).unwrap();
    let err = check_regular("fvecs", false).unwrap_err();
    assert!(
        matches!(err, HnswError::InvalidArgument(_)) && has(&err, "regular file"),
        "unexpected error: {}",
        err.to_string()
    );
}

#[test]
fn budget_gate_rejects_oversized_files_before_reading() {
    let bytes = fvecs_bytes(&[&[1.0, 2.0], &[3.0, 4.0]]);
    let len = bytes.len() as u64;
    let got = read_fvecs_with_budget(&bytes, len).unwrap();
    assert_eq!(got, vec![bits(&[1.0, 2.0]), bits(&[3.0, 4.0])]);
    let err = read_fvecs_with_budget(&bytes, len - 1).unwrap_err();
    assert!(
        matches!(err, HnswError::InvalidArgument(_)) && has(&err, "budget"),
        "unexpected error: {}",
        err.to_string()
    );
    let mut iv = Vec::new();
    iv.extend_from_slice(&1i32.to_le_bytes());
    iv.extend_from_slice(&7i32.to_le_bytes());
    let got = read_ivecs_with_budget(&iv, iv.len() as u64).unwrap();
    assert_eq!(got, vec![vec![7]]);
    assert!(matches!(
        read_ivecs_with_budget(&iv, iv.len() as u64 - 1),
        Err(HnswError::InvalidArgument(_))
    ));

    let err = read_vecs_stream(&bytes[..], 1u64 << 40, 1u64 << 30, "fvecs").unwrap_err();
    assert!(
        matches!(err, HnswError::InvalidArgument(_))
            && has(&err, "1099511627776")
            && has(&err, "1073741824"),
        "unexpected error: {}",
        err.to_string()
    );
}

#[test]
fn recall_scoring_known_answers() {
    let gt = vec![vec![10, 20, 30, 40]];
    let ret = vec![vec![NodeId(20), NodeId(10), NodeId(99)]];
    let r = ratio(&gt, &ret, 3, 1000);
    assert!((r - 2.0 / 3.0).abs() < 1e-12);

    let ret = vec![vec![NodeId(10), NodeId(20), NodeId(30)]];
    assert_eq!(ratio(&gt, &ret, 3, 1000), 1.0);
    let ret = vec![vec![NodeId(1), NodeId(2), NodeId(3)]];
    assert_eq!(ratio(&gt, &ret, 3, 1000), 0.0);

    assert!(matches!(
        recall_at_k(&gt, &ret, 0, 1000),
        Err(HnswError::InvalidArgument(_))
    ));
    assert!(matches!(
        recall_at_k(&gt, &[], 3, 1000),
        Err(HnswError::InvalidArgument(_))
    ));
    assert!(matches!(
        recall_at_k(&[vec![10, 20]], &ret, 3, 1000),
        Err(HnswError::InvalidArgument(_))
    ));
    assert!(matches!(
        recall_at_k(&[], &[], 3, 1000),
        Err(HnswError::InvalidArgument(_))
    ));

    let gt_neg = vec![vec![-1, 20, 30]];
    assert!(matches!(
        recall_at_k(&gt_neg, &ret, 3, 1000),
        Err(HnswError::InvalidArgument(_))
    ));
    let ret_huge = vec![vec![NodeId(u32::MAX - 1), NodeId(10), NodeId(20)]];
    assert_eq!(ratio(&gt, &ret_huge, 3, u32::MAX), 2.0 / 3.0);
}

#[test]
fn recall_scoring_rejects_corrupt_inputs() {
    let ok_gt = vec![vec![10, 20, 30, 40]];
    let ok_ret = vec![vec![NodeId(10), NodeId(20), NodeId(30)]];

    let gt = vec![vec![10, 20, 1000]];
    let err = recall_at_k(&gt, &ok_ret, 3, 1000).unwrap_err();
    assert!(
        matches!(err, HnswError::InvalidArgument(_))
            && has(&err, "query 0")
            && has(&err, "base_count"),
        "unexpected error: {}",
        err.to_string()
    );

    let gt = vec![vec![10, 10, 30]];
    let err = recall_at_k(&gt, &ok_ret, 3, 1000).unwrap_err();
    assert!(
        matches!(err, HnswError::InvalidArgument(_)) && has(&err, "duplicate"),
        "unexpected error: {}",
        err.to_string()
    );

    let ret = vec![vec![NodeId(10), NodeId(20)]];
    let err = recall_at_k(&ok_gt, &ret, 3, 1000).unwrap_err();
    assert!(
        matches!(err, HnswError::InvalidArgument(_)) && has(&err, "query 0"),
        "unexpected error: {}",
        err.to_string()
    );

    let ret = vec![vec![NodeId(10), NodeId(10), NodeId(30)]];
    let err = recall_at_k(&ok_gt, &ret, 3, 1000).unwrap_err();
    assert!(
        matches!(err, HnswError::InvalidArgument(_)) && has(&err, "duplicate"),
        "unexpected error: {}",
        err.to_string()
    );

    let ret = vec![vec![NodeId(10), NodeId(20), NodeId(1000)]];
    let err = recall_at_k(&ok_gt, &ret, 3, 1000).unwrap_err();
    assert!(
        matches!(err, HnswError::InvalidArgument(_)) && has(&err, "base_count"),
        "unexpected error: {}",
        err.to_string()
    );
}

#[test]
fn a_file_emptied_after_metadata_is_rejected() {
    let err = read_vecs_stream(&[], 12, u64::MAX, "fvecs").unwrap_err();
    assert!(
        matches!(err, HnswError::Corrupted(_)) && has(&err, "shrank"),
        "unexpected error: {}",
        err.to_string()
    );
    assert!(has(&err, "no record"), "{}", err.to_string());
    let got = read_from(std::io::Cursor::new(Vec::new()), 12, u64::MAX, "ivecs");
    assert!(matches!(got, Err(HnswError::Corrupted(_))));
}

#[test]
fn what_is_read_has_the_declared_length() {
    let two = fvecs_bytes(&[&[1.0, 2.0], &[3.0, 4.0]]);
    for declared in (0..40u64).filter(|n| *n != two.len() as u64) {
        match read_vecs_stream(&two, declared, u64::MAX, "fvecs") {
            Ok(v) => assert!(declared == 0 && v.is_empty()),
            Err(e) => assert!(matches!(e, HnswError::Corrupted(_))),
        }
    }
    for end in 0..two.len() {
        let r = read_vecs_stream(&two[..end], two.len() as u64, u64::MAX, "fvecs");
        assert!(matches!(r, Err(HnswError::Corrupted(_))));
    }
}

#[test]
fn an_empty_file_holds_no_vectors() {
    assert_eq!(read_fvecs(&[]).unwrap(), Vec::<Vec<u32>>::new());
    assert!(VecsReader::new("fvecs", 0, 0).unwrap().is_done());
}

#[test]
fn errors_of_a_file_name_its_path() {
    let err = VecsReader::new("fvecs", 12, 4).unwrap_err();
    assert_eq!(
        err.to_string_for("/data/base.fvecs"),
        "invalid argument: fvecs file /data/base.fvecs is 12 bytes, exceeding the caller budget \
         of 4 bytes"
    );
    assert_eq!(
        err.to_string(),
        "invalid argument: fvecs file is 12 bytes, exceeding the caller budget of 4 bytes"
    );
    let err = read_vecs_stream(&[1], 12, u64::MAX, "ivecs").unwrap_err();
    assert_eq!(
        err.to_string_for("x"),
        "corrupted data: ivecs file x record 0 has a partial dim field (1 of 4 bytes) — file \
         changed under read"
    );
    assert_eq!(
        HnswError::ZeroVector.to_string_for("x"),
        HnswError::ZeroVector.to_string()
    );
}

#[test]
fn the_records_of_a_file_have_one_dimension() {
    let mut b = fvecs_bytes(&[&[1.0, 2.0]]);
    b.extend_from_slice(&fvecs_bytes(&[&[1.0]]));
    b.extend_from_slice(&[0; 4]);
    assert!(matches!(read_fvecs(&b), Err(HnswError::Corrupted(_))));
    for v in read_fvecs(&fvecs_bytes(&[&[1.0, 2.0], &[3.0, 4.0]])).unwrap() {
        assert_eq!(v.len(), 2);
    }
}
