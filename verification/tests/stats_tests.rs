use rfaster2::stats::{base_count, gc_counts, lengths, read_count, selected_quals, summary};
use rfaster2::{Error, Record};

fn rec(bases: &[u8]) -> Record {
    Record::new(bases.to_vec(), vec![73u8; bases.len()]).unwrap()
}

fn rec_q(bases: &[u8], quals: &[u8]) -> Record {
    Record::new(bases.to_vec(), quals.to_vec()).unwrap()
}

#[test]
fn record_rejects_mismatched_lengths() {
    assert_eq!(
        Record::new(b"ACGT".to_vec(), b"II".to_vec()).err(),
        Some(Error::ParseError)
    );
    assert!(Record::new(b"ACGT".to_vec(), b"IIII".to_vec()).is_ok());
}

#[test]
fn lengths_and_read_count_agree() {
    let records = vec![rec(b"ACGT"), rec(b"A"), rec(b"GGGGGGG")];
    let ls = lengths(&records);
    assert_eq!(ls, vec![4, 1, 7]);
    assert_eq!(ls.len(), read_count(&records));
}

#[test]
fn base_count_is_sum_of_lengths() {
    let records = vec![rec(b"ACGT"), rec(b"A"), rec(b"GGGGGGG")];
    let ls = lengths(&records);
    let total: u64 = ls.iter().map(|&l| l as u64).sum();
    assert_eq!(base_count(&records), total);
    assert_eq!(base_count(&records), 12);
}

#[test]
fn base_count_empty_file_is_zero() {
    let records: Vec<Record> = Vec::new();
    assert_eq!(base_count(&records), 0);
    assert_eq!(read_count(&records), 0);
}

#[test]
fn gc_counts_stride_one_selects_every_record() {
    let records = vec![rec(b"GGCA"), rec(b"AT"), rec(b"CCC")];
    let pairs = gc_counts(&records, 1).unwrap();
    assert_eq!(pairs, vec![(3, 4), (0, 2), (3, 3)]);
}

#[test]
fn gc_counts_stride_three_takes_every_third_record() {
    // Seven records: with stride 3 the selected records are the 3rd and the
    // 6th, and the output holds floor(7 / 3) == 2 entries.
    let records = vec![
        rec(b"A"),
        rec(b"C"),
        rec(b"GG"),
        rec(b"T"),
        rec(b"A"),
        rec(b"CCCC"),
        rec(b"G"),
    ];
    let pairs = gc_counts(&records, 3).unwrap();
    assert_eq!(pairs.len(), 7 / 3);
    assert_eq!(pairs, vec![(2, 2), (4, 4)]);
}

#[test]
fn gc_counts_zero_stride_is_invalid() {
    let records = vec![rec(b"ACGT")];
    assert_eq!(gc_counts(&records, 0).err(), Some(Error::InvalidArgument));
}

#[test]
fn selected_quals_returns_quality_strings() {
    let records = vec![rec_q(b"AC", b"!I"), rec_q(b"GGG", b"III")];
    let quals = selected_quals(&records, 1).unwrap();
    assert_eq!(quals, vec![b"!I".to_vec(), b"III".to_vec()]);
}

#[test]
fn selected_quals_empty_record_is_degenerate() {
    let records = vec![rec(b"")];
    assert_eq!(
        selected_quals(&records, 1).err(),
        Some(Error::DegenerateInput)
    );
}

#[test]
fn selected_quals_skips_unselected_empty_record() {
    // The empty record stands first; with stride 2 only the second record
    // is selected, so no degenerate record is touched.
    let records = vec![rec(b""), rec_q(b"ACGT", b"IIII")];
    let quals = selected_quals(&records, 2).unwrap();
    assert_eq!(quals, vec![b"IIII".to_vec()]);
}

#[test]
fn selected_quals_zero_stride_is_invalid() {
    let records = vec![rec(b"ACGT")];
    assert_eq!(
        selected_quals(&records, 0).err(),
        Some(Error::InvalidArgument)
    );
}

#[test]
fn summary_of_three_records() {
    // Lengths 10, 20 and 30, uniform GC, no ambiguous bases: the minimum is
    // 10, the maximum 30, and the N50 over sorted [10, 20, 30] with
    // cumulative sums [10, 30, 60] against half-sum 30 is 30.
    let records = vec![
        rec(&[b'G'; 10]),
        rec(&[b'C'; 20]),
        rec(&[b'G'; 30]),
    ];
    let rep = summary(&records).unwrap();
    assert_eq!(rep.reads, 3);
    assert_eq!(rep.bases, 60);
    assert_eq!(rep.ambiguous_bases, 0);
    assert_eq!(rep.min_len, 10);
    assert_eq!(rep.max_len, 30);
    assert_eq!(rep.n50, 30);
    assert_eq!(rep.gc_bases, 60);
    assert_eq!(rep.bases_q20, 60);
    assert_eq!(rep.bases_q30, 60);
}

#[test]
fn summary_empty_file_is_degenerate() {
    let records: Vec<Record> = Vec::new();
    assert_eq!(summary(&records).err(), Some(Error::DegenerateInput));
}

#[test]
fn summary_counts_ambiguous_and_quality_thresholds() {
    // Quality bytes 52, 53, 63, 62: three reach the Phred 20 byte (53) and
    // one reaches the Phred 30 byte (63).
    let records = vec![rec_q(b"ANgN", &[52, 53, 63, 62])];
    let rep = summary(&records).unwrap();
    assert_eq!(rep.reads, 1);
    assert_eq!(rep.bases, 4);
    assert_eq!(rep.ambiguous_bases, 2);
    assert_eq!(rep.gc_bases, 1);
    assert_eq!(rep.bases_q20, 3);
    assert_eq!(rep.bases_q30, 1);
    assert_eq!(rep.min_len, 4);
    assert_eq!(rep.max_len, 4);
    assert_eq!(rep.n50, 4);
}
