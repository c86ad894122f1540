use rfaster2::composition::{count_ambiguous, count_at_least, count_gc};
use rfaster2::kmer::count_kmers;
use rfaster2::nx::nx;
use rfaster2::subsample::Subsampler;
use rfaster2::{Error, Record};

fn rec(bases: &[u8]) -> Record {
    Record::new(bases.to_vec(), vec![73u8; bases.len()]).unwrap()
}

#[test]
fn count_ambiguous_exact() {
    assert_eq!(count_ambiguous(&b"NanNn".to_vec()), 4);
    assert_eq!(count_ambiguous(&b"ACGT".to_vec()), 0);
    assert_eq!(count_ambiguous(&Vec::new()), 0);
}

#[test]
fn count_gc_exact() {
    assert_eq!(count_gc(&b"GgCcAT".to_vec()), 4);
    assert_eq!(count_gc(&b"AATT".to_vec()), 0);
    assert_eq!(count_gc(&Vec::new()), 0);
}

#[test]
fn count_at_least_exact() {
    assert_eq!(count_at_least(&vec![52, 53, 63, 73], 53), 3);
    assert_eq!(count_at_least(&vec![52, 53, 63, 73], 63), 2);
    assert_eq!(count_at_least(&Vec::new(), 53), 0);
}

#[test]
fn subsampler_selects_every_nth() {
    let mut sub = Subsampler::new(3).unwrap();
    assert!(!sub.observe());
    assert!(!sub.observe());
    assert!(sub.observe());
    assert!(!sub.observe());
    assert!(!sub.observe());
    assert!(sub.observe());
}

#[test]
fn subsampler_stride_one_selects_every_record() {
    let mut sub = Subsampler::new(1).unwrap();
    for _ in 0..5 {
        assert!(sub.observe());
    }
}

#[test]
fn subsampler_zero_stride_is_invalid() {
    assert_eq!(Subsampler::new(0).err(), Some(Error::InvalidArgument));
}

#[test]
fn nx_half_fraction_scenario() {
    // Sorted lengths [10, 20, 30], cumulative sums [10, 30, 60], half-sum
    // 30: the first cumulative sum strictly above 30 is 60, so N50 is 30.
    let mut lens = vec![10, 20, 30];
    assert_eq!(nx(&mut lens, 1, 2), Ok(30));
}

#[test]
fn nx_sorts_its_input() {
    let mut lens = vec![30, 10, 20];
    assert_eq!(nx(&mut lens, 1, 2), Ok(30));
    assert_eq!(lens, vec![10, 20, 30]);
}

#[test]
fn nx_full_fraction_is_maximum() {
    let mut lens = vec![30, 10, 20];
    assert_eq!(nx(&mut lens, 1, 1), Ok(30));
    let mut same = vec![5, 5];
    assert_eq!(nx(&mut same, 1, 1), Ok(5));
}

#[test]
fn nx_grows_with_the_fraction() {
    // Total 60: at fraction 1/5 the threshold is 12 and the answer 20; at
    // fraction 1/2 the threshold is 30 and the answer 30.
    let mut lens = vec![10, 20, 30];
    assert_eq!(nx(&mut lens, 1, 5), Ok(20));
    let mut lens2 = vec![10, 20, 30];
    assert_eq!(nx(&mut lens2, 1, 2), Ok(30));
}

#[test]
fn nx_empty_input_is_degenerate() {
    let mut lens: Vec<usize> = Vec::new();
    assert_eq!(nx(&mut lens, 1, 2), Err(Error::DegenerateInput));
}

#[test]
fn nx_rejects_bad_fractions() {
    let mut lens = vec![10, 20];
    assert_eq!(nx(&mut lens, 0, 2), Err(Error::InvalidArgument));
    assert_eq!(nx(&mut lens, 3, 2), Err(Error::InvalidArgument));
    assert_eq!(nx(&mut lens, 1, 0), Err(Error::InvalidArgument));
}

#[test]
fn kmer_counts_in_lexicographic_key_order() {
    // "TATA" offers the windows TA, AT, TA; the keys run AT before TA, so
    // the values come out [1, 2] whatever the insertion order was.
    let records = vec![rec(b"TATA")];
    let table = count_kmers(&records, 2, 1).unwrap();
    assert_eq!(table.keys, vec![b"AT".to_vec(), b"TA".to_vec()]);
    assert_eq!(table.values(), vec![1, 2]);
}

#[test]
fn kmer_record_of_width_k_is_skipped() {
    // The eligibility threshold is k + 1 bases: a two-base record offers no
    // two-base windows, a three-base record offers two.
    let records = vec![rec(b"AC")];
    let table = count_kmers(&records, 2, 1).unwrap();
    assert_eq!(table.values(), Vec::<u64>::new());

    let records = vec![rec(b"ACG")];
    let table = count_kmers(&records, 2, 1).unwrap();
    assert_eq!(table.keys, vec![b"AC".to_vec(), b"CG".to_vec()]);
    assert_eq!(table.values(), vec![1, 1]);
}

#[test]
fn kmer_counts_sum_to_window_count() {
    // Eligible records contribute len - k + 1 windows each: 4 - 2 + 1 plus
    // 5 - 2 + 1 makes 7; the two-base record contributes none.
    let records = vec![rec(b"AAAA"), rec(b"AC"), rec(b"ACGTA")];
    let table = count_kmers(&records, 2, 1).unwrap();
    let total: u64 = table.values().iter().sum();
    assert_eq!(total, (4 - 2 + 1) + (5 - 2 + 1));
}

#[test]
fn kmer_stride_two_skips_odd_records() {
    let records = vec![rec(b"AAAA"), rec(b"CCCC")];
    let table = count_kmers(&records, 2, 2).unwrap();
    assert_eq!(table.keys, vec![b"CC".to_vec()]);
    assert_eq!(table.values(), vec![3]);
}

#[test]
fn kmer_rejects_zero_arguments() {
    let records = vec![rec(b"ACGT")];
    assert_eq!(
        count_kmers(&records, 2, 0).err(),
        Some(Error::InvalidArgument)
    );
    assert_eq!(
        count_kmers(&records, 0, 1).err(),
        Some(Error::InvalidArgument)
    );
}
