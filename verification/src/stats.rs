//! The per-file statistics: read and base counts, per-record lengths,
//! per-selected-record GC composition and quality inputs, and the one-pass
//! summary aggregator that folds a whole file into a report.
use vstd::prelude::*;
use vstd::arithmetic::div_mod::lemma_fundamental_div_mod_converse;
use crate::{Error, Record, wf_records};
use crate::composition::{
    ambiguous_p, at_least_p, count_ambiguous, count_ambiguous_in, count_at_least,
    count_at_least_in, count_gc, count_gc_in, gc_p, lemma_count_if_le_len,
};
use crate::nx::{lemma_sum_prefix_le, lemma_sum_step, nx, spec_nx, sum_of};
use crate::subsample::{selected, Subsampler};

verus! {

/// The quality byte at or above which a base counts as Phred 20 or better.
pub const Q20_BYTE: u8 = 53;

/// The quality byte at or above which a base counts as Phred 30 or better.
pub const Q30_BYTE: u8 = 63;

/// The per-record lengths of a file, in file order.
pub open spec fn spec_lengths(rs: Seq<Record>) -> Seq<usize> {
    rs.map_values(|r: Record| r.bases@.len() as usize)
}

/// Folds a per-record figure across a file.
pub open spec fn rec_sum(rs: Seq<Record>, f: spec_fn(Record) -> int) -> int
    decreases rs.len(),
{
    if rs.len() == 0 {
        0
    } else {
        rec_sum(rs.drop_last(), f) + f(rs.last())
    }
}

/// The ambiguous bases of one record.
pub open spec fn ambiguous_of() -> spec_fn(Record) -> int {
    |r: Record| count_ambiguous_in(r.bases@) as int
}

/// The GC bases of one record.
pub open spec fn gc_of() -> spec_fn(Record) -> int {
    |r: Record| count_gc_in(r.bases@) as int
}

/// The bases of one record whose quality byte reaches `t`.
pub open spec fn qual_at_least_of(t: u8) -> spec_fn(Record) -> int {
    |r: Record| count_at_least_in(r.quals@, t) as int
}

/// Extending a prefix by one record adds that record's figure.
proof fn lemma_rec_sum_step(rs: Seq<Record>, f: spec_fn(Record) -> int, i: int)
    requires
        0 <= i < rs.len(),
    ensures
        rec_sum(rs.subrange(0, i + 1), f) == rec_sum(rs.subrange(0, i), f) + f(rs[i]),
{
    let t = rs.subrange(0, i + 1);
    assert(t.drop_last() =~= rs.subrange(0, i));
}

/// The smallest record length of a non-empty file.
pub open spec fn spec_min_len(rs: Seq<Record>) -> int
    decreases rs.len(),
{
    if rs.len() == 0 {
        0
    } else if rs.len() == 1 {
        rs[0].bases@.len() as int
    } else if rs.last().bases@.len() < spec_min_len(rs.drop_last()) {
        rs.last().bases@.len() as int
    } else {
        spec_min_len(rs.drop_last())
    }
}

/// The largest record length of a non-empty file.
pub open spec fn spec_max_len(rs: Seq<Record>) -> int
    decreases rs.len(),
{
    if rs.len() == 0 {
        0
    } else if rs.len() == 1 {
        rs[0].bases@.len() as int
    } else if rs.last().bases@.len() > spec_max_len(rs.drop_last()) {
        rs.last().bases@.len() as int
    } else {
        spec_max_len(rs.drop_last())
    }
}

/// One step of the running minimum and maximum.
proof fn lemma_min_max_step(rs: Seq<Record>, i: int)
    requires
        1 <= i < rs.len(),
    ensures
        spec_min_len(rs.subrange(0, i + 1)) == if rs[i].bases@.len() < spec_min_len(
            rs.subrange(0, i),
        ) {
            rs[i].bases@.len() as int
        } else {
            spec_min_len(rs.subrange(0, i))
        },
        spec_max_len(rs.subrange(0, i + 1)) == if rs[i].bases@.len() > spec_max_len(
            rs.subrange(0, i),
        ) {
            rs[i].bases@.len() as int
        } else {
            spec_max_len(rs.subrange(0, i))
        },
{
    let t = rs.subrange(0, i + 1);
    assert(t.drop_last() =~= rs.subrange(0, i));
    assert(t.last() == rs[i]);
}

/// There are exactly as many reported lengths as reads.
pub proof fn lemma_lengths_count_matches_reads(rs: Seq<Record>)
    ensures
        spec_lengths(rs).len() == rs.len(),
{
}

/// The base count of a file is the sum of its reported lengths.
pub proof fn lemma_base_count_is_sum_of_lengths(rs: Seq<Record>, ls: Seq<usize>, b: u64)
    requires
        ls == spec_lengths(rs),
        b == sum_of(spec_lengths(rs)),
    ensures
        b == sum_of(ls),
{
}

/// The number of reads in a file.
pub fn read_count(records: &Vec<Record>) -> (n: usize)
    ensures
        n == records@.len(),
{
    records.len()
}

/// The per-record lengths of a file, in file order.
pub fn lengths(records: &Vec<Record>) -> (r: Vec<usize>)
    ensures
        r@ == spec_lengths(records@),
{
    let mut r: Vec<usize> = Vec::new();
    let mut i: usize = 0;
    while i < records.len()
        invariant
            i <= records@.len(),
            r@.len() == i,
            forall|j: int| 0 <= j < i ==> r@[j] == records@[j].bases@.len(),
        decreases records@.len() - i,
    {
        r.push(records[i].bases.len());
        i = i + 1;
    }
    proof {
        assert(r@ =~= spec_lengths(records@));
    }
    r
}

/// The number of bases in a file: the sum of all record lengths.
pub fn base_count(records: &Vec<Record>) -> (b: u64)
    requires
        sum_of(spec_lengths(records@)) <= u64::MAX,
    ensures
        b == sum_of(spec_lengths(records@)),
{
    let ghost ls = spec_lengths(records@);
    let mut b: u64 = 0;
    let mut i: usize = 0;
    while i < records.len()
        invariant
            i <= records@.len(),
            ls == spec_lengths(records@),
            sum_of(ls) <= u64::MAX,
            b == sum_of(ls.subrange(0, i as int)),
        decreases records@.len() - i,
    {
        proof {
            lemma_sum_step(ls, i as int);
            lemma_sum_prefix_le(ls, i + 1);
        }
        b = b + (records[i].bases.len() as u64);
        i = i + 1;
    }
    proof {
        assert(ls.subrange(0, ls.len() as int) =~= ls);
    }
    b
}

/// GC count and length of every record the stride selects, in file order:
/// one pair per selected record, `read_count / stride` pairs in all.
pub fn gc_counts(records: &Vec<Record>, stride: usize) -> (r: Result<Vec<(usize, usize)>, Error>)
    ensures
        stride == 0 ==> r == Err::<Vec<(usize, usize)>, Error>(Error::InvalidArgument),
        stride >= 1 ==> (r matches Ok(v) && v@.len() == (records@.len() as int) / (stride as int)
            && (forall|j: int|
            0 <= j < v@.len() ==> (#[trigger] v@[j]).0 == count_gc_in(
                records@[(j + 1) * (stride as int) - 1].bases@,
            ) && v@[j].1 == records@[(j + 1) * (stride as int) - 1].bases@.len())),
{
    let mut sub = match Subsampler::new(stride) {
        Err(e) => {
            return Err(e);
        },
        Ok(s) => s,
    };
    let ghost rs = records@;
    let mut v: Vec<(usize, usize)> = Vec::new();
    let n = records.len();
    let mut i: usize = 0;
    proof {
        assert(v@.len() * stride == 0) by (nonlinear_arith)
            requires
                v@.len() == 0,
        ;
    }
    while i < n
        invariant
            i <= n,
            n == rs.len(),
            rs == records@,
            stride >= 1,
            sub.wf(),
            sub.stride == stride,
            sub.counter == i - v@.len() * stride,
            forall|j: int|
                0 <= j < v@.len() ==> (#[trigger] v@[j]).0 == count_gc_in(
                    rs[(j + 1) * (stride as int) - 1].bases@,
                ) && v@[j].1 == rs[(j + 1) * (stride as int) - 1].bases@.len(),
        decreases n - i,
    {
        let sel = sub.observe();
        if sel {
            let ghost oldv = v@;
            let rec = &records[i];
            let g = count_gc(&rec.bases);
            v.push((g, rec.bases.len()));
            proof {
                assert((oldv.len() + 1) * (stride as int) == oldv.len() * (stride as int) + (
                stride as int)) by (nonlinear_arith);
                assert((v@.len() as int) * (stride as int) - 1 == i);
                assert forall|j: int|
                    0 <= j < v@.len() implies (#[trigger] v@[j]).0 == count_gc_in(
                    rs[(j + 1) * (stride as int) - 1].bases@,
                ) && v@[j].1 == rs[(j + 1) * (stride as int) - 1].bases@.len() by {
                    if j < oldv.len() {
                        assert(v@[j] == oldv[j]);
                    } else {
                        assert(j == v@.len() - 1);
                        assert((j + 1) * (stride as int) - 1 == i);
                    }
                }
            }
        }
        i = i + 1;
    }
    proof {
        lemma_fundamental_div_mod_converse(
            n as int,
            stride as int,
            v@.len() as int,
            sub.counter as int,
        );
    }
    Ok(v)
}

/// Copies a byte vector.
fn copy_bytes(v: &Vec<u8>) -> (r: Vec<u8>)
    ensures
        r@ == v@,
{
    let mut r: Vec<u8> = Vec::new();
    let mut i: usize = 0;
    while i < v.len()
        invariant
            i <= v@.len(),
            r@ == v@.subrange(0, i as int),
        decreases v@.len() - i,
    {
        r.push(v[i]);
        proof {
            assert(r@ =~= v@.subrange(0, i + 1));
        }
        i = i + 1;
    }
    proof {
        assert(v@.subrange(0, v@.len() as int) =~= v@);
    }
    r
}

/// The quality strings of every record the stride selects, in file order.
/// A zero-length selected record is degenerate input: no mean error
/// probability can be taken over it.
pub fn selected_quals(records: &Vec<Record>, stride: usize) -> (r: Result<Vec<Vec<u8>>, Error>)
    requires
        wf_records(records@),
    ensures
        stride == 0 ==> r == Err::<Vec<Vec<u8>>, Error>(Error::InvalidArgument),
        r == Err::<Vec<Vec<u8>>, Error>(Error::DegenerateInput) <==> (stride >= 1 && exists|i: int|
            0 <= i < records@.len() && #[trigger] selected(i, stride as int)
                && records@[i].bases@.len() == 0),
        stride >= 1 && !(exists|i: int|
            0 <= i < records@.len() && #[trigger] selected(i, stride as int)
                && records@[i].bases@.len() == 0) ==> (r matches Ok(v) && v@.len()
            == (records@.len() as int) / (stride as int) && (forall|j: int|
            0 <= j < v@.len() ==> (#[trigger] v@[j])@ == records@[(j + 1) * (stride as int)
                - 1].quals@)),
{
    let mut sub = match Subsampler::new(stride) {
        Err(e) => {
            return Err(e);
        },
        Ok(s) => s,
    };
    let ghost rs = records@;
    let mut v: Vec<Vec<u8>> = Vec::new();
    let n = records.len();
    let mut i: usize = 0;
    proof {
        assert(v@.len() * stride == 0) by (nonlinear_arith)
            requires
                v@.len() == 0,
        ;
    }
    while i < n
        invariant
            i <= n,
            n == rs.len(),
            rs == records@,
            stride >= 1,
            sub.wf(),
            sub.stride == stride,
            sub.counter == i - v@.len() * stride,
            forall|j: int|
                0 <= j < v@.len() ==> (#[trigger] v@[j])@ == rs[(j + 1) * (stride as int)
                    - 1].quals@,
            forall|j: int|
                0 <= j < i && #[trigger] selected(j, stride as int) ==> rs[j].bases@.len() > 0,
        decreases n - i,
    {
        let ghost old_counter = sub.counter;
        let sel = sub.observe();
        proof {
            if sel {
                assert((v@.len() + 1) * (stride as int) == v@.len() * (stride as int) + (
                stride as int)) by (nonlinear_arith);
                lemma_fundamental_div_mod_converse(
                    i + 1,
                    stride as int,
                    v@.len() as int + 1,
                    0,
                );
                assert(selected(i as int, stride as int));
            } else {
                lemma_fundamental_div_mod_converse(
                    i + 1,
                    stride as int,
                    v@.len() as int,
                    old_counter + 1,
                );
                assert(!selected(i as int, stride as int));
            }
        }
        if sel {
            let ghost oldv = v@;
            let rec = &records[i];
            if rec.bases.len() == 0 {
                return Err(Error::DegenerateInput);
            }
            v.push(copy_bytes(&rec.quals));
            proof {
                assert((v@.len() as int) * (stride as int) - 1 == i);
                assert forall|j: int|
                    0 <= j < v@.len() implies (#[trigger] v@[j])@ == rs[(j + 1) * (stride as int)
                    - 1].quals@ by {
                    if j < oldv.len() {
                        assert(v@[j] == oldv[j]);
                    } else {
                        assert(j == v@.len() - 1);
                        assert((j + 1) * (stride as int) - 1 == i);
                    }
                }
            }
        }
        i = i + 1;
    }
    proof {
        lemma_fundamental_div_mod_converse(
            n as int,
            stride as int,
            v@.len() as int,
            sub.counter as int,
        );
    }
    Ok(v)
}

/// The fixed-shape summary of one file.
#[derive(Clone, Copy, Debug, PartialEq, Eq, Structural)]
pub struct Report {
    pub reads: usize,
    pub bases: u64,
    pub ambiguous_bases: u64,
    pub min_len: usize,
    pub max_len: usize,
    pub n50: usize,
    pub gc_bases: u64,
    pub bases_q20: u64,
    pub bases_q30: u64,
}

/// Folds one pass over the whole file into a report: read and base counts,
/// ambiguous and GC bases, minimum and maximum length, the N50, and the
/// bases at or above Phred 20 and Phred 30. An empty file has no minimum,
/// maximum or N50 and is degenerate input.
pub fn summary(records: &Vec<Record>) -> (r: Result<Report, Error>)
    requires
        wf_records(records@),
        sum_of(spec_lengths(records@)) <= u64::MAX,
    ensures
        records@.len() == 0 ==> r == Err::<Report, Error>(Error::DegenerateInput),
        records@.len() > 0 ==> (r matches Ok(rep) && rep.reads == records@.len() && rep.bases
            == sum_of(spec_lengths(records@)) && rep.ambiguous_bases == rec_sum(
            records@,
            ambiguous_of(),
        ) && rep.min_len == spec_min_len(records@) && rep.max_len == spec_max_len(records@)
            && rep.n50 == spec_nx(spec_lengths(records@), 1, 2) && rep.gc_bases == rec_sum(
            records@,
            gc_of(),
        ) && rep.bases_q20 == rec_sum(records@, qual_at_least_of(Q20_BYTE)) && rep.bases_q30
            == rec_sum(records@, qual_at_least_of(Q30_BYTE))),
{
    let n = records.len();
    if n == 0 {
        return Err(Error::DegenerateInput);
    }
    let ghost rs = records@;
    let ghost ls = spec_lengths(records@);
    let mut lens: Vec<usize> = Vec::new();
    let mut bases: u64 = 0;
    let mut amb: u64 = 0;
    let mut gcb: u64 = 0;
    let mut q20: u64 = 0;
    let mut q30: u64 = 0;
    let mut minl: usize = 0;
    let mut maxl: usize = 0;
    let mut i: usize = 0;
    while i < n
        invariant
            i <= n,
            n == rs.len(),
            rs == records@,
            wf_records(rs),
            ls == spec_lengths(records@),
            sum_of(ls) <= u64::MAX,
            lens@.len() == i,
            forall|j: int| 0 <= j < i ==> lens@[j] == rs[j].bases@.len(),
            bases == sum_of(ls.subrange(0, i as int)),
            amb == rec_sum(rs.subrange(0, i as int), ambiguous_of()),
            gcb == rec_sum(rs.subrange(0, i as int), gc_of()),
            q20 == rec_sum(rs.subrange(0, i as int), qual_at_least_of(Q20_BYTE)),
            q30 == rec_sum(rs.subrange(0, i as int), qual_at_least_of(Q30_BYTE)),
            amb <= bases,
            gcb <= bases,
            q20 <= bases,
            q30 <= bases,
            i >= 1 ==> minl == spec_min_len(rs.subrange(0, i as int)),
            i >= 1 ==> maxl == spec_max_len(rs.subrange(0, i as int)),
        decreases n - i,
    {
        let rec = &records[i];
        let len = rec.bases.len();
        proof {
            lemma_sum_step(ls, i as int);
            lemma_sum_prefix_le(ls, i + 1);
            assert(ls[i as int] == rs[i as int].bases@.len());
            lemma_rec_sum_step(rs, ambiguous_of(), i as int);
            lemma_rec_sum_step(rs, gc_of(), i as int);
            lemma_rec_sum_step(rs, qual_at_least_of(Q20_BYTE), i as int);
            lemma_rec_sum_step(rs, qual_at_least_of(Q30_BYTE), i as int);
            lemma_count_if_le_len(rec.bases@, ambiguous_p());
            lemma_count_if_le_len(rec.bases@, gc_p());
            lemma_count_if_le_len(rec.quals@, at_least_p(Q20_BYTE));
            lemma_count_if_le_len(rec.quals@, at_least_p(Q30_BYTE));
            assert(rs[i as int].wf());
        }
        lens.push(len);
        bases = bases + (len as u64);
        amb = amb + (count_ambiguous(&rec.bases) as u64);
        gcb = gcb + (count_gc(&rec.bases) as u64);
        q20 = q20 + (count_at_least(&rec.quals, Q20_BYTE) as u64);
        q30 = q30 + (count_at_least(&rec.quals, Q30_BYTE) as u64);
        if i == 0 {
            minl = len;
            maxl = len;
            proof {
                assert(rs.subrange(0, 1)[0] == rs[0]);
            }
        } else {
            proof {
                lemma_min_max_step(rs, i as int);
            }
            if len < minl {
                minl = len;
            }
            if len > maxl {
                maxl = len;
            }
        }
        i = i + 1;
    }
    proof {
        assert(rs.subrange(0, rs.len() as int) =~= rs);
        assert(ls.subrange(0, ls.len() as int) =~= ls);
        assert(lens@ =~= ls);
    }
    let n50 = match nx(&mut lens, 1, 2) {
        Ok(v) => v,
        Err(_) => {
            proof {
                assert(false);
            }
            0
        },
    };
    Ok(
        Report {
            reads: n,
            bases,
            ambiguous_bases: amb,
            min_len: minl,
            max_len: maxl,
            n50,
            gc_bases: gcb,
            bases_q20: q20,
            bases_q30: q30,
        },
    )
}

} // verus!

