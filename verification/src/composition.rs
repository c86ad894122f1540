//! Pure composition counters over sequence and quality bytes: ambiguous
//! bases, GC bases, and bases whose quality byte reaches a threshold.
use vstd::prelude::*;

verus! {

/// An ambiguous base: `'N'` or `'n'`.
pub open spec fn is_ambiguous(b: u8) -> bool {
    b == 78 || b == 110
}

/// A G or C base, either case: `'G'`, `'g'`, `'C'` or `'c'`.
pub open spec fn is_gc(b: u8) -> bool {
    b == 71 || b == 103 || b == 67 || b == 99
}

/// How many bytes of `s` satisfy `p`.
pub open spec fn count_if(s: Seq<u8>, p: spec_fn(u8) -> bool) -> nat
    decreases s.len(),
{
    if s.len() == 0 {
        0
    } else {
        count_if(s.drop_last(), p) + (if p(s.last()) { 1nat } else { 0nat })
    }
}

/// The predicate selecting ambiguous bases.
pub open spec fn ambiguous_p() -> spec_fn(u8) -> bool {
    |b: u8| is_ambiguous(b)
}

/// The predicate selecting GC bases.
pub open spec fn gc_p() -> spec_fn(u8) -> bool {
    |b: u8| is_gc(b)
}

/// The predicate selecting bytes at or above a threshold.
pub open spec fn at_least_p(t: u8) -> spec_fn(u8) -> bool {
    |b: u8| b >= t
}

/// How many bytes of `s` are ambiguous bases.
pub open spec fn count_ambiguous_in(s: Seq<u8>) -> nat {
    count_if(s, ambiguous_p())
}

/// How many bytes of `s` are GC bases.
pub open spec fn count_gc_in(s: Seq<u8>) -> nat {
    count_if(s, gc_p())
}

/// How many bytes of `s` are at or above the byte threshold `t`.
pub open spec fn count_at_least_in(s: Seq<u8>, t: u8) -> nat {
    count_if(s, at_least_p(t))
}

/// A selective count never exceeds the length counted over.
pub proof fn lemma_count_if_le_len(s: Seq<u8>, p: spec_fn(u8) -> bool)
    ensures
        count_if(s, p) <= s.len(),
    decreases s.len(),
{
    if s.len() > 0 {
        lemma_count_if_le_len(s.drop_last(), p);
    }
}

/// Extending a prefix by one byte extends its count by that byte's mark.
proof fn lemma_count_if_step(s: Seq<u8>, p: spec_fn(u8) -> bool, i: int)
    requires
        0 <= i < s.len(),
    ensures
        count_if(s.subrange(0, i + 1), p) == count_if(s.subrange(0, i), p) + (if p(s[i]) {
            1nat
        } else {
            0nat
        }),
{
    let t = s.subrange(0, i + 1);
    assert(t.drop_last() =~= s.subrange(0, i));
}

/// Counts the bytes of `bases` equal to `'N'` or `'n'`.
pub fn count_ambiguous(bases: &Vec<u8>) -> (n: usize)
    ensures
        n == count_ambiguous_in(bases@),
{
    let mut n: usize = 0;
    let mut i: usize = 0;
    while i < bases.len()
        invariant
            i <= bases@.len(),
            n <= i,
            n == count_ambiguous_in(bases@.subrange(0, i as int)),
        decreases bases@.len() - i,
    {
        proof {
            lemma_count_if_step(bases@, ambiguous_p(), i as int);
            assert(ambiguous_p()(bases@[i as int]) <==> is_ambiguous(bases@[i as int]));
        }
        let b = bases[i];
        if b == 78 || b == 110 {
            n = n + 1;
        }
        i = i + 1;
    }
    proof {
        assert(bases@.subrange(0, bases@.len() as int) =~= bases@);
    }
    n
}

/// Counts the bytes of `bases` equal to `'G'`, `'g'`, `'C'` or `'c'`.
pub fn count_gc(bases: &Vec<u8>) -> (n: usize)
    ensures
        n == count_gc_in(bases@),
{
    let mut n: usize = 0;
    let mut i: usize = 0;
    while i < bases.len()
        invariant
            i <= bases@.len(),
            n <= i,
            n == count_gc_in(bases@.subrange(0, i as int)),
        decreases bases@.len() - i,
    {
        proof {
            lemma_count_if_step(bases@, gc_p(), i as int);
            assert(gc_p()(bases@[i as int]) <==> is_gc(bases@[i as int]));
        }
        let b = bases[i];
        if b == 71 || b == 103 || b == 67 || b == 99 {
            n = n + 1;
        }
        i = i + 1;
    }
    proof {
        assert(bases@.subrange(0, bases@.len() as int) =~= bases@);
    }
    n
}

/// Counts the bytes of `quals` at or above `min_byte`; with
/// `min_byte == 33 + phred` this counts bases of at least that Phred score.
pub fn count_at_least(quals: &Vec<u8>, min_byte: u8) -> (n: usize)
    ensures
        n == count_at_least_in(quals@, min_byte),
{
    let mut n: usize = 0;
    let mut i: usize = 0;
    while i < quals.len()
        invariant
            i <= quals@.len(),
            n <= i,
            n == count_at_least_in(quals@.subrange(0, i as int), min_byte),
        decreases quals@.len() - i,
    {
        proof {
            lemma_count_if_step(quals@, at_least_p(min_byte), i as int);
            assert(at_least_p(min_byte)(quals@[i as int]) <==> quals@[i as int] >= min_byte);
        }
        let b = quals[i];
        if b >= min_byte {
            n = n + 1;
        }
        i = i + 1;
    }
    proof {
        assert(quals@.subrange(0, quals@.len() as int) =~= quals@);
    }
    n
}

} // verus!
