//! The k-mer counter: tallies every window of width `k` slid across the
//! sequences of the selected records into a frequency table whose iteration
//! order is lexicographic by key — that order is part of the contract, so
//! the table keeps its keys in a strictly sorted vector.
//!
//! A record shorter than `k + 1` bases contributes no windows; this
//! threshold (one more than the window width) is kept for compatibility.
use vstd::prelude::*;
use vstd::arithmetic::div_mod::lemma_fundamental_div_mod_converse;
use crate::{Error, Record};
use crate::subsample::{selected, Subsampler};

verus! {

/// Strict lexicographic order on byte strings: the first differing byte
/// decides; a proper prefix comes first.
pub open spec fn lex_lt(a: Seq<u8>, b: Seq<u8>) -> bool
    decreases a.len(),
{
    if b.len() == 0 {
        false
    } else if a.len() == 0 {
        true
    } else if a[0] < b[0] {
        true
    } else if a[0] > b[0] {
        false
    } else {
        lex_lt(a.drop_first(), b.drop_first())
    }
}

/// No byte string precedes itself.
proof fn lemma_lex_irreflexive(a: Seq<u8>)
    ensures
        !lex_lt(a, a),
    decreases a.len(),
{
    if a.len() > 0 {
        lemma_lex_irreflexive(a.drop_first());
    }
}

/// Two byte strings compare one way, the other way, or are equal.
proof fn lemma_lex_trichotomy(a: Seq<u8>, b: Seq<u8>)
    ensures
        lex_lt(a, b) || lex_lt(b, a) || a == b,
    decreases a.len(),
{
    if b.len() == 0 {
        if a.len() == 0 {
            assert(a =~= b);
        }
    } else if a.len() == 0 {
    } else if a[0] == b[0] {
        lemma_lex_trichotomy(a.drop_first(), b.drop_first());
        if !lex_lt(a, b) && !lex_lt(b, a) {
            assert(a.drop_first() == b.drop_first());
            assert(a =~= b) by {
                assert(forall|i: int|
                    1 <= i < a.len() ==> a[i] == a.drop_first()[i - 1] && b[i]
                        == b.drop_first()[i - 1]);
            }
        }
    }
}

/// Lexicographic order is transitive.
proof fn lemma_lex_transitive(a: Seq<u8>, b: Seq<u8>, c: Seq<u8>)
    requires
        lex_lt(a, b),
        lex_lt(b, c),
    ensures
        lex_lt(a, c),
    decreases a.len(),
{
    if a.len() == 0 {
    } else if a[0] == b[0] && b[0] == c[0] {
        lemma_lex_transitive(a.drop_first(), b.drop_first(), c.drop_first());
    }
}

/// Dropping one equal head byte from both strings keeps their order.
proof fn lemma_lex_skip_step(a: Seq<u8>, b: Seq<u8>, i: int)
    requires
        0 <= i < a.len(),
        i < b.len(),
        a[i] == b[i],
    ensures
        lex_lt(a.skip(i), b.skip(i)) == lex_lt(a.skip(i + 1), b.skip(i + 1)),
{
    assert(a.skip(i).drop_first() =~= a.skip(i + 1));
    assert(b.skip(i).drop_first() =~= b.skip(i + 1));
    assert(a.skip(i)[0] == a[i]);
    assert(b.skip(i)[0] == b[i]);
}

/// Decides strict lexicographic order on two byte vectors.
fn key_lt(a: &Vec<u8>, b: &Vec<u8>) -> (r: bool)
    ensures
        r == lex_lt(a@, b@),
{
    proof {
        assert(a@.skip(0) =~= a@);
        assert(b@.skip(0) =~= b@);
    }
    let mut i: usize = 0;
    while i < a.len() && i < b.len()
        invariant
            i <= a@.len(),
            i <= b@.len(),
            lex_lt(a@, b@) == lex_lt(a@.skip(i as int), b@.skip(i as int)),
        decreases a@.len() - i,
    {
        let x = a[i];
        let y = b[i];
        if x < y {
            proof {
                assert(a@.skip(i as int)[0] == x);
                assert(b@.skip(i as int)[0] == y);
            }
            return true;
        }
        if x > y {
            proof {
                assert(a@.skip(i as int)[0] == x);
                assert(b@.skip(i as int)[0] == y);
            }
            return false;
        }
        proof {
            lemma_lex_skip_step(a@, b@, i as int);
        }
        i = i + 1;
    }
    proof {
        if i == a@.len() {
            assert(a@.skip(i as int) =~= Seq::<u8>::empty());
        } else {
            assert(b@.skip(i as int) =~= Seq::<u8>::empty());
        }
    }
    i < b.len()
}

/// Decides equality of two byte vectors.
fn key_eq(a: &Vec<u8>, b: &Vec<u8>) -> (r: bool)
    ensures
        r == (a@ == b@),
{
    if a.len() != b.len() {
        return false;
    }
    let mut i: usize = 0;
    while i < a.len()
        invariant
            i <= a@.len(),
            a@.len() == b@.len(),
            forall|j: int| 0 <= j < i ==> a@[j] == b@[j],
        decreases a@.len() - i,
    {
        if a[i] != b[i] {
            assert(a@[i as int] != b@[i as int]);
            return false;
        }
        i = i + 1;
    }
    proof {
        assert(a@ =~= b@);
    }
    true
}

/// The window of width `k` starting at position `j` of `s`.
pub open spec fn window(s: Seq<u8>, k: int, j: int) -> Seq<u8> {
    s.subrange(j, j + k)
}

/// How many windows an eligible record offers; a record shorter than
/// `k + 1` offers none.
pub open spec fn rec_windows(s: Seq<u8>, k: int) -> int {
    if s.len() < k + 1 {
        0
    } else {
        s.len() - k + 1
    }
}

/// Occurrences of `key` among the first `j` windows of `s`.
pub open spec fn occ_upto(s: Seq<u8>, k: int, key: Seq<u8>, j: int) -> int
    decreases j,
{
    if j <= 0 {
        0
    } else {
        occ_upto(s, k, key, j - 1) + if window(s, k, j - 1) == key {
            1int
        } else {
            0int
        }
    }
}

/// Occurrences of `key` contributed by one record's sequence.
pub open spec fn rec_occ(s: Seq<u8>, k: int, key: Seq<u8>) -> int {
    occ_upto(s, k, key, rec_windows(s, k))
}

/// Occurrences of `key` across the selected records among the first `i`.
pub open spec fn total_occ_upto(rs: Seq<Record>, k: int, stride: int, key: Seq<u8>, i: int) -> int
    decreases i,
{
    if i <= 0 {
        0
    } else {
        total_occ_upto(rs, k, stride, key, i - 1) + if selected(i - 1, stride) {
            rec_occ(rs[i - 1].bases@, k, key)
        } else {
            0int
        }
    }
}

/// Occurrences of `key` across all selected records of the file.
pub open spec fn total_occ(rs: Seq<Record>, k: int, stride: int, key: Seq<u8>) -> int {
    total_occ_upto(rs, k, stride, key, rs.len() as int)
}

/// Windows offered by the selected records among the first `i`.
pub open spec fn total_windows_upto(rs: Seq<Record>, k: int, stride: int, i: int) -> int
    decreases i,
{
    if i <= 0 {
        0
    } else {
        total_windows_upto(rs, k, stride, i - 1) + if selected(i - 1, stride) {
            rec_windows(rs[i - 1].bases@, k)
        } else {
            0int
        }
    }
}

/// Windows offered by all selected records of the file.
pub open spec fn total_windows(rs: Seq<Record>, k: int, stride: int) -> int {
    total_windows_upto(rs, k, stride, rs.len() as int)
}

/// The running window total never shrinks as more records are taken in.
proof fn lemma_total_windows_mono(rs: Seq<Record>, k: int, stride: int, i: int, j: int)
    requires
        0 <= i <= j <= rs.len(),
    ensures
        total_windows_upto(rs, k, stride, i) <= total_windows_upto(rs, k, stride, j),
    decreases j - i,
{
    if i < j {
        lemma_total_windows_mono(rs, k, stride, i, j - 1);
    }
}

/// The sum of a table's counts.
pub open spec fn counts_sum(s: Seq<u64>) -> int
    decreases s.len(),
{
    if s.len() == 0 {
        0
    } else {
        counts_sum(s.drop_last()) + s.last()
    }
}

/// A sum of counts is never negative.
proof fn lemma_counts_sum_nonneg(s: Seq<u64>)
    ensures
        counts_sum(s) >= 0,
    decreases s.len(),
{
    if s.len() > 0 {
        lemma_counts_sum_nonneg(s.drop_last());
    }
}

/// Each count is at most the sum of all counts.
proof fn lemma_counts_sum_bound(s: Seq<u64>, i: int)
    requires
        0 <= i < s.len(),
    ensures
        s[i] <= counts_sum(s),
    decreases s.len(),
{
    if i == s.len() - 1 {
        lemma_counts_sum_nonneg(s.drop_last());
    } else {
        lemma_counts_sum_bound(s.drop_last(), i);
    }
}

/// Raising one count raises the sum by the same amount.
proof fn lemma_counts_sum_update(s: Seq<u64>, i: int, v: u64)
    requires
        0 <= i < s.len(),
    ensures
        counts_sum(s.update(i, v)) == counts_sum(s) - s[i] + v,
    decreases s.len(),
{
    let t = s.update(i, v);
    if i == s.len() - 1 {
        assert(t.drop_last() =~= s.drop_last());
        assert(t.last() == v);
    } else {
        assert(t.last() == s.last());
        assert(t.drop_last() =~= s.drop_last().update(i, v));
        lemma_counts_sum_update(s.drop_last(), i, v);
    }
}

/// Inserting a count adds exactly its value to the sum.
proof fn lemma_counts_sum_insert(s: Seq<u64>, i: int, v: u64)
    requires
        0 <= i <= s.len(),
    ensures
        counts_sum(s.insert(i, v)) == counts_sum(s) + v,
    decreases s.len(),
{
    let t = s.insert(i, v);
    if i == s.len() {
        assert(t =~= s.push(v));
        assert(s.push(v).drop_last() =~= s);
        assert(s.push(v).last() == v);
    } else {
        assert(t.last() == s.last());
        assert(t.drop_last() =~= s.drop_last().insert(i, v));
        lemma_counts_sum_insert(s.drop_last(), i, v);
    }
}

/// A frequency table of fixed-width substrings, its keys kept strictly
/// sorted in lexicographic order, each with a positive count.
pub struct KmerTable {
    pub k: usize,
    pub keys: Vec<Vec<u8>>,
    pub counts: Vec<u64>,
}

impl KmerTable {
    /// Keys and counts run in parallel; keys all have width `k`, are
    /// strictly ordered, and every count is at least one.
    pub open spec fn wf(&self) -> bool {
        &&& self.keys@.len() == self.counts@.len()
        &&& forall|i: int| 0 <= i < self.keys@.len() ==> (#[trigger] self.keys@[i])@.len() == self.k
        &&& forall|i: int, j: int|
            0 <= i < j < self.keys@.len() ==> #[trigger] lex_lt(self.keys@[i]@, self.keys@[j]@)
        &&& forall|i: int| 0 <= i < self.counts@.len() ==> (#[trigger] self.counts@[i]) >= 1
    }

    /// Whether `key` stands in the table.
    pub open spec fn has_key(&self, key: Seq<u8>) -> bool {
        exists|i: int| 0 <= i < self.keys@.len() && (#[trigger] self.keys@[i])@ == key
    }

    /// The position of `key` among the sorted keys.
    pub open spec fn key_index(&self, key: Seq<u8>) -> int {
        choose|i: int| 0 <= i < self.keys@.len() && (#[trigger] self.keys@[i])@ == key
    }

    /// The tallied count of `key`: zero when absent.
    pub open spec fn count_of(&self, key: Seq<u8>) -> int {
        if self.has_key(key) {
            self.counts@[self.key_index(key)] as int
        } else {
            0
        }
    }

    /// An empty table for width `k`.
    pub fn new(k: usize) -> (t: KmerTable)
        ensures
            t.wf(),
            t.k == k,
            t.keys@.len() == 0,
            t.counts@.len() == 0,
            counts_sum(t.counts@) == 0,
            forall|key: Seq<u8>| #[trigger] t.count_of(key) == 0,
    {
        let t = KmerTable { k, keys: Vec::new(), counts: Vec::new() };
        proof {
            assert forall|key: Seq<u8>| #[trigger] t.count_of(key) == 0 by {
                assert(!t.has_key(key));
            }
        }
        t
    }

    /// Adds one occurrence of `kmer`, keeping the keys sorted: a present
    /// key's count grows by one, an absent key enters with count one.
    pub fn increment(&mut self, kmer: Vec<u8>)
        requires
            old(self).wf(),
            kmer@.len() == old(self).k,
            counts_sum(old(self).counts@) < u64::MAX,
        ensures
            final(self).wf(),
            final(self).k == old(self).k,
            final(self).count_of(kmer@) == old(self).count_of(kmer@) + 1,
            forall|key: Seq<u8>|
                key != kmer@ ==> #[trigger] final(self).count_of(key) == old(self).count_of(key),
            counts_sum(final(self).counts@) == counts_sum(old(self).counts@) + 1,
    {
        let ghost okeys = self.keys@;
        let ghost ocounts = self.counts@;
        let mut p: usize = 0;
        while p < self.keys.len() && key_lt(&self.keys[p], &kmer)
            invariant
                p <= self.keys@.len(),
                self.keys@ == okeys,
                self.counts@ == ocounts,
                self.k == old(self).k,
                forall|j: int| 0 <= j < p ==> #[trigger] lex_lt(self.keys@[j]@, kmer@),
            decreases self.keys@.len() - p,
        {
            p = p + 1;
        }
        let found = p < self.keys.len() && key_eq(&self.keys[p], &kmer);
        if found {
            proof {
                lemma_counts_sum_bound(self.counts@, p as int);
            }
            let c = self.counts[p];
            self.counts[p] = c + 1;
            proof {
                assert(self.counts@ == ocounts.update(p as int, (c + 1) as u64));
                lemma_counts_sum_update(ocounts, p as int, (c + 1) as u64);
                lemma_key_index_unique(*self, kmer@);
                assert(self.key_index(kmer@) == p);
                lemma_key_index_unique(*old(self), kmer@);
                assert(old(self).key_index(kmer@) == p);
                assert forall|key: Seq<u8>|
                    key != kmer@ implies #[trigger] self.count_of(key) == old(self).count_of(
                    key,
                ) by {
                    if self.has_key(key) {
                        lemma_key_index_unique(*self, key);
                        lemma_key_index_unique(*old(self), key);
                        assert(self.key_index(key) != p);
                    }
                }
            }
        } else {
            proof {
                lemma_lex_irreflexive(kmer@);
                if p < okeys.len() {
                    lemma_lex_trichotomy(kmer@, okeys[p as int]@);
                }
                assert forall|j: int|
                    p <= j < okeys.len() implies #[trigger] lex_lt(kmer@, okeys[j]@) by {
                    if j > p {
                        assert(lex_lt(okeys[p as int]@, okeys[j]@));
                        lemma_lex_transitive(kmer@, okeys[p as int]@, okeys[j]@);
                    }
                }
                assert forall|j: int| 0 <= j < okeys.len() implies (#[trigger] okeys[j])@
                    != kmer@ by {
                    if j < p {
                        assert(lex_lt(okeys[j]@, kmer@));
                    } else {
                        assert(lex_lt(kmer@, okeys[j]@));
                    }
                }
                assert(!old(self).has_key(kmer@));
                okeys.insert_ensures(p as int, kmer);
                ocounts.insert_ensures(p as int, 1u64);
            }
            self.keys.insert(p, kmer);
            self.counts.insert(p, 1);
            proof {
                lemma_counts_sum_insert(ocounts, p as int, 1u64);
                assert forall|i: int, j: int|
                    0 <= i < j < self.keys@.len() implies #[trigger] lex_lt(
                    self.keys@[i]@,
                    self.keys@[j]@,
                ) by {
                    if j < p {
                        assert(self.keys@[i] == okeys[i] && self.keys@[j] == okeys[j]);
                    } else if i < p && j == p {
                        assert(self.keys@[i] == okeys[i]);
                    } else if i < p && j > p {
                        assert(self.keys@[i] == okeys[i] && self.keys@[j] == okeys[j - 1]);
                        assert(lex_lt(okeys[i]@, kmer@));
                        assert(lex_lt(kmer@, okeys[j - 1]@));
                        lemma_lex_transitive(okeys[i]@, kmer@, okeys[j - 1]@);
                    } else if i == p {
                        assert(self.keys@[j] == okeys[j - 1]);
                        assert(lex_lt(kmer@, okeys[j - 1]@));
                    } else {
                        assert(self.keys@[i] == okeys[i - 1] && self.keys@[j] == okeys[j - 1]);
                    }
                }
                assert(self.wf());
                assert(self.keys@[p as int]@ == kmer@);
                assert(self.has_key(kmer@));
                lemma_key_index_unique(*self, kmer@);
                assert(self.key_index(kmer@) == p);
                assert(self.count_of(kmer@) == 1);
                assert(old(self).count_of(kmer@) == 0);
                assert forall|key: Seq<u8>|
                    key != kmer@ implies #[trigger] self.count_of(key) == old(self).count_of(
                    key,
                ) by {
                    if old(self).has_key(key) {
                        lemma_key_index_unique(*old(self), key);
                        let oi = old(self).key_index(key);
                        let ni = if oi < p { oi } else { oi + 1 };
                        assert(self.keys@[ni]@ == key);
                        assert(self.has_key(key));
                        lemma_key_index_unique(*self, key);
                        assert(self.key_index(key) == ni);
                        assert(self.counts@[ni] == ocounts[oi]);
                    } else {
                        if self.has_key(key) {
                            lemma_key_index_unique(*self, key);
                            let ni = self.key_index(key);
                            assert(ni != p);
                            let oi = if ni < p { ni } else { ni - 1 };
                            assert(okeys[oi]@ == key);
                            assert(old(self).has_key(key));
                        }
                    }
                }
            }
        }
    }

    /// The counts in lexicographic key order.
    pub fn values(&self) -> (r: Vec<u64>)
        ensures
            r@ == self.counts@,
    {
        let mut r: Vec<u64> = Vec::new();
        let mut i: usize = 0;
        while i < self.counts.len()
            invariant
                i <= self.counts@.len(),
                r@ == self.counts@.subrange(0, i as int),
            decreases self.counts@.len() - i,
        {
            r.push(self.counts[i]);
            proof {
                assert(r@ =~= self.counts@.subrange(0, i + 1));
            }
            i = i + 1;
        }
        proof {
            assert(self.counts@.subrange(0, self.counts@.len() as int) =~= self.counts@);
        }
        r
    }
}

/// A table's position for a key is unique: the keys are strictly sorted.
proof fn lemma_key_index_unique(t: KmerTable, key: Seq<u8>)
    requires
        t.wf(),
        t.has_key(key),
    ensures
        0 <= t.key_index(key) < t.keys@.len(),
        t.keys@[t.key_index(key)]@ == key,
        forall|j: int|
            0 <= j < t.keys@.len() && (#[trigger] t.keys@[j])@ == key ==> j == t.key_index(key),
{
    let i = t.key_index(key);
    assert(0 <= i < t.keys@.len() && t.keys@[i]@ == key);
    assert forall|j: int|
        0 <= j < t.keys@.len() && (#[trigger] t.keys@[j])@ == key implies j == i by {
        lemma_lex_irreflexive(key);
        if j < i {
            assert(lex_lt(t.keys@[j]@, t.keys@[i]@));
        } else if j > i {
            assert(lex_lt(t.keys@[i]@, t.keys@[j]@));
        }
    }
}

/// Copies the window of width `k` starting at `start` out of `bases`.
fn copy_window(bases: &Vec<u8>, start: usize, k: usize) -> (w: Vec<u8>)
    requires
        start + k <= bases@.len(),
    ensures
        w@ == bases@.subrange(start as int, start as int + k as int),
{
    let blen = bases.len();
    let mut w: Vec<u8> = Vec::new();
    let mut i: usize = 0;
    while i < k
        invariant
            i <= k,
            start + k <= blen,
            blen == bases@.len(),
            w@ == bases@.subrange(start as int, start as int + i as int),
        decreases k - i,
    {
        w.push(bases[start + i]);
        proof {
            assert(w@ =~= bases@.subrange(start as int, start as int + (i + 1) as int));
        }
        i = i + 1;
    }
    w
}

/// Counts every window of width `k` over the sequences of the records the
/// stride selects, tallied by substring. A zero stride or a zero width is
/// rejected before any record is read.
pub fn count_kmers(records: &Vec<Record>, k: usize, stride: usize) -> (r: Result<KmerTable, Error>)
    requires
        stride >= 1 && k >= 1 ==> total_windows(records@, k as int, stride as int) <= u64::MAX,
    ensures
        stride == 0 || k == 0 ==> r == Err::<KmerTable, Error>(Error::InvalidArgument),
        stride >= 1 && k >= 1 ==> (r matches Ok(t) && t.wf() && t.k == k && (forall|key: Seq<u8>|
            #[trigger] t.count_of(key) == total_occ(records@, k as int, stride as int, key))
            && counts_sum(t.counts@) == total_windows(records@, k as int, stride as int)),
{
    if k == 0 {
        return Err(Error::InvalidArgument);
    }
    let mut sub = match Subsampler::new(stride) {
        Err(e) => {
            return Err(e);
        },
        Ok(s) => s,
    };
    let mut table = KmerTable::new(k);
    let ghost rs = records@;
    let ghost mut sels: int = 0;
    let n = records.len();
    let mut i: usize = 0;
    while i < n
        invariant
            i <= n,
            n == rs.len(),
            rs == records@,
            stride >= 1,
            k >= 1,
            sub.wf(),
            sub.stride == stride,
            0 <= sels,
            sub.counter == i - sels * stride,
            table.wf(),
            table.k == k,
            forall|key: Seq<u8>|
                #[trigger] table.count_of(key) == total_occ_upto(
                    rs,
                    k as int,
                    stride as int,
                    key,
                    i as int,
                ),
            counts_sum(table.counts@) == total_windows_upto(rs, k as int, stride as int, i as int),
            total_windows(rs, k as int, stride as int) <= u64::MAX,
        decreases n - i,
    {
        let ghost old_counter = sub.counter;
        let sel = sub.observe();
        proof {
            if sel {
                assert(i + 1 == sels * (stride as int) + (stride as int));
                sels = sels + 1;
                assert(sels * (stride as int) == (sels - 1) * (stride as int) + (stride as int))
                    by (nonlinear_arith);
                lemma_fundamental_div_mod_converse(i + 1, stride as int, sels, 0);
                assert(selected(i as int, stride as int));
                assert(sub.counter == i + 1 - sels * stride);
            } else {
                lemma_fundamental_div_mod_converse(
                    i + 1,
                    stride as int,
                    sels,
                    old_counter + 1,
                );
                assert(!selected(i as int, stride as int));
            }
            lemma_total_windows_mono(rs, k as int, stride as int, i + 1, rs.len() as int);
        }
        if sel {
            let rec = &records[i];
            let ghost s = rec.bases@;
            if rec.bases.len() > k {
                let nwm1 = rec.bases.len() - k;
                assert(rec_windows(s, k as int) == nwm1 + 1);
                let mut c: usize = 0;
                while c <= nwm1
                    invariant
                        c <= nwm1 + 1,
                        nwm1 < usize::MAX,
                        k >= 1,
                        stride >= 1,
                        i < rs.len(),
                        rs == records@,
                        s == rs[i as int].bases@,
                        nwm1 == s.len() - k,
                        s.len() >= k + 1,
                        selected(i as int, stride as int),
                        table.wf(),
                        table.k == k,
                        forall|key: Seq<u8>|
                            #[trigger] table.count_of(key) == total_occ_upto(
                                rs,
                                k as int,
                                stride as int,
                                key,
                                i as int,
                            ) + occ_upto(s, k as int, key, c as int),
                        counts_sum(table.counts@) == total_windows_upto(
                            rs,
                            k as int,
                            stride as int,
                            i as int,
                        ) + c,
                        total_windows_upto(rs, k as int, stride as int, i + 1) <= u64::MAX,
                    decreases nwm1 + 1 - c,
                {
                    let w = copy_window(&records[i].bases, c, k);
                    proof {
                        assert(w@ == window(s, k as int, c as int));
                        assert(total_windows_upto(rs, k as int, stride as int, i + 1)
                            == total_windows_upto(rs, k as int, stride as int, i as int)
                            + rec_windows(s, k as int));
                        lemma_counts_sum_nonneg(table.counts@);
                    }
                    let ghost pre = table;
                    table.increment(w);
                    proof {
                        assert forall|key: Seq<u8>|
                            #[trigger] table.count_of(key) == total_occ_upto(
                                rs,
                                k as int,
                                stride as int,
                                key,
                                i as int,
                            ) + occ_upto(s, k as int, key, c + 1) by {
                            assert(occ_upto(s, k as int, key, c + 1) == occ_upto(
                                s,
                                k as int,
                                key,
                                c as int,
                            ) + if window(s, k as int, c as int) == key {
                                1int
                            } else {
                                0int
                            });
                            if key == w@ {
                                assert(table.count_of(key) == pre.count_of(key) + 1);
                            } else {
                                assert(table.count_of(key) == pre.count_of(key));
                            }
                        }
                    }
                    c = c + 1;
                }
                proof {
                    assert forall|key: Seq<u8>|
                        #[trigger] table.count_of(key) == total_occ_upto(
                            rs,
                            k as int,
                            stride as int,
                            key,
                            i + 1,
                        ) by {
                        assert(rec_occ(s, k as int, key) == occ_upto(
                            s,
                            k as int,
                            key,
                            (nwm1 + 1) as int,
                        ));
                    }
                }
            } else {
                proof {
                    assert(rec_windows(s, k as int) == 0);
                    assert forall|key: Seq<u8>|
                        #[trigger] table.count_of(key) == total_occ_upto(
                            rs,
                            k as int,
                            stride as int,
                            key,
                            i + 1,
                        ) by {
                        assert(rec_occ(s, k as int, key) == 0);
                    }
                }
            }
        }
        i = i + 1;
    }
    Ok(table)
}

} // verus!
