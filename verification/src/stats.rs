//! Latency and size statistics.
//!
//! Each worker owns one `Stats` collector for the lifetime of a run and
//! records, per operation kind (ping, get, put), a sequence of
//! `(start, elapsed)` samples in microseconds, plus running byte totals
//! for gets and puts. Collectors from different workers are combined only
//! after every worker has terminated, through `merge`, which is proved to
//! behave as a commutative monoid on the recorded samples (viewed as
//! multisets) with the empty collector as identity.

use vstd::prelude::*;
use vstd::multiset::Multiset;
use vstd::relations::{sorted_by, total_ordering};
use vstd::seq_lib::lemma_sorted_unique;

verus! {

broadcast use vstd::seq_lib::group_to_multiset_ensures;

/// The kind of operation a sample belongs to.
#[derive(Clone, Copy, Debug, PartialEq, Eq, Structural)]
pub enum OpKind {
    Ping,
    Get,
    Put,
}

/// Ordering of samples by their start instant.
pub open spec fn starts_leq() -> spec_fn((u64, u64), (u64, u64)) -> bool {
    |a: (u64, u64), b: (u64, u64)| a.0 <= b.0
}

/// Total (lexicographic) ordering of samples: by start instant, ties by
/// elapsed time. Sorting with it is canonical: any two orderings of the
/// same samples sort to the same sequence.
pub open spec fn pair_leq() -> spec_fn((u64, u64), (u64, u64)) -> bool {
    |a: (u64, u64), b: (u64, u64)| a.0 < b.0 || (a.0 == b.0 && a.1 <= b.1)
}

/// The lexicographic sample ordering is total.
proof fn lemma_pair_leq_total()
    ensures
        total_ordering(pair_leq()),
{
    let leq = pair_leq();
    assert forall|a: (u64, u64)| #[trigger] leq(a, a) by {}
}

/// A lexicographically sorted sample list is sorted by start instant.
proof fn lemma_pair_sorted_is_start_sorted(s: Seq<(u64, u64)>)
    requires
        sorted_by(s, pair_leq()),
    ensures
        sorted_by(s, starts_leq()),
{
    let pl = pair_leq();
    let sl = starts_leq();
    assert forall|i: int, j: int| 0 <= i < j < s.len() implies sl(
        #[trigger] s[i],
        #[trigger] s[j],
    ) by {
        assert(pl(s[i], s[j]));
    }
}

/// Saturating addition on byte totals: totals stick at the maximum
/// instead of wrapping.
pub open spec fn sat_add(a: u64, b: u64) -> u64 {
    if a + b <= u64::MAX {
        (a + b) as u64
    } else {
        u64::MAX
    }
}

/// Accumulates timestamped latencies and byte totals for the three
/// operation kinds. Times are in microseconds from a run-relative origin.
#[derive(Debug)]
pub struct Stats {
    ping_latencies: Vec<(u64, u64)>,
    get_latencies: Vec<(u64, u64)>,
    set_latencies: Vec<(u64, u64)>,
    get_total_size: u64,
    set_total_size: u64,
}

impl Stats {
    /// The recorded `(start, elapsed)` samples of one kind, in storage order.
    pub closed spec fn points(self, kind: OpKind) -> Seq<(u64, u64)> {
        match kind {
            OpKind::Ping => self.ping_latencies@,
            OpKind::Get => self.get_latencies@,
            OpKind::Put => self.set_latencies@,
        }
    }

    /// The running byte total of one kind (pings carry no payload).
    pub closed spec fn total_size(self, kind: OpKind) -> u64 {
        match kind {
            OpKind::Ping => 0,
            OpKind::Get => self.get_total_size,
            OpKind::Put => self.set_total_size,
        }
    }

    /// A collector with nothing recorded.
    pub closed spec fn is_empty_collector(self) -> bool {
        &&& self.ping_latencies@ =~= Seq::<(u64, u64)>::empty()
        &&& self.get_latencies@ =~= Seq::<(u64, u64)>::empty()
        &&& self.set_latencies@ =~= Seq::<(u64, u64)>::empty()
        &&& self.get_total_size == 0
        &&& self.set_total_size == 0
    }

    /// Creates an empty collector.
    pub fn new() -> (s: Stats)
        ensures
            s.is_empty_collector(),
    {
        Stats {
            ping_latencies: Vec::new(),
            get_latencies: Vec::new(),
            set_latencies: Vec::new(),
            get_total_size: 0,
            set_total_size: 0,
        }
    }

    /// Appends one latency sample under the given kind; nothing else
    /// changes.
    pub fn record(&mut self, kind: OpKind, start: u64, elapsed: u64)
        ensures
            final(self).points(kind) == old(self).points(kind).push((start, elapsed)),
            forall|k: OpKind| k != kind ==> final(self).points(k) == old(self).points(k),
            forall|k: OpKind| final(self).total_size(k) == old(self).total_size(k),
    {
        match kind {
            OpKind::Ping => self.ping_latencies.push((start, elapsed)),
            OpKind::Get => self.get_latencies.push((start, elapsed)),
            OpKind::Put => self.set_latencies.push((start, elapsed)),
        }
    }

    /// Adds to the byte total of the given kind (saturating at the
    /// maximum); pings carry no payload, so recording a size under
    /// `Ping` changes nothing.
    pub fn record_size(&mut self, kind: OpKind, size: u64)
        ensures
            final(self).total_size(kind) == if kind is Ping {
                0u64
            } else {
                sat_add(old(self).total_size(kind), size)
            },
            forall|k: OpKind| k != kind ==> final(self).total_size(k) == old(self).total_size(k),
            forall|k: OpKind| final(self).points(k) == old(self).points(k),
    {
        match kind {
            OpKind::Ping => (),
            OpKind::Get => {
                self.get_total_size = self.get_total_size.saturating_add(size);
            },
            OpKind::Put => {
                self.set_total_size = self.set_total_size.saturating_add(size);
            },
        }
    }

    /// Records one ping latency sample.
    pub fn store_ping_time(&mut self, start: u64, elapsed: u64)
        ensures
            final(self).points(OpKind::Ping) == old(self).points(OpKind::Ping).push(
                (start, elapsed),
            ),
            forall|k: OpKind| k != OpKind::Ping ==> final(self).points(k) == old(self).points(k),
            forall|k: OpKind| final(self).total_size(k) == old(self).total_size(k),
    {
        self.record(OpKind::Ping, start, elapsed);
    }

    /// Records one get latency sample.
    pub fn store_get_time(&mut self, start: u64, elapsed: u64)
        ensures
            final(self).points(OpKind::Get) == old(self).points(OpKind::Get).push(
                (start, elapsed),
            ),
            forall|k: OpKind| k != OpKind::Get ==> final(self).points(k) == old(self).points(k),
            forall|k: OpKind| final(self).total_size(k) == old(self).total_size(k),
    {
        self.record(OpKind::Get, start, elapsed);
    }

    /// Adds to the get byte total.
    pub fn store_get_size(&mut self, size: u64)
        ensures
            final(self).total_size(OpKind::Get) == sat_add(old(self).total_size(OpKind::Get), size),
            forall|k: OpKind| k != OpKind::Get ==> final(self).total_size(k) == old(
                self,
            ).total_size(k),
            forall|k: OpKind| final(self).points(k) == old(self).points(k),
    {
        self.record_size(OpKind::Get, size);
    }

    /// Records one put latency sample.
    pub fn store_set_time(&mut self, start: u64, elapsed: u64)
        ensures
            final(self).points(OpKind::Put) == old(self).points(OpKind::Put).push(
                (start, elapsed),
            ),
            forall|k: OpKind| k != OpKind::Put ==> final(self).points(k) == old(self).points(k),
            forall|k: OpKind| final(self).total_size(k) == old(self).total_size(k),
    {
        self.record(OpKind::Put, start, elapsed);
    }

    /// Adds to the put byte total.
    pub fn store_set_size(&mut self, size: u64)
        ensures
            final(self).total_size(OpKind::Put) == sat_add(old(self).total_size(OpKind::Put), size),
            forall|k: OpKind| k != OpKind::Put ==> final(self).total_size(k) == old(
                self,
            ).total_size(k),
            forall|k: OpKind| final(self).points(k) == old(self).points(k),
    {
        self.record_size(OpKind::Put, size);
    }

    /// A copy of the recorded `(start, elapsed)` samples of one kind,
    /// in storage order.
    pub fn samples(&self, kind: OpKind) -> (r: Vec<(u64, u64)>)
        ensures
            r@ == self.points(kind),
    {
        let points = match kind {
            OpKind::Ping => &self.ping_latencies,
            OpKind::Get => &self.get_latencies,
            OpKind::Put => &self.set_latencies,
        };
        let mut copy: Vec<(u64, u64)> = Vec::new();
        let mut i: usize = 0;
        while i < points.len()
            invariant
                0 <= i <= points@.len(),
                points@ == self.points(kind),
                copy@ =~= points@.subrange(0, i as int),
            decreases points@.len() - i,
        {
            copy.push(points[i]);
            proof {
                assert(copy@ =~= points@.subrange(0, i + 1));
            }
            i = i + 1;
        }
        proof {
            assert(points@.subrange(0, points@.len() as int) =~= points@);
        }
        copy
    }

    /// The running byte total of one kind as recorded so far.
    pub fn size_total(&self, kind: OpKind) -> (n: u64)
        ensures
            n == self.total_size(kind),
    {
        match kind {
            OpKind::Ping => 0,
            OpKind::Get => self.get_total_size,
            OpKind::Put => self.set_total_size,
        }
    }

    /// The number of samples recorded under one kind.
    pub fn sample_count(&self, kind: OpKind) -> (n: usize)
        ensures
            n == self.points(kind).len(),
    {
        match kind {
            OpKind::Ping => self.ping_latencies.len(),
            OpKind::Get => self.get_latencies.len(),
            OpKind::Put => self.set_latencies.len(),
        }
    }

    /// Combines two collectors: per kind, the union of the samples
    /// (re-sorted by start instant) and the sums of the byte totals.
    pub fn merge(&self, other: &Stats) -> (r: Stats)
        ensures
            merge_post(*self, *other, r),
    {
        Stats {
            ping_latencies: merge_times(&self.ping_latencies, &other.ping_latencies),
            get_latencies: merge_times(&self.get_latencies, &other.get_latencies),
            set_latencies: merge_times(&self.set_latencies, &other.set_latencies),
            get_total_size: self.get_total_size.saturating_add(other.get_total_size),
            set_total_size: self.set_total_size.saturating_add(other.set_total_size),
        }
    }
}

impl Default for Stats {
    /// The empty collector.
    fn default() -> (s: Stats)
        ensures
            s.is_empty_collector(),
    {
        Stats::new()
    }
}

/// What `merge` guarantees: per kind, the result's samples are exactly
/// the two inputs' samples taken together (as a multiset), re-sorted by
/// start instant — canonically, so equal sample multisets merge to equal
/// sequences — and the byte totals add (saturating).
pub open spec fn merge_post(a: Stats, b: Stats, r: Stats) -> bool {
    &&& forall|k: OpKind| #[trigger] r.points(k) == (a.points(k) + b.points(k)).sort_by(
        pair_leq(),
    )
    &&& forall|k: OpKind| #[trigger] r.points(k).to_multiset() == a.points(k).to_multiset().add(
        b.points(k).to_multiset(),
    )
    &&& forall|k: OpKind| sorted_by(#[trigger] r.points(k), starts_leq())
    &&& forall|k: OpKind| #[trigger] r.total_size(k) == sat_add(a.total_size(k), b.total_size(k))
}

/// Concatenates two sample lists and sorts the result by start instant.
/// The output holds exactly the input samples, as a multiset.
pub fn merge_times(times_a: &Vec<(u64, u64)>, times_b: &Vec<(u64, u64)>) -> (r: Vec<(u64, u64)>)
    ensures
        r@ == (times_a@ + times_b@).sort_by(pair_leq()),
        r@.to_multiset() == times_a@.to_multiset().add(times_b@.to_multiset()),
        sorted_by(r@, pair_leq()),
        sorted_by(r@, starts_leq()),
{
    let mut times: Vec<(u64, u64)> = Vec::new();
    let mut i: usize = 0;
    while i < times_a.len()
        invariant
            0 <= i <= times_a@.len(),
            times@ =~= times_a@.subrange(0, i as int),
        decreases times_a@.len() - i,
    {
        times.push(times_a[i]);
        proof {
            assert(times@ =~= times_a@.subrange(0, i + 1));
        }
        i = i + 1;
    }
    let mut j: usize = 0;
    while j < times_b.len()
        invariant
            0 <= j <= times_b@.len(),
            times@ =~= times_a@ + times_b@.subrange(0, j as int),
        decreases times_b@.len() - j,
    {
        times.push(times_b[j]);
        proof {
            assert(times@ =~= times_a@ + times_b@.subrange(0, j + 1));
        }
        j = j + 1;
    }
    proof {
        assert(times@ =~= times_a@ + times_b@);
        lemma_concat_to_multiset(times_a@, times_b@);
    }
    let ghost unsorted = times@;
    sort_pairs(&mut times);
    proof {
        lemma_pair_leq_total();
        unsorted.lemma_sort_by_ensures(pair_leq());
        lemma_sorted_unique(times@, unsorted.sort_by(pair_leq()), pair_leq());
        lemma_pair_sorted_is_start_sorted(times@);
    }
    times
}

/// Concatenation of sequences adds their multisets.
proof fn lemma_concat_to_multiset(a: Seq<(u64, u64)>, b: Seq<(u64, u64)>)
    ensures
        (a + b).to_multiset() == a.to_multiset().add(b.to_multiset()),
    decreases b.len(),
{
    if b.len() == 0 {
        assert(a + b =~= a);
        assert(b.to_multiset() =~= Multiset::<(u64, u64)>::empty());
        assert((a + b).to_multiset() =~= a.to_multiset().add(b.to_multiset()));
    } else {
        let b0 = b.drop_last();
        lemma_concat_to_multiset(a, b0);
        assert(a + b =~= (a + b0).push(b.last()));
        assert(b =~= b0.push(b.last()));
        assert((a + b).to_multiset() =~= a.to_multiset().add(b.to_multiset()));
    }
}

/// Sorts a sample list in place into the canonical (lexicographic)
/// order, preserving the multiset of samples.
fn sort_pairs(v: &mut Vec<(u64, u64)>)
    ensures
        final(v)@.to_multiset() == old(v)@.to_multiset(),
        sorted_by(final(v)@, pair_leq()),
{
    let ghost orig = v@;
    let mut i: usize = 1;
    if v.len() <= 1 {
        proof {
            assert(sorted_by(v@, pair_leq()));
        }
        return ;
    }
    while i < v.len()
        invariant
            1 <= i <= v@.len(),
            v@.len() == orig.len(),
            v@.to_multiset() == orig.to_multiset(),
            sorted_by(v@.subrange(0, i as int), pair_leq()),
        decreases v@.len() - i,
    {
        let x = v[i];
        // Find the insertion point in the sorted prefix.
        let mut j: usize = i;
        while j > 0 && (v[j - 1].0 > x.0 || (v[j - 1].0 == x.0 && v[j - 1].1 > x.1))
            invariant
                0 <= j <= i < v@.len(),
                forall|t: int|
                    j <= t < i ==> ((#[trigger] v@[t]).0 > x.0 || (v@[t].0 == x.0 && v@[t].1
                        > x.1)),
                sorted_by(v@.subrange(0, i as int), pair_leq()),
                x == v@[i as int],
                v@.len() == orig.len(),
            decreases j,
        {
            j = j - 1;
        }
        let ghost before = v@;
        v.remove(i);
        v.insert(j, x);
        proof {
            let after = v@;
            let pl = pair_leq();
            let pre = before.subrange(0, i as int);
            assert(before.remove(i as int).to_multiset() == before.to_multiset().remove(
                before[i as int],
            ));
            assert(after.to_multiset() == before.remove(i as int).to_multiset().insert(x));
            assert(after.to_multiset() =~= before.to_multiset());
            // Everything in the sorted prefix below the insertion point
            // is at most x.
            assert forall|p: int| 0 <= p < j implies pl(#[trigger] before[p], x) by {
                assert(pl(before[j - 1], x));
                if p < j - 1 {
                    assert(pre[p] == before[p] && pre[j - 1] == before[j - 1]);
                    assert(pl(pre[p], pre[j - 1]));
                }
            }
            // Pairwise order across the prefix one longer: entries below j
            // are unchanged, x sits at j, and the shifted entries beyond j
            // are strictly above x.
            assert forall|p: int, q: int| 0 <= p <= q <= i implies pl(after[p], after[q]) by {
                if p < j {
                    assert(after[p] == before[p]);
                } else if p == j {
                    assert(after[p] == x);
                } else {
                    assert(after[p] == before[p - 1]);
                }
                if q < j {
                    assert(after[q] == before[q]);
                } else if q == j {
                    assert(after[q] == x);
                } else {
                    assert(after[q] == before[q - 1]);
                }
                if p == q {
                    assert(pl(after[p], after[q]));
                } else if q < j {
                    assert(pre[p] == before[p] && pre[q] == before[q]);
                    assert(pl(pre[p], pre[q]));
                } else if q == j {
                    assert(pl(before[p], x));
                } else {
                    assert(j <= q - 1 < i);
                    assert(before[q - 1].0 > x.0 || (before[q - 1].0 == x.0 && before[q - 1].1
                        > x.1));
                    if p < j {
                        assert(pl(before[p], x));
                    } else if p > j {
                        assert(j <= p - 1 <= q - 1 < i);
                        if p - 1 < q - 1 {
                            assert(pre[p - 1] == before[p - 1] && pre[q - 1] == before[q - 1]);
                            assert(pl(pre[p - 1], pre[q - 1]));
                        }
                    }
                }
            }
            assert(sorted_by(after.subrange(0, i + 1), pl)) by {
                let np = after.subrange(0, i + 1);
                assert forall|p: int, q: int| 0 <= p < q < np.len() implies pl(
                    #[trigger] np[p],
                    #[trigger] np[q],
                ) by {
                    assert(np[p] == after[p] && np[q] == after[q]);
                }
            }
        }
        i = i + 1;
    }
    proof {
        assert(v@.subrange(0, v@.len() as int) =~= v@);
    }
}

// ---------------------------------------------------------------------------
// Quantiles
//
// Quantile computation uses linear-interpolation order statistics over the
// sorted latency sample of one kind: the quantile num/den sits at rank
// (n - 1) * num / den, interpolating linearly between the two neighbouring
// order statistics.
// ---------------------------------------------------------------------------

/// Ordering of latency values.
pub open spec fn u64_leq() -> spec_fn(u64, u64) -> bool {
    |a: u64, b: u64| a <= b
}

/// The elapsed components of a sample sequence.
pub open spec fn elapsed_of(points: Seq<(u64, u64)>) -> Seq<u64> {
    points.map_values(|p: (u64, u64)| p.1)
}

/// The value of the quantile `num / den` over the sorted sample `s`,
/// by linear interpolation between neighbouring order statistics.
pub open spec fn interp_at(s: Seq<u64>, num: int, den: int) -> int
    recommends
        s.len() >= 1,
        0 < den,
        0 <= num <= den,
{
    let h = (s.len() - 1) * num;
    let idx = h / den;
    let rem = h % den;
    if idx + 1 < s.len() {
        s[idx] + (s[idx + 1] - s[idx]) * rem / den
    } else {
        s[s.len() - 1] as int
    }
}

/// The ordering of latency values is total.
proof fn lemma_u64_leq_total()
    ensures
        total_ordering(u64_leq()),
{
    let leq = u64_leq();
    assert forall|a: u64| #[trigger] leq(a, a) by {}
}

/// Sorting preserves length, and the sorted sample is sorted.
proof fn lemma_sorted_sample(s: Seq<u64>)
    ensures
        s.sort_by(u64_leq()).len() == s.len(),
        sorted_by(s.sort_by(u64_leq()), u64_leq()),
        s.sort_by(u64_leq()).to_multiset() == s.to_multiset(),
{
    broadcast use vstd::seq_lib::to_multiset_len;

    lemma_u64_leq_total();
    s.lemma_sort_by_ensures(u64_leq());
    let t = s.sort_by(u64_leq());
    assert(t.to_multiset() == s.to_multiset());
    assert(t.len() == t.to_multiset().len());
    assert(s.len() == s.to_multiset().len());
}

impl Stats {
    /// One kind's elapsed latencies, sorted ascending.
    pub open spec fn sorted_elapsed(self, kind: OpKind) -> Seq<u64> {
        elapsed_of(self.points(kind)).sort_by(u64_leq())
    }

    /// Collects one kind's elapsed latencies into a sorted vector.
    fn sorted_elapsed_vec(&self, kind: OpKind) -> (r: Vec<u64>)
        ensures
            r@ == self.sorted_elapsed(kind),
            r@.len() == self.points(kind).len(),
    {
        let points = match kind {
            OpKind::Ping => &self.ping_latencies,
            OpKind::Get => &self.get_latencies,
            OpKind::Put => &self.set_latencies,
        };
        let mut values: Vec<u64> = Vec::new();
        let mut i: usize = 0;
        while i < points.len()
            invariant
                0 <= i <= points@.len(),
                points@ == self.points(kind),
                values@ =~= elapsed_of(points@.subrange(0, i as int)),
            decreases points@.len() - i,
        {
            values.push(points[i].1);
            proof {
                assert(values@ =~= elapsed_of(points@.subrange(0, i + 1)));
            }
            i = i + 1;
        }
        proof {
            assert(points@.subrange(0, points@.len() as int) =~= points@);
        }
        let ghost unsorted = values@;
        sort_u64(&mut values);
        proof {
            lemma_u64_leq_total();
            lemma_sorted_sample(unsorted);
            lemma_sorted_unique(values@, unsorted.sort_by(u64_leq()), u64_leq());
            broadcast use vstd::seq_lib::to_multiset_len;

            assert(values@.len() == values@.to_multiset().len());
            assert(unsorted.len() == unsorted.to_multiset().len());
        }
        values
    }

    /// The quantile `num / den` of one kind's latencies, or `None` when
    /// that kind has no samples. `den` is capped so the rank computation
    /// fits machine arithmetic.
    pub fn quantile(&self, kind: OpKind, num: u64, den: u64) -> (r: Option<u64>)
        requires
            0 < den <= 0xffff_ffffu64,
            num <= den,
        ensures
            r is Some <==> self.points(kind).len() > 0,
            r is Some ==> r->0 == interp_at(self.sorted_elapsed(kind), num as int, den as int),
    {
        let sorted = self.sorted_elapsed_vec(kind);
        if sorted.len() == 0 {
            return None;
        }
        proof {
            lemma_sorted_sample(elapsed_of(self.points(kind)));
        }
        Some(interp_sorted(&sorted, num, den))
    }

    /// The p-th percentile (p in 1..=100) of one kind's latencies, or
    /// `None` when that kind has no samples.
    pub fn percentile(&self, kind: OpKind, p: u64) -> (r: Option<u64>)
        requires
            1 <= p <= 100,
        ensures
            r is Some <==> self.points(kind).len() > 0,
            r is Some ==> r->0 == interp_at(self.sorted_elapsed(kind), p as int, 100),
    {
        self.quantile(kind, p, 100)
    }
}

/// Sorts latency values ascending in place (insertion sort), preserving
/// the multiset of values.
fn sort_u64(v: &mut Vec<u64>)
    ensures
        final(v)@.to_multiset() == old(v)@.to_multiset(),
        sorted_by(final(v)@, u64_leq()),
{
    let ghost orig = v@;
    let mut i: usize = 1;
    if v.len() <= 1 {
        proof {
            assert(sorted_by(v@, u64_leq()));
        }
        return ;
    }
    while i < v.len()
        invariant
            1 <= i <= v@.len(),
            v@.len() == orig.len(),
            v@.to_multiset() == orig.to_multiset(),
            sorted_by(v@.subrange(0, i as int), u64_leq()),
        decreases v@.len() - i,
    {
        let x = v[i];
        let mut j: usize = i;
        while j > 0 && v[j - 1] > x
            invariant
                0 <= j <= i < v@.len(),
                forall|t: int| j <= t < i ==> #[trigger] v@[t] > x,
                sorted_by(v@.subrange(0, i as int), u64_leq()),
                x == v@[i as int],
                v@.len() == orig.len(),
            decreases j,
        {
            j = j - 1;
        }
        let ghost before = v@;
        v.remove(i);
        v.insert(j, x);
        proof {
            let after = v@;
            let ul = u64_leq();
            let pre = before.subrange(0, i as int);
            assert(before.remove(i as int).to_multiset() == before.to_multiset().remove(
                before[i as int],
            ));
            assert(after.to_multiset() == before.remove(i as int).to_multiset().insert(x));
            assert(after.to_multiset() =~= before.to_multiset());
            assert forall|p: int| 0 <= p < j implies #[trigger] before[p] <= x by {
                assert(before[j - 1] <= x);
                if p < j - 1 {
                    assert(pre[p] == before[p] && pre[j - 1] == before[j - 1]);
                    assert(ul(pre[p], pre[j - 1]));
                }
            }
            assert forall|p: int, q: int| 0 <= p <= q <= i implies after[p] <= after[q] by {
                if p < j {
                    assert(after[p] == before[p]);
                } else if p == j {
                    assert(after[p] == x);
                } else {
                    assert(after[p] == before[p - 1]);
                }
                if q < j {
                    assert(after[q] == before[q]);
                } else if q == j {
                    assert(after[q] == x);
                } else {
                    assert(after[q] == before[q - 1]);
                }
                if q < j {
                    if p < q {
                        assert(pre[p] == before[p] && pre[q] == before[q]);
                        assert(ul(pre[p], pre[q]));
                    }
                } else if q > j {
                    assert(j <= q - 1 < i);
                    assert(before[q - 1] > x);
                    if p > j && p < q {
                        if p - 1 < q - 1 {
                            assert(pre[p - 1] == before[p - 1] && pre[q - 1] == before[q - 1]);
                            assert(ul(pre[p - 1], pre[q - 1]));
                        }
                    }
                }
            }
            assert(sorted_by(after.subrange(0, i + 1), ul)) by {
                let np = after.subrange(0, i + 1);
                assert forall|p: int, q: int| 0 <= p < q < np.len() implies ul(
                    #[trigger] np[p],
                    #[trigger] np[q],
                ) by {
                    assert(np[p] == after[p] && np[q] == after[q]);
                    assert(after[p] <= after[q]);
                }
            }
        }
        i = i + 1;
    }
    proof {
        assert(v@.subrange(0, v@.len() as int) =~= v@);
    }
}

/// Computes `interp_at` on a sorted, nonempty sample.
fn interp_sorted(sorted: &Vec<u64>, num: u64, den: u64) -> (r: u64)
    requires
        sorted_by(sorted@, u64_leq()),
        sorted@.len() >= 1,
        0 < den <= 0xffff_ffffu64,
        num <= den,
    ensures
        r == interp_at(sorted@, num as int, den as int),
{
    let n = sorted.len();
    proof {
        vstd::arithmetic::mul::lemma_mul_upper_bound(
            (n - 1) as int,
            0xffff_ffff_ffff_ffff,
            num as int,
            0xffff_ffff,
        );
    }
    let h: u128 = ((n - 1) as u128) * (num as u128);
    let idx_wide: u128 = h / (den as u128);
    let rem: u128 = h % (den as u128);
    proof {
        lemma_rank_bounds(n as int, num as int, den as int);
    }
    let idx = idx_wide as usize;
    if idx + 1 < n {
        let lo = sorted[idx];
        let hi = sorted[idx + 1];
        proof {
            assert((u64_leq())(sorted@[idx as int], sorted@[idx + 1]));
            lemma_interp_frac_bounds(hi as int - lo as int, rem as int, den as int);
            vstd::arithmetic::mul::lemma_mul_upper_bound(
                hi as int - lo as int,
                0xffff_ffff_ffff_ffff,
                rem as int,
                0xffff_ffff,
            );
        }
        let frac: u128 = ((hi - lo) as u128) * rem / (den as u128);
        lo + (frac as u64)
    } else {
        sorted[n - 1]
    }
}

/// The interpolation rank `(n - 1) * num / den` stays below `n`.
proof fn lemma_rank_bounds(n: int, num: int, den: int)
    requires
        n >= 1,
        0 < den,
        0 <= num <= den,
    ensures
        0 <= (n - 1) * num,
        (n - 1) * num / den <= n - 1,
        0 <= (n - 1) * num % den < den,
{
    let h = (n - 1) * num;
    vstd::arithmetic::mul::lemma_mul_inequality(num, den, n - 1);
    assert(num * (n - 1) <= den * (n - 1));
    vstd::arithmetic::mul::lemma_mul_is_commutative(num, n - 1);
    vstd::arithmetic::mul::lemma_mul_is_commutative(den, n - 1);
    assert(h <= (n - 1) * den);
    vstd::arithmetic::mul::lemma_mul_nonnegative(n - 1, num);
    vstd::arithmetic::div_mod::lemma_div_is_ordered(h, (n - 1) * den, den);
    vstd::arithmetic::div_mod::lemma_div_multiples_vanish(n - 1, den);
    assert(den * (n - 1) == (n - 1) * den) by {
        vstd::arithmetic::mul::lemma_mul_is_commutative(den, n - 1);
    }
    vstd::arithmetic::div_mod::lemma_mod_division_less_than_divisor(h, den);
}

/// The interpolated fraction `diff * rem / den` stays within `diff`.
proof fn lemma_interp_frac_bounds(diff: int, rem: int, den: int)
    requires
        diff >= 0,
        0 <= rem < den,
    ensures
        0 <= diff * rem / den <= diff,
{
    vstd::arithmetic::mul::lemma_mul_nonnegative(diff, rem);
    vstd::arithmetic::div_mod::lemma_div_pos_is_pos(diff * rem, den);
    vstd::arithmetic::mul::lemma_mul_inequality(rem, den, diff);
    vstd::arithmetic::mul::lemma_mul_is_commutative(rem, diff);
    vstd::arithmetic::mul::lemma_mul_is_commutative(den, diff);
    assert(diff * rem <= diff * den);
    vstd::arithmetic::div_mod::lemma_div_is_ordered(diff * rem, diff * den, den);
    vstd::arithmetic::div_mod::lemma_div_multiples_vanish(diff, den);
    assert(den * diff == diff * den) by {
        vstd::arithmetic::mul::lemma_mul_is_commutative(den, diff);
    }
}

/// Quantiles are monotone in the requested rank: over one sorted sample,
/// a higher quantile never yields a smaller value.
pub proof fn lemma_interp_monotone(s: Seq<u64>, num1: int, num2: int, den: int)
    requires
        sorted_by(s, u64_leq()),
        s.len() >= 1,
        0 < den,
        0 <= num1 <= num2 <= den,
    ensures
        interp_at(s, num1, den) <= interp_at(s, num2, den),
{
    let n = s.len() as int;
    let ul = u64_leq();
    let h1 = (n - 1) * num1;
    let h2 = (n - 1) * num2;
    vstd::arithmetic::mul::lemma_mul_inequality(num1, num2, n - 1);
    vstd::arithmetic::mul::lemma_mul_is_commutative(num1, n - 1);
    vstd::arithmetic::mul::lemma_mul_is_commutative(num2, n - 1);
    assert(h1 <= h2);
    lemma_rank_bounds(n, num1, den);
    lemma_rank_bounds(n, num2, den);
    let idx1 = h1 / den;
    let idx2 = h2 / den;
    let rem1 = h1 % den;
    let rem2 = h2 % den;
    vstd::arithmetic::div_mod::lemma_div_is_ordered(h1, h2, den);
    assert(0 <= idx1 <= idx2 <= n - 1) by {
        vstd::arithmetic::div_mod::lemma_div_pos_is_pos(h1, den);
    }
    if idx1 == idx2 {
        if idx1 + 1 < n {
            let lo = s[idx1] as int;
            let hi = s[idx1 + 1] as int;
            assert(ul(s[idx1], s[idx1 + 1]));
            assert(rem1 <= rem2) by {
                vstd::arithmetic::div_mod::lemma_fundamental_div_mod(h1, den);
                vstd::arithmetic::div_mod::lemma_fundamental_div_mod(h2, den);
            }
            vstd::arithmetic::mul::lemma_mul_inequality(rem1, rem2, hi - lo);
            vstd::arithmetic::mul::lemma_mul_is_commutative(rem1, hi - lo);
            vstd::arithmetic::mul::lemma_mul_is_commutative(rem2, hi - lo);
            vstd::arithmetic::div_mod::lemma_div_is_ordered(
                (hi - lo) * rem1,
                (hi - lo) * rem2,
                den,
            );
        }
    } else {
        // idx1 < idx2 <= n - 1, so the first interpolation interval is
        // interior: its upper end s[idx1 + 1] bounds the first value,
        // and the second value is at least s[idx2].
        let lo1 = s[idx1] as int;
        let hi1 = s[idx1 + 1] as int;
        assert(ul(s[idx1], s[idx1 + 1]));
        lemma_interp_frac_bounds(hi1 - lo1, rem1, den);
        assert(interp_at(s, num1, den) <= hi1);
        if idx1 + 1 < idx2 {
            assert(ul(s[idx1 + 1], s[idx2]));
        }
        assert(hi1 <= s[idx2]);
        if idx2 + 1 < n {
            let lo2 = s[idx2] as int;
            let hi2 = s[idx2 + 1] as int;
            assert(ul(s[idx2], s[idx2 + 1]));
            lemma_interp_frac_bounds(hi2 - lo2, rem2, den);
            assert(interp_at(s, num2, den) >= lo2);
        } else {
            assert(idx2 == n - 1);
        }
    }
}

/// Percentile monotonicity over a collector: for any kind with at least
/// one sample, a higher percentile never reports a smaller latency.
pub proof fn lemma_percentile_monotone(st: Stats, kind: OpKind, p1: int, p2: int)
    requires
        st.points(kind).len() >= 1,
        1 <= p1 <= p2 <= 100,
    ensures
        interp_at(st.sorted_elapsed(kind), p1, 100) <= interp_at(st.sorted_elapsed(kind), p2, 100),
{
    let unsorted = elapsed_of(st.points(kind));
    lemma_sorted_sample(unsorted);
    lemma_interp_monotone(st.sorted_elapsed(kind), p1, p2, 100);
}

// ---------------------------------------------------------------------------
// Bandwidth and time-bucketed moving averages
// ---------------------------------------------------------------------------

/// The smallest start instant among the samples (meaningful only for a
/// nonempty sequence).
pub open spec fn min_start(s: Seq<(u64, u64)>) -> u64
    recommends
        s.len() > 0,
    decreases s.len(),
{
    if s.len() <= 1 {
        s[0].0
    } else {
        let m = min_start(s.drop_last());
        if s.last().0 < m {
            s.last().0
        } else {
            m
        }
    }
}

/// The largest start instant among the samples (meaningful only for a
/// nonempty sequence).
pub open spec fn max_start(s: Seq<(u64, u64)>) -> u64
    recommends
        s.len() > 0,
    decreases s.len(),
{
    if s.len() <= 1 {
        s[0].0
    } else {
        let m = max_start(s.drop_last());
        if s.last().0 > m {
            s.last().0
        } else {
            m
        }
    }
}

/// Every sample starts no earlier than the minimum and no later than the
/// maximum.
proof fn lemma_start_bounds(s: Seq<(u64, u64)>, j: int)
    requires
        0 <= j < s.len(),
    ensures
        min_start(s) <= s[j].0,
        s[j].0 <= max_start(s),
    decreases s.len(),
{
    if s.len() > 1 && j < s.len() - 1 {
        lemma_start_bounds(s.drop_last(), j);
        assert(s.drop_last()[j] == s[j]);
    }
}

/// An integer clamped into the `u64` range from above.
pub open spec fn clamp_u64(x: int) -> u64
    recommends
        x >= 0,
{
    if x <= u64::MAX {
        x as u64
    } else {
        u64::MAX
    }
}

impl Stats {
    /// All samples of every kind, pings first, then gets, then puts.
    pub open spec fn all_points(self) -> Seq<(u64, u64)> {
        self.points(OpKind::Ping) + self.points(OpKind::Get) + self.points(OpKind::Put)
    }

    /// The earliest start instant recorded under any kind: the shared
    /// time origin of all plotted series.
    pub open spec fn earliest_start(self) -> u64 {
        min_start(self.all_points())
    }

    /// Computes the earliest recorded start instant across all kinds.
    fn earliest_start_exec(&self) -> (r: u64)
        requires
            self.all_points().len() > 0,
        ensures
            r == self.earliest_start(),
    {
        let mut have: bool = false;
        let mut cur: u64 = 0;
        let ghost mut done: Seq<(u64, u64)> = Seq::empty();
        let mut i: usize = 0;
        while i < self.ping_latencies.len()
            invariant
                0 <= i <= self.ping_latencies@.len(),
                done =~= self.ping_latencies@.subrange(0, i as int),
                have <==> done.len() > 0,
                have ==> cur == min_start(done),
            decreases self.ping_latencies@.len() - i,
        {
            let p = self.ping_latencies[i];
            proof {
                let next = self.ping_latencies@.subrange(0, i + 1);
                assert(next.drop_last() =~= done);
                assert(next.last() == p);
            }
            if !have {
                have = true;
                cur = p.0;
            } else if p.0 < cur {
                cur = p.0;
            }
            proof {
                done = self.ping_latencies@.subrange(0, i + 1);
            }
            i = i + 1;
        }
        proof {
            assert(done =~= self.points(OpKind::Ping));
        }
        let mut j: usize = 0;
        while j < self.get_latencies.len()
            invariant
                0 <= j <= self.get_latencies@.len(),
                done =~= self.points(OpKind::Ping) + self.get_latencies@.subrange(0, j as int),
                have <==> done.len() > 0,
                have ==> cur == min_start(done),
            decreases self.get_latencies@.len() - j,
        {
            let p = self.get_latencies[j];
            proof {
                let next = self.points(OpKind::Ping) + self.get_latencies@.subrange(0, j + 1);
                assert(next.drop_last() =~= done);
                assert(next.last() == p);
            }
            if !have {
                have = true;
                cur = p.0;
            } else if p.0 < cur {
                cur = p.0;
            }
            proof {
                done = self.points(OpKind::Ping) + self.get_latencies@.subrange(0, j + 1);
            }
            j = j + 1;
        }
        proof {
            assert(done =~= self.points(OpKind::Ping) + self.points(OpKind::Get));
        }
        let mut k: usize = 0;
        while k < self.set_latencies.len()
            invariant
                0 <= k <= self.set_latencies@.len(),
                done =~= self.points(OpKind::Ping) + self.points(OpKind::Get)
                    + self.set_latencies@.subrange(0, k as int),
                have <==> done.len() > 0,
                have ==> cur == min_start(done),
            decreases self.set_latencies@.len() - k,
        {
            let p = self.set_latencies[k];
            proof {
                let next = self.points(OpKind::Ping) + self.points(OpKind::Get)
                    + self.set_latencies@.subrange(0, k + 1);
                assert(next.drop_last() =~= done);
                assert(next.last() == p);
            }
            if !have {
                have = true;
                cur = p.0;
            } else if p.0 < cur {
                cur = p.0;
            }
            proof {
                done = self.points(OpKind::Ping) + self.points(OpKind::Get)
                    + self.set_latencies@.subrange(0, k + 1);
            }
            k = k + 1;
        }
        proof {
            assert(done =~= self.all_points());
        }
        cur
    }

    /// Average bandwidth of a kind in bytes per second, over the
    /// wall-clock span from the kind's first to its last recorded start
    /// instant (starts are in microseconds). `None` when the kind has no
    /// samples, has all samples at one instant, or is `Ping` (pings move
    /// no payload); the result clamps at the `u64` maximum.
    pub fn bandwidth(&self, kind: OpKind) -> (r: Option<u64>)
        ensures
            r is Some <==> !(kind is Ping) && self.points(kind).len() > 0 && min_start(
                self.points(kind),
            ) < max_start(self.points(kind)),
            r is Some ==> r->0 == clamp_u64(
                self.total_size(kind) * 1_000_000 / (max_start(self.points(kind)) - min_start(
                    self.points(kind),
                )),
            ),
    {
        let points = match kind {
            OpKind::Ping => {
                return None;
            },
            OpKind::Get => &self.get_latencies,
            OpKind::Put => &self.set_latencies,
        };
        if points.len() == 0 {
            return None;
        }
        let mut lo: u64 = points[0].0;
        let mut hi: u64 = points[0].0;
        let mut i: usize = 1;
        proof {
            assert(points@.subrange(0, 1).drop_last() =~= Seq::<(u64, u64)>::empty());
        }
        while i < points.len()
            invariant
                1 <= i <= points@.len(),
                points@ == self.points(kind),
                lo == min_start(points@.subrange(0, i as int)),
                hi == max_start(points@.subrange(0, i as int)),
            decreases points@.len() - i,
        {
            let p = points[i];
            proof {
                let next = points@.subrange(0, i + 1);
                assert(next.drop_last() =~= points@.subrange(0, i as int));
                assert(next.last() == p);
            }
            if p.0 < lo {
                lo = p.0;
            }
            if p.0 > hi {
                hi = p.0;
            }
            i = i + 1;
        }
        proof {
            assert(points@.subrange(0, points@.len() as int) =~= points@);
        }
        if lo == hi {
            return None;
        }
        let total = match kind {
            OpKind::Ping => 0,
            OpKind::Get => self.get_total_size,
            OpKind::Put => self.set_total_size,
        };
        proof {
            vstd::arithmetic::mul::lemma_mul_upper_bound(
                total as int,
                0xffff_ffff_ffff_ffff,
                1_000_000,
                1_000_000,
            );
        }
        let scaled: u128 = (total as u128) * 1_000_000;
        let span: u128 = (hi - lo) as u128;
        let rate: u128 = scaled / span;
        if rate > 0xffff_ffff_ffff_ffffu128 {
            Some(u64::MAX)
        } else {
            Some(rate as u64)
        }
    }
}

/// The sum of the elapsed values of a sample sequence.
pub open spec fn sum_elapsed(s: Seq<(u64, u64)>) -> int
    decreases s.len(),
{
    if s.len() == 0 {
        0
    } else {
        sum_elapsed(s.drop_last()) + s.last().1
    }
}

/// The elapsed sum of `n` samples lies between 0 and `n` times the
/// largest representable latency.
proof fn lemma_sum_elapsed_bound(s: Seq<(u64, u64)>)
    ensures
        0 <= sum_elapsed(s) <= s.len() * 0xffff_ffff_ffff_ffff,
    decreases s.len(),
{
    if s.len() > 0 {
        lemma_sum_elapsed_bound(s.drop_last());
        assert((s.len() - 1) * 0xffff_ffff_ffff_ffff + 0xffff_ffff_ffff_ffff == s.len()
            * 0xffff_ffff_ffff_ffff) by (nonlinear_arith);
    }
}

impl Stats {
    /// The sum of one kind's elapsed latencies.
    fn elapsed_total(&self, kind: OpKind) -> (t: u128)
        ensures
            t == sum_elapsed(self.points(kind)),
    {
        let points = match kind {
            OpKind::Ping => &self.ping_latencies,
            OpKind::Get => &self.get_latencies,
            OpKind::Put => &self.set_latencies,
        };
        let mut total: u128 = 0;
        let mut i: usize = 0;
        while i < points.len()
            invariant
                0 <= i <= points@.len(),
                points@ == self.points(kind),
                total == sum_elapsed(points@.subrange(0, i as int)),
                total <= (i as int) * 0xffff_ffff_ffff_ffff,
            decreases points@.len() - i,
        {
            proof {
                let next = points@.subrange(0, i + 1);
                assert(next.drop_last() =~= points@.subrange(0, i as int));
                assert(next.last() == points@[i as int]);
                assert((i as int) * 0xffff_ffff_ffff_ffff + 0xffff_ffff_ffff_ffff == (i + 1)
                    * 0xffff_ffff_ffff_ffff) by (nonlinear_arith);
                vstd::arithmetic::mul::lemma_mul_inequality(
                    i + 1,
                    0x1_0000_0000_0000_0000,
                    0xffff_ffff_ffff_ffff,
                );
            }
            total = total + (points[i].1 as u128);
            i = i + 1;
        }
        proof {
            assert(points@.subrange(0, points@.len() as int) =~= points@);
        }
        total
    }

    /// The arithmetic mean of one kind's latencies (rounded down), or
    /// `None` when the kind has no samples.
    pub fn mean_latency(&self, kind: OpKind) -> (r: Option<u64>)
        ensures
            r is Some <==> self.points(kind).len() > 0,
            r is Some ==> r->0 == sum_elapsed(self.points(kind)) / (self.points(kind).len() as int),
    {
        let total = self.elapsed_total(kind);
        let count = self.sample_count(kind);
        if count == 0 {
            return None;
        }
        proof {
            lemma_sum_elapsed_bound(self.points(kind));
            vstd::arithmetic::mul::lemma_mul_inequality(
                self.points(kind).len() as int,
                count as int,
                0xffff_ffff_ffff_ffff,
            );
            lemma_mean_bound(total as int, count as int, 0xffff_ffff_ffff_ffff);
        }
        Some((total / (count as u128)) as u64)
    }

    /// The mean payload size of one kind's operations (rounded down), or
    /// `None` for pings (which move no payload) and for kinds with no
    /// samples.
    pub fn mean_size(&self, kind: OpKind) -> (r: Option<u64>)
        ensures
            r is Some <==> !(kind is Ping) && self.points(kind).len() > 0,
            r is Some ==> r->0 == self.total_size(kind) as int / (self.points(kind).len() as int),
    {
        if matches!(kind, OpKind::Ping) {
            return None;
        }
        let count = self.sample_count(kind);
        if count == 0 {
            return None;
        }
        let total = self.size_total(kind);
        proof {
            vstd::arithmetic::div_mod::lemma_div_pos_is_pos(total as int, count as int);
            vstd::arithmetic::div_mod::lemma_div_is_ordered_by_denominator(
                total as int,
                1,
                count as int,
            );
        }
        Some(total / (count as u64))
    }

    /// Completed operations of one kind per second of accumulated
    /// latency (elapsed times are in microseconds), clamped at the
    /// `u64` maximum; `None` when the kind has no samples or no time
    /// was observed at all.
    pub fn ops_per_sec(&self, kind: OpKind) -> (r: Option<u64>)
        ensures
            r is Some <==> self.points(kind).len() > 0 && sum_elapsed(self.points(kind)) > 0,
            r is Some ==> r->0 == clamp_u64(
                (self.points(kind).len() as int) * 1_000_000 / sum_elapsed(self.points(kind)),
            ),
    {
        let total = self.elapsed_total(kind);
        let count = self.sample_count(kind);
        proof {
            lemma_sum_elapsed_bound(self.points(kind));
        }
        if count == 0 || total == 0 {
            return None;
        }
        proof {
            vstd::arithmetic::mul::lemma_mul_upper_bound(
                count as int,
                0xffff_ffff_ffff_ffff,
                1_000_000,
                1_000_000,
            );
        }
        let scaled: u128 = (count as u128) * 1_000_000;
        let rate: u128 = scaled / total;
        if rate > 0xffff_ffff_ffff_ffffu128 {
            Some(u64::MAX)
        } else {
            Some(rate as u64)
        }
    }
}

/// The window index a sample falls in, for windows of the given width
/// anchored at `anchor`.
pub open spec fn bucket_of(start: u64, anchor: u64, window: u64) -> int
    recommends
        window > 0,
        start >= anchor,
{
    (start - anchor) / (window as int)
}

/// How many samples of `s` fall in window `b`.
pub open spec fn bucket_count(s: Seq<(u64, u64)>, anchor: u64, window: u64, b: int) -> int
    decreases s.len(),
{
    if s.len() == 0 {
        0
    } else {
        bucket_count(s.drop_last(), anchor, window, b) + if bucket_of(s.last().0, anchor, window)
            == b {
            1int
        } else {
            0int
        }
    }
}

/// The sum of the elapsed values of the samples of `s` in window `b`.
pub open spec fn bucket_sum(s: Seq<(u64, u64)>, anchor: u64, window: u64, b: int) -> int
    decreases s.len(),
{
    if s.len() == 0 {
        0
    } else {
        bucket_sum(s.drop_last(), anchor, window, b) + if bucket_of(s.last().0, anchor, window)
            == b {
            s.last().1 as int
        } else {
            0int
        }
    }
}

/// The distinct window indices of `s` in order of appearance (for a
/// sample sequence sorted by start, that is ascending order).
pub open spec fn buckets_present(s: Seq<(u64, u64)>, anchor: u64, window: u64) -> Seq<int>
    decreases s.len(),
{
    if s.len() == 0 {
        Seq::empty()
    } else {
        let t = buckets_present(s.drop_last(), anchor, window);
        let b = bucket_of(s.last().0, anchor, window);
        if t.len() > 0 && t.last() == b {
            t
        } else {
            t.push(b)
        }
    }
}

/// The moving-average series over a sorted sample sequence: one entry
/// per occupied window, `(window offset from the anchor, mean elapsed)`,
/// empty windows omitted.
pub open spec fn win_series(s: Seq<(u64, u64)>, anchor: u64, window: u64) -> Seq<(u64, u64)> {
    let bp = buckets_present(s, anchor, window);
    Seq::new(
        bp.len(),
        |k: int|
            (
                (bp[k] * window) as u64,
                (bucket_sum(s, anchor, window, bp[k]) / bucket_count(s, anchor, window, bp[k])) as u64,
            ),
    )
}

/// No sample of `s` falls in a window beyond every sample's own window.
proof fn lemma_bucket_absent(s: Seq<(u64, u64)>, anchor: u64, window: u64, b: int)
    requires
        forall|t: int| 0 <= t < s.len() ==> bucket_of((#[trigger] s[t]).0, anchor, window) != b,
    ensures
        bucket_count(s, anchor, window, b) == 0,
        bucket_sum(s, anchor, window, b) == 0,
    decreases s.len(),
{
    if s.len() > 0 {
        let t = s.drop_last();
        assert(forall|j: int| 0 <= j < t.len() ==> #[trigger] t[j] == s[j]);
        lemma_bucket_absent(t, anchor, window, b);
        assert(s.last() == s[s.len() - 1]);
    }
}

/// A nonnegative sum of `count` values each at most `m` has mean at
/// most `m`.
proof fn lemma_mean_bound(sum: int, count: int, m: int)
    requires
        count >= 1,
        0 <= sum,
        sum <= count * m,
    ensures
        0 <= sum / count <= m,
{
    vstd::arithmetic::div_mod::lemma_div_pos_is_pos(sum, count);
    vstd::arithmetic::div_mod::lemma_div_is_ordered(sum, count * m, count);
    vstd::arithmetic::div_mod::lemma_div_multiples_vanish(m, count);
}

impl Stats {
    /// The time-bucketed moving-average series of one kind: samples are
    /// sorted by start instant and grouped into windows of the given
    /// width, anchored at the earliest start instant recorded under any
    /// kind (so all kinds share one time axis); each occupied window
    /// yields `(window offset from the anchor, mean elapsed)`, and empty
    /// windows are omitted.
    pub fn windowed_average(&self, kind: OpKind, window: u64) -> (r: Vec<(u64, u64)>)
        requires
            window > 0,
        ensures
            r@ == win_series(self.points(kind).sort_by(pair_leq()), self.earliest_start(), window),
    {
        let points = match kind {
            OpKind::Ping => &self.ping_latencies,
            OpKind::Get => &self.get_latencies,
            OpKind::Put => &self.set_latencies,
        };
        let empty_list: Vec<(u64, u64)> = Vec::new();
        let sp = merge_times(points, &empty_list);
        proof {
            assert(points@ + empty_list@ =~= points@);
            assert(points@ == self.points(kind));
        }
        let ghost ss = sp@;
        let ghost anchor_spec = self.earliest_start();
        if sp.len() == 0 {
            let out: Vec<(u64, u64)> = Vec::new();
            proof {
                assert(win_series(ss, anchor_spec, window) =~= out@);
            }
            return out;
        }
        proof {
            broadcast use vstd::multiset::group_multiset_axioms;
            broadcast use vstd::seq_lib::to_multiset_len;

            assert(empty_list@.to_multiset() =~= Multiset::<(u64, u64)>::empty());
            assert(ss.to_multiset() =~= points@.to_multiset());
            assert(ss.len() == ss.to_multiset().len());
            assert(points@.len() == points@.to_multiset().len());
            assert(self.all_points().len() > 0);
        }
        let anchor = self.earliest_start_exec();
        proof {
            // Every sample of the sorted copy is a recorded sample, so it
            // starts no earlier than the global anchor.
            assert forall|t: int| 0 <= t < ss.len() implies (#[trigger] ss[t]).0 >= anchor by {
                broadcast use vstd::multiset::group_multiset_axioms;
                broadcast use vstd::seq_lib::to_multiset_contains;

                assert(empty_list@.to_multiset() =~= Multiset::<(u64, u64)>::empty());
                assert(ss.to_multiset() =~= points@.to_multiset());
                assert(ss.contains(ss[t]));
                assert(ss.to_multiset().count(ss[t]) > 0);
                assert(points@.to_multiset().count(ss[t]) > 0);
                assert(points@.contains(ss[t]));
                let j = choose|j: int| 0 <= j < points@.len() && points@[j] == ss[t];
                let offset: int = match kind {
                    OpKind::Ping => 0,
                    OpKind::Get => self.points(OpKind::Ping).len() as int,
                    OpKind::Put => (self.points(OpKind::Ping).len() + self.points(
                        OpKind::Get,
                    ).len()) as int,
                };
                assert(self.all_points()[offset + j] == points@[j]);
                lemma_start_bounds(self.all_points(), offset + j);
            }
        }
        let p0 = sp[0];
        let mut cur_b: u64 = (p0.0 - anchor) / window;
        let mut cur_sum: u128 = p0.1 as u128;
        let mut cur_count: usize = 1;
        let mut out: Vec<(u64, u64)> = Vec::new();
        let ghost mut bseq: Seq<int> = Seq::empty();
        let mut i: usize = 1;
        proof {
            let pre1 = ss.subrange(0, 1);
            assert(pre1.drop_last() =~= Seq::<(u64, u64)>::empty());
            assert(pre1.last() == p0);
            assert(bucket_count(Seq::<(u64, u64)>::empty(), anchor, window, cur_b as int) == 0);
            assert(bucket_sum(Seq::<(u64, u64)>::empty(), anchor, window, cur_b as int) == 0);
            assert(buckets_present(Seq::<(u64, u64)>::empty(), anchor, window) =~= Seq::<
                int,
            >::empty());
            assert(buckets_present(pre1, anchor, window) =~= bseq.push(cur_b as int));
        }
        while i < sp.len()
            invariant
                1 <= i <= ss.len(),
                sp@ == ss,
                window > 0,
                sorted_by(ss, pair_leq()),
                forall|t: int| 0 <= t < ss.len() ==> (#[trigger] ss[t]).0 >= anchor,
                cur_b as int == bucket_of(ss[i - 1].0, anchor, window),
                forall|t: int|
                    0 <= t < i ==> bucket_of((#[trigger] ss[t]).0, anchor, window) <= cur_b as int,
                cur_count == bucket_count(ss.subrange(0, i as int), anchor, window, cur_b as int),
                cur_sum == bucket_sum(ss.subrange(0, i as int), anchor, window, cur_b as int),
                1 <= cur_count <= i,
                cur_sum <= (cur_count as int) * 0xffff_ffff_ffff_ffff,
                buckets_present(ss.subrange(0, i as int), anchor, window) == bseq.push(
                    cur_b as int,
                ),
                out@.len() == bseq.len(),
                forall|k: int| 0 <= k < bseq.len() ==> #[trigger] bseq[k] < cur_b as int,
                forall|k: int|
                    0 <= k < bseq.len() ==> {
                        &&& 0 <= #[trigger] bseq[k]
                        &&& bseq[k] * window <= u64::MAX
                        &&& out@[k].0 == (bseq[k] * window) as u64
                        &&& bucket_count(ss.subrange(0, i as int), anchor, window, bseq[k]) > 0
                        &&& out@[k].1 == (bucket_sum(ss.subrange(0, i as int), anchor, window, bseq[k])
                            / bucket_count(ss.subrange(0, i as int), anchor, window, bseq[k])) as u64
                    },
            decreases ss.len() - i,
        {
            let ghost prefix = ss.subrange(0, i as int);
            let ghost next = ss.subrange(0, i + 1);
            let ghost b_old = cur_b;
            let ghost bseq_old = bseq;
            let ghost out_old = out@;
            let p = sp[i];
            let b = (p.0 - anchor) / window;
            proof {
                assert(next.drop_last() =~= prefix);
                assert(next.last() == p);
                assert((pair_leq())(ss[i - 1], ss[i as int]));
                vstd::arithmetic::div_mod::lemma_div_is_ordered(
                    (ss[i - 1].0 - anchor) as int,
                    (p.0 - anchor) as int,
                    window as int,
                );
                assert(cur_b <= b);
            }
            if b == cur_b {
                proof {
                    assert((cur_count as int) * 0xffff_ffff_ffff_ffff + 0xffff_ffff_ffff_ffff == ((
                    cur_count + 1) as int) * 0xffff_ffff_ffff_ffff) by (nonlinear_arith);
                    vstd::arithmetic::mul::lemma_mul_inequality(
                        (cur_count + 1) as int,
                        0x1_0000_0000_0000_0000,
                        0xffff_ffff_ffff_ffff,
                    );
                }
                cur_sum = cur_sum + (p.1 as u128);
                cur_count = cur_count + 1;
            } else {
                proof {
                    vstd::arithmetic::div_mod::lemma_fundamental_div_mod(
                        (ss[i - 1].0 - anchor) as int,
                        window as int,
                    );
                    vstd::arithmetic::div_mod::lemma_mod_division_less_than_divisor(
                        (ss[i - 1].0 - anchor) as int,
                        window as int,
                    );
                    assert((cur_b as int) * (window as int) <= (ss[i - 1].0 - anchor) as int) by (
                    nonlinear_arith)
                        requires
                            (ss[i - 1].0 - anchor) as int == (window as int) * (cur_b as int) + (
                            ss[i - 1].0 - anchor) as int % (window as int),
                            (ss[i - 1].0 - anchor) as int % (window as int) >= 0,
                    ;
                    lemma_mean_bound(cur_sum as int, cur_count as int, 0xffff_ffff_ffff_ffff);
                }
                let mean = (cur_sum / (cur_count as u128)) as u64;
                let offset = cur_b * window;
                out.push((offset, mean));
                proof {
                    bseq = bseq.push(cur_b as int);
                }
                cur_b = b;
                cur_sum = p.1 as u128;
                cur_count = 1;
            }
            proof {
                // Windows strictly below the incoming sample's window gain
                // nothing from it.
                assert(bucket_of(p.0, anchor, window) == b as int);
                assert forall|c: int| c < b as int implies {
                    &&& bucket_count(next, anchor, window, c) == bucket_count(
                        prefix,
                        anchor,
                        window,
                        c,
                    )
                    &&& bucket_sum(next, anchor, window, c) == bucket_sum(prefix, anchor, window, c)
                } by {}
                if b == b_old {
                    assert(bucket_count(next, anchor, window, b as int) == bucket_count(
                        prefix,
                        anchor,
                        window,
                        b as int,
                    ) + 1);
                    assert(bucket_sum(next, anchor, window, b as int) == bucket_sum(
                        prefix,
                        anchor,
                        window,
                        b as int,
                    ) + p.1);
                    assert(buckets_present(prefix, anchor, window).last() == b as int);
                    assert(buckets_present(next, anchor, window) == buckets_present(
                        prefix,
                        anchor,
                        window,
                    ));
                } else {
                    // The sample opens a new window, beyond every one seen.
                    assert(b_old < b);
                    assert forall|t: int|
                        0 <= t < prefix.len() implies bucket_of(
                        (#[trigger] prefix[t]).0,
                        anchor,
                        window,
                    ) != b as int by {
                        assert(prefix[t] == ss[t]);
                    }
                    lemma_bucket_absent(prefix, anchor, window, b as int);
                    assert(bucket_count(next, anchor, window, b as int) == 1);
                    assert(bucket_sum(next, anchor, window, b as int) == p.1);
                    assert(buckets_present(prefix, anchor, window).last() == b_old as int);
                    assert(buckets_present(next, anchor, window) == buckets_present(
                        prefix,
                        anchor,
                        window,
                    ).push(b as int));
                    assert(bseq == bseq_old.push(b_old as int));
                    assert(buckets_present(next, anchor, window) == bseq.push(b as int));
                }
                // Finished windows keep their counts, sums and rows.
                assert forall|k: int| 0 <= k < bseq.len() implies {
                    &&& 0 <= #[trigger] bseq[k]
                    &&& bseq[k] < b as int
                    &&& bseq[k] * window <= u64::MAX
                    &&& out@[k].0 == (bseq[k] * window) as u64
                    &&& bucket_count(next, anchor, window, bseq[k]) > 0
                    &&& out@[k].1 == (bucket_sum(next, anchor, window, bseq[k]) / bucket_count(
                        next,
                        anchor,
                        window,
                        bseq[k],
                    )) as u64
                } by {
                    if b == b_old {
                        assert(bseq == bseq_old && out@ == out_old);
                        assert(bseq[k] < b_old as int);
                    } else {
                        if k < bseq_old.len() {
                            assert(bseq[k] == bseq_old[k] && out@[k] == out_old[k]);
                            assert(bseq[k] < b_old as int);
                        } else {
                            assert(bseq[k] == b_old as int);
                        }
                    }
                    assert(bucket_count(next, anchor, window, bseq[k]) == bucket_count(
                        prefix,
                        anchor,
                        window,
                        bseq[k],
                    ));
                    assert(bucket_sum(next, anchor, window, bseq[k]) == bucket_sum(
                        prefix,
                        anchor,
                        window,
                        bseq[k],
                    ));
                    if b != b_old && k == bseq_old.len() {
                        assert(bucket_count(prefix, anchor, window, b_old as int) > 0);
                        assert(out@[k].1 == (bucket_sum(prefix, anchor, window, b_old as int)
                            / bucket_count(prefix, anchor, window, b_old as int)) as u64);
                    }
                }
            }
            i = i + 1;
        }
        proof {
            assert(ss.subrange(0, ss.len() as int) =~= ss);
            vstd::arithmetic::div_mod::lemma_fundamental_div_mod(
                (ss[ss.len() - 1].0 - anchor) as int,
                window as int,
            );
            vstd::arithmetic::div_mod::lemma_mod_division_less_than_divisor(
                (ss[ss.len() - 1].0 - anchor) as int,
                window as int,
            );
            assert((cur_b as int) * (window as int) <= (ss[ss.len() - 1].0 - anchor) as int) by (
            nonlinear_arith)
                requires
                    (ss[ss.len() - 1].0 - anchor) as int == (window as int) * (cur_b as int) + (ss[
                    ss.len() - 1].0 - anchor) as int % (window as int),
                    (ss[ss.len() - 1].0 - anchor) as int % (window as int) >= 0,
            ;
            lemma_mean_bound(cur_sum as int, cur_count as int, 0xffff_ffff_ffff_ffff);
        }
        let mean = (cur_sum / (cur_count as u128)) as u64;
        let offset = cur_b * window;
        out.push((offset, mean));
        proof {
            let bp = buckets_present(ss, anchor, window);
            let ws = win_series(ss, anchor, window);
            assert(bp == bseq.push(cur_b as int));
            assert(out@.len() == ws.len());
            assert forall|k: int| 0 <= k < bp.len() implies out@[k] == ws[k] by {
                if k < bseq.len() {
                    assert(bp[k] == bseq[k]);
                } else {
                    assert(bp[k] == cur_b as int);
                }
            }
            assert(out@ =~= ws);
        }
        out
    }
}

/// One row of the percentile table: the percentile and, for each kind
/// that has samples, its latency at that percentile (microseconds).
pub struct PercentileLatency {
    pub percentile: u64,
    pub ping_latency: Option<u64>,
    pub get_latency: Option<u64>,
    pub set_latency: Option<u64>,
}

/// The latency of one kind at one percentile, or `None` when the kind
/// has no samples.
pub open spec fn spec_percentile(st: Stats, kind: OpKind, p: int) -> Option<u64> {
    if st.points(kind).len() == 0 {
        Option::None
    } else {
        Option::Some(interp_at(st.sorted_elapsed(kind), p, 100) as u64)
    }
}

impl Stats {
    /// The full percentile table, one row per integer percentile from 1
    /// to 100; a kind's column is present exactly when that kind has at
    /// least one sample.
    pub fn percentile_rows(&self) -> (r: Vec<PercentileLatency>)
        ensures
            r@.len() == 100,
            forall|i: int|
                0 <= i < 100 ==> {
                    let row = #[trigger] r@[i];
                    &&& row.percentile == i + 1
                    &&& row.ping_latency == spec_percentile(*self, OpKind::Ping, i + 1)
                    &&& row.get_latency == spec_percentile(*self, OpKind::Get, i + 1)
                    &&& row.set_latency == spec_percentile(*self, OpKind::Put, i + 1)
                },
    {
        let ping_sorted = self.sorted_elapsed_vec(OpKind::Ping);
        let get_sorted = self.sorted_elapsed_vec(OpKind::Get);
        let set_sorted = self.sorted_elapsed_vec(OpKind::Put);
        proof {
            lemma_sorted_sample(elapsed_of(self.points(OpKind::Ping)));
            lemma_sorted_sample(elapsed_of(self.points(OpKind::Get)));
            lemma_sorted_sample(elapsed_of(self.points(OpKind::Put)));
        }
        let mut rows: Vec<PercentileLatency> = Vec::new();
        let mut p: u64 = 1;
        while p <= 100
            invariant
                1 <= p <= 101,
                rows@.len() == p - 1,
                ping_sorted@ == self.sorted_elapsed(OpKind::Ping),
                get_sorted@ == self.sorted_elapsed(OpKind::Get),
                set_sorted@ == self.sorted_elapsed(OpKind::Put),
                ping_sorted@.len() == self.points(OpKind::Ping).len(),
                get_sorted@.len() == self.points(OpKind::Get).len(),
                set_sorted@.len() == self.points(OpKind::Put).len(),
                sorted_by(ping_sorted@, u64_leq()),
                sorted_by(get_sorted@, u64_leq()),
                sorted_by(set_sorted@, u64_leq()),
                forall|i: int|
                    0 <= i < rows@.len() ==> {
                        let row = #[trigger] rows@[i];
                        &&& row.percentile == i + 1
                        &&& row.ping_latency == spec_percentile(*self, OpKind::Ping, i + 1)
                        &&& row.get_latency == spec_percentile(*self, OpKind::Get, i + 1)
                        &&& row.set_latency == spec_percentile(*self, OpKind::Put, i + 1)
                    },
            decreases 101 - p,
        {
            let ping_latency = if ping_sorted.len() > 0 {
                Some(interp_sorted(&ping_sorted, p, 100))
            } else {
                None
            };
            let get_latency = if get_sorted.len() > 0 {
                Some(interp_sorted(&get_sorted, p, 100))
            } else {
                None
            };
            let set_latency = if set_sorted.len() > 0 {
                Some(interp_sorted(&set_sorted, p, 100))
            } else {
                None
            };
            rows.push(PercentileLatency { percentile: p, ping_latency, get_latency, set_latency });
            p = p + 1;
        }
        rows
    }
}

// ---------------------------------------------------------------------------
// Merge is a commutative monoid
// ---------------------------------------------------------------------------

/// Two collectors hold the same data: per kind the same samples (as
/// multisets) and the same byte totals.
pub open spec fn same_contents(x: Stats, y: Stats) -> bool {
    &&& forall|k: OpKind| #[trigger] x.points(k).to_multiset() == y.points(k).to_multiset()
    &&& forall|k: OpKind| #[trigger] x.total_size(k) == y.total_size(k)
}

/// Merging is commutative: merging A with B and merging B with A yield
/// collectors with the same samples and totals — indeed, because the
/// merged samples are sorted canonically, the very same sequences.
pub proof fn lemma_merge_commutative(a: Stats, b: Stats, ab: Stats, ba: Stats)
    requires
        merge_post(a, b, ab),
        merge_post(b, a, ba),
    ensures
        same_contents(ab, ba),
        forall|k: OpKind| #[trigger] ab.points(k) == ba.points(k),
{
    assert forall|k: OpKind| #[trigger]
        ab.points(k).to_multiset() == ba.points(k).to_multiset() by {
        assert(ab.points(k).to_multiset() =~= ba.points(k).to_multiset());
    }
    assert forall|k: OpKind| #[trigger] ab.points(k) == ba.points(k) by {
        lemma_pair_leq_total();
        let x = a.points(k) + b.points(k);
        let y = b.points(k) + a.points(k);
        x.lemma_sort_by_ensures(pair_leq());
        y.lemma_sort_by_ensures(pair_leq());
        lemma_concat_to_multiset(a.points(k), b.points(k));
        lemma_concat_to_multiset(b.points(k), a.points(k));
        assert(x.to_multiset() =~= y.to_multiset());
        lemma_sorted_unique(x.sort_by(pair_leq()), y.sort_by(pair_leq()), pair_leq());
    }
}

/// Merging is associative: merging (A + B) with C and A with (B + C)
/// yield collectors with the same samples and totals — indeed, because
/// the merged samples are sorted canonically, the very same sequences.
pub proof fn lemma_merge_associative(
    a: Stats,
    b: Stats,
    c: Stats,
    ab: Stats,
    bc: Stats,
    ab_c: Stats,
    a_bc: Stats,
)
    requires
        merge_post(a, b, ab),
        merge_post(ab, c, ab_c),
        merge_post(b, c, bc),
        merge_post(a, bc, a_bc),
    ensures
        same_contents(ab_c, a_bc),
        forall|k: OpKind| #[trigger] ab_c.points(k) == a_bc.points(k),
{
    assert forall|k: OpKind| #[trigger]
        ab_c.points(k).to_multiset() == a_bc.points(k).to_multiset() by {
        assert(ab_c.points(k).to_multiset() =~= a_bc.points(k).to_multiset());
    }
    assert forall|k: OpKind| #[trigger] ab_c.points(k) == a_bc.points(k) by {
        lemma_pair_leq_total();
        let x = ab.points(k) + c.points(k);
        let y = a.points(k) + bc.points(k);
        x.lemma_sort_by_ensures(pair_leq());
        y.lemma_sort_by_ensures(pair_leq());
        lemma_concat_to_multiset(ab.points(k), c.points(k));
        lemma_concat_to_multiset(a.points(k), bc.points(k));
        assert(x.to_multiset() =~= y.to_multiset());
        lemma_sorted_unique(x.sort_by(pair_leq()), y.sort_by(pair_leq()), pair_leq());
    }
}

/// An empty collector holds no samples and no bytes, under any kind.
pub proof fn lemma_empty_collector(s: Stats)
    requires
        s.is_empty_collector(),
    ensures
        forall|k: OpKind| (#[trigger] s.points(k)).len() == 0,
        forall|k: OpKind| (#[trigger] s.points(k)).to_multiset() == Multiset::<(u64, u64)>::empty(),
        forall|k: OpKind| #[trigger] s.total_size(k) == 0,
{
    assert forall|k: OpKind| (#[trigger] s.points(k)).to_multiset() == Multiset::<
        (u64, u64),
    >::empty() by {
        assert(s.points(k) =~= Seq::<(u64, u64)>::empty());
        assert(s.points(k).to_multiset() =~= Multiset::<(u64, u64)>::empty());
    }
}

/// The empty collector is the identity of merging: merging any collector
/// with an empty one yields a collector with the original's samples and
/// totals.
pub proof fn lemma_merge_identity(a: Stats, e: Stats, r: Stats)
    requires
        e.is_empty_collector(),
        merge_post(a, e, r),
    ensures
        same_contents(r, a),
{
    assert forall|k: OpKind| #[trigger] r.points(k).to_multiset() == a.points(k).to_multiset() by {
        assert(e.points(k) =~= Seq::<(u64, u64)>::empty());
        assert(e.points(k).to_multiset() =~= Multiset::<(u64, u64)>::empty());
        assert(r.points(k).to_multiset() =~= a.points(k).to_multiset());
    }
}

} // verus!
