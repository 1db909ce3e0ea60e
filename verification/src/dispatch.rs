//! Dispatcher rules: replay pacing, TTL handling and result merging.
//!
//! The dispatcher streams trace records to the workers' shared channel.
//! Under native-time replay it reproduces the trace's relative
//! inter-arrival spacing by sleeping between sends, and treats a
//! decreasing timestamp as a fatal ordering violation; with replay
//! disabled it strips TTLs and sends back to back. After the channel
//! closes it joins every worker and merges their collectors, in any
//! order.

use vstd::prelude::*;
use vstd::multiset::Multiset;
use crate::access::Access;
use crate::stats::{sat_add, OpKind, Stats};
use crate::stats::{lemma_empty_collector, merge_post};

verus! {

/// Trace timestamps must never decrease; this reports the offending
/// pair.
#[derive(Clone, Copy, Debug, PartialEq, Eq, Structural)]
pub struct OrderingViolation {
    pub prev: u64,
    pub next: u64,
}

/// How long to sleep before sending a record under native-time replay:
/// the gap between its timestamp and its predecessor's (in the trace's
/// own milliseconds). The first record of a trace waits for nothing,
/// and a timestamp running backwards is a fatal ordering violation.
pub fn pace_delay(prev: Option<u64>, timestamp: u64) -> (r: Result<u64, OrderingViolation>)
    ensures
        prev is None ==> r == Result::<u64, OrderingViolation>::Ok(0u64),
        prev matches Some(p) ==> r == (if p <= timestamp {
            Result::<u64, OrderingViolation>::Ok((timestamp - p) as u64)
        } else {
            Result::<u64, OrderingViolation>::Err(OrderingViolation { prev: p, next: timestamp })
        }),
{
    match prev {
        None => Ok(0),
        Some(p) => {
            if p > timestamp {
                Err(OrderingViolation { prev: p, next: timestamp })
            } else {
                Ok(timestamp - p)
            }
        },
    }
}

/// The whole trace's timespan, from its first record's timestamp to its
/// last one's; fails when the file's ends are out of order.
pub fn trace_timespan(first: u64, last: u64) -> (r: Result<u64, OrderingViolation>)
    ensures
        first <= last ==> r == Result::<u64, OrderingViolation>::Ok((last - first) as u64),
        first > last ==> r == Result::<u64, OrderingViolation>::Err(
            OrderingViolation { prev: first, next: last },
        ),
{
    if first > last {
        Err(OrderingViolation { prev: first, next: last })
    } else {
        Ok(last - first)
    }
}

/// Readies one record for sending: under native-time replay it passes
/// unchanged; otherwise its TTL is cleared, disabling expiry semantics
/// in throughput-only runs.
pub fn prepare_access(access: Access, native_time: bool) -> (r: Access)
    ensures
        native_time ==> r == access,
        !native_time ==> {
            &&& r.ttl is None
            &&& r.timestamp == access.timestamp
            &&& r.command == access.command
            &&& r.key == access.key
            &&& r.value == access.value
        },
{
    if native_time {
        access
    } else {
        Access { ttl: None, ..access }
    }
}

/// The union of the samples of one kind over a sequence of collectors.
pub open spec fn points_union(collectors: Seq<Stats>, kind: OpKind) -> Multiset<(u64, u64)>
    decreases collectors.len(),
{
    if collectors.len() == 0 {
        Multiset::empty()
    } else {
        points_union(collectors.drop_last(), kind).add(
            collectors.last().points(kind).to_multiset(),
        )
    }
}

/// The (saturating) sum of the byte totals of one kind over a sequence
/// of collectors.
pub open spec fn sizes_sum(collectors: Seq<Stats>, kind: OpKind) -> u64
    decreases collectors.len(),
{
    if collectors.len() == 0 {
        0
    } else {
        sat_add(sizes_sum(collectors.drop_last(), kind), collectors.last().total_size(kind))
    }
}

/// Merges every worker's collector into one aggregate. Per kind, the
/// aggregate holds exactly the union of all workers' samples and the
/// sum of their byte totals; since merging is commutative and
/// associative, the workers' order does not matter.
pub fn merge_all(collectors: &Vec<Stats>) -> (r: Stats)
    ensures
        forall|k: OpKind| #[trigger] r.points(k).to_multiset() == points_union(collectors@, k),
        forall|k: OpKind| #[trigger] r.total_size(k) == sizes_sum(collectors@, k),
{
    let mut acc = Stats::new();
    proof {
        lemma_empty_collector(acc);
        assert forall|k: OpKind| #[trigger]
            acc.points(k).to_multiset() == points_union(
                collectors@.subrange(0, 0),
                k,
            ) by {
            assert(collectors@.subrange(0, 0) =~= Seq::<Stats>::empty());
        }
    }
    let mut i: usize = 0;
    while i < collectors.len()
        invariant
            0 <= i <= collectors@.len(),
            forall|k: OpKind| #[trigger]
                acc.points(k).to_multiset() == points_union(collectors@.subrange(0, i as int), k),
            forall|k: OpKind| #[trigger]
                acc.total_size(k) == sizes_sum(collectors@.subrange(0, i as int), k),
        decreases collectors@.len() - i,
    {
        let merged = acc.merge(&collectors[i]);
        proof {
            let prefix = collectors@.subrange(0, i as int);
            let next = collectors@.subrange(0, i + 1);
            assert(next.drop_last() =~= prefix);
            assert(next.last() == collectors@[i as int]);
            assert(merge_post(acc, collectors@[i as int], merged));
        }
        acc = merged;
        i = i + 1;
    }
    proof {
        assert(collectors@.subrange(0, collectors@.len() as int) =~= collectors@);
    }
    acc
}

} // verus!
