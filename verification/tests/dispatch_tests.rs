use paper_bench::access::{Access, Command};
use paper_bench::client::{
    handle_get_outcome, on_set_done, plan_event, ClientEvent, ClientType, FollowUp, GetOutcome,
    RpcAction,
};
use paper_bench::dispatch::{merge_all, pace_delay, prepare_access, trace_timespan, OrderingViolation};
use paper_bench::stats::{OpKind, Stats};

#[test]
fn pacing_preserves_relative_spacing() {
    // trace timestamps [0, 100, 250]: the sender waits 100 ms before the
    // second record and 150 ms before the third
    assert_eq!(pace_delay(None, 0), Ok(0));
    assert_eq!(pace_delay(Some(0), 100), Ok(100));
    assert_eq!(pace_delay(Some(100), 250), Ok(150));
}

#[test]
fn pacing_rejects_decreasing_timestamps() {
    assert_eq!(
        pace_delay(Some(250), 100),
        Err(OrderingViolation { prev: 250, next: 100 })
    );
}

#[test]
fn pacing_allows_equal_timestamps() {
    assert_eq!(pace_delay(Some(7), 7), Ok(0));
}

#[test]
fn timespan_is_last_minus_first() {
    assert_eq!(trace_timespan(5, 105), Ok(100));
    assert_eq!(trace_timespan(9, 9), Ok(0));
    assert_eq!(
        trace_timespan(10, 2),
        Err(OrderingViolation { prev: 10, next: 2 })
    );
}

#[test]
fn prepare_clears_ttl_only_without_native_time() {
    let a = Access {
        timestamp: 3,
        command: Command::Put,
        key: "5".to_string(),
        value: vec![1, 2],
        ttl: Some(60),
    };
    let kept = prepare_access(a, true);
    assert_eq!(kept.ttl, Some(60));
    let cleared = prepare_access(kept, false);
    assert_eq!(cleared.ttl, None);
    assert_eq!(cleared.timestamp, 3);
    assert_eq!(cleared.key, "5");
    assert_eq!(cleared.value, vec![1, 2]);
}

#[test]
fn merge_all_sums_workers_in_any_order() {
    let mut a = Stats::new();
    a.record(OpKind::Get, 1, 10);
    a.record_size(OpKind::Get, 4);
    let mut b = Stats::new();
    b.record(OpKind::Put, 2, 20);
    b.record_size(OpKind::Put, 8);
    let mut c = Stats::new();
    c.record(OpKind::Get, 0, 5);

    let merged = merge_all(&vec![a, b, c]);
    assert_eq!(merged.samples(OpKind::Get), vec![(0, 5), (1, 10)]);
    assert_eq!(merged.samples(OpKind::Put), vec![(2, 20)]);
    assert_eq!(merged.size_total(OpKind::Get), 4);
    assert_eq!(merged.size_total(OpKind::Put), 8);

    let mut a2 = Stats::new();
    a2.record(OpKind::Get, 1, 10);
    a2.record_size(OpKind::Get, 4);
    let mut b2 = Stats::new();
    b2.record(OpKind::Put, 2, 20);
    b2.record_size(OpKind::Put, 8);
    let mut c2 = Stats::new();
    c2.record(OpKind::Get, 0, 5);
    let merged2 = merge_all(&vec![c2, b2, a2]);
    for kind in [OpKind::Ping, OpKind::Get, OpKind::Put] {
        assert_eq!(merged.samples(kind), merged2.samples(kind));
        assert_eq!(merged.size_total(kind), merged2.size_total(kind));
    }
}

#[test]
fn merge_all_of_nothing_is_empty() {
    let merged = merge_all(&vec![]);
    for kind in [OpKind::Ping, OpKind::Get, OpKind::Put] {
        assert_eq!(merged.sample_count(kind), 0);
        assert_eq!(merged.size_total(kind), 0);
    }
}

#[test]
fn thousand_record_run_across_four_workers() {
    // 1000 alternating GET/PUT records with keys "0".."999", replay
    // pacing disabled (TTLs cleared), executed round-robin by 4 workers
    // under the lookaside strategy; every GET hits.
    let mut workers: Vec<Stats> = (0..4).map(|_| Stats::new()).collect();
    for i in 0..1000u64 {
        let command = if i % 2 == 0 { Command::Get } else { Command::Put };
        let record = Access {
            timestamp: i,
            command,
            key: i.to_string(),
            value: vec![0u8; 100],
            ttl: Some(30),
        };
        let record = prepare_access(record, false);
        assert_eq!(record.ttl, None);
        let stats = &mut workers[(i % 4) as usize];
        let start = i * 10;
        let event = ClientEvent::Access(record);
        match plan_event(ClientType::Lookaside, &event) {
            RpcAction::SendGet => {
                let r = handle_get_outcome(
                    ClientType::Lookaside,
                    &GetOutcome::Hit { size: 100 },
                    start,
                    i + 1,
                    stats,
                );
                assert_eq!(r.unwrap(), FollowUp::Done);
            }
            RpcAction::SendSet => {
                on_set_done(stats, 100, start, i + 1);
            }
            other => panic!("unexpected action {other:?}"),
        }
    }

    let merged = merge_all(&workers);
    let num_gets = merged.sample_count(OpKind::Get);
    let num_sets = merged.sample_count(OpKind::Put);
    assert_eq!(num_gets + num_sets, 1000);
    assert_eq!(num_gets, 500);
    assert_eq!(num_sets, 500);
    assert_eq!(merged.size_total(OpKind::Get), 50_000);
    assert_eq!(merged.size_total(OpKind::Put), 50_000);

    // merged samples are sorted by start instant
    for kind in [OpKind::Get, OpKind::Put] {
        let samples = merged.samples(kind);
        assert_eq!(samples.len(), 500);
        for w in samples.windows(2) {
            assert!(w[0].0 <= w[1].0);
        }
    }

    // the percentile table is non-decreasing from p50 through p100
    let rows = merged.percentile_rows();
    assert_eq!(rows.len(), 100);
    let mut prev_get = 0u64;
    let mut prev_set = 0u64;
    for row in &rows[49..] {
        let g = row.get_latency.unwrap();
        let s = row.set_latency.unwrap();
        assert!(g >= prev_get);
        assert!(s >= prev_set);
        prev_get = g;
        prev_set = s;
    }
}
