use paper_bench::access::{Access, Command};
use paper_bench::client::{
    handle_get_outcome, next_step, on_ping_done, on_set_done, plan_event, ClientEvent, ClientType,
    FollowUp, GetOutcome, RecvOutcome, RpcAction, StepDecision,
};
use paper_bench::stats::{OpKind, Stats};

fn access(command: Command, key: &str, value_len: usize, ttl: Option<u32>) -> Access {
    Access {
        timestamp: 0,
        command,
        key: key.to_string(),
        value: vec![1u8; value_len],
        ttl,
    }
}

#[test]
fn strategy_names() {
    assert_eq!(ClientType::Lookaside.name(), "lookaside");
    assert_eq!(ClientType::ReadThrough.name(), "read-through");
}

#[test]
fn plan_ping_always_pings() {
    for ct in [ClientType::Lookaside, ClientType::ReadThrough] {
        assert_eq!(plan_event(ct, &ClientEvent::Ping), RpcAction::SendPing);
    }
}

#[test]
fn plan_get_always_gets() {
    for ct in [ClientType::Lookaside, ClientType::ReadThrough] {
        let ev = ClientEvent::Access(access(Command::Get, "1", 0, None));
        assert_eq!(plan_event(ct, &ev), RpcAction::SendGet);
    }
}

#[test]
fn plan_put_depends_on_strategy() {
    let ev = ClientEvent::Access(access(Command::Put, "1", 4, Some(9)));
    assert_eq!(plan_event(ClientType::Lookaside, &ev), RpcAction::SendSet);
    assert_eq!(plan_event(ClientType::ReadThrough, &ev), RpcAction::DoNothing);
}

#[test]
fn hit_records_get_latency_and_size() {
    let mut stats = Stats::new();
    let r = handle_get_outcome(
        ClientType::Lookaside,
        &GetOutcome::Hit { size: 128 },
        10,
        3,
        &mut stats,
    );
    assert_eq!(r.unwrap(), FollowUp::Done);
    assert_eq!(stats.samples(OpKind::Get), vec![(10, 3)]);
    assert_eq!(stats.size_total(OpKind::Get), 128);
    assert_eq!(stats.sample_count(OpKind::Put), 0);
}

#[test]
fn lookaside_miss_is_recorded_not_fatal() {
    let mut stats = Stats::new();
    let r = handle_get_outcome(ClientType::Lookaside, &GetOutcome::Miss, 10, 3, &mut stats);
    assert_eq!(r.unwrap(), FollowUp::Done);
    // the miss still counts as a get sample, with no size
    assert_eq!(stats.samples(OpKind::Get), vec![(10, 3)]);
    assert_eq!(stats.size_total(OpKind::Get), 0);
    // and the worker keeps going: later events are still handled
    let r2 = handle_get_outcome(
        ClientType::Lookaside,
        &GetOutcome::Hit { size: 5 },
        20,
        4,
        &mut stats,
    );
    assert_eq!(r2.unwrap(), FollowUp::Done);
    assert_eq!(stats.sample_count(OpKind::Get), 2);
}

#[test]
fn read_through_miss_backfills_under_set() {
    let record = access(Command::Get, "77", 9, Some(3));
    let mut stats = Stats::new();
    let r = handle_get_outcome(ClientType::ReadThrough, &GetOutcome::Miss, 10, 3, &mut stats);
    // exactly one compensating SET is owed, with the record's own
    // key/value/ttl; the miss itself records nothing under "get"
    assert_eq!(r.unwrap(), FollowUp::Backfill);
    assert_eq!(stats.sample_count(OpKind::Get), 0);
    assert_eq!(stats.sample_count(OpKind::Put), 0);
    on_set_done(&mut stats, record.value.len() as u64, 11, 7);
    assert_eq!(stats.samples(OpKind::Put), vec![(11, 7)]);
    assert_eq!(stats.size_total(OpKind::Put), 9);
    assert_eq!(stats.sample_count(OpKind::Get), 0);
}

#[test]
fn read_through_hit_records_get() {
    let mut stats = Stats::new();
    let r = handle_get_outcome(
        ClientType::ReadThrough,
        &GetOutcome::Hit { size: 30 },
        5,
        2,
        &mut stats,
    );
    assert_eq!(r.unwrap(), FollowUp::Done);
    assert_eq!(stats.samples(OpKind::Get), vec![(5, 2)]);
    assert_eq!(stats.size_total(OpKind::Get), 30);
    assert_eq!(stats.sample_count(OpKind::Put), 0);
}

#[test]
fn service_failure_is_fatal_and_records_nothing() {
    for ct in [ClientType::Lookaside, ClientType::ReadThrough] {
        let mut stats = Stats::new();
        let r = handle_get_outcome(ct, &GetOutcome::Failed, 10, 3, &mut stats);
        assert!(r.is_err());
        for kind in [OpKind::Ping, OpKind::Get, OpKind::Put] {
            assert_eq!(stats.sample_count(kind), 0);
            assert_eq!(stats.size_total(kind), 0);
        }
    }
}

#[test]
fn ping_is_recorded_under_ping() {
    let mut stats = Stats::new();
    on_ping_done(&mut stats, 4, 9);
    assert_eq!(stats.samples(OpKind::Ping), vec![(4, 9)]);
    assert_eq!(stats.sample_count(OpKind::Get), 0);
}

#[test]
fn receive_outcomes_drive_the_loop() {
    match next_step(RecvOutcome::Event(ClientEvent::Ping)) {
        StepDecision::Handle(ClientEvent::Ping) => {},
        _ => panic!("an event must be handled"),
    }
    assert!(matches!(next_step(RecvOutcome::Closed), StepDecision::Finish));
    assert!(matches!(next_step(RecvOutcome::TimedOut), StepDecision::FailStalled));
}
