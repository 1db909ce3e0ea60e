//! Worker decision logic.
//!
//! A worker owns one connection to the target service and one private
//! `Stats` collector, and consumes events from a shared channel. The
//! functions here are the worker's decisions — which RPC to issue for an
//! event, what to record for each RPC outcome, and when to stop — while
//! the surrounding process performs the actual receives and RPCs and
//! feeds their outcomes back in.

use vstd::prelude::*;
use vstd::string::StringExecFns;
use crate::access::{Access, Command};
use crate::stats::{sat_add, OpKind, Stats};

verus! {

/// The caching strategy a worker runs: lookaside executes the trace's
/// writes itself; read-through only reads, and backfills on a miss.
#[derive(Clone, Copy, Debug, PartialEq, Eq, Structural)]
pub enum ClientType {
    Lookaside,
    ReadThrough,
}

impl ClientType {
    /// The strategy's conventional name.
    pub fn name(&self) -> (s: String)
        ensures
            self is Lookaside ==> s@ == "lookaside"@,
            self is ReadThrough ==> s@ == "read-through"@,
    {
        match self {
            ClientType::Lookaside => String::from_str("lookaside"),
            ClientType::ReadThrough => String::from_str("read-through"),
        }
    }
}

/// One unit of work carried on the dispatch channel.
pub enum ClientEvent {
    Ping,
    Access(Access),
}

/// What a worker observed while blocking on the event channel.
pub enum RecvOutcome {
    /// An event arrived.
    Event(ClientEvent),
    /// The channel is closed and drained: the normal end of input.
    Closed,
    /// Nothing arrived within the idle timeout: a stalled producer.
    TimedOut,
}

/// What a worker does next after one blocking receive.
pub enum StepDecision {
    /// Execute this event, then receive again.
    Handle(ClientEvent),
    /// Stop normally: all work is done.
    Finish,
    /// Stop with an error: the producer stalled without closing.
    FailStalled,
}

/// The first RPC a worker issues for one event.
#[derive(Clone, Copy, Debug, PartialEq, Eq, Structural)]
pub enum RpcAction {
    /// Ping the service; then record under the ping kind.
    SendPing,
    /// Get the record's key; then hand the outcome to
    /// `handle_get_outcome`.
    SendGet,
    /// Set the record's key/value/TTL; then record under the put kind.
    SendSet,
    /// Nothing: this strategy ignores the record.
    DoNothing,
}

/// What the target service reported for one GET.
pub enum GetOutcome {
    /// The key was present; the value had this many bytes.
    Hit { size: u64 },
    /// The key was absent: an expected outcome, never a failure.
    Miss,
    /// Any other service error: fatal to the worker.
    Failed,
}

/// What the worker still owes after a GET was handled.
#[derive(Clone, Copy, Debug, PartialEq, Eq, Structural)]
pub enum FollowUp {
    /// Nothing more for this event.
    Done,
    /// Issue one compensating SET with the record's own key, value and
    /// TTL, then record it with `on_set_done`.
    Backfill,
}

/// A fatal service failure: the worker stops and the whole run aborts,
/// since statistics gathered against a degraded target are meaningless.
#[derive(Clone, Copy, Debug, PartialEq, Eq, Structural)]
pub struct ServiceFailure;

/// Decides how a worker reacts to one blocking receive: events are
/// handled; a closed, drained channel ends the worker normally; an idle
/// timeout without a close is a stall and fails the worker.
pub fn next_step(outcome: RecvOutcome) -> (r: StepDecision)
    ensures
        outcome is Event ==> (r matches StepDecision::Handle(e) && e == outcome->Event_0),
        outcome is Closed ==> r is Finish,
        outcome is TimedOut ==> r is FailStalled,
{
    match outcome {
        RecvOutcome::Event(e) => StepDecision::Handle(e),
        RecvOutcome::Closed => StepDecision::Finish,
        RecvOutcome::TimedOut => StepDecision::FailStalled,
    }
}

/// Decides the first RPC for one event: pings always ping; gets always
/// get; the trace's writes are executed under lookaside and ignored
/// under read-through (whose writes arise only as miss backfills).
pub fn plan_event(client_type: ClientType, event: &ClientEvent) -> (a: RpcAction)
    ensures
        event is Ping ==> a is SendPing,
        (event matches ClientEvent::Access(acc) && acc.command is Get) ==> a is SendGet,
        (event matches ClientEvent::Access(acc) && acc.command is Put && client_type is Lookaside)
            ==> a is SendSet,
        (event matches ClientEvent::Access(acc) && acc.command is Put
            && client_type is ReadThrough) ==> a is DoNothing,
    {
    match event {
        ClientEvent::Ping => RpcAction::SendPing,
        ClientEvent::Access(access) => match access.command {
            Command::Get => RpcAction::SendGet,
            Command::Put => match client_type {
                ClientType::Lookaside => RpcAction::SendSet,
                ClientType::ReadThrough => RpcAction::DoNothing,
            },
        },
    }
}

/// Records one completed ping.
pub fn on_ping_done(stats: &mut Stats, start: u64, elapsed: u64)
    ensures
        final(stats).points(OpKind::Ping) == old(stats).points(OpKind::Ping).push(
            (start, elapsed),
        ),
        forall|k: OpKind| k != OpKind::Ping ==> final(stats).points(k) == old(stats).points(k),
        forall|k: OpKind| final(stats).total_size(k) == old(stats).total_size(k),
{
    stats.store_ping_time(start, elapsed);
}

/// Records one completed SET (the trace's own writes under lookaside,
/// and miss backfills under read-through): its latency and its payload
/// size, both under the put kind.
pub fn on_set_done(stats: &mut Stats, size: u64, start: u64, elapsed: u64)
    ensures
        final(stats).points(OpKind::Put) == old(stats).points(OpKind::Put).push((start, elapsed)),
        final(stats).total_size(OpKind::Put) == sat_add(old(stats).total_size(OpKind::Put), size),
        forall|k: OpKind| k != OpKind::Put ==> final(stats).points(k) == old(stats).points(k),
        forall|k: OpKind|
            k != OpKind::Put ==> final(stats).total_size(k) == old(stats).total_size(k),
{
    stats.store_set_time(start, elapsed);
    stats.store_set_size(size);
}

/// Decides what one GET's outcome means under the worker's strategy.
///
/// A hit records the latency and the value's size under the get kind.
/// A miss is data, not failure: under lookaside the latency is still
/// recorded under the get kind and the worker moves on; under
/// read-through nothing is recorded yet and the caller owes one
/// compensating SET. Any other service error is fatal: nothing is
/// recorded and the worker stops.
pub fn handle_get_outcome(
    client_type: ClientType,
    outcome: &GetOutcome,
    start: u64,
    elapsed: u64,
    stats: &mut Stats,
) -> (r: Result<FollowUp, ServiceFailure>)
    ensures
        r is Err <==> outcome is Failed,
        outcome is Failed ==> *final(stats) == *old(stats),
        outcome matches GetOutcome::Hit { size } ==> {
            &&& r == Result::<FollowUp, ServiceFailure>::Ok(FollowUp::Done)
            &&& final(stats).points(OpKind::Get) == old(stats).points(OpKind::Get).push(
                (start, elapsed),
            )
            &&& final(stats).total_size(OpKind::Get) == sat_add(
                old(stats).total_size(OpKind::Get),
                *size,
            )
            &&& forall|k: OpKind|
                k != OpKind::Get ==> final(stats).points(k) == old(stats).points(k)
            &&& forall|k: OpKind|
                k != OpKind::Get ==> final(stats).total_size(k) == old(stats).total_size(k)
        },
        outcome is Miss && client_type is Lookaside ==> {
            &&& r == Result::<FollowUp, ServiceFailure>::Ok(FollowUp::Done)
            &&& final(stats).points(OpKind::Get) == old(stats).points(OpKind::Get).push(
                (start, elapsed),
            )
            &&& forall|k: OpKind|
                k != OpKind::Get ==> final(stats).points(k) == old(stats).points(k)
            &&& forall|k: OpKind| final(stats).total_size(k) == old(stats).total_size(k)
        },
        outcome is Miss && client_type is ReadThrough ==> {
            &&& r == Result::<FollowUp, ServiceFailure>::Ok(FollowUp::Backfill)
            &&& *final(stats) == *old(stats)
        },
{
    match outcome {
        GetOutcome::Hit { size } => {
            stats.store_get_time(start, elapsed);
            stats.store_get_size(*size);
            Ok(FollowUp::Done)
        },
        GetOutcome::Miss => match client_type {
            ClientType::Lookaside => {
                stats.store_get_time(start, elapsed);
                Ok(FollowUp::Done)
            },
            ClientType::ReadThrough => Ok(FollowUp::Backfill),
        },
        GetOutcome::Failed => Err(ServiceFailure),
    }
}

} // verus!
