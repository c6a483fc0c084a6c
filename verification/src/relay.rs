//! What a relayed session leaves in the ledger: each direction's byte count,
//! credited to the destination's address.

use crate::addr::{ipv4_number, ipv4_to_number};
use crate::clock::now_utc_nanos;
use crate::socks5::{parse_socket_addr, socket_addr_of};
use crate::stats::{bytes_of, credited, lemma_credited_others, IpAddress, StatsLedger, StatsRecord};
use vstd::prelude::*;

verus! {

/// How one direction of a relay ended.
#[derive(Clone, Copy, Debug, PartialEq, Eq, Structural)]
pub struct CopyOutcome {
    /// The bytes copied before the direction ended.
    pub bytes: u64,
    /// Whether it ended with a read or write error.
    pub failed: bool,
}

/// The address that a destination's traffic counts for: that of an IPv4
/// socket address, none for any other text.
pub open spec fn credited_ip(dest: Seq<u8>) -> Option<IpAddress> {
    match socket_addr_of(dest) {
        Some((ip, _)) => Some(IpAddress::V4(ipv4_number(ip) as u32)),
        None => None,
    }
}

/// The ledger after one direction to `dest` ended with `bytes` copied.
pub open spec fn after_direction(s: Seq<StatsRecord>, dest: Seq<u8>, bytes: u64, now: i128) -> Seq<StatsRecord> {
    match credited_ip(dest) {
        Some(ip) => credited(s, ip, bytes, now),
        None => s,
    }
}

/// The ledger can take `bytes` more for the address of `dest`.
pub open spec fn has_room(s: Seq<StatsRecord>, dest: Seq<u8>, bytes: int) -> bool {
    match credited_ip(dest) {
        Some(ip) => bytes_of(s, ip) + bytes <= u64::MAX,
        None => true,
    }
}

/// The address that the traffic to `dest` counts for.
pub fn destination_ip(dest: &[u8]) -> (ip: Option<IpAddress>)
    ensures
        ip == credited_ip(dest@),
{
    match parse_socket_addr(dest) {
        Some((ip, _)) => Some(IpAddress::V4(ipv4_to_number(ip))),
        None => None,
    }
}

/// Whether the ledger can take `bytes` more for the address of `dest`.
pub fn can_record(ledger: &StatsLedger, dest: &[u8], bytes: u64) -> (ok: bool)
    requires
        ledger.wf(),
    ensures
        ok == has_room(ledger@, dest@, bytes as int),
{
    match destination_ip(dest) {
        Some(ip) => bytes <= u64::MAX - ledger.byte_count(ip),
        None => true,
    }
}

/// Records one finished direction of a relay to `dest` at time `now`: its
/// bytes, also those copied before an error, are credited to the address of
/// `dest`. A destination that is no socket address leaves the ledger as it
/// is.
pub fn record_direction(ledger: &mut StatsLedger, dest: &[u8], outcome: CopyOutcome, now: i128)
    requires
        old(ledger).wf(),
        has_room(old(ledger)@, dest@, outcome.bytes as int),
    ensures
        final(ledger).wf(),
        final(ledger)@ == after_direction(old(ledger)@, dest@, outcome.bytes, now),
{
    match destination_ip(dest) {
        Some(ip) => ledger.credit(ip, outcome.bytes, now),
        None => {},
    }
}

/// Records one finished direction at the current time, which it returns.
pub fn record_direction_now(ledger: &mut StatsLedger, dest: &[u8], outcome: CopyOutcome) -> (now: i128)
    requires
        old(ledger).wf(),
        has_room(old(ledger)@, dest@, outcome.bytes as int),
    ensures
        final(ledger).wf(),
        final(ledger)@ == after_direction(old(ledger)@, dest@, outcome.bytes, now),
{
    let now = now_utc_nanos();
    record_direction(ledger, dest, outcome, now);
    now
}

/// Records both directions of a session to `dest`, the first at `first_at`
/// and the second at `second_at`. The address of `dest` gains the sum of the
/// two counts, in two credits.
pub fn record_session(
    ledger: &mut StatsLedger,
    dest: &[u8],
    first: CopyOutcome,
    first_at: i128,
    second: CopyOutcome,
    second_at: i128,
)
    requires
        old(ledger).wf(),
        has_room(old(ledger)@, dest@, first.bytes + second.bytes),
    ensures
        final(ledger).wf(),
        final(ledger)@ == after_direction(
            after_direction(old(ledger)@, dest@, first.bytes, first_at),
            dest@,
            second.bytes,
            second_at,
        ),
        match credited_ip(dest@) {
            Some(ip) => bytes_of(final(ledger)@, ip) == bytes_of(old(ledger)@, ip) + first.bytes + second.bytes,
            None => final(ledger)@ == old(ledger)@,
        },
{
    proof {
        if let Some(ip) = credited_ip(dest@) {
            lemma_credited_others(ledger@, ip, first.bytes, first_at);
        }
    }
    record_direction(ledger, dest, first, first_at);
    proof {
        if let Some(ip) = credited_ip(dest@) {
            lemma_credited_others(ledger@, ip, second.bytes, second_at);
        }
    }
    record_direction(ledger, dest, second, second_at);
}

/// How far one direction of a relay has come.
#[derive(Clone, Copy, Debug, PartialEq, Eq, Structural)]
pub struct CopyState {
    /// The bytes written to the destination so far.
    pub copied: u64,
    /// The length of the chunk that is being written.
    pub pending: usize,
}

/// What happened to one direction since its last step.
#[derive(Debug, PartialEq, Eq)]
pub enum CopyEvent {
    /// These bytes, at least one, were read from the source.
    Read(Vec<u8>),
    /// The chunk handed out last was written whole.
    Written,
    /// The source has ended.
    EndOfStream,
    /// A read or a write failed.
    Failed,
}

/// What one direction does next.
#[derive(Debug, PartialEq, Eq)]
pub enum CopyAction {
    /// Write these bytes to the destination.
    Write(Vec<u8>),
    /// Read from the source.
    ReadMore,
    /// The direction has ended with this outcome.
    Finish(CopyOutcome),
}

pub enum CopyEventView {
    Read(Seq<u8>),
    Written,
    EndOfStream,
    Failed,
}

pub enum CopyActionView {
    Write(Seq<u8>),
    ReadMore,
    Finish(CopyOutcome),
}

impl View for CopyEvent {
    type V = CopyEventView;

    open spec fn view(&self) -> CopyEventView {
        match self {
            CopyEvent::Read(data) => CopyEventView::Read(data@),
            CopyEvent::Written => CopyEventView::Written,
            CopyEvent::EndOfStream => CopyEventView::EndOfStream,
            CopyEvent::Failed => CopyEventView::Failed,
        }
    }
}

impl View for CopyAction {
    type V = CopyActionView;

    open spec fn view(&self) -> CopyActionView {
        match self {
            CopyAction::Write(data) => CopyActionView::Write(data@),
            CopyAction::ReadMore => CopyActionView::ReadMore,
            CopyAction::Finish(outcome) => CopyActionView::Finish(*outcome),
        }
    }
}

/// The count after `pending` more bytes: it stops at the largest `u64`.
pub open spec fn counted(copied: u64, pending: usize) -> u64 {
    if copied + pending <= u64::MAX {
        (copied + pending) as u64
    } else {
        u64::MAX
    }
}

/// The state and the action that follow `event` in `state`. What was read is
/// written as it is; it counts once it is written; the end of the source or
/// a failure ends the direction with the count so far.
pub open spec fn next_copy(state: CopyState, event: CopyEventView) -> (CopyState, CopyActionView) {
    match event {
        CopyEventView::Read(data) => (
            CopyState { copied: state.copied, pending: data.len() as usize },
            CopyActionView::Write(data),
        ),
        CopyEventView::Written => (
            CopyState { copied: counted(state.copied, state.pending), pending: 0 },
            CopyActionView::ReadMore,
        ),
        CopyEventView::EndOfStream => (
            state,
            CopyActionView::Finish(CopyOutcome { bytes: state.copied, failed: false }),
        ),
        CopyEventView::Failed => (state, CopyActionView::Finish(CopyOutcome { bytes: state.copied, failed: true })),
    }
}

/// The state of a direction that has copied nothing yet.
pub fn copy_start() -> (state: CopyState)
    ensures
        state == (CopyState { copied: 0, pending: 0 }),
{
    CopyState { copied: 0, pending: 0 }
}

/// Takes one step of one direction of a relay.
pub fn copy_step(state: CopyState, event: CopyEvent) -> (step: (CopyState, CopyAction))
    ensures
        (step.0, step.1@) == next_copy(state, event@),
{
    match event {
        CopyEvent::Read(data) => {
            let pending = data.len();
            (CopyState { copied: state.copied, pending }, CopyAction::Write(data))
        },
        CopyEvent::Written => {
            let room = u64::MAX - state.copied;
            let copied = if state.pending as u64 <= room {
                state.copied + state.pending as u64
            } else {
                u64::MAX
            };
            (CopyState { copied, pending: 0 }, CopyAction::ReadMore)
        },
        CopyEvent::EndOfStream => (
            state,
            CopyAction::Finish(CopyOutcome { bytes: state.copied, failed: false }),
        ),
        CopyEvent::Failed => (state, CopyAction::Finish(CopyOutcome { bytes: state.copied, failed: true })),
    }
}

/// Where the handling of one accepted connection stands.
#[derive(Clone, Copy, Debug, PartialEq, Eq, Structural)]
pub enum SessionStage {
    /// The destination that the client meant is being recovered.
    Resolving,
    /// The negotiation with the proxy is under way.
    Negotiating,
    /// Both directions are being copied.
    Relaying,
    /// One direction has ended; the other is still being copied.
    Draining,
    /// The connection is done with.
    Closed,
}

/// What happened to a session since its last step.
#[derive(Clone, Copy, Debug, PartialEq, Eq, Structural)]
pub enum SessionEvent {
    Resolved,
    ResolveFailed,
    Negotiated,
    NegotiationFailed,
    /// One direction of the relay ended, by end of stream or by an error.
    DirectionEnded,
}

/// What the supervisor does next for a session.
#[derive(Clone, Copy, Debug, PartialEq, Eq, Structural)]
pub enum SessionAction {
    /// Negotiate with the proxy for the destination.
    Negotiate,
    /// Start copying in both directions.
    Relay,
    /// Record the direction that ended and wait for the other.
    Record,
    /// Record the direction that ended and close the session.
    RecordAndClose,
    /// Report the failure and drop the connection.
    Close,
}

/// The stage and the action that follow `event` in `stage`. A session is
/// resolved, negotiated and relayed in that order; it closes when both
/// directions have ended, and on anything else at once.
pub open spec fn next_stage(stage: SessionStage, event: SessionEvent) -> (SessionStage, SessionAction) {
    match (stage, event) {
        (SessionStage::Resolving, SessionEvent::Resolved) => (SessionStage::Negotiating, SessionAction::Negotiate),
        (SessionStage::Negotiating, SessionEvent::Negotiated) => (SessionStage::Relaying, SessionAction::Relay),
        (SessionStage::Relaying, SessionEvent::DirectionEnded) => (SessionStage::Draining, SessionAction::Record),
        (SessionStage::Draining, SessionEvent::DirectionEnded) => (
            SessionStage::Closed,
            SessionAction::RecordAndClose,
        ),
        _ => (SessionStage::Closed, SessionAction::Close),
    }
}

/// Takes one step of a session.
pub fn session_step(stage: SessionStage, event: SessionEvent) -> (step: (SessionStage, SessionAction))
    ensures
        step == next_stage(stage, event),
{
    match (stage, event) {
        (SessionStage::Resolving, SessionEvent::Resolved) => (SessionStage::Negotiating, SessionAction::Negotiate),
        (SessionStage::Negotiating, SessionEvent::Negotiated) => (SessionStage::Relaying, SessionAction::Relay),
        (SessionStage::Relaying, SessionEvent::DirectionEnded) => (SessionStage::Draining, SessionAction::Record),
        (SessionStage::Draining, SessionEvent::DirectionEnded) => (
            SessionStage::Closed,
            SessionAction::RecordAndClose,
        ),
        _ => (SessionStage::Closed, SessionAction::Close),
    }
}

/// A session records a direction only while it relays, closes for good, and
/// one direction's end never closes a session whose other direction still
/// runs.
pub proof fn lemma_session_steps(stage: SessionStage, event: SessionEvent)
    ensures
        next_stage(SessionStage::Closed, event).0 == SessionStage::Closed,
        next_stage(SessionStage::Relaying, SessionEvent::DirectionEnded).0 == SessionStage::Draining,
        (next_stage(stage, event).1 == SessionAction::Record || next_stage(stage, event).1
            == SessionAction::RecordAndClose) <==> (event == SessionEvent::DirectionEnded && (stage
            == SessionStage::Relaying || stage == SessionStage::Draining)),
{
}

} // verus!
