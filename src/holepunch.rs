//! The hole-punch handshake between two peers that learned each other's
//! endpoints from the helper: a burst of 1-byte datagrams that starts on a
//! shared half-second boundary, then 2-byte datagrams that signal and
//! confirm that the path works both ways.

use vstd::prelude::*;

verus! {

/// Both peers start their burst when the clock crosses a multiple of this
/// many milliseconds.
pub const BURST_BOUNDARY_MILLIS: u64 = 500;

/// Datagrams in the opening burst.
pub const BURST_COUNT: usize = 40;

/// Milliseconds that each datagram of the burst takes.
pub const BURST_INTERVAL_MILLIS: u64 = 50;

/// Length of the datagrams of the burst.
pub const BURST_DATAGRAM_LEN: usize = 1;

/// Length of the datagrams that signal a working path.
pub const SIGNAL_DATAGRAM_LEN: usize = 2;

/// How long to sleep at clock reading `now` to wake on the next boundary.
pub fn burst_start_delay(now: u64) -> (r: u64)
    ensures
        r == BURST_BOUNDARY_MILLIS - now % BURST_BOUNDARY_MILLIS,
        1 <= r <= BURST_BOUNDARY_MILLIS,
        (now + r) % BURST_BOUNDARY_MILLIS as int == 0,
{
    BURST_BOUNDARY_MILLIS - now % BURST_BOUNDARY_MILLIS
}

/// How long to sleep after a burst datagram sent at `sent` so that the
/// step takes its interval, if it has not already.
pub fn burst_pause(sent: u64, now: u64) -> (r: u64)
    ensures
        r == if now >= sent && now - sent < BURST_INTERVAL_MILLIS {
            BURST_INTERVAL_MILLIS - (now - sent)
        } else {
            0
        },
{
    if now >= sent && now - sent < BURST_INTERVAL_MILLIS {
        BURST_INTERVAL_MILLIS - (now - sent)
    } else {
        0
    }
}

/// Where the handshake stands after the burst.
#[derive(Clone, Copy, Debug, PartialEq, Eq, Structural)]
pub enum PunchStage {
    /// Reading away the partner's burst.
    Draining,
    /// Signals sent; waiting for the partner's.
    AwaitConfirm,
    /// Reading away the partner's further signals.
    Settling,
    /// The path works: the socket goes to the channel.
    Connected,
}

/// The handshake's answer to one receive.
#[derive(Clone, Copy, Debug, PartialEq, Eq, Structural)]
pub struct PunchStep {
    pub next: PunchStage,
    /// Send the two 2-byte signal datagrams now; both must go out.
    pub send_signals: bool,
}

/// The stage after a receive that got `got` bytes, or failed (`None`).
pub open spec fn punch_next(stage: PunchStage, got: Option<usize>) -> PunchStage {
    match stage {
        PunchStage::Draining => if got == Some(BURST_DATAGRAM_LEN) {
            PunchStage::Draining
        } else {
            PunchStage::AwaitConfirm
        },
        PunchStage::AwaitConfirm => if got is None || got == Some(SIGNAL_DATAGRAM_LEN) {
            PunchStage::Settling
        } else {
            PunchStage::AwaitConfirm
        },
        PunchStage::Settling => if got == Some(SIGNAL_DATAGRAM_LEN) {
            PunchStage::Settling
        } else {
            PunchStage::Connected
        },
        PunchStage::Connected => PunchStage::Connected,
    }
}

/// Takes the outcome of one receive: burst datagrams are drained until
/// something else comes (then the signals go out); the wait for the
/// partner's signal ends on a 2-byte datagram or a failed receive; further
/// signals are drained until something else comes.
pub fn punch_step(stage: PunchStage, got: Option<usize>) -> (r: PunchStep)
    ensures
        r.next == punch_next(stage, got),
        r.send_signals == (stage == PunchStage::Draining && r.next == PunchStage::AwaitConfirm),
{
    match stage {
        PunchStage::Draining => {
            if got == Some(BURST_DATAGRAM_LEN) {
                PunchStep { next: PunchStage::Draining, send_signals: false }
            } else {
                PunchStep { next: PunchStage::AwaitConfirm, send_signals: true }
            }
        },
        PunchStage::AwaitConfirm => {
            let done = match got {
                None => true,
                Some(n) => n == SIGNAL_DATAGRAM_LEN,
            };
            if done {
                PunchStep { next: PunchStage::Settling, send_signals: false }
            } else {
                PunchStep { next: PunchStage::AwaitConfirm, send_signals: false }
            }
        },
        PunchStage::Settling => {
            if got == Some(SIGNAL_DATAGRAM_LEN) {
                PunchStep { next: PunchStage::Settling, send_signals: false }
            } else {
                PunchStep { next: PunchStage::Connected, send_signals: false }
            }
        },
        PunchStage::Connected => PunchStep { next: PunchStage::Connected, send_signals: false },
    }
}

} // verus!
