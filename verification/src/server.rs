//! The decisions of the Redis server: how long the listener waits after a
//! failed accept, and what a connection handler does with each frame it
//! reads. The sockets, the tasks and the timers are driven by the caller.

use vstd::prelude::*;
use crate::frame::Frame;
use crate::cmd::{Command, command_from_frame};
use crate::parse::ParseError;

verus! {

/// The wait, in seconds, after the first failed accept.
pub const INITIAL_BACKOFF: u64 = 1;

/// The longest wait, in seconds, before the listener gives up.
pub const MAX_BACKOFF: u64 = 64;

/// What the listener does after an accept failed.
#[derive(Debug, PartialEq, Eq, Structural)]
pub enum AcceptStep {
    /// Sleep `wait_secs` seconds, try again, and use `next_backoff` after
    /// the next failure.
    Retry { wait_secs: u64, next_backoff: u64 },
    /// Give up, and report the error.
    GiveUp,
}

/// The step after an accept failed with the current backoff: the listener
/// waits the backoff and doubles it, until the backoff exceeds 64 seconds.
pub open spec fn accept_step(backoff: u64) -> AcceptStep {
    if backoff > MAX_BACKOFF {
        AcceptStep::GiveUp
    } else {
        AcceptStep::Retry { wait_secs: backoff, next_backoff: (backoff * 2) as u64 }
    }
}

/// Decides what the listener does after an accept failed while the
/// backoff is `backoff` seconds.
pub fn after_accept_error(backoff: u64) -> (r: AcceptStep)
    ensures
        r == accept_step(backoff),
{
    if backoff > MAX_BACKOFF {
        AcceptStep::GiveUp
    } else {
        AcceptStep::Retry { wait_secs: backoff, next_backoff: backoff * 2 }
    }
}

/// The number of failed accepts in a row that the listener retries after,
/// starting from `backoff`.
pub open spec fn retries(backoff: u64) -> nat
    recommends
        backoff >= 1,
    decreases 129 - backoff,
{
    if backoff == 0 || backoff > MAX_BACKOFF {
        0
    } else {
        1 + retries((backoff * 2) as u64)
    }
}

/// The seconds that the listener sleeps in all, starting from `backoff`,
/// before it gives up.
pub open spec fn total_wait(backoff: u64) -> nat
    recommends
        backoff >= 1,
    decreases 129 - backoff,
{
    if backoff == 0 || backoff > MAX_BACKOFF {
        0
    } else {
        backoff as nat + total_wait((backoff * 2) as u64)
    }
}

/// Law: from any backoff of at least one second, the listener retries at
/// most seven times in a row and sleeps at most 127 seconds before it gives
/// up; from the initial backoff it retries exactly seven times and sleeps
/// exactly 127 seconds (1 + 2 + ... + 64).
pub proof fn lemma_accept_gives_up(backoff: u64)
    requires
        backoff >= 1,
    ensures
        retries(backoff) <= 7,
        total_wait(backoff) <= 127,
        retries(INITIAL_BACKOFF) == 7,
        total_wait(INITIAL_BACKOFF) == 127,
{
    lemma_retries_bound(backoff);
    reveal_with_fuel(retries, 8);
    reveal_with_fuel(total_wait, 8);
}

proof fn lemma_retries_bound(backoff: u64)
    requires
        backoff >= 1,
    ensures
        backoff >= 2 ==> retries(backoff) <= 6,
        backoff >= 4 ==> retries(backoff) <= 5,
        backoff >= 8 ==> retries(backoff) <= 4,
        backoff >= 16 ==> retries(backoff) <= 3,
        backoff >= 32 ==> retries(backoff) <= 2,
        backoff >= 64 ==> retries(backoff) <= 1,
        backoff >= 65 ==> retries(backoff) == 0,
        retries(backoff) <= 7,
        backoff <= MAX_BACKOFF ==> total_wait(backoff) + backoff <= 128,
        total_wait(backoff) <= 127,
    decreases 129 - backoff,
{
    if backoff <= MAX_BACKOFF {
        lemma_retries_bound((backoff * 2) as u64);
    }
}

/// What a connection handler does with the result of reading a frame.
pub enum HandlerStep {
    /// The peer closed the connection: stop.
    Close,
    /// Apply the command.
    Execute(Command),
    /// The frame is no command: stop with the error.
    Fail(ParseError),
}

/// Decides what the connection handler does with the frame read from the
/// peer, or with the end of the connection (`None`).
pub fn handler_step(maybe_frame: Option<Frame>) -> (r: HandlerStep)
    ensures
        match maybe_frame {
            None => r is Close,
            Some(f) => match command_from_frame(f@) {
                Ok(c) => r matches HandlerStep::Execute(cmd) && cmd@ == c,
                Err(e) => r matches HandlerStep::Fail(e2) && e2 == e,
            },
        },
{
    match maybe_frame {
        None => HandlerStep::Close,
        Some(frame) => match Command::from_frame(frame) {
            Ok(cmd) => HandlerStep::Execute(cmd),
            Err(err) => HandlerStep::Fail(err),
        },
    }
}

} // verus!
