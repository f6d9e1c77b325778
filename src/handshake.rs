//! Link synchronisation with bounded retries.
//!
//! The controller decides; the caller performs each attempt (`hand_shake`) and
//! waits `BACKOFF_MS` before the next one when told to retry.
use crate::error::Error;
use vstd::prelude::*;

verus! {

/// Attempts made before giving up.
pub const HANDSHAKE_ATTEMPTS: u32 = 10;

/// Pause between two attempts, in milliseconds.
pub const BACKOFF_MS: u64 = 1000;

/// What to do after a synchronisation attempt.
#[derive(PartialEq, Eq, Structural, Debug, Clone, Copy)]
pub enum HandshakeStep {
    /// The bootloader answered: the session is open.
    Connected,
    /// Wait `BACKOFF_MS`, then attempt again.
    Retry,
    /// Abort: the link broke or the attempts ran out.
    Failed,
}

/// Attempts made and the decision, after an attempt with `outcome` when `made`
/// attempts had been made before it.
pub open spec fn step_of(made: nat, outcome: Result<(), Error>) -> (nat, HandshakeStep) {
    if made >= HANDSHAKE_ATTEMPTS {
        (made, HandshakeStep::Failed)
    } else {
        match outcome {
            Ok(()) => (made + 1, HandshakeStep::Connected),
            Err(Error::Serial) => (made + 1, HandshakeStep::Failed),
            Err(_) => if made + 1 >= HANDSHAKE_ATTEMPTS {
                (made + 1, HandshakeStep::Failed)
            } else {
                (made + 1, HandshakeStep::Retry)
            },
        }
    }
}

/// Attempts counted after a fresh controller has seen `outcomes`.
pub open spec fn attempts_after(outcomes: Seq<Result<(), Error>>) -> nat
    decreases outcomes.len(),
{
    if outcomes.len() == 0 {
        0
    } else {
        step_of(attempts_after(outcomes.drop_last()), outcomes.last()).0
    }
}

/// The decision a fresh controller gives on the last of `outcomes`.
pub open spec fn decision_after(outcomes: Seq<Result<(), Error>>) -> HandshakeStep
    recommends
        outcomes.len() > 0,
{
    step_of(attempts_after(outcomes.drop_last()), outcomes.last()).1
}

/// Decides, attempt by attempt, whether synchronisation goes on.
pub struct HandshakeController {
    made: u32,
}

impl HandshakeController {
    /// Attempts counted so far.
    pub closed spec fn made(&self) -> nat {
        self.made as nat
    }

    pub fn new() -> (r: Self)
        ensures
            r.made() == 0,
    {
        HandshakeController { made: 0 }
    }

    /// Attempts counted so far.
    pub fn attempts(&self) -> (r: u32)
        ensures
            r == self.made(),
    {
        self.made
    }

    /// Takes the outcome of one attempt and says what comes next: success
    /// connects, a broken link aborts at once, any other failure retries until
    /// `HANDSHAKE_ATTEMPTS` attempts have been made.
    pub fn next(&mut self, outcome: Result<(), Error>) -> (r: HandshakeStep)
        ensures
            (final(self).made(), r) == step_of(old(self).made(), outcome),
    {
        if self.made >= HANDSHAKE_ATTEMPTS {
            return HandshakeStep::Failed;
        }
        self.made = self.made + 1;
        match outcome {
            Ok(()) => HandshakeStep::Connected,
            Err(Error::Serial) => HandshakeStep::Failed,
            Err(_) => if self.made >= HANDSHAKE_ATTEMPTS {
                HandshakeStep::Failed
            } else {
                HandshakeStep::Retry
            },
        }
    }
}

/// A fresh controller has counted one attempt per outcome, up to `HANDSHAKE_ATTEMPTS`.
pub proof fn lemma_attempts_after(outcomes: Seq<Result<(), Error>>)
    ensures
        attempts_after(outcomes) == if outcomes.len() < HANDSHAKE_ATTEMPTS {
            outcomes.len()
        } else {
            HANDSHAKE_ATTEMPTS as nat
        },
    decreases outcomes.len(),
{
    if outcomes.len() > 0 {
        lemma_attempts_after(outcomes.drop_last());
    }
}

/// Synchronisation is bounded: a fresh controller asks for another attempt only
/// while fewer than `HANDSHAKE_ATTEMPTS` attempts have been made, so the tenth
/// failure ends it with `Failed`, whatever the outcomes were.
pub proof fn lemma_handshake_bounded(outcomes: Seq<Result<(), Error>>)
    requires
        outcomes.len() > 0,
    ensures
        decision_after(outcomes) == HandshakeStep::Retry ==> outcomes.len() < HANDSHAKE_ATTEMPTS,
        outcomes.len() >= HANDSHAKE_ATTEMPTS && outcomes.last() is Err ==> decision_after(outcomes)
            == HandshakeStep::Failed,
{
    lemma_attempts_after(outcomes.drop_last());
}

} // verus!
