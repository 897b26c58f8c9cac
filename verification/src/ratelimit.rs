//! Creation-rate policy: a short silent cooldown against double submission,
//! a longer messaged cooldown, and a separate answer for a user who already
//! owns a live group.
use vstd::prelude::*;

verus! {

/// Seconds of the strict, silent cooldown.
pub const SHORT_COOLDOWN: u64 = 20;

/// Seconds of the messaged cooldown.
pub const LONG_COOLDOWN: u64 = 300;

#[derive(Clone, Copy, PartialEq, Eq, Structural, Debug)]
pub enum RateDecision {
    /// The attempt may proceed; the attempt instant is recorded.
    Allowed,
    /// Within the short window: dropped with no answer and no record change.
    SilentBlock,
    /// The user already owns a live group: answered, clock untouched.
    AlreadyOwner,
    /// Within the long window: answered with the seconds remaining.
    TooSoon(u64),
}

/// Seconds since the recorded instant; an attempt with no record counts as
/// one second past the long cooldown.
pub open spec fn since_spec(last: Option<u64>, now: u64) -> int {
    match last {
        Some(t) => if now >= t {
            now - t
        } else {
            0
        },
        None => LONG_COOLDOWN + 1,
    }
}

/// The policy: silence inside the short window; then the owner answer; then
/// the messaged wait; otherwise allowed.
pub open spec fn rate_decision_spec(last: Option<u64>, now: u64, owns: bool) -> RateDecision {
    let since = since_spec(last, now);
    if since < SHORT_COOLDOWN {
        RateDecision::SilentBlock
    } else if owns {
        RateDecision::AlreadyOwner
    } else if since < LONG_COOLDOWN {
        RateDecision::TooSoon((LONG_COOLDOWN - since) as u64)
    } else {
        RateDecision::Allowed
    }
}

pub fn rate_decision(last: Option<u64>, now: u64, owns: bool) -> (r: RateDecision)
    ensures
        r == rate_decision_spec(last, now, owns),
{
    let since: u64 = match last {
        Some(t) => if now >= t {
            now - t
        } else {
            0
        },
        None => LONG_COOLDOWN + 1,
    };
    if since < SHORT_COOLDOWN {
        RateDecision::SilentBlock
    } else if owns {
        RateDecision::AlreadyOwner
    } else if since < LONG_COOLDOWN {
        RateDecision::TooSoon(LONG_COOLDOWN - since)
    } else {
        RateDecision::Allowed
    }
}

} // verus!
