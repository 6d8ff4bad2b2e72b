//! Asking the independent monitoring service whether the peers of an isolated
//! replica are down.
//!
//! Whatever falls short of an answer that they are, be it that no service is
//! configured, that it does not answer in time, or that its answer does not
//! fit the question, resolves to staying passive.

use crate::chance;
use crate::clock::{elapsed, millis, nanos_of, passed, time_since};
use vstd::prelude::*;

verus! {

/// What the monitoring service says of the peers.
#[derive(Clone, Copy, PartialEq, Eq, Structural, Debug)]
pub enum Verdict {
    SafeToPromote,
    PeersStillUp,
}

/// The last known answer.
#[derive(Clone, Copy, PartialEq, Eq, Structural, Debug)]
pub enum CachedVerdict {
    Unknown,
    SafeToPromote,
    StayPassive,
}

/// How one attempt to get an answer ended.
#[derive(Clone, Copy, PartialEq, Eq, Structural, Debug)]
pub enum CorroborationOutcome {
    NotConfigured,
    SafeToPromote,
    DeniedByWitness,
    WitnessUnreachable,
}

/// What an outcome means for the replica: only the answer that the peers are
/// down allows it to act.
pub open spec fn verdict_of(outcome: CorroborationOutcome) -> CachedVerdict {
    match outcome {
        CorroborationOutcome::SafeToPromote => CachedVerdict::SafeToPromote,
        _ => CachedVerdict::StayPassive,
    }
}

/// What the replica knows of the monitoring service's answers.
pub struct WitnessClient {
    /// The service has an address.
    pub has_address: bool,
    /// There is a socket to reach it by.
    pub has_socket: bool,
    pub timeout_ms: u64,
    pub retry_interval_ms: u64,
    pub verdict: CachedVerdict,
    pub last_outcome: Option<CorroborationOutcome>,
    pub updated_at: u128,
}

/// One question that waits for its answer.
pub struct Attempt {
    pub request_id: u64,
    pub requester_id: u8,
    pub term: u64,
    pub started_at: u128,
    pub timeout_ms: u64,
    pub resent: bool,
}

/// What a waiting attempt does next.
#[derive(Clone, Copy, PartialEq, Eq, Structural, Debug)]
pub enum AttemptStep {
    /// Time is up.
    GiveUp,
    /// Send the question once more if `resend` says so, and then wait for a
    /// packet for this many nanoseconds.
    Wait { resend: bool, wait_ns: u128 },
}

/// The longest that an attempt waits before it looks at the time again.
pub const SLICE_MS: u64 = 200;

/// The shortest that it waits.
pub const MIN_SLICE_MS: u64 = 1;

/// How long an attempt waits for the next packet when `left` is left of its time.
pub open spec fn slice_of(left: nat) -> nat {
    if left > nanos_of(SLICE_MS) {
        nanos_of(SLICE_MS)
    } else if left < nanos_of(MIN_SLICE_MS) {
        nanos_of(MIN_SLICE_MS)
    } else {
        left
    }
}

/// How a waiting attempt goes on: it gives up after its timeout; otherwise it
/// asks once more after a third of it, and waits.
pub open spec fn attempt_stepped(
    before: Attempt,
    after: Attempt,
    now: u128,
    step: AttemptStep,
) -> bool {
    let spent = time_since(before.started_at, now);
    let limit = nanos_of(before.timeout_ms);
    let again = !before.resent && spent >= limit / 3;
    if spent >= limit {
        step == AttemptStep::GiveUp && after == before
    } else {
        &&& step matches AttemptStep::Wait { resend, wait_ns }
        &&& resend == again
        &&& wait_ns == slice_of((limit - spent) as nat)
        &&& after == (Attempt { resent: before.resent || again, ..before })
    }
}

impl WitnessClient {
    pub fn new(
        has_address: bool,
        has_socket: bool,
        timeout_ms: u64,
        retry_interval_ms: u64,
        now: u128,
    ) -> (client: Self)
        ensures
            client == (WitnessClient {
                has_address,
                has_socket,
                timeout_ms,
                retry_interval_ms,
                verdict: CachedVerdict::Unknown,
                last_outcome: None,
                updated_at: now,
            }),
    {
        WitnessClient {
            has_address,
            has_socket,
            timeout_ms,
            retry_interval_ms,
            verdict: CachedVerdict::Unknown,
            last_outcome: None,
            updated_at: now,
        }
    }

    pub fn is_configured(&self) -> (configured: bool)
        ensures
            configured == self.has_address,
    {
        self.has_address
    }

    pub fn cached_verdict(&self) -> (verdict: CachedVerdict)
        ensures
            verdict == self.verdict,
    {
        self.verdict
    }

    /// Forgets the last answer, once the replica is no longer isolated.
    pub fn reset_if_not_isolated(&mut self)
        ensures
            *final(self) == (WitnessClient {
                verdict: CachedVerdict::Unknown,
                last_outcome: None,
                ..*old(self)
            }),
    {
        self.verdict = CachedVerdict::Unknown;
        self.last_outcome = None;
    }

    /// Whether it is time to ask.
    pub open spec fn is_due(self, now: u128) -> bool {
        ||| self.verdict == CachedVerdict::Unknown
        ||| time_since(self.updated_at, now) >= nanos_of(self.retry_interval_ms)
    }

    /// Whether it is time to ask: nothing is known, or the last attempt lies a
    /// retry interval back.
    pub fn due_for_attempt(&self, now: u128) -> (due: bool)
        ensures
            due == self.is_due(now),
    {
        self.verdict == CachedVerdict::Unknown || elapsed(self.updated_at, now) >= millis(
            self.retry_interval_ms,
        )
    }

    /// The question to send, with an id drawn at random; none where the service
    /// has no address or there is no socket.
    pub fn start_attempt(&self, requester_id: u8, term: u64, now: u128) -> (attempt: Option<Attempt>)
        ensures
            attempt is Some <==> self.has_address && self.has_socket,
            attempt matches Some(a) ==> a == self.attempt_of(a.request_id, requester_id, term, now),
    {
        let request_id: u64 = chance::random_number();
        self.start_attempt_as(request_id, requester_id, term, now)
    }

    /// The question that carries `request_id`.
    pub open spec fn attempt_of(
        self,
        request_id: u64,
        requester_id: u8,
        term: u64,
        now: u128,
    ) -> Attempt {
        Attempt {
            request_id,
            requester_id,
            term,
            started_at: now,
            timeout_ms: self.timeout_ms,
            resent: false,
        }
    }

    /// `start_attempt` with the id given.
    pub fn start_attempt_as(
        &self,
        request_id: u64,
        requester_id: u8,
        term: u64,
        now: u128,
    ) -> (attempt: Option<Attempt>)
        ensures
            attempt == (if self.has_address && self.has_socket {
                Some(self.attempt_of(request_id, requester_id, term, now))
            } else {
                None
            }),
    {
        if self.has_address && self.has_socket {
            Some(
                Attempt {
                    request_id,
                    requester_id,
                    term,
                    started_at: now,
                    timeout_ms: self.timeout_ms,
                    resent: false,
                },
            )
        } else {
            None
        }
    }

    /// What is known once an attempt has ended.
    pub open spec fn with_outcome(self, outcome: CorroborationOutcome, now: u128) -> WitnessClient {
        WitnessClient {
            verdict: verdict_of(outcome),
            last_outcome: Some(outcome),
            updated_at: now,
            ..self
        }
    }

    /// Takes note of how an attempt ended. Says whether it ended otherwise than
    /// the attempt before it.
    pub fn attempt_corroboration(
        &mut self,
        outcome: CorroborationOutcome,
        now: u128,
    ) -> (result: (CorroborationOutcome, bool))
        ensures
            *final(self) == old(self).with_outcome(outcome, now),
            result == (outcome, old(self).last_outcome != Some(outcome)),
    {
        let changed = match self.last_outcome {
            Some(last) => last != outcome,
            None => true,
        };
        self.verdict = match outcome {
            CorroborationOutcome::SafeToPromote => CachedVerdict::SafeToPromote,
            CorroborationOutcome::DeniedByWitness
            | CorroborationOutcome::WitnessUnreachable
            | CorroborationOutcome::NotConfigured => CachedVerdict::StayPassive,
        };
        self.last_outcome = Some(outcome);
        self.updated_at = now;
        (outcome, changed)
    }
}

impl Attempt {
    /// What to do at the instant `now`: give up after the timeout; otherwise
    /// ask once more after a third of it, and wait.
    pub fn step(&mut self, now: u128) -> (step: AttemptStep)
        ensures
            attempt_stepped(*old(self), *final(self), now, step),
    {
        let spent: u128 = elapsed(self.started_at, now);
        let limit: u128 = millis(self.timeout_ms);
        if spent >= limit {
            return AttemptStep::GiveUp;
        }
        let resend = !self.resent && spent >= limit / 3;
        if resend {
            self.resent = true;
        }
        let left: u128 = limit - spent;
        let longest: u128 = millis(SLICE_MS);
        let shortest: u128 = millis(MIN_SLICE_MS);
        let wait_ns: u128 = if left > longest {
            longest
        } else if left < shortest {
            shortest
        } else {
            left
        };
        AttemptStep::Wait { resend, wait_ns }
    }

    /// What an answer means to the attempt.
    pub open spec fn outcome_of(self, request_id: u64, verdict: Verdict) -> Option<
        CorroborationOutcome,
    > {
        if request_id != self.request_id {
            None
        } else if verdict == Verdict::SafeToPromote {
            Some(CorroborationOutcome::SafeToPromote)
        } else {
            Some(CorroborationOutcome::DeniedByWitness)
        }
    }

    /// What an answer means: it ends the attempt if it carries the id of the
    /// question, and is ignored otherwise.
    pub fn receive(&self, request_id: u64, verdict: Verdict) -> (outcome: Option<
        CorroborationOutcome,
    >)
        ensures
            outcome == self.outcome_of(request_id, verdict),
    {
        if request_id != self.request_id {
            return None;
        }
        match verdict {
            Verdict::SafeToPromote => Some(CorroborationOutcome::SafeToPromote),
            Verdict::PeersStillUp => Some(CorroborationOutcome::DeniedByWitness),
        }
    }
}

/// Uncertainty never allows a replica to act: nothing but the answer that the
/// peers are down makes the verdict say so.
pub proof fn law_only_confirmation_promotes(outcome: CorroborationOutcome)
    ensures
        verdict_of(outcome) == CachedVerdict::SafeToPromote <==> outcome
            == CorroborationOutcome::SafeToPromote,
{
}

/// It is time to ask if nothing is known of the answer, and otherwise once the
/// retry interval lies behind the last attempt, and not before.
pub proof fn law_retries_are_due(w: WitnessClient, now: u128)
    ensures
        w.is_due(now) <==> w.verdict == CachedVerdict::Unknown || passed(
            w.updated_at,
            now,
            w.retry_interval_ms,
        ),
{
}

/// Once an attempt has ended, its outcome is the last one, its end is when the
/// next interval begins, and the replica may act on it if and only if the
/// service has confirmed that the peers are down. Where the service is stays.
pub proof fn law_outcomes_are_kept(w: WitnessClient, outcome: CorroborationOutcome, now: u128)
    ensures
        ({
            let after = w.with_outcome(outcome, now);
            &&& after.last_outcome == Some(outcome)
            &&& after.updated_at == now
            &&& after.verdict == CachedVerdict::SafeToPromote <==> outcome
                == CorroborationOutcome::SafeToPromote
            &&& after.verdict != CachedVerdict::Unknown
            &&& after.has_address == w.has_address && after.has_socket == w.has_socket
            &&& after.timeout_ms == w.timeout_ms
            &&& after.retry_interval_ms == w.retry_interval_ms
        }),
{
}

/// An attempt gives up once its timeout has passed, and not before. Until then
/// it waits for packets, for a millisecond at least and for a fifth of a second
/// at most, and, but for that millisecond, never past its end.
pub proof fn law_attempts_end(before: Attempt, after: Attempt, now: u128, step: AttemptStep)
    requires
        attempt_stepped(before, after, now, step),
    ensures
        step == AttemptStep::GiveUp <==> passed(before.started_at, now, before.timeout_ms),
        step matches AttemptStep::Wait { wait_ns, .. } ==> {
            let end = before.started_at + before.timeout_ms * 1_000_000;
            &&& 1_000_000 <= wait_ns <= 200_000_000
            &&& wait_ns > 1_000_000 && now >= before.started_at ==> now + wait_ns <= end
            &&& wait_ns < 200_000_000 && now >= before.started_at ==> now + wait_ns >= end
        },
        after.request_id == before.request_id,
        after.requester_id == before.requester_id,
        after.term == before.term,
        after.started_at == before.started_at,
        after.timeout_ms == before.timeout_ms,
{
}

/// The question is sent once more, and only once: at the first step at or after
/// a third of the timeout.
pub proof fn law_questions_are_repeated_once(
    before: Attempt,
    after: Attempt,
    now: u128,
    step: AttemptStep,
)
    requires
        before.timeout_ms > 0,
        now >= before.started_at,
        attempt_stepped(before, after, now, step),
    ensures
        step matches AttemptStep::Wait { resend, .. } ==> {
            &&& resend ==> !before.resent && after.resent
            &&& !resend ==> after.resent == before.resent
            &&& !before.resent && 3 * (now - before.started_at) >= before.timeout_ms * 1_000_000
                ==> resend
            &&& 3 * (now - before.started_at) <= before.timeout_ms * 1_000_000 - 3 ==> !resend
        },
{
}

/// An answer ends the attempt whose id it bears, with the outcome that it gives,
/// and no other attempt.
pub proof fn law_answers_fit_their_question(
    attempt: Attempt,
    request_id: u64,
    verdict: Verdict,
)
    ensures
        attempt.outcome_of(request_id, verdict) is Some <==> request_id == attempt.request_id,
        attempt.outcome_of(request_id, verdict) matches Some(outcome) ==> (verdict_of(outcome)
            == CachedVerdict::SafeToPromote <==> verdict == Verdict::SafeToPromote) && outcome
            != CorroborationOutcome::NotConfigured && outcome
            != CorroborationOutcome::WitnessUnreachable,
{
}

} // verus!
