//! Whether a dream may start by itself.
use vstd::prelude::*;

use crate::clock::Timestamp;

verus! {

broadcast use vstd::seq::group_seq_axioms;

/// How many nanoseconds must pass between two dreams: those of a day.
pub const AUTO_DREAM_MIN_INTERVAL: u128 = 86_400_000_000_000;

/// How many sessions must have been used since the last dream.
pub const AUTO_DREAM_MIN_TOUCHED_SESSIONS: usize = 5;

/// Whether a dream may start.
#[derive(Debug, Clone, Copy, PartialEq, Eq, Structural)]
pub enum DreamGate {
    Ready,
    Disabled,
    Locked,
    /// The last dream was too short a time ago; `remaining` nanoseconds are left.
    TooSoon { remaining: u128 },
    TooFewSessions { touched: usize, required: usize },
}

/// The times that matter for whether a dream may start.
#[derive(Debug, Clone, Copy, PartialEq, Eq, Structural)]
pub struct DreamTimes {
    /// When the last dream was, if there was one.
    pub last_dream: Option<Timestamp>,
    pub now: Timestamp,
}

/// What is known so far of what matters for whether a dream may start.
#[derive(Debug, Clone, PartialEq, Eq)]
pub struct GateEvidence {
    /// Whether the lock file exists.
    pub locked: Option<bool>,
    pub times: Option<DreamTimes>,
    /// When each session was last used, in milliseconds since the start of 1970.
    pub sessions: Option<Vec<u64>>,
}

/// Whether a dream may start, or what has to be looked at first.
#[derive(Debug, Clone, Copy, PartialEq, Eq, Structural)]
pub enum GateStep {
    Decided(DreamGate),
    LookAtLock,
    LookAtTimes,
    LookAtSessions,
}

/// The marker's time of change, or that of the memory file where there is no marker.
pub fn last_dream_time(marker: Option<Timestamp>, memory: Option<Timestamp>) -> (time: Option<
    Timestamp,
>)
    ensures
        time == if marker is Some {
            marker
        } else {
            memory
        },
{
    match marker {
        Some(_) => marker,
        None => memory,
    }
}

/// How many of the sessions were used after the given number of milliseconds.
pub open spec fn used_after(sessions: Seq<u64>, millis: nat) -> nat
    decreases sessions.len(),
{
    if sessions.len() == 0 {
        0
    } else {
        used_after(sessions.drop_last(), millis) + if sessions.last() > millis {
            1nat
        } else {
            0nat
        }
    }
}

/// How many of the sessions were used since a dream; all of them where there was none.
pub open spec fn touched_since(sessions: Seq<u64>, since: Option<Timestamp>) -> nat {
    match since {
        None => sessions.len(),
        Some(since) => used_after(sessions, since.since_epoch() / 1_000_000),
    }
}

/// How many of the sessions were used since a dream; all of them where there was none.
pub fn touched_sessions_since(sessions: &[u64], since: &Option<Timestamp>) -> (n: usize)
    ensures
        n == touched_since(sessions@, *since),
{
    let since_ms = match since {
        None => return sessions.len(),
        Some(since) => since.millis_since_epoch(),
    };
    let mut n: usize = 0;
    let mut i: usize = 0;
    while i < sessions.len()
        invariant
            i <= sessions@.len(),
            n <= i,
            n == used_after(sessions@.take(i as int), since_ms as nat),
        decreases sessions@.len() - i,
    {
        proof {
            assert(sessions@.take(i + 1).drop_last() =~= sessions@.take(i as int));
        }
        if sessions[i] as u128 > since_ms {
            n = n + 1;
        }
        i = i + 1;
    }
    proof {
        assert(sessions@.take(i as int) =~= sessions@);
    }
    n
}

/// Whether less than the interval has passed since the last dream.
pub open spec fn too_soon(times: DreamTimes) -> bool {
    match times.last_dream {
        Some(last) => elapsed(times.now, last) < AUTO_DREAM_MIN_INTERVAL,
        None => false,
    }
}

/// The nanoseconds from `earlier` to `now`; none where `earlier` is the later one.
pub open spec fn elapsed(now: Timestamp, earlier: Timestamp) -> int {
    if now.instant() < earlier.instant() {
        0
    } else {
        now.instant() - earlier.instant()
    }
}

/// Whether a dream may start, given all that matters.
pub open spec fn gate_of(
    auto_dream_enabled: bool,
    force: bool,
    locked: bool,
    times: DreamTimes,
    sessions: Seq<u64>,
) -> DreamGate {
    let touched = touched_since(sessions, times.last_dream);
    if !auto_dream_enabled && !force {
        DreamGate::Disabled
    } else if locked {
        DreamGate::Locked
    } else if force {
        DreamGate::Ready
    } else if too_soon(times) {
        DreamGate::TooSoon {
            remaining: (AUTO_DREAM_MIN_INTERVAL - elapsed(times.now, times.last_dream->0)) as u128,
        }
    } else if touched < AUTO_DREAM_MIN_TOUCHED_SESSIONS {
        DreamGate::TooFewSessions {
            touched: touched as usize,
            required: AUTO_DREAM_MIN_TOUCHED_SESSIONS,
        }
    } else {
        DreamGate::Ready
    }
}

/// Whether what is known agrees with how things are.
pub open spec fn agrees(
    evidence: GateEvidence,
    locked: bool,
    times: DreamTimes,
    sessions: Seq<u64>,
) -> bool {
    &&& evidence.locked is Some ==> evidence.locked->0 == locked
    &&& evidence.times is Some ==> evidence.times->0 == times
    &&& evidence.sessions is Some ==> evidence.sessions->0@ == sessions
}

/// What follows from what is known: first the lock is looked at, then the times, then
/// the sessions, and each only where the decision hangs on it.
pub open spec fn gate_step(
    auto_dream_enabled: bool,
    force: bool,
    evidence: GateEvidence,
) -> GateStep {
    if !auto_dream_enabled && !force {
        GateStep::Decided(DreamGate::Disabled)
    } else if evidence.locked is None {
        GateStep::LookAtLock
    } else if evidence.locked->0 {
        GateStep::Decided(DreamGate::Locked)
    } else if force {
        GateStep::Decided(DreamGate::Ready)
    } else if evidence.times is None {
        GateStep::LookAtTimes
    } else if too_soon(evidence.times->0) {
        GateStep::Decided(
            gate_of(auto_dream_enabled, force, false, evidence.times->0, Seq::empty()),
        )
    } else if evidence.sessions is None {
        GateStep::LookAtSessions
    } else {
        GateStep::Decided(
            gate_of(
                auto_dream_enabled,
                force,
                false,
                evidence.times->0,
                evidence.sessions->0@,
            ),
        )
    }
}

/// Decides whether a dream may start, or tells what to look at first.
pub fn auto_dream_gate(auto_dream_enabled: bool, force: bool, evidence: &GateEvidence) -> (step:
    GateStep)
    ensures
        step == gate_step(auto_dream_enabled, force, *evidence),
{
    if !auto_dream_enabled && !force {
        return GateStep::Decided(DreamGate::Disabled);
    }
    match evidence.locked {
        None => return GateStep::LookAtLock,
        Some(locked) => {
            if locked {
                return GateStep::Decided(DreamGate::Locked);
            }
        },
    }
    if force {
        return GateStep::Decided(DreamGate::Ready);
    }
    let times = match &evidence.times {
        None => return GateStep::LookAtTimes,
        Some(times) => times,
    };
    if let Some(last_dream) = &times.last_dream {
        let elapsed = times.now.nanos_since(last_dream);
        if elapsed < AUTO_DREAM_MIN_INTERVAL {
            return GateStep::Decided(
                DreamGate::TooSoon { remaining: AUTO_DREAM_MIN_INTERVAL - elapsed },
            );
        }
    }
    let sessions = match &evidence.sessions {
        None => return GateStep::LookAtSessions,
        Some(sessions) => sessions,
    };
    let touched = touched_sessions_since(sessions.as_slice(), &times.last_dream);
    if touched < AUTO_DREAM_MIN_TOUCHED_SESSIONS {
        return GateStep::Decided(
            DreamGate::TooFewSessions { touched, required: AUTO_DREAM_MIN_TOUCHED_SESSIONS },
        );
    }
    GateStep::Decided(DreamGate::Ready)
}

// ---------------------------------------------------------------------------
// Laws
// ---------------------------------------------------------------------------

/// A decision that was made with what is known is the one that all there is to know leads to;
/// and what is still to be looked at is not yet known.
pub proof fn law_gate_decides_rightly(
    auto_dream_enabled: bool,
    force: bool,
    evidence: GateEvidence,
    locked: bool,
    times: DreamTimes,
    sessions: Seq<u64>,
)
    requires
        agrees(evidence, locked, times, sessions),
    ensures
        match gate_step(auto_dream_enabled, force, evidence) {
            GateStep::Decided(gate) => gate == gate_of(
                auto_dream_enabled,
                force,
                locked,
                times,
                sessions,
            ),
            GateStep::LookAtLock => evidence.locked is None,
            GateStep::LookAtTimes => evidence.times is None,
            GateStep::LookAtSessions => evidence.sessions is None,
        },
{
}

/// The lock is never bypassed: with it no dream may start, forced or not.
pub proof fn law_lock_is_never_bypassed(
    auto_dream_enabled: bool,
    force: bool,
    times: DreamTimes,
    sessions: Seq<u64>,
)
    ensures
        gate_of(auto_dream_enabled, force, true, times, sessions) != DreamGate::Ready,
{
}

/// A forced dream may start whenever there is no lock, whatever the time and the sessions.
pub proof fn law_force_bypasses_time_and_sessions(
    auto_dream_enabled: bool,
    times: DreamTimes,
    sessions: Seq<u64>,
)
    ensures
        gate_of(auto_dream_enabled, true, false, times, sessions) == DreamGate::Ready,
{
}

/// Without force, a dream may start exactly where dreams are enabled, there is no lock, the
/// last dream was a day ago or more, or never, and five sessions were used since.
pub proof fn law_unforced_dreams(
    auto_dream_enabled: bool,
    locked: bool,
    times: DreamTimes,
    sessions: Seq<u64>,
)
    ensures
        gate_of(auto_dream_enabled, false, locked, times, sessions) == DreamGate::Ready <==> {
            &&& auto_dream_enabled
            &&& !locked
            &&& times.last_dream is Some ==> times.last_dream->0.instant() + 86_400_000_000_000
                <= times.now.instant()
            &&& touched_since(sessions, times.last_dream) >= 5
        },
{
}

/// Whether a session was used after a time, where times before the start of 1970 count as that
/// start.
pub open spec fn later(millis: u64, time: Timestamp) -> bool {
    millis as int * 1_000_000 > if time.instant() < 0 {
        0
    } else {
        time.instant()
    }
}

/// The number of sessions that were used since a dream is that of the sessions whose last use is
/// later than it, wherever they stand in the list; without a dream it is that of all sessions.
pub proof fn law_touched_sessions_are_counted(
    sessions: &[u64],
    since: &Option<Timestamp>,
    n: usize,
)
    requires
        call_ensures(touched_sessions_since, (sessions, since), n),
    ensures
        n == match *since {
            None => sessions@.len(),
            Some(time) => sessions@.filter(|millis: u64| later(millis, time)).len(),
        },
{
    if let Some(time) = *since {
        lemma_used_after(sessions@, time);
    }
}

proof fn lemma_used_after(sessions: Seq<u64>, time: Timestamp)
    ensures
        used_after(sessions, time.since_epoch() / 1_000_000) == sessions.filter(
            |millis: u64| later(millis, time),
        ).len(),
    decreases sessions.len(),
{
    reveal(Seq::filter);
    if sessions.len() > 0 {
        lemma_used_after(sessions.drop_last(), time);
    }
}

proof fn lemma_used_after_add(a: Seq<u64>, b: Seq<u64>, millis: nat)
    ensures
        used_after(a + b, millis) == used_after(a, millis) + used_after(b, millis),
    decreases b.len(),
{
    if b.len() == 0 {
        assert(a + b =~= a);
    } else {
        lemma_used_after_add(a, b.drop_last(), millis);
        assert((a + b).drop_last() =~= a + b.drop_last());
        assert((a + b).last() == b.last());
    }
}

proof fn lemma_used_after_remove(sessions: Seq<u64>, i: int, millis: nat)
    requires
        0 <= i < sessions.len(),
    ensures
        used_after(sessions, millis) == used_after(sessions.remove(i), millis) + used_after(
            seq![sessions[i]],
            millis,
        ),
{
    let front = sessions.take(i);
    let one = seq![sessions[i]];
    let back = sessions.skip(i + 1);
    assert(sessions =~= front + one + back);
    assert(sessions.remove(i) =~= front + back);
    lemma_used_after_add(front + one, back, millis);
    lemma_used_after_add(front, one, millis);
    lemma_used_after_add(front, back, millis);
}

/// In which order the sessions are listed does not matter.
pub proof fn law_order_of_sessions_does_not_matter(
    sessions: Seq<u64>,
    others: Seq<u64>,
    since: Option<Timestamp>,
)
    requires
        sessions.to_multiset() == others.to_multiset(),
    ensures
        touched_since(sessions, since) == touched_since(others, since),
    decreases sessions.len(),
{
    broadcast use vstd::seq_lib::group_to_multiset_ensures;

    assert(sessions.len() == sessions.to_multiset().len());
    assert(others.len() == others.to_multiset().len());
    if sessions.len() == 0 {
        assert(sessions =~= others);
    } else {
        let x = sessions[0];
        assert(sessions.contains(x));
        assert(others.to_multiset().contains(x));
        let p = choose|p: int| 0 <= p < others.len() && others[p] == x;
        assert(sessions.remove(0).to_multiset() =~= sessions.to_multiset().remove(x));
        assert(others.remove(p).to_multiset() =~= others.to_multiset().remove(x));
        law_order_of_sessions_does_not_matter(sessions.remove(0), others.remove(p), since);
        if let Some(time) = since {
            let millis = time.since_epoch() / 1_000_000;
            lemma_used_after_remove(sessions, 0, millis);
            lemma_used_after_remove(others, p, millis);
        }
    }
}

/// One session more counts exactly where it was used after the dream, whatever the others are.
pub proof fn law_one_session_more(sessions: Seq<u64>, session: u64, since: Option<Timestamp>)
    ensures
        touched_since(sessions.push(session), since) == touched_since(sessions, since) + if since
            is None || later(session, since->0) {
            1nat
        } else {
            0nat
        },
{
    assert(sessions.push(session).drop_last() =~= sessions);
}

/// What is said of a dream that may not start is why, the first of: that dreams are switched off,
/// that the lock is held, how long is left of the day since the last dream, and how many sessions
/// were used since.
pub proof fn law_gate_says_why(
    auto_dream_enabled: bool,
    force: bool,
    locked: bool,
    times: DreamTimes,
    sessions: Seq<u64>,
)
    requires
        sessions.len() <= usize::MAX,
    ensures
        ({
            let gate = gate_of(auto_dream_enabled, force, locked, times, sessions);
            let day: int = 86_400_000_000_000;
            let early = times.last_dream is Some && times.now.instant()
                < times.last_dream->0.instant() + day;
            &&& gate is Disabled <==> !auto_dream_enabled && !force
            &&& gate is Locked <==> (auto_dream_enabled || force) && locked
            &&& gate is TooSoon <==> auto_dream_enabled && !force && !locked && early
            &&& gate is TooSoon && times.last_dream->0.instant() <= times.now.instant()
                ==> times.now.instant() + gate->remaining == times.last_dream->0.instant() + day
            &&& gate is TooSoon && times.now.instant() < times.last_dream->0.instant()
                ==> gate->remaining == day
            &&& gate is TooFewSessions <==> auto_dream_enabled && !force && !locked && !early
                && touched_since(sessions, times.last_dream) < 5
            &&& gate is TooFewSessions ==> gate->touched == touched_since(
                sessions,
                times.last_dream,
            ) && gate->required == 5
        }),
{
    if let Some(last) = times.last_dream {
        lemma_no_more_than_all(sessions, last.since_epoch() / 1_000_000);
    }
}

proof fn lemma_no_more_than_all(sessions: Seq<u64>, millis: nat)
    ensures
        used_after(sessions, millis) <= sessions.len(),
    decreases sessions.len(),
{
    if sessions.len() > 0 {
        lemma_no_more_than_all(sessions.drop_last(), millis);
    }
}

/// The marker tells when the last dream was, where there is one; else the memory file does.
pub proof fn law_marker_tells_of_the_last_dream(
    marker: Option<Timestamp>,
    memory: Option<Timestamp>,
    time: Option<Timestamp>,
)
    requires
        call_ensures(last_dream_time, (marker, memory), time),
    ensures
        marker is Some ==> time == marker,
        marker is None ==> time == memory,
{
}

/// What is decided is decided by the sessions that are listed, by the clock and by the lock as they
/// are known: with all of them known there is always a decision, and it is `Ready` exactly where
/// dreams are forced, or switched on, a day has passed and five sessions were used, and the lock is
/// free.
pub proof fn law_known_evidence_decides(
    auto_dream_enabled: bool,
    force: bool,
    evidence: &GateEvidence,
    step: GateStep,
)
    requires
        call_ensures(auto_dream_gate, (auto_dream_enabled, force, evidence), step),
        evidence.locked is Some,
        evidence.times is Some,
        evidence.sessions is Some,
    ensures
        step is Decided,
        step->Decided_0 == DreamGate::Ready <==> {
            let last = evidence.times->0.last_dream;
            &&& !evidence.locked->0
            &&& force || {
                &&& auto_dream_enabled
                &&& match last {
                    None => evidence.sessions->0@.len() >= 5,
                    Some(time) => {
                        &&& time.instant() + 86_400_000_000_000 <= evidence.times->0.now.instant()
                        &&& evidence.sessions->0@.filter(
                            |millis: u64| later(millis, time),
                        ).len() >= 5
                    },
                }
            }
        },
{
    if let Some(time) = evidence.times->0.last_dream {
        lemma_used_after(evidence.sessions->0@, time);
    }
}

} // verus!
