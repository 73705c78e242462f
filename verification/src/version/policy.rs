//! Automatic-commit rules.
//!
//! A [`VersioningPolicy`] declares when the working head should be auto-committed.
//! Triggers are OR-ed: every N writes, and/or every T milliseconds. Writes accumulate into
//! the working head; the trigger commits them. Time is taken from an injectable [`Clock`].

use vstd::prelude::*;

verus! {

/// Rules for automatic commits. All `None` = manual commits only.
#[derive(Debug, Clone, Copy, PartialEq, Eq, Structural)]
pub struct VersioningPolicy {
    /// Commit once this many writes have accumulated since the last commit.
    pub every_n_writes: Option<u64>,
    /// Commit once this many milliseconds have elapsed since the last commit (only if
    /// there are uncommitted writes).
    pub interval_ms: Option<u64>,
}

impl VersioningPolicy {
    /// A policy that only commits on explicit request.
    pub fn manual() -> (policy: VersioningPolicy)
        ensures
            policy.every_n_writes is None,
            policy.interval_ms is None,
    {
        VersioningPolicy { every_n_writes: None, interval_ms: None }
    }

    /// A policy that commits every `n` writes.
    pub fn every_n_writes(n: u64) -> (policy: VersioningPolicy)
        ensures
            policy.every_n_writes == Some(n),
            policy.interval_ms is None,
    {
        VersioningPolicy { every_n_writes: Some(n), interval_ms: None }
    }

    /// Whether any automatic trigger is configured.
    pub fn is_automatic(&self) -> (r: bool)
        ensures
            r == (self.every_n_writes is Some || self.interval_ms is Some),
    {
        self.every_n_writes.is_some() || self.interval_ms.is_some()
    }
}

impl Default for VersioningPolicy {
    fn default() -> (policy: VersioningPolicy)
        ensures
            policy.every_n_writes is None,
            policy.interval_ms is None,
    {
        VersioningPolicy::manual()
    }
}

/// A source of wall-clock time (injectable for tests). Two readings may differ.
pub trait Clock: Send + Sync {
    /// The current time in unix milliseconds.
    fn now_ms(&self) -> (ms: u64);
}

/// The default clock backed by the system time.
#[derive(Debug, Clone, Copy)]
pub struct SystemClock;

/// A reading of the system clock.
#[verifier::external_type_specification]
#[verifier::external_body]
pub struct ExSystemTime(std::time::SystemTime);

/// Why a reading cannot be measured from an earlier one.
#[verifier::external_type_specification]
#[verifier::external_body]
pub struct ExSystemTimeError(std::time::SystemTimeError);

/// `SystemTime::now` reads the system clock. Nothing is claimed of the reading.
pub assume_specification[ std::time::SystemTime::now ]() -> (now: std::time::SystemTime);

/// `SystemTime::duration_since` measures a reading from the unix epoch, and fails where it
/// lies before it. Nothing is claimed of the outcome.
#[verifier::external_body]
fn since_epoch(now: std::time::SystemTime) -> (elapsed: Result<
    std::time::Duration,
    std::time::SystemTimeError,
>) {
    now.duration_since(std::time::UNIX_EPOCH)
}

/// `Duration::as_millis` counts the whole milliseconds. The durations it is asked of come
/// from the clock, so nothing is claimed of the count.
pub assume_specification[ std::time::Duration::as_millis ](d: &std::time::Duration) -> (ms: u128);

/// What a clock reads, given the milliseconds elapsed since the unix epoch: their low 64
/// bits, or 0 for a clock set before the epoch.
pub fn clock_reading(elapsed_ms: Option<u128>) -> (ms: u64)
    ensures
        ms == match elapsed_ms {
            Some(elapsed) => elapsed % 0x1_0000_0000_0000_0000,
            None => 0,
        },
{
    match elapsed_ms {
        Some(elapsed) => (elapsed % 0x1_0000_0000_0000_0000) as u64,
        None => 0,
    }
}

impl Clock for SystemClock {
    /// The system clock's reading. Nothing is claimed of how much time has elapsed;
    /// [`clock_reading`] says what is made of it.
    fn now_ms(&self) -> (ms: u64) {
        match since_epoch(std::time::SystemTime::now()) {
            Ok(elapsed) => clock_reading(Some(elapsed.as_millis())),
            Err(_) => clock_reading(None),
        }
    }
}

/// Tracks progress toward the next automatic commit.
#[derive(Debug, Clone, Copy, PartialEq, Eq, Structural)]
pub struct TriggerEvaluator {
    /// The rules.
    pub policy: VersioningPolicy,
    /// Uncommitted writes.
    pub writes_since_commit: u64,
    /// When the last commit happened.
    pub last_commit_ms: u64,
}

/// `a - b`, or 0 if negative.
pub open spec fn elapsed(a: u64, b: u64) -> int {
    if a >= b {
        a - b
    } else {
        0
    }
}

impl TriggerEvaluator {
    /// Whether the write count alone calls for a commit.
    pub open spec fn writes_due(&self) -> bool {
        self.policy.every_n_writes matches Some(n) && self.writes_since_commit >= n
    }

    /// Whether a commit is due at the given time.
    pub open spec fn due(&self, now: u64) -> bool {
        self.writes_due() || (self.policy.interval_ms matches Some(ms) && self.writes_since_commit
            > 0 && elapsed(now, self.last_commit_ms) >= ms)
    }

    /// The evaluator after a commit at the given time.
    pub open spec fn committed(&self, now: u64) -> TriggerEvaluator {
        TriggerEvaluator {
            policy: self.policy,
            writes_since_commit: match self.policy.every_n_writes {
                Some(n) => if self.writes_since_commit >= n {
                    (self.writes_since_commit - n) as u64
                } else {
                    0
                },
                None => 0,
            },
            last_commit_ms: now,
        }
    }

    /// Creates an evaluator anchored at the given time.
    pub fn starting_at(policy: VersioningPolicy, now: u64) -> (ev: TriggerEvaluator)
        ensures
            ev == (TriggerEvaluator { policy, writes_since_commit: 0, last_commit_ms: now }),
    {
        TriggerEvaluator { policy, writes_since_commit: 0, last_commit_ms: now }
    }

    /// Creates an evaluator anchored at the current time.
    pub fn new(policy: VersioningPolicy, clock: &dyn Clock) -> (ev: TriggerEvaluator)
        ensures
            ev.policy == policy,
            ev.writes_since_commit == 0,
    {
        TriggerEvaluator::starting_at(policy, clock.now_ms())
    }

    /// The current policy.
    pub fn policy(&self) -> (policy: VersioningPolicy)
        ensures
            policy == self.policy,
    {
        self.policy
    }

    /// Records `n` writes toward the next trigger.
    pub fn record_writes(&mut self, n: u64)
        ensures
            *final(self) == after_event(*old(self), TriggerEvent::Writes(n)),
            final(self).writes_since_commit == if old(self).writes_since_commit + n <= u64::MAX {
                old(self).writes_since_commit + n
            } else {
                u64::MAX as int
            },
    {
        self.writes_since_commit = match self.writes_since_commit.checked_add(n) {
            Some(total) => total,
            None => u64::MAX,
        };
    }

    /// Uncommitted writes accumulated so far.
    pub fn pending_writes(&self) -> (n: u64)
        ensures
            n == self.writes_since_commit,
    {
        self.writes_since_commit
    }

    /// Whether a commit should fire at the given time.
    pub fn should_commit_at(&self, now: u64) -> (r: bool)
        ensures
            r == self.due(now),
    {
        match self.policy.every_n_writes {
            Some(n) => {
                if self.writes_since_commit >= n {
                    return true;
                }
            },
            None => {},
        }
        match self.policy.interval_ms {
            Some(ms) => {
                self.writes_since_commit > 0 && (if now >= self.last_commit_ms {
                    now - self.last_commit_ms
                } else {
                    0
                }) >= ms
            },
            None => false,
        }
    }

    /// Whether a commit should fire now. The write-count trigger does not depend on the
    /// clock, and without an interval nothing does.
    pub fn should_commit(&self, clock: &dyn Clock) -> (r: bool)
        ensures
            self.writes_due() ==> r,
            r && !self.writes_due() ==> self.policy.interval_ms is Some && self.writes_since_commit
                > 0,
            exists|now: u64| r == #[trigger] self.due(now),
    {
        match self.policy.every_n_writes {
            Some(n) => {
                if self.writes_since_commit >= n {
                    assert(self.due(0));
                    return true;
                }
            },
            None => {},
        }
        if self.policy.interval_ms.is_some() && self.writes_since_commit > 0 {
            let now: u64 = clock.now_ms();
            self.should_commit_at(now)
        } else {
            // No time makes a commit due, so none is asked for.
            assert(!self.due(0));
            false
        }
    }

    /// Records that a commit happened at the given time.
    pub fn note_commit_at(&mut self, now: u64)
        ensures
            *final(self) == old(self).committed(now),
    {
        self.writes_since_commit = match self.policy.every_n_writes {
            Some(n) => if self.writes_since_commit >= n {
                self.writes_since_commit - n
            } else {
                0
            },
            None => 0,
        };
        self.last_commit_ms = now;
    }

    /// Records that a commit happened, advancing the counters. For the N-writes trigger
    /// this *subtracts* N (rather than zeroing) so a burst that overshoots still fires at
    /// the next exact multiple.
    pub fn note_commit(&mut self, clock: &dyn Clock)
        ensures
            exists|now: u64| *final(self) == #[trigger] old(self).committed(now),
    {
        let now: u64 = clock.now_ms();
        self.note_commit_at(now);
    }
}

/// An interval commits only pending writes: with none, no time makes a commit due unless
/// the write trigger is zero.
pub proof fn law_interval_needs_pending_writes(ev: TriggerEvaluator, now: u64)
    requires
        ev.writes_since_commit == 0,
        ev.policy.every_n_writes is None,
    ensures
        !ev.due(now),
{
}

/// A commit carries an overshoot over: under the write trigger, what is pending after a
/// due commit is what exceeded the target.
pub proof fn law_overshoot_is_carried_over(ev: TriggerEvaluator, n: u64, now: u64)
    requires
        ev.policy.every_n_writes == Some(n),
        ev.writes_since_commit >= n,
    ensures
        ev.committed(now).writes_since_commit == ev.writes_since_commit - n,
{
}

/// One event of a trigger's history.
pub enum TriggerEvent {
    /// Writes were recorded.
    Writes(u64),
    /// A commit was noted at a time.
    Commit(u64),
}

/// The evaluator after an event.
pub open spec fn after_event(ev: TriggerEvaluator, event: TriggerEvent) -> TriggerEvaluator {
    match event {
        TriggerEvent::Writes(n) => TriggerEvaluator {
            policy: ev.policy,
            writes_since_commit: if ev.writes_since_commit + n <= u64::MAX {
                (ev.writes_since_commit + n) as u64
            } else {
                u64::MAX
            },
            last_commit_ms: ev.last_commit_ms,
        },
        TriggerEvent::Commit(now) => ev.committed(now),
    }
}

/// The evaluator after events, in order.
pub open spec fn after_events(ev: TriggerEvaluator, events: Seq<TriggerEvent>) -> TriggerEvaluator
    decreases events.len(),
{
    if events.len() == 0 {
        ev
    } else {
        after_event(after_events(ev, events.drop_last()), events.last())
    }
}

/// The writes recorded by events.
pub open spec fn writes_in(events: Seq<TriggerEvent>) -> nat
    decreases events.len(),
{
    if events.len() == 0 {
        0
    } else {
        writes_in(events.drop_last()) + match events.last() {
            TriggerEvent::Writes(n) => n as nat,
            TriggerEvent::Commit(_) => 0,
        }
    }
}

/// The commits among events.
pub open spec fn commits_in(events: Seq<TriggerEvent>) -> nat
    decreases events.len(),
{
    if events.len() == 0 {
        0
    } else {
        commits_in(events.drop_last()) + match events.last() {
            TriggerEvent::Writes(_) => 0,
            TriggerEvent::Commit(_) => 1nat,
        }
    }
}

/// Whether every commit among events was made while the write count called for it.
pub open spec fn commits_when_due(ev: TriggerEvaluator, events: Seq<TriggerEvent>) -> bool
    decreases events.len(),
{
    events.len() > 0 ==> {
        &&& commits_when_due(ev, events.drop_last())
        &&& events.last() is Commit ==> after_events(ev, events.drop_last()).writes_due()
    }
}

/// Commits fire at exact multiples: over any history of recorded writes and of commits made
/// while due, what is pending is what was recorded less the target for each commit, so that
/// once no commit is due there were as many as the target goes into the writes.
pub proof fn law_commits_fire_at_multiples(
    policy: VersioningPolicy,
    n: u64,
    start: u64,
    events: Seq<TriggerEvent>,
)
    requires
        policy.every_n_writes == Some(n),
        writes_in(events) <= u64::MAX,
        commits_when_due(
            TriggerEvaluator { policy, writes_since_commit: 0, last_commit_ms: start },
            events,
        ),
    ensures
        ({
            let ev = TriggerEvaluator { policy, writes_since_commit: 0, last_commit_ms: start };
            let after = after_events(ev, events);
            &&& after.policy == policy
            &&& after.writes_since_commit == writes_in(events) - commits_in(events) * n
            &&& n > 0 && !after.writes_due() ==> commits_in(events) == writes_in(events) / n as nat
                && after.writes_since_commit == writes_in(events) % n as nat
        }),
    decreases events.len(),
{
    let ev = TriggerEvaluator { policy, writes_since_commit: 0, last_commit_ms: start };
    if events.len() > 0 {
        let earlier = events.drop_last();
        law_commits_fire_at_multiples(policy, n, start, earlier);
        let c = commits_in(earlier) as int;
        assert((c + 1) * n == c * n + n) by (nonlinear_arith);
    } else {
        assert(0 * n == 0) by (nonlinear_arith);
    }
    let after = after_events(ev, events);
    let c = commits_in(events) as int;
    if n > 0 && !after.writes_due() {
        vstd::arithmetic::div_mod::lemma_fundamental_div_mod_converse(
            writes_in(events) as int,
            n as int,
            c,
            after.writes_since_commit as int,
        );
    }
}

} // verus!
