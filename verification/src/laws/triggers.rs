//! When a commit is due.

use vstd::prelude::*;

use crate::version::policy;
use crate::version::policy::TriggerEvent;
use crate::version::TriggerEvaluator;

verus! {

/// A commit is due exactly if as many writes are pending as the policy says, or if any are
/// and its interval has passed since the last commit. A clock that went backwards has let no
/// time pass.
pub proof fn law_commits_are_due_by_count_or_time(ev: TriggerEvaluator, now: u64)
    ensures
        ev.due(now) <==> {
            ||| ev.policy.every_n_writes matches Some(n) && ev.writes_since_commit >= n
            ||| ev.policy.interval_ms matches Some(ms) && ev.writes_since_commit > 0 && (now
                - ev.last_commit_ms >= ms || ms == 0)
        },
        ev.writes_due() <==> (ev.policy.every_n_writes matches Some(n) && ev.writes_since_commit
            >= n),
{
}

/// A commit keeps the policy, takes the time, and uses up the writes it was due for: those
/// beyond the target stay pending, and without a target that was met none do.
pub proof fn law_commit_uses_up_its_writes(ev: TriggerEvaluator, now: u64)
    ensures
        ev.committed(now).policy == ev.policy,
        ev.committed(now).last_commit_ms == now,
        ev.policy.every_n_writes matches Some(n) && n <= ev.writes_since_commit
            ==> ev.committed(now).writes_since_commit == ev.writes_since_commit
            - ev.policy.every_n_writes->0,
        ev.policy.every_n_writes matches Some(n) && n > ev.writes_since_commit ==> ev.committed(
            now,
        ).writes_since_commit == 0,
        ev.policy.every_n_writes is None ==> ev.committed(now).writes_since_commit == 0,
{
}

/// Recorded writes add up, and change nothing else; they stop at the largest count there is.
pub proof fn law_writes_add_up(ev: TriggerEvaluator, n: u64)
    ensures
        ({
            let after = policy::after_event(ev, TriggerEvent::Writes(n));
            &&& after.policy == ev.policy
            &&& after.last_commit_ms == ev.last_commit_ms
            &&& ev.writes_since_commit + n <= u64::MAX ==> after.writes_since_commit
                == ev.writes_since_commit + n
            &&& ev.writes_since_commit + n > u64::MAX ==> after.writes_since_commit == u64::MAX
        }),
{
}

/// A commit among the events does to the evaluator what a commit at its time does.
pub proof fn law_events_take_effect_in_order(
    ev: TriggerEvaluator,
    events: Seq<TriggerEvent>,
    n: u64,
    now: u64,
)
    ensures
        policy::after_events(ev, Seq::empty()) == ev,
        policy::after_events(ev, events.push(TriggerEvent::Commit(now))) == policy::after_events(
            ev,
            events,
        ).committed(now),
        policy::after_events(ev, events.push(TriggerEvent::Writes(n))) == policy::after_event(
            policy::after_events(ev, events),
            TriggerEvent::Writes(n),
        ),
{
    assert(events.push(TriggerEvent::Commit(now)).drop_last() =~= events);
    assert(events.push(TriggerEvent::Writes(n)).drop_last() =~= events);
}

} // verus!
