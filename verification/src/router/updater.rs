//! The decisions of the task that keeps the cache current: what to ask the
//! root service for, what to do with what it sends, and how long to wait
//! after a failed attempt. The task itself, which connects, waits and locks,
//! lives outside this crate and calls in here.

use crate::descriptor::{DeleteEvent, UpdateEvent, WatchResponse};
use crate::router::model::StateView;
use crate::router::state::State;
use crate::vecs::reverse;
use vstd::prelude::*;

verus! {

/// The pause after the first failed attempt, in milliseconds.
pub const FIRST_INTERVAL_MS: u64 = 1;

/// The longest pause between attempts, in milliseconds.
pub const LONGEST_INTERVAL_MS: u64 = 1000;

/// The pause that follows a pause of `interval` milliseconds: twice as
/// long, up to the longest.
pub open spec fn doubled(interval: u64) -> u64 {
    if 2 * interval <= LONGEST_INTERVAL_MS {
        (2 * interval) as u64
    } else {
        LONGEST_INTERVAL_MS
    }
}

/// How long to wait before the next attempt to reach the root service.
#[derive(Clone, Copy, Debug)]
pub struct Backoff {
    interval: u64,
}

/// What the task does next.
#[derive(Clone, Copy, Debug, PartialEq, Eq, Structural)]
pub enum Step {
    /// Apply what the subscription delivers until it ends, then connect again.
    Watch,
    /// Sleep this many milliseconds, then connect again.
    Sleep(u64),
}

impl Backoff {
    /// The pause that the next failure will cause, in milliseconds.
    pub closed spec fn interval(&self) -> u64 {
        self.interval
    }

    /// The state before the first attempt.
    pub fn new() -> (backoff: Backoff)
        ensures
            backoff.interval() == FIRST_INTERVAL_MS,
    {
        Backoff { interval: FIRST_INTERVAL_MS }
    }

    /// Takes in the outcome of an attempt to subscribe. After a success the
    /// task watches, and the pause is back at its first value. After a
    /// failure it sleeps for the current pause, and the pause doubles.
    pub fn on_attempt(&mut self, connected: bool) -> (step: Step)
        ensures
            connected ==> step == Step::Watch && final(self).interval() == FIRST_INTERVAL_MS,
            !connected ==> step == Step::Sleep(old(self).interval()) && final(self).interval()
                == doubled(old(self).interval()),
    {
        if connected {
            self.interval = FIRST_INTERVAL_MS;
            Step::Watch
        } else {
            let pause = self.interval;
            self.interval = if pause <= LONGEST_INTERVAL_MS / 2 {
                pause * 2
            } else {
                LONGEST_INTERVAL_MS
            };
            Step::Sleep(pause)
        }
    }
}

/// The cache after each update of `updates` in turn; an empty slot changes nothing.
pub open spec fn apply_updates(state: StateView, updates: Seq<Option<UpdateEvent>>) -> StateView
    decreases updates.len(),
{
    if updates.len() == 0 {
        state
    } else {
        let before = apply_updates(state, updates.drop_last());
        match updates.last() {
            Some(event) => before.apply_update(event),
            None => before,
        }
    }
}

/// The cache after each removal of `deletes` in turn; an empty slot changes nothing.
pub open spec fn apply_deletes(state: StateView, deletes: Seq<Option<DeleteEvent>>) -> StateView
    decreases deletes.len(),
{
    if deletes.len() == 0 {
        state
    } else {
        let before = apply_deletes(state, deletes.drop_last());
        match deletes.last() {
            Some(event) => before.apply_delete(event),
            None => before,
        }
    }
}

/// Every removal of `deletes` is one that the cache can carry out.
pub open spec fn can_delete_all(deletes: Seq<Option<DeleteEvent>>) -> bool {
    forall|i: int|
        0 <= i < deletes.len() ==> (#[trigger] deletes[i] matches Some(event)
            ==> StateView::can_delete(event))
}

/// Whether the cache can carry out the removal that `event` asks for.
pub fn is_defined(event: &DeleteEvent) -> (defined: bool)
    ensures
        defined == StateView::can_delete(*event),
{
    match event {
        DeleteEvent::Group(_) => false,
        DeleteEvent::GroupState(_) => false,
        _ => true,
    }
}

/// Whether the cache can carry out every removal of `response`.
pub fn is_applicable(response: &WatchResponse) -> (applicable: bool)
    ensures
        applicable == can_delete_all(response.deletes@),
{
    let mut i: usize = 0;
    while i < response.deletes.len()
        invariant
            i <= response.deletes.len(),
            can_delete_all(response.deletes@.take(i as int)),
        decreases response.deletes.len() - i,
    {
        match &response.deletes[i] {
            Some(event) => {
                if !is_defined(event) {
                    return false;
                }
            },
            None => {},
        }
        proof {
            let done = response.deletes@.take(i + 1);
            assert forall|j: int| 0 <= j < done.len() implies (#[trigger] done[j] matches Some(event)
                ==> StateView::can_delete(event)) by {
                if j < i {
                    assert(response.deletes@.take(i as int)[j] == done[j]);
                }
            }
        }
        i += 1;
    }
    proof {
        assert(response.deletes@.take(i as int) =~= response.deletes@);
    }
    true
}

impl State {
    /// Takes in one message of the subscription: its updates in order, then
    /// its removals in order.
    pub fn apply_response(&mut self, response: WatchResponse)
        requires
            can_delete_all(response.deletes@),
        ensures
            final(self)@ == apply_deletes(
                apply_updates(old(self)@, response.updates@),
                response.deletes@,
            ),
    {
        let ghost all_updates = response.updates@;
        let ghost all_deletes = response.deletes@;
        let mut updates = response.updates;
        let mut deletes = response.deletes;
        reverse(&mut updates);
        let n = updates.len();
        let mut i: usize = 0;
        while i < n
            invariant
                i <= n,
                n == all_updates.len(),
                updates@ == all_updates.skip(i as int).reverse(),
                self@ == apply_updates(old(self)@, all_updates.take(i as int)),
            decreases n - i,
        {
            let update = updates.pop().unwrap();
            proof {
                assert(update == all_updates[i as int]);
                assert(all_updates.take(i + 1).drop_last() =~= all_updates.take(i as int));
                assert(updates@ =~= all_updates.skip(i + 1).reverse());
            }
            match update {
                Some(event) => {
                    self.apply_update_event(event);
                },
                None => {},
            }
            i += 1;
        }
        proof {
            assert(all_updates.take(n as int) =~= all_updates);
        }
        let ghost mid = self@;
        let m = deletes.len();
        let mut j: usize = 0;
        while j < m
            invariant
                j <= m,
                m == deletes@.len(),
                deletes@ == all_deletes,
                can_delete_all(all_deletes),
                self@ == apply_deletes(mid, all_deletes.take(j as int)),
            decreases m - j,
        {
            proof {
                assert(all_deletes.take(j + 1).drop_last() =~= all_deletes.take(j as int));
            }
            match deletes[j] {
                Some(event) => {
                    self.apply_delete_event(event);
                },
                None => {},
            }
            j += 1;
        }
        proof {
            assert(all_deletes.take(m as int) =~= all_deletes);
        }
    }
}

} // verus!
