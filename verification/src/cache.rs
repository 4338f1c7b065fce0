//! The staleness-bounded snapshot cache: readers share one cached summary,
//! refreshed synchronously from storage only when it has grown older than
//! the 60-second staleness bound.

use vstd::prelude::*;
use crate::config::Config;
use crate::snapshot::{State, build_state, state_ok};
use crate::storage::Storage;

verus! {

/// The cached summary and its generation timestamp.
pub struct StateCache {
    pub state: State,
    pub last_update: u64,
}

/// A summary generated at `generated` is stale at `now` once more than 60
/// seconds have passed — or when the clock reads earlier than the
/// generation time, which forces a refresh too.
pub open spec fn is_stale(generated: u64, now: u64) -> bool {
    now < generated || now - generated > 60
}

impl StateCache {
    /// An empty cache, generated at the epoch, so that the first read
    /// refreshes it.
    pub fn new() -> (c: StateCache)
        ensures
            c.last_update == 0,
            c.state.servers@.len() == 0,
    {
        StateCache { state: State { servers: Vec::new() }, last_update: 0 }
    }

    /// Serve one read: refresh the whole summary from storage when the
    /// cached one is stale, hand it back unchanged otherwise — mutations of
    /// storage inside the staleness bound are not reflected. Reports whether
    /// a refresh happened.
    pub fn get_state(&mut self, config: &Config, storage: &Storage, now: u64) -> (refreshed: bool)
        requires
            storage.wf(),
        ensures
            refreshed == is_stale(old(self).last_update, now),
            refreshed ==> state_ok(
                final(self).state,
                *config,
                storage.checks(),
                storage.hist(),
                now,
            ) && final(self).last_update == now,
            !refreshed ==> *final(self) == *old(self),
    {
        let stale = if now < self.last_update {
            true
        } else {
            now - self.last_update > 60
        };
        if stale {
            self.state = build_state(config, storage, now);
            self.last_update = now;
        }
        stale
    }
}

/// Law: of two reads at `t1` and then `t2`, with the cache refreshed at
/// `t1`, the second read within 60 seconds serves the cached summary
/// untouched whatever happened to storage in between, and a read after more
/// than 60 seconds refreshes.
pub proof fn lemma_staleness_bound(t1: u64, t2: u64)
    requires
        t1 <= t2,
    ensures
        t2 - t1 <= 60 ==> !is_stale(t1, t2),
        t2 - t1 > 60 ==> is_stale(t1, t2),
{
}

} // verus!
