//! Durable-store semantics: per-minute health-check records, the day-boundary
//! aggregation that compacts them into per-day uptime history, the
//! latest-status query and the bounded history query.
//!
//! Both record kinds live in keyed tables and every operation is specified
//! against the tables' key-to-payload maps, so the contracts do not depend on
//! insertion order or on other services' records.

use vstd::prelude::*;
use vstd::arithmetic::div_mod::{
    lemma_fundamental_div_mod,
    lemma_mod_bound,
    lemma_mod_multiples_basic,
};
use crate::table::{
    Table,
    has_entry,
    is_latest,
    latest_of,
    lemma_window_count_insert,
    window_true_count,
};

verus! {

/// The error taxonomy of the storage layer. `StorageUnavailable` stands for
/// a failure of the durable engine underneath; the in-memory model itself
/// never raises it.
#[derive(Clone, Copy, PartialEq, Eq, Structural, Debug)]
pub enum StorageError {
    StorageUnavailable,
    DuplicateKey,
    NotFound,
}

/// The first second of the day containing `t`.
pub open spec fn day_start_spec(t: u64) -> int {
    t - (t % 86400)
}

/// The first second of the day after the day containing `t`.
pub open spec fn day_end_spec(t: u64) -> int {
    day_start_spec(t) + 86400
}

/// How many successful checks a service has inside the day window starting
/// at `start`.
pub open spec fn day_uptime(m: Map<(u64, u64), bool>, id: u64, start: int) -> nat {
    window_true_count(m, id, start, start + 86400)
}

/// Align a timestamp down to its day boundary.
pub fn day_start(t: u64) -> (r: u64)
    ensures
        r == day_start_spec(t),
        r % 86400 == 0,
        r <= t < r + 86400,
{
    proof {
        lemma_mod_bound(t as int, 86400);
        lemma_fundamental_div_mod(t as int, 86400);
        assert(t / 86400 >= 0);
        lemma_mod_multiples_basic(t as int / 86400, 86400);
    }
    t - t % 86400
}

/// The two persisted tables: `healthchecks(id, timestamp, status)` and
/// `history(id, timestamp, uptime)`, each keyed by (service id, timestamp).
pub struct Storage {
    healthchecks: Table<bool>,
    history: Table<u64>,
}

impl Storage {
    /// The health-check table as a map from (id, timestamp) to success.
    pub closed spec fn checks(&self) -> Map<(u64, u64), bool> {
        self.healthchecks@
    }

    /// The history table as a map from (id, day timestamp) to uptime.
    pub closed spec fn hist(&self) -> Map<(u64, u64), u64> {
        self.history@
    }

    /// Keys are pairwise distinct in both tables and history timestamps sit
    /// on day boundaries.
    pub closed spec fn wf(&self) -> bool {
        &&& self.healthchecks.wf()
        &&& self.history.wf()
        &&& forall|k: (u64, u64)| #[trigger] self.history@.contains_key(k) ==> k.1 % 86400 == 0
    }

    pub fn new() -> (s: Self)
        ensures
            s.wf(),
            s.checks() == Map::<(u64, u64), bool>::empty(),
            s.hist() == Map::<(u64, u64), u64>::empty(),
    {
        Storage { healthchecks: Table::new(), history: Table::new() }
    }

    /// The health-check table holds finitely many records.
    pub proof fn lemma_checks_finite(&self)
        ensures
            self.checks().dom().finite(),
    {
        self.healthchecks.lemma_view_finite();
    }

    /// Append one per-minute record. A (service, timestamp) pair may be
    /// recorded at most once: a second insert for the same pair fails with
    /// `DuplicateKey` and alters nothing.
    pub fn insert_healthcheck(&mut self, id: u64, timestamp: u64, status: bool) -> (r: Result<
        (),
        StorageError,
    >)
        requires
            old(self).wf(),
        ensures
            final(self).wf(),
            final(self).hist() == old(self).hist(),
            r.is_ok() <==> !old(self).checks().contains_key((id, timestamp)),
            r matches Ok(()) ==> final(self).checks() == old(self).checks().insert(
                (id, timestamp),
                status,
            ),
            r.is_err() ==> r == Err::<(), StorageError>(StorageError::DuplicateKey) && *final(self)
                == *old(self),
    {
        if self.healthchecks.insert(id, timestamp, status) {
            Ok(())
        } else {
            Err(StorageError::DuplicateKey)
        }
    }

    /// Aggregate one service's day: sum the successes inside the day window
    /// containing `timestamp` and record the sum under the day boundary.
    /// A day already aggregated fails with `DuplicateKey` and alters nothing;
    /// the sum over an empty window is zero.
    pub fn convert_healthchecks_to_history(&mut self, id: u64, timestamp: u64) -> (r: Result<
        (),
        StorageError,
    >)
        requires
            old(self).wf(),
            day_end_spec(timestamp) <= u64::MAX,
        ensures
            final(self).wf(),
            final(self).checks() == old(self).checks(),
            r.is_ok() <==> !old(self).hist().contains_key(
                (id, day_start_spec(timestamp) as u64),
            ),
            r matches Ok(()) ==> final(self).hist() == old(self).hist().insert(
                (id, day_start_spec(timestamp) as u64),
                day_uptime(old(self).checks(), id, day_start_spec(timestamp)) as u64,
            ),
            r.is_err() ==> r == Err::<(), StorageError>(StorageError::DuplicateKey) && *final(self)
                == *old(self),
    {
        let start = day_start(timestamp);
        let uptime = self.healthchecks.count_window(id, start, start + 86400);
        if self.history.insert(id, start, uptime) {
            Ok(())
        } else {
            Err(StorageError::DuplicateKey)
        }
    }

    /// The success flag of the most recent record of a service, `NotFound`
    /// when the service has no record at all.
    pub fn latest_healthcheck(&self, id: u64) -> (r: Result<bool, StorageError>)
        requires
            self.wf(),
        ensures
            r.is_ok() <==> has_entry(self.checks(), id),
            r matches Ok(s) ==> latest_of(self.checks(), id) == Some(s),
            r matches Err(e) ==> e == StorageError::NotFound && !has_entry(self.checks(), id),
    {
        match self.healthchecks.latest(id) {
            Some(v) => Ok(v),
            None => Err(StorageError::NotFound),
        }
    }

    /// Look up one aggregated day of a service.
    pub fn history_uptime(&self, id: u64, timestamp: u64) -> (r: Option<u64>)
        requires
            self.wf(),
        ensures
            r == if self.hist().contains_key((id, timestamp)) {
                Some(self.hist()[(id, timestamp)])
            } else {
                None::<u64>
            },
    {
        self.history.get(id, timestamp)
    }

    /// Record one aggregated day directly, under its day boundary — the seam
    /// through which a durable engine underneath reloads persisted history
    /// on startup.
    pub fn insert_history(&mut self, id: u64, timestamp: u64, uptime: u64) -> (r: Result<
        (),
        StorageError,
    >)
        requires
            old(self).wf(),
            timestamp % 86400 == 0,
        ensures
            final(self).wf(),
            final(self).checks() == old(self).checks(),
            r.is_ok() <==> !old(self).hist().contains_key((id, timestamp)),
            r matches Ok(()) ==> final(self).hist() == old(self).hist().insert(
                (id, timestamp),
                uptime,
            ),
            r.is_err() ==> r == Err::<(), StorageError>(StorageError::DuplicateKey) && *final(self)
                == *old(self),
    {
        if self.history.insert(id, timestamp, uptime) {
            Ok(())
        } else {
            Err(StorageError::DuplicateKey)
        }
    }

    /// The uptimes of up to `days` most recent aggregated days of a service,
    /// all strictly before the day containing `now`, oldest first.
    pub fn fetch_history(&self, id: u64, days: u64, now: u64) -> (r: Result<
        Vec<u64>,
        StorageError,
    >)
        requires
            self.wf(),
        ensures
            r.is_ok(),
            r matches Ok(v) ==> v@ == history_uptimes(
                self.hist(),
                id,
                day_start_spec(now),
                days as int,
            ),
    {
        let start = day_start(now);
        let ghost m = self.hist();
        let mut data: Vec<u64> = Vec::new();
        let mut k = days;
        proof {
            assert(history_uptimes(m, id, start as int, days as int) =~= Seq::<u64>::empty()
                + history_uptimes(m, id, start as int, days as int));
        }
        while k > 0
            invariant
                self.wf(),
                m == self.hist(),
                start == day_start_spec(now),
                k <= days,
                history_uptimes(m, id, start as int, days as int) == data@ + history_uptimes(
                    m,
                    id,
                    start as int,
                    k as int,
                ),
            decreases k,
        {
            let off: u128 = (k as u128) * 86400;
            let ghost ts_spec: int = start - k * 86400;
            if off <= start as u128 {
                let ts = start - (off as u64);
                proof {
                    assert(ts == ts_spec);
                }
                match self.history.get(id, ts) {
                    Some(v) => {
                        let ghost dpre = data@;
                        data.push(v);
                        proof {
                            assert(history_uptimes(m, id, start as int, k as int) == seq![v]
                                + history_uptimes(m, id, start as int, k as int - 1));
                            assert(dpre + (seq![v] + history_uptimes(
                                m,
                                id,
                                start as int,
                                k as int - 1,
                            )) =~= data@ + history_uptimes(m, id, start as int, k as int - 1));
                        }
                    },
                    None => {
                        proof {
                            assert(history_uptimes(m, id, start as int, k as int)
                                == history_uptimes(m, id, start as int, k as int - 1));
                        }
                    },
                }
            } else {
                proof {
                    assert(ts_spec < 0);
                    assert(history_uptimes(m, id, start as int, k as int) == history_uptimes(
                        m,
                        id,
                        start as int,
                        k as int - 1,
                    ));
                }
            }
            k -= 1;
        }
        proof {
            assert(history_uptimes(m, id, start as int, 0) =~= Seq::<u64>::empty());
            assert(data@ + Seq::<u64>::empty() =~= data@);
        }
        Ok(data)
    }
}

/// The aggregated uptimes of one service over the `k` day boundaries
/// strictly before `start`, oldest first: a value is present exactly when
/// that day was aggregated.
pub open spec fn history_uptimes(m: Map<(u64, u64), u64>, id: u64, start: int, k: int) -> Seq<
    u64,
>
    decreases k,
{
    if k <= 0 {
        Seq::empty()
    } else {
        let ts = start - k * 86400;
        let rest = history_uptimes(m, id, start, k - 1);
        if 0 <= ts <= u64::MAX && m.contains_key((id, ts as u64)) {
            seq![m[(id, ts as u64)]] + rest
        } else {
            rest
        }
    }
}

/// Law: the uptimes a history query yields are exactly the uptime components
/// of its (day, uptime) records, in the same order.
pub proof fn lemma_history_window_values(m: Map<(u64, u64), u64>, id: u64, start: int, k: int)
    ensures
        history_uptimes(m, id, start, k).len() == history_window(m, id, start, k).len(),
        forall|i: int| 0 <= i < history_window(m, id, start, k).len() ==> #[trigger] history_uptimes(
            m,
            id,
            start,
            k,
        )[i] == history_window(m, id, start, k)[i].1,
    decreases (if k >= 0 {
        k
    } else {
        0
    }),
{
    if k > 0 {
        lemma_history_window_values(m, id, start, k - 1);
        let ts = start - k * 86400;
        let ru = history_uptimes(m, id, start, k - 1);
        let rp = history_window(m, id, start, k - 1);
        if 0 <= ts <= u64::MAX && m.contains_key((id, ts as u64)) {
            assert forall|i: int| 0 <= i < history_window(m, id, start, k).len() implies
                #[trigger] history_uptimes(m, id, start, k)[i] == history_window(
                m,
                id,
                start,
                k,
            )[i].1 by {
                if i > 0 {
                    assert(history_uptimes(m, id, start, k)[i] == ru[i - 1]);
                    assert(history_window(m, id, start, k)[i] == rp[i - 1]);
                }
            }
        }
    }
}

/// The aggregated (day timestamp, uptime) pairs of one service over the `k`
/// day boundaries strictly before `start`, oldest first: a pair is present
/// exactly when that day was aggregated.
pub open spec fn history_window(m: Map<(u64, u64), u64>, id: u64, start: int, k: int) -> Seq<
    (u64, u64),
>
    decreases k,
{
    if k <= 0 {
        Seq::empty()
    } else {
        let ts = start - k * 86400;
        let rest = history_window(m, id, start, k - 1);
        if 0 <= ts <= u64::MAX && m.contains_key((id, ts as u64)) {
            seq![(ts as u64, m[(id, ts as u64)])] + rest
        } else {
            rest
        }
    }
}

/// Law: a history query never yields more than `k` records, yields only days
/// strictly inside the `k`-day span before `start`, and yields them in
/// strictly increasing day order.
pub proof fn lemma_history_window_bounds(m: Map<(u64, u64), u64>, id: u64, start: int, k: int)
    ensures
        history_window(m, id, start, k).len() <= (if k >= 0 {
            k
        } else {
            0
        }),
        forall|i: int| 0 <= i < history_window(m, id, start, k).len() ==> start - k * 86400 <= (
        #[trigger] history_window(m, id, start, k)[i]).0 < start,
        forall|i: int, j: int|
            0 <= i < j < history_window(m, id, start, k).len() ==> history_window(
                m,
                id,
                start,
                k,
            )[i].0 < history_window(m, id, start, k)[j].0,
    decreases (if k >= 0 {
        k
    } else {
        0
    }),
{
    if k > 0 {
        lemma_history_window_bounds(m, id, start, k - 1);
        let ts = start - k * 86400;
        let rest = history_window(m, id, start, k - 1);
        let w = history_window(m, id, start, k);
        if 0 <= ts <= u64::MAX && m.contains_key((id, ts as u64)) {
            assert(w == seq![(ts as u64, m[(id, ts as u64)])] + rest);
            assert(w[0].0 == ts);
            assert forall|i: int| 0 <= i < w.len() implies start - k * 86400 <= (
            #[trigger] w[i]).0 < start by {
                if i > 0 {
                    assert(w[i] == rest[i - 1]);
                }
            }
            assert forall|i: int, j: int| 0 <= i < j < w.len() implies w[i].0 < w[j].0 by {
                assert(w[j] == rest[j - 1]);
                if i > 0 {
                    assert(w[i] == rest[i - 1]);
                } else {
                    assert(start - (k - 1) * 86400 <= rest[j - 1].0);
                }
            }
        } else {
            assert(w == rest);
            assert forall|i: int| 0 <= i < w.len() implies start - k * 86400 <= (
            #[trigger] w[i]).0 < start by {
                assert(w[i] == rest[i]);
            }
        }
    }
}

/// Law: a history query for `k` days never yields more than `k` uptimes.
pub proof fn lemma_history_uptimes_len(m: Map<(u64, u64), u64>, id: u64, start: int, k: int)
    requires
        k >= 0,
    ensures
        history_uptimes(m, id, start, k).len() <= k,
{
    lemma_history_window_bounds(m, id, start, k);
    lemma_history_window_values(m, id, start, k);
}

/// Law: when one record holds the greatest timestamp recorded for a service,
/// the latest-status query answers with exactly that record's success flag.
pub proof fn lemma_latest_is_max(m: Map<(u64, u64), bool>, id: u64, ts: u64)
    requires
        m.contains_key((id, ts)),
        forall|t2: u64| m.contains_key((id, t2)) ==> t2 <= ts,
    ensures
        latest_of(m, id) == Some(m[(id, ts)]),
{
    assert(is_latest(m, id, ts));
    let w = choose|t: u64| is_latest(m, id, t);
    assert(w <= ts && ts <= w);
}

/// Law: after any sequence of inserts with distinct (service, timestamp)
/// pairs, inserting a record whose timestamp exceeds every timestamp the
/// service has makes that record's success flag the service's latest status.
pub proof fn lemma_insert_then_latest(m: Map<(u64, u64), bool>, id: u64, ts: u64, v: bool)
    requires
        forall|t2: u64| m.contains_key((id, t2)) ==> t2 < ts,
    ensures
        latest_of(m.insert((id, ts), v), id) == Some(v),
{
    let mn = m.insert((id, ts), v);
    assert(mn.contains_key((id, ts)));
    assert forall|t2: u64| mn.contains_key((id, t2)) implies t2 <= ts by {
        if t2 != ts {
            assert(m.contains_key((id, t2)));
        }
    }
    lemma_latest_is_max(mn, id, ts);
}

/// Law: aggregating a day counts exactly the successful checks of that
/// service inside the day window. Adding any other record — a failing check,
/// another service's record, a record outside the window — leaves the day's
/// uptime unchanged, so the aggregate is independent of how many records
/// were inserted, in what order, and of interleaving with other services.
pub proof fn lemma_day_uptime_insert(
    m: Map<(u64, u64), bool>,
    id: u64,
    start: int,
    k: (u64, u64),
    v: bool,
)
    requires
        m.dom().finite(),
        !m.contains_key(k),
    ensures
        day_uptime(m.insert(k, v), id, start) == day_uptime(m, id, start) + (if k.0 == id && start
            <= k.1 < start + 86400 && v {
            1int
        } else {
            0int
        }),
{
    lemma_window_count_insert(m, id, start, start + 86400, k, v);
}

} // verus!
