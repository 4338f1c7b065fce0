//! The scheduler: a coarse once-per-second wake loop drives per-minute
//! health-check passes and the end-of-day aggregation. The decisions of one
//! wake are a pure function of the scheduler state and the clock; the caller
//! performs the commands, sleeps, and hands check results back.

use vstd::prelude::*;
use vstd::arithmetic::div_mod::{lemma_fundamental_div_mod, lemma_mod_bound};
use crate::config::{
    Config,
    category_services,
    config_services,
    lemma_category_services_take,
    lemma_config_services_take,
};
use crate::storage::{Storage, StorageError, day_end_spec, day_start, day_start_spec, day_uptime};

verus! {

/// Scheduler state: the flattened (service id, check command) list and the
/// next minute-aligned due time.
pub struct Uptime {
    pub services: Vec<(u64, String)>,
    pub next_healthcheck: u64,
}

/// What one wake of the scheduler loop decided: whether a health-check pass
/// is due, whether the day must be aggregated, and how long to stay quiet
/// past the day boundary afterwards (on top of the loop's own one-second
/// wake cadence).
pub struct StepAction {
    pub run_checks: bool,
    pub aggregate: bool,
    pub long_sleep: u64,
}

/// Each flattened pair carries the id and the check command of the
/// corresponding configured service, in configuration order.
pub open spec fn pairs_match(pairs: Seq<(u64, String)>, svcs: Seq<crate::config::Service>) -> bool {
    &&& pairs.len() == svcs.len()
    &&& forall|k: int|
        0 <= k < pairs.len() ==> (#[trigger] pairs[k]).0 == svcs[k].id && pairs[k].1@
            == svcs[k].command@
}

impl Uptime {
    /// Flatten the configured services and aim the first check at the next
    /// minute boundary.
    pub fn create(config: &Config, now: u64) -> (u: Uptime)
        requires
            now + 60 <= u64::MAX,
        ensures
            u.next_healthcheck == now - (now % 60) + 60,
            pairs_match(u.services@, config_services(config.servers@)),
    {
        let mut services: Vec<(u64, String)> = Vec::new();
        let mut si: usize = 0;
        proof {
            assert(config.servers@.take(0) =~= Seq::<crate::config::Server>::empty());
        }
        while si < config.servers.len()
            invariant
                si <= config.servers@.len(),
                pairs_match(services@, config_services(config.servers@.take(si as int))),
            decreases config.servers@.len() - si,
        {
            let server = &config.servers[si];
            let mut ci: usize = 0;
            proof {
                assert(server.categories@.take(0) =~= Seq::<crate::config::Category>::empty());
                assert(config_services(config.servers@.take(si as int)) + category_services(
                    server.categories@.take(0),
                ) =~= config_services(config.servers@.take(si as int)));
            }
            while ci < server.categories.len()
                invariant
                    server == &config.servers@[si as int],
                    si < config.servers@.len(),
                    ci <= server.categories@.len(),
                    pairs_match(
                        services@,
                        config_services(config.servers@.take(si as int)) + category_services(
                            server.categories@.take(ci as int),
                        ),
                    ),
                decreases server.categories@.len() - ci,
            {
                let category = &server.categories[ci];
                let mut vi: usize = 0;
                proof {
                    assert(category.services@.take(0) =~= Seq::<crate::config::Service>::empty());
                    assert((config_services(config.servers@.take(si as int)) + category_services(
                        server.categories@.take(ci as int),
                    )) + category.services@.take(0) =~= config_services(
                        config.servers@.take(si as int),
                    ) + category_services(server.categories@.take(ci as int)));
                }
                while vi < category.services.len()
                    invariant
                        server == &config.servers@[si as int],
                        si < config.servers@.len(),
                        category == &server.categories@[ci as int],
                        ci < server.categories@.len(),
                        vi <= category.services@.len(),
                        pairs_match(
                            services@,
                            (config_services(config.servers@.take(si as int)) + category_services(
                                server.categories@.take(ci as int),
                            )) + category.services@.take(vi as int),
                        ),
                    decreases category.services@.len() - vi,
                {
                    let svc = &category.services[vi];
                    services.push((svc.id, svc.command.clone()));
                    proof {
                        let base = config_services(config.servers@.take(si as int))
                            + category_services(server.categories@.take(ci as int));
                        assert(base + category.services@.take(vi as int + 1) =~= (base
                            + category.services@.take(vi as int)).push(
                            category.services@[vi as int],
                        ));
                    }
                    vi += 1;
                }
                proof {
                    assert(category.services@.take(category.services@.len() as int)
                        =~= category.services@);
                    lemma_category_services_take(server.categories@, ci as int);
                    assert((config_services(config.servers@.take(si as int)) + category_services(
                        server.categories@.take(ci as int),
                    )) + category.services@ =~= config_services(config.servers@.take(si as int))
                        + category_services(server.categories@.take(ci as int + 1)));
                }
                ci += 1;
            }
            proof {
                assert(server.categories@.take(server.categories@.len() as int)
                    =~= server.categories@);
                lemma_config_services_take(config.servers@, si as int);
            }
            si += 1;
        }
        proof {
            assert(config.servers@.take(config.servers@.len() as int) =~= config.servers@);
            lemma_mod_bound(now as int, 60);
            lemma_fundamental_div_mod(now as int, 60);
            assert(now as int / 60 >= 0);
        }
        Uptime { services, next_healthcheck: now - (now % 60) + 60 }
    }

    /// One wake of the loop. A due check pass advances the due time by
    /// exactly one minute, however late the wake came — missed minutes are
    /// skipped, never backfilled. When the advanced due time falls past the
    /// end of the day containing `now`, the day is aggregated and the loop
    /// stays quiet until one second past the day boundary.
    pub fn step(&mut self, now: u64) -> (act: StepAction)
        requires
            old(self).next_healthcheck + 60 <= u64::MAX,
            day_end_spec(now) <= u64::MAX,
        ensures
            final(self).services == old(self).services,
            now >= old(self).next_healthcheck ==> act.run_checks && final(self).next_healthcheck
                == old(self).next_healthcheck + 60,
            now < old(self).next_healthcheck ==> !act.run_checks && final(self).next_healthcheck
                == old(self).next_healthcheck,
            act.aggregate <==> final(self).next_healthcheck >= day_end_spec(now),
            act.aggregate ==> act.long_sleep == day_end_spec(now) - now + 1,
            !act.aggregate ==> act.long_sleep == 0,
    {
        let run_checks = now >= self.next_healthcheck;
        if run_checks {
            self.next_healthcheck = self.next_healthcheck + 60;
        }
        let end_of_day = day_start(now) + 86400;
        let aggregate = self.next_healthcheck >= end_of_day;
        let long_sleep = if aggregate {
            end_of_day - now + 1
        } else {
            0
        };
        StepAction { run_checks, aggregate, long_sleep }
    }
}

/// The health-check map after recording one result per service, all under
/// the same timestamp.
pub open spec fn with_results(
    m: Map<(u64, u64), bool>,
    svcs: Seq<(u64, String)>,
    results: Seq<bool>,
    now: u64,
) -> Map<(u64, u64), bool>
    decreases svcs.len(),
{
    if svcs.len() == 0 {
        m
    } else {
        with_results(m, svcs.drop_last(), results.drop_last(), now).insert(
            (svcs.last().0, now),
            results.last(),
        )
    }
}

pub proof fn lemma_with_results_contains(
    m: Map<(u64, u64), bool>,
    svcs: Seq<(u64, String)>,
    results: Seq<bool>,
    now: u64,
    key: (u64, u64),
)
    ensures
        with_results(m, svcs, results, now).contains_key(key) <==> m.contains_key(key) || (key.1
            == now && exists|k: int| 0 <= k < svcs.len() && (#[trigger] svcs[k]).0 == key.0),
    decreases svcs.len(),
{
    if svcs.len() != 0 {
        lemma_with_results_contains(m, svcs.drop_last(), results.drop_last(), now, key);
        if key.1 == now && exists|k: int| 0 <= k < svcs.len() && (#[trigger] svcs[k]).0 == key.0 {
            let k = choose|k: int| 0 <= k < svcs.len() && (#[trigger] svcs[k]).0 == key.0;
            if k < svcs.len() - 1 {
                assert(svcs.drop_last()[k].0 == key.0);
            }
        }
        if with_results(m, svcs, results, now).contains_key(key) && key != (svcs.last().0, now) {
            if !m.contains_key(key) {
                let k = choose|k: int|
                    0 <= k < svcs.drop_last().len() && (#[trigger] svcs.drop_last()[k]).0 == key.0;
                assert(svcs[k].0 == key.0);
            }
        }
        if key == (svcs.last().0, now) {
            assert(svcs[svcs.len() - 1].0 == key.0);
        }
    }
}

/// Record one health-check pass: one result per configured service, all
/// stamped with the current wall-clock time. The pass fails with
/// `DuplicateKey` — and stops at the offending service — when some service
/// was already recorded for this timestamp.
pub fn record_results(
    storage: &mut Storage,
    services: &Vec<(u64, String)>,
    results: &Vec<bool>,
    now: u64,
) -> (r: Result<(), StorageError>)
    requires
        old(storage).wf(),
        results.len() == services.len(),
        forall|i: int, j: int|
            0 <= i < j < services@.len() ==> (#[trigger] services@[i]).0 != (
            #[trigger] services@[j]).0,
    ensures
        final(storage).wf(),
        final(storage).hist() == old(storage).hist(),
        r.is_ok() <==> forall|k: int|
            0 <= k < services@.len() ==> !old(storage).checks().contains_key(
                ((#[trigger] services@[k]).0, now),
            ),
        r matches Ok(()) ==> final(storage).checks() == with_results(
            old(storage).checks(),
            services@,
            results@,
            now,
        ),
        r matches Err(e) ==> e == StorageError::DuplicateKey && exists|j: int|
            0 <= j < services@.len() && old(storage).checks().contains_key(
                ((#[trigger] services@[j]).0, now),
            ) && (forall|k: int|
                0 <= k < j ==> !old(storage).checks().contains_key(
                    ((#[trigger] services@[k]).0, now),
                )) && final(storage).checks() == with_results(
                old(storage).checks(),
                services@.take(j),
                results@.take(j),
                now,
            ),
{
    let ghost m0 = storage.checks();
    let mut i: usize = 0;
    proof {
        assert(services@.take(0) =~= Seq::<(u64, String)>::empty());
        assert(results@.take(0) =~= Seq::<bool>::empty());
    }
    while i < services.len()
        invariant
            storage.wf(),
            results.len() == services.len(),
            i <= services@.len(),
            forall|a: int, b: int|
                0 <= a < b < services@.len() ==> (#[trigger] services@[a]).0 != (
                #[trigger] services@[b]).0,
            storage.hist() == old(storage).hist(),
            m0 == old(storage).checks(),
            storage.checks() == with_results(m0, services@.take(i as int), results@.take(i as int), now),
            forall|k: int| 0 <= k < i ==> !m0.contains_key(((#[trigger] services@[k]).0, now)),
        decreases services@.len() - i,
    {
        let id = services[i].0;
        let ghost pre = storage.checks();
        proof {
            lemma_with_results_contains(
                m0,
                services@.take(i as int),
                results@.take(i as int),
                now,
                (id, now),
            );
        }
        match storage.insert_healthcheck(id, now, results[i]) {
            Ok(()) => {
                proof {
                    assert(services@.take(i as int + 1).drop_last() =~= services@.take(i as int));
                    assert(results@.take(i as int + 1).drop_last() =~= results@.take(i as int));
                    assert(services@.take(i as int + 1).last() == services@[i as int]);
                    assert(results@.take(i as int + 1).last() == results@[i as int]);
                }
            },
            Err(e) => {
                proof {
                    assert(pre.contains_key((id, now)));
                    assert(m0.contains_key((id, now)));
                    assert(services@[i as int].0 == id);
                }
                return Err(e);
            },
        }
        i += 1;
    }
    proof {
        assert(services@.take(services@.len() as int) =~= services@);
        assert(results@.take(results@.len() as int) =~= results@);
    }
    Ok(())
}

/// The history map after aggregating the day containing `now` for every
/// service of the run.
pub open spec fn rollover_hist(
    hist0: Map<(u64, u64), u64>,
    checks: Map<(u64, u64), bool>,
    svcs: Seq<(u64, String)>,
    now: u64,
) -> Map<(u64, u64), u64>
    decreases svcs.len(),
{
    if svcs.len() == 0 {
        hist0
    } else {
        rollover_hist(hist0, checks, svcs.drop_last(), now).insert(
            (svcs.last().0, day_start_spec(now) as u64),
            day_uptime(checks, svcs.last().0, day_start_spec(now)) as u64,
        )
    }
}

pub proof fn lemma_rollover_contains(
    hist0: Map<(u64, u64), u64>,
    checks: Map<(u64, u64), bool>,
    svcs: Seq<(u64, String)>,
    now: u64,
    key: (u64, u64),
)
    ensures
        rollover_hist(hist0, checks, svcs, now).contains_key(key) <==> hist0.contains_key(key) || (
        key.1 == day_start_spec(now) as u64 && exists|k: int|
            0 <= k < svcs.len() && (#[trigger] svcs[k]).0 == key.0),
    decreases svcs.len(),
{
    if svcs.len() != 0 {
        lemma_rollover_contains(hist0, checks, svcs.drop_last(), now, key);
        if key.1 == day_start_spec(now) as u64 && exists|k: int|
            0 <= k < svcs.len() && (#[trigger] svcs[k]).0 == key.0 {
            let k = choose|k: int| 0 <= k < svcs.len() && (#[trigger] svcs[k]).0 == key.0;
            if k < svcs.len() - 1 {
                assert(svcs.drop_last()[k].0 == key.0);
            }
        }
        if rollover_hist(hist0, checks, svcs, now).contains_key(key) && key != (
            svcs.last().0,
            day_start_spec(now) as u64,
        ) {
            if !hist0.contains_key(key) {
                let k = choose|k: int|
                    0 <= k < svcs.drop_last().len() && (#[trigger] svcs.drop_last()[k]).0 == key.0;
                assert(svcs[k].0 == key.0);
            }
        }
        if key == (svcs.last().0, day_start_spec(now) as u64) {
            assert(svcs[svcs.len() - 1].0 == key.0);
        }
    }
}

/// Aggregate the day containing `now` for every service of the run, in
/// order. The rollover fails with `DuplicateKey` — and stops at the
/// offending service — when some service's day was already aggregated.
pub fn run_rollover(storage: &mut Storage, services: &Vec<(u64, String)>, now: u64) -> (r: Result<
    (),
    StorageError,
>)
    requires
        old(storage).wf(),
        day_end_spec(now) <= u64::MAX,
        forall|i: int, j: int|
            0 <= i < j < services@.len() ==> (#[trigger] services@[i]).0 != (
            #[trigger] services@[j]).0,
    ensures
        final(storage).wf(),
        final(storage).checks() == old(storage).checks(),
        r.is_ok() <==> forall|k: int|
            0 <= k < services@.len() ==> !old(storage).hist().contains_key(
                ((#[trigger] services@[k]).0, day_start_spec(now) as u64),
            ),
        r matches Ok(()) ==> final(storage).hist() == rollover_hist(
            old(storage).hist(),
            old(storage).checks(),
            services@,
            now,
        ),
        r matches Err(e) ==> e == StorageError::DuplicateKey && exists|j: int|
            0 <= j < services@.len() && old(storage).hist().contains_key(
                ((#[trigger] services@[j]).0, day_start_spec(now) as u64),
            ) && (forall|k: int|
                0 <= k < j ==> !old(storage).hist().contains_key(
                    ((#[trigger] services@[k]).0, day_start_spec(now) as u64),
                )) && final(storage).hist() == rollover_hist(
                old(storage).hist(),
                old(storage).checks(),
                services@.take(j),
                now,
            ),
{
    let ghost h0 = storage.hist();
    let ghost c0 = storage.checks();
    let mut i: usize = 0;
    proof {
        assert(services@.take(0) =~= Seq::<(u64, String)>::empty());
    }
    while i < services.len()
        invariant
            storage.wf(),
            day_end_spec(now) <= u64::MAX,
            i <= services@.len(),
            forall|a: int, b: int|
                0 <= a < b < services@.len() ==> (#[trigger] services@[a]).0 != (
                #[trigger] services@[b]).0,
            storage.checks() == c0,
            c0 == old(storage).checks(),
            h0 == old(storage).hist(),
            storage.hist() == rollover_hist(h0, c0, services@.take(i as int), now),
            forall|k: int|
                0 <= k < i ==> !h0.contains_key(((#[trigger] services@[k]).0, day_start_spec(now) as u64)),
        decreases services@.len() - i,
    {
        let id = services[i].0;
        let ghost pre = storage.hist();
        proof {
            lemma_rollover_contains(h0, c0, services@.take(i as int), now, (id, day_start_spec(now) as u64));
        }
        match storage.convert_healthchecks_to_history(id, now) {
            Ok(()) => {
                proof {
                    assert(services@.take(i as int + 1).drop_last() =~= services@.take(i as int));
                    assert(services@.take(i as int + 1).last() == services@[i as int]);
                }
            },
            Err(e) => {
                proof {
                    assert(pre.contains_key((id, day_start_spec(now) as u64)));
                    assert(h0.contains_key((id, day_start_spec(now) as u64)));
                    assert(services@[i as int].0 == id);
                }
                return Err(e);
            },
        }
        i += 1;
    }
    proof {
        assert(services@.take(services@.len() as int) =~= services@);
    }
    Ok(())
}

} // verus!
