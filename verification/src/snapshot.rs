//! The servable summary of the monitored system: per-service latest status
//! and day-level uptime indicators, per-category grouping, and a per-server
//! operational status, rebuilt wholesale from storage on each refresh.

use vstd::prelude::*;
use crate::config::{Config, category_services, lemma_category_services_take};
use crate::storage::{Storage, day_start_spec, history_uptimes};
use crate::table::{has_entry, is_latest, latest_of};

verus! {

/// The whole summary handed to readers.
pub struct State {
    pub servers: Vec<Server>,
}

pub struct Server {
    pub title: Title,
    pub last_update: i64,
    pub categories: Vec<Category>,
}

pub struct Title {
    pub name: String,
    pub is_operational: i8,
}

pub struct Category {
    pub name: String,
    pub services: Vec<Service>,
}

pub struct Service {
    pub name: String,
    pub info: String,
    pub data_uptimes: Vec<i8>,
    pub status: i8,
}

/// Day-level uptime indicator for one service: `0` ("good") for `v >= 23`,
/// `1` ("degraded") for `0 < v < 23`, and `0` again for `v == 0`. The
/// asymmetry at `v == 0` is deliberate, preserved observed behaviour.
pub open spec fn uptime_indicator_spec(v: u64) -> i8 {
    if v >= 23 {
        0
    } else if v > 0 {
        1
    } else {
        0
    }
}

/// Map one day's aggregated uptime value to its 3-valued indicator.
pub fn uptime_indicator(v: u64) -> (r: i8)
    ensures
        r == uptime_indicator_spec(v),
{
    if v >= 23 {
        0
    } else if v > 0 {
        1
    } else {
        0
    }
}

/// Indicators for a run of day uptime values, oldest first.
pub open spec fn indicators_of(s: Seq<u64>) -> Seq<i8> {
    Seq::new(s.len(), |i: int| uptime_indicator_spec(s[i]))
}

/// Map each day uptime value of a run to its indicator.
pub fn uptime_indicators(values: &Vec<u64>) -> (r: Vec<i8>)
    ensures
        r@ == indicators_of(values@),
{
    let mut out: Vec<i8> = Vec::new();
    let mut i: usize = 0;
    while i < values.len()
        invariant
            i <= values@.len(),
            out@.len() == i,
            forall|j: int| 0 <= j < i ==> out@[j] == uptime_indicator_spec(values@[j]),
        decreases values@.len() - i,
    {
        out.push(uptime_indicator(values[i]));
        i += 1;
    }
    proof {
        assert(out@ =~= indicators_of(values@));
    }
    out
}

/// The latest status of each service of a run, in order; `None` for a
/// service with no record yet.
pub open spec fn latest_statuses(
    svcs: Seq<crate::config::Service>,
    checks: Map<(u64, u64), bool>,
) -> Seq<Option<bool>> {
    Seq::new(svcs.len(), |i: int| latest_of(checks, svcs[i].id))
}

/// How many of a run of latest statuses are successes.
pub open spec fn success_count(s: Seq<Option<bool>>) -> nat
    decreases s.len(),
{
    if s.len() == 0 {
        0
    } else {
        success_count(s.drop_last()) + (if s.last() == Some(true) {
            1nat
        } else {
            0nat
        })
    }
}

/// Per-server operational status: `0` ("unknown") with no services at all,
/// `2` ("operational") when every service's latest status is a success,
/// `1` ("degraded") otherwise — a failing or still-unchecked service counts
/// against full operation.
pub open spec fn operational_status_spec(s: Seq<Option<bool>>) -> i8 {
    if s.len() == 0 {
        0
    } else if success_count(s) == s.len() {
        2
    } else {
        1
    }
}

/// The status field one service reports: `1` for a passing latest check,
/// `0` for a failing one or for none.
pub open spec fn status_of(latest: Option<bool>) -> i8 {
    if latest == Some(true) {
        1
    } else {
        0
    }
}

/// Derive the operational status of a run of latest statuses.
pub fn operational_status(latests: &Vec<Option<bool>>) -> (r: i8)
    ensures
        r == operational_status_spec(latests@),
{
    let mut cnt: usize = 0;
    let mut i: usize = 0;
    while i < latests.len()
        invariant
            i <= latests@.len(),
            cnt <= i,
            cnt == success_count(latests@.take(i as int)),
        decreases latests@.len() - i,
    {
        let is_success = match latests[i] {
            Some(true) => true,
            _ => false,
        };
        proof {
            assert(latests@.take(i as int + 1).drop_last() =~= latests@.take(i as int));
            assert(latests@.take(i as int + 1).last() == latests@[i as int]);
        }
        if is_success {
            cnt += 1;
        }
        i += 1;
    }
    proof {
        assert(latests@.take(latests@.len() as int) =~= latests@);
    }
    if latests.len() == 0 {
        0
    } else if cnt == latests.len() {
        2
    } else {
        1
    }
}

/// Law: a server with no services is `0`; one whose services' latest
/// statuses are all successes is `2`; one with any failing or unchecked
/// service is `1`.
pub proof fn lemma_operational_status(s: Seq<Option<bool>>)
    ensures
        s.len() == 0 ==> operational_status_spec(s) == 0,
        (s.len() > 0 && forall|i: int| 0 <= i < s.len() ==> s[i] == Some(true))
            ==> operational_status_spec(s) == 2,
        (s.len() > 0 && exists|i: int| 0 <= i < s.len() && s[i] != Some(true))
            ==> operational_status_spec(s) == 1,
    decreases s.len(),
{
    if s.len() > 0 {
        lemma_operational_status(s.drop_last());
        lemma_success_count_le(s.drop_last());
        if forall|i: int| 0 <= i < s.len() ==> s[i] == Some(true) {
            assert forall|i: int| 0 <= i < s.drop_last().len() implies s.drop_last()[i] == Some(
                true,
            ) by {
                assert(s.drop_last()[i] == s[i]);
            }
            if s.drop_last().len() > 0 {
                assert(success_count(s.drop_last()) == s.drop_last().len());
            }
            assert(s.last() == s[s.len() - 1]);
        }
        if exists|i: int| 0 <= i < s.len() && s[i] != Some(true) {
            let i = choose|i: int| 0 <= i < s.len() && s[i] != Some(true);
            if i < s.len() - 1 {
                assert(s.drop_last()[i] != Some(true));
                assert(success_count(s.drop_last()) < s.drop_last().len()) by {
                    if success_count(s.drop_last()) == s.drop_last().len() {
                        lemma_success_count_full(s.drop_last());
                    }
                }
            }
            assert(success_count(s) < s.len());
        }
    }
}

/// A run's success count never exceeds its length.
pub proof fn lemma_success_count_le(s: Seq<Option<bool>>)
    ensures
        success_count(s) <= s.len(),
    decreases s.len(),
{
    if s.len() > 0 {
        lemma_success_count_le(s.drop_last());
    }
}

/// A run whose success count equals its length holds successes only.
pub proof fn lemma_success_count_full(s: Seq<Option<bool>>)
    requires
        success_count(s) == s.len(),
    ensures
        forall|i: int| 0 <= i < s.len() ==> s[i] == Some(true),
    decreases s.len(),
{
    if s.len() > 0 {
        lemma_success_count_le(s.drop_last());
        assert(success_count(s.drop_last()) == s.drop_last().len());
        lemma_success_count_full(s.drop_last());
        assert forall|i: int| 0 <= i < s.len() implies s[i] == Some(true) by {
            if i < s.len() - 1 {
                assert(s.drop_last()[i] == Some(true));
            } else {
                assert(s.last() == Some(true));
            }
        }
    }
}

/// One summarized service matches its configuration and the stored data.
pub open spec fn service_ok(
    s: Service,
    c: crate::config::Service,
    checks: Map<(u64, u64), bool>,
    hist: Map<(u64, u64), u64>,
    now: u64,
) -> bool {
    &&& s.name@ == c.name@
    &&& s.info@ == c.info@
    &&& s.status == status_of(latest_of(checks, c.id))
    &&& s.data_uptimes@ == indicators_of(history_uptimes(hist, c.id, day_start_spec(now), 180))
}

/// One summarized category matches its configuration and the stored data.
pub open spec fn category_ok(
    k: Category,
    c: crate::config::Category,
    checks: Map<(u64, u64), bool>,
    hist: Map<(u64, u64), u64>,
    now: u64,
) -> bool {
    &&& k.name@ == c.name@
    &&& k.services@.len() == c.services@.len()
    &&& forall|i: int|
        0 <= i < c.services@.len() ==> service_ok(
            #[trigger] k.services@[i],
            c.services@[i],
            checks,
            hist,
            now,
        )
}

/// One summarized server matches its configuration and the stored data.
pub open spec fn server_ok(
    v: Server,
    c: crate::config::Server,
    checks: Map<(u64, u64), bool>,
    hist: Map<(u64, u64), u64>,
    now: u64,
) -> bool {
    &&& v.title.name@ == c.name@
    &&& v.title.is_operational == operational_status_spec(
        latest_statuses(category_services(c.categories@), checks),
    )
    &&& v.last_update == now as i64
    &&& v.categories@.len() == c.categories@.len()
    &&& forall|i: int|
        0 <= i < c.categories@.len() ==> category_ok(
            #[trigger] v.categories@[i],
            c.categories@[i],
            checks,
            hist,
            now,
        )
}

/// The whole summary matches the configuration and the stored data.
pub open spec fn state_ok(
    st: State,
    c: Config,
    checks: Map<(u64, u64), bool>,
    hist: Map<(u64, u64), u64>,
    now: u64,
) -> bool {
    &&& st.servers@.len() == c.servers@.len()
    &&& forall|i: int|
        0 <= i < c.servers@.len() ==> server_ok(
            #[trigger] st.servers@[i],
            c.servers@[i],
            checks,
            hist,
            now,
        )
}

/// Rebuild the whole summary from storage: for every configured service its
/// latest status and its recent days' indicators, and for every server the
/// operational status over all its services' latest statuses.
pub fn build_state(config: &Config, storage: &Storage, now: u64) -> (st: State)
    requires
        storage.wf(),
    ensures
        state_ok(st, *config, storage.checks(), storage.hist(), now),
{
    let ghost checks = storage.checks();
    let ghost hist = storage.hist();
    let mut servers: Vec<Server> = Vec::new();
    let mut si: usize = 0;
    while si < config.servers.len()
        invariant
            storage.wf(),
            checks == storage.checks(),
            hist == storage.hist(),
            si <= config.servers@.len(),
            servers@.len() == si as int,
            forall|i: int|
                0 <= i < si ==> server_ok(
                    #[trigger] servers@[i],
                    config.servers@[i],
                    checks,
                    hist,
                    now,
                ),
        decreases config.servers@.len() - si,
    {
        let server = &config.servers[si];
        let mut categories: Vec<Category> = Vec::new();
        let mut latests: Vec<Option<bool>> = Vec::new();
        let mut ci: usize = 0;
        proof {
            assert(server.categories@.take(0) =~= Seq::<crate::config::Category>::empty());
            assert(latests@ =~= latest_statuses(
                category_services(server.categories@.take(0)),
                checks,
            ));
        }
        while ci < server.categories.len()
            invariant
                storage.wf(),
                checks == storage.checks(),
                hist == storage.hist(),
                server == &config.servers@[si as int],
                si < config.servers@.len(),
                ci <= server.categories@.len(),
                categories@.len() == ci as int,
                forall|i: int|
                    0 <= i < ci ==> category_ok(
                        #[trigger] categories@[i],
                        server.categories@[i],
                        checks,
                        hist,
                        now,
                    ),
                latests@ == latest_statuses(
                    category_services(server.categories@.take(ci as int)),
                    checks,
                ),
            decreases server.categories@.len() - ci,
        {
            let category = &server.categories[ci];
            let mut services: Vec<Service> = Vec::new();
            let mut vi: usize = 0;
            proof {
                assert(category.services@.take(0) =~= Seq::<crate::config::Service>::empty());
                assert(category_services(server.categories@.take(ci as int))
                    + category.services@.take(0) =~= category_services(
                    server.categories@.take(ci as int),
                ));
            }
            while vi < category.services.len()
                invariant
                    storage.wf(),
                    checks == storage.checks(),
                    hist == storage.hist(),
                    server == &config.servers@[si as int],
                    si < config.servers@.len(),
                    category == &server.categories@[ci as int],
                    ci < server.categories@.len(),
                    vi <= category.services@.len(),
                    services@.len() == vi as int,
                    forall|i: int|
                        0 <= i < vi ==> service_ok(
                            #[trigger] services@[i],
                            category.services@[i],
                            checks,
                            hist,
                            now,
                        ),
                    latests@ == latest_statuses(
                        category_services(server.categories@.take(ci as int))
                            + category.services@.take(vi as int),
                        checks,
                    ),
                decreases category.services@.len() - vi,
            {
                let svc = &category.services[vi];
                let latest = match storage.latest_healthcheck(svc.id) {
                    Ok(b) => Some(b),
                    Err(_) => None,
                };
                proof {
                    if latest_of(checks, svc.id).is_some() && !has_entry(checks, svc.id) {
                        let t = choose|ts: u64| is_latest(checks, svc.id, ts);
                        assert(checks.contains_key((svc.id, t)));
                    }
                    assert(latest == latest_of(checks, svc.id));
                }
                let status: i8 = match latest {
                    Some(true) => 1,
                    _ => 0,
                };
                let history_vals = match storage.fetch_history(svc.id, 180, now) {
                    Ok(v) => v,
                    Err(_) => Vec::new(),
                };
                let data_uptimes = uptime_indicators(&history_vals);
                services.push(
                    Service { name: svc.name.clone(), info: svc.info.clone(), data_uptimes, status },
                );
                latests.push(latest);
                proof {
                    let base = category_services(server.categories@.take(ci as int));
                    assert(base + category.services@.take(vi as int + 1) =~= (base
                        + category.services@.take(vi as int)).push(
                        category.services@[vi as int],
                    ));
                    assert(latests@ =~= latest_statuses(
                        base + category.services@.take(vi as int + 1),
                        checks,
                    ));
                }
                vi += 1;
            }
            let cat_name = category.name.clone();
            proof {
                assert(category.services@.take(category.services@.len() as int)
                    =~= category.services@);
                lemma_category_services_take(server.categories@, ci as int);
            }
            categories.push(Category { name: cat_name, services });
            ci += 1;
        }
        proof {
            assert(server.categories@.take(server.categories@.len() as int)
                =~= server.categories@);
        }
        let status = operational_status(&latests);
        servers.push(
            Server {
                title: Title { name: server.name.clone(), is_operational: status },
                last_update: now as i64,
                categories,
            },
        );
        si += 1;
    }
    State { servers }
}

} // verus!
