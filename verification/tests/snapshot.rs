use uptime_monitor::config::{Category, Config, Server, Service};
use uptime_monitor::snapshot::{build_state, operational_status, uptime_indicator, uptime_indicators};
use uptime_monitor::storage::{Storage, StorageError};

const DAY: u64 = 86400;
const MIN: u64 = 60;

fn demo_config() -> Config {
    Config {
        port: 8080,
        database: String::from("monitor.db"),
        servers: vec![Server {
            name: String::from("main"),
            categories: vec![Category {
                name: String::from("web"),
                services: vec![
                    Service {
                        id: 1,
                        name: String::from("alpha"),
                        info: String::from("first"),
                        command: String::from("true"),
                    },
                    Service {
                        id: 2,
                        name: String::from("beta"),
                        info: String::from("second"),
                        command: String::from("false"),
                    },
                    Service {
                        id: 3,
                        name: String::from("gamma"),
                        info: String::from("third"),
                        command: String::from("true"),
                    },
                ],
            }],
        }],
    }
}

#[test]
fn uptime_indicator_reproduces_asymmetry() {
    assert_eq!(uptime_indicator(0), 0);
    assert_eq!(uptime_indicator(1), 1);
    assert_eq!(uptime_indicator(22), 1);
    assert_eq!(uptime_indicator(23), 0);
    assert_eq!(uptime_indicator(24), 0);
    assert_eq!(uptime_indicator(1440), 0);
}

#[test]
fn uptime_indicators_map_each_day() {
    let vals: Vec<u64> = vec![0, 5, 23, 1440, 22];
    assert_eq!(uptime_indicators(&vals), vec![0, 1, 0, 0, 1]);
}

#[test]
fn operational_status_of_no_services_is_unknown() {
    assert_eq!(operational_status(&vec![]), 0);
}

#[test]
fn operational_status_of_all_successes_is_operational() {
    assert_eq!(operational_status(&vec![Some(true)]), 2);
    assert_eq!(operational_status(&vec![Some(true), Some(true), Some(true)]), 2);
}

#[test]
fn operational_status_of_mixed_statuses_is_degraded() {
    assert_eq!(operational_status(&vec![Some(true), Some(false)]), 1);
    assert_eq!(operational_status(&vec![Some(false)]), 1);
    assert_eq!(operational_status(&vec![Some(true), None]), 1);
}

#[test]
fn end_to_end_three_services() {
    let config = demo_config();
    let mut s = Storage::new();
    let day0 = 100 * DAY;

    // alpha: 24 successes today; beta: 24 failures; gamma: no record yet
    for i in 1..=24u64 {
        s.insert_healthcheck(1, day0 + i * MIN, true).unwrap();
        s.insert_healthcheck(2, day0 + i * MIN, false).unwrap();
    }
    assert_eq!(s.latest_healthcheck(3), Err(StorageError::NotFound));

    s.convert_healthchecks_to_history(1, day0 + 25 * MIN).unwrap();
    s.convert_healthchecks_to_history(2, day0 + 25 * MIN).unwrap();

    // read the summary the next day
    let now = day0 + DAY + 30;
    let st = build_state(&config, &s, now);

    assert_eq!(st.servers.len(), 1);
    let server = &st.servers[0];
    assert_eq!(server.title.name, "main");
    // beta failing and gamma unchecked: not all services pass
    assert_eq!(server.title.is_operational, 1);
    assert_eq!(server.last_update, now as i64);
    assert_eq!(server.categories.len(), 1);
    let services = &server.categories[0].services;
    assert_eq!(services.len(), 3);

    assert_eq!(services[0].name, "alpha");
    assert_eq!(services[0].info, "first");
    assert_eq!(services[0].status, 1);
    // uptime 24 maps to the "good" indicator
    assert_eq!(services[0].data_uptimes, vec![0]);

    assert_eq!(services[1].name, "beta");
    assert_eq!(services[1].status, 0);
    // uptime 0 maps to the "good" indicator too, by the documented asymmetry
    assert_eq!(services[1].data_uptimes, vec![0]);

    assert_eq!(services[2].name, "gamma");
    assert_eq!(services[2].status, 0);
    assert_eq!(services[2].data_uptimes, vec![]);
}

#[test]
fn build_state_with_all_passing_is_operational() {
    let config = demo_config();
    let mut s = Storage::new();
    let t = 7 * DAY + 3 * MIN;
    s.insert_healthcheck(1, t, true).unwrap();
    s.insert_healthcheck(2, t, true).unwrap();
    s.insert_healthcheck(3, t, true).unwrap();
    let st = build_state(&config, &s, t + MIN);
    assert_eq!(st.servers[0].title.is_operational, 2);
    assert_eq!(st.servers[0].categories[0].services[0].status, 1);
    assert_eq!(st.servers[0].categories[0].services[1].status, 1);
    assert_eq!(st.servers[0].categories[0].services[2].status, 1);
}

#[test]
fn build_state_with_partial_day_shows_degraded_indicator() {
    let config = demo_config();
    let mut s = Storage::new();
    let day0 = 200 * DAY;
    for i in 1..=5u64 {
        s.insert_healthcheck(1, day0 + i * MIN, true).unwrap();
    }
    s.convert_healthchecks_to_history(1, day0).unwrap();
    let st = build_state(&config, &s, day0 + DAY);
    // five successful minutes of a day: below the threshold, "degraded"
    assert_eq!(st.servers[0].categories[0].services[0].data_uptimes, vec![1]);
}
