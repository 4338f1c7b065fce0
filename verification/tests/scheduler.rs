use uptime_monitor::config::{Category, Config, Server, Service};
use uptime_monitor::storage::{Storage, StorageError};
use uptime_monitor::uptime::{record_results, run_rollover, Uptime};

const DAY: u64 = 86400;
const MIN: u64 = 60;

fn two_server_config() -> Config {
    Config {
        port: 9000,
        database: String::from("monitor.db"),
        servers: vec![
            Server {
                name: String::from("edge"),
                categories: vec![
                    Category {
                        name: String::from("web"),
                        services: vec![
                            Service {
                                id: 10,
                                name: String::from("site"),
                                info: String::from(""),
                                command: String::from("curl-site"),
                            },
                            Service {
                                id: 11,
                                name: String::from("api"),
                                info: String::from(""),
                                command: String::from("curl-api"),
                            },
                        ],
                    },
                    Category {
                        name: String::from("mail"),
                        services: vec![Service {
                            id: 12,
                            name: String::from("smtp"),
                            info: String::from(""),
                            command: String::from("probe-smtp"),
                        }],
                    },
                ],
            },
            Server {
                name: String::from("core"),
                categories: vec![Category {
                    name: String::from("db"),
                    services: vec![Service {
                        id: 20,
                        name: String::from("postgres"),
                        info: String::from(""),
                        command: String::from("pg-ping"),
                    }],
                }],
            },
        ],
    }
}

#[test]
fn create_flattens_services_in_order() {
    let config = two_server_config();
    let u = Uptime::create(&config, 12345);
    let pairs: Vec<(u64, String)> = u.services;
    assert_eq!(pairs.len(), 4);
    assert_eq!(pairs[0], (10, String::from("curl-site")));
    assert_eq!(pairs[1], (11, String::from("curl-api")));
    assert_eq!(pairs[2], (12, String::from("probe-smtp")));
    assert_eq!(pairs[3], (20, String::from("pg-ping")));
}

#[test]
fn create_aims_at_next_minute_boundary() {
    let config = two_server_config();
    assert_eq!(Uptime::create(&config, 12345).next_healthcheck, 12360);
    assert_eq!(Uptime::create(&config, 12360).next_healthcheck, 12420);
}

#[test]
fn step_before_due_time_does_nothing() {
    let config = two_server_config();
    let mut u = Uptime::create(&config, 50 * DAY);
    let act = u.step(50 * DAY + 30);
    assert!(!act.run_checks);
    assert!(!act.aggregate);
    assert_eq!(act.long_sleep, 0);
    assert_eq!(u.next_healthcheck, 50 * DAY + MIN);
}

#[test]
fn step_at_due_time_advances_one_minute_only() {
    let config = two_server_config();
    let mut u = Uptime::create(&config, 50 * DAY);
    // the wake comes late, several periods past due: one advance only,
    // missed minutes are skipped
    let act = u.step(50 * DAY + 5 * MIN);
    assert!(act.run_checks);
    assert!(!act.aggregate);
    assert_eq!(u.next_healthcheck, 50 * DAY + 2 * MIN);
}

#[test]
fn step_past_day_boundary_aggregates_and_sleeps() {
    let config = two_server_config();
    let mut u = Uptime::create(&config, 50 * DAY + 86280);
    // the last check of the day fires, the due time crosses midnight
    let act = u.step(50 * DAY + 86340);
    assert!(act.run_checks);
    assert!(act.aggregate);
    assert_eq!(u.next_healthcheck, 51 * DAY);
    // quiet until one second past the boundary
    assert_eq!(act.long_sleep, 61);
}

#[test]
fn record_results_stores_one_record_per_service() {
    let mut s = Storage::new();
    let services = vec![(1u64, String::from("a")), (2u64, String::from("b"))];
    let results = vec![true, false];
    record_results(&mut s, &services, &results, 5 * MIN).unwrap();
    assert_eq!(s.latest_healthcheck(1), Ok(true));
    assert_eq!(s.latest_healthcheck(2), Ok(false));
}

#[test]
fn record_results_for_same_minute_twice_fails() {
    let mut s = Storage::new();
    let services = vec![(1u64, String::from("a")), (2u64, String::from("b"))];
    let results = vec![true, false];
    record_results(&mut s, &services, &results, 5 * MIN).unwrap();
    let r = record_results(&mut s, &services, &results, 5 * MIN);
    assert_eq!(r, Err(StorageError::DuplicateKey));
}

#[test]
fn run_rollover_aggregates_every_service() {
    let mut s = Storage::new();
    let day0 = 60 * DAY;
    let services = vec![(1u64, String::from("a")), (2u64, String::from("b"))];
    s.insert_healthcheck(1, day0 + MIN, true).unwrap();
    s.insert_healthcheck(1, day0 + 2 * MIN, true).unwrap();
    s.insert_healthcheck(2, day0 + MIN, false).unwrap();
    run_rollover(&mut s, &services, day0 + 3 * MIN).unwrap();
    assert_eq!(s.fetch_history(1, 7, day0 + DAY), Ok(vec![2]));
    assert_eq!(s.fetch_history(2, 7, day0 + DAY), Ok(vec![0]));
}

#[test]
fn run_rollover_of_an_aggregated_day_fails() {
    let mut s = Storage::new();
    let day0 = 60 * DAY;
    let services = vec![(1u64, String::from("a"))];
    run_rollover(&mut s, &services, day0).unwrap();
    let r = run_rollover(&mut s, &services, day0 + 3600);
    assert_eq!(r, Err(StorageError::DuplicateKey));
}
