use uptime_monitor::cache::StateCache;
use uptime_monitor::config::{Category, Config, Server, Service};
use uptime_monitor::storage::Storage;

const DAY: u64 = 86400;
const MIN: u64 = 60;

fn one_service_config() -> Config {
    Config {
        port: 8080,
        database: String::from("monitor.db"),
        servers: vec![Server {
            name: String::from("main"),
            categories: vec![Category {
                name: String::from("web"),
                services: vec![Service {
                    id: 1,
                    name: String::from("alpha"),
                    info: String::from(""),
                    command: String::from("true"),
                }],
            }],
        }],
    }
}

#[test]
fn fresh_cache_refreshes_on_first_read() {
    let config = one_service_config();
    let s = Storage::new();
    let mut cache = StateCache::new();
    assert!(cache.get_state(&config, &s, 100 * DAY));
    assert_eq!(cache.last_update, 100 * DAY);
    assert_eq!(cache.state.servers.len(), 1);
}

#[test]
fn read_within_bound_serves_cached_content_unchanged() {
    let config = one_service_config();
    let mut s = Storage::new();
    s.insert_healthcheck(1, 100 * DAY + MIN, true).unwrap();
    let mut cache = StateCache::new();

    let t1 = 100 * DAY + 2 * MIN;
    assert!(cache.get_state(&config, &s, t1));
    assert_eq!(cache.state.servers[0].categories[0].services[0].status, 1);
    assert_eq!(cache.state.servers[0].title.is_operational, 2);

    // storage mutated: the service now fails
    s.insert_healthcheck(1, t1 + 30, false).unwrap();

    // a second read 60 seconds later still serves the old summary
    assert!(!cache.get_state(&config, &s, t1 + 60));
    assert_eq!(cache.state.servers[0].categories[0].services[0].status, 1);
    assert_eq!(cache.state.servers[0].title.is_operational, 2);
    assert_eq!(cache.state.servers[0].last_update, t1 as i64);
    assert_eq!(cache.last_update, t1);
}

#[test]
fn read_past_bound_reflects_the_mutation() {
    let config = one_service_config();
    let mut s = Storage::new();
    s.insert_healthcheck(1, 100 * DAY + MIN, true).unwrap();
    let mut cache = StateCache::new();

    let t1 = 100 * DAY + 2 * MIN;
    assert!(cache.get_state(&config, &s, t1));
    s.insert_healthcheck(1, t1 + 30, false).unwrap();

    assert!(cache.get_state(&config, &s, t1 + 61));
    assert_eq!(cache.state.servers[0].categories[0].services[0].status, 0);
    assert_eq!(cache.state.servers[0].title.is_operational, 1);
    assert_eq!(cache.last_update, t1 + 61);
}

#[test]
fn clock_moving_backwards_forces_a_refresh() {
    let config = one_service_config();
    let s = Storage::new();
    let mut cache = StateCache::new();
    let t1 = 100 * DAY;
    assert!(cache.get_state(&config, &s, t1));
    assert!(cache.get_state(&config, &s, t1 - 1));
    assert_eq!(cache.last_update, t1 - 1);
}
