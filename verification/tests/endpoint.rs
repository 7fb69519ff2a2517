use warp_socks::endpoint::source::{
    candidate_pool, dedup_preserve_order, normalize_endpoint, plan_candidates, plan_candidates_at,
};
use warp_socks::endpoint::state::{JsonFileEndpointStore, State};

fn store() -> JsonFileEndpointStore {
    JsonFileEndpointStore::load("endpoint-state.json".to_string(), None).0
}

#[test]
fn normalizes_host_port_and_defaults_port() {
    assert_eq!(normalize_endpoint("1.1.1.1:2408").as_deref(), Some("1.1.1.1:2408"));
    assert_eq!(normalize_endpoint("1.1.1.1").as_deref(), Some("1.1.1.1:2408"));
    assert_eq!(
        normalize_endpoint("[2606:4700::1111]:2408").as_deref(),
        Some("[2606:4700::1111]:2408")
    );
    assert_eq!(normalize_endpoint("  "), None);
    assert_eq!(normalize_endpoint("host:0"), None);
}

#[test]
fn plan_candidates_puts_last_good_first_and_cooling_down_last() {
    let pool = candidate_pool("1.1.1.1:2408,2.2.2.2:2408,3.3.3.3:2408");
    let mut store = store();
    store.record_success("3.3.3.3:2408");
    store.mark_cooldown("1.1.1.1:2408", 60);

    let plan = plan_candidates(pool, &store);
    assert_eq!(plan, vec!["3.3.3.3:2408", "2.2.2.2:2408", "1.1.1.1:2408"]);
}

#[test]
fn record_success_clears_cooldown_and_becomes_last_good() {
    let mut store = store();
    assert_eq!(store.path, "endpoint-state.json");

    store.mark_cooldown("1.1.1.1:2408", 60);
    assert!(store.is_cooling_down("1.1.1.1:2408"));

    store.record_success("1.1.1.1:2408");
    assert!(!store.is_cooling_down("1.1.1.1:2408"));
    assert_eq!(store.last_good().as_deref(), Some("1.1.1.1:2408"));
}

#[test]
fn reloading_prunes_expired_cooldowns() {
    let mut store = store();
    store.mark_cooldown("1.1.1.1:2408", 0);

    let saved = State::from_entries(String::new(), &store.state.entries());
    let reloaded = JsonFileEndpointStore::load("endpoint-state.json".to_string(), Some(saved)).0;
    assert!(!reloaded.is_cooling_down("1.1.1.1:2408"));
}

#[test]
fn other_shapes_of_endpoints() {
    assert_eq!(normalize_endpoint(" host:99 ").as_deref(), Some("host:99"));
    assert_eq!(normalize_endpoint("[::1]").as_deref(), Some("[::1]:2408"));
    assert_eq!(normalize_endpoint("[::1]:").as_deref(), Some("[::1]:2408"));
    assert_eq!(normalize_endpoint("[host]:1").as_deref(), Some("host:1"));
    assert_eq!(normalize_endpoint("host:").as_deref(), Some("host:2408"));
    assert_eq!(normalize_endpoint("host:65535").as_deref(), Some("host:65535"));
    assert_eq!(normalize_endpoint("host:65536"), None);
    assert_eq!(normalize_endpoint("host:x"), None);
    assert_eq!(normalize_endpoint(":80"), None);
    assert_eq!(normalize_endpoint("[]:80"), None);
    assert_eq!(normalize_endpoint("[::1"), None);
    // Without brackets the last colon separates the port.
    assert_eq!(normalize_endpoint("a:b:7").as_deref(), Some("[a:b]:7"));
}

#[test]
fn normalizing_twice_changes_nothing() {
    for raw in ["1.1.1.1", "[2606:4700::1111]", "host:1", "a:b:7"] {
        let once = normalize_endpoint(raw).unwrap();
        assert_eq!(normalize_endpoint(&once).as_deref(), Some(once.as_str()));
    }
}

#[test]
fn pool_falls_back_to_the_built_in_candidates() {
    let pool = candidate_pool(" , host:0,");
    assert_eq!(pool.len(), 8);
    assert_eq!(pool[0], "162.159.193.5:2408");
    assert_eq!(pool[7], "162.159.195.1:2408");
    assert_eq!(candidate_pool("a,b:1,a:2408,,b:1"), vec!["a:2408", "b:1"]);
}

#[test]
fn dedup_keeps_the_first_of_each() {
    let items: Vec<String> = ["b", "a", "b", "c", "a"].iter().map(|s| s.to_string()).collect();
    assert_eq!(dedup_preserve_order(&items), vec!["b", "a", "c"]);
}

#[test]
fn cooldowns_last_as_long_as_they_were_given() {
    let mut store = store();
    store.mark_cooldown_at("e", 60, 1000);
    assert_eq!(store.remaining_at("e", 1000), 60);
    assert_eq!(store.remaining_at("e", 1059), 1);
    assert_eq!(store.remaining_at("e", 1060), 0);
    assert_eq!(store.remaining_at("f", 1000), 0);
    store.mark_cooldown_at("e", 5, u64::MAX - 1);
    assert_eq!(store.remaining_at("e", u64::MAX - 1), 1);
}

#[test]
fn clock_is_read_for_the_remaining_time() {
    let mut store = store();
    store.mark_cooldown("e", 600);
    let left = store.cooldown_remaining("e");
    assert!(left > 590 && left <= 600);
    assert_eq!(store.cooldown_remaining("f"), 0);
}

#[test]
fn pruning_drops_only_what_has_ended() {
    let entries = vec![("a".to_string(), 10), ("b".to_string(), 20), ("c".to_string(), 30)];
    let state = State::from_entries("a".to_string(), &entries);
    let (mut store, save) = JsonFileEndpointStore::load_at("p".to_string(), Some(state), 20);
    assert!(save);
    assert_eq!(store.state.entries(), vec![("c".to_string(), 30)]);
    assert_eq!(store.last_good().as_deref(), Some("a"));
    assert!(!store.prune_at(29));
    assert!(store.prune_at(30));
    assert_eq!(store.state.entries(), vec![]);
}

#[test]
fn file_is_written_at_first_and_after_pruning() {
    let (empty, save) = JsonFileEndpointStore::load_at("p".to_string(), None, 0);
    assert!(save);
    assert_eq!(empty.last_good(), None);
    let state = State::from_entries(String::new(), &vec![("a".to_string(), 10)]);
    let (_, save) = JsonFileEndpointStore::load_at("p".to_string(), Some(state), 9);
    assert!(!save);
    let (_, save) = JsonFileEndpointStore::load_at("p".to_string(), Some(State::default()), 9);
    assert!(!save);
}

#[test]
fn later_entries_win() {
    let entries = vec![("a".to_string(), 10), ("a".to_string(), 20)];
    let state = State::from_entries(String::new(), &entries);
    assert_eq!(state.entries(), vec![("a".to_string(), 20)]);
}

#[test]
fn plan_tries_each_candidate_once() {
    let mut store = store();
    store.record_success("z:1");
    store.mark_cooldown_at("z:1", 10, 100);
    store.mark_cooldown_at("b:1", 10, 100);
    let pool: Vec<String> = ["a:1", "b:1", "a:1", "c:1"].iter().map(|s| s.to_string()).collect();
    assert_eq!(plan_candidates_at(pool.clone(), &store, 105), vec!["a:1", "c:1", "z:1", "b:1"]);
    assert_eq!(plan_candidates_at(pool, &store, 110), vec!["z:1", "a:1", "b:1", "c:1"]);
}
