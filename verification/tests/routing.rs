use larql::grid::entry::ServerEntry;
use larql::grid::routing::compare_servers_for_route;
use larql::grid::state::GridState;
use larql::metric::Metric;
use larql::rebalancer::Span;
use std::collections::HashMap;

fn metric(x: f32) -> Metric {
    Metric { bits: x.to_bits() }
}

fn entry(id: &str, url: &str, model: &str, start: u32, end: u32) -> ServerEntry {
    ServerEntry {
        server_id: id.into(),
        listen_url: url.into(),
        model_id: model.into(),
        layer_start: start,
        layer_end: end,
        vindex_hash: String::new(),
        cpu_pct: metric(0.0),
        ram_used: 0,
        requests_in_flight: 0,
        last_seen: Span::from_secs(0),
        layer_latencies: HashMap::new(),
        req_per_sec: metric(0.0),
        rtt_ms: None,
    }
}

#[test]
fn route_uses_inclusive_layer_ranges() {
    let mut state = GridState::default();
    state.register(entry("a", "http://a", "model-a", 0, 2));
    state.register(entry("b", "http://b", "model-a", 3, 5));

    assert_eq!(state.route(Some("model-a"), 0).as_deref(), Some("http://a"));
    assert_eq!(state.route(Some("model-a"), 2).as_deref(), Some("http://a"));
    assert_eq!(state.route(Some("model-a"), 3).as_deref(), Some("http://b"));
    assert_eq!(state.route(Some("model-a"), 5).as_deref(), Some("http://b"));
    assert_eq!(state.route(Some("model-a"), 6), None);
}

#[test]
fn route_without_model_uses_any_model_table() {
    let mut state = GridState::default();
    state.register(entry("a", "http://a", "model-a", 0, 1));

    assert_eq!(state.route(None, 1).as_deref(), Some("http://a"));
    assert_eq!(state.route(None, 2), None);
}

#[test]
fn route_prefers_least_loaded_replica() {
    let mut state = GridState::default();
    let mut busy = entry("busy", "http://busy", "model-a", 0, 4);
    busy.requests_in_flight = 12;
    let mut idle = entry("idle", "http://idle", "model-a", 0, 4);
    idle.requests_in_flight = 1;

    state.register(busy);
    state.register(idle);

    assert_eq!(
        state.route(Some("model-a"), 3).as_deref(),
        Some("http://idle")
    );
}

#[test]
fn route_all_returns_first_uncovered_layer() {
    let mut state = GridState::default();
    state.register(entry("a", "http://a", "model-a", 0, 1));
    state.register(entry("b", "http://b", "model-a", 3, 4));

    assert_eq!(state.route_all(Some("model-a"), &[0, 1, 2, 3]), Err(2));
}

#[test]
fn route_prefers_lower_layer_latency_over_inflight() {
    let mut state = GridState::default();
    let mut slow = entry("slow", "http://slow", "model-a", 0, 4);
    slow.requests_in_flight = 2;
    slow.layer_latencies.insert(2, (metric(50.0), metric(80.0)));

    let mut fast = entry("fast", "http://fast", "model-a", 0, 4);
    fast.requests_in_flight = 8;
    fast.layer_latencies.insert(2, (metric(5.0), metric(9.0)));

    state.register(slow);
    state.register(fast);

    assert_eq!(
        state.route(Some("model-a"), 2).as_deref(),
        Some("http://fast")
    );
}

#[test]
fn compare_uses_gt3_latency_when_both_replicas_have_it() {
    let mut fast = entry("fast", "http://fast", "m", 0, 4);
    fast.layer_latencies.insert(2, (metric(5.0), metric(10.0)));
    fast.rtt_ms = Some(metric(100.0));
    let mut slow = entry("slow", "http://slow", "m", 0, 4);
    slow.layer_latencies.insert(2, (metric(50.0), metric(80.0)));
    slow.rtt_ms = Some(metric(1.0));
    assert_eq!(
        compare_servers_for_route(&fast, &slow, 2),
        std::cmp::Ordering::Less,
        "GT3 latency must beat RTT when both replicas have layer stats"
    );
}

#[test]
fn compare_falls_through_to_rtt_when_no_gt3() {
    let mut close = entry("close", "http://close", "m", 0, 4);
    close.rtt_ms = Some(metric(1.5));
    close.requests_in_flight = 9;
    let mut far = entry("far", "http://far", "m", 0, 4);
    far.rtt_ms = Some(metric(30.0));
    far.requests_in_flight = 1;
    assert_eq!(
        compare_servers_for_route(&close, &far, 2),
        std::cmp::Ordering::Less,
    );
}

#[test]
fn compare_prefers_replica_with_rtt_data_over_unprobed() {
    let mut probed = entry("probed", "http://p", "m", 0, 4);
    probed.rtt_ms = Some(metric(10.0));
    let unprobed = entry("unprobed", "http://u", "m", 0, 4);
    assert_eq!(
        compare_servers_for_route(&probed, &unprobed, 2),
        std::cmp::Ordering::Less,
    );
    assert_eq!(
        compare_servers_for_route(&unprobed, &probed, 2),
        std::cmp::Ordering::Greater,
    );
}

#[test]
fn compare_falls_through_to_requests_in_flight_when_no_latency_no_rtt() {
    let mut idle = entry("idle", "http://idle", "m", 0, 4);
    idle.requests_in_flight = 1;
    let mut busy = entry("busy", "http://busy", "m", 0, 4);
    busy.requests_in_flight = 8;
    assert_eq!(
        compare_servers_for_route(&idle, &busy, 2),
        std::cmp::Ordering::Less,
    );
}

#[test]
fn compare_counts_what_is_not_a_number_as_equal() {
    let mut a = entry("a", "http://a", "m", 0, 4);
    a.layer_latencies.insert(2, (metric(f32::NAN), metric(1.0)));
    let mut b = entry("b", "http://b", "m", 0, 4);
    b.layer_latencies.insert(2, (metric(5.0), metric(1.0)));
    b.requests_in_flight = 9;
    assert_eq!(
        compare_servers_for_route(&a, &b, 2),
        std::cmp::Ordering::Equal
    );
    assert_eq!(
        compare_servers_for_route(&b, &a, 2),
        std::cmp::Ordering::Equal
    );
}

#[test]
fn models_are_kept_apart() {
    let mut state = GridState::default();
    state.register(entry("a", "http://a", "model-a", 0, 4));
    let mut b = entry("b", "http://b", "model-b", 3, 9);
    b.rtt_ms = Some(metric(1.0));
    state.register(b);

    assert_eq!(state.route(Some("model-a"), 3).as_deref(), Some("http://a"));
    assert_eq!(state.route(Some("model-b"), 3).as_deref(), Some("http://b"));
    assert_eq!(state.route(Some("model-b"), 0), None);
    assert_eq!(state.route(Some("model-c"), 0), None);
    assert_eq!(state.route(None, 3).as_deref(), Some("http://b"));
}

#[test]
fn a_server_that_joins_again_replaces_itself() {
    let mut state = GridState::default();
    state.register(entry("a", "http://old", "model-a", 0, 4));
    state.register(entry("a", "http://new", "model-b", 5, 6));

    assert_eq!(state.servers.len(), 1);
    assert_eq!(state.route(None, 0), None);
    assert_eq!(state.route(Some("model-b"), 5).as_deref(), Some("http://new"));
}

#[test]
fn route_all_plans_every_layer() {
    let mut state = GridState::default();
    state.register(entry("a", "http://a", "model-a", 0, 1));
    state.register(entry("b", "http://b", "model-a", 2, 4));
    let plan = state.route_all(Some("model-a"), &[4, 0, 2, 0]).unwrap();
    assert_eq!(plan.len(), 3);
    assert_eq!(plan[&0], "http://a");
    assert_eq!(plan[&2], "http://b");
    assert_eq!(plan[&4], "http://b");
    assert_eq!(state.route_all(None, &[]), Ok(HashMap::new()));
}

#[test]
fn nobody_holds_a_layer_beyond_thirty_two_bits() {
    let mut state = GridState::default();
    state.register(entry("a", "http://a", "model-a", 0, 1));
    assert_eq!(
        state.route_all(Some("model-a"), &[4294967296]),
        Err(4294967296)
    );
    assert_eq!(state.route_all(None, &[0, 4294967297, 7]), Err(4294967297));
    state.register(entry("b", "http://b", "model-a", u32::MAX, u32::MAX));
    let last = u32::MAX as usize;
    assert_eq!(state.route_all(None, &[last]).unwrap()[&last], "http://b");
}

#[test]
fn tables_list_each_server_once_per_layer() {
    let mut state = GridState::default();
    state.register(entry("a", "http://a", "m", 0, 2));
    state.register(entry("b", "http://b", "n", 2, 3));
    state.register(entry("a", "http://a", "m", 1, 2));
    assert_eq!(state.route_table.len(), 2);
    assert_eq!(state.any_model_table.slots.len(), 3);
    assert!(!state.any_model_table.slots.contains_key(&0));
    assert_eq!(state.any_model_table.slots[&2], vec![0, 1]);
    state.register(entry("b", "http://b", "m", 4, 4));
    // The model that nobody serves any more has no table left.
    assert_eq!(state.route_table.len(), 1);
    let before = state.any_model_table.slots.clone();
    state.rebuild_route_table();
    assert_eq!(state.any_model_table.slots, before);
}

#[test]
fn the_last_layer_number_can_be_held() {
    let mut state = GridState::default();
    state.register(entry("a", "http://a", "m", u32::MAX - 1, u32::MAX));
    assert_eq!(state.route(Some("m"), u32::MAX).as_deref(), Some("http://a"));
    state.register(entry("b", "http://b", "m", 3, 2));
    assert_eq!(state.route(Some("m"), 3), None);
}

#[test]
fn earlier_server_keeps_a_tie() {
    let mut state = GridState::default();
    state.register(entry("a", "http://a", "m", 0, 1));
    state.register(entry("b", "http://b", "m", 0, 1));
    assert_eq!(state.route(Some("m"), 0).as_deref(), Some("http://a"));
}

#[test]
fn preference_is_transitive() {
    let mut measured = entry("a", "http://a", "m", 0, 4);
    measured.layer_latencies.insert(2, (metric(90.0), metric(99.0)));
    let mut probed = entry("b", "http://b", "m", 0, 4);
    probed.rtt_ms = Some(metric(1.0));
    let idle = entry("c", "http://c", "m", 0, 4);
    let less = std::cmp::Ordering::Less;
    assert_eq!(compare_servers_for_route(&measured, &probed, 2), less);
    assert_eq!(compare_servers_for_route(&probed, &idle, 2), less);
    assert_eq!(compare_servers_for_route(&measured, &idle, 2), less);
    // At a layer without a measurement the probe decides.
    assert_eq!(compare_servers_for_route(&probed, &measured, 3), less);
}

#[test]
fn a_joined_server_is_reachable_at_both_ends() {
    let mut state = GridState::default();
    state.register(entry("a", "http://a", "m", 7, 9));
    for layer in 7..=9 {
        assert!(state.route(Some("m"), layer).is_some());
        assert!(state.route(None, layer).is_some());
    }
    assert!(state.route(Some("m"), 6).is_none());
    assert!(state.route(Some("m"), 10).is_none());
}
