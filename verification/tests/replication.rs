use larql::grid::elevation::check_hot_shards;
use larql::grid::entry::ServerEntry;
use larql::grid::protocol::{Outbound, RouterPayload, SendFailure};
use larql::grid::replication::count_taken;
use larql::grid::state::GridState;
use larql::metric::Metric;
use larql::rebalancer::Span;
use std::collections::HashMap;

fn metric(x: f32) -> Metric {
    Metric { bits: x.to_bits() }
}

fn entry(id: &str, url: &str, model: &str, start: u32, end: u32) -> ServerEntry {
    ServerEntry {
        server_id: id.into(),
        listen_url: url.into(),
        model_id: model.into(),
        layer_start: start,
        layer_end: end,
        vindex_hash: String::new(),
        cpu_pct: metric(0.0),
        ram_used: 0,
        requests_in_flight: 0,
        last_seen: Span::from_secs(0),
        layer_latencies: HashMap::new(),
        req_per_sec: metric(0.0),
        rtt_ms: None,
    }
}

#[test]
fn send_assign_to_named_available_dispatches_to_specific_server() {
    let mut state = GridState::default();
    let (tx, mut rx) = tokio::sync::mpsc::channel(4);
    state.register_available("target".into(), tx, 1, 0, "/".into());

    state
        .send_assign_to_named_available(
            "target",
            "test-model",
            10,
            14,
            "http://origin:8090",
            "deadbeef",
        )
        .expect("send must succeed");
    let msg = rx
        .try_recv()
        .expect("AssignMsg should have been queued")
        .expect("ok payload");
    let Some(RouterPayload::Assign(a)) = msg.payload else {
        panic!("expected Assign");
    };
    assert_eq!(a.model_id, "test-model");
    assert_eq!(a.layer_start, 10);
    assert_eq!(a.layer_end, 14);
    assert_eq!(a.origin_url, "http://origin:8090");
    assert_eq!(a.shard_hash, "deadbeef");
    assert!(!state.has_available_servers());
}

#[test]
fn send_assign_to_named_available_unknown_id_errors() {
    let mut state = GridState::default();
    let err = state
        .send_assign_to_named_available("no-such", "test-model", 0, 4, "http://origin", "h")
        .unwrap_err();
    assert!(err.contains("not in the available pool"));
}

#[test]
fn send_assign_to_named_available_failed_send_re_inserts_entry() {
    let mut state = GridState::default();
    let (tx, rx) = tokio::sync::mpsc::channel(1);
    drop(rx);
    state.register_available("target".into(), tx, 1, 0, "/".into());

    let err = state
        .send_assign_to_named_available("target", "m", 0, 4, "http://origin", "h")
        .unwrap_err();
    assert!(err.contains("failed"));
    assert!(state.has_available_servers());
}

#[test]
fn find_origin_for_returns_listen_url_and_hash_of_replica() {
    let mut state = GridState::default();
    let mut a = entry("a", "http://a:8080", "model-a", 0, 5);
    a.vindex_hash = "deadbeef".into();
    state.register(a);

    let origin = state.find_origin_for("model-a", 0, 5);
    assert_eq!(origin, Some(("http://a:8080".into(), "deadbeef".into())));

    assert!(state.find_origin_for("other", 0, 5).is_none());
    assert!(state.find_origin_for("model-a", 6, 9).is_none());
}

#[test]
fn try_assign_gap_resolves_origin_from_live_replica() {
    let mut state = GridState::default();
    let mut a = entry("a", "http://a:8080", "model-a", 0, 5);
    a.vindex_hash = "abc".into();
    state.register(a);

    let (tx, mut rx) = tokio::sync::mpsc::channel::<Outbound>(4);
    state.register_available("spare".into(), tx, 16 * 1024 * 1024 * 1024, 0, "/".into());

    assert!(!state.try_assign_gap("model-a", 6, 10, 0));

    assert!(state.try_assign_gap("model-a", 0, 5, 0));
    let sent = rx.try_recv().expect("AssignMsg should be queued");
    let Ok(message) = sent else {
        panic!("expected Assign payload");
    };
    let Some(RouterPayload::Assign(assign)) = message.payload else {
        panic!("expected Assign payload");
    };
    assert_eq!(assign.origin_url, "http://a:8080");
    assert_eq!(assign.shard_hash, "abc");
    assert_eq!(assign.layer_start, 0);
    assert_eq!(assign.layer_end, 5);
}

#[test]
fn set_target_replicas_clamps_to_at_least_one() {
    let mut state = GridState::default();
    assert_eq!(state.target_replicas(), 1);
    state.set_target_replicas(0);
    assert_eq!(state.target_replicas(), 1, "0 must clamp to 1");
    state.set_target_replicas(3);
    assert_eq!(state.target_replicas(), 3);
}

#[test]
fn under_replicated_ranges_reports_deficit_per_range() {
    let mut state = GridState::default();
    state.set_target_replicas(2);
    state.register(entry("a", "http://a", "model-x", 0, 4));
    state.register(entry("b", "http://b", "model-x", 5, 9));
    state.register(entry("c", "http://c", "model-x", 5, 9));

    let ranges = state.under_replicated_ranges();
    assert_eq!(ranges, vec![("model-x".to_string(), 0, 4, 1)]);
}

#[test]
fn over_replicated_ranges_reports_surplus() {
    let mut state = GridState::default();
    state.set_target_replicas(2);
    state.register(entry("a", "http://a", "model-x", 0, 4));
    state.register(entry("b", "http://b", "model-x", 0, 4));
    state.register(entry("c", "http://c", "model-x", 0, 4));
    state.register(entry("d", "http://d", "model-x", 5, 9));

    let over = state.over_replicated_ranges();
    assert_eq!(over, vec![("model-x".to_string(), 0, 4, 1)]);
}

#[test]
fn least_loaded_in_range_picks_lowest_inflight() {
    let mut state = GridState::default();
    let mut a = entry("a", "http://a", "model-x", 0, 4);
    a.requests_in_flight = 5;
    let mut b = entry("b", "http://b", "model-x", 0, 4);
    b.requests_in_flight = 1;
    let mut c = entry("c", "http://c", "model-x", 0, 4);
    c.requests_in_flight = 9;
    state.register(a);
    state.register(b);
    state.register(c);

    let pick = state.least_loaded_in_range("model-x", 0, 4).unwrap();
    assert_eq!(pick.server_id, "b");

    assert!(state.least_loaded_in_range("model-x", 10, 14).is_none());
}

#[test]
fn under_replicated_ranges_ignores_zero_coverage() {
    let mut state = GridState::default();
    state.set_target_replicas(2);
    state.register(entry("a", "http://a", "model-y", 10, 14));
    let ranges = state.under_replicated_ranges();
    assert_eq!(ranges, vec![("model-y".to_string(), 10, 14, 1)]);
}

#[test]
fn try_replicate_from_available_dispatches_one_per_range() {
    let mut state = GridState::default();
    state.set_target_replicas(2);
    let mut a = entry("a", "http://a", "model-x", 0, 4);
    a.vindex_hash = "ha".into();
    state.register(a);

    let (tx, mut rx) = tokio::sync::mpsc::channel::<Outbound>(4);
    state.register_available("spare".into(), tx, 1, 0, "/".into());

    let sent = state.try_replicate_from_available();
    assert_eq!(sent, 1);
    let msg = rx
        .try_recv()
        .expect("AssignMsg should have been delivered")
        .expect("ok payload");
    let Some(RouterPayload::Assign(a)) = msg.payload else {
        panic!("expected Assign payload");
    };
    assert_eq!(a.model_id, "model-x");
    assert_eq!(a.layer_start, 0);
    assert_eq!(a.layer_end, 4);
    assert_eq!(a.origin_url, "http://a");
    assert_eq!(a.shard_hash, "ha");

    let again = state.try_replicate_from_available();
    assert_eq!(again, 0);
}

#[test]
fn try_fill_all_gaps_scans_coverage_and_fills() {
    let mut state = GridState::default();
    let mut a = entry("a", "http://a:8080", "model-a", 0, 1);
    a.vindex_hash = "ha".into();
    let mut b = entry("b", "http://b:8080", "model-a", 3, 4);
    b.vindex_hash = "hb".into();
    state.register(a);
    state.register(b);
    let (tx, _rx) = tokio::sync::mpsc::channel(4);
    state.register_available("spare".into(), tx, 1, 0, "/".into());
    assert_eq!(state.try_fill_all_gaps(), 0);
}

#[test]
fn check_hot_shards_marks_newly_hot_ranges() {
    let mut g = GridState::default();
    let mut a = entry("a", "http://a", "m", 0, 4);
    a.req_per_sec = metric(50.0);
    g.register(a);
    check_hot_shards(&mut g, metric(20.0));
    assert_eq!(
        g.elevated_ranges_snapshot(),
        vec![("m".to_string(), 0, 4)],
        "range above threshold must be elevated"
    );
}

#[test]
fn check_hot_shards_demotes_cooled_ranges() {
    let mut g = GridState::default();
    let mut a = entry("a", "http://a", "m", 0, 4);
    a.req_per_sec = metric(1.0);
    g.register(a);
    assert!(g.mark_elevated("m", 0, 4));
    check_hot_shards(&mut g, metric(20.0));
    assert!(
        g.elevated_ranges_snapshot().is_empty(),
        "cooled range must be demoted"
    );
}

#[test]
fn check_hot_shards_is_noop_when_state_unchanged() {
    let mut g = GridState::default();
    let mut hot = entry("hot", "http://hot", "m", 0, 4);
    hot.req_per_sec = metric(50.0);
    g.register(hot);
    let mut cool = entry("cool", "http://cool", "m", 5, 9);
    cool.req_per_sec = metric(1.0);
    g.register(cool);
    check_hot_shards(&mut g, metric(20.0));
    check_hot_shards(&mut g, metric(20.0));
    assert_eq!(g.elevated_ranges_snapshot(), vec![("m".to_string(), 0, 4)],);
}

#[test]
fn a_hot_range_pulls_a_spare_and_gives_up_a_replica_when_it_cools() {
    let mut g = GridState::default();
    let mut a = entry("a", "http://a", "m", 0, 4);
    a.req_per_sec = metric(100.0);
    g.register(a);
    let (spare_tx, mut spare_rx) = tokio::sync::mpsc::channel::<Outbound>(4);
    g.register_available("spare".into(), spare_tx, 1, 0, "/".into());

    check_hot_shards(&mut g, metric(50.0));
    assert_eq!(g.effective_target_for("m", 0, 4), 2);
    assert_eq!(g.try_replicate_from_available(), 1);
    let pulled = spare_rx.try_recv().unwrap().unwrap();
    let Some(RouterPayload::Assign(assign)) = pulled.payload else {
        panic!("expected Assign");
    };
    assert_eq!(assign.layer_start, 0);
    assert_eq!(assign.layer_end, 4);

    let mut extra = entry("extra", "http://extra", "m", 0, 4);
    extra.req_per_sec = metric(0.5);
    g.register(extra);
    assert_eq!(g.over_replicated_ranges(), vec![]);
    assert_eq!(g.under_replicated_ranges(), vec![]);

    let mut cooled = entry("a", "http://a", "m", 0, 4);
    cooled.req_per_sec = metric(0.5);
    g.register(cooled);
    check_hot_shards(&mut g, metric(50.0));
    assert!(g.elevated_ranges_snapshot().is_empty());
    assert_eq!(g.over_replicated_ranges(), vec![("m".to_string(), 0, 4, 1)]);
}

#[test]
fn a_rate_at_the_threshold_is_not_hot() {
    let mut g = GridState::default();
    let mut a = entry("a", "http://a", "m", 0, 4);
    a.req_per_sec = metric(20.0);
    g.register(a);
    assert!(g.hot_layer_ranges(metric(20.0)).is_empty());
    assert_eq!(
        g.hot_layer_ranges(metric(19.5)),
        vec![("m".to_string(), 0, 4)]
    );
}

#[test]
fn elevation_is_told_by_the_setters() {
    let mut g = GridState::default();
    assert!(g.mark_elevated("m", 0, 4));
    assert!(!g.mark_elevated("m", 0, 4));
    assert!(g.mark_elevated("m", 5, 9));
    assert!(g.demote_elevated("m", 0, 4));
    assert!(!g.demote_elevated("m", 0, 4));
    assert_eq!(g.elevated_ranges_snapshot(), vec![("m".to_string(), 5, 9)]);
    assert_eq!(g.effective_target_for("m", 5, 9), 2);
    assert_eq!(g.effective_target_for("m", 0, 4), 1);
}

#[test]
fn reports_are_in_order() {
    let mut state = GridState::default();
    state.set_target_replicas(3);
    state.register(entry("a", "http://a", "b", 5, 9));
    state.register(entry("b", "http://b", "b", 0, 4));
    state.register(entry("c", "http://c", "a", 7, 8));
    state.register(entry("d", "http://d", "b", 0, 3));
    state.register(entry("e", "http://e", "b", 0, 4));
    assert_eq!(
        state.under_replicated_ranges(),
        vec![
            ("a".to_string(), 7, 8, 2),
            ("b".to_string(), 0, 3, 2),
            ("b".to_string(), 0, 4, 1),
            ("b".to_string(), 5, 9, 2),
        ]
    );
    assert!(state.over_replicated_ranges().is_empty());
}

#[test]
fn gaps_lie_between_held_layers() {
    let mut state = GridState::default();
    state.register(entry("a", "http://a", "m", 0, 1));
    state.register(entry("b", "http://b", "m", 3, 4));
    state.register(entry("c", "http://c", "m", 0, 1));
    state.register(entry("d", "http://d", "m", 9, 9));
    state.register(entry("e", "http://e", "n", 0, 9));
    assert_eq!(
        state.coverage_gaps(),
        vec![("m".to_string(), 2, 2), ("m".to_string(), 5, 8)]
    );
}

#[test]
fn an_origin_may_hold_more_than_the_range() {
    let mut state = GridState::default();
    state.register(entry("a", "http://a", "m", 2, 3));
    state.register(entry("b", "http://b", "m", 0, 9));
    assert_eq!(state.find_origin_for("m", 2, 5).unwrap().0, "http://b");
    assert_eq!(state.find_origin_for("m", 2, 3).unwrap().0, "http://a");
}

#[test]
fn a_spare_needs_enough_memory() {
    let mut state = GridState::default();
    let (small_tx, mut small_rx) = tokio::sync::mpsc::channel::<Outbound>(4);
    let (large_tx, mut large_rx) = tokio::sync::mpsc::channel::<Outbound>(4);
    state.register_available("small".into(), small_tx, 10, 0, "/".into());
    state.register_available("large".into(), large_tx, 100, 0, "/".into());

    assert!(!state.try_assign_gap_with_origin("m", 0, 4, "http://o", "h", 101));
    assert!(state.try_assign_gap_with_origin("m", 0, 4, "http://o", "h", 100));
    assert!(small_rx.try_recv().is_err());
    assert!(large_rx.try_recv().is_ok());
    assert_eq!(state.available_servers.len(), 1);
    assert_eq!(state.available_servers[0].server_id, "small");
}

#[test]
fn a_spare_that_cannot_be_reached_leaves_the_pool() {
    let mut state = GridState::default();
    let (tx, rx) = tokio::sync::mpsc::channel::<Outbound>(1);
    drop(rx);
    state.register_available("gone".into(), tx, 1, 0, "/".into());
    assert!(!state.try_assign_gap_with_origin("m", 0, 4, "http://o", "h", 0));
    assert!(!state.has_available_servers());
}

#[test]
fn failure_texts_name_the_server_and_the_reason() {
    let mut state = GridState::default();
    for id in ["plain", "with \"quotes\"", "tab\tand é"] {
        let err = state
            .send_assign_to_named_available(id, "m", 0, 4, "http://o", "h")
            .unwrap_err();
        assert_eq!(err, format!("server_id {id:?} is not in the available pool"));
    }

    let (tx, rx) = tokio::sync::mpsc::channel::<Outbound>(1);
    state.register_available("t".into(), tx, 1, 0, "/".into());
    let (full_tx, _full_rx) = tokio::sync::mpsc::channel::<Outbound>(1);
    full_tx.try_send(Err(tonic::Status::ok("busy"))).unwrap();
    state.register_available("full".into(), full_tx, 1, 0, "/".into());
    drop(rx);

    let err = state
        .send_assign_to_named_available("t", "m", 0, 4, "http://o", "h")
        .unwrap_err();
    assert_eq!(err, "send to \"t\" failed: channel closed");
    let err = state
        .send_assign_to_named_available("full", "m", 0, 4, "http://o", "h")
        .unwrap_err();
    assert_eq!(err, "send to \"full\" failed: no available capacity");
    assert_eq!(state.available_servers.len(), 2);
}

#[test]
fn each_range_takes_at_most_one_spare() {
    let mut state = GridState::default();
    state.set_target_replicas(3);
    state.register(entry("a", "http://a", "m", 0, 4));
    state.register(entry("b", "http://b", "m", 5, 9));
    let mut receivers = Vec::new();
    for i in 0..5 {
        let (tx, rx) = tokio::sync::mpsc::channel::<Outbound>(4);
        state.register_available(format!("s{i}"), tx, 1, 0, "/".into());
        receivers.push(rx);
    }
    assert_eq!(state.try_replicate_from_available(), 2);
    assert_eq!(state.available_servers.len(), 3);
    assert_eq!(state.try_replicate_from_available(), 2);
    assert_eq!(state.try_replicate_from_available(), 1);
    assert_eq!(state.try_replicate_from_available(), 0);
}

#[test]
fn a_spare_that_comes_again_replaces_itself() {
    let mut state = GridState::default();
    let (tx, _rx) = tokio::sync::mpsc::channel::<Outbound>(1);
    state.register_available("s".into(), tx.clone(), 1, 0, "/".into());
    state.register_available("s".into(), tx, 7, 0, "/data".into());
    assert_eq!(state.available_servers.len(), 1);
    assert_eq!(state.available_servers[0].ram_bytes, 7);
}

#[test]
fn the_first_of_equally_loaded_replicas_is_picked() {
    let mut state = GridState::default();
    state.register(entry("a", "http://a", "m", 0, 4));
    state.register(entry("b", "http://b", "m", 0, 4));
    assert_eq!(
        state.least_loaded_in_range("m", 0, 4).unwrap().server_id,
        "a"
    );
}

#[test]
fn plans_say_what_is_sent_to_whom() {
    let mut state = GridState::default();
    let mut a = entry("a", "http://a", "m", 0, 4);
    a.vindex_hash = "ha".into();
    state.register(a);
    let (tx, _rx) = tokio::sync::mpsc::channel::<Outbound>(4);
    for id in ["s0", "s1", "s2"] {
        state.register_available(id.into(), tx.clone(), 1, 0, "/".into());
    }
    assert!(state.plan_gap("m", 5, 9, 0).is_none());
    assert!(state.plan_gap("m", 0, 4, 2).is_none());
    let planned = state.plan_gap("m", 1, 3, 1).unwrap();
    assert_eq!(planned.spare.server_id, "s0");
    let Some(RouterPayload::Assign(assign)) = planned.message.payload else {
        panic!("expected Assign");
    };
    assert_eq!(assign.model_id, "m");
    assert_eq!((assign.layer_start, assign.layer_end), (1, 3));
    assert_eq!(assign.origin_url, "http://a");
    assert_eq!(assign.shard_hash, "ha");

    // The second range has no origin, so the spares go to the other two.
    let wanted = vec![
        ("m".to_string(), 0, 4),
        ("m".to_string(), 5, 9),
        ("m".to_string(), 2, 2),
    ];
    let plan = state.plan_each(&wanted);
    let to: Vec<&str> = plan.iter().map(|a| a.spare.server_id.as_str()).collect();
    assert_eq!(to, vec!["s1", "s2"]);
    assert!(!state.has_available_servers());
    assert!(state.take_spare(0).is_none());
}

#[test]
fn replication_is_planned_in_the_order_of_ranges() {
    let mut state = GridState::default();
    state.set_target_replicas(2);
    state.register(entry("a", "http://a", "m", 5, 9));
    state.register(entry("b", "http://b", "m", 0, 4));
    let (tx, _rx) = tokio::sync::mpsc::channel::<Outbound>(4);
    state.register_available("s0".into(), tx.clone(), 1, 0, "/".into());
    state.register_available("s1".into(), tx, 1, 0, "/".into());
    let plan = state.plan_replication();
    let starts: Vec<u32> = plan
        .into_iter()
        .map(|a| match a.message.payload {
            Some(RouterPayload::Assign(assign)) => assign.layer_start,
            None => panic!("expected Assign"),
        })
        .collect();
    assert_eq!(starts, vec![0, 5]);
}

#[test]
fn a_named_send_is_settled_by_its_outcome() {
    let mut state = GridState::default();
    let (tx, _rx) = tokio::sync::mpsc::channel::<Outbound>(4);
    state.register_available("s".into(), tx, 1, 0, "/".into());
    assert_eq!(
        state.settle_named_send("s", Err(SendFailure::Full)),
        Err("send to \"s\" failed: no available capacity".to_string())
    );
    assert!(state.has_available_servers());
    assert_eq!(state.settle_named_send("s", Ok(())), Ok(()));
    assert!(!state.has_available_servers());
    assert_eq!(count_taken(&vec![true, false, true]), 2);
    assert_eq!(count_taken(&vec![]), 0);
}

#[test]
fn a_new_replica_shrinks_the_deficit() {
    let mut state = GridState::default();
    state.set_target_replicas(3);
    for (i, deficit) in [(0, Some(2)), (1, Some(1)), (2, None)] {
        state.register(entry(&format!("s{i}"), "http://s", "m", 0, 4));
        let lacking = state.under_replicated_ranges().first().map(|r| r.3);
        assert_eq!(lacking, deficit);
        assert!(state.over_replicated_ranges().is_empty());
    }
}

#[test]
fn a_named_plan_pairs_the_spare_with_the_message() {
    let mut state = GridState::default();
    let (tx, _rx) = tokio::sync::mpsc::channel::<Outbound>(4);
    for id in ["s0", "s1"] {
        state.register_available(id.into(), tx.clone(), 1, 0, "/".into());
    }
    assert!(state.plan_named("s2", "m", 0, 4, "http://o", "h").is_none());
    let (place, message) = state
        .plan_named("s1", "m", 10, 14, "http://origin:8090", "deadbeef")
        .unwrap();
    assert_eq!(state.available_servers[place].server_id, "s1");
    let Some(RouterPayload::Assign(a)) = message.payload else {
        panic!("expected Assign");
    };
    assert_eq!(a.model_id, "m");
    assert_eq!((a.layer_start, a.layer_end), (10, 14));
    assert_eq!(a.origin_url, "http://origin:8090");
    assert_eq!(a.shard_hash, "deadbeef");
}

#[test]
fn only_the_named_spare_gets_the_message() {
    let mut state = GridState::default();
    let (first_tx, mut first_rx) = tokio::sync::mpsc::channel::<Outbound>(4);
    let (named_tx, mut named_rx) = tokio::sync::mpsc::channel::<Outbound>(4);
    state.register_available("first".into(), first_tx, 1, 0, "/".into());
    state.register_available("named".into(), named_tx, 1, 0, "/".into());
    state
        .send_assign_to_named_available("named", "m", 0, 4, "http://o", "h")
        .unwrap();
    assert!(first_rx.try_recv().is_err());
    assert!(named_rx.try_recv().is_ok());
    assert_eq!(state.available_servers.len(), 1);
    assert_eq!(state.available_servers[0].server_id, "first");
}

#[test]
fn the_largest_target_counts_where_the_range_is_not_hot() {
    let mut state = GridState::default();
    state.set_target_replicas(u32::MAX);
    state.mark_elevated("m", 5, 9);
    assert_eq!(state.effective_target_for("m", 0, 4), u32::MAX);
    state.register(entry("a", "http://a", "m", 0, 4));
    assert_eq!(
        state.under_replicated_ranges(),
        vec![("m".to_string(), 0, 4, u32::MAX - 1)]
    );
}
