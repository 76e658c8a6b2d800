use std::sync::atomic::Ordering;

use openobserve::session::{SessionManager, WsError};

fn manager() -> SessionManager {
    SessionManager::new()
}

#[test]
fn cookie_valid_without_expiry() {
    let mut m = manager();
    m.register_client("client-a", None, 1_000);
    assert!(m.is_client_cookie_valid("client-a", 5_000));
}

#[test]
fn cookie_invalid_with_past_expiry() {
    let mut m = manager();
    m.register_client("client-a", Some(900), 1_000);
    assert!(!m.is_client_cookie_valid("client-a", 1_000));
}

#[test]
fn cookie_valid_with_future_expiry() {
    let mut m = manager();
    m.register_client("client-a", Some(2_000), 1_000);
    assert!(m.is_client_cookie_valid("client-a", 1_000));
}

#[test]
fn cookie_invalid_for_unknown_client() {
    let m = manager();
    assert!(!m.is_client_cookie_valid("nobody", 0));
}

#[test]
fn register_is_idempotent() {
    let mut m = manager();
    m.register_client("client-a", None, 10);
    assert!(m.trace_unclaimed("client-a", "trace-1"));
    m.set_querier_for_trace("client-a", "trace-1", "querier-1")
        .unwrap();
    // A racing second registration must not reset the accumulated state.
    m.register_client("client-a", Some(1), 99);
    let q = m.get_querier_for_trace("client-a", "trace-1").unwrap();
    assert_eq!(q.as_deref(), Some("querier-1"));
    // The second caller's cookie expiry was discarded.
    assert!(m.is_client_cookie_valid("client-a", 50));
}

#[test]
fn set_then_get_route() {
    let mut m = manager();
    m.register_client("client-a", None, 0);
    assert!(m.trace_unclaimed("client-a", "trace-1"));
    m.set_querier_for_trace("client-a", "trace-1", "querier-1")
        .unwrap();
    let q = m.get_querier_for_trace("client-a", "trace-1").unwrap();
    assert_eq!(q.as_deref(), Some("querier-1"));
    let none = m.get_querier_for_trace("client-a", "trace-2").unwrap();
    assert!(none.is_none());
}

#[test]
fn set_route_on_unregistered_client_fails() {
    let mut m = manager();
    let err = m
        .set_querier_for_trace("ghost", "trace-1", "querier-1")
        .unwrap_err();
    assert_eq!(err, WsError::SessionNotFound("ghost".to_string()));
}

#[test]
fn get_route_on_unregistered_client_fails() {
    let m = manager();
    let err = m.get_querier_for_trace("ghost", "trace-1").unwrap_err();
    assert_eq!(err, WsError::SessionNotFound("ghost".to_string()));
}

#[test]
fn overwrite_retracts_old_reverse_entry() {
    let mut m = manager();
    m.register_client("client-a", None, 0);
    m.set_querier_for_trace("client-a", "trace-1", "querier-1")
        .unwrap();
    assert!(m.has_querier_entry("querier-1"));
    // Re-routing the same trace to another querier retracts the old entry.
    m.set_querier_for_trace("client-a", "trace-1", "querier-2")
        .unwrap();
    assert!(!m.has_querier_entry("querier-1"));
    assert!(m.has_querier_entry("querier-2"));
    let q = m.get_querier_for_trace("client-a", "trace-1").unwrap();
    assert_eq!(q.as_deref(), Some("querier-2"));
}

#[test]
fn remove_route_prunes_reverse_entry() {
    let mut m = manager();
    m.register_client("client-a", None, 0);
    m.set_querier_for_trace("client-a", "trace-1", "querier-1")
        .unwrap();
    assert!(m.has_querier_entry("querier-1"));
    m.remove_trace_id("client-a", "trace-1");
    // The only trace mapped to querier-1 is gone: the entry was pruned, and
    // a later querier removal finds nothing to do.
    assert!(!m.has_querier_entry("querier-1"));
    m.remove_querier_connection("querier-1");
    assert!(m.is_client_cookie_valid("client-a", 0));
    assert!(m.get_trace_ids("client-a").is_empty());
}

#[test]
fn remove_route_is_idempotent() {
    let mut m = manager();
    m.register_client("client-a", None, 0);
    m.remove_trace_id("client-a", "trace-1");
    m.remove_trace_id("ghost", "trace-1");
    assert!(m.get_trace_ids("client-a").is_empty());
}

#[test]
fn unregister_cleans_reverse_index() {
    let mut m = manager();
    m.register_client("client-a", None, 0);
    m.set_querier_for_trace("client-a", "trace-1", "querier-1")
        .unwrap();
    m.set_querier_for_trace("client-a", "trace-2", "querier-2")
        .unwrap();
    m.unregister_client("client-a");
    assert!(!m.is_client_cookie_valid("client-a", 0));
    // No dangling reverse entries: both querier removals are no-ops.
    assert!(!m.has_querier_entry("querier-1"));
    assert!(!m.has_querier_entry("querier-2"));
    m.remove_querier_connection("querier-1");
    m.remove_querier_connection("querier-2");
    assert!(m.get_trace_ids("client-a").is_empty());
}

#[test]
fn unregister_is_idempotent() {
    let mut m = manager();
    m.register_client("client-a", None, 0);
    m.unregister_client("client-a");
    m.unregister_client("client-a");
    assert!(!m.is_client_cookie_valid("client-a", 0));
}

#[test]
fn remove_querier_cascades_across_clients() {
    let mut m = manager();
    m.register_client("client-a", None, 0);
    m.register_client("client-b", None, 0);
    m.set_querier_for_trace("client-a", "trace-1", "querier-q")
        .unwrap();
    m.set_querier_for_trace("client-b", "trace-2", "querier-q")
        .unwrap();
    m.set_querier_for_trace("client-b", "trace-3", "querier-r")
        .unwrap();
    m.remove_querier_connection("querier-q");
    // One call removed the mapping from both clients' records.
    assert!(m
        .get_querier_for_trace("client-a", "trace-1")
        .unwrap()
        .is_none());
    assert!(m
        .get_querier_for_trace("client-b", "trace-2")
        .unwrap()
        .is_none());
    // Routes to other queriers survive.
    let q = m.get_querier_for_trace("client-b", "trace-3").unwrap();
    assert_eq!(q.as_deref(), Some("querier-r"));
    assert!(!m.has_querier_entry("querier-q"));
    assert!(m.has_querier_entry("querier-r"));
}

#[test]
fn remove_querier_unknown_is_noop() {
    let mut m = manager();
    m.register_client("client-a", None, 0);
    m.set_querier_for_trace("client-a", "trace-1", "querier-1")
        .unwrap();
    m.remove_querier_connection("querier-x");
    let q = m.get_querier_for_trace("client-a", "trace-1").unwrap();
    assert_eq!(q.as_deref(), Some("querier-1"));
}

#[test]
fn idle_detection_and_touch() {
    let mut m = manager();
    m.register_client("client-a", None, 0);
    // Older than the idle window: idle.
    assert!(m.reached_max_idle_time("client-a", 100, 50));
    // Exactly at the window: not idle (the window must be exceeded).
    assert!(!m.reached_max_idle_time("client-a", 50, 50));
    // An activity refresh resets idleness.
    m.update_session_activity("client-a", 100);
    assert!(!m.reached_max_idle_time("client-a", 100, 50));
    assert!(!m.reached_max_idle_time("client-a", 150, 50));
    assert!(m.reached_max_idle_time("client-a", 151, 50));
}

#[test]
fn unknown_client_is_idle() {
    let m = manager();
    assert!(m.reached_max_idle_time("nobody", 0, 3600));
}

#[test]
fn touch_on_unknown_client_is_noop() {
    let mut m = manager();
    m.update_session_activity("nobody", 5);
    assert!(!m.is_client_cookie_valid("nobody", 0));
}

#[test]
fn drain_handle_for_unknown_client_is_detached() {
    let mut m = manager();
    let stray = m.is_session_drain_state("nobody");
    // Mutating the stray handle must not affect any stored session.
    stray.store(true, Ordering::SeqCst);
    m.register_client("nobody", None, 0);
    let real = m.is_session_drain_state("nobody");
    assert!(!real.load(Ordering::SeqCst));
}

#[test]
fn drain_handle_is_shared_and_outlives_the_session() {
    let mut m = manager();
    m.register_client("client-a", None, 0);
    let h1 = m.is_session_drain_state("client-a");
    let h2 = m.is_session_drain_state("client-a");
    h1.store(true, Ordering::SeqCst);
    // Both handles name the same flag.
    assert!(h2.load(Ordering::SeqCst));
    // A reader's copy stays usable after the session is torn down.
    m.unregister_client("client-a");
    assert!(h1.load(Ordering::SeqCst));
    h1.store(false, Ordering::SeqCst);
    assert!(!h2.load(Ordering::SeqCst));
}

#[test]
fn listings_report_current_routes() {
    let mut m = manager();
    m.register_client("client-a", None, 0);
    m.set_querier_for_trace("client-a", "trace-1", "querier-1")
        .unwrap();
    m.set_querier_for_trace("client-a", "trace-2", "querier-2")
        .unwrap();
    let mut traces = m.get_trace_ids("client-a");
    traces.sort();
    assert_eq!(traces, vec!["trace-1".to_string(), "trace-2".to_string()]);
    let mut queriers = m.get_querier_connections("client-a");
    queriers.sort();
    assert_eq!(
        queriers,
        vec!["querier-1".to_string(), "querier-2".to_string()]
    );
    // Absent clients yield empty listings, not errors.
    assert!(m.get_trace_ids("ghost").is_empty());
    assert!(m.get_querier_connections("ghost").is_empty());
}

#[test]
fn listing_keeps_one_querier_per_trace() {
    let mut m = manager();
    m.register_client("client-a", None, 0);
    m.set_querier_for_trace("client-a", "trace-1", "querier-a")
        .unwrap();
    m.set_querier_for_trace("client-a", "trace-2", "querier-a")
        .unwrap();
    m.set_querier_for_trace("client-a", "trace-3", "querier-b")
        .unwrap();
    // One entry per in-flight trace: a querier serving two traces is
    // listed twice.
    let mut queriers = m.get_querier_connections("client-a");
    queriers.sort();
    assert_eq!(
        queriers,
        vec![
            "querier-a".to_string(),
            "querier-a".to_string(),
            "querier-b".to_string()
        ]
    );
    // The two listings pair index by index.
    let traces = m.get_trace_ids("client-a");
    let queriers = m.get_querier_connections("client-a");
    assert_eq!(traces.len(), queriers.len());
    for (t, q) in traces.iter().zip(queriers.iter()) {
        assert_eq!(
            m.get_querier_for_trace("client-a", t).unwrap().as_deref(),
            Some(q.as_str())
        );
    }
}

#[test]
fn default_is_empty() {
    let m = SessionManager::default();
    assert!(!m.is_client_cookie_valid("anyone", 0));
    assert!(!m.has_querier_entry("any-querier"));
}

#[test]
fn trace_unclaimed_sees_other_clients() {
    let mut m = manager();
    m.register_client("client-a", None, 0);
    m.register_client("client-b", None, 0);
    m.set_querier_for_trace("client-a", "trace-1", "querier-1")
        .unwrap();
    assert!(m.trace_unclaimed("client-a", "trace-1"));
    assert!(!m.trace_unclaimed("client-b", "trace-1"));
    assert!(m.trace_unclaimed("client-b", "trace-2"));
}
