use oxitrack::heartbeat::{beat, valid_project_handle, HeartbeatError, HeartbeatRequest};
use oxitrack::session::{staleness_threshold, stitch, SessionStore, Stitch, StoreError};

fn request(project: &str, timestamp: i64) -> HeartbeatRequest {
    HeartbeatRequest { project_handle: project.to_string(), timestamp }
}

fn beat_ok(store: &mut SessionStore, project: &str, timestamp: i64) -> (i64, i64) {
    let resp = beat(store, request(project, timestamp)).ok().expect("heartbeat recorded");
    assert_eq!(resp.project_handle, project);
    (resp.session_id, resp.duration_seconds)
}

#[test]
fn acme_scenario() {
    let mut store = SessionStore::new();
    assert_eq!(beat_ok(&mut store, "acme", 1000), (1, 0));
    assert_eq!(beat_ok(&mut store, "acme", 1100), (1, 100));
    assert_eq!(beat_ok(&mut store, "acme", 1500), (2, 0));
    let first = store.session(1).unwrap();
    assert_eq!(first.end_time, Some(1100));
    assert_eq!(first.start_time, 1000);
    assert_eq!(first.last_heartbeat, 1100);
    let second = store.session(2).unwrap();
    assert_eq!(second.end_time, None);
    assert_eq!(second.start_time, 1500);
    assert_eq!(store.len(), 2);
}

#[test]
fn gap_of_exactly_window_starts_new_session() {
    let mut store = SessionStore::new();
    assert_eq!(beat_ok(&mut store, "p", 1000), (1, 0));
    assert_eq!(beat_ok(&mut store, "p", 1300), (2, 0));
    assert_eq!(store.session(1).unwrap().end_time, Some(1000));
}

#[test]
fn gap_just_inside_window_continues() {
    let mut store = SessionStore::new();
    assert_eq!(beat_ok(&mut store, "p", 1000), (1, 0));
    assert_eq!(beat_ok(&mut store, "p", 1299), (1, 299));
}

#[test]
fn gap_over_window_reports_zero() {
    let mut store = SessionStore::new();
    beat_ok(&mut store, "p", 0);
    assert_eq!(beat_ok(&mut store, "p", 301), (2, 0));
    assert_eq!(beat_ok(&mut store, "p", 10_000), (3, 0));
    assert_eq!(store.session(2).unwrap().end_time, Some(301));
}

#[test]
fn duration_is_span_from_session_start() {
    let mut store = SessionStore::new();
    beat_ok(&mut store, "p", 1000);
    assert_eq!(beat_ok(&mut store, "p", 1250), (1, 250));
    assert_eq!(beat_ok(&mut store, "p", 1500), (1, 500));
    assert_eq!(beat_ok(&mut store, "p", 1799), (1, 799));
    let s = store.session(1).unwrap();
    assert_eq!(s.start_time, 1000);
    assert_eq!(s.last_heartbeat, 1799);
}

#[test]
fn repeated_heartbeat_creates_no_duplicate() {
    let mut store = SessionStore::new();
    assert_eq!(beat_ok(&mut store, "p", 500), (1, 0));
    assert_eq!(beat_ok(&mut store, "p", 500), (1, 0));
    assert_eq!(store.len(), 1);
    assert_eq!(store.session(1).unwrap().last_heartbeat, 500);
}

#[test]
fn projects_are_independent() {
    let mut store = SessionStore::new();
    assert_eq!(beat_ok(&mut store, "a", 1000), (1, 0));
    assert_eq!(beat_ok(&mut store, "b", 1010), (2, 0));
    assert_eq!(beat_ok(&mut store, "a", 1100), (1, 100));
    assert_eq!(beat_ok(&mut store, "b", 1200), (2, 190));
    assert_eq!(store.session(1).unwrap().end_time, None);
    assert_eq!(store.session(2).unwrap().end_time, None);
}

#[test]
fn handle_of_101_characters_is_rejected() {
    let mut store = SessionStore::new();
    let long = "x".repeat(101);
    let r = beat(&mut store, request(&long, 1000));
    assert!(matches!(r, Err(HeartbeatError::HandleTooLong)));
    assert_eq!(store.len(), 0);
    assert!(!valid_project_handle(&long));
}

#[test]
fn handle_of_100_characters_is_accepted() {
    let mut store = SessionStore::new();
    let h = "x".repeat(100);
    assert_eq!(beat_ok(&mut store, &h, 1000), (1, 0));
    assert!(valid_project_handle(&h));
    assert!(valid_project_handle(""));
}

#[test]
fn handle_length_counts_characters() {
    let h = "é".repeat(100);
    assert!(valid_project_handle(&h));
    assert!(!valid_project_handle(&"é".repeat(101)));
}

#[test]
fn error_messages() {
    assert_eq!(
        HeartbeatError::HandleTooLong.message(),
        "project_handle exceeds 100 character limit"
    );
    assert_eq!(
        HeartbeatError::Store(StoreError::IdsExhausted).message(),
        "no session id is left"
    );
}

#[test]
fn find_picks_latest_heartbeat_and_first_on_ties() {
    let mut store = SessionStore::new();
    assert_eq!(store.create("p", 10, 50), Ok(1));
    assert_eq!(store.create("p", 20, 80), Ok(2));
    assert_eq!(store.create("p", 30, 80), Ok(3));
    assert_eq!(store.create("q", 40, 90), Ok(4));
    assert_eq!(store.find_recent_open_session("p", 0).unwrap().id, 2);
    assert_eq!(store.find_recent_open_session("p", 79).unwrap().id, 2);
    assert!(store.find_recent_open_session("p", 80).is_none());
    assert!(store.find_recent_open_session("r", 0).is_none());
    assert_eq!(store.find_recent_open_session("q", -5).unwrap().id, 4);
}

#[test]
fn touch_and_close_update_records() {
    let mut store = SessionStore::new();
    assert_eq!(store.create("p", 10, 10), Ok(1));
    assert_eq!(store.create("q", 10, 10), Ok(2));
    store.touch(1, 70);
    assert_eq!(store.session(1).unwrap().last_heartbeat, 70);
    assert_eq!(store.session(1).unwrap().start_time, 10);
    store.close_open_sessions("p");
    assert_eq!(store.session(1).unwrap().end_time, Some(70));
    assert_eq!(store.session(2).unwrap().end_time, None);
    assert!(store.session(0).is_none());
    assert!(store.session(3).is_none());
}

#[test]
fn out_of_order_heartbeat_in_window_continues() {
    let mut store = SessionStore::new();
    assert_eq!(beat_ok(&mut store, "p", 1000), (1, 0));
    assert_eq!(beat_ok(&mut store, "p", 900), (1, -100));
    assert_eq!(store.session(1).unwrap().last_heartbeat, 900);
}

#[test]
fn racing_first_heartbeats_leave_one_open_session() {
    let mut store = SessionStore::new();
    assert_eq!(beat_ok(&mut store, "new", 2000), (1, 0));
    assert_eq!(beat_ok(&mut store, "new", 2000), (1, 0));
    assert_eq!(store.len(), 1);
    let mut other = SessionStore::new();
    beat_ok(&mut other, "new", 2000);
    beat_ok(&mut other, "new", 1500);
    beat_ok(&mut other, "new", 1000);
    let open = (1..=other.len() as i64)
        .filter(|id| other.session(*id).unwrap().end_time.is_none())
        .count();
    assert_eq!(open, 1);
}

#[test]
fn stitch_decisions() {
    assert_eq!(stitch(Some((7, 100)), 250), Stitch::Continue { session_id: 7, duration: 150 });
    assert_eq!(stitch(None, 250), Stitch::Start);
    assert_eq!(staleness_threshold(1000), 700);
    assert_eq!(staleness_threshold(i64::MIN), i64::MIN as i128 - 300);
}

#[test]
fn extreme_timestamps_do_not_overflow_threshold() {
    let mut store = SessionStore::new();
    assert_eq!(beat_ok(&mut store, "p", i64::MIN), (1, 0));
    assert_eq!(beat_ok(&mut store, "p", i64::MIN + 10), (1, 10));
}
