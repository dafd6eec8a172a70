use central_server::codec::is_heartbeat_payload;
use central_server::tracker::AgentTracker;

fn addr(s: &str) -> Vec<u8> {
    s.as_bytes().to_vec()
}

fn payload_text(t: &AgentTracker) -> String {
    String::from_utf8(t.snapshot_payload()).expect("snapshot payload is text")
}

#[test]
fn starts_empty() {
    let t = AgentTracker::new();
    assert_eq!(t.members_list().len(), 0);
    assert_eq!(payload_text(&t), "[]");
}

#[test]
fn fast_join_publishes_immediately() {
    let mut t = AgentTracker::new();
    let publish = t.heartbeat(&addr("10.0.0.1"));
    assert!(publish);
    assert_eq!(payload_text(&t), "[\"10.0.0.1\"]");
}

#[test]
fn repeated_heartbeat_publishes_nothing() {
    let mut t = AgentTracker::new();
    assert!(t.heartbeat(&addr("10.0.0.1")));
    assert!(!t.heartbeat(&addr("10.0.0.1")));
    assert!(!t.heartbeat(&addr("10.0.0.1")));
    assert_eq!(payload_text(&t), "[\"10.0.0.1\"]");
}

#[test]
fn epoch_scenario_join_hold_evict() {
    // Epoch length 3: heartbeats from X at t=0 and t=2, then silence.
    let mut t = AgentTracker::new();
    let x = addr("192.168.1.9");

    // t=0: X joins, membership becomes {X}, publish fires.
    assert!(t.heartbeat(&x));
    assert_eq!(payload_text(&t), "[\"192.168.1.9\"]");

    // t=2: repeat heartbeat, no publish.
    assert!(!t.heartbeat(&x));

    // t=3, first boundary: pending {X} equals current {X}, no publish.
    assert!(!t.expire());
    assert_eq!(payload_text(&t), "[\"192.168.1.9\"]");

    // t=6, second boundary: pending is empty, X is evicted, publish fires
    // with the empty set. Detection latency from t=2 is 4 time units.
    assert!(t.expire());
    assert_eq!(payload_text(&t), "[]");
}

#[test]
fn two_silent_epochs_evict() {
    let mut t = AgentTracker::new();
    assert!(t.heartbeat(&addr("10.1.1.1")));
    // Boundary right after the heartbeat keeps the address.
    assert!(!t.expire());
    assert_eq!(payload_text(&t), "[\"10.1.1.1\"]");
    // Silent through the next epoch: gone at its boundary.
    assert!(t.expire());
    assert_eq!(payload_text(&t), "[]");
}

#[test]
fn eviction_keeps_live_addresses() {
    let mut t = AgentTracker::new();
    assert!(t.heartbeat(&addr("10.0.0.1")));
    assert!(t.heartbeat(&addr("10.0.0.2")));
    assert!(!t.expire());
    // Only one of the two keeps heartbeating.
    assert!(!t.heartbeat(&addr("10.0.0.1")));
    assert!(t.expire());
    assert_eq!(payload_text(&t), "[\"10.0.0.1\"]");
}

#[test]
fn membership_listed_in_lexicographic_order() {
    let mut t = AgentTracker::new();
    assert!(t.heartbeat(&addr("9.9.9.9")));
    assert!(t.heartbeat(&addr("10.0.0.2")));
    assert!(t.heartbeat(&addr("10.0.0.10")));
    let members = t.members_list();
    let names: Vec<String> = members
        .iter()
        .map(|m| String::from_utf8(m.clone()).expect("address is text"))
        .collect();
    assert_eq!(names, vec!["10.0.0.10", "10.0.0.2", "9.9.9.9"]);
    assert_eq!(payload_text(&t), "[\"10.0.0.10\",\"10.0.0.2\",\"9.9.9.9\"]");
}

#[test]
fn marker_must_match_byte_for_byte() {
    assert!(is_heartbeat_payload(&addr("Heartbeat!")));
    assert!(!is_heartbeat_payload(&addr("heartbeat!")));
    assert!(!is_heartbeat_payload(&addr("Heartbeat! ")));
    assert!(!is_heartbeat_payload(&addr(" Heartbeat!")));
    assert!(!is_heartbeat_payload(&addr("Heartbeat")));
    assert!(!is_heartbeat_payload(&addr("")));
}

#[test]
fn rejected_payload_registers_nothing() {
    // The ingestion gate: only an exact marker forwards a heartbeat event.
    let mut t = AgentTracker::new();
    let mut publishes: u32 = 0;
    for payload in ["heartbeat!", "Heartbeat! ", "HEARTBEAT!"] {
        if is_heartbeat_payload(&addr(payload)) {
            if t.heartbeat(&addr("10.0.0.1")) {
                publishes += 1;
            }
        }
    }
    assert_eq!(publishes, 0);
    assert_eq!(t.members_list().len(), 0);
    assert_eq!(payload_text(&t), "[]");
}
