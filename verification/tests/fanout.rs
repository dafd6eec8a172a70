use central_server::broadcast::Broadcast;

fn value(s: &str) -> Vec<u8> {
    s.as_bytes().to_vec()
}

#[test]
fn subscriber_observes_value_current_at_subscribe_time() {
    let b = Broadcast::new(value("[]"));
    let mut s = b.subscribe();
    assert_eq!(s.poll(&b), Some(value("[]")));
    assert_eq!(s.poll(&b), None);
}

#[test]
fn late_subscriber_sees_only_latest() {
    let mut b = Broadcast::new(value("[]"));
    b.publish(value("[\"10.0.0.1\"]"));
    b.publish(value("[\"10.0.0.1\",\"10.0.0.2\"]"));
    b.publish(value("[\"10.0.0.2\"]"));
    // A subscription opened after many publishes observes the newest
    // value once, never any earlier one.
    let mut s = b.subscribe();
    assert_eq!(s.poll(&b), Some(value("[\"10.0.0.2\"]")));
    assert_eq!(s.poll(&b), None);
}

#[test]
fn slow_subscriber_skips_to_latest() {
    let mut b = Broadcast::new(value("[]"));
    let mut s = b.subscribe();
    assert_eq!(s.poll(&b), Some(value("[]")));
    // Three publishes land before the subscriber checks again: it gets
    // only the newest.
    b.publish(value("a"));
    b.publish(value("b"));
    b.publish(value("c"));
    assert_eq!(s.poll(&b), Some(value("c")));
    assert_eq!(s.poll(&b), None);
}

#[test]
fn subscribers_before_and_after_a_change_converge() {
    let mut b = Broadcast::new(value("[]"));
    let mut early = b.subscribe();
    assert_eq!(early.poll(&b), Some(value("[]")));

    b.publish(value("[\"10.0.0.1\"]"));
    let mut late = b.subscribe();

    let seen_early = early.poll(&b);
    let seen_late = late.poll(&b);
    assert_eq!(seen_early, Some(value("[\"10.0.0.1\"]")));
    assert_eq!(seen_early, seen_late);
    assert_eq!(early.poll(&b), None);
    assert_eq!(late.poll(&b), None);
}

#[test]
fn each_subscription_observes_changes_in_publish_order() {
    let mut b = Broadcast::new(value("one"));
    let mut s1 = b.subscribe();
    let mut s2 = b.subscribe();
    let mut seen1: Vec<Vec<u8>> = Vec::new();
    let mut seen2: Vec<Vec<u8>> = Vec::new();

    if let Some(v) = s1.poll(&b) {
        seen1.push(v);
    }
    b.publish(value("two"));
    if let Some(v) = s1.poll(&b) {
        seen1.push(v);
    }
    if let Some(v) = s2.poll(&b) {
        seen2.push(v);
    }
    b.publish(value("three"));
    if let Some(v) = s1.poll(&b) {
        seen1.push(v);
    }
    if let Some(v) = s2.poll(&b) {
        seen2.push(v);
    }

    // Both observation logs follow publish order, whatever each skipped.
    assert_eq!(seen1, vec![value("one"), value("two"), value("three")]);
    assert_eq!(seen2, vec![value("two"), value("three")]);
}
