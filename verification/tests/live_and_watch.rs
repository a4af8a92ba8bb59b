use abilisk_firewall::live::LiveStateInner;
use abilisk_firewall::reconcile::{Membership, NodeAddress, NodeEvent, NodeInfo,
    extract_public_ip};

fn node(name: &str, external: Option<&str>) -> NodeInfo {
    let mut addrs = Vec::new();
    addrs.push(NodeAddress::new(
        "InternalIP".to_string(),
        "192.168.0.1".to_string(),
    ));
    if let Some(ip) = external {
        addrs.push(NodeAddress::new("ExternalIP".to_string(), ip.to_string()));
    }
    NodeInfo::new(name.to_string(), addrs)
}

fn bare_node(name: &str) -> NodeInfo {
    NodeInfo::new(name.to_string(), Vec::new())
}

#[test]
fn extract_takes_first_external_address() {
    let mut addrs = Vec::new();
    addrs.push(NodeAddress::new("ExternalIP".to_string(), "1.1.1.1".to_string()));
    addrs.push(NodeAddress::new("ExternalIP".to_string(), "2.2.2.2".to_string()));
    let n = NodeInfo::new("n1".to_string(), addrs);
    assert_eq!(extract_public_ip(&n).map(|s| s.as_str()), Some("1.1.1.1"));
    assert!(extract_public_ip(&bare_node("n2")).is_none());
}

#[test]
fn absence_is_not_erasure_but_deletion_is() {
    let mut m = Membership::new();
    m.apply_event(&NodeEvent::Applied(node("n1", Some("1.2.3.4"))));
    assert_eq!(
        m.lookup(&"n1".to_string()).map(|s| s.as_str()),
        Some("1.2.3.4")
    );
    // An update without addresses leaves the recorded address untouched.
    m.apply_event(&NodeEvent::Applied(bare_node("n1")));
    assert_eq!(
        m.lookup(&"n1".to_string()).map(|s| s.as_str()),
        Some("1.2.3.4")
    );
    m.apply_event(&NodeEvent::Deleted(bare_node("n1")));
    assert!(m.lookup(&"n1".to_string()).is_none());
}

#[test]
fn restart_clears_and_rebuilds() {
    let mut m = Membership::new();
    m.apply_event(&NodeEvent::Applied(node("n3", Some("3.3.3.3"))));
    m.apply_event(&NodeEvent::Restarted(vec![
        node("n1", Some("1.1.1.1")),
        node("n2", Some("2.2.2.2")),
    ]));
    assert_eq!(m.len(), 2);
    assert_eq!(
        m.lookup(&"n1".to_string()).map(|s| s.as_str()),
        Some("1.1.1.1")
    );
    assert_eq!(
        m.lookup(&"n2".to_string()).map(|s| s.as_str()),
        Some("2.2.2.2")
    );
    assert!(m.lookup(&"n3".to_string()).is_none());
}

#[test]
fn applied_update_replaces_address() {
    let mut m = Membership::new();
    m.apply_event(&NodeEvent::Applied(node("n1", Some("1.1.1.1"))));
    m.apply_event(&NodeEvent::Applied(node("n1", Some("9.9.9.9"))));
    assert_eq!(m.len(), 1);
    assert_eq!(
        m.lookup(&"n1".to_string()).map(|s| s.as_str()),
        Some("9.9.9.9")
    );
}

#[test]
fn subscriber_gets_notification_then_entry_vanishes() {
    let mut live = LiveStateInner::new();
    let mut rx = live.add_client("10.0.0.7".to_string(), "rs1".to_string());
    let delivered = live.notify(&"rs1".to_string());
    assert_eq!(delivered, 1);
    assert!(rx.try_recv().is_ok(), "one notification arrives");
    assert!(rx.try_recv().is_err(), "and exactly one");

    live.remove_client("10.0.0.7".to_string(), "rs1".to_string());
    assert_eq!(live.notify(&"rs1".to_string()), 0, "entry is gone");
}

#[test]
fn remove_unknown_subscriber_is_noop() {
    let mut live = LiveStateInner::new();
    let mut rx = live.add_client("10.0.0.7".to_string(), "rs1".to_string());
    live.remove_client("10.0.0.9".to_string(), "rs1".to_string());
    live.remove_client("10.0.0.7".to_string(), "rs2".to_string());
    assert_eq!(live.notify(&"rs1".to_string()), 1, "the subscriber survived both no-ops");
    assert!(rx.try_recv().is_ok());
}

#[test]
fn notify_unknown_ruleset_reaches_nobody() {
    let live = LiveStateInner::new();
    assert_eq!(live.notify(&"nope".to_string()), 0);
}

#[test]
fn reregistering_replaces_the_channel() {
    let mut live = LiveStateInner::new();
    let mut old_rx = live.add_client("10.0.0.7".to_string(), "rs1".to_string());
    let mut new_rx = live.add_client("10.0.0.7".to_string(), "rs1".to_string());
    let delivered = live.notify(&"rs1".to_string());
    assert_eq!(delivered, 1, "one subscriber, one channel");
    assert!(old_rx.try_recv().is_err(), "the replaced channel stays silent");
    assert!(new_rx.try_recv().is_ok());
}

#[test]
fn slow_subscriber_drops_notifications_without_blocking() {
    let mut live = LiveStateInner::new();
    let mut rx = live.add_client("10.0.0.8".to_string(), "rs1".to_string());
    // Fill the bounded queue and keep notifying: delivery never blocks,
    // overflow is dropped.
    let mut accepted = 0;
    for _ in 0..25 {
        accepted += live.notify(&"rs1".to_string());
    }
    assert_eq!(accepted, 10, "queue capacity bounds what is accepted");
    let mut drained = 0;
    while rx.try_recv().is_ok() {
        drained += 1;
    }
    assert_eq!(drained, 10);
}
