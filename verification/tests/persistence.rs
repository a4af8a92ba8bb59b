use abilisk_firewall::codec::{decode_config, encode_config, hash};
use abilisk_firewall::config::{ConfigState, Node, NodePool, Rule, RuleProtocol, RulePort,
    RuleSet};
use abilisk_firewall::store::{LoadError, OnDiskState};

fn text(v: &Vec<char>) -> String {
    v.iter().collect()
}

fn chars(s: &str) -> Vec<char> {
    s.chars().collect()
}

fn sample_state() -> ConfigState {
    let mut c = ConfigState::new();
    let mut pool = NodePool::new();
    pool.add_node(
        "n1".to_string(),
        Node::new("n1".to_string(), "1.2.3.4".to_string()),
    );
    pool.add_node(
        "n2".to_string(),
        Node::new("n2".to_string(), "5.6.7.8".to_string()),
    );
    c.add_nodepool("web".to_string(), pool);
    let rule = Rule::new(
        RuleProtocol::TCP,
        vec![
            RulePort::Single(80),
            RulePort::Single(443),
            RulePort::Range { start: 8000, end: 8100 },
        ],
        vec!["web".to_string()],
    )
    .expect("well-formed rule");
    c.add_ruleset("rs1".to_string(), RuleSet::new(vec![rule]));
    c
}

#[test]
fn rule_ports_encode_structurally() {
    let c = sample_state();
    let doc = text(&encode_config(&c));
    assert!(doc.contains("\"protocol\":\"tcp\""));
    assert!(doc.contains("\"ports\":[80,443,{\"start\":8000,\"end\":8100}]"));
    assert!(doc.contains("\"nodepools\":[\"web\"]"));
}

#[test]
fn snapshot_round_trips() {
    let c = sample_state();
    let doc = encode_config(&c);
    let back = decode_config(&doc).expect("canonical document reloads");
    assert_eq!(hash(&back), hash(&c));
    assert_eq!(text(&encode_config(&back)), text(&doc));
}

#[test]
fn empty_state_round_trips() {
    let c = ConfigState::new();
    let doc = encode_config(&c);
    assert_eq!(
        text(&doc),
        "{\"nodepools\":{},\"rulesets\":{},\"dependency_tree\":{}}"
    );
    let back = decode_config(&doc).expect("empty document reloads");
    assert_eq!(hash(&back), hash(&c));
}

#[test]
fn escaped_ids_round_trip() {
    let mut c = ConfigState::new();
    let odd_id = "we\"b\\pool".to_string();
    let rule = Rule::new(RuleProtocol::UDP, vec![RulePort::Single(53)], vec![odd_id.clone()])
        .expect("well-formed rule");
    c.add_ruleset("r\"s".to_string(), RuleSet::new(vec![rule]));
    let doc = encode_config(&c);
    let back = decode_config(&doc).expect("escaped document reloads");
    assert_eq!(hash(&back), hash(&c));
    assert_eq!(text(&encode_config(&back)), text(&doc));
}

#[test]
fn corrupt_snapshot_is_rejected() {
    assert!(decode_config(&chars("{\"nodepools\":{}")).is_none());
    assert!(decode_config(&chars("not json at all")).is_none());
    assert!(decode_config(&chars("")).is_none());
    // Valid JSON, but not the canonical document: the index disagrees
    // with the rule sets.
    let tampered = "{\"nodepools\":{},\"rulesets\":{},\"dependency_tree\":{\"web\":[\"ghost\"]}}";
    assert!(decode_config(&chars(tampered)).is_none());
}

#[test]
fn store_start_without_snapshot_is_empty() {
    let store = OnDiskState::start(None).expect("fresh start");
    assert_eq!(
        text(&encode_config(&store.state)),
        "{\"nodepools\":{},\"rulesets\":{},\"dependency_tree\":{}}"
    );
}

#[test]
fn store_start_on_corrupt_snapshot_fails() {
    let r = OnDiskState::start(Some(chars("garbage")));
    assert!(matches!(r, Err(LoadError::Corrupt)));
}

#[test]
fn ticks_write_once_until_mutated() {
    let mut store = OnDiskState::start(None).expect("fresh start");
    let first = store.tick();
    assert!(first.is_some(), "first pass establishes the baseline");
    let second = store.tick();
    assert!(second.is_none(), "no mutation, no write");
    let third = store.tick();
    assert!(third.is_none());

    let rule = Rule::new(RuleProtocol::TCP, vec![RulePort::Single(22)], vec![
        "admin".to_string(),
    ])
    .expect("well-formed rule");
    store.add_ruleset("ssh".to_string(), RuleSet::new(vec![rule]));
    let after_mutation = store.tick();
    let written = after_mutation.expect("mutation forces one write");
    assert!(text(&written).contains("\"ssh\""));
    assert!(store.tick().is_none(), "already persisted");
}

#[test]
fn written_snapshot_reloads_with_same_fingerprint() {
    let mut store = OnDiskState::start(None).expect("fresh start");
    let rule = Rule::new(RuleProtocol::UDP, vec![RulePort::Single(123)], vec![
        "ntp".to_string(),
    ])
    .expect("well-formed rule");
    store.add_ruleset("time".to_string(), RuleSet::new(vec![rule]));
    let written = store.tick().expect("mutation forces a write");
    let reloaded = OnDiskState::start(Some(written)).expect("snapshot reloads");
    assert_eq!(hash(&reloaded.state), hash(&store.state));
}

#[test]
fn fingerprint_is_fnv1a_of_the_document() {
    // FNV-1a (64 bit) over the canonical empty document, computed
    // independently character by character.
    let c = ConfigState::new();
    assert_eq!(hash(&c), 0x28a59c37d4921db1);
    let mut expected: u64 = 0xcbf29ce484222325;
    for ch in text(&encode_config(&c)).chars() {
        expected = (expected ^ (ch as u64)).wrapping_mul(0x100000001b3);
    }
    assert_eq!(hash(&c), expected);
}

#[test]
fn port_bounds_encode() {
    let rule = Rule::new(
        RuleProtocol::TCP,
        vec![RulePort::Single(0), RulePort::Range { start: 1, end: 65535 }],
        vec![],
    )
    .expect("well-formed rule");
    let mut c = ConfigState::new();
    c.add_ruleset("edge".to_string(), RuleSet::new(vec![rule]));
    let doc = encode_config(&c);
    assert!(text(&doc).contains("\"ports\":[0,{\"start\":1,\"end\":65535}]"));
    let back = decode_config(&doc).expect("bounds reload");
    assert_eq!(hash(&back), hash(&c));
}
