use std::collections::BTreeMap;
use std::collections::BTreeSet;

use abilisk_firewall::codec::{encode_config, hash};
use abilisk_firewall::config::{ConfigState, Node, NodePool, Rule, RuleProtocol, RulePort,
    RuleSet};

fn text(v: &Vec<char>) -> String {
    v.iter().collect()
}

fn rule(pools: &[&str], ports: Vec<RulePort>) -> Rule {
    let pool_ids: Vec<String> = pools.iter().map(|p| p.to_string()).collect();
    Rule::new(RuleProtocol::TCP, ports, pool_ids).expect("well-formed rule")
}

fn ruleset(pools: &[&str]) -> RuleSet {
    RuleSet::new(vec![rule(pools, vec![RulePort::Single(80)])])
}

/// Recomputes the dependency index from scratch by scanning every stored
/// rule set, and compares it with the maintained one, set for set.
fn assert_index_matches_oracle(state: &ConfigState) {
    let mut oracle: BTreeMap<String, BTreeSet<String>> = BTreeMap::new();
    for i in 0..state.rulesets.len() {
        let id = state.rulesets.key_at(i).clone();
        let rs = state.rulesets.val_at(i);
        for rule in rs.rules.iter() {
            for pool in rule.nodepools.iter() {
                oracle.entry(pool.clone()).or_insert_with(BTreeSet::new).insert(id.clone());
            }
        }
    }
    let mut maintained: BTreeMap<String, BTreeSet<String>> = BTreeMap::new();
    for i in 0..state.dependency_tree.len() {
        let pool = state.dependency_tree.key_at(i).clone();
        let ids = state.dependency_tree.val_at(i);
        let mut set = BTreeSet::new();
        for j in 0..ids.len() {
            set.insert(ids.at(j).clone());
        }
        assert!(!set.is_empty());
        maintained.insert(pool, set);
    }
    assert_eq!(maintained, oracle);
}

#[test]
fn dependency_index_tracks_mutations() {
    let mut c = ConfigState::new();
    c.add_ruleset("rs1".to_string(), ruleset(&["web", "db"]));
    c.add_ruleset("rs2".to_string(), ruleset(&["web"]));
    assert_index_matches_oracle(&c);
    let doc = text(&encode_config(&c));
    assert!(doc.contains("\"web\":[\"rs1\",\"rs2\"]"));
    assert!(doc.contains("\"db\":[\"rs1\"]"));

    c.remove_ruleset(&"rs1".to_string());
    let doc = text(&encode_config(&c));
    assert!(doc.contains("\"web\":[\"rs2\"]"));
    assert!(!doc.contains("\"db\""));

    c.remove_ruleset(&"rs2".to_string());
    let doc = text(&encode_config(&c));
    assert!(doc.contains("\"dependency_tree\":{}"));
}

#[test]
fn add_ruleset_is_replace_not_merge() {
    let mut twice = ConfigState::new();
    twice.add_ruleset("keep".to_string(), ruleset(&["stable"]));
    twice.add_ruleset("rs".to_string(), ruleset(&["web", "db"]));
    twice.add_ruleset("rs".to_string(), ruleset(&["dmz"]));

    let mut once = ConfigState::new();
    once.add_ruleset("keep".to_string(), ruleset(&["stable"]));
    once.add_ruleset("rs".to_string(), ruleset(&["dmz"]));

    assert_eq!(text(&encode_config(&twice)), text(&encode_config(&once)));
    assert_eq!(hash(&twice), hash(&once));
}

#[test]
fn remove_unknown_ruleset_is_noop() {
    let mut c = ConfigState::new();
    c.add_ruleset("rs1".to_string(), ruleset(&["web"]));
    let before_doc = text(&encode_config(&c));
    let before_hash = hash(&c);
    c.remove_ruleset(&"missing".to_string());
    assert_eq!(text(&encode_config(&c)), before_doc);
    assert_eq!(hash(&c), before_hash);
}

#[test]
fn remove_nodepool_keeps_dangling_references() {
    let mut c = ConfigState::new();
    let mut pool = NodePool::new();
    pool.add_node(
        "h1".to_string(),
        Node::new("h1".to_string(), "10.0.0.1".to_string()),
    );
    c.add_nodepool("web".to_string(), pool);
    c.add_ruleset("rs1".to_string(), ruleset(&["web"]));
    c.remove_nodepool(&"web".to_string());
    let doc = text(&encode_config(&c));
    assert!(doc.contains("\"nodepools\":{}"));
    // The rule still names the pool, and so does the dependency index.
    assert!(doc.contains("\"web\":[\"rs1\"]"));
}

#[test]
fn rule_new_rejects_unsorted_or_duplicate() {
    let unsorted = Rule::new(
        RuleProtocol::TCP,
        vec![RulePort::Single(443), RulePort::Single(80)],
        vec![],
    );
    assert!(unsorted.is_none());
    let duplicate_pool = Rule::new(
        RuleProtocol::UDP,
        vec![RulePort::Single(53)],
        vec!["web".to_string(), "web".to_string()],
    );
    assert!(duplicate_pool.is_none());
    let single_before_equal_range = Rule::new(
        RuleProtocol::TCP,
        vec![RulePort::Single(80), RulePort::Range { start: 80, end: 80 }],
        vec![],
    );
    assert!(single_before_equal_range.is_some());
}

#[test]
fn add_nodepool_replaces_existing() {
    let mut c = ConfigState::new();
    let mut pool1 = NodePool::new();
    pool1.add_node(
        "h1".to_string(),
        Node::new("h1".to_string(), "10.0.0.1".to_string()),
    );
    c.add_nodepool("web".to_string(), pool1);
    let mut pool2 = NodePool::new();
    pool2.add_node(
        "h2".to_string(),
        Node::new("h2".to_string(), "10.0.0.2".to_string()),
    );
    c.add_nodepool("web".to_string(), pool2);
    let doc = text(&encode_config(&c));
    assert!(!doc.contains("h1"));
    assert!(doc.contains("\"h2\":{\"hostname\":\"h2\",\"ip\":\"10.0.0.2\"}"));
}
