use yang_push_key::topic::{
    derive_topic_names, schema_path_to_topic, simple_hash, truncate_with_hash, ModulePrefix,
    TopicConfig, HASH_SUFFIX_LEN,
};
use yang_push_key::types::{BranchTemplate, DerivationResult, TargetType};

#[test]
fn hash_is_deterministic() {
    let a = simple_hash("/ietf-interfaces:interfaces/interface");
    let b = simple_hash("/ietf-interfaces:interfaces/interface");
    assert_eq!(a, b);
}

#[test]
fn hash_differs_for_different_inputs() {
    let a = simple_hash("/ietf-interfaces:interfaces/interface");
    let b = simple_hash("/ietf-system:system/clock");
    assert_ne!(a, b);
}

#[test]
fn truncate_with_hash_respects_budget() {
    let long_topic = "a-".repeat(150);
    let schema_path = "/some/very/long/path";
    let result = truncate_with_hash(&long_topic, schema_path, 50);
    assert!(result.len() <= 50);
}

#[test]
fn truncate_preserves_dash_boundary() {
    let long_topic = format!("{}-{}", "abcdef".repeat(30), "final");
    let schema_path = "/test";
    let result = truncate_with_hash(&long_topic, schema_path, 50);
    let last_dash = result.rfind('-').unwrap();
    let suffix = &result[last_dash + 1..];
    assert_eq!(suffix.len(), HASH_SUFFIX_LEN);
}

#[test]
fn default_config_has_no_prefix_and_255_max() {
    let cfg = TopicConfig::default();
    assert_eq!(cfg.prefix, None);
    assert_eq!(cfg.max_length, 255);
    assert_eq!(cfg.schema_budget(), 255);
}

#[test]
fn prefix_reduces_schema_budget() {
    let cfg = TopicConfig::new().with_prefix("netops");
    // "netops" = 6 chars + 1 separator = 7, budget = 255 - 7 = 248
    assert_eq!(cfg.schema_budget(), 248);
}

#[test]
fn empty_prefix_treated_as_none() {
    let cfg = TopicConfig::new().with_prefix("");
    assert_eq!(cfg.prefix, None);
    assert_eq!(cfg.schema_budget(), 255);
}

// ---------------------------------------------------------------------
//  Further cases
// ---------------------------------------------------------------------

fn table() -> Vec<ModulePrefix> {
    vec![
        ModulePrefix { module: "ietf-interfaces".into(), prefix: "if".into() },
        ModulePrefix { module: "ietf-ip".into(), prefix: "ip".into() },
        ModulePrefix { module: "ietf-system".into(), prefix: "sys".into() },
        ModulePrefix { module: "example-vlans".into(), prefix: "vlan".into() },
    ]
}

fn branch(i: usize, template: &str) -> BranchTemplate {
    BranchTemplate {
        branch_index: i,
        branch_xpath: String::new(),
        key_template: template.into(),
        extractions: vec![],
        target_type: TargetType::List,
    }
}

#[test]
fn fnv1a_known_values() {
    assert_eq!(simple_hash(""), 0xcbf29ce484222325);
    assert_eq!(simple_hash("a"), 0xaf63dc4c8601ec8c);
}

#[test]
fn topic_for_leaf_in_list_path() {
    let t = schema_path_to_topic(
        &table(),
        "/ietf-interfaces:interfaces/interface/ietf-ip:ipv4/mtu",
        &TopicConfig::new(),
    )
    .unwrap();
    assert_eq!(t, "if-interfaces-interface-ip-ipv4-mtu");
}

#[test]
fn topic_with_prefix_and_union() {
    let d = DerivationResult {
        subscription_xpath: String::new(),
        branches: vec![
            branch(0, "/ietf-interfaces:interfaces/interface[name='%s']"),
            branch(1, "/example-vlans:vlans/vlan[vlan-id='%s']"),
        ],
    };
    let r = derive_topic_names(&table(), &d, &TopicConfig::new().with_prefix("team-a")).unwrap();
    assert_eq!(
        r.topic_names,
        vec!["team-a-if-interfaces-interface", "team-a-vlan-vlans-vlan"]
    );
}

#[test]
fn topic_unknown_module_is_an_error() {
    let e = schema_path_to_topic(&table(), "/nope:x/y", &TopicConfig::new()).unwrap_err();
    assert_eq!(e, "cannot find module 'nope' for prefix lookup");
}

#[test]
fn topic_prefix_too_long_is_an_error() {
    let d = DerivationResult {
        subscription_xpath: String::new(),
        branches: vec![branch(0, "/ietf-interfaces:interfaces/interface[name='%s']")],
    };
    let cfg = TopicConfig::new().with_prefix(&"x".repeat(250));
    let e = derive_topic_names(&table(), &d, &cfg).unwrap_err();
    assert!(e.contains("too long"));
    assert!(e.contains("max_length 255"));
}

#[test]
fn topic_custom_max_length_truncates_with_hash() {
    let cfg = TopicConfig::new().with_max_length(30);
    let path = "/ietf-interfaces:interfaces/interface/oper-status";
    let t = schema_path_to_topic(&table(), path, &cfg).unwrap();
    assert!(t.len() <= 30);
    let hash = format!("{:016x}", simple_hash(path));
    assert_eq!(t, format!("if-interfaces-{}", &hash[..8]));
}

#[test]
fn topic_same_for_pinned_and_open_subscriptions() {
    let d = DerivationResult {
        subscription_xpath: String::new(),
        branches: vec![
            branch(0, "/ietf-interfaces:interfaces/interface[name='%s']/mtu"),
            branch(1, "/ietf-interfaces:interfaces/interface[name='eth0']/mtu"),
        ],
    };
    let r = derive_topic_names(&table(), &d, &TopicConfig::new()).unwrap();
    assert_eq!(r.topic_names[0], "if-interfaces-interface-mtu");
    assert_eq!(r.topic_names[0], r.topic_names[1]);
}

#[test]
fn topic_stable_when_more_modules_are_loaded() {
    let path = "/ietf-system:system/clock";
    let before = schema_path_to_topic(&table(), path, &TopicConfig::new()).unwrap();
    let mut more = table();
    more.push(ModulePrefix { module: "example-acl".into(), prefix: "acl".into() });
    let after = schema_path_to_topic(&more, path, &TopicConfig::new()).unwrap();
    assert_eq!(before, "sys-system-clock");
    assert_eq!(before, after);
}

#[test]
fn topic_names_fit_max_length() {
    let long = format!("/ietf-system:system/{}", "level/".repeat(60));
    let d = DerivationResult {
        subscription_xpath: String::new(),
        branches: vec![branch(0, &long)],
    };
    let cfg = TopicConfig::new().with_prefix("netops").with_max_length(60);
    let r = derive_topic_names(&table(), &d, &cfg).unwrap();
    assert!(r.topic_names[0].len() <= 60);
    assert!(r.topic_names[0].starts_with("netops-sys-system-level-"));
}
