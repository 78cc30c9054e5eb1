use yang_push_key::derive_templates;
use yang_push_key::phase2::{SchemaKind, SchemaNodeInfo};
use yang_push_key::topic::{derive_topic_names, ModulePrefix, TopicConfig};
use yang_push_key::types::DerivationResult;
use yang_push_key::xpath::{parse_xpath_steps, split_union};

/// A schema node of the test modules: module, name, kind, keys, parent.
struct Node {
    module: &'static str,
    name: &'static str,
    kind: SchemaKind,
    keys: &'static [&'static str],
    parent: Option<usize>,
}

fn node(
    module: &'static str,
    name: &'static str,
    kind: SchemaKind,
    keys: &'static [&'static str],
    parent: Option<usize>,
) -> Node {
    Node { module, name, kind, keys, parent }
}

/// The schema trees of the modules the tests subscribe to.
fn schema() -> Vec<Node> {
    vec![
        // 0..: ietf-interfaces, augmented by ietf-ip
        node("ietf-interfaces", "interfaces", SchemaKind::Container, &[], None),
        node("ietf-interfaces", "interface", SchemaKind::List, &["name"], Some(0)),
        node("ietf-interfaces", "name", SchemaKind::Leaf, &[], Some(1)),
        node("ietf-interfaces", "oper-status", SchemaKind::Leaf, &[], Some(1)),
        node("ietf-ip", "ipv4", SchemaKind::Container, &[], Some(1)),
        node("ietf-ip", "mtu", SchemaKind::Leaf, &[], Some(4)),
        // 6..: ietf-system
        node("ietf-system", "system", SchemaKind::Container, &[], None),
        node("ietf-system", "clock", SchemaKind::Container, &[], Some(6)),
        node("ietf-system", "dns-resolver", SchemaKind::Container, &[], Some(6)),
        node("ietf-system", "search", SchemaKind::LeafList, &[], Some(8)),
        // 10..: example-routes
        node("example-routes", "routes", SchemaKind::Container, &[], None),
        node("example-routes", "route", SchemaKind::List, &["destination-prefix", "next-hop"], Some(10)),
        // 12..: example-network
        node("example-network", "network-instances", SchemaKind::Container, &[], None),
        node("example-network", "network-instance", SchemaKind::List, &["name"], Some(12)),
        node("example-network", "interface", SchemaKind::List, &["id"], Some(13)),
        node("example-network", "status", SchemaKind::Leaf, &[], Some(14)),
        // 16..: example-acl
        node("example-acl", "access-lists", SchemaKind::Container, &[], None),
        node("example-acl", "access-list", SchemaKind::List, &["name", "type"], Some(16)),
        node("example-acl", "access-list-entry", SchemaKind::List, &["sequence-id"], Some(17)),
        node("example-acl", "action", SchemaKind::Leaf, &[], Some(18)),
        // 20..: example-deep
        node("example-deep", "root", SchemaKind::Container, &[], None),
        node("example-deep", "level1", SchemaKind::List, &["id"], Some(20)),
        node("example-deep", "level2", SchemaKind::List, &["id"], Some(21)),
        node("example-deep", "level3", SchemaKind::List, &["id"], Some(22)),
        // 24..: example-vlans
        node("example-vlans", "vlans", SchemaKind::Container, &[], None),
        node("example-vlans", "vlan", SchemaKind::List, &["vlan-id"], Some(24)),
    ]
}

/// The ancestor chain (target first) of the schema node a branch names.
fn resolve_branch(branch: &str) -> Option<Vec<SchemaNodeInfo>> {
    let nodes = schema();
    let mut parent: Option<usize> = None;
    let mut path = Vec::new();
    for step in parse_xpath_steps(branch) {
        let i = nodes
            .iter()
            .position(|n| n.parent == parent && n.name == step.local_name)?;
        path.push(i);
        parent = Some(i);
    }
    if path.is_empty() {
        return None;
    }
    Some(
        path.iter()
            .rev()
            .map(|&i| SchemaNodeInfo {
                module: nodes[i].module.to_string(),
                name: nodes[i].name.to_string(),
                kind: nodes[i].kind,
                keys: nodes[i].keys.iter().map(|k| k.to_string()).collect(),
            })
            .collect(),
    )
}

/// Phase 2 against the test schema.
fn derive(xpath: &str) -> Result<DerivationResult, String> {
    let resolved: Vec<Option<Vec<SchemaNodeInfo>>> =
        split_union(xpath).iter().map(|b| resolve_branch(b)).collect();
    derive_templates(xpath, &resolved)
}

/// The YANG `prefix` statements of the test modules.
fn prefixes() -> Vec<ModulePrefix> {
    [
        ("ietf-interfaces", "if"),
        ("ietf-ip", "ip"),
        ("ietf-system", "sys"),
        ("example-routes", "rt"),
        ("example-network", "ni"),
        ("example-acl", "acl"),
        ("example-deep", "deep"),
        ("example-vlans", "vlan"),
    ]
    .iter()
    .map(|(m, p)| ModulePrefix { module: m.to_string(), prefix: p.to_string() })
    .collect()
}

fn single_topic(xpath: &str, expected: &str) {
    let derivation = derive(xpath).expect("derivation failed");
    let result = derive_topic_names(&prefixes(), &derivation, &TopicConfig::default())
        .expect("topic derivation failed");
    assert_eq!(result.topic_names.len(), 1);
    assert_eq!(result.topic_names[0], expected);
}

#[test]
fn topic_simple_list() {
    single_topic("/ietf-interfaces:interfaces/interface", "if-interfaces-interface");
}

#[test]
fn topic_leaf_in_list() {
    single_topic(
        "/ietf-interfaces:interfaces/interface/ietf-ip:ipv4/mtu",
        "if-interfaces-interface-ip-ipv4-mtu",
    );
}

#[test]
fn topic_oper_status() {
    single_topic(
        "/ietf-interfaces:interfaces/interface/oper-status",
        "if-interfaces-interface-oper-status",
    );
}

#[test]
fn topic_container() {
    single_topic("/ietf-system:system/clock", "sys-system-clock");
}

#[test]
fn topic_leaf_list() {
    single_topic("/ietf-system:system/dns-resolver/search", "sys-system-dns-resolver-search");
}

#[test]
fn topic_dns_server() {
    single_topic("/ietf-system:system/dns-resolver/search", "sys-system-dns-resolver-search");
}

#[test]
fn topic_nested_list() {
    single_topic(
        "/example-network:network-instances/network-instance/interface",
        "ni-network-instances-network-instance-interface",
    );
}

#[test]
fn topic_nested_status() {
    single_topic(
        "/example-network:network-instances/network-instance/interface/status",
        "ni-network-instances-network-instance-interface-status",
    );
}

#[test]
fn topic_composite_key() {
    single_topic("/example-routes:routes/route", "rt-routes-route");
}

#[test]
fn topic_three_level_nesting() {
    single_topic("/example-deep:root/level1/level2/level3", "deep-root-level1-level2-level3");
}

#[test]
fn topic_acl_entry() {
    single_topic(
        "/example-acl:access-lists/access-list/access-list-entry",
        "acl-access-lists-access-list-access-list-entry",
    );
}

#[test]
fn topic_acl_leaf() {
    single_topic(
        "/example-acl:access-lists/access-list/access-list-entry/action",
        "acl-access-lists-access-list-access-list-entry-action",
    );
}

#[test]
fn topic_vlan() {
    single_topic("/example-vlans:vlans/vlan", "vlan-vlans-vlan");
}

#[test]
fn topic_concrete_single_key_matches_bare() {
    let bare = "/ietf-interfaces:interfaces/interface";
    let concrete = "/ietf-interfaces:interfaces/interface[name='eth0']";
    let expected = "if-interfaces-interface";

    let d_bare = derive(bare).expect("derivation failed");
    let d_concrete = derive(concrete).expect("derivation failed");
    let t_bare = derive_topic_names(&prefixes(), &d_bare, &TopicConfig::default()).expect("topic failed");
    let t_concrete =
        derive_topic_names(&prefixes(), &d_concrete, &TopicConfig::default()).expect("topic failed");

    assert_eq!(t_bare.topic_names[0], expected);
    assert_eq!(t_concrete.topic_names[0], expected);
    assert_eq!(t_bare.topic_names[0], t_concrete.topic_names[0]);
}

#[test]
fn topic_concrete_leaf_matches_bare() {
    let bare = "/ietf-interfaces:interfaces/interface/ietf-ip:ipv4/mtu";
    let concrete = "/ietf-interfaces:interfaces/interface[name='eth0']/ietf-ip:ipv4/mtu";
    let expected = "if-interfaces-interface-ip-ipv4-mtu";

    let d_bare = derive(bare).expect("derivation failed");
    let d_concrete = derive(concrete).expect("derivation failed");
    let t_bare = derive_topic_names(&prefixes(), &d_bare, &TopicConfig::default()).expect("topic failed");
    let t_concrete =
        derive_topic_names(&prefixes(), &d_concrete, &TopicConfig::default()).expect("topic failed");

    assert_eq!(t_bare.topic_names[0], expected);
    assert_eq!(t_concrete.topic_names[0], expected);
}

#[test]
fn topic_union_two_branches() {
    let xpath = "/ietf-interfaces:interfaces/interface | /example-vlans:vlans/vlan";

    let derivation = derive(xpath).expect("derivation failed");
    let result = derive_topic_names(&prefixes(), &derivation, &TopicConfig::default())
        .expect("topic derivation failed");

    assert_eq!(result.topic_names.len(), 2);
    assert_eq!(result.topic_names[0], "if-interfaces-interface");
    assert_eq!(result.topic_names[1], "vlan-vlans-vlan");
}

#[test]
fn topic_union_three_mixed() {
    let xpath = "/ietf-interfaces:interfaces/interface \
                 | /ietf-system:system/clock \
                 | /ietf-system:system/dns-resolver/search";

    let derivation = derive(xpath).expect("derivation failed");
    let result = derive_topic_names(&prefixes(), &derivation, &TopicConfig::default())
        .expect("topic derivation failed");

    assert_eq!(result.topic_names.len(), 3);
    assert_eq!(result.topic_names[0], "if-interfaces-interface");
    assert_eq!(result.topic_names[1], "sys-system-clock");
    assert_eq!(result.topic_names[2], "sys-system-dns-resolver-search");
}

#[test]
fn topic_names_contain_only_valid_kafka_chars() {
    let xpaths = [
        "/ietf-interfaces:interfaces/interface/ietf-ip:ipv4/mtu",
        "/ietf-system:system/dns-resolver/search",
        "/example-network:network-instances/network-instance/interface/status",
        "/example-acl:access-lists/access-list/access-list-entry/action",
        "/example-deep:root/level1/level2/level3",
    ];

    for xpath in &xpaths {
        let derivation = derive(xpath).expect("derivation failed");
        let result = derive_topic_names(&prefixes(), &derivation, &TopicConfig::default())
            .expect("topic derivation failed");

        for name in &result.topic_names {
            assert!(
                name.chars().all(|c| c.is_ascii_alphanumeric() || c == '-' || c == '_' || c == '.'),
                "Topic '{}' contains invalid character (from xpath: {})",
                name,
                xpath,
            );
            assert!(name.len() <= 249, "Topic '{}' exceeds Kafka limit", name);
        }
    }
}

#[test]
fn topic_with_prefix() {
    let xpath = "/ietf-interfaces:interfaces/interface";
    let config = TopicConfig::new().with_prefix("netops");

    let derivation = derive(xpath).expect("derivation failed");
    let result = derive_topic_names(&prefixes(), &derivation, &config).expect("topic derivation failed");

    assert_eq!(result.topic_names[0], "netops-if-interfaces-interface");
}

#[test]
fn topic_with_long_prefix() {
    let xpath = "/ietf-interfaces:interfaces/interface/ietf-ip:ipv4/mtu";
    let config = TopicConfig::new().with_prefix("acme-corp-platform-team");

    let derivation = derive(xpath).expect("derivation failed");
    let result = derive_topic_names(&prefixes(), &derivation, &config).expect("topic derivation failed");

    assert_eq!(
        result.topic_names[0],
        "acme-corp-platform-team-if-interfaces-interface-ip-ipv4-mtu"
    );
}

#[test]
fn topic_with_empty_prefix_same_as_no_prefix() {
    let xpath = "/ietf-interfaces:interfaces/interface";

    let derivation = derive(xpath).expect("derivation failed");
    let with_empty = derive_topic_names(&prefixes(), &derivation, &TopicConfig::new().with_prefix(""))
        .expect("topic derivation failed");
    let without = derive_topic_names(&prefixes(), &derivation, &TopicConfig::default())
        .expect("topic derivation failed");

    assert_eq!(with_empty.topic_names, without.topic_names);
}

#[test]
fn topic_prefix_on_union_applies_to_all_branches() {
    let xpath = "/ietf-interfaces:interfaces/interface | /example-vlans:vlans/vlan";
    let config = TopicConfig::new().with_prefix("team-a");

    let derivation = derive(xpath).expect("derivation failed");
    let result = derive_topic_names(&prefixes(), &derivation, &config).expect("topic derivation failed");

    assert!(result.topic_names[0].starts_with("team-a-"));
    assert!(result.topic_names[1].starts_with("team-a-"));
}

#[test]
fn topic_custom_max_length() {
    let xpath = "/ietf-interfaces:interfaces/interface/oper-status";
    let config = TopicConfig::new().with_max_length(30);

    let derivation = derive(xpath).expect("derivation failed");
    let result = derive_topic_names(&prefixes(), &derivation, &config).expect("topic derivation failed");

    assert!(result.topic_names[0].len() <= 30);
    let last_dash = result.topic_names[0].rfind('-').unwrap();
    let suffix = &result.topic_names[0][last_dash + 1..];
    assert_eq!(suffix.len(), 8);
}

#[test]
fn topic_prefix_plus_max_length_interaction() {
    let xpath = "/ietf-interfaces:interfaces/interface/oper-status";
    let config = TopicConfig::new().with_prefix("ops").with_max_length(40);

    let derivation = derive(xpath).expect("derivation failed");
    let result = derive_topic_names(&prefixes(), &derivation, &config).expect("topic derivation failed");

    assert!(result.topic_names[0].len() <= 40);
    assert!(result.topic_names[0].starts_with("ops-"));
}

#[test]
fn topic_prefix_too_long_for_budget_returns_error() {
    let xpath = "/ietf-interfaces:interfaces/interface";
    let long_prefix: String = "x".repeat(250);
    let config = TopicConfig::new().with_prefix(&long_prefix).with_max_length(255);

    let derivation = derive(xpath).expect("derivation failed");
    let result = derive_topic_names(&prefixes(), &derivation, &config);

    assert!(result.is_err());
    assert!(result.unwrap_err().contains("too long"));
}

#[test]
fn topic_within_default_max_not_truncated() {
    let xpath = "/ietf-interfaces:interfaces/interface/ietf-ip:ipv4/mtu";

    let derivation = derive(xpath).expect("derivation failed");
    let result = derive_topic_names(&prefixes(), &derivation, &TopicConfig::default())
        .expect("topic derivation failed");

    assert_eq!(result.topic_names[0], "if-interfaces-interface-ip-ipv4-mtu");
    assert!(!result.topic_names[0].chars().any(|c| c.is_ascii_hexdigit() && c.is_ascii_lowercase())
        || result.topic_names[0].contains("interface"));
}
