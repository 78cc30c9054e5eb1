use yang_push_key::derive_templates;
use yang_push_key::phase2::{SchemaKind, SchemaNodeInfo};
use yang_push_key::types::{DerivationResult, TargetType};
use yang_push_key::xpath::{parse_xpath_steps, split_union};

/// A schema node of the test modules: module, name, kind, keys, parent.
struct Node {
    module: &'static str,
    name: &'static str,
    kind: SchemaKind,
    keys: &'static [&'static str],
    parent: Option<usize>,
}

fn node(
    module: &'static str,
    name: &'static str,
    kind: SchemaKind,
    keys: &'static [&'static str],
    parent: Option<usize>,
) -> Node {
    Node { module, name, kind, keys, parent }
}

/// The schema trees of the modules the tests subscribe to.
fn schema() -> Vec<Node> {
    vec![
        // 0..: ietf-interfaces, augmented by ietf-ip
        node("ietf-interfaces", "interfaces", SchemaKind::Container, &[], None),
        node("ietf-interfaces", "interface", SchemaKind::List, &["name"], Some(0)),
        node("ietf-interfaces", "name", SchemaKind::Leaf, &[], Some(1)),
        node("ietf-interfaces", "oper-status", SchemaKind::Leaf, &[], Some(1)),
        node("ietf-ip", "ipv4", SchemaKind::Container, &[], Some(1)),
        node("ietf-ip", "mtu", SchemaKind::Leaf, &[], Some(4)),
        // 6..: ietf-system
        node("ietf-system", "system", SchemaKind::Container, &[], None),
        node("ietf-system", "clock", SchemaKind::Container, &[], Some(6)),
        node("ietf-system", "dns-resolver", SchemaKind::Container, &[], Some(6)),
        node("ietf-system", "search", SchemaKind::LeafList, &[], Some(8)),
        // 10..: example-routes
        node("example-routes", "routes", SchemaKind::Container, &[], None),
        node("example-routes", "route", SchemaKind::List, &["destination-prefix", "next-hop"], Some(10)),
        // 12..: example-network
        node("example-network", "network-instances", SchemaKind::Container, &[], None),
        node("example-network", "network-instance", SchemaKind::List, &["name"], Some(12)),
        node("example-network", "interface", SchemaKind::List, &["id"], Some(13)),
        node("example-network", "status", SchemaKind::Leaf, &[], Some(14)),
        // 16..: example-acl
        node("example-acl", "access-lists", SchemaKind::Container, &[], None),
        node("example-acl", "access-list", SchemaKind::List, &["name", "type"], Some(16)),
        node("example-acl", "access-list-entry", SchemaKind::List, &["sequence-id"], Some(17)),
        node("example-acl", "action", SchemaKind::Leaf, &[], Some(18)),
        // 20..: example-deep
        node("example-deep", "root", SchemaKind::Container, &[], None),
        node("example-deep", "level1", SchemaKind::List, &["id"], Some(20)),
        node("example-deep", "level2", SchemaKind::List, &["id"], Some(21)),
        node("example-deep", "level3", SchemaKind::List, &["id"], Some(22)),
        // 24..: example-vlans
        node("example-vlans", "vlans", SchemaKind::Container, &[], None),
        node("example-vlans", "vlan", SchemaKind::List, &["vlan-id"], Some(24)),
    ]
}

/// The ancestor chain (target first) of the schema node a branch names.
fn resolve_branch(branch: &str) -> Option<Vec<SchemaNodeInfo>> {
    let nodes = schema();
    let mut parent: Option<usize> = None;
    let mut path = Vec::new();
    for step in parse_xpath_steps(branch) {
        let i = nodes
            .iter()
            .position(|n| n.parent == parent && n.name == step.local_name)?;
        path.push(i);
        parent = Some(i);
    }
    if path.is_empty() {
        return None;
    }
    Some(
        path.iter()
            .rev()
            .map(|&i| SchemaNodeInfo {
                module: nodes[i].module.to_string(),
                name: nodes[i].name.to_string(),
                kind: nodes[i].kind,
                keys: nodes[i].keys.iter().map(|k| k.to_string()).collect(),
            })
            .collect(),
    )
}

/// Phase 2 against the test schema.
fn derive(xpath: &str) -> Result<DerivationResult, String> {
    let resolved: Vec<Option<Vec<SchemaNodeInfo>>> =
        split_union(xpath).iter().map(|b| resolve_branch(b)).collect();
    derive_templates(xpath, &resolved)
}

#[test]
fn p2_01_simple_list_single_key() {
    let xpath = "/ietf-interfaces:interfaces/interface";
    let expected_template = "/ietf-interfaces:interfaces/interface[name='%s']";

    let result = derive(xpath).expect("derivation failed");

    assert_eq!(result.branches.len(), 1);
    assert_eq!(result.branches[0].key_template, expected_template);
    assert_eq!(result.branches[0].target_type, TargetType::List);
    assert_eq!(result.branches[0].extractions.len(), 1);
    assert_eq!(result.branches[0].extractions[0].key_leaf_name, "name");
}

#[test]
fn p2_02_redundant_prefix_normalized() {
    let xpath = "/ietf-interfaces:interfaces/ietf-interfaces:interface";
    let expected_template = "/ietf-interfaces:interfaces/interface[name='%s']";

    let result = derive(xpath).expect("derivation failed");

    assert_eq!(result.branches[0].key_template, expected_template);
}

#[test]
fn p2_03_composite_key_two_leaves() {
    let xpath = "/example-routes:routes/route";
    let expected_template = "/example-routes:routes/route[destination-prefix='%s'][next-hop='%s']";

    let result = derive(xpath).expect("derivation failed");

    assert_eq!(result.branches[0].key_template, expected_template);
    assert_eq!(result.branches[0].extractions.len(), 2);
    assert_eq!(
        result.branches[0].extractions[0].key_leaf_name,
        "destination-prefix"
    );
    assert_eq!(result.branches[0].extractions[1].key_leaf_name, "next-hop");
}

#[test]
fn p2_04_nested_lists() {
    let xpath = "/example-network:network-instances/network-instance/interface";
    let expected_template =
        "/example-network:network-instances/network-instance[name='%s']/interface[id='%s']";

    let result = derive(xpath).expect("derivation failed");

    assert_eq!(result.branches[0].key_template, expected_template);
    assert_eq!(result.branches[0].extractions.len(), 2);
    assert_eq!(
        result.branches[0].extractions[0].list_name,
        "network-instance"
    );
    assert_eq!(result.branches[0].extractions[1].list_name, "interface");
}

#[test]
fn p2_05_container_only_no_placeholders() {
    let xpath = "/ietf-system:system/clock";
    let expected_template = "/ietf-system:system/clock";

    let result = derive(xpath).expect("derivation failed");

    assert_eq!(result.branches[0].key_template, expected_template);
    assert_eq!(result.branches[0].target_type, TargetType::Container);
    assert_eq!(result.branches[0].extractions.len(), 0);
}

#[test]
fn p2_06_leaf_inside_list() {
    let xpath = "/ietf-interfaces:interfaces/interface/ietf-ip:ipv4/mtu";
    let expected_template = "/ietf-interfaces:interfaces/interface[name='%s']/ietf-ip:ipv4/mtu";

    let result = derive(xpath).expect("derivation failed");

    assert_eq!(result.branches[0].key_template, expected_template);
    assert_eq!(result.branches[0].target_type, TargetType::Leaf);
    assert_eq!(result.branches[0].extractions.len(), 1);
}

#[test]
fn p2_07_leaf_list_target() {
    let xpath = "/ietf-system:system/dns-resolver/search";
    let expected_template = "/ietf-system:system/dns-resolver/search[.='%s']";

    let result = derive(xpath).expect("derivation failed");

    assert_eq!(result.branches[0].key_template, expected_template);
    assert_eq!(result.branches[0].target_type, TargetType::LeafList);
    assert_eq!(result.branches[0].extractions[0].key_leaf_name, ".");
}

#[test]
fn p2_08_deep_nested_composite_keys() {
    let xpath = "/example-acl:access-lists/access-list/access-list-entry";
    let expected_template = "/example-acl:access-lists/access-list[name='%s'][type='%s']\
                             /access-list-entry[sequence-id='%s']";

    let result = derive(xpath).expect("derivation failed");

    assert_eq!(result.branches[0].key_template, expected_template);
    assert_eq!(result.branches[0].extractions.len(), 3);
}

#[test]
fn p2_10_three_levels_of_nesting() {
    let xpath = "/example-deep:root/level1/level2/level3";
    let expected_template = "/example-deep:root/level1[id='%s']/level2[id='%s']/level3[id='%s']";

    let result = derive(xpath).expect("derivation failed");

    assert_eq!(result.branches[0].key_template, expected_template);
    assert_eq!(result.branches[0].extractions.len(), 3);
}

#[test]
fn p2_11_leaf_inside_deep_composite() {
    let xpath = "/example-acl:access-lists/access-list/access-list-entry/action";
    let expected_template = "/example-acl:access-lists/access-list[name='%s'][type='%s']\
                             /access-list-entry[sequence-id='%s']/action";

    let result = derive(xpath).expect("derivation failed");

    assert_eq!(result.branches[0].key_template, expected_template);
    assert_eq!(result.branches[0].target_type, TargetType::Leaf);
    assert_eq!(result.branches[0].extractions.len(), 3);
}

#[test]
fn p2_09_union_two_list_branches() {
    let xpath = "/ietf-interfaces:interfaces/interface | /example-vlans:vlans/vlan";

    let result = derive(xpath).expect("derivation failed");

    assert_eq!(result.branches.len(), 2);
    assert!(
        result.branches[0]
            .key_template
            .contains("interface[name='%s']")
    );
    assert!(
        result.branches[1]
            .key_template
            .contains("vlan[vlan-id='%s']")
    );
}

#[test]
fn p2_10b_union_three_branches_mixed_types() {
    let xpath = "/ietf-interfaces:interfaces/interface \
                 | /ietf-system:system/clock \
                 | /ietf-system:system/dns-resolver/search";

    let result = derive(xpath).expect("derivation failed");

    assert_eq!(result.branches.len(), 3);
    assert_eq!(result.branches[0].target_type, TargetType::List);
    assert_eq!(result.branches[1].target_type, TargetType::Container);
    assert_eq!(result.branches[2].target_type, TargetType::LeafList);
}

#[test]
fn p2_21_union_one_concrete_one_open() {
    let xpath = "/ietf-interfaces:interfaces/interface[name='eth0'] \
                 | /example-vlans:vlans/vlan";

    let result = derive(xpath).expect("derivation failed");

    assert_eq!(result.branches.len(), 2);
    assert_eq!(result.branches[0].extractions.len(), 0);
    assert_eq!(result.branches[1].extractions.len(), 1);
}

#[test]
fn p2_13_fully_concrete_single_key() {
    let xpath = "/ietf-interfaces:interfaces/interface[name='eth0']";
    let expected_template = "/ietf-interfaces:interfaces/interface[name='eth0']";

    let result = derive(xpath).expect("derivation failed");

    assert_eq!(result.branches[0].key_template, expected_template);
    assert_eq!(result.branches[0].extractions.len(), 0);
}

#[test]
fn p2_14_fully_concrete_nested() {
    let xpath = "/example-network:network-instances\
                 /network-instance[name='default']\
                 /interface[id='eth0']";

    let result = derive(xpath).expect("derivation failed");

    assert!(result.branches[0].key_template.contains("[name='default']"));
    assert!(result.branches[0].key_template.contains("[id='eth0']"));
    assert_eq!(result.branches[0].extractions.len(), 0);
}

#[test]
fn p2_15_partial_concrete_outer_pinned_inner_open() {
    let xpath = "/example-network:network-instances\
                 /network-instance[name='mgmt']/interface";
    let expected_template =
        "/example-network:network-instances/network-instance[name='mgmt']/interface[id='%s']";

    let result = derive(xpath).expect("derivation failed");

    assert_eq!(result.branches[0].key_template, expected_template);
    assert_eq!(result.branches[0].extractions.len(), 1);
    assert_eq!(result.branches[0].extractions[0].key_leaf_name, "id");
}

#[test]
fn p2_16_fully_concrete_composite_key() {
    let xpath = "/example-routes:routes/route\
                 [destination-prefix='10.0.0.0/8'][next-hop='192.168.1.1']";

    let result = derive(xpath).expect("derivation failed");

    assert!(
        result.branches[0]
            .key_template
            .contains("[destination-prefix='10.0.0.0/8']")
    );
    assert!(
        result.branches[0]
            .key_template
            .contains("[next-hop='192.168.1.1']")
    );
    assert_eq!(result.branches[0].extractions.len(), 0);
}

#[test]
fn p2_17_partial_composite_one_pinned_one_open() {
    let xpath = "/example-routes:routes/route[destination-prefix='10.0.0.0/8']";
    let expected_template =
        "/example-routes:routes/route[destination-prefix='10.0.0.0/8'][next-hop='%s']";

    let result = derive(xpath).expect("derivation failed");

    assert_eq!(result.branches[0].key_template, expected_template);
    assert_eq!(result.branches[0].extractions.len(), 1);
    assert_eq!(result.branches[0].extractions[0].key_leaf_name, "next-hop");
}

#[test]
fn p2_18_double_quoted_value_normalized() {
    let xpath = r#"/ietf-interfaces:interfaces/interface[name="eth0"]"#;
    let expected_template = "/ietf-interfaces:interfaces/interface[name='eth0']";

    let result = derive(xpath).expect("derivation failed");

    assert_eq!(result.branches[0].key_template, expected_template);
    assert_eq!(result.branches[0].extractions.len(), 0);
}

#[test]
fn p2_19_positional_predicate_treated_as_open() {
    let xpath = "/example-network:network-instances/network-instance[1]/interface";

    let result = derive(xpath).expect("derivation failed");

    assert!(result.branches[0].key_template.contains("[name='%s']"));
    assert_eq!(result.branches[0].extractions.len(), 2);
}

#[test]
fn p2_20_value_containing_single_quote() {
    let xpath = r#"/ietf-interfaces:interfaces/interface[name="O'Brien"]"#;

    let result = derive(xpath).expect("derivation failed");

    assert!(result.branches[0].key_template.contains(r#""O'Brien""#));
    assert_eq!(result.branches[0].extractions.len(), 0);
}

#[test]
fn p2_22_concrete_leaf_inside_concrete_list() {
    let xpath = "/ietf-interfaces:interfaces/interface[name='eth0']/ietf-ip:ipv4/mtu";
    let expected_template = "/ietf-interfaces:interfaces/interface[name='eth0']/ietf-ip:ipv4/mtu";

    let result = derive(xpath).expect("derivation failed");

    assert_eq!(result.branches[0].key_template, expected_template);
    assert_eq!(result.branches[0].target_type, TargetType::Leaf);
    assert_eq!(result.branches[0].extractions.len(), 0);
}

#[test]
fn p2_23_concrete_leaf_list_value() {
    let xpath = "/ietf-system:system/dns-resolver/search[.='example.com']";

    let result = derive(xpath).expect("derivation failed");

    assert!(
        result.branches[0]
            .key_template
            .contains("[.='example.com']")
    );
    assert_eq!(result.branches[0].target_type, TargetType::LeafList);
    assert_eq!(result.branches[0].extractions.len(), 0);
}

#[test]
fn p2_24_deep_mixed_outer_pinned_inner_open() {
    let xpath = "/example-acl:access-lists\
                 /access-list[name='fw-in'][type='ipv4']\
                 /access-list-entry";
    let expected_template = "/example-acl:access-lists/access-list[name='fw-in'][type='ipv4']\
                             /access-list-entry[sequence-id='%s']";

    let result = derive(xpath).expect("derivation failed");

    assert_eq!(result.branches[0].key_template, expected_template);
    assert_eq!(result.branches[0].extractions.len(), 1);
    assert_eq!(
        result.branches[0].extractions[0].key_leaf_name,
        "sequence-id"
    );
}

#[test]
fn p2_25_module_prefixed_predicate_key() {
    let xpath = "/ietf-interfaces:interfaces/interface[ietf-interfaces:name='eth0']";

    let result = derive(xpath).expect("derivation failed");

    assert_eq!(
        result.branches[0].key_template,
        "/ietf-interfaces:interfaces/interface[name='eth0']"
    );
    assert_eq!(result.branches[0].extractions.len(), 0);
}

#[test]
fn p2_unknown_node_does_not_resolve() {
    let xpath = "/ietf-interfaces:interfaces/nothing";
    assert_eq!(
        derive(xpath).unwrap_err(),
        "cannot resolve schema for '/ietf-interfaces:interfaces/nothing'"
    );
}
