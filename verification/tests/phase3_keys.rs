use yang_push_key::phase1::{build_tree, read_xml_events, NsModule};
use yang_push_key::phase2::{SchemaKind, SchemaNodeInfo};
use yang_push_key::phase3::DataNode;
use yang_push_key::types::DerivationResult;
use yang_push_key::xpath::parse_xpath_steps;
use yang_push_key::{
    derive_templates_with, normalize_subtree, produce_message_key_from, MessageKeyResult,
};

const IF_NS: &str = "urn:ietf:params:xml:ns:yang:ietf-interfaces";
const IP_NS: &str = "urn:ietf:params:xml:ns:yang:ietf-ip";
const SYS_NS: &str = "urn:ietf:params:xml:ns:yang:ietf-system";
const NET_NS: &str = "urn:example:network";
const ROUTES_NS: &str = "urn:example:routes";

/// A schema node of the test modules: module, name, kind, keys, parent.
struct Node {
    module: &'static str,
    name: &'static str,
    kind: SchemaKind,
    keys: &'static [&'static str],
    parent: Option<usize>,
}

fn node(
    module: &'static str,
    name: &'static str,
    kind: SchemaKind,
    keys: &'static [&'static str],
    parent: Option<usize>,
) -> Node {
    Node { module, name, kind, keys, parent }
}

/// The schema trees of the test modules.
fn schema() -> Vec<Node> {
    vec![
        node("ietf-interfaces", "interfaces", SchemaKind::Container, &[], None),
        node("ietf-interfaces", "interface", SchemaKind::List, &["name"], Some(0)),
        node("ietf-interfaces", "name", SchemaKind::Leaf, &[], Some(1)),
        node("ietf-interfaces", "oper-status", SchemaKind::Leaf, &[], Some(1)),
        node("ietf-ip", "ipv4", SchemaKind::Container, &[], Some(1)),
        node("ietf-ip", "mtu", SchemaKind::Leaf, &[], Some(4)),
        node("ietf-system", "system", SchemaKind::Container, &[], None),
        node("ietf-system", "clock", SchemaKind::Container, &[], Some(6)),
        node("ietf-system", "timezone-utc-offset", SchemaKind::Leaf, &[], Some(7)),
        node("ietf-system", "dns-resolver", SchemaKind::Container, &[], Some(6)),
        node("ietf-system", "search", SchemaKind::LeafList, &[], Some(9)),
        node("example-routes", "routes", SchemaKind::Container, &[], None),
        node("example-routes", "route", SchemaKind::List, &["destination-prefix", "next-hop"], Some(11)),
        node("example-routes", "destination-prefix", SchemaKind::Leaf, &[], Some(12)),
        node("example-routes", "next-hop", SchemaKind::Leaf, &[], Some(12)),
        node("example-network", "network-instances", SchemaKind::Container, &[], None),
        node("example-network", "network-instance", SchemaKind::List, &["name"], Some(15)),
        node("example-network", "name", SchemaKind::Leaf, &[], Some(16)),
        node("example-network", "interface", SchemaKind::List, &["id"], Some(16)),
        node("example-network", "id", SchemaKind::Leaf, &[], Some(18)),
        node("example-network", "status", SchemaKind::Leaf, &[], Some(18)),
    ]
}

fn table() -> Vec<NsModule> {
    [
        (IF_NS, "ietf-interfaces"),
        (IP_NS, "ietf-ip"),
        (SYS_NS, "ietf-system"),
        (NET_NS, "example-network"),
        (ROUTES_NS, "example-routes"),
    ]
    .iter()
    .map(|(ns, m)| NsModule {
        namespace: ns.to_string(),
        module: m.to_string(),
    })
    .collect()
}

/// The ancestor chain (target first) of the schema node a branch names.
fn resolve_branch(branch: &str) -> Option<Vec<SchemaNodeInfo>> {
    let nodes = schema();
    let mut parent: Option<usize> = None;
    let mut path = Vec::new();
    for step in parse_xpath_steps(branch) {
        let i = nodes
            .iter()
            .position(|n| n.parent == parent && n.name == step.local_name)?;
        path.push(i);
        parent = Some(i);
    }
    if path.is_empty() {
        return None;
    }
    Some(
        path.iter()
            .rev()
            .map(|&i| SchemaNodeInfo {
                module: nodes[i].module.to_string(),
                name: nodes[i].name.to_string(),
                kind: nodes[i].kind,
                keys: nodes[i].keys.iter().map(|k| k.to_string()).collect(),
            })
            .collect(),
    )
}

/// Phase 2 against the test schema.
fn derive(xpath: &str) -> DerivationResult {
    derive_templates_with(xpath, resolve_branch).expect("derivation failed")
}

/// Notification data read into data trees against the test schema.
fn parse_data(xml: &str) -> Result<Vec<DataNode>, String> {
    let tree = build_tree(&read_xml_events(xml))?;
    let nodes = schema();
    let tab = table();
    // schema node index and schema path of each element
    let mut info: Vec<(usize, String)> = Vec::new();
    for e in &tree.elems {
        let ns = e.namespace.clone().ok_or("element without namespace")?;
        let module = &tab.iter().find(|m| m.namespace == ns).ok_or("unknown namespace")?.module;
        let parent_schema = e.parent.map(|p| info[p].0);
        let i = nodes
            .iter()
            .position(|n| n.parent == parent_schema && n.name == e.local_name && n.module == module)
            .ok_or(format!("unknown element '{}'", e.local_name))?;
        let path = match (e.parent, parent_schema) {
            (Some(p), Some(ps)) if nodes[ps].module == nodes[i].module => {
                format!("{}/{}", info[p].1, nodes[i].name)
            }
            (Some(p), _) => format!("{}/{}:{}", info[p].1, nodes[i].module, nodes[i].name),
            (None, _) => format!("/{}:{}", nodes[i].module, nodes[i].name),
        };
        info.push((i, path));
    }
    Ok((0..tree.elems.len())
        .filter(|&k| tree.elems[k].parent.is_none())
        .map(|k| build(k, &tree.elems, &nodes, &info))
        .collect())
}

/// The data tree of element `k` and its descendants.
fn build(k: usize, tree: &[yang_push_key::phase1::XmlElem], nodes: &[Node], info: &[(usize, String)]) -> DataNode {
    let n = &nodes[info[k].0];
    let leafy = n.kind == SchemaKind::Leaf || n.kind == SchemaKind::LeafList;
    DataNode {
        name: n.name.to_string(),
        kind: n.kind,
        schema_path: info[k].1.clone(),
        value: if leafy { Some(tree[k].text.clone().unwrap_or_default()) } else { None },
        children: (0..tree.len())
            .filter(|&c| tree[c].parent == Some(k))
            .map(|c| build(c, tree, nodes, info))
            .collect(),
    }
}

fn key(derivation: &DerivationResult, data: &str, node: &str, sub: &str) -> MessageKeyResult {
    produce_message_key_from(derivation, data, parse_data, node, sub)
        .expect("key production failed")
}

fn if_single() -> String {
    format!(
        "<interfaces xmlns=\"{}\">\n  <interface>\n    <name>eth0</name>\n    <oper-status>up</oper-status>\n  </interface>\n</interfaces>\n",
        IF_NS
    )
}

fn ni_single() -> String {
    format!(
        "<network-instances xmlns=\"{}\"><network-instance><name>default</name><interface><id>eth0</id><status>up</status></interface></network-instance></network-instances>",
        NET_NS
    )
}

// Single-instance notifications

#[test]
fn p3_01_single_list_instance() {
    let derivation = derive("/ietf-interfaces:interfaces/interface");
    let result = key(&derivation, &if_single(), "router-nyc-01", "1042");
    assert_eq!(
        result.message_key,
        "router-nyc-01\n1042\n/ietf-interfaces:interfaces/interface[name='eth0']"
    );
}

#[test]
fn p3_03_nested_list_instance() {
    let derivation = derive("/example-network:network-instances/network-instance/interface");
    let result = key(&derivation, &ni_single(), "switch-dc-12", "7500");
    assert_eq!(
        result.message_key,
        "switch-dc-12\n7500\n/example-network:network-instances/network-instance[name='default']/interface[id='eth0']"
    );
}

#[test]
fn p3_05_composite_key_extraction() {
    let derivation = derive("/example-routes:routes/route");
    let data = format!(
        "<routes xmlns=\"{}\"><route><destination-prefix>10.0.0.0/8</destination-prefix><next-hop>192.0.2.1</next-hop></route></routes>",
        ROUTES_NS
    );
    let result = key(&derivation, &data, "router-west-05", "3001");
    assert_eq!(
        result.message_key,
        "router-west-05\n3001\n/example-routes:routes/route[destination-prefix='10.0.0.0/8'][next-hop='192.0.2.1']"
    );
}

#[test]
fn p3_07_leaf_inside_list() {
    let derivation = derive("/ietf-interfaces:interfaces/interface/ietf-ip:ipv4/mtu");
    let data = format!(
        "<interfaces xmlns=\"{}\"><interface><name>eth0</name><ipv4 xmlns=\"{}\"><mtu>1500</mtu></ipv4></interface></interfaces>",
        IF_NS, IP_NS
    );
    let result = key(&derivation, &data, "router-nyc-01", "1043");
    assert_eq!(
        result.message_key,
        "router-nyc-01\n1043\n/ietf-interfaces:interfaces/interface[name='eth0']/ietf-ip:ipv4/mtu"
    );
}

// Container (no list instances)

#[test]
fn p3_04_container_produces_fixed_key() {
    let derivation = derive("/ietf-system:system/clock");
    let data = format!(
        "<system xmlns=\"{}\"><clock><timezone-utc-offset>60</timezone-utc-offset></clock></system>",
        SYS_NS
    );
    let result = key(&derivation, &data, "switch-lab-02", "2001");
    assert_eq!(result.message_key, "switch-lab-02\n2001\n/ietf-system:system/clock");
}

// Multi-instance notifications (sorted + concatenated)

#[test]
fn p3_02_multiple_instances_sorted() {
    let derivation = derive("/ietf-interfaces:interfaces/interface");
    let data = format!(
        "<interfaces xmlns=\"{}\"><interface><name>eth1</name></interface><interface><name>eth0</name></interface></interfaces>",
        IF_NS
    );
    let result = key(&derivation, &data, "router-nyc-01", "1042");
    assert_eq!(
        result.message_key,
        "router-nyc-01\n1042\n/ietf-interfaces:interfaces/interface[name='eth0'] | /ietf-interfaces:interfaces/interface[name='eth1']"
    );
    assert_eq!(result.key.xpaths.len(), 2);
    assert!(result.key.xpaths[0].contains("[name='eth0']"));
    assert!(result.key.xpaths[1].contains("[name='eth1']"));
}

#[test]
fn p3_08_nested_multiple_inner_instances() {
    let derivation = derive("/example-network:network-instances/network-instance/interface");
    let data = format!(
        "<network-instances xmlns=\"{}\"><network-instance><name>default</name><interface><id>eth1</id></interface><interface><id>eth0</id></interface></network-instance></network-instances>",
        NET_NS
    );
    let result = key(&derivation, &data, "switch-dc-12", "7500");
    assert_eq!(result.key.xpaths.len(), 2);
    assert!(result.key.xpaths[0].contains("[id='eth0']"));
    assert!(result.key.xpaths[1].contains("[id='eth1']"));
}

// Leaf-list runtime

#[test]
fn p3_09_leaf_list_values() {
    let derivation = derive("/ietf-system:system/dns-resolver/search");
    let data = format!(
        "<system xmlns=\"{}\"><dns-resolver><search>example.com</search><search>corp.example.com</search></dns-resolver></system>",
        SYS_NS
    );
    let result = key(&derivation, &data, "router-east-03", "6000");
    assert_eq!(result.key.xpaths.len(), 2);
    assert!(result.key.xpaths[0].contains("corp.example.com"));
    assert_eq!(
        result.key.xpaths[0],
        "/ietf-system:system/dns-resolver/search[.='corp.example.com']"
    );
}

// Cross-device isolation

#[test]
fn p3_06_same_data_different_nodes_produce_distinct_keys() {
    let derivation = derive("/ietf-interfaces:interfaces/interface");
    let key_a = key(&derivation, &if_single(), "router-nyc-01", "1042");
    let key_b = key(&derivation, &if_single(), "router-lon-01", "1042");
    assert_ne!(key_a.message_key, key_b.message_key);
    assert_eq!(key_a.key.node_name, "router-nyc-01");
    assert_eq!(key_b.key.node_name, "router-lon-01");
    assert_eq!(key_a.key.xpaths, key_b.key.xpaths);
}

// Parse failures

#[test]
fn data_that_cannot_be_parsed_is_reported_with_prefix() {
    let derivation = derive("/ietf-interfaces:interfaces/interface");
    let err = produce_message_key_from(
        &derivation,
        "  <unknown xmlns=\"urn:x\"/>  ",
        |xml: &str| {
            assert_eq!(xml, "<unknown xmlns=\"urn:x\"/>");
            Err("boom".to_string())
        },
        "n",
        "1",
    )
    .unwrap_err();
    assert_eq!(err, "failed to parse data XML: boom");
}

#[test]
fn derive_with_asks_once_per_branch_in_order() {
    let asked = std::cell::RefCell::new(Vec::new());
    let d = derive_templates_with(
        "/ietf-system:system/clock | /ietf-interfaces:interfaces/interface",
        |b: &str| {
            asked.borrow_mut().push(b.to_string());
            resolve_branch(b)
        },
    )
    .unwrap();
    assert_eq!(
        *asked.borrow(),
        vec![
            "/ietf-system:system/clock".to_string(),
            "/ietf-interfaces:interfaces/interface".to_string()
        ]
    );
    assert_eq!(d.branches[1].key_template, "/ietf-interfaces:interfaces/interface[name='%s']");
    let err = derive_templates_with("/nowhere:x", resolve_branch).unwrap_err();
    assert_eq!(err, "cannot resolve schema for '/nowhere:x'");
}

// Phase 1 -> Phase 2

#[test]
fn pipeline_p1_to_p2_pinned_key_and_container() {
    let filter_xml = format!(
        "<filter xmlns=\"urn:ietf:params:xml:ns:netconf:base:1.0\" type=\"subtree\">\
         <interfaces xmlns=\"{}\"><interface><name>eth0</name><ipv4 xmlns=\"{}\"><mtu/></ipv4></interface></interfaces>\
         <system xmlns=\"{}\"><clock/></system></filter>",
        IF_NS, IP_NS, SYS_NS
    );
    let xpath = normalize_subtree(&table(), &filter_xml).expect("Phase 1 failed");
    let result = derive(&xpath);
    assert_eq!(result.branches.len(), 2);
    assert!(result.branches[0].key_template.contains("[name='eth0']"));
    assert_eq!(result.branches[0].extractions.len(), 0);
    assert_eq!(result.branches[1].key_template, "/ietf-system:system/clock");
    assert_eq!(result.branches[1].extractions.len(), 0);
}

fn content_nested_filter() -> String {
    format!(
        "<network-instances xmlns=\"{}\"><network-instance><name>default</name><interface/></network-instance></network-instances>",
        NET_NS
    )
}

#[test]
fn pipeline_p1_to_p2_outer_pinned_inner_open() {
    let xpath = normalize_subtree(&table(), &content_nested_filter()).expect("Phase 1 failed");
    let result = derive(&xpath);
    assert_eq!(result.branches.len(), 1);
    assert!(result.branches[0].key_template.contains("[name='default']"));
    assert_eq!(result.branches[0].extractions.len(), 1);
    assert_eq!(result.branches[0].extractions[0].key_leaf_name, "id");
}

// Phase 1 -> Phase 2 -> Phase 3

#[test]
fn pipeline_p1_to_p2_to_p3_full_roundtrip() {
    let filter_xml = format!("<interfaces xmlns=\"{}\"><interface/></interfaces>", IF_NS);
    let xpath = normalize_subtree(&table(), &filter_xml).expect("Phase 1 failed");
    let derivation = derive(&xpath);
    let result = key(&derivation, &if_single(), "router-nyc-01", "1042");
    assert_eq!(
        result.message_key,
        "router-nyc-01\n1042\n/ietf-interfaces:interfaces/interface[name='eth0']"
    );
}

#[test]
fn pipeline_p1_to_p2_to_p3_nested_with_content_match() {
    let xpath = normalize_subtree(&table(), &content_nested_filter()).expect("Phase 1 failed");
    let derivation = derive(&xpath);
    let result = key(&derivation, &ni_single(), "switch-dc-12", "7500");
    assert_eq!(result.key.node_name, "switch-dc-12");
    assert_eq!(result.key.subscription_id, "7500");
    assert!(result.key.xpaths[0].contains("[name='default']"));
    assert!(result.key.xpaths[0].contains("[id='eth0']"));
}
