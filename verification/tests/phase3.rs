use yang_push_key::phase2::SchemaKind;
use yang_push_key::phase3::{fill_template, DataNode};
use yang_push_key::types::{BranchTemplate, DerivationResult, ExtractionSpec, TargetType};
use yang_push_key::produce_message_key;

fn leaf(path: &str, name: &str, value: &str) -> DataNode {
    DataNode {
        name: name.to_string(),
        kind: SchemaKind::Leaf,
        schema_path: path.to_string(),
        value: Some(value.to_string()),
        children: vec![],
    }
}

fn inner(path: &str, name: &str, kind: SchemaKind, children: Vec<DataNode>) -> DataNode {
    DataNode {
        name: name.to_string(),
        kind,
        schema_path: path.to_string(),
        value: None,
        children,
    }
}

const IFS: &str = "/ietf-interfaces:interfaces";
const IF: &str = "/ietf-interfaces:interfaces/interface";

fn interface(name: &str, mtu: Option<&str>) -> DataNode {
    let mut children = vec![leaf(&format!("{}/name", IF), "name", name)];
    if let Some(m) = mtu {
        children.push(leaf(&format!("{}/mtu", IF), "mtu", m));
    }
    inner(IF, "interface", SchemaKind::List, children)
}

fn interfaces(list: Vec<DataNode>) -> DataNode {
    inner(IFS, "interfaces", SchemaKind::Container, list)
}

fn branch(i: usize, template: &str, extractions: Vec<ExtractionSpec>, tt: TargetType) -> BranchTemplate {
    BranchTemplate {
        branch_index: i,
        branch_xpath: String::new(),
        key_template: template.to_string(),
        extractions,
        target_type: tt,
    }
}

fn interface_derivation() -> DerivationResult {
    let t = "/ietf-interfaces:interfaces/interface[name='%s']";
    DerivationResult {
        subscription_xpath: "/ietf-interfaces:interfaces/ietf-interfaces:interface".to_string(),
        branches: vec![branch(
            0,
            t,
            vec![ExtractionSpec::for_list_key("name", "ietf-interfaces", "interface", t)],
            TargetType::List,
        )],
    }
}

#[test]
fn message_key_for_instances_is_sorted_and_line_delimited() {
    let roots = vec![interfaces(vec![interface("eth1", None), interface("eth0", None)])];
    let r = produce_message_key(&interface_derivation(), &roots, "router-nyc-01", "1042").unwrap();
    assert_eq!(
        r.key.xpaths,
        vec![
            "/ietf-interfaces:interfaces/interface[name='eth0']".to_string(),
            "/ietf-interfaces:interfaces/interface[name='eth1']".to_string(),
        ]
    );
    assert_eq!(r.key.node_name, "router-nyc-01");
    assert_eq!(r.key.subscription_id, "1042");
    assert_eq!(
        r.message_key,
        "router-nyc-01\n1042\n/ietf-interfaces:interfaces/interface[name='eth0'] | /ietf-interfaces:interfaces/interface[name='eth1']"
    );
}

#[test]
fn message_key_deduplicates_instances() {
    let roots = vec![interfaces(vec![interface("eth0", None), interface("eth0", None)])];
    let r = produce_message_key(&interface_derivation(), &roots, "r", "1").unwrap();
    assert_eq!(r.key.xpaths.len(), 1);
    assert_eq!(r.message_key, "r\n1\n/ietf-interfaces:interfaces/interface[name='eth0']");
}

#[test]
fn message_key_for_leaf_below_list_uses_ancestor_key() {
    let t = "/ietf-interfaces:interfaces/interface[name='%s']/mtu";
    let d = DerivationResult {
        subscription_xpath: String::new(),
        branches: vec![branch(
            0,
            t,
            vec![ExtractionSpec::for_list_key(
                "name",
                "ietf-interfaces",
                "interface",
                "/ietf-interfaces:interfaces/interface[name='%s']",
            )],
            TargetType::Leaf,
        )],
    };
    let roots = vec![interfaces(vec![interface("eth0", Some("1500")), interface("eth1", None)])];
    let r = produce_message_key(&d, &roots, "r", "7").unwrap();
    assert_eq!(
        r.key.xpaths,
        vec!["/ietf-interfaces:interfaces/interface[name='eth0']/mtu".to_string()]
    );
}

#[test]
fn message_key_for_leaf_list_uses_own_value() {
    let t = "/ietf-system:system/dns-resolver/search[.='%s']";
    let d = DerivationResult {
        subscription_xpath: String::new(),
        branches: vec![branch(
            0,
            t,
            vec![ExtractionSpec::for_leaf_list_value("ietf-system", "search")],
            TargetType::LeafList,
        )],
    };
    let sp = "/ietf-system:system/dns-resolver/search";
    let mut a = leaf(sp, "search", "b.example");
    a.kind = SchemaKind::LeafList;
    let mut b = leaf(sp, "search", "a.example");
    b.kind = SchemaKind::LeafList;
    let resolver = inner("/ietf-system:system/dns-resolver", "dns-resolver", SchemaKind::Container, vec![a, b]);
    let roots = vec![inner("/ietf-system:system", "system", SchemaKind::Container, vec![resolver])];
    let r = produce_message_key(&d, &roots, "n", "5").unwrap();
    assert_eq!(
        r.key.xpaths,
        vec![
            "/ietf-system:system/dns-resolver/search[.='a.example']".to_string(),
            "/ietf-system:system/dns-resolver/search[.='b.example']".to_string(),
        ]
    );
}

#[test]
fn message_key_for_container_without_instances_is_its_template() {
    let d = DerivationResult {
        subscription_xpath: String::new(),
        branches: vec![branch(0, "/ietf-system:system/clock", vec![], TargetType::Container)],
    };
    let r = produce_message_key(&d, &vec![], "n", "5").unwrap();
    assert_eq!(r.key.xpaths, vec!["/ietf-system:system/clock".to_string()]);
    assert_eq!(r.message_key, "n\n5\n/ietf-system:system/clock");
}

#[test]
fn message_key_without_matching_instance_is_an_error() {
    let roots = vec![interfaces(vec![])];
    assert_eq!(
        produce_message_key(&interface_derivation(), &roots, "n", "5").unwrap_err(),
        "no matching instances in notification"
    );
}

#[test]
fn message_key_skips_instance_without_key_value() {
    let broken = inner(IF, "interface", SchemaKind::List, vec![]);
    let roots = vec![interfaces(vec![broken, interface("eth2", None)])];
    let r = produce_message_key(&interface_derivation(), &roots, "n", "5").unwrap();
    assert_eq!(
        r.key.xpaths,
        vec!["/ietf-interfaces:interfaces/interface[name='eth2']".to_string()]
    );
}

#[test]
fn message_key_does_not_depend_on_root_order() {
    let other = inner("/ietf-system:system", "system", SchemaKind::Container, vec![]);
    let a = vec![interfaces(vec![interface("eth0", None)]), other];
    let other = inner("/ietf-system:system", "system", SchemaKind::Container, vec![]);
    let b = vec![other, interfaces(vec![interface("eth0", None)])];
    let ka = produce_message_key(&interface_derivation(), &a, "n", "5").unwrap();
    let kb = produce_message_key(&interface_derivation(), &b, "n", "5").unwrap();
    assert_eq!(ka.message_key, kb.message_key);
}

#[test]
fn message_keys_differ_by_node_and_subscription() {
    let roots = vec![interfaces(vec![interface("eth0", None)])];
    let d = interface_derivation();
    let a = produce_message_key(&d, &roots, "router-a", "1").unwrap();
    let b = produce_message_key(&d, &roots, "router-b", "1").unwrap();
    let c = produce_message_key(&d, &roots, "router-a", "2").unwrap();
    assert_ne!(a.message_key, b.message_key);
    assert_ne!(a.message_key, c.message_key);
}

#[test]
fn fill_template_replaces_placeholders_in_order() {
    let t = "/example-routes:routes/route[prefix='%s'][next-hop='%s']";
    let b = branch(
        0,
        t,
        vec![
            ExtractionSpec::for_list_key("prefix", "example-routes", "route", "/example-routes:routes/route[prefix='%s']"),
            ExtractionSpec::for_list_key("next-hop", "example-routes", "route", t),
        ],
        TargetType::List,
    );
    let route = inner(
        "/example-routes:routes/route",
        "route",
        SchemaKind::List,
        vec![
            leaf("/example-routes:routes/route/next-hop", "next-hop", "10.0.0.1"),
            leaf("/example-routes:routes/route/prefix", "prefix", "p1"),
        ],
    );
    let routes = inner("/example-routes:routes", "routes", SchemaKind::Container, vec![]);
    let path = vec![&routes, &route];
    assert_eq!(
        fill_template(&path, &b).unwrap(),
        "/example-routes:routes/route[prefix='p1'][next-hop='10.0.0.1']"
    );
    let only_routes = vec![&routes];
    assert!(fill_template(&only_routes, &b).is_none());
}

#[test]
fn fill_template_fills_by_position_even_when_a_value_holds_a_placeholder() {
    let t = "/m:r/l[a='%s'][b='%s']";
    let b = branch(
        0,
        t,
        vec![
            ExtractionSpec::for_list_key("a", "m", "l", "/m:r/l[a='%s']"),
            ExtractionSpec::for_list_key("b", "m", "l", t),
        ],
        TargetType::List,
    );
    let l = inner(
        "/m:r/l",
        "l",
        SchemaKind::List,
        vec![leaf("/m:r/l/a", "a", "x%sy"), leaf("/m:r/l/b", "b", "z")],
    );
    let r = inner("/m:r", "r", SchemaKind::Container, vec![]);
    let path = vec![&r, &l];
    assert_eq!(fill_template(&path, &b).unwrap(), "/m:r/l[a='x%sy'][b='z']");
}

#[test]
fn fill_template_leaves_placeholders_beyond_the_extractions() {
    let t = "/m:r/l[a='%s'][b='%s']";
    let b = branch(
        0,
        t,
        vec![ExtractionSpec::for_list_key("a", "m", "l", "/m:r/l[a='%s']")],
        TargetType::List,
    );
    let l = inner("/m:r/l", "l", SchemaKind::List, vec![leaf("/m:r/l/a", "a", "v")]);
    let r = inner("/m:r", "r", SchemaKind::Container, vec![]);
    let path = vec![&r, &l];
    assert_eq!(fill_template(&path, &b).unwrap(), "/m:r/l[a='v'][b='%s']");
}
